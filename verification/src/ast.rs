//! The abstract syntax tree of a boolean expression, its evaluation
//! semantics, and the collection of the variables it mentions.

use vstd::prelude::*;
use vstd::string::StringExecFns;

verus! {

/// A boolean expression: a strict tree whose leaves are variables and whose
/// inner nodes are the connectives `and`, `or` and `not`.
#[derive(Debug, PartialEq)]
pub enum Ast {
    And(Box<Ast>, Box<Ast>),
    Or(Box<Ast>, Box<Ast>),
    Not(Box<Ast>),
    Var(String),
}

/// The value of an expression under an assignment of variables to booleans.
/// A variable absent from the assignment evaluates to `false`; no other
/// outcome is possible, so evaluation never fails.
pub open spec fn spec_eval(ast: Ast, m: Map<Seq<char>, bool>) -> bool
    decreases ast,
{
    match ast {
        Ast::And(l, r) => spec_eval(*l, m) && spec_eval(*r, m),
        Ast::Or(l, r) => spec_eval(*l, m) || spec_eval(*r, m),
        Ast::Not(e) => !spec_eval(*e, m),
        Ast::Var(name) => if m.contains_key(name@) {
            m[name@]
        } else {
            false
        },
    }
}

/// The variable names collected from an expression in first-occurrence order
/// during a left-to-right traversal, appended to the names already in `acc`;
/// a name is added only if it is not present yet.
pub open spec fn collect_vars(ast: Ast, acc: Seq<Seq<char>>) -> Seq<Seq<char>>
    decreases ast,
{
    match ast {
        Ast::And(l, r) => collect_vars(*r, collect_vars(*l, acc)),
        Ast::Or(l, r) => collect_vars(*r, collect_vars(*l, acc)),
        Ast::Not(e) => collect_vars(*e, acc),
        Ast::Var(name) => if acc.contains(name@) {
            acc
        } else {
            acc.push(name@)
        },
    }
}

/// The views of a vector of variable names, name by name.
pub open spec fn views_of(names: Seq<String>) -> Seq<Seq<char>> {
    names.map_values(|s: String| s@)
}

/// Collects into `vars` the variables of `ast` that are not in `vars` yet,
/// in first-occurrence order. Duplicates are merged; the traversal cannot
/// fail.
pub fn extract_variables(ast: &Ast, vars: &mut Vec<String>)
    ensures
        views_of(final(vars)@) == collect_vars(*ast, views_of(old(vars)@)),
    decreases *ast,
{
    match ast {
        Ast::And(l, r) => {
            extract_variables(l, vars);
            extract_variables(r, vars);
        },
        Ast::Or(l, r) => {
            extract_variables(l, vars);
            extract_variables(r, vars);
        },
        Ast::Not(e) => extract_variables(e, vars),
        Ast::Var(name) => {
            let mut found = false;
            let mut i: usize = 0;
            while i < vars.len()
                invariant
                    i <= vars@.len(),
                    found == exists|j: int| 0 <= j < i && vars@[j]@ == name@,
                decreases vars@.len() - i,
            {
                if crate::token::str_eq(vars[i].as_str(), name.as_str()) {
                    found = true;
                }
                i = i + 1;
            }
            proof {
                assert(found == views_of(vars@).contains(name@)) by {
                    if found {
                        let j = choose|j: int| 0 <= j < vars@.len() && vars@[j]@ == name@;
                        assert(views_of(vars@)[j] == name@);
                    } else if views_of(vars@).contains(name@) {
                        let j = choose|j: int|
                            0 <= j < views_of(vars@).len() && views_of(vars@)[j] == name@;
                        assert(vars@[j]@ == name@);
                    }
                }
            }
            if !found {
                let ghost before = vars@;
                vars.push(name.clone());
                proof {
                    assert(views_of(vars@) =~= views_of(before).push(name@));
                }
            }
        },
    }
}

/// One character of a variable name inside its quoted form: a quote or a
/// backslash is preceded by a backslash, every other character stands for
/// itself.
pub open spec fn enc_char(c: char) -> Seq<char> {
    if c == '"' || c == '\\' {
        seq!['\\', c]
    } else {
        seq![c]
    }
}

/// A variable name with its quotes and backslashes escaped.
pub open spec fn spec_escape(s: Seq<char>) -> Seq<char>
    decreases s.len(),
{
    if s.len() == 0 {
        Seq::empty()
    } else {
        enc_char(s[0]) + spec_escape(s.drop_first())
    }
}

/// The canonical textual form of an expression, used as the key of a step
/// trace: a variable prints as its name in quotes (with quotes and
/// backslashes escaped, so that distinct trees never share a form), `not`
/// prefixes its operand, and a binary connective is wrapped in parentheses.
pub open spec fn spec_render(ast: Ast) -> Seq<char>
    decreases ast,
{
    match ast {
        Ast::And(l, r) => "( "@ + spec_render(*l) + " and "@ + spec_render(*r) + " )"@,
        Ast::Or(l, r) => "( "@ + spec_render(*l) + " or "@ + spec_render(*r) + " )"@,
        Ast::Not(e) => "not "@ + spec_render(*e),
        Ast::Var(name) => "\""@ + spec_escape(name@) + "\""@,
    }
}

/// Escaping one more character appends that character's encoding.
proof fn lemma_escape_step(s: Seq<char>, i: int)
    requires
        0 <= i < s.len(),
    ensures
        spec_escape(s.take(i + 1)) == spec_escape(s.take(i)) + enc_char(s[i]),
    decreases i,
{
    if i == 0 {
        assert(s.take(1)[0] == s[0]);
        assert(s.take(1).drop_first() =~= Seq::<char>::empty());
        assert(s.take(0) =~= Seq::<char>::empty());
        assert(spec_escape(Seq::<char>::empty()) =~= Seq::<char>::empty());
        assert(spec_escape(s.take(1)) =~= Seq::<char>::empty() + enc_char(s[0]));
    } else {
        assert(s.take(i + 1)[0] == s[0]);
        assert(s.take(i + 1).drop_first() =~= s.drop_first().take(i));
        assert(s.take(i)[0] == s[0]);
        assert(s.take(i).drop_first() =~= s.drop_first().take(i - 1));
        lemma_escape_step(s.drop_first(), i - 1);
        assert(s.drop_first()[i - 1] == s[i]);
        assert(enc_char(s[0]) + (spec_escape(s.drop_first().take(i - 1)) + enc_char(s[i]))
            =~= (enc_char(s[0]) + spec_escape(s.drop_first().take(i - 1))) + enc_char(s[i]));
    }
}

/// Escapes a variable name for its quoted rendering.
fn escape(name: &str) -> (r: String)
    ensures
        r@ == spec_escape(name@),
{
    let len = name.unicode_len();
    let mut out = String::new();
    let mut i: usize = 0;
    proof {
        assert(name@.take(0) =~= Seq::<char>::empty());
    }
    while i < len
        invariant
            len == name@.len(),
            i <= len,
            out@ == spec_escape(name@.take(i as int)),
        decreases len - i,
    {
        let ghost before = out@;
        let c = name.get_char(i);
        if c == '"' || c == '\\' {
            out.append("\\");
        }
        let piece = name.substring_char(i, i + 1);
        out.append(piece);
        proof {
            lemma_escape_step(name@, i as int);
            reveal_strlit("\\");
            assert(piece@ =~= seq![name@[i as int]]);
            assert(out@ =~= before + enc_char(name@[i as int]));
        }
        i = i + 1;
    }
    proof {
        assert(name@.take(len as int) =~= name@);
    }
    out
}

/// Renders an expression in its canonical textual form.
pub fn render(ast: &Ast) -> (r: String)
    ensures
        r@ == spec_render(*ast),
    decreases *ast,
{
    match ast {
        Ast::And(l, r) => {
            let mut s = String::from_str("( ");
            s.append(render(l).as_str());
            s.append(" and ");
            s.append(render(r).as_str());
            s.append(" )");
            s
        },
        Ast::Or(l, r) => {
            let mut s = String::from_str("( ");
            s.append(render(l).as_str());
            s.append(" or ");
            s.append(render(r).as_str());
            s.append(" )");
            s
        },
        Ast::Not(e) => {
            let mut s = String::from_str("not ");
            s.append(render(e).as_str());
            s
        },
        Ast::Var(name) => {
            let mut s = String::from_str("\"");
            s.append(escape(name.as_str()).as_str());
            s.append("\"");
            s
        },
    }
}

} // verus!
