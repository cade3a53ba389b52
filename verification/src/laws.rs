//! The laws the library states of itself, each proved from the definitions
//! and contracts of the other modules: the grammar the parser accepts and
//! the inputs it rejects, and the truth semantics of evaluation.

use crate::ast::Ast;
use crate::ast::enc_char;
use crate::ast::spec_escape;
use crate::ast::spec_eval;
use crate::ast::spec_render;
use crate::eval::spec_steps;
use crate::parser::BinOp;
use crate::parser::SpecFrame;
use crate::parser::finalize;
use crate::parser::fresh_frame;
use crate::parser::init_state;
use crate::parser::mk_bin;
use crate::parser::push_binop;
use crate::parser::push_operand;
use crate::parser::run_from;
use crate::parser::spec_parse;
use crate::parser::step;
use crate::parser::wrap_nots;
use crate::token::Token;
use vstd::prelude::*;

verus! {

// ------------------------------------------------------------------
// Evaluation laws
// ------------------------------------------------------------------

/// Evaluation is deterministic: the value of an expression is a function
/// of the tree and the assignment alone, so any two evaluations of the
/// same tree under the same assignment yield the same boolean.
pub proof fn lemma_evaluation_deterministic(
    ast: Ast,
    m: Map<Seq<char>, bool>,
    r1: bool,
    r2: bool,
)
    requires
        r1 == spec_eval(ast, m),
        r2 == spec_eval(ast, m),
    ensures
        r1 == r2,
{
}

/// The connectives have their truth-table semantics: an `and` node's value
/// is the conjunction of its operands' values, an `or` node's value the
/// disjunction, and a `not` node's value the negation of its operand's.
pub proof fn lemma_connective_semantics(ast: Ast, m: Map<Seq<char>, bool>)
    ensures
        ast matches Ast::And(l, r) ==> spec_eval(ast, m) == (spec_eval(*l, m) && spec_eval(
            *r,
            m,
        )),
        ast matches Ast::Or(l, r) ==> spec_eval(ast, m) == (spec_eval(*l, m) || spec_eval(
            *r,
            m,
        )),
        ast matches Ast::Not(e) ==> spec_eval(ast, m) == !spec_eval(*e, m),
{
}

/// A variable absent from the assignment defaults to `false`: evaluating
/// under an assignment that lacks `z` yields the same value as evaluating
/// under the assignment that binds `z` to `false` explicitly.
pub proof fn lemma_missing_variable_is_false(ast: Ast, m: Map<Seq<char>, bool>, z: Seq<char>)
    requires
        !m.contains_key(z),
    ensures
        spec_eval(ast, m) == spec_eval(ast, m.insert(z, false)),
    decreases ast,
{
    match ast {
        Ast::And(l, r) => {
            lemma_missing_variable_is_false(*l, m, z);
            lemma_missing_variable_is_false(*r, m, z);
        },
        Ast::Or(l, r) => {
            lemma_missing_variable_is_false(*l, m, z);
            lemma_missing_variable_is_false(*r, m, z);
        },
        Ast::Not(e) => {
            lemma_missing_variable_is_false(*e, m, z);
        },
        Ast::Var(_) => {
        },
    }
}

// ------------------------------------------------------------------
// The rendering is injective, and the trace is faithful
// ------------------------------------------------------------------

/// The same tree shape with the same variable names, character for
/// character.
pub open spec fn ast_like(a: Ast, b: Ast) -> bool
    decreases a,
{
    match (a, b) {
        (Ast::And(al, ar), Ast::And(bl, br)) => ast_like(*al, *bl) && ast_like(*ar, *br),
        (Ast::Or(al, ar), Ast::Or(bl, br)) => ast_like(*al, *bl) && ast_like(*ar, *br),
        (Ast::Not(ae), Ast::Not(be)) => ast_like(*ae, *be),
        (Ast::Var(an), Ast::Var(bn)) => an@ == bn@,
        _ => false,
    }
}

/// Trees of the same shape and names evaluate alike under every
/// assignment.
pub proof fn lemma_like_evals_equal(a: Ast, b: Ast, m: Map<Seq<char>, bool>)
    requires
        ast_like(a, b),
    ensures
        spec_eval(a, m) == spec_eval(b, m),
    decreases a,
{
    match (a, b) {
        (Ast::And(al, ar), Ast::And(bl, br)) => {
            lemma_like_evals_equal(*al, *bl, m);
            lemma_like_evals_equal(*ar, *br, m);
        },
        (Ast::Or(al, ar), Ast::Or(bl, br)) => {
            lemma_like_evals_equal(*al, *bl, m);
            lemma_like_evals_equal(*ar, *br, m);
        },
        (Ast::Not(ae), Ast::Not(be)) => {
            lemma_like_evals_equal(*ae, *be, m);
        },
        _ => {
        },
    }
}

/// Dropping an equal prefix of two equal concatenations leaves equal
/// tails.
proof fn lemma_cancel_prefix(p: Seq<char>, a: Seq<char>, b: Seq<char>)
    requires
        p + a == p + b,
    ensures
        a == b,
{
    assert(a =~= (p + a).skip(p.len() as int));
    assert(b =~= (p + b).skip(p.len() as int));
}

/// Sequences with equal heads and equal tails are equal.
proof fn lemma_cons_eq(x: Seq<char>, y: Seq<char>)
    requires
        x.len() > 0,
        y.len() > 0,
        x[0] == y[0],
        x.drop_first() == y.drop_first(),
    ensures
        x == y,
{
    assert(x.drop_first().len() == x.len() - 1);
    assert(y.drop_first().len() == y.len() - 1);
    assert(x.len() == y.len());
    assert forall|i: int| 0 <= i < x.len() implies x[i] == y[i] by {
        if i > 0 {
            assert(x.drop_first()[i - 1] == x[i]);
            assert(y.drop_first()[i - 1] == y[i]);
        }
    }
    assert(x =~= y);
}

/// The escaped form of a name followed by an unescaped quote decodes
/// uniquely: equal streams mean equal names and equal tails.
proof fn lemma_escape_code(x: Seq<char>, y: Seq<char>, u: Seq<char>, v: Seq<char>)
    requires
        spec_escape(x) + seq!['"'] + u == spec_escape(y) + seq!['"'] + v,
    ensures
        x == y,
        u == v,
    decreases x.len(),
{
    let q = seq!['"'];
    let l = spec_escape(x) + q + u;
    if x.len() == 0 && y.len() == 0 {
        assert(spec_escape(x) =~= Seq::<char>::empty());
        assert(spec_escape(y) =~= Seq::<char>::empty());
        assert(x =~= y);
        assert(u =~= l.skip(1));
        assert(v =~= (spec_escape(y) + q + v).skip(1));
        assert(u =~= v);
    } else if x.len() == 0 {
        assert(spec_escape(x) =~= Seq::<char>::empty());
        assert(l[0] == '"');
        assert(spec_escape(y) == enc_char(y[0]) + spec_escape(y.drop_first()));
        assert(spec_escape(y)[0] == enc_char(y[0])[0]);
        assert(l[0] == spec_escape(y)[0]);
        assert(false);
    } else if y.len() == 0 {
        assert(spec_escape(y) =~= Seq::<char>::empty());
        assert((spec_escape(y) + q + v)[0] == '"');
        assert(spec_escape(x) == enc_char(x[0]) + spec_escape(x.drop_first()));
        assert(spec_escape(x)[0] == enc_char(x[0])[0]);
        assert(l[0] == spec_escape(x)[0]);
        assert(false);
    } else {
        assert(spec_escape(x) == enc_char(x[0]) + spec_escape(x.drop_first()));
        assert(spec_escape(y) == enc_char(y[0]) + spec_escape(y.drop_first()));
        let tx = spec_escape(x.drop_first()) + q + u;
        let ty = spec_escape(y.drop_first()) + q + v;
        assert(l =~= enc_char(x[0]) + tx);
        assert(l =~= enc_char(y[0]) + ty);
        let sx = x[0] == '"' || x[0] == '\\';
        let sy = y[0] == '"' || y[0] == '\\';
        if sx && sy {
            assert(l[1] == x[0]);
            assert(l[1] == y[0]);
            assert(tx =~= l.skip(2));
            assert(ty =~= l.skip(2));
            lemma_escape_code(x.drop_first(), y.drop_first(), u, v);
            lemma_cons_eq(x, y);
        } else if sx && !sy {
            assert(l[0] == '\\');
            assert(l[0] == y[0]);
            assert(false);
        } else if !sx && sy {
            assert(l[0] == x[0]);
            assert(l[0] == '\\');
            assert(false);
        } else {
            assert(l[0] == x[0]);
            assert(l[0] == y[0]);
            assert(tx =~= l.skip(1));
            assert(ty =~= l.skip(1));
            lemma_escape_code(x.drop_first(), y.drop_first(), u, v);
            lemma_cons_eq(x, y);
        }
    }
}

/// The first character of a rendering names the node's kind.
spec fn head_char(a: Ast) -> char {
    match a {
        Ast::And(_, _) => '(',
        Ast::Or(_, _) => '(',
        Ast::Not(_) => 'n',
        Ast::Var(_) => '"',
    }
}

/// Every rendering is nonempty and starts with its node's head character.
proof fn lemma_render_head(a: Ast)
    ensures
        spec_render(a).len() >= 1,
        spec_render(a)[0] == head_char(a),
{
    reveal_strlit("\"");
    reveal_strlit("not ");
    reveal_strlit("( ");
}

/// Renderings form a code: equal streams mean like trees and equal tails.
#[verifier::rlimit(100)]
proof fn lemma_render_code(a: Ast, b: Ast, u: Seq<char>, v: Seq<char>)
    requires
        spec_render(a) + u == spec_render(b) + v,
    ensures
        ast_like(a, b),
        u == v,
    decreases a,
{
    reveal_strlit("\"");
    reveal_strlit("not ");
    reveal_strlit("( ");
    reveal_strlit(" and ");
    reveal_strlit(" or ");
    reveal_strlit(" )");
    lemma_render_head(a);
    lemma_render_head(b);
    let l = spec_render(a) + u;
    assert(l[0] == head_char(a));
    assert((spec_render(b) + v)[0] == head_char(b));
    match (a, b) {
        (Ast::Var(xn), Ast::Var(yn)) => {
            assert("\""@ =~= seq!['"']);
            assert(l =~= seq!['"'] + (spec_escape(xn@) + seq!['"'] + u));
            assert(l =~= seq!['"'] + (spec_escape(yn@) + seq!['"'] + v));
            lemma_cancel_prefix(
                seq!['"'],
                spec_escape(xn@) + seq!['"'] + u,
                spec_escape(yn@) + seq!['"'] + v,
            );
            lemma_escape_code(xn@, yn@, u, v);
        },
        (Ast::Not(ae), Ast::Not(be)) => {
            assert(l =~= "not "@ + (spec_render(*ae) + u));
            assert(l =~= "not "@ + (spec_render(*be) + v));
            lemma_cancel_prefix("not "@, spec_render(*ae) + u, spec_render(*be) + v);
            lemma_render_code(*ae, *be, u, v);
        },
        (Ast::And(l1, r1), Ast::And(l2, r2)) => {
            let xa = " and "@ + spec_render(*r1) + " )"@ + u;
            let xb = " and "@ + spec_render(*r2) + " )"@ + v;
            assert(l =~= "( "@ + (spec_render(*l1) + xa));
            assert(l =~= "( "@ + (spec_render(*l2) + xb));
            lemma_cancel_prefix("( "@, spec_render(*l1) + xa, spec_render(*l2) + xb);
            lemma_render_code(*l1, *l2, xa, xb);
            assert(xa =~= " and "@ + (spec_render(*r1) + (" )"@ + u)));
            assert(xb =~= " and "@ + (spec_render(*r2) + (" )"@ + v)));
            lemma_cancel_prefix(
                " and "@,
                spec_render(*r1) + (" )"@ + u),
                spec_render(*r2) + (" )"@ + v),
            );
            lemma_render_code(*r1, *r2, " )"@ + u, " )"@ + v);
            lemma_cancel_prefix(" )"@, u, v);
        },
        (Ast::Or(l1, r1), Ast::Or(l2, r2)) => {
            let xa = " or "@ + spec_render(*r1) + " )"@ + u;
            let xb = " or "@ + spec_render(*r2) + " )"@ + v;
            assert(l =~= "( "@ + (spec_render(*l1) + xa));
            assert(l =~= "( "@ + (spec_render(*l2) + xb));
            lemma_cancel_prefix("( "@, spec_render(*l1) + xa, spec_render(*l2) + xb);
            lemma_render_code(*l1, *l2, xa, xb);
            assert(xa =~= " or "@ + (spec_render(*r1) + (" )"@ + u)));
            assert(xb =~= " or "@ + (spec_render(*r2) + (" )"@ + v)));
            lemma_cancel_prefix(
                " or "@,
                spec_render(*r1) + (" )"@ + u),
                spec_render(*r2) + (" )"@ + v),
            );
            lemma_render_code(*r1, *r2, " )"@ + u, " )"@ + v);
            lemma_cancel_prefix(" )"@, u, v);
        },
        (Ast::And(l1, r1), Ast::Or(l2, r2)) => {
            let xa = " and "@ + spec_render(*r1) + " )"@ + u;
            let xb = " or "@ + spec_render(*r2) + " )"@ + v;
            assert(l =~= "( "@ + (spec_render(*l1) + xa));
            assert(l =~= "( "@ + (spec_render(*l2) + xb));
            lemma_cancel_prefix("( "@, spec_render(*l1) + xa, spec_render(*l2) + xb);
            lemma_render_code(*l1, *l2, xa, xb);
            assert(xa[1] == 'a');
            assert(xb[1] == 'o');
            assert(false);
        },
        (Ast::Or(l1, r1), Ast::And(l2, r2)) => {
            let xa = " or "@ + spec_render(*r1) + " )"@ + u;
            let xb = " and "@ + spec_render(*r2) + " )"@ + v;
            assert(l =~= "( "@ + (spec_render(*l1) + xa));
            assert(l =~= "( "@ + (spec_render(*l2) + xb));
            lemma_cancel_prefix("( "@, spec_render(*l1) + xa, spec_render(*l2) + xb);
            lemma_render_code(*l1, *l2, xa, xb);
            assert(xa[1] == 'o');
            assert(xb[1] == 'a');
            assert(false);
        },
        _ => {
            assert(head_char(a) != head_char(b));
            assert(false);
        },
    }
}

/// Distinct trees never share a rendering: equal canonical forms mean the
/// same shape with the same names, so anything the renderings key — the
/// step trace above all — can never confuse two different sub-expressions.
pub proof fn lemma_render_injective(a: Ast, b: Ast)
    requires
        spec_render(a) == spec_render(b),
    ensures
        ast_like(a, b),
{
    assert(spec_render(a) + Seq::<char>::empty() =~= spec_render(a));
    assert(spec_render(b) + Seq::<char>::empty() =~= spec_render(b));
    lemma_render_code(a, b, Seq::<char>::empty(), Seq::<char>::empty());
}

/// Whether `t` occurs in `ast`, the whole tree included.
pub open spec fn in_tree(t: Ast, ast: Ast) -> bool
    decreases ast,
{
    t == ast || match ast {
        Ast::And(l, r) => in_tree(t, *l) || in_tree(t, *r),
        Ast::Or(l, r) => in_tree(t, *l) || in_tree(t, *r),
        Ast::Not(e) => in_tree(t, *e),
        Ast::Var(_) => false,
    }
}

/// A node that writes a trace entry: any non-leaf.
pub open spec fn is_compound(t: Ast) -> bool {
    !(t matches Ast::Var(_))
}

/// Whether some compound node of `ast` renders to the key `k`.
pub open spec fn renders_in(ast: Ast, k: Seq<char>) -> bool {
    exists|t: Ast| #[trigger] in_tree(t, ast) && is_compound(t) && spec_render(t) == k
}

/// What one evaluation pass leaves under a key: untouched where no
/// compound node of the tree renders to it, and otherwise the value of
/// some compound node that does.
proof fn lemma_steps_value(ast: Ast, m: Map<Seq<char>, bool>, acc: Map<Seq<char>, bool>, k: Seq<char>)
    ensures
        !renders_in(ast, k) ==> spec_steps(ast, m, acc).contains_key(k) == acc.contains_key(k) && (
        acc.contains_key(k) ==> spec_steps(ast, m, acc)[k] == acc[k]),
        renders_in(ast, k) ==> spec_steps(ast, m, acc).contains_key(k) && (exists|t: Ast|
            #[trigger] in_tree(t, ast) && is_compound(t) && spec_render(t) == k && spec_steps(
                ast,
                m,
                acc,
            )[k] == spec_eval(t, m)),
    decreases ast,
{
    match ast {
        Ast::Var(_) => {
            if renders_in(ast, k) {
                let t = choose|t: Ast|
                    #[trigger] in_tree(t, ast) && is_compound(t) && spec_render(t) == k;
                assert(t == ast);
                assert(false);
            }
        },
        Ast::Not(e) => {
            lemma_steps_value(*e, m, acc, k);
            if k == spec_render(ast) {
                assert(in_tree(ast, ast));
                assert(renders_in(ast, k));
                assert(spec_steps(ast, m, acc)[k] == spec_eval(ast, m));
            } else {
                assert(spec_steps(ast, m, acc).contains_key(k) == spec_steps(
                    *e,
                    m,
                    acc,
                ).contains_key(k));
                if renders_in(*e, k) {
                    let t = choose|t: Ast|
                        #[trigger] in_tree(t, *e) && is_compound(t) && spec_render(t) == k
                            && spec_steps(*e, m, acc)[k] == spec_eval(t, m);
                    assert(in_tree(t, ast));
                    assert(renders_in(ast, k));
                    assert(spec_steps(ast, m, acc)[k] == spec_eval(t, m));
                } else {
                    if renders_in(ast, k) {
                        let t = choose|t: Ast|
                            #[trigger] in_tree(t, ast) && is_compound(t) && spec_render(t) == k;
                        assert(t != ast);
                        assert(in_tree(t, *e));
                        assert(false);
                    }
                }
            }
        },
        Ast::And(lc, rc) => {
            lemma_steps_value(*lc, m, acc, k);
            lemma_steps_value(*rc, m, spec_steps(*lc, m, acc), k);
            lemma_steps_value_binary(ast, *lc, *rc, m, acc, k);
        },
        Ast::Or(lc, rc) => {
            lemma_steps_value(*lc, m, acc, k);
            lemma_steps_value(*rc, m, spec_steps(*lc, m, acc), k);
            lemma_steps_value_binary(ast, *lc, *rc, m, acc, k);
        },
    }
}

/// The binary half of `lemma_steps_value`, shared by `and` and `or`.
proof fn lemma_steps_value_binary(
    ast: Ast,
    lc: Ast,
    rc: Ast,
    m: Map<Seq<char>, bool>,
    acc: Map<Seq<char>, bool>,
    k: Seq<char>,
)
    requires
        ast == Ast::And(Box::new(lc), Box::new(rc)) || ast == Ast::Or(Box::new(lc), Box::new(rc)),
        !renders_in(lc, k) ==> spec_steps(lc, m, acc).contains_key(k) == acc.contains_key(k) && (
        acc.contains_key(k) ==> spec_steps(lc, m, acc)[k] == acc[k]),
        renders_in(lc, k) ==> spec_steps(lc, m, acc).contains_key(k) && (exists|t: Ast|
            #[trigger] in_tree(t, lc) && is_compound(t) && spec_render(t) == k && spec_steps(
                lc,
                m,
                acc,
            )[k] == spec_eval(t, m)),
        !renders_in(rc, k) ==> spec_steps(rc, m, spec_steps(lc, m, acc)).contains_key(k)
            == spec_steps(lc, m, acc).contains_key(k) && (spec_steps(lc, m, acc).contains_key(k)
            ==> spec_steps(rc, m, spec_steps(lc, m, acc))[k] == spec_steps(lc, m, acc)[k]),
        renders_in(rc, k) ==> spec_steps(rc, m, spec_steps(lc, m, acc)).contains_key(k) && (
        exists|t: Ast|
            #[trigger] in_tree(t, rc) && is_compound(t) && spec_render(t) == k && spec_steps(
                rc,
                m,
                spec_steps(lc, m, acc),
            )[k] == spec_eval(t, m)),
    ensures
        !renders_in(ast, k) ==> spec_steps(ast, m, acc).contains_key(k) == acc.contains_key(k) && (
        acc.contains_key(k) ==> spec_steps(ast, m, acc)[k] == acc[k]),
        renders_in(ast, k) ==> spec_steps(ast, m, acc).contains_key(k) && (exists|t: Ast|
            #[trigger] in_tree(t, ast) && is_compound(t) && spec_render(t) == k && spec_steps(
                ast,
                m,
                acc,
            )[k] == spec_eval(t, m)),
{
    let mid1 = spec_steps(lc, m, acc);
    let mid2 = spec_steps(rc, m, mid1);
    assert(spec_steps(ast, m, acc) == mid2.insert(spec_render(ast), spec_eval(ast, m)));
    if k == spec_render(ast) {
        assert(in_tree(ast, ast));
        assert(renders_in(ast, k));
        assert(spec_steps(ast, m, acc)[k] == spec_eval(ast, m));
    } else {
        assert(spec_steps(ast, m, acc).contains_key(k) == mid2.contains_key(k));
        if renders_in(rc, k) {
            let t = choose|t: Ast|
                #[trigger] in_tree(t, rc) && is_compound(t) && spec_render(t) == k && spec_steps(
                    rc,
                    m,
                    spec_steps(lc, m, acc),
                )[k] == spec_eval(t, m);
            assert(in_tree(t, ast));
            assert(renders_in(ast, k));
            assert(spec_steps(ast, m, acc)[k] == spec_eval(t, m));
        } else if renders_in(lc, k) {
            let t = choose|t: Ast|
                #[trigger] in_tree(t, lc) && is_compound(t) && spec_render(t) == k && spec_steps(
                    lc,
                    m,
                    acc,
                )[k] == spec_eval(t, m);
            assert(in_tree(t, ast));
            assert(renders_in(ast, k));
            assert(mid2[k] == mid1[k]);
            assert(spec_steps(ast, m, acc)[k] == spec_eval(t, m));
        } else {
            if renders_in(ast, k) {
                let t = choose|t: Ast|
                    #[trigger] in_tree(t, ast) && is_compound(t) && spec_render(t) == k;
                assert(t != ast);
                assert(in_tree(t, lc) || in_tree(t, rc));
                assert(false);
            }
        }
    }
}

/// After one evaluation pass, the trace holds the computed value of every
/// compound sub-expression under that sub-expression's textual key: by
/// `lemma_render_injective` a key is shared only by like sub-expressions,
/// which evaluate alike, so a later write never stores a wrong value.
pub proof fn lemma_trace_records_subtrees(
    ast: Ast,
    m: Map<Seq<char>, bool>,
    acc: Map<Seq<char>, bool>,
    t: Ast,
)
    requires
        in_tree(t, ast),
        is_compound(t),
    ensures
        spec_steps(ast, m, acc).contains_key(spec_render(t)),
        spec_steps(ast, m, acc)[spec_render(t)] == spec_eval(t, m),
{
    let k = spec_render(t);
    assert(renders_in(ast, k));
    lemma_steps_value(ast, m, acc, k);
    let w = choose|w: Ast|
        #[trigger] in_tree(w, ast) && is_compound(w) && spec_render(w) == k && spec_steps(
            ast,
            m,
            acc,
        )[k] == spec_eval(w, m);
    lemma_render_injective(w, t);
    lemma_like_evals_equal(w, t, m);
}

// ------------------------------------------------------------------
// The grammar of valid token sequences
// ------------------------------------------------------------------

/// A token that is a binary connective.
pub open spec fn is_binop_token(t: Token) -> bool {
    t matches Token::And || t matches Token::Or
}

/// A valid expression: one or more terms joined by binary connectives.
pub open spec fn valid_expr(s: Seq<Token>) -> bool
    decreases s.len(), 2int,
{
    exists|k: int|
        1 <= k <= s.len() && valid_term(#[trigger] s.take(k)) && (k == s.len() || (
        is_binop_token(s[k]) && valid_expr(s.skip(k + 1))))
}

/// A valid term: an atom under zero or more `not`s.
pub open spec fn valid_term(s: Seq<Token>) -> bool
    decreases s.len(), 1int,
{
    ||| valid_atom(s)
    ||| (s.len() > 0 && (s[0] matches Token::Not) && valid_term(s.drop_first()))
}

/// A valid atom: one variable, or a parenthesized valid expression.
pub open spec fn valid_atom(s: Seq<Token>) -> bool
    decreases s.len(), 0int,
{
    ||| (s.len() == 1 && (s[0] matches Token::Var(_)))
    ||| (s.len() >= 3 && (s[0] matches Token::LParen) && (s.last() matches Token::RParen)
        && valid_expr(s.subrange(1, s.len() - 1)))
}

/// How a token shifts the parenthesis nesting.
pub open spec fn paren_delta(t: Token) -> int {
    match t {
        Token::LParen => 1,
        Token::RParen => -1,
        _ => 0,
    }
}

/// The net count of parentheses in a sequence: opened minus closed.
pub open spec fn paren_net(s: Seq<Token>) -> int
    decreases s.len(),
{
    if s.len() == 0 {
        0
    } else {
        paren_delta(s[0]) + paren_net(s.drop_first())
    }
}

/// Balanced parentheses: no prefix closes a parenthesis that was not
/// opened, and the whole sequence closes every parenthesis it opens.
pub open spec fn balanced(s: Seq<Token>) -> bool {
    paren_net(s) == 0 && forall|k: int| 0 <= k <= s.len() ==> paren_net(#[trigger] s.take(k)) >= 0
}

// ------------------------------------------------------------------
// Rejection: a sequence the parser accepts is nonempty and balanced
// ------------------------------------------------------------------

/// While the machine runs, the frame stack is exactly one deeper than the
/// number of parentheses the consumed tokens leave open, and no prefix
/// closes more parentheses than stand open around it.
proof fn lemma_run_net(toks: Seq<Token>, st: Seq<SpecFrame>)
    requires
        st.len() >= 1,
        run_from(toks, st) is Some,
    ensures
        run_from(toks, st).unwrap().len() == st.len() + paren_net(toks),
        forall|k: int| 0 <= k <= toks.len() ==> paren_net(#[trigger] toks.take(k)) > -st.len(),
    decreases toks.len(),
{
    if toks.len() == 0 {
        assert(forall|k: int| 0 <= k <= toks.len() ==> #[trigger] toks.take(k) =~= toks);
    } else {
        let t = toks[0];
        let st2 = step(st, t).unwrap();
        assert(st2.len() == st.len() + paren_delta(t));
        assert(st2.len() >= 1);
        let rest = toks.drop_first();
        lemma_run_net(rest, st2);
        assert(run_from(toks, st).unwrap().len() == st.len() + paren_net(toks));
        assert forall|k: int| 0 <= k <= toks.len() implies paren_net(#[trigger] toks.take(k))
            > -st.len() by {
            if k == 0 {
                assert(toks.take(0) =~= Seq::<Token>::empty());
            } else {
                assert(toks.take(k)[0] == t);
                assert(toks.take(k).drop_first() =~= rest.take(k - 1));
                assert(paren_net(rest.take(k - 1)) > -st2.len());
            }
        }
    }
}

/// What the parser accepts is a nonempty sequence with balanced
/// parentheses: for all other sequences it produces no tree.
pub proof fn lemma_parse_needs_balance(toks: Seq<Token>)
    requires
        spec_parse(toks) is Some,
    ensures
        toks.len() > 0,
        balanced(toks),
{
    lemma_run_net(toks, init_state());
    let st = run_from(toks, init_state()).unwrap();
    assert(st.len() == 1);
    assert(paren_net(toks) == 0);
    assert forall|k: int| 0 <= k <= toks.len() implies paren_net(#[trigger] toks.take(k)) >= 0 by {
        assert(paren_net(toks.take(k)) > -1);
    }
    if toks.len() == 0 {
        assert(run_from(toks, init_state()) == Some(init_state()));
        assert(finalize(init_state()) is None);
    }
}

/// A sequence with unbalanced parentheses, and the empty sequence, parse
/// to nothing.
pub proof fn lemma_parse_rejects_unbalanced_or_empty(toks: Seq<Token>)
    requires
        toks.len() == 0 || !balanced(toks),
    ensures
        spec_parse(toks) is None,
{
    if spec_parse(toks) is Some {
        lemma_parse_needs_balance(toks);
    }
}

// ------------------------------------------------------------------
// Acceptance: a valid sequence parses to exactly one tree
// ------------------------------------------------------------------

/// The top frame can take an operand next.
spec fn expecting(f: SpecFrame) -> bool {
    f.pending is Some <==> f.acc is Some
}

/// Running over a concatenation is running over the parts in order.
proof fn lemma_run_concat(s1: Seq<Token>, s2: Seq<Token>, st: Seq<SpecFrame>)
    ensures
        run_from(s1 + s2, st) == (match run_from(s1, st) {
            Some(m) => run_from(s2, m),
            None => None::<Seq<SpecFrame>>,
        }),
    decreases s1.len(),
{
    if s1.len() == 0 {
        assert(s1 + s2 =~= s2);
    } else {
        assert((s1 + s2)[0] == s1[0]);
        assert((s1 + s2).drop_first() =~= s1.drop_first() + s2);
        match step(st, s1[0]) {
            Some(st2) => lemma_run_concat(s1.drop_first(), s2, st2),
            None => {
            },
        }
    }
}

/// Running over one token is one step.
proof fn lemma_run_one(t: Token, st: Seq<SpecFrame>)
    ensures
        run_from(seq![t], st) == step(st, t),
{
    assert(seq![t][0] == t);
    assert(seq![t].drop_first() =~= Seq::<Token>::empty());
    match step(st, t) {
        Some(m) => {
            assert(run_from(Seq::<Token>::empty(), m) == Some(m));
            assert(run_from(seq![t], st) == Some(m));
        },
        None => {
            assert(run_from(seq![t], st) is None);
        },
    }
}

/// Running over a valid atom from a frame that can take an operand hands
/// the top frame the atom's tree as an operand.
proof fn lemma_run_atom(s: Seq<Token>, st: Seq<SpecFrame>)
    requires
        valid_atom(s),
        st.len() >= 1,
        expecting(st.last()),
    ensures
        exists|e: Ast|
            #[trigger] push_operand(st, e) is Some && run_from(s, st) == push_operand(st, e),
    decreases s.len(), 0int,
{
    if s.len() == 1 && (s[0] matches Token::Var(_)) {
        let name = s[0]->Var_0;
        assert(s[0] == Token::Var(name));
        lemma_run_one(s[0], st);
        assert(s =~= seq![s[0]]);
        assert(run_from(s, st) == step(st, s[0]));
        assert(step(st, s[0]) == push_operand(st, Ast::Var(name)));
        assert(push_operand(st, Ast::Var(name)) is Some);
    } else {
        let inner = s.subrange(1, s.len() - 1);
        let tail = inner + seq![s.last()];
        assert(s =~= seq![s[0]] + tail);
        let stA = st.push(fresh_frame());
        lemma_run_one(s[0], st);
        assert(step(st, s[0]) == Some(stA));
        assert(stA.last() == fresh_frame());
        lemma_run_expr(inner, stA);
        let x = choose|x: Ast|
            run_from(inner, stA) == Some(
                stA.update(stA.len() - 1, SpecFrame { acc: Some(x), pending: None, nots: 0 }),
            );
        let stB = stA.update(stA.len() - 1, SpecFrame { acc: Some(x), pending: None, nots: 0 });
        assert(run_from(inner, stA) == Some(stB));
        assert(stB.len() == st.len() + 1);
        assert(stB.last() == SpecFrame { acc: Some(x), pending: None, nots: 0 });
        assert(stB.drop_last() =~= st);
        lemma_run_one(s.last(), stB);
        assert(step(stB, s.last()) == push_operand(st, x));
        lemma_run_concat(inner, seq![s.last()], stA);
        assert(run_from(tail, stA) == run_from(seq![s.last()], stB));
        assert(run_from(tail, stA) == push_operand(st, x));
        lemma_run_concat(seq![s[0]], tail, st);
        assert(run_from(seq![s[0]] + tail, st) == run_from(tail, stA));
        assert(run_from(s, st) == push_operand(st, x));
        assert(push_operand(st, x) is Some);
    }
}

/// Running over a valid term from a frame that can take an operand hands
/// the top frame the term's tree as an operand.
proof fn lemma_run_term(s: Seq<Token>, st: Seq<SpecFrame>)
    requires
        valid_term(s),
        st.len() >= 1,
        expecting(st.last()),
    ensures
        exists|e: Ast|
            #[trigger] push_operand(st, e) is Some && run_from(s, st) == push_operand(st, e),
    decreases s.len(), 1int,
{
    if valid_atom(s) {
        lemma_run_atom(s, st);
    } else {
        let f = st.last();
        let f2 = SpecFrame { nots: f.nots + 1, ..f };
        let st2 = st.update(st.len() - 1, f2);
        assert(step(st, s[0]) == Some(st2));
        assert(st2.last() == f2);
        assert(expecting(f2));
        lemma_run_term(s.drop_first(), st2);
        let e = choose|e: Ast|
            #[trigger] push_operand(st2, e) is Some && run_from(s.drop_first(), st2)
                == push_operand(st2, e);
        let ne = Ast::Not(Box::new(e));
        assert(wrap_nots(e, f2.nots) == wrap_nots(ne, f.nots));
        assert(st2.update(st2.len() - 1, SpecFrame { acc: Some(wrap_nots(e, f2.nots)), pending: None, nots: 0 })
            =~= st.update(st.len() - 1, SpecFrame { acc: Some(wrap_nots(ne, f.nots)), pending: None, nots: 0 }));
        if f.pending is Some {
            let op = f.pending.unwrap();
            let l = f.acc.unwrap();
            assert(st2.update(
                st2.len() - 1,
                SpecFrame { acc: Some(mk_bin(op, l, wrap_nots(e, f2.nots))), pending: None, nots: 0 },
            ) =~= st.update(
                st.len() - 1,
                SpecFrame { acc: Some(mk_bin(op, l, wrap_nots(ne, f.nots))), pending: None, nots: 0 },
            ));
        }
        assert(push_operand(st2, e) == push_operand(st, ne));
        assert(run_from(s, st) == push_operand(st, ne));
        assert(push_operand(st, ne) is Some);
    }
}

/// Running over a valid expression from a frame that can take an operand
/// completes the top frame: it ends holding the expression's tree, with no
/// operator and no `not` pending.
proof fn lemma_run_expr(s: Seq<Token>, st: Seq<SpecFrame>)
    requires
        valid_expr(s),
        st.len() >= 1,
        expecting(st.last()),
    ensures
        exists|x: Ast|
            run_from(s, st) == Some(
                st.update(st.len() - 1, SpecFrame { acc: Some(x), pending: None, nots: 0 }),
            ),
    decreases s.len(), 2int,
{
    let k = choose|k: int|
        1 <= k <= s.len() && valid_term(#[trigger] s.take(k)) && (k == s.len() || (
        is_binop_token(s[k]) && valid_expr(s.skip(k + 1))));
    assert(valid_term(s.take(k)));
    assert(s =~= s.take(k) + s.skip(k));
    lemma_run_concat(s.take(k), s.skip(k), st);
    lemma_run_term(s.take(k), st);
    let e = choose|e: Ast|
        #[trigger] push_operand(st, e) is Some && run_from(s.take(k), st) == push_operand(st, e);
    let stT = push_operand(st, e).unwrap();
    assert(stT.len() == st.len());
    assert(stT.last().acc is Some && stT.last().pending is None && stT.last().nots == 0);
    let x1 = stT.last().acc.unwrap();
    assert(stT == st.update(st.len() - 1, SpecFrame { acc: Some(x1), pending: None, nots: 0 }));
    if k == s.len() {
        assert(s.skip(k) =~= Seq::<Token>::empty());
        assert(run_from(s, st) == Some(stT));
    } else {
        let rest = s.skip(k);
        assert(rest[0] == s[k]);
        let op = if (s[k] matches Token::And) {
            BinOp::And
        } else {
            BinOp::Or
        };
        let stOp = stT.update(
            stT.len() - 1,
            SpecFrame { acc: Some(x1), pending: Some(op), nots: 0 },
        );
        assert(step(stT, rest[0]) == push_binop(stT, op));
        assert(push_binop(stT, op) == Some(stOp));
        assert(stOp.last() == SpecFrame { acc: Some(x1), pending: Some(op), nots: 0 });
        assert(expecting(stOp.last()));
        assert(rest.drop_first() =~= s.skip(k + 1));
        lemma_run_expr(s.skip(k + 1), stOp);
        let x2 = choose|x2: Ast|
            run_from(s.skip(k + 1), stOp) == Some(
                stOp.update(stOp.len() - 1, SpecFrame { acc: Some(x2), pending: None, nots: 0 }),
            );
        assert(stOp.update(stOp.len() - 1, SpecFrame { acc: Some(x2), pending: None, nots: 0 })
            =~= st.update(st.len() - 1, SpecFrame { acc: Some(x2), pending: None, nots: 0 }));
        assert(run_from(s, st) == Some(
            st.update(st.len() - 1, SpecFrame { acc: Some(x2), pending: None, nots: 0 }),
        ));
    }
}

/// What the grammar admits, the parser accepts: a valid token sequence
/// parses to exactly one tree. Together with `lemma_parse_needs_balance`,
/// every valid sequence also has balanced parentheses.
pub proof fn lemma_parse_accepts_valid(toks: Seq<Token>)
    requires
        valid_expr(toks),
    ensures
        spec_parse(toks) is Some,
{
    assert(init_state().last() == fresh_frame());
    lemma_run_expr(toks, init_state());
    let x = choose|x: Ast|
        run_from(toks, init_state()) == Some(
            init_state().update(0, SpecFrame { acc: Some(x), pending: None, nots: 0 }),
        );
    let st = init_state().update(0, SpecFrame { acc: Some(x), pending: None, nots: 0 });
    assert(st.len() == 1);
    assert(st.last() == SpecFrame { acc: Some(x), pending: None, nots: 0 });
    assert(finalize(st) == Some(x));
}

} // verus!
