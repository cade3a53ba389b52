//! The parser: consumes a token sequence left to right exactly once and
//! builds the abstract syntax tree, or reports that the sequence has none.
//!
//! `and` and `or` share one precedence level and associate to the left;
//! `not` binds tighter than both and applies to the next parsed operand (a
//! variable or a parenthesized group). A `not` with no operand to its right
//! is absorbed silently, an inherited quirk. A malformed sequence — one with
//! unmatched parentheses, a dangling operator, two operands in a row, an
//! empty group, or no token at all — yields no tree.
//!
//! The parser is a machine that takes one token at a time. Parenthesis
//! nesting is tracked with an explicit stack of frames, one frame per open
//! group; each frame holds the expression combined so far on its level, the
//! binary operator waiting for a right operand, and the count of `not`s
//! waiting for the next operand.

use crate::ast::Ast;
use crate::token::Token;
use vstd::prelude::*;

verus! {

/// A binary connective.
#[derive(Debug, PartialEq, Clone, Copy)]
pub enum BinOp {
    And,
    Or,
}

/// The parsing state of one parenthesis level.
pub ghost struct SpecFrame {
    /// The expression combined so far on this level.
    pub acc: Option<Ast>,
    /// A binary operator waiting for its right operand.
    pub pending: Option<BinOp>,
    /// How many `not`s wait for the next operand.
    pub nots: nat,
}

/// The node a binary connective builds.
pub open spec fn mk_bin(op: BinOp, l: Ast, r: Ast) -> Ast {
    match op {
        BinOp::And => Ast::And(Box::new(l), Box::new(r)),
        BinOp::Or => Ast::Or(Box::new(l), Box::new(r)),
    }
}

/// The operand wrapped in `n` pending `not`s.
pub open spec fn wrap_nots(e: Ast, n: nat) -> Ast
    decreases n,
{
    if n == 0 {
        e
    } else {
        wrap_nots(Ast::Not(Box::new(e)), (n - 1) as nat)
    }
}

/// The fresh state of a parenthesis level.
pub open spec fn fresh_frame() -> SpecFrame {
    SpecFrame { acc: None, pending: None, nots: 0 }
}

/// The state after the top frame takes an operand: pending `not`s wrap it,
/// and a pending binary operator combines it with the expression so far.
/// Two operands in a row fail.
pub open spec fn push_operand(st: Seq<SpecFrame>, e: Ast) -> Option<Seq<SpecFrame>> {
    let f = st.last();
    let e2 = wrap_nots(e, f.nots);
    match (f.pending, f.acc) {
        (Option::Some(op), Option::Some(l)) => Some(
            st.update(
                st.len() - 1,
                SpecFrame { acc: Some(mk_bin(op, l, e2)), pending: None, nots: 0 },
            ),
        ),
        (Option::None, Option::None) => Some(
            st.update(st.len() - 1, SpecFrame { acc: Some(e2), pending: None, nots: 0 }),
        ),
        _ => None,
    }
}

/// The state after a binary operator arrives: it needs a left operand and
/// no operator may already be waiting; `not`s still pending are absorbed.
pub open spec fn push_binop(st: Seq<SpecFrame>, op: BinOp) -> Option<Seq<SpecFrame>> {
    let f = st.last();
    match (f.pending, f.acc) {
        (Option::None, Option::Some(l)) => Some(
            st.update(st.len() - 1, SpecFrame { acc: Some(l), pending: Some(op), nots: 0 }),
        ),
        _ => None,
    }
}

/// One step of the parser: the state after taking one token, or `None` when
/// the token cannot follow what came before it.
pub open spec fn step(st: Seq<SpecFrame>, t: Token) -> Option<Seq<SpecFrame>> {
    let f = st.last();
    match t {
        Token::Var(name) => push_operand(st, Ast::Var(name)),
        Token::Not => Some(
            st.update(st.len() - 1, SpecFrame { nots: f.nots + 1, ..f }),
        ),
        Token::And => push_binop(st, BinOp::And),
        Token::Or => push_binop(st, BinOp::Or),
        Token::LParen => Some(st.push(fresh_frame())),
        Token::RParen => if st.len() < 2 {
            None  // no open group to close
        } else {
            match (f.pending, f.acc) {
                (Option::None, Option::Some(e)) => push_operand(st.drop_last(), e),
                _ => None,  // an empty group, or a dangling operator before `)`
            }
        },
    }
}

/// The state after taking every token of `toks` in order, starting from
/// `st`, or `None` when some step failed.
pub open spec fn run_from(toks: Seq<Token>, st: Seq<SpecFrame>) -> Option<Seq<SpecFrame>>
    decreases toks.len(),
{
    if toks.len() == 0 {
        Some(st)
    } else {
        match step(st, toks[0]) {
            Some(st2) => run_from(toks.drop_first(), st2),
            None => None,
        }
    }
}

/// The state the parser starts from: one fresh frame for the whole input.
pub open spec fn init_state() -> Seq<SpecFrame> {
    seq![fresh_frame()]
}

/// The tree read off the final state: exactly one frame may remain (an
/// unclosed group fails), it must hold an expression, and no operator may
/// still wait for an operand; `not`s still pending are absorbed.
pub open spec fn finalize(st: Seq<SpecFrame>) -> Option<Ast> {
    if st.len() == 1 {
        match (st.last().pending, st.last().acc) {
            (Option::None, Option::Some(e)) => Some(e),
            _ => None,
        }
    } else {
        None
    }
}

/// The tree of a token sequence: what the machine yields after taking every
/// token, or `None` for a malformed sequence.
pub open spec fn spec_parse(toks: Seq<Token>) -> Option<Ast> {
    match run_from(toks, init_state()) {
        Some(st) => finalize(st),
        None => None,
    }
}

/// The parsing state of one parenthesis level, as the parser holds it.
struct ParseFrame {
    acc: Option<Ast>,
    pending: Option<BinOp>,
    nots: usize,
}

impl View for ParseFrame {
    type V = SpecFrame;

    closed spec fn view(&self) -> SpecFrame {
        SpecFrame { acc: self.acc, pending: self.pending, nots: self.nots as nat }
    }
}

/// The views of a frame stack, frame by frame.
spec fn views(frames: Seq<ParseFrame>) -> Seq<SpecFrame> {
    frames.map_values(|f: ParseFrame| f@)
}

/// Builds the node of a binary connective.
fn mk_bin_node(op: BinOp, l: Ast, r: Ast) -> (res: Ast)
    ensures
        res == mk_bin(op, l, r),
{
    match op {
        BinOp::And => Ast::And(Box::new(l), Box::new(r)),
        BinOp::Or => Ast::Or(Box::new(l), Box::new(r)),
    }
}

/// Wraps an operand in its pending `not`s.
fn wrap_nots_node(e: Ast, n: usize) -> (res: Ast)
    ensures
        res == wrap_nots(e, n as nat),
    decreases n,
{
    if n == 0 {
        e
    } else {
        wrap_nots_node(Ast::Not(Box::new(e)), n - 1)
    }
}

/// Hands an operand to the top frame, as `push_operand` describes; reports
/// failure for two operands in a row.
fn take_operand(frames: &mut Vec<ParseFrame>, e: Ast) -> (ok: bool)
    requires
        old(frames)@.len() >= 1,
    ensures
        match push_operand(views(old(frames)@), e) {
            Some(st) => ok && views(final(frames)@) == st,
            None => !ok,
        },
        ok ==> final(frames)@.len() == old(frames)@.len(),
        ok ==> forall|j: int|
            0 <= j < final(frames)@.len() - 1 ==> final(frames)@[j] == old(frames)@[j],
        ok ==> final(frames)@.last().nots == 0,
{
    let ghost st0 = views(frames@);
    let top = frames.pop().unwrap();
    let result = match (top.pending, top.acc) {
        (Some(op), Some(l)) => {
            let e2 = wrap_nots_node(e, top.nots);
            frames.push(ParseFrame { acc: Some(mk_bin_node(op, l, e2)), pending: None, nots: 0 });
            true
        },
        (None, None) => {
            let e2 = wrap_nots_node(e, top.nots);
            frames.push(ParseFrame { acc: Some(e2), pending: None, nots: 0 });
            true
        },
        _ => false,
    };
    proof {
        if result {
            assert(views(frames@) =~= push_operand(st0, e).unwrap());
        }
    }
    result
}

/// Consumes the token sequence left to right exactly once and builds the
/// tree, or yields `None` for a malformed sequence.
pub fn parse_expr(tokens: Vec<Token>) -> (r: Option<Ast>)
    ensures
        r == spec_parse(tokens@),
{
    let ghost orig = tokens@;
    let mut frames: Vec<ParseFrame> = Vec::new();
    frames.push(ParseFrame { acc: None, pending: None, nots: 0 });
    proof {
        assert(views(frames@) =~= init_state());
        assert(orig.skip(0) =~= orig);
    }
    let mut i: usize = 0;
    while i < tokens.len()
        invariant
            i <= tokens@.len(),
            tokens@ == orig,
            frames@.len() >= 1,
            forall|j: int| 0 <= j < frames@.len() ==> (#[trigger] frames@[j].nots) <= i,
            spec_parse(orig) == match run_from(orig.skip(i as int), views(frames@)) {
                Some(st) => finalize(st),
                None => None,
            },
        decreases tokens@.len() - i,
    {
        let ghost st0 = views(frames@);
        let ghost rest = orig.skip(i as int);
        proof {
            assert(rest[0] == orig[i as int]);
            assert(rest.drop_first() =~= orig.skip(i as int + 1));
        }
        let t = &tokens[i];
        match t {
            Token::Var(name) => {
                if !take_operand(&mut frames, Ast::Var(name.clone())) {
                    return None;
                }
            },
            Token::Not => {
                let top = frames.pop().unwrap();
                let bumped = ParseFrame { nots: top.nots + 1, ..top };
                frames.push(bumped);
                proof {
                    assert(views(frames@) =~= step(st0, rest[0]).unwrap());
                }
            },
            Token::And => {
                let top = frames.pop().unwrap();
                match (top.pending, top.acc) {
                    (None, Some(l)) => {
                        frames.push(ParseFrame { acc: Some(l), pending: Some(BinOp::And), nots: 0 });
                        proof {
                            assert(views(frames@) =~= step(st0, rest[0]).unwrap());
                        }
                    },
                    _ => {
                        return None;
                    },
                }
            },
            Token::Or => {
                let top = frames.pop().unwrap();
                match (top.pending, top.acc) {
                    (None, Some(l)) => {
                        frames.push(ParseFrame { acc: Some(l), pending: Some(BinOp::Or), nots: 0 });
                        proof {
                            assert(views(frames@) =~= step(st0, rest[0]).unwrap());
                        }
                    },
                    _ => {
                        return None;
                    },
                }
            },
            Token::LParen => {
                frames.push(ParseFrame { acc: None, pending: None, nots: 0 });
                proof {
                    assert(views(frames@) =~= step(st0, rest[0]).unwrap());
                }
            },
            Token::RParen => {
                let top = frames.pop().unwrap();
                if frames.len() == 0 {
                    return None;
                }
                match (top.pending, top.acc) {
                    (None, Some(e)) => {
                        proof {
                            assert(views(frames@) =~= st0.drop_last());
                        }
                        if !take_operand(&mut frames, e) {
                            return None;
                        }
                    },
                    _ => {
                        return None;
                    },
                }
            },
        }
        i = i + 1;
    }
    proof {
        assert(orig.skip(i as int) =~= Seq::<Token>::empty());
    }
    if frames.len() == 1 {
        let top = frames.pop().unwrap();
        match (top.pending, top.acc) {
            (None, Some(e)) => Some(e),
            _ => None,
        }
    } else {
        None
    }
}

/// Consumes the token sequence and builds the tree; the same parse as
/// `parse_expr`, under the name the callers of the one-file variant use.
pub fn parse(tokens: Vec<Token>) -> (r: Option<Ast>)
    ensures
        r == spec_parse(tokens@),
{
    parse_expr(tokens)
}

} // verus!
