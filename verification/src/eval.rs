//! The evaluator: assignments of variables to booleans, step traces of
//! intermediate results, and the recursive evaluation of an expression.

use crate::ast::Ast;
use crate::ast::spec_eval;
use crate::ast::spec_render;
use crate::ast::render;
use vstd::prelude::*;

verus! {

/// The mapping described by a list of (name, value) pairs; a later pair for
/// the same name wins.
pub open spec fn map_of(pairs: Seq<(String, bool)>) -> Map<Seq<char>, bool>
    decreases pairs.len(),
{
    if pairs.len() == 0 {
        Map::empty()
    } else {
        map_of(pairs.drop_last()).insert(pairs.last().0@, pairs.last().1)
    }
}

/// One complete mapping of variable names to boolean values: one row of a
/// truth table.
pub struct Assignment {
    pairs: Vec<(String, bool)>,
}

impl View for Assignment {
    type V = Map<Seq<char>, bool>;

    closed spec fn view(&self) -> Map<Seq<char>, bool> {
        map_of(self.pairs@)
    }
}

impl Assignment {
    /// The empty assignment.
    pub fn new() -> (r: Assignment)
        ensures
            r@ == Map::<Seq<char>, bool>::empty(),
    {
        Assignment { pairs: Vec::new() }
    }

    /// Binds `name` to `value`; a later binding shadows an earlier one.
    pub fn set(&mut self, name: String, value: bool)
        ensures
            final(self)@ == old(self)@.insert(name@, value),
    {
        self.pairs.push((name, value));
        proof {
            assert(self.pairs@.drop_last() =~= old(self).pairs@);
        }
    }

    /// Looks a name up: the bound value, or `None` where the name is not
    /// bound.
    pub fn get(&self, name: &str) -> (r: Option<bool>)
        ensures
            r == if self@.contains_key(name@) {
                Some(self@[name@])
            } else {
                None::<bool>
            },
    {
        lookup(&self.pairs, name)
    }

    /// The pairs of the assignment, in binding order.
    pub fn entries(&self) -> (r: &Vec<(String, bool)>)
        ensures
            map_of(r@) == self@,
    {
        &self.pairs
    }
}

/// The record of every compound sub-expression's value during one
/// evaluation, keyed by the sub-expression's canonical textual form.
/// Distinct structures never share a key — the rendering quotes variable
/// names, and the laws prove it injective — while two structurally
/// identical sub-expressions share one, where the value written last wins,
/// harmlessly: they evaluate alike.
pub struct StepTrace {
    entries: Vec<(String, bool)>,
}

impl View for StepTrace {
    type V = Map<Seq<char>, bool>;

    closed spec fn view(&self) -> Map<Seq<char>, bool> {
        map_of(self.entries@)
    }
}

impl StepTrace {
    /// The empty trace.
    pub fn new() -> (r: StepTrace)
        ensures
            r@ == Map::<Seq<char>, bool>::empty(),
    {
        StepTrace { entries: Vec::new() }
    }

    /// Records one sub-expression's value under its textual key.
    pub fn record(&mut self, key: String, value: bool)
        ensures
            final(self)@ == old(self)@.insert(key@, value),
    {
        self.entries.push((key, value));
        proof {
            assert(self.entries@.drop_last() =~= old(self).entries@);
        }
    }

    /// Looks a key up: the recorded value, or `None` where nothing was
    /// recorded under it.
    pub fn get(&self, key: &str) -> (r: Option<bool>)
        ensures
            r == if self@.contains_key(key@) {
                Some(self@[key@])
            } else {
                None::<bool>
            },
    {
        lookup(&self.entries, key)
    }

    /// The recorded pairs, in recording order.
    pub fn entries(&self) -> (r: &Vec<(String, bool)>)
        ensures
            map_of(r@) == self@,
    {
        &self.entries
    }
}

/// Finds the value the pair list binds a name to: the value of the last
/// pair bearing the name, or `None` without such a pair.
fn lookup(pairs: &Vec<(String, bool)>, name: &str) -> (r: Option<bool>)
    ensures
        r == if map_of(pairs@).contains_key(name@) {
            Some(map_of(pairs@)[name@])
        } else {
            None::<bool>
        },
{
    let mut idx = pairs.len();
    proof {
        assert(pairs@.take(idx as int) =~= pairs@);
    }
    while idx > 0
        invariant
            idx <= pairs@.len(),
            map_of(pairs@).contains_key(name@) == map_of(
                pairs@.take(idx as int),
            ).contains_key(name@),
            map_of(pairs@).contains_key(name@) ==> map_of(pairs@)[name@] == map_of(
                pairs@.take(idx as int),
            )[name@],
        decreases idx,
    {
        idx = idx - 1;
        proof {
            assert(pairs@.take(idx as int + 1).drop_last() =~= pairs@.take(idx as int));
            assert(pairs@.take(idx as int + 1).last() == pairs@[idx as int]);
        }
        if crate::token::str_eq(pairs[idx].0.as_str(), name) {
            return Some(pairs[idx].1);
        }
    }
    None
}

/// The trace left behind by one evaluation pass: each compound node writes
/// its value under its textual key after its operands have been evaluated,
/// on top of the entries already in `acc`.
pub open spec fn spec_steps(
    ast: Ast,
    m: Map<Seq<char>, bool>,
    acc: Map<Seq<char>, bool>,
) -> Map<Seq<char>, bool>
    decreases ast,
{
    match ast {
        Ast::And(l, r) => spec_steps(*r, m, spec_steps(*l, m, acc)).insert(
            spec_render(ast),
            spec_eval(ast, m),
        ),
        Ast::Or(l, r) => spec_steps(*r, m, spec_steps(*l, m, acc)).insert(
            spec_render(ast),
            spec_eval(ast, m),
        ),
        Ast::Not(e) => spec_steps(*e, m, acc).insert(spec_render(ast), spec_eval(ast, m)),
        Ast::Var(_) => acc,
    }
}

/// Evaluates `ast` under `values` and records every compound
/// sub-expression's value in `steps`. Both operands of a binary node are
/// evaluated unconditionally (no short-circuiting), each exactly once,
/// before the node's own value is computed; a variable absent from `values`
/// evaluates to `false`.
pub fn evaluate_steps(ast: &Ast, values: &Assignment, steps: &mut StepTrace) -> (r: bool)
    ensures
        r == spec_eval(*ast, values@),
        final(steps)@ == spec_steps(*ast, values@, old(steps)@),
    decreases *ast,
{
    match ast {
        Ast::And(l, r) => {
            let lv = evaluate_steps(l, values, steps);
            let rv = evaluate_steps(r, values, steps);
            let result = lv && rv;
            steps.record(render(ast), result);
            result
        },
        Ast::Or(l, r) => {
            let lv = evaluate_steps(l, values, steps);
            let rv = evaluate_steps(r, values, steps);
            let result = lv || rv;
            steps.record(render(ast), result);
            result
        },
        Ast::Not(e) => {
            let val = evaluate_steps(e, values, steps);
            let result = !val;
            steps.record(render(ast), result);
            result
        },
        Ast::Var(name) => match values.get(name.as_str()) {
            Some(b) => b,
            None => false,
        },
    }
}

} // verus!
