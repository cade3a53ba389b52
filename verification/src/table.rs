//! The truth-table generator: enumerates every assignment of an
//! expression's variables, evaluates the expression under each, and keeps
//! one row per assignment together with its step trace.

use crate::ast::Ast;
use crate::ast::collect_vars;
use crate::ast::extract_variables;
use crate::ast::spec_eval;
use crate::ast::views_of;
use crate::eval::Assignment;
use crate::eval::StepTrace;
use crate::eval::evaluate_steps;
use crate::eval::spec_steps;
use vstd::arithmetic::power2::lemma2_to64;
use vstd::arithmetic::power2::lemma_pow2_pos;
use vstd::arithmetic::power2::lemma_pow2_strictly_increases;
use vstd::arithmetic::power2::lemma_pow2_unfold;
use vstd::arithmetic::power2::pow2;
use vstd::prelude::*;

verus! {

/// The most variables a table is generated for: with more, the 2^n rows
/// are impractical to hold or read, so generation fails fast instead.
pub const MAX_VARIABLES: usize = 20;

/// Why no table was generated.
#[derive(Debug, PartialEq)]
pub enum TableError {
    /// The expression mentions more than `MAX_VARIABLES` variables.
    TooManyVariables,
}

/// One row of a truth table: one assignment, the expression's value under
/// it, and the trace of the intermediate results of that evaluation.
pub struct Row {
    pub values: Assignment,
    pub result: bool,
    pub steps: StepTrace,
}

/// A truth table: the expression's variables in first-occurrence order, and
/// one row for every assignment of those variables.
pub struct TruthTable {
    pub vars: Vec<String>,
    pub rows: Vec<Row>,
}

/// Bit `j` of `i`.
pub open spec fn bit_of(i: nat, j: nat) -> bool {
    (i / pow2(j)) % 2 == 1
}

/// The assignment of row `i`, built by binding the first `n` of the
/// variables `vs` in order: variable `j` is `true` exactly when bit `j` of
/// `i` is set.
pub open spec fn row_map_upto(vs: Seq<Seq<char>>, i: nat, n: nat) -> Map<Seq<char>, bool>
    decreases n,
{
    if n == 0 {
        Map::empty()
    } else {
        row_map_upto(vs, i, (n - 1) as nat).insert(vs[n - 1], bit_of(i, (n - 1) as nat))
    }
}

/// The assignment of row `i` over all the variables `vs`.
pub open spec fn row_map(vs: Seq<Seq<char>>, i: nat) -> Map<Seq<char>, bool> {
    row_map_upto(vs, i, vs.len())
}

/// What one row of the table for `ast` over the variables `vs` holds: the
/// assignment of row `i`, the expression's value under it, and the step
/// trace of that evaluation.
pub open spec fn row_ok(row: Row, ast: Ast, vs: Seq<Seq<char>>, i: nat) -> bool {
    &&& row.values@ == row_map(vs, i)
    &&& row.result == spec_eval(ast, row_map(vs, i))
    &&& row.steps@ == spec_steps(ast, row_map(vs, i), Map::empty())
}

/// Enumerates every assignment of the variables of `ast` and evaluates the
/// expression under each: the table holds exactly 2^n rows for n variables
/// — one row for the constant case n = 0 — and row `i` assigns variable `j`
/// the value of bit `j` of `i`. An expression with more than
/// `MAX_VARIABLES` variables is rejected instead of exhausting memory.
pub fn generate_truth_table(ast: &Ast) -> (r: Result<TruthTable, TableError>)
    ensures
        match r {
            Ok(t) => {
                let vs = collect_vars(*ast, Seq::empty());
                &&& vs.len() <= MAX_VARIABLES
                &&& views_of(t.vars@) == vs
                &&& t.rows@.len() == pow2(vs.len())
                &&& forall|i: int|
                    0 <= i < t.rows@.len() ==> row_ok(#[trigger] t.rows@[i], *ast, vs, i as nat)
            },
            Err(e) => {
                &&& e == TableError::TooManyVariables
                &&& collect_vars(*ast, Seq::empty()).len() > MAX_VARIABLES
            },
        },
{
    let mut vars: Vec<String> = Vec::new();
    proof {
        assert(views_of(vars@) =~= Seq::<Seq<char>>::empty());
    }
    extract_variables(ast, &mut vars);
    let ghost vs = views_of(vars@);
    let n = vars.len();
    if n > MAX_VARIABLES {
        return Err(TableError::TooManyVariables);
    }
    let mut total: usize = 1;
    let mut j: usize = 0;
    proof {
        lemma2_to64();
    }
    while j < n
        invariant
            j <= n,
            n <= MAX_VARIABLES,
            total == pow2(j as nat),
        decreases n - j,
    {
        proof {
            lemma_pow2_unfold(j as nat + 1);
            if (j as nat) + 1 < 20 {
                lemma_pow2_strictly_increases(j as nat + 1, 20);
            }
            lemma2_to64();
        }
        total = total * 2;
        j = j + 1;
    }
    let mut rows: Vec<Row> = Vec::new();
    let mut i: usize = 0;
    while i < total
        invariant
            i <= total,
            n == vars@.len(),
            n <= MAX_VARIABLES,
            vs == views_of(vars@),
            vs.len() == n,
            total == pow2(n as nat),
            rows@.len() == i,
            forall|k: int| 0 <= k < i ==> row_ok(#[trigger] rows@[k], *ast, vs, k as nat),
        decreases total - i,
    {
        let mut values = Assignment::new();
        let mut divisor: usize = 1;
        let mut j: usize = 0;
        proof {
            lemma2_to64();
        }
        while j < n
            invariant
                j <= n,
                n == vars@.len(),
                n <= MAX_VARIABLES,
                vs == views_of(vars@),
                vs.len() == n,
                divisor == pow2(j as nat),
                values@ == row_map_upto(vs, i as nat, j as nat),
            decreases n - j,
        {
            proof {
                lemma_pow2_pos(j as nat);
                lemma_pow2_unfold(j as nat + 1);
                if (j as nat) + 1 < 20 {
                    lemma_pow2_strictly_increases(j as nat + 1, 20);
                }
                lemma2_to64();
            }
            let b = (i / divisor) % 2 == 1;
            proof {
                assert(views_of(vars@)[j as int] == vars@[j as int]@);
                assert(b == bit_of(i as nat, j as nat));
            }
            values.set(vars[j].clone(), b);
            divisor = divisor * 2;
            j = j + 1;
        }
        let mut steps = StepTrace::new();
        let result = evaluate_steps(ast, &values, &mut steps);
        rows.push(Row { values, result, steps });
        i = i + 1;
    }
    Ok(TruthTable { vars, rows })
}

} // verus!
