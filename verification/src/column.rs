//! Per-column type inference: classify each predictor column as numeric
//! (with fixed-point mean and population standard deviation) or categorical
//! (with its number of distinct labels), rejecting mixed columns.
use vstd::prelude::*;

use crate::arith::{div_tz, dtz, isqrt, lemma_dtz_bound, sqrt_floor, COLS_MAX, NUM_ABS_MAX,
    ROWS_MAX, SCALE};
use crate::errors::Error;
use crate::value::Value;

verus! {

/// The inferred kind of one predictor column.  For a numeric column `mean`
/// and `sd` are fixed-point; `sd` is the population standard deviation.
/// For a categorical column `distinct` counts the distinct non-missing
/// labels seen in the population.
#[derive(Debug, Clone, Copy, PartialEq, Eq, Structural)]
pub enum ColumnType {
    Numeric { mean: i64, sd: i64 },
    Categorical { distinct: usize },
}

/// Column `j` of a table, as the sequence of its cells, row by row.
pub open spec fn col_seq(rows: Seq<Vec<Value>>, j: int) -> Seq<Value> {
    rows.map_values(|r: Vec<Value>| r@[j])
}

/// Every row has exactly `ncols` cells.
pub open spec fn rect(rows: Seq<Vec<Value>>, ncols: int) -> bool {
    forall|i: int| 0 <= i < rows.len() ==> (#[trigger] rows[i])@.len() == ncols
}

/// A numeric cell within the representable fixed-point range.
pub open spec fn bounded_cell(v: Value) -> bool {
    v matches Value::Number(n) ==> -NUM_ABS_MAX <= n <= NUM_ABS_MAX
}

/// All numeric cells of the table are within the fixed-point range.
pub open spec fn bounded_table(rows: Seq<Vec<Value>>) -> bool {
    forall|i: int, j: int|
        0 <= i < rows.len() && 0 <= j < rows[i]@.len() ==> bounded_cell(#[trigger] rows[i]@[j])
}

/// The sum of `f` over the cells of a column.
pub open spec fn sum_by(s: Seq<Value>, f: spec_fn(Value) -> int) -> int
    decreases s.len(),
{
    if s.len() == 0 {
        0
    } else {
        sum_by(s.drop_last(), f) + f(s.last())
    }
}

/// How many cells of the column are numbers.
pub open spec fn num_count(s: Seq<Value>) -> int {
    sum_by(s, |v: Value| if v is Number { 1int } else { 0int })
}

/// The sum of the numeric cells of the column.
pub open spec fn num_sum(s: Seq<Value>) -> int {
    sum_by(s, |v: Value| match v {
        Value::Number(n) => n as int,
        _ => 0int,
    })
}

/// The sum of squared deviations of the numeric cells from `m`.
pub open spec fn sumsq_dev(s: Seq<Value>, m: int) -> int {
    sum_by(s, |v: Value| match v {
        Value::Number(n) => (n - m) * (n - m),
        _ => 0int,
    })
}

/// Whether the column holds at least one number.
pub open spec fn has_num(s: Seq<Value>) -> bool
    decreases s.len(),
{
    if s.len() == 0 {
        false
    } else {
        has_num(s.drop_last()) || s.last() is Number
    }
}

/// Whether the column holds at least one category label.
pub open spec fn has_cat(s: Seq<Value>) -> bool
    decreases s.len(),
{
    if s.len() == 0 {
        false
    } else {
        has_cat(s.drop_last()) || s.last() is Category
    }
}

/// A column holding both numbers and category labels is mixed; type
/// inference rejects it.
pub open spec fn mixed(s: Seq<Value>) -> bool {
    has_num(s) && has_cat(s)
}

/// The labels of the column's categorical cells, in row order, duplicates
/// kept.
pub open spec fn label_seq(s: Seq<Value>) -> Seq<Seq<char>>
    decreases s.len(),
{
    if s.len() == 0 {
        Seq::empty()
    } else {
        match s.last() {
            Value::Category(c) => label_seq(s.drop_last()).push(c@),
            _ => label_seq(s.drop_last()),
        }
    }
}

/// How many distinct non-missing labels the column holds.
pub open spec fn distinct_count(s: Seq<Value>) -> nat {
    label_seq(s).to_set().len()
}

/// The fixed-point mean of the column's numeric cells.
pub open spec fn mean_spec(s: Seq<Value>) -> int
    recommends
        num_count(s) > 0,
{
    dtz(num_sum(s), num_count(s))
}

/// The fixed-point population variance of the column's numeric cells, at
/// twice the fixed-point scale.
pub open spec fn var_spec(s: Seq<Value>) -> int
    recommends
        num_count(s) > 0,
{
    dtz(sumsq_dev(s, mean_spec(s)), num_count(s))
}

/// The fixed-point population standard deviation of the column's numeric
/// cells.
pub open spec fn sd_spec(s: Seq<Value>) -> int
    recommends
        num_count(s) > 0,
{
    sqrt_floor(var_spec(s))
}

/// The column type inference assigns to an unmixed column: numeric when any
/// number occurs, else categorical with the distinct label count (zero for
/// an all-missing column).
pub open spec fn col_type_spec(s: Seq<Value>) -> ColumnType {
    if has_num(s) {
        ColumnType::Numeric { mean: mean_spec(s) as i64, sd: sd_spec(s) as i64 }
    } else {
        ColumnType::Categorical { distinct: distinct_count(s) as usize }
    }
}

/// Counting, summing and the existence flags never leave their ranges.
pub proof fn lemma_num_count_bounds(s: Seq<Value>)
    ensures
        0 <= num_count(s) <= s.len(),
        has_num(s) ==> num_count(s) >= 1,
    decreases s.len(),
{
    if s.len() > 0 {
        lemma_num_count_bounds(s.drop_last());
    }
}

/// The inferred types are well formed: means and deviations are in range.
pub open spec fn types_wf(ts: Seq<ColumnType>) -> bool {
    forall|j: int| 0 <= j < ts.len() ==> (match #[trigger] ts[j] {
        ColumnType::Numeric { mean, sd } => -NUM_ABS_MAX <= mean <= NUM_ABS_MAX && 0 <= sd <= 2
            * NUM_ABS_MAX,
        ColumnType::Categorical { .. } => true,
    })
}

/// Whether `s` already occurs among the label strings of `seen`.
fn contains_label(seen: &Vec<String>, s: &String) -> (r: bool)
    ensures
        r == seen@.map_values(|t: String| t@).contains(s@),
{
    let mut k: usize = 0;
    while k < seen.len()
        invariant
            0 <= k <= seen@.len(),
            forall|k2: int| 0 <= k2 < k ==> (#[trigger] seen@[k2])@ != s@,
        decreases seen@.len() - k,
    {
        if seen[k].eq(s) {
            proof {
                assert(seen@.map_values(|t: String| t@)[k as int] == s@);
            }
            return true;
        }
        k = k + 1;
    }
    proof {
        let mv = seen@.map_values(|t: String| t@);
        assert(forall|k2: int| 0 <= k2 < mv.len() ==> #[trigger] mv[k2] == seen@[k2]@);
        assert(!mv.contains(s@));
    }
    false
}

/// Infer the type of column `j` of the population, or report that the
/// column mixes numbers and category labels.
#[verifier::loop_isolation(false)]
fn infer_column(pop: &Vec<Vec<Value>>, j: usize) -> (r: Result<ColumnType, Error>)
    requires
        1 <= pop@.len() <= ROWS_MAX,
        rect(pop@, pop@[0]@.len() as int),
        bounded_table(pop@),
        (j as int) < pop@[0]@.len(),
    ensures
        match r {
            Ok(t) => {
                &&& !mixed(col_seq(pop@, j as int))
                &&& t == col_type_spec(col_seq(pop@, j as int))
                &&& (t matches ColumnType::Numeric { mean, sd } ==> -NUM_ABS_MAX <= mean
                    <= NUM_ABS_MAX && 0 <= sd <= 2 * NUM_ABS_MAX)
            },
            Err(e) => mixed(col_seq(pop@, j as int)) && e == (Error::MixedColumnType {
                col: j,
            }),
        },
{
    let ghost col = col_seq(pop@, j as int);
    let n = pop.len();
    let mut hn = false;
    let mut hc = false;
    let mut count: usize = 0;
    let mut sum: i128 = 0;
    let mut seen: Vec<String> = Vec::new();
    let mut i: usize = 0;
    while i < n
        invariant
            0 <= i <= n,
            hn == has_num(col.take(i as int)),
            hc == has_cat(col.take(i as int)),
            count == num_count(col.take(i as int)),
            count <= i,
            sum == num_sum(col.take(i as int)),
            -((count as int) * NUM_ABS_MAX) <= sum <= (count as int) * NUM_ABS_MAX,
            seen@.len() <= i,
            seen@.map_values(|t: String| t@).no_duplicates(),
            forall|l: Seq<char>|
                seen@.map_values(|t: String| t@).contains(l) <==> label_seq(
                    col.take(i as int),
                ).contains(l),
        decreases n - i,
    {
        proof {
            assert(col.take(i + 1) =~= col.take(i as int).push(col[i as int]));
            assert(col.take(i + 1).drop_last() =~= col.take(i as int));
            assert(col.take(i + 1).last() == col[i as int]);
            assert(col[i as int] == pop@[i as int]@[j as int]);
        }
        let row: &Vec<Value> = &pop[i];
        match &row[j] {
            Value::Number(x) => {
                hn = true;
                count = count + 1;
                sum = sum + (*x as i128);
                proof {
                    assert(label_seq(col.take(i + 1)) == label_seq(col.take(i as int)));
                }
            },
            Value::Category(c) => {
                hc = true;
                if !contains_label(&seen, c) {
                    let ghost old_seen = seen@;
                    seen.push(c.clone());
                    proof {
                        let mv = old_seen.map_values(|t: String| t@);
                        let ls = label_seq(col.take(i as int));
                        let mv2 = seen@.map_values(|t: String| t@);
                        let ls2 = label_seq(col.take(i + 1));
                        assert(mv2 =~= mv.push(c@));
                        assert(ls2 =~= ls.push(c@));
                        assert forall|l: Seq<char>| #[trigger] mv2.contains(l) <==> ls2.contains(
                            l,
                        ) by {
                            vstd::seq_lib::lemma_seq_contains_after_push(mv, c@, l);
                            vstd::seq_lib::lemma_seq_contains_after_push(ls, c@, l);
                        }
                        assert(seen@.map_values(|t: String| t@).no_duplicates());
                    }
                } else {
                    proof {
                        let mv = seen@.map_values(|t: String| t@);
                        let ls = label_seq(col.take(i as int));
                        let ls2 = label_seq(col.take(i + 1));
                        assert(ls2 =~= ls.push(c@));
                        assert(mv.contains(c@));
                        assert forall|l: Seq<char>| #[trigger] mv.contains(l) <==> ls2.contains(
                            l,
                        ) by {
                            vstd::seq_lib::lemma_seq_contains_after_push(ls, c@, l);
                        }
                    }
                }
            },
            Value::Missing => {
                proof {
                    assert(label_seq(col.take(i + 1)) == label_seq(col.take(i as int)));
                }
            },
        }
        i = i + 1;
    }
    proof {
        assert(col.take(n as int) =~= col);
    }
    if hn && hc {
        return Err(Error::MixedColumnType { col: j });
    }
    if hn {
        proof {
            lemma_num_count_bounds(col);
        }
        let mean128 = div_tz(sum, count as i128);
        proof {
            lemma_dtz_bound(sum as int, count as int, NUM_ABS_MAX as int);
        }
        let mean: i64 = mean128 as i64;
        let mut sumsq: i128 = 0;
        let mut i2: usize = 0;
        while i2 < n
            invariant
                0 <= i2 <= n,
                -NUM_ABS_MAX <= mean <= NUM_ABS_MAX,
                mean == mean_spec(col),
                sumsq == sumsq_dev(col.take(i2 as int), mean as int),
                0 <= sumsq <= (num_count(col.take(i2 as int))) * 400_000_000_000_000_000_000,
                num_count(col.take(i2 as int)) <= i2,
            decreases n - i2,
        {
            proof {
                assert(col.take(i2 + 1) =~= col.take(i2 as int).push(col[i2 as int]));
                assert(col.take(i2 + 1).drop_last() =~= col.take(i2 as int));
                assert(col.take(i2 + 1).last() == col[i2 as int]);
                assert(col[i2 as int] == pop@[i2 as int]@[j as int]);
                lemma_num_count_bounds(col.take(i2 as int));
            }
            let row: &Vec<Value> = &pop[i2];
            match &row[j] {
                Value::Number(x) => {
                    let d: i64 = *x - mean;
                    proof {
                        assert(0 <= (d as int) * (d as int) <= 400_000_000_000_000_000_000)
                            by (nonlinear_arith)
                            requires
                                -(2 * NUM_ABS_MAX) <= d <= 2 * NUM_ABS_MAX,
                                NUM_ABS_MAX == 10_000_000_000,
                        ;
                    }
                    let dd: i128 = (d as i128) * (d as i128);
                    sumsq = sumsq + dd;
                },
                _ => {},
            }
            i2 = i2 + 1;
        }
        proof {
            assert(col.take(n as int) =~= col);
            lemma_dtz_bound(sumsq as int, count as int, 400_000_000_000_000_000_000);
        }
        let var = div_tz(sumsq, count as i128);
        let sd128 = isqrt(var as u128);
        proof {
            assert(sd128 <= 20_000_000_000) by (nonlinear_arith)
                requires
                    (sd128 as int) * (sd128 as int) <= 400_000_000_000_000_000_000,
                    sd128 >= 0,
            ;
        }
        let sd: i64 = sd128 as i64;
        Ok(ColumnType::Numeric { mean, sd })
    } else {
        let distinct = seen.len();
        proof {
            let sv = seen@.map_values(|t: String| t@);
            assert(sv.to_set() =~= label_seq(col).to_set());
            sv.unique_seq_to_set();
        }
        Ok(ColumnType::Categorical { distinct })
    }
}

/// Infer every predictor column's type from the population, failing on the
/// first column that mixes numbers and category labels.
pub fn infer_types(pop: &Vec<Vec<Value>>) -> (r: Result<Vec<ColumnType>, Error>)
    requires
        1 <= pop@.len() <= ROWS_MAX,
        pop@[0]@.len() <= COLS_MAX,
        rect(pop@, pop@[0]@.len() as int),
        bounded_table(pop@),
    ensures
        match r {
            Ok(ts) => {
                &&& ts@.len() == pop@[0]@.len()
                &&& types_wf(ts@)
                &&& forall|j: int| 0 <= j < ts@.len() ==> !mixed(#[trigger] col_seq(pop@, j))
                &&& forall|j: int|
                    0 <= j < ts@.len() ==> #[trigger] ts@[j] == col_type_spec(col_seq(pop@, j))
            },
            Err(e) => {
                &&& e matches Error::MixedColumnType { col }
                &&& (col as int) < pop@[0]@.len()
                &&& mixed(col_seq(pop@, col as int))
                &&& forall|k: int| 0 <= k < col ==> !mixed(#[trigger] col_seq(pop@, k))
            },
        },
{
    let ncols = pop[0].len();
    let mut out: Vec<ColumnType> = Vec::new();
    let mut j: usize = 0;
    while j < ncols
        invariant
            0 <= j <= ncols,
            ncols == pop@[0]@.len(),
            1 <= pop@.len() <= ROWS_MAX,
            rect(pop@, ncols as int),
            bounded_table(pop@),
            out@.len() == j,
            types_wf(out@),
            forall|k: int| 0 <= k < j ==> !mixed(#[trigger] col_seq(pop@, k)),
            forall|k: int|
                0 <= k < j ==> #[trigger] out@[k] == col_type_spec(col_seq(pop@, k)),
        decreases ncols - j,
    {
        match infer_column(pop, j) {
            Ok(t) => {
                out.push(t);
            },
            Err(e) => {
                return Err(e);
            },
        }
        j = j + 1;
    }
    Ok(out)
}

} // verus!
