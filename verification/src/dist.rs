//! The weighted distance between two records, inspected column by column
//! in a caller-chosen order, with early termination once a threshold is
//! exceeded.
use vstd::prelude::*;

use crate::arith::{div_tz, dtz, lemma_dtz_bound, lemma_dtz_le_abs, COLS_MAX, NUM_ABS_MAX, SCALE,
    WEIGHT_MAX};
use crate::column::{bounded_cell, types_wf, ColumnType};
use crate::errors::Error;
use crate::value::Value;

verus! {

/// The largest weighted contribution one column can make to a distance.
pub const CELL_TERM_MAX: i128 = 100_000_000_000_000_000_000_000_000_000;

/// A value pair the metric must reject: a number against a label, or
/// numbers in a column not declared numeric.
pub open spec fn cell_mismatch(a: Value, b: Value, t: ColumnType) -> bool {
    ||| (a is Number && b is Category)
    ||| (a is Category && b is Number)
    ||| (a is Number && b is Number && !(t is Numeric))
}

/// The weighted distance contribution of one column: normalized absolute
/// difference for numbers (zero when the column's deviation is zero),
/// zero or one for labels, zero whenever either side is missing.
pub open spec fn cell_term(a: Value, b: Value, t: ColumnType, w: int) -> int
    recommends
        !cell_mismatch(a, b, t),
        w >= 0,
{
    match (a, b) {
        (Value::Number(x), Value::Number(y)) => {
            let sd = t->Numeric_sd;
            let diff = if x >= y {
                x - y
            } else {
                y - x
            };
            if sd <= 0 {
                0int
            } else {
                dtz(dtz(diff * SCALE, sd as int) * w, SCALE as int)
            }
        },
        (Value::Category(c), Value::Category(d)) => {
            if c@ == d@ {
                0int
            } else {
                w
            }
        },
        _ => 0int,
    }
}

/// The outcome of the metric from column position `pos` of the check
/// order on, with `acc` already accumulated: the final distance, an early
/// exit as soon as the threshold is exceeded, or the first mismatched
/// column.
pub open spec fn dist_from(
    a: Seq<Value>,
    b: Seq<Value>,
    ts: Seq<ColumnType>,
    ws: Seq<i64>,
    ord: Seq<usize>,
    limit: int,
    thr: Option<int>,
    pos: int,
    acc: int,
) -> Result<int, int>
    recommends
        0 <= pos <= limit <= ord.len(),
    decreases limit - pos,
{
    if pos < 0 || pos >= limit {
        Ok(acc)
    } else {
        let c = ord[pos] as int;
        if cell_mismatch(a[c], b[c], ts[c]) {
            Err(c)
        } else {
            let acc2 = acc + cell_term(a[c], b[c], ts[c], ws[c] as int);
            if thr matches Some(t) && acc2 > t {
                Ok(acc2)
            } else {
                dist_from(a, b, ts, ws, ord, limit, thr, pos + 1, acc2)
            }
        }
    }
}

/// The outcome of the metric over the first `limit` columns of the check
/// order.
pub open spec fn dist_spec(
    a: Seq<Value>,
    b: Seq<Value>,
    ts: Seq<ColumnType>,
    ws: Seq<i64>,
    ord: Seq<usize>,
    limit: int,
    thr: Option<int>,
) -> Result<int, int> {
    dist_from(a, b, ts, ws, ord, limit, thr, 0, 0)
}

/// A record whose numeric cells are in the fixed-point range.
pub open spec fn bounded_row(r: Seq<Value>) -> bool {
    forall|j: int| 0 <= j < r.len() ==> bounded_cell(#[trigger] r[j])
}

/// Weights are non-negative and bounded.
pub open spec fn weights_wf(ws: Seq<i64>) -> bool {
    forall|k: int| 0 <= k < ws.len() ==> 0 <= #[trigger] ws[k] <= WEIGHT_MAX
}

/// A check order only names existing columns.
pub open spec fn order_wf(ord: Seq<usize>, ncols: int) -> bool {
    forall|k: int| 0 <= k < ord.len() ==> (#[trigger] ord[k]) < ncols
}

/// One column's contribution is non-negative and bounded.
pub proof fn lemma_cell_term_bounds(a: Value, b: Value, t: ColumnType, w: int)
    requires
        bounded_cell(a),
        bounded_cell(b),
        t matches ColumnType::Numeric { mean, sd } ==> 0 <= sd <= 2 * NUM_ABS_MAX,
        0 <= w <= WEIGHT_MAX,
    ensures
        0 <= cell_term(a, b, t, w) <= CELL_TERM_MAX,
{
    match (a, b) {
        (Value::Number(x), Value::Number(y)) => {
            let sd = t->Numeric_sd;
            let diff: int = if x >= y {
                x - y
            } else {
                y - x
            };
            if sd > 0 {
                assert(0 <= diff <= 2 * NUM_ABS_MAX);
                lemma_dtz_le_abs(diff * SCALE, sd as int);
                let d1 = dtz(diff * SCALE, sd as int);
                assert(0 <= d1 <= 200_000_000_000_000);
                assert(0 <= d1 * w <= 800_000_000_000_000_000_000_000_000_000_000)
                    by (nonlinear_arith)
                    requires
                        0 <= d1 <= 200_000_000_000_000,
                        0 <= w <= 4_000_000_000_000_000_000,
                ;
                lemma_dtz_bound(d1 * w, SCALE as int, CELL_TERM_MAX as int);
            }
        },
        _ => {},
    }
}

/// Fill a vector with the identity column order, the default check order.
fn iota(n: usize) -> (v: Vec<usize>)
    ensures
        v@.len() == n,
        forall|i: int| 0 <= i < n ==> #[trigger] v@[i] == i,
{
    let mut v: Vec<usize> = Vec::new();
    let mut i: usize = 0;
    while i < n
        invariant
            0 <= i <= n,
            v@.len() == i,
            forall|k: int| 0 <= k < i ==> #[trigger] v@[k] == k,
        decreases n - i,
    {
        v.push(i);
        i = i + 1;
    }
    v
}

/// The weighted distance between records `a` and `b`, walking the first
/// `max_check` columns of `order` (all columns in natural order when
/// absent) and returning as soon as the accumulated distance exceeds
/// `max`; a number/category pair, or numbers in a column not declared
/// numeric, is a `TypeMismatch`.
#[verifier::loop_isolation(false)]
#[verifier::rlimit(60)]
pub fn record_dist(
    a: &Vec<Value>,
    b: &Vec<Value>,
    types: &Vec<ColumnType>,
    weights: &Vec<i64>,
    max: Option<u128>,
    order: Option<&Vec<usize>>,
    max_check: Option<usize>,
) -> (r: Result<u128, Error>)
    requires
        a@.len() == types@.len(),
        b@.len() == types@.len(),
        weights@.len() == types@.len(),
        types@.len() <= COLS_MAX,
        types_wf(types@),
        weights_wf(weights@),
        bounded_row(a@),
        bounded_row(b@),
        order matches Some(o) ==> order_wf(o@, types@.len() as int) && o@.len() <= COLS_MAX,
        max_check matches Some(m) ==> m <= (match order {
            Some(o) => o@.len(),
            None => types@.len(),
        }),
    ensures
        ({
            let eord = match order {
                Some(o) => o@,
                None => Seq::new(types@.len(), |i: int| i as usize),
            };
            let limit = match max_check {
                Some(m) => m as int,
                None => eord.len() as int,
            };
            let thr = match max {
                Some(m) => Some(m as int),
                None => None,
            };
            match r {
                Ok(d) => dist_spec(a@, b@, types@, weights@, eord, limit, thr) == Ok::<int, int>(
                    d as int,
                ),
                Err(e) => e matches Error::TypeMismatch { col } && dist_spec(
                    a@,
                    b@,
                    types@,
                    weights@,
                    eord,
                    limit,
                    thr,
                ) == Err::<int, int>(col as int),
            }
        }),
{
    let ncols = types.len();
    let natural: Vec<usize> = match order {
        Some(_) => Vec::new(),
        None => iota(ncols),
    };
    let ord: &Vec<usize> = match order {
        Some(o) => o,
        None => &natural,
    };
    let ghost eord = match order {
        Some(o) => o@,
        None => Seq::new(types@.len(), |i: int| i as usize),
    };
    proof {
        assert(ord@ =~= eord);
    }
    let limit: usize = match max_check {
        Some(m) => m,
        None => ord.len(),
    };
    let ghost thr = match max {
        Some(m) => Some(m as int),
        None => None,
    };
    let mut dist: u128 = 0;
    let mut i: usize = 0;
    while i < limit
        invariant
            0 <= i <= limit,
            limit <= eord.len(),
            ord@ == eord,
            0 <= dist <= (i as int) * CELL_TERM_MAX,
            dist_spec(a@, b@, types@, weights@, eord, limit as int, thr) == dist_from(
                a@,
                b@,
                types@,
                weights@,
                eord,
                limit as int,
                thr,
                i as int,
                dist as int,
            ),
        decreases limit - i,
    {
        let c = ord[i];
        proof {
            assert(eord[i as int] == c);
            assert(c < ncols);
            assert(bounded_cell(a@[c as int]));
            assert(bounded_cell(b@[c as int]));
            lemma_cell_term_bounds(
                a@[c as int],
                b@[c as int],
                types@[c as int],
                weights@[c as int] as int,
            );
        }
        let w: i64 = weights[c];
        let step: u128 = match (&a[c], &b[c]) {
            (Value::Number(x), Value::Number(y)) => {
                match types[c] {
                    ColumnType::Numeric { mean: _, sd } => {
                        if sd == 0 {
                            0
                        } else {
                            let diff: i64 = if *x >= *y {
                                *x - *y
                            } else {
                                *y - *x
                            };
                            let d1 = div_tz((diff as i128) * (SCALE as i128), sd as i128);
                            proof {
                                lemma_dtz_le_abs((diff as int) * (SCALE as int), sd as int);
                                assert(0 <= (d1 as int) * (w as int)
                                    <= 800_000_000_000_000_000_000_000_000_000_000)
                                    by (nonlinear_arith)
                                    requires
                                        0 <= d1 <= 200_000_000_000_000,
                                        0 <= w <= 4_000_000_000_000_000_000,
                                ;
                            }
                            let c2 = div_tz(d1 * (w as i128), SCALE as i128);
                            proof {
                                lemma_dtz_bound(
                                    (d1 as int) * (w as int),
                                    SCALE as int,
                                    CELL_TERM_MAX as int,
                                );
                            }
                            c2 as u128
                        }
                    },
                    ColumnType::Categorical { .. } => {
                        return Err(Error::TypeMismatch { col: c });
                    },
                }
            },
            (Value::Category(cx), Value::Category(cy)) => {
                if cx.eq(cy) {
                    0
                } else {
                    w as u128
                }
            },
            (Value::Missing, _) => 0,
            (_, Value::Missing) => 0,
            (Value::Number(_), Value::Category(_)) => {
                return Err(Error::TypeMismatch { col: c });
            },
            (Value::Category(_), Value::Number(_)) => {
                return Err(Error::TypeMismatch { col: c });
            },
        };
        proof {
            assert(step == cell_term(a@[c as int], b@[c as int], types@[c as int], w as int));
        }
        dist = dist + step;
        let exceeded: bool = match max {
            Some(m) => dist > m,
            None => false,
        };
        if exceeded {
            return Ok(dist);
        }
        i = i + 1;
    }
    Ok(dist)
}

} // verus!
