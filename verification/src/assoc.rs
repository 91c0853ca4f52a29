//! The association engine: one non-negative weight per predictor column
//! measuring how strongly the column moves with the binary target.
//!
//! A numeric column gets the magnitude of its fixed-point Pearson
//! correlation with the target (the squared coefficient followed by a
//! square root); a categorical column gets the fourth root of its
//! normalized chi-square statistic, so both land on the same scale.
use vstd::prelude::*;

use crate::arith::{div_tz, dtz, isqrt, lemma_dtz_bound, lemma_dtz_le_abs, sqrt_floor, COLS_MAX,
    NUM_ABS_MAX, ROWS_MAX, SCALE};
use crate::column::{bounded_table, col_seq, col_type_spec, has_cat, has_num, mixed, rect, sum_by,
    types_wf, ColumnType};
use crate::errors::Error;
use crate::value::Value;

verus! {

/// The number held by a numeric cell, zero otherwise.
pub open spec fn num_val(v: Value) -> int {
    match v {
        Value::Number(n) => n as int,
        _ => 0int,
    }
}

/// The deviation of a numeric cell from `m`; a missing cell is imputed to
/// the mean and so deviates by zero.
pub open spec fn xdev(v: Value, m: int) -> int {
    match v {
        Value::Number(n) => n - m,
        _ => 0int,
    }
}

/// Whether a target cell counts as class one.
pub open spec fn tbit(v: Value) -> int {
    if num_val(v) == SCALE {
        1int
    } else {
        0int
    }
}

/// Targets are numbers, each either zero or one in fixed point.
pub open spec fn tgt_wf(tg: Seq<Value>) -> bool {
    forall|i: int|
        0 <= i < tg.len() ==> ((#[trigger] tg[i]) matches Value::Number(x) && (x == 0 || x
            == SCALE))
}

/// How many targets are of class one.
pub open spec fn yes_count(tg: Seq<Value>) -> int {
    sum_by(tg, |v: Value| tbit(v))
}

/// The fixed-point mean of the targets.
pub open spec fn tmean_spec(tg: Seq<Value>) -> int
    recommends
        tg.len() > 0,
{
    dtz(sum_by(tg, |v: Value| num_val(v)), tg.len() as int)
}

/// The sum of products of target deviation and predictor deviation.
pub open spec fn xy_sum(col: Seq<Value>, tg: Seq<Value>, m: int, tm: int) -> int
    recommends
        col.len() == tg.len(),
    decreases col.len(),
{
    if col.len() == 0 {
        0
    } else {
        xy_sum(col.drop_last(), tg.drop_last(), m, tm) + (num_val(tg.last()) - tm) * xdev(
            col.last(),
            m,
        )
    }
}

/// The weight of a numeric column: the magnitude of the fixed-point
/// Pearson correlation of column and target, computed as the squared
/// coefficient followed by one square root.  The target's deviation uses
/// the Bernoulli formula; a zero denominator yields weight zero.  The
/// coefficient itself cannot exceed one, so its fixed-point rendering is
/// capped at one before squaring: truncated deviations in the denominator
/// could otherwise overshoot it.
pub open spec fn num_weight(col: Seq<Value>, tg: Seq<Value>, mean: int, sd: int) -> int
    recommends
        col.len() == tg.len(),
        col.len() > 0,
{
    let tm = tmean_spec(tg);
    let tsd = sqrt_floor(tm * (SCALE - tm));
    let xy = dtz(xy_sum(col, tg, mean, tm), col.len() as int);
    let sp = sd * tsd;
    let corr = if sp == 0 {
        0int
    } else {
        dtz(xy * SCALE, sp)
    };
    let capped = if corr > SCALE {
        SCALE as int
    } else if corr < -SCALE {
        -(SCALE as int)
    } else {
        corr
    };
    let r2 = dtz(capped * capped, SCALE as int);
    sqrt_floor(r2 * SCALE)
}

/// The contingency key of a predictor cell: its label, or the missing
/// bucket.
pub open spec fn okey(v: Value) -> Option<Seq<char>> {
    match v {
        Value::Category(c) => Some(c@),
        _ => None,
    }
}

/// How many cells of the column fall under key `l`.
pub open spec fn cat_count(col: Seq<Value>, l: Option<Seq<char>>) -> int
    decreases col.len(),
{
    if col.len() == 0 {
        0
    } else {
        cat_count(col.drop_last(), l) + if okey(col.last()) == l {
            1int
        } else {
            0int
        }
    }
}

/// How many rows fall under key `l` with target class `t`.
pub open spec fn pair_count(col: Seq<Value>, tg: Seq<Value>, l: Option<Seq<char>>, t: int) -> int
    recommends
        col.len() == tg.len(),
    decreases col.len(),
{
    if col.len() == 0 {
        0
    } else {
        pair_count(col.drop_last(), tg.drop_last(), l, t) + if okey(col.last()) == l && tbit(
            tg.last(),
        ) == t {
            1int
        } else {
            0int
        }
    }
}

/// The distinct contingency keys of the column, in order of first
/// occurrence.
pub open spec fn keys_list(col: Seq<Value>) -> Seq<Option<Seq<char>>>
    decreases col.len(),
{
    if col.len() == 0 {
        Seq::empty()
    } else {
        let rest = keys_list(col.drop_last());
        if rest.contains(okey(col.last())) {
            rest
        } else {
            rest.push(okey(col.last()))
        }
    }
}

/// How many of the column's contingency keys are labels rather than the
/// missing bucket.
pub open spec fn some_key_count(col: Seq<Value>) -> int {
    keys_list(col).filter(|l: Option<Seq<char>>| l is Some).len() as int
}

/// The expected fixed-point frequency of key `l` and class `t` under
/// independence.
pub open spec fn expected_spec(col: Seq<Value>, tg: Seq<Value>, l: Option<Seq<char>>, t: int)
    -> int
    recommends
        col.len() == tg.len(),
        col.len() > 0,
{
    let cls = if t == 1 {
        yes_count(tg)
    } else {
        col.len() - yes_count(tg)
    };
    dtz(cat_count(col, l) * cls * SCALE, col.len() as int)
}

/// One cell's chi-square contribution; an expected frequency of zero
/// contributes nothing.
pub open spec fn term_spec(col: Seq<Value>, tg: Seq<Value>, l: Option<Seq<char>>, t: int) -> int
    recommends
        col.len() == tg.len(),
        col.len() > 0,
{
    let e = expected_spec(col, tg, l, t);
    if e <= 0 {
        0int
    } else {
        let d = pair_count(col, tg, l, t) * SCALE - e;
        dtz(d * d, e)
    }
}

/// The chi-square statistic summed over the listed keys, both target
/// classes each.
pub open spec fn chisq_of(keys: Seq<Option<Seq<char>>>, col: Seq<Value>, tg: Seq<Value>) -> int
    decreases keys.len(),
{
    if keys.len() == 0 {
        0
    } else {
        chisq_of(keys.drop_last(), col, tg) + term_spec(col, tg, keys.last(), 0) + term_spec(
            col,
            tg,
            keys.last(),
            1,
        )
    }
}

/// The weight of a categorical column: the square root of the chi-square
/// statistic normalized by the row count and the key count less one, then
/// one more square root.  A column with a single key is uninformative and
/// weighs zero.  The normalized statistic cannot exceed one for a
/// two-class target, so its fixed-point rendering is capped at one before
/// the roots: truncated expected frequencies could otherwise overshoot
/// it.
pub open spec fn cat_weight(col: Seq<Value>, tg: Seq<Value>) -> int
    recommends
        col.len() == tg.len(),
        col.len() > 0,
{
    let keys = keys_list(col);
    if keys.len() <= 1 {
        0int
    } else {
        let c = chisq_of(keys, col, tg);
        let norm = dtz(dtz(c, col.len() as int), keys.len() - 1);
        let capped = if norm > SCALE {
            SCALE as int
        } else {
            norm
        };
        sqrt_floor(sqrt_floor(capped * SCALE) * SCALE)
    }
}

/// The weight of a column under its declared type.
pub open spec fn weight_spec(col: Seq<Value>, tg: Seq<Value>, t: ColumnType) -> int {
    match t {
        ColumnType::Numeric { mean, sd } => num_weight(col, tg, mean as int, sd as int),
        ColumnType::Categorical { .. } => cat_weight(col, tg),
    }
}

/// The declared types agree with the table on which columns hold numbers
/// and which hold labels.
pub open spec fn types_consistent(rows: Seq<Vec<Value>>, ts: Seq<ColumnType>) -> bool {
    forall|j: int|
        0 <= j < ts.len() ==> (match #[trigger] ts[j] {
            ColumnType::Numeric { .. } => !has_cat(col_seq(rows, j)),
            ColumnType::Categorical { .. } => !has_num(col_seq(rows, j)),
        })
}

/// A categorical column whose declared distinct-label count disagrees with
/// the labels the contingency table sees.
pub open spec fn count_mismatch(col: Seq<Value>, t: ColumnType) -> bool {
    t matches ColumnType::Categorical { distinct } && distinct != some_key_count(col)
}


/// The types that inference assigns to an unmixed table are consistent
/// with it: a column typed numeric holds no labels, one typed categorical
/// holds no numbers.  This lets the weights be computed directly from
/// inference's output.
pub proof fn lemma_inferred_types_consistent(rows: Seq<Vec<Value>>, ts: Seq<ColumnType>)
    requires
        forall|j: int| 0 <= j < ts.len() ==> !mixed(#[trigger] col_seq(rows, j)),
        forall|j: int|
            0 <= j < ts.len() ==> #[trigger] ts[j] == col_type_spec(col_seq(rows, j)),
    ensures
        types_consistent(rows, ts),
{
    assert forall|j: int| 0 <= j < ts.len() implies (match #[trigger] ts[j] {
        ColumnType::Numeric { .. } => !has_cat(col_seq(rows, j)),
        ColumnType::Categorical { .. } => !has_num(col_seq(rows, j)),
    }) by {
        assert(ts[j] == col_type_spec(col_seq(rows, j)));
    }
}

/// A numeric cell somewhere in the column shows the column has numbers.
pub proof fn lemma_has_num_at(s: Seq<Value>, i: int)
    requires
        0 <= i < s.len(),
        s[i] is Number,
    ensures
        has_num(s),
    decreases s.len(),
{
    if i < s.len() - 1 {
        lemma_has_num_at(s.drop_last(), i);
    }
}

/// A categorical cell somewhere in the column shows the column has labels.
pub proof fn lemma_has_cat_at(s: Seq<Value>, i: int)
    requires
        0 <= i < s.len(),
        s[i] is Category,
    ensures
        has_cat(s),
    decreases s.len(),
{
    if i < s.len() - 1 {
        lemma_has_cat_at(s.drop_last(), i);
    }
}


/// The Bernoulli product that feeds the target's standard deviation stays
/// within one fixed-point square.
proof fn lemma_tvar_range(tm: int)
    by (nonlinear_arith)
    requires
        0 <= tm <= SCALE,
    ensures
        0 <= tm * (SCALE - tm) <= 100_000_000,
{
}

/// Compute the weight of numeric column `j` of the population against the
/// targets, from the column's inferred mean and standard deviation.
#[verifier::loop_isolation(false)]
#[verifier::rlimit(40)]
fn weight_numeric(pop: &Vec<Vec<Value>>, targets: &Vec<Value>, j: usize, mean: i64, sd: i64) -> (w:
    i64)
    requires
        1 <= pop@.len() <= ROWS_MAX,
        rect(pop@, pop@[0]@.len() as int),
        bounded_table(pop@),
        (j as int) < pop@[0]@.len(),
        targets@.len() == pop@.len(),
        tgt_wf(targets@),
        -NUM_ABS_MAX <= mean <= NUM_ABS_MAX,
        0 <= sd <= 2 * NUM_ABS_MAX,
        !has_cat(col_seq(pop@, j as int)),
    ensures
        w == num_weight(col_seq(pop@, j as int), targets@, mean as int, sd as int),
        0 <= w <= SCALE,
{
    let ghost col = col_seq(pop@, j as int);
    let ghost tg = targets@;
    let n = pop.len();
    let mut tsum: i128 = 0;
    let mut i: usize = 0;
    while i < n
        invariant
            0 <= i <= n,
            tsum == sum_by(tg.take(i as int), |v: Value| num_val(v)),
            0 <= tsum <= (i as int) * (SCALE as int),
        decreases n - i,
    {
        proof {
            assert(tg.take(i + 1) =~= tg.take(i as int).push(tg[i as int]));
            assert(tg.take(i + 1).drop_last() =~= tg.take(i as int));
            assert(tg.take(i + 1).last() == tg[i as int]);
            assert(tg[i as int] matches Value::Number(x) && (x == 0 || x == SCALE));
        }
        match &targets[i] {
            Value::Number(x) => {
                tsum = tsum + (*x as i128);
            },
            _ => {
                proof {
                    assert(false);
                }
            },
        }
        i = i + 1;
    }
    proof {
        assert(tg.take(n as int) =~= tg);
    }
    let tmean128 = div_tz(tsum, n as i128);
    proof {
        lemma_dtz_bound(tsum as int, n as int, SCALE as int);
        crate::arith::lemma_dtz_le_abs(tsum as int, n as int);
    }
    let tmean: i64 = tmean128 as i64;
    proof {
        lemma_tvar_range(tmean as int);
    }
    let tvar: i64 = tmean * (SCALE - tmean);
    let tsd128 = isqrt(tvar as u128);
    proof {
        assert(tsd128 <= 10_000) by (nonlinear_arith)
            requires
                (tsd128 as int) * (tsd128 as int) <= 100_000_000,
                tsd128 >= 0,
        ;
    }
    let tsd: i64 = tsd128 as i64;
    let mut xys: i128 = 0;
    i = 0;
    while i < n
        invariant
            0 <= i <= n,
            xys == xy_sum(col.take(i as int), tg.take(i as int), mean as int, tmean as int),
            -((i as int) * 200_000_000_000_000) <= xys <= (i as int) * 200_000_000_000_000,
            0 <= tmean <= SCALE,
        decreases n - i,
    {
        proof {
            assert(col.take(i + 1) =~= col.take(i as int).push(col[i as int]));
            assert(col.take(i + 1).drop_last() =~= col.take(i as int));
            assert(col.take(i + 1).last() == col[i as int]);
            assert(tg.take(i + 1) =~= tg.take(i as int).push(tg[i as int]));
            assert(tg.take(i + 1).drop_last() =~= tg.take(i as int));
            assert(tg.take(i + 1).last() == tg[i as int]);
            assert(col[i as int] == pop@[i as int]@[j as int]);
            assert(tg[i as int] matches Value::Number(x) && (x == 0 || x == SCALE));
        }
        let row: &Vec<Value> = &pop[i];
        let xd: i64 = match &row[j] {
            Value::Number(x) => *x - mean,
            Value::Category(_) => {
                proof {
                    lemma_has_cat_at(col, i as int);
                    assert(false);
                }
                0
            },
            Value::Missing => 0,
        };
        let td: i64 = match &targets[i] {
            Value::Number(t) => *t - tmean,
            _ => {
                proof {
                    assert(false);
                }
                0
            },
        };
        proof {
            assert(-200_000_000_000_000 <= (td as int) * (xd as int) <= 200_000_000_000_000)
                by (nonlinear_arith)
                requires
                    -10_000 <= td <= 10_000,
                    -20_000_000_000 <= xd <= 20_000_000_000,
            ;
        }
        let prod: i128 = (td as i128) * (xd as i128);
        xys = xys + prod;
        i = i + 1;
    }
    proof {
        assert(col.take(n as int) =~= col);
        assert(tg.take(n as int) =~= tg);
    }
    let xy = div_tz(xys, n as i128);
    proof {
        lemma_dtz_bound(xys as int, n as int, 200_000_000_000_000);
    }
    proof {
        assert(0 <= (sd as int) * (tsd as int) <= 200_000_000_000_000) by (nonlinear_arith)
            requires
                0 <= sd <= 20_000_000_000,
                0 <= tsd <= 10_000,
        ;
    }
    let sp: i128 = (sd as i128) * (tsd as i128);
    let corr: i128 = if sp == 0 {
        0
    } else {
        let c = div_tz(xy * 10_000, sp);
        proof {
            lemma_dtz_le_abs(xy as int * 10_000, sp as int);
        }
        c
    };
    let capped: i128 = if corr > 10_000 {
        10_000
    } else if corr < -10_000 {
        -10_000
    } else {
        corr
    };
    proof {
        assert(0 <= (capped as int) * (capped as int) <= 100_000_000) by (nonlinear_arith)
            requires
                -10_000 <= capped <= 10_000,
        ;
    }
    let corr2: i128 = capped * capped;
    let r2 = div_tz(corr2, 10_000);
    proof {
        lemma_dtz_le_abs(corr2 as int, 10_000);
    }
    let w128 = isqrt((r2 as u128) * 10_000);
    proof {
        assert(w128 <= 10_000) by (nonlinear_arith)
            requires
                (w128 as int) * (w128 as int) <= 100_000_000,
                w128 >= 0,
        ;
        assert(SCALE as int == 10_000);
    }
    w128 as i64
}


/// The label view of a stored contingency key.
pub open spec fn olv(o: Option<String>) -> Option<Seq<char>> {
    match o {
        Some(s) => Some(s@),
        None => None,
    }
}

/// The views of a vector of stored contingency keys.
pub open spec fn kviews(ks: Seq<Option<String>>) -> Seq<Option<Seq<char>>> {
    ks.map_values(|o: Option<String>| olv(o))
}

/// A key that never occurs in the column counts no rows.
proof fn lemma_absent_key(col: Seq<Value>, tg: Seq<Value>, l: Option<Seq<char>>)
    requires
        col.len() == tg.len(),
        !keys_list(col).contains(l),
    ensures
        pair_count(col, tg, l, 0) == 0,
        pair_count(col, tg, l, 1) == 0,
    decreases col.len(),
{
    if col.len() > 0 {
        let rest = keys_list(col.drop_last());
        assert forall|x: Option<Seq<char>>| rest.contains(x) implies keys_list(col).contains(
            x,
        ) by {
            let w = choose|w: int| 0 <= w < rest.len() && rest[w] == x;
            if !rest.contains(okey(col.last())) {
                assert(rest.push(okey(col.last()))[w] == x);
            }
        }
        assert(keys_list(col).contains(okey(col.last()))) by {
            if rest.contains(okey(col.last())) {
            } else {
                let p = rest.push(okey(col.last()));
                assert(p[p.len() - 1] == okey(col.last()));
            }
        }
        lemma_absent_key(col.drop_last(), tg.drop_last(), l);
    }
}

/// The list of contingency keys never repeats a key.
proof fn lemma_keys_list_nodup(col: Seq<Value>)
    ensures
        keys_list(col).no_duplicates(),
    decreases col.len(),
{
    if col.len() > 0 {
        lemma_keys_list_nodup(col.drop_last());
        let rest = keys_list(col.drop_last());
        let x = okey(col.last());
        if !rest.contains(x) {
            let p = rest.push(x);
            assert forall|a: int, b: int|
                0 <= a < p.len() && 0 <= b < p.len() && a != b implies p[a] != p[b] by {
                if a < p.len() - 1 && b < p.len() - 1 {
                    assert(p[a] == rest[a] && p[b] == rest[b]);
                } else if a == p.len() - 1 {
                    assert(p[b] == rest[b] && !rest.contains(x));
                } else {
                    assert(p[a] == rest[a] && !rest.contains(x));
                }
            }
        }
    }
}

/// With binary targets, a key's row count splits into its two class
/// counts.
proof fn lemma_cat_split(col: Seq<Value>, tg: Seq<Value>, l: Option<Seq<char>>)
    requires
        col.len() == tg.len(),
        tgt_wf(tg),
    ensures
        cat_count(col, l) == pair_count(col, tg, l, 0) + pair_count(col, tg, l, 1),
    decreases col.len(),
{
    if col.len() > 0 {
        assert(tgt_wf(tg.drop_last()));
        lemma_cat_split(col.drop_last(), tg.drop_last(), l);
        assert(tbit(tg.last()) == 0 || tbit(tg.last()) == 1);
    }
}

/// Find the slot of the cell's contingency key among those seen so far.
fn find_key(keys: &Vec<Option<String>>, cell: &Value) -> (r: usize)
    ensures
        r <= keys@.len(),
        r < keys@.len() ==> kviews(keys@)[r as int] == okey(*cell),
        r == keys@.len() ==> !kviews(keys@).contains(okey(*cell)),
{
    let kl = keys.len();
    let mut k: usize = 0;
    while k < kl
        invariant
            0 <= k <= kl,
            kl == keys@.len(),
            forall|k2: int| 0 <= k2 < k ==> #[trigger] olv(keys@[k2]) != okey(*cell),
        decreases kl - k,
    {
        let hit: bool = match (&keys[k], cell) {
            (Some(s), Value::Category(c)) => s.eq(c),
            (None, Value::Category(_)) => false,
            (Some(_), Value::Missing) => false,
            (Some(_), Value::Number(_)) => false,
            (None, Value::Missing) => true,
            (None, Value::Number(_)) => true,
        };
        if hit {
            proof {
                assert(kviews(keys@)[k as int] == olv(keys@[k as int]));
            }
            return k;
        }
        k = k + 1;
    }
    proof {
        let mv = kviews(keys@);
        assert(forall|k2: int| 0 <= k2 < mv.len() ==> #[trigger] mv[k2] == olv(keys@[k2]));
        assert(!mv.contains(okey(*cell)));
    }
    kl
}


/// Compute the weight of categorical column `j` of the population against
/// the targets, first checking the declared distinct-label count against
/// the labels the contingency table sees.
#[verifier::loop_isolation(false)]
#[verifier::rlimit(100)]
fn weight_categorical(pop: &Vec<Vec<Value>>, targets: &Vec<Value>, j: usize, declared: usize) -> (r:
    Result<i64, Error>)
    requires
        1 <= pop@.len() <= ROWS_MAX,
        rect(pop@, pop@[0]@.len() as int),
        bounded_table(pop@),
        (j as int) < pop@[0]@.len(),
        targets@.len() == pop@.len(),
        tgt_wf(targets@),
        !has_num(col_seq(pop@, j as int)),
    ensures
        match r {
            Ok(w) => {
                &&& declared == some_key_count(col_seq(pop@, j as int))
                &&& w == cat_weight(col_seq(pop@, j as int), targets@)
                &&& 0 <= w <= SCALE
            },
            Err(e) => {
                &&& declared != some_key_count(col_seq(pop@, j as int))
                &&& e == (Error::CategoryCountMismatch { col: j })
            },
        },
{
    let ghost col = col_seq(pop@, j as int);
    let ghost tg = targets@;
    let n = pop.len();
    let mut keys: Vec<Option<String>> = Vec::new();
    let mut cnt0: Vec<u64> = Vec::new();
    let mut cnt1: Vec<u64> = Vec::new();
    let mut yes: u64 = 0;
    let mut i: usize = 0;
    while i < n
        invariant
            0 <= i <= n,
            keys@.len() == cnt0@.len() == cnt1@.len(),
            keys@.len() <= i,
            kviews(keys@) == keys_list(col.take(i as int)),
            forall|k: int|
                0 <= k < keys@.len() ==> #[trigger] cnt0@[k] == pair_count(
                    col.take(i as int),
                    tg.take(i as int),
                    kviews(keys@)[k],
                    0,
                ),
            forall|k: int|
                0 <= k < keys@.len() ==> #[trigger] cnt1@[k] == pair_count(
                    col.take(i as int),
                    tg.take(i as int),
                    kviews(keys@)[k],
                    1,
                ),
            forall|k: int| 0 <= k < keys@.len() ==> (#[trigger] cnt0@[k]) + cnt1@[k] <= i,
            yes == yes_count(tg.take(i as int)),
            yes <= i,
        decreases n - i,
    {
        proof {
            assert(col.take(i + 1) =~= col.take(i as int).push(col[i as int]));
            assert(col.take(i + 1).drop_last() =~= col.take(i as int));
            assert(col.take(i + 1).last() == col[i as int]);
            assert(tg.take(i + 1) =~= tg.take(i as int).push(tg[i as int]));
            assert(tg.take(i + 1).drop_last() =~= tg.take(i as int));
            assert(tg.take(i + 1).last() == tg[i as int]);
            assert(col[i as int] == pop@[i as int]@[j as int]);
            assert(tg[i as int] matches Value::Number(x) && (x == 0 || x == SCALE));
        }
        let row: &Vec<Value> = &pop[i];
        let cell: &Value = &row[j];
        proof {
            if cell is Number {
                lemma_has_num_at(col, i as int);
                assert(false);
            }
        }
        let one: bool = match &targets[i] {
            Value::Number(t) => *t == SCALE,
            _ => {
                proof {
                    assert(false);
                }
                false
            },
        };
        proof {
            assert(tbit(tg[i as int]) == if one {
                1int
            } else {
                0int
            });
        }
        if one {
            yes = yes + 1;
        }
        let idx = find_key(&keys, cell);
        let ghost old_keys = keys@;
        let ghost kl_old = keys_list(col.take(i as int));
        if idx < keys.len() {
            proof {
                assert(kl_old[idx as int] == okey(col[i as int]));
                assert(kl_old.contains(okey(col[i as int])));
                assert(keys_list(col.take(i + 1)) == kl_old);
                assert(cnt0@[idx as int] + cnt1@[idx as int] <= i);
            }
            if one {
                let c = cnt1[idx];
                cnt1.set(idx, c + 1);
            } else {
                let c = cnt0[idx];
                cnt0.set(idx, c + 1);
            }
            proof {
                assert(kviews(keys@) == kl_old);
                lemma_keys_list_nodup(col.take(i as int));
                assert forall|k: int| 0 <= k < keys@.len() && k != idx implies kviews(
                    keys@,
                )[k] != okey(col[i as int]) by {
                    assert(kl_old[k] != kl_old[idx as int]);
                }
            }
        } else {
            match cell {
                Value::Category(c) => {
                    keys.push(Some(c.clone()));
                },
                _ => {
                    keys.push(None);
                },
            }
            if one {
                cnt0.push(0);
                cnt1.push(1);
            } else {
                cnt0.push(1);
                cnt1.push(0);
            }
            proof {
                assert(kviews(keys@) =~= kviews(old_keys).push(okey(col[i as int])));
                assert(!kl_old.contains(okey(col[i as int])));
                assert(keys_list(col.take(i + 1)) == kl_old.push(okey(col[i as int])));
                lemma_absent_key(col.take(i as int), tg.take(i as int), okey(col[i as int]));
                assert forall|k: int| 0 <= k < old_keys.len() implies kviews(old_keys)[k] != okey(
                    col[i as int],
                ) by {
                    if kviews(old_keys)[k] == okey(col[i as int]) {
                        assert(kl_old.contains(okey(col[i as int])));
                    }
                }
            }
        }
        i = i + 1;
    }
    proof {
        assert(col.take(n as int) =~= col);
        assert(tg.take(n as int) =~= tg);
    }
    let nk = keys.len();
    // Hold the declared label count against the table's labels.
    let mut sc: usize = 0;
    let mut k: usize = 0;
    while k < nk
        invariant
            0 <= k <= nk,
            nk == keys@.len(),
            sc <= k,
            sc == kviews(keys@).take(k as int).filter(|l: Option<Seq<char>>| l is Some).len(),
        decreases nk - k,
    {
        proof {
            let kv = kviews(keys@);
            assert(kv.take(k + 1) =~= kv.take(k as int).push(kv[k as int]));
            assert(kv.take(k + 1).drop_last() =~= kv.take(k as int));
            assert(kv.take(k + 1).last() == kv[k as int]);
            assert(kv[k as int] == olv(keys@[k as int]));
            reveal(Seq::filter);
            kv.take(k as int).lemma_filter_len(|l: Option<Seq<char>>| l is Some);
            if kv[k as int] is Some {
                assert(kv.take(k + 1).filter(|l: Option<Seq<char>>| l is Some) =~= kv.take(
                    k as int,
                ).filter(|l: Option<Seq<char>>| l is Some).push(kv[k as int]));
            } else {
                assert(kv.take(k + 1).filter(|l: Option<Seq<char>>| l is Some) =~= kv.take(
                    k as int,
                ).filter(|l: Option<Seq<char>>| l is Some));
            }
        }
        match &keys[k] {
            Some(_) => {
                sc = sc + 1;
            },
            None => {},
        }
        k = k + 1;
    }
    proof {
        assert(kviews(keys@).take(nk as int) =~= kviews(keys@));
    }
    if sc != declared {
        return Err(Error::CategoryCountMismatch { col: j });
    }
    if nk <= 1 {
        return Ok(0);
    }
    // The chi-square statistic over the contingency table.
    let total: u64 = n as u64;
    let mut chisq: u128 = 0;
    k = 0;
    while k < nk
        invariant
            0 <= k <= nk,
            2 <= nk == keys@.len(),
            nk <= n,
            yes <= n,
            chisq == chisq_of(kviews(keys@).take(k as int), col, tg),
            0 <= chisq <= (k as int) * 8_000_000_000_000_000_000_000_000,
        decreases nk - k,
    {
        proof {
            let kv = kviews(keys@);
            assert(kv.take(k + 1) =~= kv.take(k as int).push(kv[k as int]));
            assert(kv.take(k + 1).drop_last() =~= kv.take(k as int));
            assert(kv.take(k + 1).last() == kv[k as int]);
            lemma_cat_split(col, tg, kv[k as int]);
        }
        let c0: u64 = cnt0[k];
        let c1: u64 = cnt1[k];
        let catk: u64 = c0 + c1;
        let mut tsum: u128 = 0;
        let mut t: usize = 0;
        while t < 2
            invariant
                0 <= t <= 2,
                0 <= k < nk,
                nk == keys@.len(),
                yes <= n,
                total == n as u64,
                catk == cat_count(col, kviews(keys@)[k as int]),
                c0 == pair_count(col, tg, kviews(keys@)[k as int], 0),
                c1 == pair_count(col, tg, kviews(keys@)[k as int], 1),
                c0 + c1 <= n,
                tsum == (if t >= 1 {
                    term_spec(col, tg, kviews(keys@)[k as int], 0)
                } else {
                    0int
                }) + (if t >= 2 {
                    term_spec(col, tg, kviews(keys@)[k as int], 1)
                } else {
                    0int
                }),
                tsum <= (t as int) * 4_000_000_000_000_000_000_000_000,
            decreases 2 - t,
        {
            let obs: u64 = if t == 0 {
                c0
            } else {
                c1
            };
            let cls: u64 = if t == 0 {
                total - yes
            } else {
                yes
            };
            let ghost l = kviews(keys@)[k as int];
            let ghost tt: int = if t == 0 {
                0int
            } else {
                1int
            };
            proof {
                assert((catk as int) * (cls as int) <= 10_000_000_000_000_000) by (nonlinear_arith)
                    requires
                        0 <= catk <= 100_000_000,
                        0 <= cls <= 100_000_000,
                ;
            }
            let num: u128 = (catk as u128) * (cls as u128) * 10_000u128;
            proof {
                assert((catk as int) * (cls as int) * 10_000 <= (n as int) * ((catk as int)
                    * 10_000)) by (nonlinear_arith)
                    requires
                        0 <= cls <= n,
                        0 <= catk,
                ;
                lemma_dtz_bound(num as int, n as int, (catk as int) * 10_000);
            }
            let e: u128 = num / (n as u128);
            proof {
                assert(e == expected_spec(col, tg, l, tt));
                assert(e <= (catk as int) * 10_000);
                assert(obs <= catk);
            }
            let term: u128 = if e == 0 {
                0
            } else {
                let d: i128 = (obs as i128) * 10_000 - (e as i128);
                proof {
                    assert(0 <= (d as int) * (d as int) <= 4_000_000_000_000_000_000_000_000)
                        by (nonlinear_arith)
                        requires
                            -2_000_000_000_000 <= d <= 2_000_000_000_000,
                    ;
                }
                let dd: i128 = d * d;
                let tv: u128 = (dd as u128) / e;
                proof {
                    lemma_dtz_le_abs(dd as int, e as int);
                    assert(tv == term_spec(col, tg, l, tt));
                }
                tv
            };
            proof {
                assert(term <= 4_000_000_000_000_000_000_000_000);
                if e == 0 {
                    assert(term == term_spec(col, tg, l, tt));
                }
            }
            tsum = tsum + term;
            t = t + 1;
        }
        chisq = chisq + tsum;
        k = k + 1;
    }
    proof {
        assert(kviews(keys@).take(nk as int) =~= kviews(keys@));
    }
    let norm: u128 = chisq / (n as u128) / ((nk - 1) as u128);
    proof {
        lemma_dtz_le_abs(chisq as int, n as int);
        lemma_dtz_le_abs(dtz(chisq as int, n as int), nk - 1 as int);
        assert(norm == dtz(dtz(chisq as int, n as int), nk - 1 as int));
    }
    let capped: u128 = if norm > 10_000 {
        10_000
    } else {
        norm
    };
    let w1 = isqrt(capped * 10_000);
    proof {
        assert(w1 <= 10_000) by (nonlinear_arith)
            requires
                (w1 as int) * (w1 as int) <= 100_000_000,
                w1 >= 0,
        ;
    }
    let w2 = isqrt(w1 * 10_000);
    proof {
        assert(w2 <= 10_000) by (nonlinear_arith)
            requires
                (w2 as int) * (w2 as int) <= 100_000_000,
                w2 >= 0,
        ;
        assert(SCALE as int == 10_000);
    }
    Ok(w2 as i64)
}


/// One association weight per predictor column, numeric columns by
/// correlation, categorical ones by chi-square, failing on the first
/// column whose declared distinct-label count disagrees with the
/// contingency table.
pub fn column_weights(targets: &Vec<Value>, pop: &Vec<Vec<Value>>, types: &Vec<ColumnType>) -> (r:
    Result<Vec<i64>, Error>)
    requires
        1 <= pop@.len() <= ROWS_MAX,
        pop@[0]@.len() == types@.len(),
        types@.len() <= COLS_MAX,
        rect(pop@, types@.len() as int),
        bounded_table(pop@),
        targets@.len() == pop@.len(),
        tgt_wf(targets@),
        types_wf(types@),
        types_consistent(pop@, types@),
    ensures
        match r {
            Ok(ws) => {
                &&& ws@.len() == types@.len()
                &&& forall|k: int| 0 <= k < ws@.len() ==> 0 <= #[trigger] ws@[k] <= SCALE
                &&& forall|k: int|
                    0 <= k < ws@.len() ==> #[trigger] ws@[k] == weight_spec(
                        col_seq(pop@, k),
                        targets@,
                        types@[k],
                    )
                &&& forall|k: int|
                    0 <= k < types@.len() ==> !count_mismatch(#[trigger] col_seq(pop@, k), types@[k])
            },
            Err(e) => {
                &&& e matches Error::CategoryCountMismatch { col }
                &&& (col as int) < types@.len()
                &&& count_mismatch(col_seq(pop@, col as int), types@[col as int])
                &&& forall|k: int|
                    0 <= k < col ==> !count_mismatch(#[trigger] col_seq(pop@, k), types@[k])
            },
        },
{
    let ncols = types.len();
    let mut out: Vec<i64> = Vec::new();
    let mut j: usize = 0;
    while j < ncols
        invariant
            0 <= j <= ncols,
            ncols == types@.len(),
            1 <= pop@.len() <= ROWS_MAX,
            pop@[0]@.len() == types@.len(),
            rect(pop@, types@.len() as int),
            bounded_table(pop@),
            targets@.len() == pop@.len(),
            tgt_wf(targets@),
            types_wf(types@),
            types_consistent(pop@, types@),
            out@.len() == j,
            forall|k: int| 0 <= k < j ==> 0 <= #[trigger] out@[k] <= SCALE,
            forall|k: int|
                0 <= k < j ==> #[trigger] out@[k] == weight_spec(
                    col_seq(pop@, k),
                    targets@,
                    types@[k],
                ),
            forall|k: int|
                0 <= k < j ==> !count_mismatch(#[trigger] col_seq(pop@, k), types@[k]),
        decreases ncols - j,
    {
        match types[j] {
            ColumnType::Numeric { mean, sd } => {
                let w = weight_numeric(pop, targets, j, mean, sd);
                out.push(w);
            },
            ColumnType::Categorical { distinct } => {
                match weight_categorical(pop, targets, j, distinct) {
                    Ok(w) => {
                        out.push(w);
                    },
                    Err(e) => {
                        return Err(e);
                    },
                }
            },
        }
        j = j + 1;
    }
    Ok(out)
}

} // verus!
