//! The KNN predictor: scan the population, keep the K nearest records
//! under the weighted distance — pruning each candidate against the worst
//! of the K best so far — and predict the mean of their targets.
use vstd::prelude::*;

use crate::arith::{div_tz, dtz, lemma_dtz_le_abs, COLS_MAX, NUM_ABS_MAX, ROWS_MAX};
use crate::assoc::num_val;
use crate::column::{bounded_table, rect, types_wf, ColumnType};
use crate::dist::{bounded_row, dist_spec, order_wf, record_dist, weights_wf};
use crate::errors::Error;
use crate::topk::{topk_insert, TopK};
use crate::value::Value;

verus! {

/// The selector state after scanning the first `i` population records, or
/// the first mismatched column met.
pub open spec fn scan(
    q: Seq<Value>,
    pop: Seq<Vec<Value>>,
    ts: Seq<ColumnType>,
    ws: Seq<i64>,
    ord: Seq<usize>,
    limit: int,
    k: int,
    i: int,
) -> Result<Seq<(usize, u128)>, int>
    decreases i,
{
    if i <= 0 {
        Ok(Seq::empty())
    } else {
        match scan(q, pop, ts, ws, ord, limit, k, i - 1) {
            Err(c) => Err(c),
            Ok(st) => {
                let thr = if st.len() < k {
                    None
                } else {
                    Some(st.last().1 as int)
                };
                match dist_spec(q, pop[i - 1]@, ts, ws, ord, limit, thr) {
                    Err(c) => Err(c),
                    Ok(d) => Ok(topk_insert(st, k, (i - 1) as usize, d as u128)),
                }
            },
        }
    }
}

/// Every selected record's target holds a number.
pub open spec fn sel_ok(st: Seq<(usize, u128)>, tg: Seq<Value>) -> bool {
    forall|j: int| 0 <= j < st.len() ==> tg[(#[trigger] st[j]).0 as int] is Number
}

/// The sum of the selected records' target values.
pub open spec fn sel_sum(st: Seq<(usize, u128)>, tg: Seq<Value>) -> int
    decreases st.len(),
{
    if st.len() == 0 {
        0
    } else {
        sel_sum(st.drop_last(), tg) + num_val(tg[st.last().0 as int])
    }
}

/// What the predictor returns: the targets of the K nearest records
/// averaged over the configured K, or the error the scan met.
pub open spec fn knn_spec(
    q: Seq<Value>,
    pop: Seq<Vec<Value>>,
    tg: Seq<Value>,
    ts: Seq<ColumnType>,
    ws: Seq<i64>,
    ord: Seq<usize>,
    limit: int,
    k: int,
) -> Result<int, Error> {
    match scan(q, pop, ts, ws, ord, limit, k, pop.len() as int) {
        Err(c) => Err(Error::TypeMismatch { col: c as usize }),
        Ok(st) => if !sel_ok(st, tg) {
            Err(Error::NonNumericTarget)
        } else {
            Ok(dtz(sel_sum(st, tg), k))
        },
    }
}

/// Everything an insertion keeps was already held or is the new
/// candidate.
pub proof fn lemma_topk_insert_elems(s: Seq<(usize, u128)>, k: int, item: usize, d: u128)
    requires
        k >= 0,
    ensures
        forall|j: int|
            0 <= j < topk_insert(s, k, item, d).len() ==> (#[trigger] topk_insert(
                s,
                k,
                item,
                d,
            )[j]) == (item, d) || s.contains(topk_insert(s, k, item, d)[j]),
{
    crate::topk::lemma_ins_pos_props(s, d);
    let pos = crate::topk::ins_pos(s, d);
    let t = s.insert(pos, (item, d));
    s.insert_ensures(pos, (item, d));
    assert forall|j: int|
        0 <= j < topk_insert(s, k, item, d).len() implies (#[trigger] topk_insert(
        s,
        k,
        item,
        d,
    )[j]) == (item, d) || s.contains(topk_insert(s, k, item, d)[j]) by {
        if t.len() > k {
            assert(topk_insert(s, k, item, d) == t.take(k));
        }
        assert(topk_insert(s, k, item, d)[j] == t[j]);
        if j < pos {
            assert(t[j] == s[j]);
        } else if j > pos {
            assert(t =~= s.subrange(0, pos).push((item, d)) + s.subrange(pos, s.len() as int));
            assert(t[j] == s.subrange(pos, s.len() as int)[j - pos - 1]);
            assert(t[j] == s[j - 1]);
        }
    }
}

/// Once the scan has met a mismatched column, it stays failed.
pub proof fn lemma_scan_err(
    q: Seq<Value>,
    pop: Seq<Vec<Value>>,
    ts: Seq<ColumnType>,
    ws: Seq<i64>,
    ord: Seq<usize>,
    limit: int,
    k: int,
    i: int,
    n: int,
    c: int,
)
    requires
        0 <= i <= n,
        scan(q, pop, ts, ws, ord, limit, k, i) == Err::<Seq<(usize, u128)>, int>(c),
    ensures
        scan(q, pop, ts, ws, ord, limit, k, n) == Err::<Seq<(usize, u128)>, int>(c),
    decreases n - i,
{
    if i < n {
        lemma_scan_err(q, pop, ts, ws, ord, limit, k, i + 1, n, c);
    }
}

/// Predict the target of record `a` from its `n` nearest population
/// records: each candidate's distance is pruned against the worst of the
/// K best so far, and the selected targets are averaged over `n`.
#[verifier::loop_isolation(false)]
#[verifier::rlimit(60)]
pub fn knn(
    a: &Vec<Value>,
    pop: &Vec<Vec<Value>>,
    targets: &Vec<Value>,
    types: &Vec<ColumnType>,
    weights: &Vec<i64>,
    order: Option<&Vec<usize>>,
    n: usize,
    max_check: Option<usize>,
) -> (r: Result<i64, Error>)
    requires
        pop@.len() <= ROWS_MAX,
        rect(pop@, types@.len() as int),
        bounded_table(pop@),
        a@.len() == types@.len(),
        weights@.len() == types@.len(),
        types@.len() <= COLS_MAX,
        types_wf(types@),
        weights_wf(weights@),
        bounded_row(a@),
        targets@.len() == pop@.len(),
        bounded_row(targets@),
        1 <= n <= ROWS_MAX,
        order matches Some(o) ==> order_wf(o@, types@.len() as int) && o@.len() <= COLS_MAX,
        max_check matches Some(m) ==> m <= (match order {
            Some(o) => o@.len(),
            None => types@.len(),
        }),
    ensures
        ({
            let eord = match order {
                Some(o) => o@,
                None => Seq::new(types@.len(), |i: int| i as usize),
            };
            let limit = match max_check {
                Some(m) => m as int,
                None => eord.len() as int,
            };
            match r {
                Ok(p) => knn_spec(a@, pop@, targets@, types@, weights@, eord, limit, n as int)
                    == Ok::<int, Error>(p as int),
                Err(e) => knn_spec(a@, pop@, targets@, types@, weights@, eord, limit, n as int)
                    == Err::<int, Error>(e),
            }
        }),
{
    let ghost eord = match order {
        Some(o) => o@,
        None => Seq::new(types@.len(), |i: int| i as usize),
    };
    let ghost limit: int = match max_check {
        Some(m) => m as int,
        None => eord.len() as int,
    };
    let mut prio = TopK::new(n);
    let mut i: usize = 0;
    while i < pop.len()
        invariant
            0 <= i <= pop@.len(),
            prio.wf(),
            prio.cap() == n,
            scan(a@, pop@, types@, weights@, eord, limit, n as int, i as int)
                == Ok::<Seq<(usize, u128)>, int>(prio@),
            forall|j: int| 0 <= j < prio@.len() ==> (#[trigger] prio@[j]).0 < i,
        decreases pop@.len() - i,
    {
        let thr = prio.worst();
        proof {
            assert(bounded_row(pop@[i as int]@)) by {
                assert(forall|j: int|
                    0 <= j < pop@[i as int]@.len() ==> crate::column::bounded_cell(
                        #[trigger] pop@[i as int]@[j],
                    ));
            }
        }
        let d = match record_dist(a, &pop[i], types, weights, thr, order, max_check) {
            Ok(d) => d,
            Err(e) => {
                proof {
                    let ghost c = e->TypeMismatch_col;
                    lemma_scan_err(
                        a@,
                        pop@,
                        types@,
                        weights@,
                        eord,
                        limit,
                        n as int,
                        i + 1,
                        pop@.len() as int,
                        c as int,
                    );
                }
                return Err(e);
            },
        };
        let ghost st0 = prio@;
        proof {
            lemma_topk_insert_elems(st0, n as int, i, d);
        }
        prio.insert(d, i);
        i = i + 1;
    }
    let ghost st = prio@;
    let entries = prio.entries();
    let m = entries.len();
    let mut sum: i64 = 0;
    let mut idx: usize = 0;
    while idx < m
        invariant
            0 <= idx <= m,
            m == st.len(),
            entries@ == st,
            st.len() <= n,
            forall|j: int| 0 <= j < st.len() ==> (#[trigger] st[j]).0 < targets@.len(),
            forall|j: int| 0 <= j < idx ==> targets@[(#[trigger] st[j]).0 as int] is Number,
            sum == sel_sum(st.take(idx as int), targets@),
            -((idx as int) * NUM_ABS_MAX) <= sum <= (idx as int) * NUM_ABS_MAX,
        decreases m - idx,
    {
        proof {
            assert(st.take(idx + 1) =~= st.take(idx as int).push(st[idx as int]));
            assert(st.take(idx + 1).drop_last() =~= st.take(idx as int));
            assert(st.take(idx + 1).last() == st[idx as int]);
            assert(crate::column::bounded_cell(targets@[st[idx as int].0 as int]));
        }
        let e0 = entries[idx].0;
        match &targets[e0] {
            Value::Number(t) => {
                sum = sum + *t;
            },
            _ => {
                return Err(Error::NonNumericTarget);
            },
        }
        idx = idx + 1;
    }
    proof {
        assert(st.take(m as int) =~= st);
    }
    let pred = div_tz(sum as i128, n as i128);
    proof {
        lemma_dtz_le_abs(sum as int, n as int);
    }
    Ok(pred as i64)
}


/// Build the check order: a permutation of the column indices sorted by
/// descending weight, ties broken by ascending column index, so that the
/// metric inspects the most informative columns first.
#[verifier::loop_isolation(false)]
pub fn check_order(weights: &Vec<i64>) -> (ord: Vec<usize>)
    ensures
        ord@.len() == weights@.len(),
        forall|k: int| 0 <= k < ord@.len() ==> (#[trigger] ord@[k]) < weights@.len(),
        ord@.no_duplicates(),
        forall|i: int, j: int|
            0 <= i < j < ord@.len() ==> weights@[(#[trigger] ord@[i]) as int] >= weights@[(
            #[trigger] ord@[j]) as int],
        forall|i: int, j: int|
            0 <= i < j < ord@.len() && weights@[(#[trigger] ord@[i]) as int] == weights@[(
            #[trigger] ord@[j]) as int] ==> ord@[i] < ord@[j],
{
    let n = weights.len();
    let mut ord: Vec<usize> = Vec::new();
    let mut idx: usize = 0;
    while idx < n
        invariant
            0 <= idx <= n,
            ord@.len() == idx,
            forall|k: int| 0 <= k < ord@.len() ==> (#[trigger] ord@[k]) < idx,
            ord@.no_duplicates(),
            forall|i: int, j: int|
                0 <= i < j < ord@.len() ==> weights@[(#[trigger] ord@[i]) as int] >= weights@[(
                #[trigger] ord@[j]) as int],
            forall|i: int, j: int|
                0 <= i < j < ord@.len() && weights@[(#[trigger] ord@[i]) as int] == weights@[(
                #[trigger] ord@[j]) as int] ==> ord@[i] < ord@[j],
        decreases n - idx,
    {
        let w = weights[idx];
        let m = ord.len();
        let mut p: usize = 0;
        #[verifier::loop_isolation(true)]
        while p < m
            invariant
                0 <= p <= m,
                m == ord@.len(),
                forall|k: int| 0 <= k < ord@.len() ==> (#[trigger] ord@[k]) < weights@.len(),
                forall|i: int| 0 <= i < p ==> weights@[(#[trigger] ord@[i]) as int] >= w,
            ensures
                0 <= p <= m,
                m == ord@.len(),
                forall|i: int| 0 <= i < p ==> weights@[(#[trigger] ord@[i]) as int] >= w,
                p < m ==> weights@[ord@[p as int] as int] < w,
            decreases m - p,
        {
            if weights[ord[p]] < w {
                break;
            }
            p = p + 1;
        }
        let ghost o0 = ord@;
        proof {
            o0.insert_ensures(p as int, idx);
        }
        ord.insert(p, idx);
        proof {
            let o1 = ord@;
            assert forall|i: int, j: int| 0 <= i < j < o1.len() implies weights@[(
            #[trigger] o1[i]) as int] >= weights@[(#[trigger] o1[j]) as int] by {
                if i < p && j == p {
                    assert(o1[i] == o0[i]);
                } else if i == p && j > p {
                    assert(o1[j] == o0[j - 1]);
                } else if i < p && j > p {
                    assert(o1[i] == o0[i] && o1[j] == o0[j - 1]);
                    if (p as int) < o0.len() {
                        assert(weights@[o0[i] as int] >= w);
                    }
                } else if i != p && j != p {
                    if i > p {
                        assert(o1[i] == o0[i - 1] && o1[j] == o0[j - 1]);
                    } else {
                        assert(o1[i] == o0[i] && o1[j] == o0[j]);
                    }
                }
            }
            assert forall|i: int, j: int|
                0 <= i < j < o1.len() && weights@[(#[trigger] o1[i]) as int] == weights@[(
                #[trigger] o1[j]) as int] implies o1[i] < o1[j] by {
                if i < p && j == p {
                    assert(o1[i] == o0[i] && o1[i] < idx);
                } else if i == p && j > p {
                    assert(o1[j] == o0[j - 1]);
                    assert(weights@[o0[j - 1] as int] < w);
                } else if i < p && j > p {
                    assert(o1[i] == o0[i] && o1[j] == o0[j - 1]);
                } else if i != p && j != p {
                    if i > p {
                        assert(o1[i] == o0[i - 1] && o1[j] == o0[j - 1]);
                    } else {
                        assert(o1[i] == o0[i] && o1[j] == o0[j]);
                    }
                }
            }
            assert forall|i: int, j: int| 0 <= i < j < o1.len() implies o1[i] != o1[j] by {
                if i == p {
                    assert(o1[j] == o0[j - 1] && o0[j - 1] < idx);
                } else if j == p {
                    assert(o1[i] == o0[i] && o0[i] < idx);
                } else {
                    if i > p {
                        assert(o1[i] == o0[i - 1] && o1[j] == o0[j - 1]);
                    } else if j > p {
                        assert(o1[i] == o0[i] && o1[j] == o0[j - 1]);
                    } else {
                        assert(o1[i] == o0[i] && o1[j] == o0[j]);
                    }
                }
            }
        }
        idx = idx + 1;
    }
    ord
}

} // verus!
