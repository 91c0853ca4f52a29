//! Laws of the estimator, stated and proved over the same spec functions
//! the executable contracts use.
use vstd::prelude::*;

use crate::assoc::{keys_list, some_key_count};
use crate::column::{col_seq, col_type_spec, distinct_count, has_cat, has_num, label_seq, rect, sum_by,
    types_wf, ColumnType};
use crate::dist::{bounded_row, cell_term, dist_from, dist_spec, lemma_cell_term_bounds, order_wf,
    weights_wf};
use crate::topk::{sorted_by_dist, topk_insert, lemma_topk_insert_props};
use crate::value::Value;

verus! {

/// Removing one cell removes exactly its summand.
proof fn lemma_sum_by_remove(s: Seq<Value>, i: int, f: spec_fn(Value) -> int)
    requires
        0 <= i < s.len(),
    ensures
        sum_by(s.remove(i), f) == sum_by(s, f) - f(s[i]),
    decreases s.len(),
{
    if i == s.len() - 1 {
        assert(s.remove(i) =~= s.drop_last());
    } else {
        assert(s.remove(i).drop_last() =~= s.drop_last().remove(i));
        assert(s.remove(i).last() == s.last());
        lemma_sum_by_remove(s.drop_last(), i, f);
        assert(s.drop_last()[i] == s[i]);
    }
}

/// A sum over cells depends only on which cells occur, however the rows
/// are ordered.
proof fn lemma_sum_by_permuted(s1: Seq<Value>, s2: Seq<Value>, f: spec_fn(Value) -> int)
    requires
        s1.to_multiset() == s2.to_multiset(),
    ensures
        sum_by(s1, f) == sum_by(s2, f),
    decreases s1.len(),
{
    broadcast use vstd::seq_lib::group_to_multiset_ensures;

    assert(s1.to_multiset().len() == s1.len());
    assert(s2.to_multiset().len() == s2.len());
    if s1.len() == 0 {
        assert(s2.len() == 0);
    } else {
        let x = s1.last();
        assert(s1.contains(x));
        assert(s2.to_multiset().count(x) > 0);
        assert(s2.contains(x));
        let i = choose|i: int| 0 <= i < s2.len() && s2[i] == x;
        assert(s1.drop_last() =~= s1.remove(s1.len() - 1));
        assert(s1.remove(s1.len() - 1).to_multiset() =~= s1.to_multiset().remove(x));
        assert(s2.remove(i).to_multiset() =~= s2.to_multiset().remove(x));
        lemma_sum_by_permuted(s1.drop_last(), s2.remove(i), f);
        lemma_sum_by_remove(s2, i, f);
    }
}

/// A column holds a number exactly when one of its cells is a number.
proof fn lemma_has_num_iff(s: Seq<Value>)
    ensures
        has_num(s) <==> exists|v: Value| s.contains(v) && v is Number,
    decreases s.len(),
{
    if s.len() > 0 {
        lemma_has_num_iff(s.drop_last());
        assert(s.contains(s.last()));
        if has_num(s) {
            if s.last() is Number {
                assert(s.contains(s.last()) && s.last() is Number);
            } else {
                let v = choose|v: Value| s.drop_last().contains(v) && v is Number;
                let i = choose|i: int| 0 <= i < s.drop_last().len() && s.drop_last()[i] == v;
                assert(s[i] == v);
                assert(s.contains(v) && v is Number);
            }
        } else {
            assert forall|v: Value| s.contains(v) && v is Number implies false by {
                let i = choose|i: int| 0 <= i < s.len() && s[i] == v;
                if i < s.len() - 1 {
                    assert(s.drop_last()[i] == v);
                    assert(s.drop_last().contains(v));
                } else {
                    assert(v == s.last());
                }
            }
        }
    }
}

/// A column holds a label exactly when one of its cells is a label.
proof fn lemma_has_cat_iff(s: Seq<Value>)
    ensures
        has_cat(s) <==> exists|v: Value| s.contains(v) && v is Category,
    decreases s.len(),
{
    if s.len() > 0 {
        lemma_has_cat_iff(s.drop_last());
        assert(s.contains(s.last()));
        if has_cat(s) {
            if s.last() is Category {
                assert(s.contains(s.last()) && s.last() is Category);
            } else {
                let v = choose|v: Value| s.drop_last().contains(v) && v is Category;
                let i = choose|i: int| 0 <= i < s.drop_last().len() && s.drop_last()[i] == v;
                assert(s[i] == v);
                assert(s.contains(v) && v is Category);
            }
        } else {
            assert forall|v: Value| s.contains(v) && v is Category implies false by {
                let i = choose|i: int| 0 <= i < s.len() && s[i] == v;
                if i < s.len() - 1 {
                    assert(s.drop_last()[i] == v);
                    assert(s.drop_last().contains(v));
                } else {
                    assert(v == s.last());
                }
            }
        }
    }
}

/// A label occurs in the column's label list exactly when one of the
/// column's cells carries it.
proof fn lemma_label_seq_contains(s: Seq<Value>, l: Seq<char>)
    ensures
        label_seq(s).contains(l) <==> exists|v: Value|
            s.contains(v) && (v matches Value::Category(c) && c@ == l),
    decreases s.len(),
{
    broadcast use vstd::seq_lib::lemma_seq_contains_after_push;

    if s.len() > 0 {
        lemma_label_seq_contains(s.drop_last(), l);
        assert(s.contains(s.last()));
        let rest = label_seq(s.drop_last());
        match s.last() {
            Value::Category(c) => {
                vstd::seq_lib::lemma_seq_contains_after_push(rest, c@, l);
            },
            _ => {},
        }
        if label_seq(s).contains(l) {
            let hit = match s.last() {
                Value::Category(c) => c@ == l,
                _ => false,
            };
            if hit {
                assert(s.contains(s.last()) && (s.last() matches Value::Category(c) && c@ == l));
            } else {
                assert(rest.contains(l));
                let v = choose|v: Value|
                    s.drop_last().contains(v) && (v matches Value::Category(c) && c@ == l);
                let i = choose|i: int| 0 <= i < s.drop_last().len() && s.drop_last()[i] == v;
                assert(s[i] == v);
                assert(s.contains(v) && (v matches Value::Category(c) && c@ == l));
            }
        } else {
            assert forall|v: Value|
                s.contains(v) && (v matches Value::Category(c) && c@ == l) implies false by {
                let i = choose|i: int| 0 <= i < s.len() && s[i] == v;
                if i < s.len() - 1 {
                    assert(s.drop_last()[i] == v);
                    assert(s.drop_last().contains(v));
                } else {
                    assert(v == s.last());
                }
            }
        }
    }
}

/// Type inference determinism, per column: a column's inferred type — its
/// kind, mean, standard deviation and distinct-label count — depends only
/// on which cells it holds, not on the order of its rows.
pub proof fn lemma_col_type_permuted(c1: Seq<Value>, c2: Seq<Value>)
    requires
        c1.to_multiset() == c2.to_multiset(),
    ensures
        col_type_spec(c1) == col_type_spec(c2),
{
    broadcast use vstd::seq_lib::group_to_multiset_ensures;

    lemma_has_num_iff(c1);
    lemma_has_num_iff(c2);
    assert forall|v: Value| c1.contains(v) implies c2.contains(v) by {
        assert(c2.to_multiset().count(v) > 0);
    }
    assert forall|v: Value| c2.contains(v) implies c1.contains(v) by {
        assert(c1.to_multiset().count(v) > 0);
    }
    if has_num(c1) {
        lemma_sum_by_permuted(c1, c2, |v: Value| if v is Number {
            1int
        } else {
            0int
        });
        lemma_sum_by_permuted(c1, c2, |v: Value| match v {
            Value::Number(n) => n as int,
            _ => 0int,
        });
        let m = crate::column::mean_spec(c1);
        lemma_sum_by_permuted(c1, c2, |v: Value| match v {
            Value::Number(n) => (n - m) * (n - m),
            _ => 0int,
        });
    } else {
        assert forall|l: Seq<char>| label_seq(c1).contains(l) implies label_seq(c2).contains(
            l,
        ) by {
            lemma_label_seq_contains(c1, l);
            lemma_label_seq_contains(c2, l);
        }
        assert forall|l: Seq<char>| label_seq(c2).contains(l) implies label_seq(c1).contains(
            l,
        ) by {
            lemma_label_seq_contains(c1, l);
            lemma_label_seq_contains(c2, l);
        }
        assert(label_seq(c1).to_set() =~= label_seq(c2).to_set());
        assert(distinct_count(c1) == distinct_count(c2));
    }
}

/// Type inference determinism, whole table: permuting the rows of the
/// population — which permutes every column the same way — changes no
/// column's inferred type.
pub proof fn lemma_type_inference_deterministic(p1: Seq<Vec<Value>>, p2: Seq<Vec<Value>>, ncols: int)
    requires
        forall|j: int|
            0 <= j < ncols ==> (#[trigger] col_seq(p1, j)).to_multiset() == col_seq(
                p2,
                j,
            ).to_multiset(),
    ensures
        forall|j: int|
            0 <= j < ncols ==> col_type_spec(#[trigger] col_seq(p1, j)) == col_type_spec(
                col_seq(p2, j),
            ),
{
    assert forall|j: int|
        0 <= j < ncols implies col_type_spec(#[trigger] col_seq(p1, j)) == col_type_spec(
        col_seq(p2, j),
    ) by {
        lemma_col_type_permuted(col_seq(p1, j), col_seq(p2, j));
    }
}

/// Distance symmetry: the metric gives the same outcome — the same
/// distance, the same early exit, or the same mismatched column — with
/// its two records swapped.
pub proof fn lemma_distance_symmetry(
    a: Seq<Value>,
    b: Seq<Value>,
    ts: Seq<ColumnType>,
    ws: Seq<i64>,
    ord: Seq<usize>,
    limit: int,
    thr: Option<int>,
)
    ensures
        dist_spec(a, b, ts, ws, ord, limit, thr) == dist_spec(b, a, ts, ws, ord, limit, thr),
{
    lemma_dist_from_symmetry(a, b, ts, ws, ord, limit, thr, 0, 0);
}

proof fn lemma_dist_from_symmetry(
    a: Seq<Value>,
    b: Seq<Value>,
    ts: Seq<ColumnType>,
    ws: Seq<i64>,
    ord: Seq<usize>,
    limit: int,
    thr: Option<int>,
    pos: int,
    acc: int,
)
    ensures
        dist_from(a, b, ts, ws, ord, limit, thr, pos, acc) == dist_from(
            b,
            a,
            ts,
            ws,
            ord,
            limit,
            thr,
            pos,
            acc,
        ),
    decreases limit - pos,
{
    if 0 <= pos < limit {
        let c = ord[pos] as int;
        assert(cell_term(a[c], b[c], ts[c], ws[c] as int) == cell_term(
            b[c],
            a[c],
            ts[c],
            ws[c] as int,
        ));
        if !crate::dist::cell_mismatch(a[c], b[c], ts[c]) {
            let acc2 = acc + cell_term(a[c], b[c], ts[c], ws[c] as int);
            lemma_dist_from_symmetry(a, b, ts, ws, ord, limit, thr, pos + 1, acc2);
        }
    }
}

/// Missing neutrality: a missing cell on either side contributes exactly
/// zero, never more than the cell it replaced would have.
pub proof fn lemma_missing_neutrality(a: Value, b: Value, t: ColumnType, w: int)
    requires
        crate::column::bounded_cell(a),
        crate::column::bounded_cell(b),
        t matches ColumnType::Numeric { mean, sd } ==> 0 <= sd <= 2 * crate::arith::NUM_ABS_MAX,
        0 <= w <= crate::arith::WEIGHT_MAX,
    ensures
        cell_term(Value::Missing, b, t, w) == 0,
        cell_term(a, Value::Missing, t, w) == 0,
        cell_term(Value::Missing, b, t, w) <= cell_term(a, b, t, w),
        cell_term(a, Value::Missing, t, w) <= cell_term(a, b, t, w),
{
    lemma_cell_term_bounds(a, b, t, w);
}

/// Early-exit soundness: when the full, unpruned distance would exceed
/// the threshold, the pruned run also returns a value that exceeds it —
/// pruning may stop early but never hides a candidate that is too far.
pub proof fn lemma_early_exit_sound(
    a: Seq<Value>,
    b: Seq<Value>,
    ts: Seq<ColumnType>,
    ws: Seq<i64>,
    ord: Seq<usize>,
    limit: int,
    t: int,
)
    requires
        a.len() == ts.len(),
        b.len() == ts.len(),
        ws.len() == ts.len(),
        types_wf(ts),
        weights_wf(ws),
        bounded_row(a),
        bounded_row(b),
        order_wf(ord, ts.len() as int),
        limit <= ord.len(),
    ensures
        (match dist_spec(a, b, ts, ws, ord, limit, None) {
            Ok(full) => full > t ==> (match dist_spec(a, b, ts, ws, ord, limit, Some(t)) {
                Ok(pruned) => pruned > t,
                Err(_) => false,
            }),
            Err(_) => true,
        }),
{
    lemma_dist_from_prune(a, b, ts, ws, ord, limit, t, 0, 0);
}

proof fn lemma_dist_from_prune(
    a: Seq<Value>,
    b: Seq<Value>,
    ts: Seq<ColumnType>,
    ws: Seq<i64>,
    ord: Seq<usize>,
    limit: int,
    t: int,
    pos: int,
    acc: int,
)
    requires
        a.len() == ts.len(),
        b.len() == ts.len(),
        ws.len() == ts.len(),
        types_wf(ts),
        weights_wf(ws),
        bounded_row(a),
        bounded_row(b),
        order_wf(ord, ts.len() as int),
        0 <= pos,
        limit <= ord.len(),
    ensures
        (match dist_from(a, b, ts, ws, ord, limit, None, pos, acc) {
            Ok(full) => full > t ==> (match dist_from(a, b, ts, ws, ord, limit, Some(t), pos, acc) {
                Ok(pruned) => pruned > t,
                Err(_) => false,
            }),
            Err(_) => true,
        }),
    decreases limit - pos,
{
    if 0 <= pos < limit {
        let c = ord[pos] as int;
        if !crate::dist::cell_mismatch(a[c], b[c], ts[c]) {
            assert(ts[c] matches ColumnType::Numeric { mean, sd } ==> 0 <= sd <= 2
                * crate::arith::NUM_ABS_MAX) by {
                assert(types_wf(ts));
            }
            lemma_cell_term_bounds(a[c], b[c], ts[c], ws[c] as int);
            let acc2 = acc + cell_term(a[c], b[c], ts[c], ws[c] as int);
            if acc2 > t {
                lemma_dist_from_monotone(a, b, ts, ws, ord, limit, pos + 1, acc2);
            } else {
                lemma_dist_from_prune(a, b, ts, ws, ord, limit, t, pos + 1, acc2);
            }
        }
    }
}

/// Without a threshold, the final distance is at least what has been
/// accumulated: each column only adds.
proof fn lemma_dist_from_monotone(
    a: Seq<Value>,
    b: Seq<Value>,
    ts: Seq<ColumnType>,
    ws: Seq<i64>,
    ord: Seq<usize>,
    limit: int,
    pos: int,
    acc: int,
)
    requires
        a.len() == ts.len(),
        b.len() == ts.len(),
        ws.len() == ts.len(),
        types_wf(ts),
        weights_wf(ws),
        bounded_row(a),
        bounded_row(b),
        order_wf(ord, ts.len() as int),
        0 <= pos,
        limit <= ord.len(),
    ensures
        (match dist_from(a, b, ts, ws, ord, limit, None, pos, acc) {
            Ok(full) => full >= acc,
            Err(_) => true,
        }),
    decreases limit - pos,
{
    if 0 <= pos < limit {
        let c = ord[pos] as int;
        if !crate::dist::cell_mismatch(a[c], b[c], ts[c]) {
            lemma_cell_term_bounds(a[c], b[c], ts[c], ws[c] as int);
            let acc2 = acc + cell_term(a[c], b[c], ts[c], ws[c] as int);
            lemma_dist_from_monotone(a, b, ts, ws, ord, limit, pos + 1, acc2);
        }
    }
}


/// The plain weighted sum of the column contributions from position `pos`
/// of the check order on.
pub open spec fn dist_total_from(
    a: Seq<Value>,
    b: Seq<Value>,
    ts: Seq<ColumnType>,
    ws: Seq<i64>,
    ord: Seq<usize>,
    limit: int,
    pos: int,
) -> int
    decreases limit - pos,
{
    if pos < 0 || pos >= limit {
        0
    } else {
        cell_term(a[ord[pos] as int], b[ord[pos] as int], ts[ord[pos] as int], ws[ord[pos] as int] as int)
            + dist_total_from(a, b, ts, ws, ord, limit, pos + 1)
    }
}

/// Without a threshold the metric is nothing but the weighted sum of the
/// inspected columns' contributions, provided none of them mismatches.
pub proof fn lemma_unpruned_distance_is_sum(
    a: Seq<Value>,
    b: Seq<Value>,
    ts: Seq<ColumnType>,
    ws: Seq<i64>,
    ord: Seq<usize>,
    limit: int,
)
    requires
        forall|p: int|
            0 <= p < limit ==> !crate::dist::cell_mismatch(
                a[(#[trigger] ord[p]) as int],
                b[ord[p] as int],
                ts[ord[p] as int],
            ),
    ensures
        dist_spec(a, b, ts, ws, ord, limit, None) == Ok::<int, int>(
            dist_total_from(a, b, ts, ws, ord, limit, 0),
        ),
{
    lemma_unpruned_from(a, b, ts, ws, ord, limit, 0, 0);
}

proof fn lemma_unpruned_from(
    a: Seq<Value>,
    b: Seq<Value>,
    ts: Seq<ColumnType>,
    ws: Seq<i64>,
    ord: Seq<usize>,
    limit: int,
    pos: int,
    acc: int,
)
    requires
        forall|p: int|
            0 <= p < limit ==> !crate::dist::cell_mismatch(
                a[(#[trigger] ord[p]) as int],
                b[ord[p] as int],
                ts[ord[p] as int],
            ),
        0 <= pos,
    ensures
        dist_from(a, b, ts, ws, ord, limit, None, pos, acc) == Ok::<int, int>(
            acc + dist_total_from(a, b, ts, ws, ord, limit, pos),
        ),
    decreases limit - pos,
{
    if pos < limit {
        let c = ord[pos] as int;
        lemma_unpruned_from(
            a,
            b,
            ts,
            ws,
            ord,
            limit,
            pos + 1,
            acc + cell_term(a[c], b[c], ts[c], ws[c] as int),
        );
    }
}


/// A label occurs among the contingency keys exactly when it occurs in
/// the column's label list.
proof fn lemma_keys_contains_some(col: Seq<Value>, l: Seq<char>)
    ensures
        keys_list(col).contains(Some(l)) <==> label_seq(col).contains(l),
    decreases col.len(),
{
    broadcast use vstd::seq_lib::lemma_seq_contains_after_push;

    if col.len() > 0 {
        lemma_keys_contains_some(col.drop_last(), l);
    }
}

/// The number of label keys in the contingency table equals the number of
/// distinct labels type inference counted: the engine's consistency check
/// is truly internal and cannot fire on inference's own output.
pub proof fn lemma_table_labels_match_distinct(col: Seq<Value>)
    ensures
        some_key_count(col) == distinct_count(col),
    decreases col.len(),
{
    broadcast use vstd::seq_lib::lemma_seq_contains_after_push;
    broadcast use vstd::set::group_set_axioms;
    broadcast use vstd::seq_lib::seq_to_set_is_finite;

    reveal(Seq::filter);
    let p = |o: Option<Seq<char>>| o is Some;
    if col.len() == 0 {
        assert(keys_list(col).filter(p).len() == 0);
        assert(label_seq(col).to_set() =~= Set::<Seq<char>>::empty());
    } else {
        lemma_table_labels_match_distinct(col.drop_last());
        let restk = keys_list(col.drop_last());
        let restl = label_seq(col.drop_last());
        match col.last() {
            Value::Category(c) => {
                lemma_keys_contains_some(col.drop_last(), c@);
                assert(label_seq(col) == restl.push(c@));
                assert forall|x: Seq<char>| label_seq(col).to_set().contains(x)
                    <==> restl.to_set().insert(c@).contains(x) by {
                    vstd::seq_lib::lemma_seq_contains_after_push(restl, c@, x);
                }
                assert(label_seq(col).to_set() =~= restl.to_set().insert(c@));
                vstd::set::axiom_set_insert_len(restl.to_set(), c@);
                assert(restl.to_set().contains(c@) <==> restl.contains(c@));
                if restk.contains(Some(c@)) {
                    assert(keys_list(col) == restk);
                } else {
                    assert(keys_list(col) == restk.push(Some(c@)));
                    assert(restk.push(Some(c@)).drop_last() =~= restk);
                    assert(keys_list(col).filter(p) =~= restk.filter(p).push(Some(c@)));
                }
            },
            _ => {
                assert(label_seq(col) == restl);
                if restk.contains(None::<Seq<char>>) {
                    assert(keys_list(col) == restk);
                } else {
                    assert(keys_list(col) == restk.push(None::<Seq<char>>));
                    assert(restk.push(None::<Seq<char>>).drop_last() =~= restk);
                    assert(keys_list(col).filter(p) =~= restk.filter(p));
                }
            },
        }
    }
}

/// In particular, the count check in the association engine never fails
/// against the type that inference assigned to the same column.
pub proof fn lemma_no_count_mismatch_after_inference(col: Seq<Value>)
    requires
        distinct_count(col) <= usize::MAX,
    ensures
        !crate::assoc::count_mismatch(col, col_type_spec(col)),
{
    lemma_table_labels_match_distinct(col);
}


/// The contributions are non-negative, so the remaining weighted sum is
/// bounded between zero and one maximal term per column.
proof fn lemma_dist_total_bounds(
    a: Seq<Value>,
    b: Seq<Value>,
    ts: Seq<ColumnType>,
    ws: Seq<i64>,
    ord: Seq<usize>,
    limit: int,
    pos: int,
)
    requires
        a.len() == ts.len(),
        b.len() == ts.len(),
        ws.len() == ts.len(),
        types_wf(ts),
        weights_wf(ws),
        bounded_row(a),
        bounded_row(b),
        order_wf(ord, ts.len() as int),
        0 <= pos,
        limit <= ord.len(),
    ensures
        0 <= dist_total_from(a, b, ts, ws, ord, limit, pos) <= (if pos < limit {
            (limit - pos) * crate::dist::CELL_TERM_MAX
        } else {
            0int
        }),
    decreases limit - pos,
{
    if pos < limit {
        let c = ord[pos] as int;
        lemma_cell_term_bounds(a[c], b[c], ts[c], ws[c] as int);
        lemma_dist_total_bounds(a, b, ts, ws, ord, limit, pos + 1);
    }
}

/// Against the same threshold, the pruned run agrees with the unpruned
/// one below the threshold and underestimates it above: both end in a
/// value, the values are equal when the pruned one is within the
/// threshold, and the unpruned one is at least the pruned one otherwise.
proof fn lemma_dist_prune_exact(
    a: Seq<Value>,
    b: Seq<Value>,
    ts: Seq<ColumnType>,
    ws: Seq<i64>,
    ord: Seq<usize>,
    limit: int,
    t: int,
    pos: int,
    acc: int,
)
    requires
        a.len() == ts.len(),
        b.len() == ts.len(),
        ws.len() == ts.len(),
        types_wf(ts),
        weights_wf(ws),
        bounded_row(a),
        bounded_row(b),
        order_wf(ord, ts.len() as int),
        0 <= pos,
        limit <= ord.len(),
        0 <= acc,
        forall|p: int|
            0 <= p < limit ==> !crate::dist::cell_mismatch(
                a[(#[trigger] ord[p]) as int],
                b[ord[p] as int],
                ts[ord[p] as int],
            ),
    ensures
        ({
            let full = dist_from(a, b, ts, ws, ord, limit, None, pos, acc);
            let pruned = dist_from(a, b, ts, ws, ord, limit, Some(t), pos, acc);
            &&& full is Ok
            &&& pruned is Ok
            &&& acc <= pruned->Ok_0 <= full->Ok_0 <= acc + (if pos < limit {
                (limit - pos) * crate::dist::CELL_TERM_MAX
            } else {
                0int
            })
            &&& (pruned->Ok_0 <= t ==> pruned == full)
        }),
    decreases limit - pos,
{
    lemma_unpruned_from(a, b, ts, ws, ord, limit, pos, acc);
    lemma_dist_total_bounds(a, b, ts, ws, ord, limit, pos);
    if 0 <= pos < limit {
        let c = ord[pos] as int;
        lemma_cell_term_bounds(a[c], b[c], ts[c], ws[c] as int);
        let acc2 = acc + cell_term(a[c], b[c], ts[c], ws[c] as int);
        if acc2 > t {
            lemma_unpruned_from(a, b, ts, ws, ord, limit, pos + 1, acc2);
            lemma_dist_total_bounds(a, b, ts, ws, ord, limit, pos + 1);
        } else {
            lemma_dist_prune_exact(a, b, ts, ws, ord, limit, t, pos + 1, acc2);
        }
    }
}

/// A candidate strictly beyond the worst of a full selector leaves it
/// unchanged.
proof fn lemma_topk_insert_beyond(s: Seq<(usize, u128)>, k: int, item: usize, d: u128)
    requires
        sorted_by_dist(s),
        s.len() == k,
        k >= 1,
        d > s.last().1,
    ensures
        topk_insert(s, k, item, d) == s,
{
    assert forall|i: int| 0 <= i < s.len() implies (#[trigger] s[i]).1 <= d by {
        if i < s.len() - 1 {
            assert(s[i].1 <= s.last().1);
        }
    }
    crate::topk::lemma_ins_pos_at(s, d, s.len() as int);
    let t = s.insert(s.len() as int, (item, d));
    s.insert_ensures(s.len() as int, (item, d));
    assert(topk_insert(s, k, item, d) =~= s);
}

/// The selector state after scanning `i` unpruned candidates: the same
/// scan, every distance computed in full.
pub open spec fn scan_plain(
    q: Seq<Value>,
    pop: Seq<Vec<Value>>,
    ts: Seq<ColumnType>,
    ws: Seq<i64>,
    ord: Seq<usize>,
    limit: int,
    k: int,
    i: int,
) -> Result<Seq<(usize, u128)>, int>
    decreases i,
{
    if i <= 0 {
        Ok(Seq::empty())
    } else {
        match scan_plain(q, pop, ts, ws, ord, limit, k, i - 1) {
            Err(c) => Err(c),
            Ok(st) => match dist_spec(q, pop[i - 1]@, ts, ws, ord, limit, None) {
                Err(c) => Err(c),
                Ok(d) => Ok(topk_insert(st, k, (i - 1) as usize, d as u128)),
            },
        }
    }
}

/// Pruning never changes the selection: scanning the population with each
/// candidate's distance cut off at the worst of the K best so far leaves
/// exactly the selector state of the scan that computes every distance in
/// full.  A candidate whose pruned distance crosses the threshold has a
/// full distance at least as large, so both scans discard it; every other
/// candidate's distance is computed in full by both.
pub proof fn lemma_pruning_preserves_selection(
    q: Seq<Value>,
    pop: Seq<Vec<Value>>,
    ts: Seq<ColumnType>,
    ws: Seq<i64>,
    ord: Seq<usize>,
    limit: int,
    k: int,
    i: int,
)
    requires
        q.len() == ts.len(),
        ws.len() == ts.len(),
        types_wf(ts),
        weights_wf(ws),
        bounded_row(q),
        rect(pop, ts.len() as int),
        crate::column::bounded_table(pop),
        order_wf(ord, ts.len() as int),
        0 <= limit <= ord.len(),
        limit <= crate::arith::COLS_MAX,
        1 <= k,
        0 <= i <= pop.len(),
        forall|r: int, p: int|
            0 <= r < pop.len() && 0 <= p < limit ==> !crate::dist::cell_mismatch(
                q[(#[trigger] ord[p]) as int],
                (#[trigger] pop[r])@[ord[p] as int],
                ts[ord[p] as int],
            ),
    ensures
        crate::knn::scan(q, pop, ts, ws, ord, limit, k, i) == scan_plain(
            q,
            pop,
            ts,
            ws,
            ord,
            limit,
            k,
            i,
        ),
        scan_plain(q, pop, ts, ws, ord, limit, k, i) matches Ok(st) && sorted_by_dist(st)
            && st.len() == (if i <= k {
            i
        } else {
            k
        }),
    decreases i,
{
    if i > 0 {
        lemma_pruning_preserves_selection(q, pop, ts, ws, ord, limit, k, i - 1);
        let st = scan_plain(q, pop, ts, ws, ord, limit, k, i - 1)->Ok_0;
        let b = pop[i - 1]@;
        assert(bounded_row(b)) by {
            assert(forall|j: int|
                0 <= j < b.len() ==> crate::column::bounded_cell(#[trigger] b[j]));
        }
        assert(forall|p: int|
            0 <= p < limit ==> !crate::dist::cell_mismatch(
                q[(#[trigger] ord[p]) as int],
                b[ord[p] as int],
                ts[ord[p] as int],
            ));
        lemma_unpruned_from(q, b, ts, ws, ord, limit, 0, 0);
        lemma_dist_total_bounds(q, b, ts, ws, ord, limit, 0);
        let full = dist_spec(q, b, ts, ws, ord, limit, None)->Ok_0;
        if st.len() < k {
            // below K the scan prunes nothing: the same unpruned distance
            // is inserted on both sides
        } else {
            let t = st.last().1 as int;
            lemma_dist_prune_exact(q, b, ts, ws, ord, limit, t, 0, 0);
            let pruned = dist_from(q, b, ts, ws, ord, limit, Some(t), 0, 0)->Ok_0;
            assert(0 <= pruned <= full <= limit * crate::dist::CELL_TERM_MAX);
            if pruned <= t {
                // within the threshold the pruned run already computed
                // the full distance
            } else {
                // both distances exceed the worst kept entry, so both
                // insertions drop the candidate and keep the state
                assert((pruned as u128) > st.last().1);
                assert((full as u128) > st.last().1);
                lemma_topk_insert_beyond(st, k, (i - 1) as usize, pruned as u128);
                lemma_topk_insert_beyond(st, k, (i - 1) as usize, full as u128);
            }
        }
        lemma_topk_insert_props(st, k, (i - 1) as usize, full as u128);
    }
}

/// The selector state after a whole sequence of insertions, candidate by
/// candidate.
pub open spec fn run_inserts(items: Seq<(usize, u128)>, k: int) -> Seq<(usize, u128)>
    decreases items.len(),
{
    if items.len() == 0 {
        Seq::empty()
    } else {
        topk_insert(run_inserts(items.drop_last(), k), k, items.last().0, items.last().1)
    }
}

/// Top-K invariant: after any sequence of insertions the selector holds
/// exactly `min(K, totalInserted)` entries, in ascending distance order —
/// so never more than K.
pub proof fn lemma_topk_run_invariant(items: Seq<(usize, u128)>, k: int)
    requires
        k >= 1,
    ensures
        sorted_by_dist(run_inserts(items, k)),
        run_inserts(items, k).len() == if items.len() <= k {
            items.len() as int
        } else {
            k
        },
    decreases items.len(),
{
    if items.len() > 0 {
        lemma_topk_run_invariant(items.drop_last(), k);
        lemma_topk_insert_props(
            run_inserts(items.drop_last(), k),
            k,
            items.last().0,
            items.last().1,
        );
    }
}

} // verus!
