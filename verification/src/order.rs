//! Stable ordering of rows: each row goes after every earlier row that is to
//! stay before it, so rows that tie keep the order in which they came.

use vstd::prelude::*;

verus! {

/// `sorted` with `x` placed after every row that stays before it.
pub open spec fn insert_stable<T>(sorted: Seq<T>, x: T, stays_before: spec_fn(T, T) -> bool) -> Seq<T>
    decreases sorted.len(),
{
    if sorted.len() == 0 {
        seq![x]
    } else if stays_before(sorted.last(), x) {
        sorted.push(x)
    } else {
        insert_stable(sorted.drop_last(), x, stays_before).push(sorted.last())
    }
}

/// The rows in stable order.
pub open spec fn stable_order<T>(rows: Seq<T>, stays_before: spec_fn(T, T) -> bool) -> Seq<T>
    decreases rows.len(),
{
    if rows.len() == 0 {
        rows
    } else {
        insert_stable(stable_order(rows.drop_last(), stays_before), rows.last(), stays_before)
    }
}

/// Inserting at the place found by scanning from the end.
pub proof fn lemma_insert_stable_at<T>(sorted: Seq<T>, x: T, stays_before: spec_fn(T, T) -> bool, j: int)
    requires
        0 <= j <= sorted.len(),
        forall|k: int| j <= k < sorted.len() ==> !stays_before(#[trigger] sorted[k], x),
        j > 0 ==> stays_before(sorted[j - 1], x),
    ensures
        insert_stable(sorted, x, stays_before) == sorted.take(j).push(x) + sorted.skip(j),
    decreases sorted.len(),
{
    if sorted.len() == 0 {
        assert(sorted.take(j).push(x) + sorted.skip(j) =~= seq![x]);
    } else if j == sorted.len() {
        assert(sorted.take(j) =~= sorted);
        assert(sorted.take(j).push(x) + sorted.skip(j) =~= sorted.push(x));
    } else {
        let rest = sorted.drop_last();
        assert(!stays_before(sorted[sorted.len() - 1], x));
        assert forall|k: int| j <= k < rest.len() implies !stays_before(#[trigger] rest[k], x) by {
            assert(rest[k] == sorted[k]);
        }
        lemma_insert_stable_at(rest, x, stays_before, j);
        assert(rest.take(j) =~= sorted.take(j));
        assert(rest.skip(j).push(sorted.last()) =~= sorted.skip(j));
        assert((rest.take(j).push(x) + rest.skip(j)).push(sorted.last()) =~= sorted.take(j).push(x)
            + sorted.skip(j));
    }
}

/// Whatever holds of every row holds of every row in stable order, and the
/// number of rows is kept.
pub proof fn lemma_stable_order_keeps<T>(rows: Seq<T>, stays_before: spec_fn(T, T) -> bool, p: spec_fn(T) -> bool)
    requires
        forall|i: int| 0 <= i < rows.len() ==> p(#[trigger] rows[i]),
    ensures
        stable_order(rows, stays_before).len() == rows.len(),
        forall|i: int| 0 <= i < stable_order(rows, stays_before).len() ==> p(#[trigger] stable_order(rows, stays_before)[i]),
    decreases rows.len(),
{
    if rows.len() > 0 {
        lemma_stable_order_keeps(rows.drop_last(), stays_before, p);
        lemma_insert_stable_keeps(stable_order(rows.drop_last(), stays_before), rows.last(), stays_before, p);
    }
}

/// Whatever holds of the rows and of the new row holds after inserting it.
pub proof fn lemma_insert_stable_keeps<T>(sorted: Seq<T>, x: T, stays_before: spec_fn(T, T) -> bool, p: spec_fn(T) -> bool)
    requires
        forall|i: int| 0 <= i < sorted.len() ==> p(#[trigger] sorted[i]),
        p(x),
    ensures
        insert_stable(sorted, x, stays_before).len() == sorted.len() + 1,
        forall|i: int| 0 <= i < insert_stable(sorted, x, stays_before).len() ==> p(#[trigger] insert_stable(sorted, x, stays_before)[i]),
    decreases sorted.len(),
{
    if sorted.len() > 0 && !stays_before(sorted.last(), x) {
        lemma_insert_stable_keeps(sorted.drop_last(), x, stays_before, p);
    }
}


/// The relation orders everything (total) and consistently (transitive).
pub open spec fn total_preorder<T>(stays_before: spec_fn(T, T) -> bool) -> bool {
    &&& forall|a: T, b: T| #[trigger] stays_before(a, b) || #[trigger] stays_before(b, a)
    &&& forall|a: T, b: T, c: T| #[trigger] stays_before(a, b) && #[trigger] stays_before(b, c) ==> stays_before(a, c)
}

/// Every row stays before every later row.
pub open spec fn in_order<T>(rows: Seq<T>, stays_before: spec_fn(T, T) -> bool) -> bool {
    forall|i: int, j: int| 0 <= i < j < rows.len() ==> stays_before(#[trigger] rows[i], #[trigger] rows[j])
}

/// A stable insertion into rows in order leaves them in order.
pub proof fn lemma_insert_stable_in_order<T>(sorted: Seq<T>, x: T, stays_before: spec_fn(T, T) -> bool)
    requires
        total_preorder(stays_before),
        in_order(sorted, stays_before),
    ensures
        in_order(insert_stable(sorted, x, stays_before), stays_before),
    decreases sorted.len(),
{
    if sorted.len() > 0 {
        let last = sorted.last();
        if stays_before(last, x) {
            let r = sorted.push(x);
            assert forall|i: int, j: int| 0 <= i < j < r.len() implies stays_before(#[trigger] r[i], #[trigger] r[j]) by {
                if j == r.len() - 1 && i < sorted.len() - 1 {
                    assert(stays_before(sorted[i], last));
                }
            }
        } else {
            let rest = sorted.drop_last();
            lemma_insert_stable_in_order(rest, x, stays_before);
            assert(stays_before(x, last));
            assert forall|i: int| 0 <= i < rest.len() implies stays_before(#[trigger] rest[i], last) by {
                assert(rest[i] == sorted[i]);
                assert(sorted[sorted.len() - 1] == last);
            }
            lemma_insert_stable_keeps(rest, x, stays_before, |t: T| stays_before(t, last));
            let ins = insert_stable(rest, x, stays_before);
            let r = ins.push(last);
            assert forall|i: int, j: int| 0 <= i < j < r.len() implies stays_before(#[trigger] r[i], #[trigger] r[j]) by {
                assert(r[i] == ins[i]);
                if j < r.len() - 1 {
                    assert(r[j] == ins[j]);
                }
            }
        }
    }
}

/// A stable insertion adds the row to the rows, nothing else.
pub proof fn lemma_insert_stable_multiset<T>(sorted: Seq<T>, x: T, stays_before: spec_fn(T, T) -> bool)
    ensures
        insert_stable(sorted, x, stays_before).to_multiset() == sorted.to_multiset().insert(x),
    decreases sorted.len(),
{
    broadcast use vstd::seq_lib::group_to_multiset_ensures;

    if sorted.len() == 0 {
        assert(seq![x] =~= Seq::<T>::empty().push(x));
    } else if !stays_before(sorted.last(), x) {
        let rest = sorted.drop_last();
        lemma_insert_stable_multiset(rest, x, stays_before);
        assert(rest.push(sorted.last()) =~= sorted);
        assert(sorted.to_multiset() =~= rest.to_multiset().insert(sorted.last()));
        assert(insert_stable(sorted, x, stays_before).to_multiset() =~= sorted.to_multiset().insert(x));
    }
}

/// Rows in stable order are in order, and they are the rows given, each as
/// often as given.
pub proof fn lemma_stable_order_sorted_permutation<T>(rows: Seq<T>, stays_before: spec_fn(T, T) -> bool)
    requires
        total_preorder(stays_before),
    ensures
        in_order(stable_order(rows, stays_before), stays_before),
        stable_order(rows, stays_before).to_multiset() == rows.to_multiset(),
    decreases rows.len(),
{
    broadcast use vstd::seq_lib::group_to_multiset_ensures;

    if rows.len() > 0 {
        lemma_stable_order_sorted_permutation(rows.drop_last(), stays_before);
        lemma_insert_stable_in_order(stable_order(rows.drop_last(), stays_before), rows.last(), stays_before);
        lemma_insert_stable_multiset(stable_order(rows.drop_last(), stays_before), rows.last(), stays_before);
        assert(rows.drop_last().push(rows.last()) =~= rows);
    } else {
        assert(rows.to_multiset() =~= stable_order(rows, stays_before).to_multiset());
    }
}

/// Taking only the rows that pass `keep`, after a stable insertion, is the
/// insertion into the rows that pass.
proof fn lemma_insert_stable_filter<T>(sorted: Seq<T>, x: T, stays_before: spec_fn(T, T) -> bool, keep: spec_fn(T) -> bool)
    requires
        total_preorder(stays_before),
        in_order(sorted, stays_before),
    ensures
        insert_stable(sorted, x, stays_before).filter(keep) == if keep(x) {
            insert_stable(sorted.filter(keep), x, stays_before)
        } else {
            sorted.filter(keep)
        },
    decreases sorted.len(),
{
    broadcast use vstd::seq_lib::group_filter_ensures;

    reveal_with_fuel(Seq::filter, 1);
    if sorted.len() == 0 {
        assert(seq![x].drop_last() =~= sorted);
        assert(sorted.filter(keep) =~= sorted);
    } else if stays_before(sorted.last(), x) {
        assert(sorted.push(x).drop_last() =~= sorted);
        let f = sorted.filter(keep);
        if keep(x) && f.len() > 0 {
            let y = f.last();
            assert(f.contains(y));
            sorted.lemma_filter_contains_rev(keep, y);
            let i = choose|i: int| 0 <= i < sorted.len() && sorted[i] == y;
            if i < sorted.len() - 1 {
                assert(stays_before(sorted[i], sorted[sorted.len() - 1]));
            }
            assert(stays_before(y, x));
        }
    } else {
        let rest = sorted.drop_last();
        let last = sorted.last();
        assert forall|i: int, j: int| 0 <= i < j < rest.len() implies stays_before(#[trigger] rest[i], #[trigger] rest[j]) by {
            assert(rest[i] == sorted[i] && rest[j] == sorted[j]);
        }
        lemma_insert_stable_filter(rest, x, stays_before, keep);
        let ins = insert_stable(rest, x, stays_before);
        assert(ins.push(last).drop_last() =~= ins);
        if keep(x) && keep(last) {
            let g = rest.filter(keep).push(last);
            assert(g.drop_last() =~= rest.filter(keep));
        }
    }
}

/// Taking only the rows that pass `keep` commutes with putting rows in
/// stable order.
pub proof fn lemma_stable_order_filter<T>(rows: Seq<T>, stays_before: spec_fn(T, T) -> bool, keep: spec_fn(T) -> bool)
    requires
        total_preorder(stays_before),
    ensures
        stable_order(rows, stays_before).filter(keep) == stable_order(rows.filter(keep), stays_before),
    decreases rows.len(),
{
    reveal_with_fuel(Seq::filter, 1);
    if rows.len() == 0 {
        assert(rows.filter(keep) =~= rows);
    } else {
        let rest = rows.drop_last();
        lemma_stable_order_filter(rest, stays_before, keep);
        lemma_stable_order_sorted_permutation(rest, stays_before);
        lemma_insert_stable_filter(stable_order(rest, stays_before), rows.last(), stays_before, keep);
        if keep(rows.last()) {
            assert(rest.filter(keep).push(rows.last()).drop_last() =~= rest.filter(keep));
        }
    }
}

/// A row that stays before none of the rows, and after each of them, goes
/// first when it comes last.
pub proof fn lemma_stable_order_push_first<T>(rows: Seq<T>, x: T, stays_before: spec_fn(T, T) -> bool)
    requires
        total_preorder(stays_before),
        forall|k: int| 0 <= k < rows.len() ==> !stays_before(#[trigger] rows[k], x),
    ensures
        stable_order(rows.push(x), stays_before) == seq![x] + stable_order(rows, stays_before),
{
    broadcast use vstd::seq_lib::group_to_multiset_ensures;

    assert(rows.push(x).drop_last() =~= rows);
    let sorted = stable_order(rows, stays_before);
    lemma_stable_order_sorted_permutation(rows, stays_before);
    assert forall|k: int| 0 <= k < sorted.len() implies !stays_before(#[trigger] sorted[k], x) by {
        assert(sorted.to_multiset().count(sorted[k]) > 0);
        assert(rows.contains(sorted[k]));
    }
    lemma_insert_stable_at(sorted, x, stays_before, 0);
    assert(sorted.take(0).push(x) + sorted.skip(0) =~= seq![x] + sorted);
}

/// A row that every row stays before, and that stays before none of them,
/// goes last when it comes first.
pub proof fn lemma_stable_order_prepend_last<T>(rows: Seq<T>, x: T, stays_before: spec_fn(T, T) -> bool)
    requires
        forall|k: int| 0 <= k < rows.len() ==> stays_before(#[trigger] rows[k], x) && !stays_before(x, rows[k]),
    ensures
        stable_order(seq![x] + rows, stays_before) == stable_order(rows, stays_before).push(x),
    decreases rows.len(),
{
    if rows.len() == 0 {
        assert(seq![x] + rows =~= seq![x]);
        assert(seq![x].drop_last() =~= rows);
    } else {
        let rest = rows.drop_last();
        let y = rows.last();
        assert forall|k: int| 0 <= k < rest.len() implies stays_before(#[trigger] rest[k], x) && !stays_before(x, rest[k]) by {
            assert(rest[k] == rows[k]);
        }
        lemma_stable_order_prepend_last(rest, x, stays_before);
        assert((seq![x] + rows).drop_last() =~= seq![x] + rest);
        assert((seq![x] + rows).last() == y);
        let sorted = stable_order(rest, stays_before);
        assert(!stays_before(x, y));
        assert(sorted.push(x).drop_last() =~= sorted);
    }
}

/// Two orderings of the same rows are the same sequence when rows that tie
/// are equal: the order leaves no choice.
pub proof fn lemma_in_order_unique<T>(x: Seq<T>, y: Seq<T>, stays_before: spec_fn(T, T) -> bool)
    requires
        in_order(x, stays_before),
        in_order(y, stays_before),
        x.to_multiset() == y.to_multiset(),
        forall|a: T, b: T|
            #![trigger x.to_multiset().count(a), x.to_multiset().count(b), stays_before(a, b)]
            x.to_multiset().count(a) > 0 && x.to_multiset().count(b) > 0 && stays_before(a, b) && stays_before(b, a)
                ==> a == b,
    ensures
        x == y,
    decreases x.len(),
{
    broadcast use vstd::seq_lib::group_to_multiset_ensures;

    let m = x.to_multiset();
    x.to_multiset_ensures();
    y.to_multiset_ensures();
    assert(x.len() == y.len());
    if x.len() == 0 {
        assert(x =~= y);
    } else {
        let n = x.len();
        let a = x.last();
        let b = y.last();
        assert(x.contains(a) && x[n - 1] == a);
        assert(y.contains(b) && y[n - 1] == b);
        assert(m.count(a) > 0);
        assert(m.count(b) > 0);
        assert(y.contains(a));
        assert(x.contains(b));
        let j = choose|j: int| 0 <= j < y.len() && y[j] == a;
        let i = choose|i: int| 0 <= i < x.len() && x[i] == b;
        if j < n - 1 {
            assert(stays_before(y[j], y[n - 1]));
        }
        if i < n - 1 {
            assert(stays_before(x[i], x[n - 1]));
        }
        if j == n - 1 || i == n - 1 {
            assert(a == b);
        } else {
            assert(m.count(a) > 0 && m.count(b) > 0 && stays_before(a, b) && stays_before(b, a));
        }
        assert(a == b);
        let xs = x.drop_last();
        let ys = y.drop_last();
        assert(xs.push(a) =~= x);
        assert(ys.push(a) =~= y);
        xs.to_multiset_ensures();
        ys.to_multiset_ensures();
        assert(xs.to_multiset().insert(a) == m);
        assert(ys.to_multiset().insert(a) == m);
        assert(xs.to_multiset() =~= m.remove(a));
        assert(ys.to_multiset() =~= m.remove(a));
        assert forall|i: int, j: int| 0 <= i < j < xs.len() implies stays_before(#[trigger] xs[i], #[trigger] xs[j]) by {
            assert(xs[i] == x[i] && xs[j] == x[j]);
        }
        assert forall|i: int, j: int| 0 <= i < j < ys.len() implies stays_before(#[trigger] ys[i], #[trigger] ys[j]) by {
            assert(ys[i] == y[i] && ys[j] == y[j]);
        }
        assert forall|p: T, q: T|
            #![trigger xs.to_multiset().count(p), xs.to_multiset().count(q), stays_before(p, q)]
            xs.to_multiset().count(p) > 0 && xs.to_multiset().count(q) > 0 && stays_before(p, q) && stays_before(q, p)
                implies p == q by {
            assert(m.count(p) >= xs.to_multiset().count(p));
            assert(m.count(q) >= xs.to_multiset().count(q));
        }
        lemma_in_order_unique(xs, ys, stays_before);
    }
}

/// A stable insertion puts the row at some place among the others, which
/// keep their order.
pub proof fn lemma_insert_stable_splits<T>(sorted: Seq<T>, x: T, stays_before: spec_fn(T, T) -> bool) -> (j: int)
    ensures
        0 <= j <= sorted.len(),
        insert_stable(sorted, x, stays_before) == sorted.take(j).push(x) + sorted.skip(j),
    decreases sorted.len(),
{
    if sorted.len() == 0 {
        assert(sorted.take(0).push(x) + sorted.skip(0) =~= seq![x]);
        0
    } else if stays_before(sorted.last(), x) {
        let n = sorted.len() as int;
        assert(sorted.take(n) =~= sorted);
        assert(sorted.take(n).push(x) + sorted.skip(n) =~= sorted.push(x));
        n
    } else {
        let rest = sorted.drop_last();
        let j = lemma_insert_stable_splits(rest, x, stays_before);
        assert(rest.take(j) =~= sorted.take(j));
        assert(rest.skip(j).push(sorted.last()) =~= sorted.skip(j));
        assert((rest.take(j).push(x) + rest.skip(j)).push(sorted.last()) =~= sorted.take(j).push(x) + sorted.skip(j));
        j
    }
}
} // verus!
