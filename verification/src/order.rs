//! Reading order of detected text boxes: top to bottom by the first corner,
//! then one bubble pass that puts boxes of the same row (first corners
//! within ten pixels vertically) left to right.

use vstd::prelude::*;

verus! {

/// A detected box: four corners, the first one leading.
pub type Quad = [(i32, i32); 4];

/// Sort key order: by the first corner's `y`, then its `x`.
pub open spec fn key_le(a: Quad, b: Quad) -> bool {
    a[0].1 < b[0].1 || (a[0].1 == b[0].1 && a[0].0 <= b[0].0)
}

/// Inserts `x` after every element whose key is not greater than its own.
pub open spec fn insert_sorted<T>(s: Seq<(Quad, T)>, x: (Quad, T)) -> Seq<(Quad, T)>
    decreases s.len(),
{
    if s.len() == 0 || key_le(s.last().0, x.0) {
        s.push(x)
    } else {
        insert_sorted(s.drop_last(), x).push(s.last())
    }
}

/// The stable sort of `s` by key.
pub open spec fn stable_sort<T>(s: Seq<(Quad, T)>) -> Seq<(Quad, T)>
    decreases s.len(),
{
    if s.len() == 0 {
        s
    } else {
        insert_sorted(stable_sort(s.drop_last()), s.last())
    }
}

/// Box `b`, right after box `a`, belongs before it: same row (first corners
/// less than ten pixels apart vertically) and further left.
pub open spec fn same_row_left(a: Quad, b: Quad) -> bool {
    -10 < b[0].1 - a[0].1 < 10 && b[0].0 < a[0].0
}

/// One compare-and-swap of positions `j` and `j + 1`.
pub open spec fn bubble_at<T>(s: Seq<(Quad, T)>, j: int) -> Seq<(Quad, T)> {
    if same_row_left(s[j].0, s[j + 1].0) {
        s.update(j, s[j + 1]).update(j + 1, s[j])
    } else {
        s
    }
}

/// Compare-and-swap at `j`, `j - 1`, ..., `0`.
pub open spec fn bubble_down<T>(s: Seq<(Quad, T)>, j: int) -> Seq<(Quad, T)>
    decreases j + 1,
{
    if j < 0 {
        s
    } else {
        bubble_down(bubble_at(s, j), j - 1)
    }
}

/// The first `i` rounds of the row pass: round `r` bubbles down from `r`.
pub open spec fn bubble_rounds<T>(s: Seq<(Quad, T)>, i: int) -> Seq<(Quad, T)>
    decreases i,
{
    if i <= 0 {
        s
    } else {
        bubble_down(bubble_rounds(s, i - 1), i - 1)
    }
}

/// Reading order: the stable sort by first corner, then the row pass.
pub open spec fn reading_order<T>(s: Seq<(Quad, T)>) -> Seq<(Quad, T)> {
    bubble_rounds(stable_sort(s), s.len() - 1)
}

proof fn lemma_insert_sorted_at<T>(p: Seq<(Quad, T)>, x: (Quad, T), j: int)
    requires
        0 <= j <= p.len(),
        forall|m: int| j <= m < p.len() ==> !key_le(#[trigger] p[m].0, x.0),
        j == 0 || key_le(p[j - 1].0, x.0),
    ensures
        insert_sorted(p, x) == p.take(j).push(x) + p.skip(j),
    decreases p.len(),
{
    if j == p.len() {
        assert(p.skip(j) =~= Seq::<(Quad, T)>::empty());
        assert(p.take(j) =~= p);
        assert(p.take(j).push(x) + p.skip(j) =~= p.push(x));
    } else {
        let q = p.drop_last();
        assert(!key_le(p.last().0, x.0));
        assert forall|m: int| j <= m < q.len() implies !key_le(#[trigger] q[m].0, x.0) by {
            assert(q[m] == p[m]);
        }
        if j > 0 {
            assert(q[j - 1] == p[j - 1]);
        }
        lemma_insert_sorted_at(q, x, j);
        assert((q.take(j).push(x) + q.skip(j)).push(p.last()) =~= p.take(j).push(x) + p.skip(j));
    }
}

proof fn lemma_bubble_at_len<T>(s: Seq<(Quad, T)>, j: int)
    requires
        0 <= j < s.len() - 1,
    ensures
        bubble_at(s, j).len() == s.len(),
{
}

proof fn lemma_bubble_down_len<T>(s: Seq<(Quad, T)>, j: int)
    requires
        j < s.len() - 1,
    ensures
        bubble_down(s, j).len() == s.len(),
    decreases j + 1,
{
    if j >= 0 {
        lemma_bubble_at_len(s, j);
        lemma_bubble_down_len(bubble_at(s, j), j - 1);
    }
}

proof fn lemma_bubble_rounds_len<T>(s: Seq<(Quad, T)>, i: int)
    requires
        i <= s.len() - 1,
    ensures
        bubble_rounds(s, i).len() == s.len(),
    decreases i,
{
    if i > 0 {
        lemma_bubble_rounds_len(s, i - 1);
        lemma_bubble_down_len(bubble_rounds(s, i - 1), i - 1);
    }
}

/// Puts detected boxes in reading order, each carrying its payload along.
pub fn sort_boxes<T: Copy>(boxes: &mut Vec<(Quad, T)>)
    ensures
        final(boxes)@ == reading_order(old(boxes)@),
{
    let ghost orig = boxes@;
    let n = boxes.len();
    let mut i: usize = 1;
    if n > 0 {
        proof {
            let e = orig.take(1).drop_last();
            assert(e =~= Seq::<(Quad, T)>::empty());
            assert(stable_sort(e) == e);
            assert(insert_sorted(e, orig[0]) == e.push(orig[0]));
            assert(e.push(orig[0]) =~= orig.take(1));
        }
    }
    while i < n
        invariant
            n == orig.len(),
            boxes@.len() == n,
            n == 0 || 1 <= i <= n,
            n > 0 ==> boxes@.take(i as int) == stable_sort(orig.take(i as int)),
            n > 0 ==> boxes@.skip(i as int) == orig.skip(i as int),
        decreases n - i,
    {
        let ghost p = boxes@.take(i as int);
        let x = boxes[i];
        proof {
            assert(x == orig[i as int]) by {
                assert(boxes@.skip(i as int)[0] == orig.skip(i as int)[0]);
            }
            assert forall|m: int| i < m < n implies boxes@[m] == orig[m] by {
                assert(boxes@.skip(i as int)[m - i] == orig.skip(i as int)[m - i]);
            }
            assert forall|m: int| 0 <= m < i implies boxes@[m] == p[m] by {
                assert(boxes@.take(i as int)[m] == boxes@[m]);
            }
        }
        let mut j: usize = i;
        while j > 0 && !(boxes[j - 1].0[0].1 < x.0[0].1 || (boxes[j - 1].0[0].1 == x.0[0].1
            && boxes[j - 1].0[0].0 <= x.0[0].0))
            invariant
                n == orig.len(),
                boxes@.len() == n,
                1 <= i < n,
                j <= i,
                p.len() == i,
                forall|m: int| 0 <= m < j ==> boxes@[m] == p[m],
                forall|m: int| j < m <= i ==> boxes@[m] == p[m - 1],
                forall|m: int| j <= m < i ==> !key_le(#[trigger] p[m].0, x.0),
                forall|m: int| i < m < n ==> boxes@[m] == orig[m],
            decreases j,
        {
            let prev = boxes[j - 1];
            boxes.set(j, prev);
            j = j - 1;
        }
        boxes.set(j, x);
        proof {
            lemma_insert_sorted_at(p, x, j as int);
            let next = orig.take(i + 1);
            assert(next.drop_last() =~= orig.take(i as int));
            assert(next.last() == x);
            assert(boxes@.take(i + 1) =~= p.take(j as int).push(x) + p.skip(j as int));
            assert(boxes@.skip(i + 1) =~= orig.skip(i + 1));
        }
        i = i + 1;
    }
    let ghost sorted = boxes@;
    proof {
        if n > 0 {
            assert(boxes@.take(n as int) =~= boxes@);
            assert(orig.take(n as int) =~= orig);
        } else {
            assert(orig =~= Seq::<(Quad, T)>::empty());
        }
        assert(sorted == stable_sort(orig));
    }
    let rounds: usize = if n > 0 {
        n - 1
    } else {
        0
    };
    let mut r: usize = 0;
    while r < rounds
        invariant
            n == orig.len(),
            boxes@.len() == n,
            rounds == (if n > 0 {
                n - 1
            } else {
                0
            }),
            r <= rounds,
            boxes@ == bubble_rounds(sorted, r as int),
        decreases rounds - r,
    {
        let mut j: usize = r + 1;
        let ghost start = boxes@;
        while j > 0
            invariant
                n == orig.len(),
                boxes@.len() == n,
                r < rounds,
                rounds == n - 1,
                j <= r + 1,
                bubble_down(boxes@, j - 1) == bubble_down(start, r as int),
            decreases j,
        {
            j = j - 1;
            let a = boxes[j];
            let b = boxes[j + 1];
            let ghost before = boxes@;
            let gap: i64 = b.0[0].1 as i64 - a.0[0].1 as i64;
            if -10 < gap && gap < 10 && b.0[0].0 < a.0[0].0 {
                boxes.set(j, b);
                boxes.set(j + 1, a);
            }
            proof {
                assert(boxes@ == bubble_at(before, j as int));
            }
        }
        proof {
            assert(boxes@ == bubble_down(start, r as int));
        }
        r = r + 1;
    }
}

proof fn lemma_insert_sorted_multiset<T>(s: Seq<(Quad, T)>, x: (Quad, T))
    ensures
        insert_sorted(s, x).to_multiset() == s.to_multiset().insert(x),
        insert_sorted(s, x).len() == s.len() + 1,
    decreases s.len(),
{
    broadcast use vstd::seq_lib::group_to_multiset_ensures;
    broadcast use vstd::multiset::group_multiset_axioms;

    if s.len() == 0 || key_le(s.last().0, x.0) {
    } else {
        let q = s.drop_last();
        lemma_insert_sorted_multiset(q, x);
        assert(q.push(s.last()) =~= s);
        assert(insert_sorted(s, x).to_multiset() =~= s.to_multiset().insert(x));
    }
}

proof fn lemma_stable_sort_multiset<T>(s: Seq<(Quad, T)>)
    ensures
        stable_sort(s).to_multiset() == s.to_multiset(),
        stable_sort(s).len() == s.len(),
    decreases s.len(),
{
    broadcast use vstd::seq_lib::group_to_multiset_ensures;

    if s.len() > 0 {
        lemma_stable_sort_multiset(s.drop_last());
        lemma_insert_sorted_multiset(stable_sort(s.drop_last()), s.last());
        assert(s.drop_last().push(s.last()) =~= s);
    }
}

proof fn lemma_bubble_at_multiset<T>(s: Seq<(Quad, T)>, j: int)
    requires
        0 <= j < s.len() - 1,
    ensures
        bubble_at(s, j).to_multiset() == s.to_multiset(),
{
    broadcast use vstd::seq_lib::to_multiset_update;
    broadcast use vstd::multiset::group_multiset_axioms;
    broadcast use vstd::seq_lib::group_to_multiset_ensures;

    if same_row_left(s[j].0, s[j + 1].0) {
        let a = s[j];
        let b = s[j + 1];
        let s1 = s.update(j, b);
        let s2 = s1.update(j + 1, a);
        assert(s1[j + 1] == b);
        assert(s.to_multiset().count(a) > 0) by {
            assert(s.contains(a));
        }
        assert(s2.to_multiset() =~= s.to_multiset());
    }
}

proof fn lemma_bubble_down_multiset<T>(s: Seq<(Quad, T)>, j: int)
    requires
        j < s.len() - 1,
    ensures
        bubble_down(s, j).to_multiset() == s.to_multiset(),
    decreases j + 1,
{
    if j >= 0 {
        lemma_bubble_at_multiset(s, j);
        lemma_bubble_at_len(s, j);
        lemma_bubble_down_multiset(bubble_at(s, j), j - 1);
    }
}

proof fn lemma_bubble_rounds_multiset<T>(s: Seq<(Quad, T)>, i: int)
    requires
        i <= s.len() - 1,
    ensures
        bubble_rounds(s, i).to_multiset() == s.to_multiset(),
    decreases i,
{
    if i > 0 {
        lemma_bubble_rounds_multiset(s, i - 1);
        lemma_bubble_rounds_len(s, i - 1);
        lemma_bubble_down_multiset(bubble_rounds(s, i - 1), i - 1);
    }
}

/// Reading order only rearranges: the same boxes, each with its own
/// payload, come out as many times as they went in.
pub proof fn lemma_reading_order_permutes<T>(s: Seq<(Quad, T)>)
    ensures
        reading_order(s).len() == s.len(),
        reading_order(s).to_multiset() == s.to_multiset(),
{
    lemma_stable_sort_multiset(s);
    lemma_bubble_rounds_multiset(stable_sort(s), s.len() - 1);
    lemma_bubble_rounds_len(stable_sort(s), s.len() - 1);
}


/// Ascending by key.
pub open spec fn key_sorted<T>(s: Seq<(Quad, T)>) -> bool {
    forall|i: int, j: int| 0 <= i < j < s.len() ==> key_le(#[trigger] s[i].0, #[trigger] s[j].0)
}

proof fn lemma_insert_sorted_bounded<T>(q: Seq<(Quad, T)>, x: (Quad, T), b: Quad)
    requires
        forall|k: int| 0 <= k < q.len() ==> key_le(#[trigger] q[k].0, b),
        key_le(x.0, b),
    ensures
        forall|k: int|
            0 <= k < insert_sorted(q, x).len() ==> key_le(#[trigger] insert_sorted(q, x)[k].0, b),
        insert_sorted(q, x).len() == q.len() + 1,
    decreases q.len(),
{
    if q.len() > 0 && !key_le(q.last().0, x.0) {
        let r = q.drop_last();
        assert forall|k: int| 0 <= k < r.len() implies key_le(#[trigger] r[k].0, b) by {
            assert(r[k] == q[k]);
        }
        lemma_insert_sorted_bounded(r, x, b);
        let ins = insert_sorted(r, x);
        assert forall|k: int|
            0 <= k < insert_sorted(q, x).len() implies key_le(#[trigger] insert_sorted(q, x)[k].0, b) by {
            if k < ins.len() {
                assert(insert_sorted(q, x)[k] == ins[k]);
            }
        }
    }
}

proof fn lemma_insert_sorted_sorted<T>(q: Seq<(Quad, T)>, x: (Quad, T))
    requires
        key_sorted(q),
    ensures
        key_sorted(insert_sorted(q, x)),
    decreases q.len(),
{
    if q.len() == 0 || key_le(q.last().0, x.0) {
        let r = q.push(x);
        assert forall|i: int, j: int| 0 <= i < j < r.len() implies key_le(
            #[trigger] r[i].0,
            #[trigger] r[j].0,
        ) by {
            if j == q.len() && i < q.len() - 1 {
                assert(key_le(q[i].0, q[q.len() - 1].0));
            }
        }
    } else {
        let r = q.drop_last();
        let last = q.last();
        assert(key_sorted(r)) by {
            assert forall|i: int, j: int| 0 <= i < j < r.len() implies key_le(
                #[trigger] r[i].0,
                #[trigger] r[j].0,
            ) by {
                assert(key_le(q[i].0, q[j].0));
            }
        }
        lemma_insert_sorted_sorted(r, x);
        assert forall|k: int| 0 <= k < r.len() implies key_le(#[trigger] r[k].0, last.0) by {
            assert(key_le(q[k].0, q[q.len() - 1].0));
        }
        lemma_insert_sorted_bounded(r, x, last.0);
        let ins = insert_sorted(r, x);
        let out = ins.push(last);
        assert forall|i: int, j: int| 0 <= i < j < out.len() implies key_le(
            #[trigger] out[i].0,
            #[trigger] out[j].0,
        ) by {
            if j < ins.len() {
                assert(key_le(ins[i].0, ins[j].0));
            } else {
                assert(key_le(ins[i].0, last.0));
            }
        }
    }
}

/// The first pass sorts: top to bottom by the first corner, left to right
/// among equal tops.
pub proof fn lemma_stable_sort_sorted<T>(s: Seq<(Quad, T)>)
    ensures
        key_sorted(stable_sort(s)),
    decreases s.len(),
{
    if s.len() > 0 {
        lemma_stable_sort_sorted(s.drop_last());
        lemma_insert_sorted_sorted(stable_sort(s.drop_last()), s.last());
    }
}

proof fn lemma_bubble_down_unchanged<T>(s: Seq<(Quad, T)>, j: int)
    requires
        j < s.len() - 1,
        forall|k: int| 0 <= k < s.len() - 1 ==> !same_row_left(#[trigger] s[k].0, s[k + 1].0),
    ensures
        bubble_down(s, j) == s,
    decreases j + 1,
{
    if j >= 0 {
        assert(!same_row_left(s[j].0, s[j + 1].0));
        assert(bubble_at(s, j) == s);
        lemma_bubble_down_unchanged(s, j - 1);
    }
}

proof fn lemma_bubble_rounds_unchanged<T>(s: Seq<(Quad, T)>, i: int)
    requires
        i <= s.len() - 1,
        forall|k: int| 0 <= k < s.len() - 1 ==> !same_row_left(#[trigger] s[k].0, s[k + 1].0),
    ensures
        bubble_rounds(s, i) == s,
    decreases i,
{
    if i > 0 {
        lemma_bubble_rounds_unchanged(s, i - 1);
        lemma_bubble_down_unchanged(s, i - 1);
    }
}

/// When no box sits in the row of another box further right of it (first
/// corners less than ten pixels apart vertically), the row pass changes
/// nothing: the reading order is top to bottom by first corner.
pub proof fn lemma_separate_rows_read_top_down<T>(s: Seq<(Quad, T)>)
    requires
        forall|a: (Quad, T), b: (Quad, T)| s.contains(a) && s.contains(b) ==> !same_row_left(a.0, b.0),
    ensures
        reading_order(s) == stable_sort(s),
        key_sorted(reading_order(s)),
{
    broadcast use vstd::seq_lib::group_to_multiset_ensures;

    let t = stable_sort(s);
    lemma_stable_sort_multiset(s);
    lemma_stable_sort_sorted(s);
    assert forall|k: int| 0 <= k < t.len() - 1 implies !same_row_left(#[trigger] t[k].0, t[k + 1].0) by {
        assert(t.to_multiset().count(t[k]) > 0);
        assert(t.to_multiset().count(t[k + 1]) > 0);
        assert(s.contains(t[k]));
        assert(s.contains(t[k + 1]));
    }
    lemma_bubble_rounds_unchanged(t, s.len() - 1);
}


/// Stated on the boxes' first corners: when no box lies less than ten
/// pixels above or below another box's first corner and further left of it,
/// the boxes come out ascending by first-corner `y`, and by first-corner `x`
/// where those are equal.
pub proof fn lemma_reading_order_by_first_corner<T>(s: Seq<(Quad, T)>)
    requires
        forall|a: (Quad, T), b: (Quad, T)|
            s.contains(a) && s.contains(b) ==> !(-10 < b.0[0].1 - a.0[0].1 < 10 && b.0[0].0 < a.0[0].0),
    ensures
        reading_order(s).len() == s.len(),
        forall|i: int, j: int|
            0 <= i < j < reading_order(s).len() ==> {
                let p = #[trigger] reading_order(s)[i].0[0];
                let q = #[trigger] reading_order(s)[j].0[0];
                p.1 < q.1 || (p.1 == q.1 && p.0 <= q.0)
            },
{
    assert forall|a: (Quad, T), b: (Quad, T)| s.contains(a) && s.contains(b) implies !same_row_left(a.0, b.0) by {
    }
    lemma_separate_rows_read_top_down(s);
    lemma_reading_order_permutes(s);
    let r = reading_order(s);
    assert forall|i: int, j: int| 0 <= i < j < r.len() implies {
        let p = #[trigger] r[i].0[0];
        let q = #[trigger] r[j].0[0];
        p.1 < q.1 || (p.1 == q.1 && p.0 <= q.0)
    } by {
        assert(key_le(r[i].0, r[j].0));
    }
}

} // verus!
