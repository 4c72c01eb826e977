//! Ordering of `(index, size)` items by size, largest first, as the treemap
//! layout and the largest-directory listing need it.

use vstd::prelude::*;

verus! {

/// The first position in `out` holding a size smaller than `size` (or the end).
pub open spec fn insert_pos(out: Seq<(usize, u64)>, size: u64) -> int
    decreases out.len(),
{
    if out.len() == 0 {
        0
    } else if out.last().1 < size {
        insert_pos(out.drop_last(), size)
    } else {
        out.len() as int
    }
}

/// `out` with `x` placed after every item at least as large.
pub open spec fn insert_desc(out: Seq<(usize, u64)>, x: (usize, u64)) -> Seq<(usize, u64)> {
    let p = insert_pos(out, x.1);
    out.take(p) + seq![x] + out.skip(p)
}

/// `s` ordered by size, largest first; items of equal size keep their order.
pub open spec fn sorted_by_size(s: Seq<(usize, u64)>) -> Seq<(usize, u64)>
    decreases s.len(),
{
    if s.len() == 0 {
        s
    } else {
        insert_desc(sorted_by_size(s.drop_last()), s.last())
    }
}

/// The items of `s` of size `v`, in order.
pub open spec fn with_size(s: Seq<(usize, u64)>, v: u64) -> Seq<(usize, u64)>
    decreases s.len(),
{
    if s.len() == 0 {
        s
    } else if s.last().1 == v {
        with_size(s.drop_last(), v).push(s.last())
    } else {
        with_size(s.drop_last(), v)
    }
}

/// The items of `s` whose size is not zero, in order.
pub open spec fn nonempty_items(s: Seq<(usize, u64)>) -> Seq<(usize, u64)>
    decreases s.len(),
{
    if s.len() == 0 {
        s
    } else if s.last().1 > 0 {
        nonempty_items(s.drop_last()).push(s.last())
    } else {
        nonempty_items(s.drop_last())
    }
}

/// Sizes never grow along `s`.
pub open spec fn sizes_descending(s: Seq<(usize, u64)>) -> bool {
    forall|a: int, b: int| 0 <= a < b < s.len() ==> s[a].1 >= s[b].1
}

/// The sum of the sizes in `s`.
pub open spec fn size_sum(s: Seq<(usize, u64)>) -> int
    decreases s.len(),
{
    if s.len() == 0 {
        0
    } else {
        size_sum(s.drop_last()) + s.last().1
    }
}

proof fn lemma_insert_pos(out: Seq<(usize, u64)>, size: u64)
    requires
        sizes_descending(out),
    ensures
        0 <= insert_pos(out, size) <= out.len(),
        forall|a: int| 0 <= a < insert_pos(out, size) ==> #[trigger] out[a].1 >= size,
        forall|a: int| insert_pos(out, size) <= a < out.len() ==> #[trigger] out[a].1 < size,
    decreases out.len(),
{
    if out.len() > 0 && out.last().1 < size {
        let d = out.drop_last();
        assert(sizes_descending(d));
        lemma_insert_pos(d, size);
        assert forall|a: int| 0 <= a < insert_pos(out, size) implies #[trigger] out[a].1 >= size by {
            assert(out[a] == d[a]);
        }
        assert forall|a: int| insert_pos(out, size) <= a < out.len() implies #[trigger] out[a].1 < size by {
            if a < out.len() - 1 {
                assert(out[a] == d[a]);
            }
        }
    } else if out.len() > 0 {
        assert forall|a: int| 0 <= a < out.len() implies #[trigger] out[a].1 >= size by {
            assert(out[a].1 >= out.last().1);
        }
    }
}

proof fn lemma_with_size_add(a: Seq<(usize, u64)>, b: Seq<(usize, u64)>, v: u64)
    ensures
        with_size(a + b, v) == with_size(a, v) + with_size(b, v),
    decreases b.len(),
{
    if b.len() == 0 {
        assert(a + b =~= a);
        assert(with_size(a, v) + with_size(b, v) =~= with_size(a, v));
    } else {
        lemma_with_size_add(a, b.drop_last(), v);
        assert((a + b).drop_last() =~= a + b.drop_last());
        assert((a + b).last() == b.last());
        if b.last().1 == v {
            assert(with_size(a, v) + with_size(b.drop_last(), v).push(b.last()) =~= (with_size(a, v)
                + with_size(b.drop_last(), v)).push(b.last()));
        }
    }
}

proof fn lemma_with_size_none(b: Seq<(usize, u64)>, v: u64)
    requires
        forall|a: int| 0 <= a < b.len() ==> #[trigger] b[a].1 != v,
    ensures
        with_size(b, v) == Seq::<(usize, u64)>::empty(),
    decreases b.len(),
{
    if b.len() > 0 {
        let d = b.drop_last();
        assert forall|a: int| 0 <= a < d.len() implies #[trigger] d[a].1 != v by {
            assert(d[a] == b[a]);
        }
        lemma_with_size_none(d, v);
    }
}

/// Placing an item keeps sizes descending and adds it after the items of its
/// size already placed.
proof fn lemma_insert_desc(out: Seq<(usize, u64)>, x: (usize, u64))
    requires
        sizes_descending(out),
    ensures
        sizes_descending(insert_desc(out, x)),
        insert_desc(out, x).len() == out.len() + 1,
        forall|v: u64| #[trigger] with_size(insert_desc(out, x), v) == if x.1 == v {
            with_size(out, v).push(x)
        } else {
            with_size(out, v)
        },
{
    let p = insert_pos(out, x.1);
    lemma_insert_pos(out, x.1);
    let r = insert_desc(out, x);
    let lo = out.take(p);
    let hi = out.skip(p);
    assert(lo + hi =~= out);
    assert forall|a: int, b: int| 0 <= a < b < r.len() implies r[a].1 >= r[b].1 by {
        if b < p {
            assert(r[a] == out[a] && r[b] == out[b]);
        } else if b == p {
            assert(r[b] == x);
            assert(r[a] == out[a]);
        } else if a < p {
            assert(r[a] == out[a] && r[b] == out[b - 1]);
        } else if a == p {
            assert(r[a] == x && r[b] == out[b - 1]);
        } else {
            assert(r[a] == out[a - 1] && r[b] == out[b - 1]);
        }
    }
    assert forall|v: u64| #[trigger] with_size(insert_desc(out, x), v) == if x.1 == v {
        with_size(out, v).push(x)
    } else {
        with_size(out, v)
    } by {
        lemma_with_size_add(lo + seq![x], hi, v);
        lemma_with_size_add(lo, seq![x], v);
        lemma_with_size_add(lo, hi, v);
        assert(seq![x].drop_last() =~= Seq::<(usize, u64)>::empty());
        assert(with_size(Seq::<(usize, u64)>::empty(), v) == Seq::<(usize, u64)>::empty());
        assert(with_size(seq![x], v) == if x.1 == v { seq![x] } else { Seq::<(usize, u64)>::empty() });
        assert(insert_desc(out, x) == lo + seq![x] + hi);
        if x.1 == v {
            assert forall|a: int| 0 <= a < hi.len() implies #[trigger] hi[a].1 != v by {
                assert(hi[a] == out[p + a]);
            }
            lemma_with_size_none(hi, v);
            assert(with_size(lo, v) + Seq::<(usize, u64)>::empty() =~= with_size(lo, v));
            assert(with_size(lo, v) + seq![x] + Seq::<(usize, u64)>::empty() =~= with_size(lo, v).push(x));
        } else {
            assert(with_size(lo, v) + Seq::<(usize, u64)>::empty() =~= with_size(lo, v));
        }
    }
}

/// The order by size is descending, keeps every item, and keeps the order of
/// items of equal size (a stable sort).
pub proof fn lemma_sorted_by_size(s: Seq<(usize, u64)>)
    ensures
        sizes_descending(sorted_by_size(s)),
        sorted_by_size(s).len() == s.len(),
        forall|v: u64| #[trigger] with_size(sorted_by_size(s), v) == with_size(s, v),
    decreases s.len(),
{
    if s.len() > 0 {
        lemma_sorted_by_size(s.drop_last());
        lemma_insert_desc(sorted_by_size(s.drop_last()), s.last());
    }
}

/// Orders `items` by size, largest first, keeping the order of equal sizes.
pub fn sort_by_size_desc(items: Vec<(usize, u64)>) -> (out: Vec<(usize, u64)>)
    ensures
        out@ == sorted_by_size(items@),
{
    let mut out: Vec<(usize, u64)> = Vec::new();
    let mut k: usize = 0;
    while k < items.len()
        invariant
            k <= items@.len(),
            out@ == sorted_by_size(items@.take(k as int)),
            sizes_descending(out@),
            out@.len() == k,
        decreases items@.len() - k,
    {
        let x = items[k];
        assert(items@.take(k + 1).drop_last() =~= items@.take(k as int));
        proof {
            lemma_insert_pos(out@, x.1);
            lemma_insert_desc(out@, x);
        }
        let mut p: usize = out.len();
        assert(out@.take(p as int) =~= out@);
        while p > 0 && out[p - 1].1 < x.1
            invariant
                p <= out@.len(),
                insert_pos(out@, x.1) == insert_pos(out@.take(p as int), x.1),
            decreases p,
        {
            assert(out@.take(p as int).drop_last() =~= out@.take(p - 1));
            p = p - 1;
        }
        assert(out@.take(p as int).len() == p);
        proof {
            if p > 0 {
                assert(out@.take(p as int).last() == out@[p - 1]);
            }
        }
        assert(insert_pos(out@, x.1) == p);
        let ghost before = out@;
        out.insert(p, x);
        assert(out@ =~= before.take(p as int) + seq![x] + before.skip(p as int));
        k = k + 1;
    }
    assert(items@.take(k as int) =~= items@);
    out
}

/// The items of nonzero size, in order.
pub fn drop_empty(items: Vec<(usize, u64)>) -> (out: Vec<(usize, u64)>)
    ensures
        out@ == nonempty_items(items@),
{
    let mut out: Vec<(usize, u64)> = Vec::new();
    let mut k: usize = 0;
    while k < items.len()
        invariant
            k <= items@.len(),
            out@ == nonempty_items(items@.take(k as int)),
        decreases items@.len() - k,
    {
        assert(items@.take(k + 1).drop_last() =~= items@.take(k as int));
        if items[k].1 > 0 {
            out.push(items[k]);
        }
        k = k + 1;
    }
    assert(items@.take(k as int) =~= items@);
    out
}

/// The order in which the treemap lays out one level: items of size zero are
/// dropped, the rest ordered by size, largest first, equal sizes in their
/// given order.
pub fn squarify_order(items: Vec<(usize, u64)>) -> (out: Vec<(usize, u64)>)
    ensures
        out@ == sorted_by_size(nonempty_items(items@)),
{
    sort_by_size_desc(drop_empty(items))
}

/// The sum of the sizes of `items`.
pub fn total_size(items: &Vec<(usize, u64)>) -> (total: u128)
    ensures
        total == size_sum(items@),
{
    let mut total: u128 = 0;
    let mut k: usize = 0;
    while k < items.len()
        invariant
            k <= items@.len(),
            total == size_sum(items@.take(k as int)),
            total <= k * 0xffff_ffff_ffff_ffffu64,
        decreases items@.len() - k,
    {
        assert(items@.take(k + 1).drop_last() =~= items@.take(k as int));
        assert(total + items@[k as int].1 <= (k + 1) * 0xffff_ffff_ffff_ffffu64) by (nonlinear_arith)
            requires
                total <= k * 0xffff_ffff_ffff_ffffu64,
                items@[k as int].1 <= 0xffff_ffff_ffff_ffffu64,
        ;
        assert((k + 1) * 0xffff_ffff_ffff_ffffu64 <= 0x1_0000_0000_0000_0000 * 0xffff_ffff_ffff_ffffu64) by (nonlinear_arith)
            requires
                k + 1 <= 0x1_0000_0000_0000_0000,
        ;
        total = total + items[k].1 as u128;
        k = k + 1;
    }
    assert(items@.take(k as int) =~= items@);
    total
}

} // verus!
