//! What the tree holds when the entry stream keeps the wire protocol.

use crate::model::{
    dir_items, first_n, all_walks_end, ancestors, as_ints, chain, extend_ok, Tree, id_index, kids, lemma_add_once, lemma_chain_fuel, lemma_id_index,
    lemma_kids_members, lemma_subtree_model_len, link, path_names, path_parts, path_text, push_ok, subtree_model,
    walk_ends, walk_stops,
};
use crate::text::{collapse_slashes, join};
use crate::order::{lemma_sorted_by_size, sorted_by_size, with_size};
use crate::wire::{Entry, KIND_DIR};
use vstd::prelude::*;

verus! {

/// The stream keeps the protocol: ids are distinct, and no entry names as its
/// parent an entry that comes after it (a root names itself; a parent id that
/// no entry carries leaves the entry without a parent).
pub open spec fn follows_protocol(s: Seq<Entry>) -> bool {
    &&& forall|a: int, b: int| 0 <= a < b < s.len() ==> s[a].id != s[b].id
    &&& forall|m: int, j: int|
        0 <= m < s.len() && 0 <= j < s.len() && m != j && #[trigger] s[m].id == #[trigger] s[j].parent_id
            ==> m < j
}

/// Entry `j` lies in the subtree of entry `k` (`k` is `j` or one of its ancestors).
pub open spec fn descends(s: Seq<Entry>, j: int, k: int) -> bool {
    j == k || ancestors(s, id_index(s), j).contains(k)
}

/// The sizes of the first `upto` entries that lie in the subtree of `k`, added up.
pub open spec fn size_below_upto(s: Seq<Entry>, k: int, upto: int) -> int
    decreases upto,
{
    if upto <= 0 {
        0
    } else {
        size_below_upto(s, k, upto - 1) + if descends(s, upto - 1, k) {
            s[upto - 1].size as int
        } else {
            0
        }
    }
}

/// The sizes of all entries in the subtree of `k`, added up.
pub open spec fn size_below(s: Seq<Entry>, k: int) -> int {
    size_below_upto(s, k, s.len() as int)
}

/// The sizes of the first `upto` entries, added up.
pub open spec fn total_size_upto(s: Seq<Entry>, upto: int) -> int
    decreases upto,
{
    if upto <= 0 {
        0
    } else {
        total_size_upto(s, upto - 1) + s[upto - 1].size as int
    }
}

/// `c` is strictly decreasing.
pub open spec fn strictly_decreasing(c: Seq<int>) -> bool {
    forall|a: int, b: int| 0 <= a < b < c.len() ==> c[a] > c[b]
}

/// Under the protocol every link leads to an earlier entry.
proof fn lemma_links_go_back(s: Seq<Entry>, j: int)
    requires
        follows_protocol(s),
        s.len() <= usize::MAX,
        0 <= j < s.len(),
    ensures
        link(s, id_index(s), j) matches Some(p) ==> 0 <= p < j,
{
    lemma_id_index(s);
    let ids = id_index(s);
    if let Some(p) = link(s, ids, j) {
        let pid = s[j].parent_id;
        assert(s[p].id == pid);
    }
}

/// Under the protocol the walk from `j` ends within `j` steps, visiting
/// strictly decreasing indices below `j`.
proof fn lemma_walk_back(s: Seq<Entry>, j: int, f: nat)
    requires
        follows_protocol(s),
        s.len() <= usize::MAX,
        0 <= j < s.len(),
        f >= j,
    ensures
        walk_stops(s, id_index(s), j, f),
        strictly_decreasing(chain(s, id_index(s), j, f)),
        forall|q: int| 0 <= q < chain(s, id_index(s), j, f).len() ==> 0 <= #[trigger] chain(
            s,
            id_index(s),
            j,
            f,
        )[q] < j,
    decreases j,
{
    let ids = id_index(s);
    lemma_links_go_back(s, j);
    if let Some(p) = link(s, ids, j) {
        lemma_walk_back(s, p, (f - 1) as nat);
        let rest = chain(s, ids, p, (f - 1) as nat);
        let c = chain(s, ids, j, f);
        assert(c == seq![p] + rest);
        assert forall|a: int, b: int| 0 <= a < b < c.len() implies c[a] > c[b] by {
            if a == 0 {
                assert(c[b] == rest[b - 1]);
            } else {
                assert(c[a] == rest[a - 1]);
                assert(c[b] == rest[b - 1]);
            }
        }
        assert forall|q: int| 0 <= q < c.len() implies 0 <= #[trigger] c[q] < j by {
            if q > 0 {
                assert(c[q] == rest[q - 1]);
            }
        }
    }
}

/// Pushing an entry that keeps the protocol leaves the links of the earlier
/// entries as they were.
proof fn lemma_old_chains_kept(s: Seq<Entry>, e: Entry, j: int, f: nat)
    requires
        follows_protocol(s.push(e)),
        s.len() < usize::MAX,
        0 <= j < s.len(),
    ensures
        chain(s.push(e), id_index(s.push(e)), j, f) == chain(s, id_index(s), j, f),
        walk_stops(s.push(e), id_index(s.push(e)), j, f) == walk_stops(s, id_index(s), j, f),
    decreases f,
{
    let s2 = s.push(e);
    let ids = id_index(s);
    let ids2 = id_index(s2);
    assert(s2.drop_last() =~= s);
    assert(ids2 == ids.insert(e.id, s.len() as usize));
    assert(s2[j] == s[j]);
    if s[j].parent_id == e.id {
        assert(s2[s.len() as int].id == s2[j].parent_id);
    }
    assert(link(s2, ids2, j) == link(s, ids, j));
    lemma_links_go_back(s2, j);
    if let Some(p) = link(s, ids, j) {
        if f > 0 {
            lemma_old_chains_kept(s, e, p, (f - 1) as nat);
        }
    }
}

proof fn lemma_protocol_prefix(s: Seq<Entry>)
    requires
        follows_protocol(s),
        s.len() > 0,
    ensures
        follows_protocol(s.drop_last()),
{
    let t = s.drop_last();
    assert forall|m: int, j: int|
        0 <= m < t.len() && 0 <= j < t.len() && m != j && #[trigger] t[m].id == #[trigger] t[j].parent_id
        implies m < j by {
        assert(s[m].id == s[j].parent_id);
    }
}

/// Under the protocol an entry's ancestors are strictly decreasing indices below it.
pub proof fn lemma_ancestors_shape(s: Seq<Entry>, j: int)
    requires
        follows_protocol(s),
        s.len() <= usize::MAX,
        0 <= j < s.len(),
    ensures
        walk_ends(s, id_index(s), j),
        ancestors(s, id_index(s), j) == chain(s, id_index(s), j, j as nat),
        strictly_decreasing(ancestors(s, id_index(s), j)),
        forall|q: int| 0 <= q < ancestors(s, id_index(s), j).len() ==> 0 <= #[trigger] ancestors(
            s,
            id_index(s),
            j,
        )[q] < j,
{
    let ids = id_index(s);
    lemma_walk_back(s, j, j as nat);
    let f = choose|f: nat| walk_stops(s, ids, j, f);
    lemma_chain_fuel(s, ids, j, f, j as nat);
}

proof fn lemma_sum_unchanged(s: Seq<Entry>, e: Entry, k: int, upto: int)
    requires
        follows_protocol(s.push(e)),
        s.len() < usize::MAX,
        0 <= upto <= s.len(),
    ensures
        size_below_upto(s.push(e), k, upto) == size_below_upto(s, k, upto),
    decreases upto,
{
    if upto > 0 {
        lemma_sum_unchanged(s, e, k, upto - 1);
        let j = upto - 1;
        let s2 = s.push(e);
        lemma_protocol_prefix(s2);
        assert(s2.drop_last() =~= s);
        lemma_ancestors_shape(s2, j);
        lemma_ancestors_shape(s, j);
        lemma_old_chains_kept(s, e, j, j as nat);
        assert(s2[j] == s[j]);
    }
}

/// Under the protocol, `subtree[k]` is the total size of the entries in the
/// subtree of `k`.
pub proof fn lemma_subtree_is_size_below(s: Seq<Entry>)
    requires
        follows_protocol(s),
        s.len() <= usize::MAX,
    ensures
        subtree_model(s).len() == s.len(),
        forall|k: int| 0 <= k < s.len() ==> #[trigger] subtree_model(s)[k] == size_below(s, k),
    decreases s.len(),
{
    lemma_subtree_model_len(s);
    if s.len() > 0 {
        let t = s.drop_last();
        let e = s.last();
        let n = t.len() as int;
        assert(t.push(e) =~= s);
        lemma_protocol_prefix(s);
        lemma_subtree_is_size_below(t);
        let size = e.size as int;
        let base = subtree_model(t).push(size);
        let anc = ancestors(s, id_index(s), n);
        lemma_ancestors_shape(s, n);
        assert forall|a: int, b: int| 0 <= a < b < anc.len() implies anc[a] != anc[b] by {
            assert(anc[a] > anc[b]);
        }
        lemma_add_once(base, anc, size);
        assert forall|k: int| 0 <= k < s.len() implies #[trigger] subtree_model(s)[k] == size_below(s, k) by {
            assert(subtree_model(s)[k] == base[k] + if anc.contains(k) {
                size
            } else {
                0
            });
            lemma_sum_unchanged(t, e, k, n);
            assert(size_below(s, k) == size_below_upto(s, k, n) + if descends(s, n, k) {
                size
            } else {
                0
            });
            if k < n {
                assert(base[k] == subtree_model(t)[k]);
            } else {
                assert(!anc.contains(k));
                lemma_nothing_below_last(s, n);
            }
        }
    }
}

/// Under the protocol no entry before the last lies in the last one's subtree.
proof fn lemma_nothing_below_last(s: Seq<Entry>, n: int)
    requires
        follows_protocol(s),
        s.len() <= usize::MAX,
        n == s.len() - 1,
        n >= 0,
    ensures
        size_below_upto(s, n, n) == 0,
{
    lemma_nothing_below_upto(s, n, n);
}

proof fn lemma_nothing_below_upto(s: Seq<Entry>, n: int, upto: int)
    requires
        follows_protocol(s),
        s.len() <= usize::MAX,
        n == s.len() - 1,
        0 <= upto <= n,
    ensures
        size_below_upto(s, n, upto) == 0,
    decreases upto,
{
    if upto > 0 {
        lemma_nothing_below_upto(s, n, upto - 1);
        let j = upto - 1;
        lemma_ancestors_shape(s, j);
        let anc = ancestors(s, id_index(s), j);
        if anc.contains(n) {
            let q = choose|q: int| 0 <= q < anc.len() && anc[q] == n;
            assert(anc[q] < j);
        }
    }
}


proof fn lemma_size_below_le_total(s: Seq<Entry>, k: int, upto: int)
    requires
        0 <= upto <= s.len(),
    ensures
        0 <= size_below_upto(s, k, upto) <= total_size_upto(s, upto),
    decreases upto,
{
    if upto > 0 {
        lemma_size_below_le_total(s, k, upto - 1);
    }
}

proof fn lemma_total_prefix(s: Seq<Entry>, m: int, upto: int)
    requires
        0 <= upto <= m <= s.len(),
    ensures
        total_size_upto(s.take(m), upto) == total_size_upto(s, upto),
        total_size_upto(s, upto) <= total_size_upto(s, m),
    decreases m,
{
    if upto < m {
        lemma_total_prefix(s, m - 1, upto);
        assert(total_size_upto(s, m) == total_size_upto(s, m - 1) + s[m - 1].size as int);
        assert(s.take(m).take(m - 1) =~= s.take(m - 1));
        lemma_total_prefix_same(s.take(m), m - 1, upto);
    } else {
        lemma_total_prefix_same(s, m, upto);
    }
}

proof fn lemma_total_prefix_same(s: Seq<Entry>, m: int, upto: int)
    requires
        0 <= upto <= m <= s.len(),
    ensures
        total_size_upto(s.take(m), upto) == total_size_upto(s, upto),
    decreases upto,
{
    if upto > 0 {
        lemma_total_prefix_same(s, m, upto - 1);
        assert(s.take(m)[upto - 1] == s[upto - 1]);
    }
}

proof fn lemma_protocol_take(s: Seq<Entry>, m: int)
    requires
        follows_protocol(s),
        0 <= m <= s.len(),
    ensures
        follows_protocol(s.take(m)),
{
    let t = s.take(m);
    assert forall|a: int, b: int| 0 <= a < b < t.len() implies t[a].id != t[b].id by {
        assert(t[a] == s[a] && t[b] == s[b]);
    }
    assert forall|x: int, j: int|
        0 <= x < t.len() && 0 <= j < t.len() && x != j && #[trigger] t[x].id == #[trigger] t[j].parent_id
        implies x < j by {
        assert(s[x].id == s[j].parent_id);
    }
}

/// An entry that keeps the protocol can always be pushed, as long as all sizes
/// together fit in a `u64`.
pub proof fn lemma_protocol_push_ok(s: Seq<Entry>, e: Entry)
    requires
        follows_protocol(s.push(e)),
        s.len() < usize::MAX,
        total_size_upto(s.push(e), s.len() + 1int) <= u64::MAX,
    ensures
        push_ok(s, e),
{
    let s2 = s.push(e);
    lemma_ancestors_shape(s2, s.len() as int);
    lemma_subtree_is_size_below(s2);
    assert forall|x: int| 0 <= x < s2.len() implies #[trigger] subtree_model(s2)[x] <= u64::MAX by {
        lemma_size_below_le_total(s2, x, s2.len() as int);
    }
}

/// A stream that keeps the protocol, and whose sizes together fit in a `u64`,
/// can be pushed entry after entry.
pub proof fn lemma_protocol_extend_ok(s: Seq<Entry>, es: Seq<Entry>)
    requires
        follows_protocol(s + es),
        s.len() + es.len() <= usize::MAX,
        total_size_upto(s + es, (s.len() + es.len()) as int) <= u64::MAX,
    ensures
        extend_ok(s, es),
    decreases es.len(),
{
    if es.len() > 0 {
        let all = s + es;
        let s1 = s.push(es[0]);
        let m = s.len() + 1int;
        assert(all.take(m) =~= s1);
        lemma_protocol_take(all, m);
        lemma_total_prefix(all, m, m);
        lemma_total_prefix(all, all.len() as int, m);
        lemma_protocol_push_ok(s, es[0]);
        assert(s1 + es.drop_first() =~= all);
        lemma_protocol_extend_ok(s1, es.drop_first());
    }
}


/// Under the protocol, the children listed for entry `k` are exactly the
/// entries whose parent link leads to `k`.
pub proof fn lemma_children_are_linked(s: Seq<Entry>, k: int, j: int)
    requires
        follows_protocol(s),
        s.len() <= usize::MAX,
        0 <= k < s.len(),
        0 <= j < s.len(),
    ensures
        kids(s, s[k].id).contains(j as usize) <==> link(s, id_index(s), j) == Some(k),
{
    let ids = id_index(s);
    lemma_id_index(s);
    lemma_kids_members(s, s[k].id);
    assert(ids.contains_key(s[k].id));
    let m = ids[s[k].id] as int;
    if m != k {
        assert(s[m].id == s[k].id);
    }
    assert(ids[s[k].id] == k);
    if link(s, ids, j) == Some(k) {
        assert(s[j].parent_id == s[k].id);
        if s[j].id == s[k].id {
            assert(j != k);
        }
    }
}

/// A path never holds two slashes side by side.
pub proof fn lemma_path_has_no_double_slash(s: Seq<Entry>, k: int)
    ensures
        forall|i: int|
            0 <= i < path_text(s, k).len() - 1 ==> !(#[trigger] path_text(s, k)[i] == '/' && path_text(
                s,
                k,
            )[i + 1] == '/'),
{
    crate::text::lemma_collapse_slashes(join(path_names(s, k), '/'));
}


/// Under the protocol, the path of an entry does not change as later entries
/// arrive.
pub proof fn lemma_paths_stable(s: Seq<Entry>, e: Entry, j: int)
    requires
        follows_protocol(s.push(e)),
        s.len() < usize::MAX,
        0 <= j < s.len(),
    ensures
        path_text(s.push(e), j) == path_text(s, j),
{
    let s2 = s.push(e);
    lemma_protocol_prefix(s2);
    assert(s2.drop_last() =~= s);
    lemma_ancestors_shape(s2, j);
    lemma_ancestors_shape(s, j);
    lemma_old_chains_kept(s, e, j, j as nat);
    let parts = path_parts(s, j);
    assert(path_parts(s2, j) == parts);
    assert forall|q: int| 0 <= q < parts.len() implies 0 <= #[trigger] parts[q] < s.len() by {
        if q > 0 {
            assert(parts[q] == ancestors(s, id_index(s), j)[q - 1]);
        }
    }
    assert forall|m: int| 0 <= m < path_names(s, j).len() implies #[trigger] path_names(s2, j)[m] == path_names(s, j)[m] by {
        let x = parts[parts.len() - 1 - m];
        assert(s2[x] == s[x]);
    }
    assert(path_names(s2, j) =~= path_names(s, j));
}


/// The path of an entry without a parent link (a root, or an entry whose
/// parent id is unknown) is its name with each run of slashes made one; the
/// path of any other entry is its parent's path, a slash and its name, with
/// each run of slashes made one.
pub proof fn lemma_path_of_child(s: Seq<Entry>, j: int)
    requires
        s.len() <= usize::MAX,
        0 <= j < s.len(),
        all_walks_end(s),
    ensures
        match link(s, id_index(s), j) {
            None => path_text(s, j) == collapse_slashes(s[j].name@),
            Some(p) => path_text(s, j) == collapse_slashes(path_text(s, p) + seq!['/'] + s[j].name@),
        },
{
    let ids = id_index(s);
    assert(walk_ends(s, ids, j));
    let f = choose|f: nat| walk_stops(s, ids, j, f);
    let x = s[j].name@;
    match link(s, ids, j) {
        None => {
            assert(ancestors(s, ids, j) =~= Seq::<int>::empty());
            assert(path_parts(s, j) =~= seq![j]);
            assert(path_names(s, j) =~= seq![x]);
        },
        Some(p) => {
            lemma_id_index(s);
            assert(walk_stops(s, ids, p, (f - 1) as nat));
            assert(walk_ends(s, ids, p));
            let fp = choose|g: nat| walk_stops(s, ids, p, g);
            lemma_chain_fuel(s, ids, p, (f - 1) as nat, fp);
            assert(ancestors(s, ids, j) == seq![p] + ancestors(s, ids, p));
            let pj = path_parts(s, j);
            let pp = path_parts(s, p);
            assert(pj =~= seq![j] + pp);
            let nj = path_names(s, j);
            let np = path_names(s, p);
            assert forall|m: int| 0 <= m < nj.len() implies #[trigger] nj[m] == np.push(x)[m] by {
                if m < np.len() {
                    assert(pj[pj.len() - 1 - m] == pp[pp.len() - 1 - m]);
                } else {
                    assert(pj[pj.len() - 1 - m] == j);
                }
            }
            assert(nj =~= np.push(x));
            assert(np.push(x).drop_last() =~= np);
            assert(join(nj, '/') == join(np, '/').push('/') + x);
            crate::text::lemma_collapse_prefix(join(np, '/'), seq!['/'] + x);
            assert(join(np, '/').push('/') + x =~= join(np, '/') + (seq!['/'] + x));
            assert(path_text(s, p) + seq!['/'] + x =~= collapse_slashes(join(np, '/')) + (seq!['/'] + x));
        },
    }
}


/// Pushing `a + b` is allowed exactly when pushing `a` is, and then pushing
/// `b` after it is: how the stream is cut into batches does not decide
/// whether it can be taken.
pub proof fn lemma_extend_ok_split(s: Seq<Entry>, a: Seq<Entry>, b: Seq<Entry>)
    ensures
        extend_ok(s, a + b) == (extend_ok(s, a) && extend_ok(s + a, b)),
    decreases a.len(),
{
    if a.len() == 0 {
        assert(a + b =~= b);
        assert(s + a =~= s);
    } else {
        let s1 = s.push(a[0]);
        assert((a + b)[0] == a[0]);
        assert((a + b).drop_first() =~= a.drop_first() + b);
        lemma_extend_ok_split(s1, a.drop_first(), b);
        assert(s1 + a.drop_first() =~= s + a);
    }
}

/// Two well-formed trees holding the same entries agree in every field:
/// subtree sizes, id index and children. Since `extend` fixes the entries as
/// the old ones followed by the batch, a stream gives the same tree however
/// it is cut into batches, and the same as pushing its entries one by one.
pub proof fn lemma_tree_determined_by_entries(t1: Tree, t2: Tree)
    requires
        t1.wf(),
        t2.wf(),
        t1.entries@ == t2.entries@,
    ensures
        t1.subtree@ == t2.subtree@,
        t1.id_to_index@ == t2.id_to_index@,
        t1.children@.dom() == t2.children@.dom(),
        forall|p: u32| #[trigger] t1.children@.contains_key(p) ==> t1.children@[p]@ == t2.children@[p]@,
{
    assert forall|k: int| 0 <= k < t1.subtree@.len() implies #[trigger] t1.subtree@[k] == t2.subtree@[k] by {
        assert(as_ints(t1.subtree@)[k] == as_ints(t2.subtree@)[k]);
    }
    assert(t1.subtree@ =~= t2.subtree@);
    assert(t1.children@.dom() =~= t2.children@.dom());
}

/// Taking a stream as the batch `a` and then the batch `b` leaves the same tree
/// as taking it as the one batch `a + b`: `t1` is what the two calls of
/// `extend` leave, `t2` what the one call leaves, both from the same tree
/// holding `s`.
pub proof fn lemma_batches_make_same_tree(s: Seq<Entry>, a: Seq<Entry>, b: Seq<Entry>, t1: Tree, t2: Tree)
    requires
        t1.wf(),
        t2.wf(),
        t1.entries@ == (s + a) + b,
        t2.entries@ == s + (a + b),
    ensures
        t1.entries@ == t2.entries@,
        t1.subtree@ == t2.subtree@,
        t1.id_to_index@ == t2.id_to_index@,
        t1.children@.dom() == t2.children@.dom(),
        forall|p: u32| #[trigger] t1.children@.contains_key(p) ==> t1.children@[p]@ == t2.children@[p]@,
{
    assert((s + a) + b =~= s + (a + b));
    lemma_tree_determined_by_entries(t1, t2);
}

/// `x` is among the items of `s` exactly when it is among those of its size.
proof fn lemma_with_size_contains(s: Seq<(usize, u64)>, x: (usize, u64))
    ensures
        s.contains(x) <==> with_size(s, x.1).contains(x),
    decreases s.len(),
{
    if s.len() > 0 {
        lemma_with_size_contains(s.drop_last(), x);
        let w = with_size(s.drop_last(), x.1);
        if s.contains(x) {
            let k = choose|k: int| 0 <= k < s.len() && s[k] == x;
            if k < s.len() - 1 {
                assert(s.drop_last()[k] == x);
            }
        }
        if s.last().1 == x.1 {
            assert(w.push(s.last())[w.len() as int] == s.last());
            if w.push(s.last()).contains(x) {
                let k = choose|k: int| 0 <= k < w.len() + 1 && w.push(s.last())[k] == x;
                if k < w.len() {
                    assert(w[k] == x);
                }
            }
            if w.contains(x) {
                let k = choose|k: int| 0 <= k < w.len() && w[k] == x;
                assert(w.push(s.last())[k] == x);
            }
        }
        if s.drop_last().contains(x) {
            let k = choose|k: int| 0 <= k < s.len() - 1 && s.drop_last()[k] == x;
            assert(s[k] == x);
        }
        assert(s[s.len() - 1] == s.last());
    }
}

/// Sorting by size keeps exactly the items it was given.
proof fn lemma_sorted_contains(s: Seq<(usize, u64)>, x: (usize, u64))
    ensures
        s.contains(x) <==> sorted_by_size(s).contains(x),
{
    lemma_sorted_by_size(s);
    lemma_with_size_contains(s, x);
    lemma_with_size_contains(sorted_by_size(s), x);
    assert(with_size(sorted_by_size(s), x.1) == with_size(s, x.1));
}

/// The candidates for the largest-directories listing of the first `n`
/// entries are exactly the directories among them, each with its subtree
/// size, in push order.
pub proof fn lemma_dir_items(s: Seq<Entry>, sub: Seq<u64>, n: int)
    requires
        0 <= n <= s.len(),
        s.len() <= usize::MAX,
        sub.len() == s.len(),
    ensures
        forall|k: int| 0 <= k < dir_items(s, sub, n).len() ==> {
            let (i, size) = #[trigger] dir_items(s, sub, n)[k];
            &&& i < n
            &&& s[i as int].kind == KIND_DIR
            &&& size == sub[i as int]
        },
        forall|a: int, b: int|
            0 <= a < b < dir_items(s, sub, n).len() ==> #[trigger] dir_items(s, sub, n)[a].0 < #[trigger] dir_items(
                s,
                sub,
                n,
            )[b].0,
        forall|i: int| 0 <= i < n && #[trigger] s[i].kind == KIND_DIR ==> dir_items(s, sub, n).contains(
            (i as usize, sub[i]),
        ),
    decreases n,
{
    if n > 0 {
        lemma_dir_items(s, sub, n - 1);
        let d = dir_items(s, sub, n - 1);
        if s[n - 1].kind == KIND_DIR {
            let x = ((n - 1) as usize, sub[n - 1]);
            let e = dir_items(s, sub, n);
            assert(e == d.push(x));
            assert(e[d.len() as int] == x);
            assert forall|k: int| 0 <= k < d.len() implies #[trigger] e[k] == d[k] by {}
            assert forall|k: int| 0 <= k < e.len() implies {
                let (i, size) = #[trigger] e[k];
                &&& i < n
                &&& s[i as int].kind == KIND_DIR
                &&& size == sub[i as int]
            } by {
                if k < d.len() {
                    assert(e[k] == d[k]);
                }
            }
            assert forall|a: int, b: int| 0 <= a < b < e.len() implies #[trigger] e[a].0 < #[trigger] e[b].0 by {
                assert(e[a] == d[a]);
                if b < d.len() {
                    assert(e[b] == d[b]);
                } else {
                    assert(d[a].0 < n - 1);
                }
            }
            assert forall|i: int| 0 <= i < n && #[trigger] s[i].kind == KIND_DIR implies dir_items(
                s,
                sub,
                n,
            ).contains((i as usize, sub[i])) by {
                if i < n - 1 {
                    let k = choose|k: int| 0 <= k < d.len() && d[k] == (i as usize, sub[i]);
                    assert(d.push(x)[k] == d[k]);
                }
            }
        }
    }
}

/// What `Tree::largest_dirs` lists: only directories, each with its subtree
/// size, largest first; and every directory left out is no
/// larger than any listed one, left out only because `top` were listed.
pub proof fn lemma_largest_dirs_listing(t: Tree, top: nat)
    requires
        t.wf(),
    ensures
        ({
            let n = t.entries@.len() as int;
            let r = first_n(sorted_by_size(dir_items(t.entries@, t.subtree@, n)), top);
            &&& r.len() <= top
            &&& forall|k: int| 0 <= k < r.len() ==> {
                let (i, size) = #[trigger] r[k];
                &&& i < n
                &&& t.entries@[i as int].kind == KIND_DIR
                &&& size == t.subtree@[i as int]
            }
            &&& forall|a: int, b: int| 0 <= a < b < r.len() ==> #[trigger] r[a].1 >= #[trigger] r[b].1
            &&& forall|i: int|
                0 <= i < n && #[trigger] t.entries@[i].kind == KIND_DIR && (forall|k: int|
                    0 <= k < r.len() ==> r[k].0 != i) ==> r.len() == top && forall|k: int|
                    0 <= k < r.len() ==> r[k].1 >= t.subtree@[i]
        }),
{
    let s = t.entries@;
    let sub = t.subtree@;
    let n = s.len() as int;
    let d = dir_items(s, sub, n);
    let sd = sorted_by_size(d);
    let r = first_n(sd, top);
    lemma_dir_items(s, sub, n);
    lemma_sorted_by_size(d);
    assert forall|k: int| 0 <= k < sd.len() implies {
        let (i, size) = #[trigger] sd[k];
        &&& i < n
        &&& s[i as int].kind == KIND_DIR
        &&& size == sub[i as int]
    } by {
        lemma_sorted_contains(d, sd[k]);
        assert(sd.contains(sd[k]));
        let m = choose|m: int| 0 <= m < d.len() && d[m] == sd[k];
        assert(d[m] == sd[k]);
    }
    assert forall|k: int| 0 <= k < r.len() implies #[trigger] r[k] == sd[k] by {}
    assert forall|i: int|
        0 <= i < n && #[trigger] s[i].kind == KIND_DIR && (forall|k: int| 0 <= k < r.len() ==> r[k].0 != i)
        implies r.len() == top && forall|k: int| 0 <= k < r.len() ==> r[k].1 >= sub[i] by {
        let x = (i as usize, sub[i]);
        assert(d.contains(x));
        lemma_sorted_contains(d, x);
        let p = choose|p: int| 0 <= p < sd.len() && sd[p] == x;
        if p < r.len() {
            assert(r[p] == sd[p]);
            assert(r[p].0 == i);
        }
        assert forall|k: int| 0 <= k < r.len() implies r[k].1 >= sub[i] by {
            assert(r[k] == sd[k]);
            assert(sd[k].1 >= sd[p].1);
        }
    }
}

} // verus!
