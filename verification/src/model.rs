//! In-memory tree built incrementally from the scanner's entry stream.
//!
//! Each pushed entry is linked to its parent through the parent's id; the
//! size of every entry is added to each ancestor reached from it when it
//! arrives, so `subtree[k]` holds the total size below entry `k`.

use crate::order::{sort_by_size_desc, sorted_by_size};
use crate::text::{append_chars, collapse_slashes, collapse_slashes_of, join};
use crate::wire::{Entry, KIND_DIR};
use std::collections::HashMap;
use vstd::prelude::*;

verus! {

broadcast use vstd::std_specs::hash::group_hash_axioms;

/// In-memory tree built incrementally from the scanner's wire stream.
pub struct Tree {
    pub entries: Vec<Entry>,
    pub subtree: Vec<u64>,
    pub id_to_index: HashMap<u32, usize>,
    pub children: HashMap<u32, Vec<usize>>,
}

// ---------------------------------------------------------------------------
// The model: everything in a tree is a function of the pushed entries.
// ---------------------------------------------------------------------------

/// For each id, the index of the last entry that carries it.
pub open spec fn id_index(s: Seq<Entry>) -> Map<u32, usize>
    decreases s.len(),
{
    if s.len() == 0 {
        Map::empty()
    } else {
        id_index(s.drop_last()).insert(s.last().id, (s.len() - 1) as usize)
    }
}

/// The entry that entry `k` hangs below: the one its `parent_id` names, unless
/// that id is unknown or names `k` itself (a root).
pub open spec fn link(s: Seq<Entry>, ids: Map<u32, usize>, k: int) -> Option<int> {
    if ids.contains_key(s[k].parent_id) && ids[s[k].parent_id] != k {
        Some(ids[s[k].parent_id] as int)
    } else {
        None
    }
}

/// Following links from `k` reaches an entry without a link within `fuel` steps.
pub open spec fn walk_stops(s: Seq<Entry>, ids: Map<u32, usize>, k: int, fuel: nat) -> bool
    decreases fuel,
{
    match link(s, ids, k) {
        None => true,
        Some(p) => fuel > 0 && walk_stops(s, ids, p, (fuel - 1) as nat),
    }
}

/// The entries visited by following links from `k`, at most `fuel` of them.
pub open spec fn chain(s: Seq<Entry>, ids: Map<u32, usize>, k: int, fuel: nat) -> Seq<int>
    decreases fuel,
{
    match link(s, ids, k) {
        None => Seq::empty(),
        Some(p) => if fuel == 0 {
            Seq::empty()
        } else {
            seq![p] + chain(s, ids, p, (fuel - 1) as nat)
        },
    }
}

/// Following links from `k` ends (the parent links from `k` hold no cycle).
pub open spec fn walk_ends(s: Seq<Entry>, ids: Map<u32, usize>, k: int) -> bool {
    exists|f: nat| walk_stops(s, ids, k, f)
}

/// The ancestors of `k` in the order the parent links visit them.
pub open spec fn ancestors(s: Seq<Entry>, ids: Map<u32, usize>, k: int) -> Seq<int> {
    chain(s, ids, k, choose|f: nat| walk_stops(s, ids, k, f))
}

/// `t` with `size` added at each position of `c`, once per occurrence.
pub open spec fn add_to_each(t: Seq<int>, c: Seq<int>, size: int) -> Seq<int>
    decreases c.len(),
{
    if c.len() == 0 {
        t
    } else if 0 <= c[0] < t.len() {
        add_to_each(t.update(c[0], t[c[0]] + size), c.drop_first(), size)
    } else {
        add_to_each(t, c.drop_first(), size)
    }
}

/// The subtree sizes after pushing the entries of `s` in order: each entry
/// starts with its own size, which is added to every ancestor found for it
/// at the moment it arrives.
pub open spec fn subtree_model(s: Seq<Entry>) -> Seq<int>
    decreases s.len(),
{
    if s.len() == 0 {
        Seq::empty()
    } else {
        let size = s.last().size as int;
        add_to_each(
            subtree_model(s.drop_last()).push(size),
            ancestors(s, id_index(s), s.len() - 1),
            size,
        )
    }
}

/// Indices, in push order, of the entries whose `parent_id` is `p` and that are
/// not roots themselves.
pub open spec fn kids(s: Seq<Entry>, p: u32) -> Seq<usize>
    decreases s.len(),
{
    if s.len() == 0 {
        Seq::empty()
    } else {
        let e = s.last();
        if e.parent_id == p && e.id != p {
            kids(s.drop_last(), p).push((s.len() - 1) as usize)
        } else {
            kids(s.drop_last(), p)
        }
    }
}

/// Every walk along parent links ends.
pub open spec fn all_walks_end(s: Seq<Entry>) -> bool {
    forall|k: int| 0 <= k < s.len() ==> #[trigger] walk_ends(s, id_index(s), k)
}

pub open spec fn as_ints(v: Seq<u64>) -> Seq<int> {
    v.map_values(|x: u64| x as int)
}

/// `e` can be pushed after `s`: its walk along parent links ends, and no
/// subtree size leaves the range of `u64`.
pub open spec fn push_ok(s: Seq<Entry>, e: Entry) -> bool {
    let s2 = s.push(e);
    &&& walk_ends(s2, id_index(s2), s.len() as int)
    &&& forall|x: int| 0 <= x < s2.len() ==> #[trigger] subtree_model(s2)[x] <= u64::MAX
}


// ---------------------------------------------------------------------------
// Facts about the model.
// ---------------------------------------------------------------------------

/// Each id maps to an index holding that id, and every entry's id is mapped.
pub proof fn lemma_id_index(s: Seq<Entry>)
    requires
        s.len() <= usize::MAX,
    ensures
        forall|id: u32| #[trigger]
            id_index(s).contains_key(id) ==> id_index(s)[id] < s.len() && s[id_index(s)[id] as int].id == id,
        forall|k: int| 0 <= k < s.len() ==> id_index(s).contains_key(#[trigger] s[k].id),
    decreases s.len(),
{
    if s.len() > 0 {
        lemma_id_index(s.drop_last());
        let prev = id_index(s.drop_last());
        assert(id_index(s) == prev.insert(s.last().id, (s.len() - 1) as usize));
        assert forall|id: u32| #[trigger] id_index(s).contains_key(id) implies id_index(s)[id] < s.len()
            && s[id_index(s)[id] as int].id == id by {
            if id != s.last().id {
                assert(prev.contains_key(id));
                assert(s.drop_last()[prev[id] as int] == s[prev[id] as int]);
            }
        }
        assert forall|k: int| 0 <= k < s.len() implies id_index(s).contains_key(#[trigger] s[k].id) by {
            if k < s.len() - 1 {
                assert(s.drop_last()[k] == s[k]);
            }
        }
    }
}

/// The children listed under `p` are exactly the entries that name `p` as
/// their parent and are not roots themselves.
pub proof fn lemma_kids_members(s: Seq<Entry>, p: u32)
    requires
        s.len() <= usize::MAX,
    ensures
        forall|x: usize| #[trigger]
            kids(s, p).contains(x) <==> (x < s.len() && s[x as int].parent_id == p && s[x as int].id != p),
    decreases s.len(),
{
    if s.len() > 0 {
        let d = s.drop_last();
        lemma_kids_members(d, p);
        let n = (s.len() - 1) as usize;
        let k = kids(s, p);
        let kd = kids(d, p);
        assert forall|x: usize| #[trigger]
            kids(s, p).contains(x) <==> (x < s.len() && s[x as int].parent_id == p && s[x as int].id != p) by {
            if x < n {
                assert(d[x as int] == s[x as int]);
            }
            if s.last().parent_id == p && s.last().id != p {
                assert(k == kd.push(n));
                if k.contains(x) {
                    let q = choose|q: int| 0 <= q < k.len() && k[q] == x;
                    if q < kd.len() {
                        assert(kd[q] == x);
                        assert(kd.contains(x));
                    }
                }
                if x < n && kd.contains(x) {
                    let q = choose|q: int| 0 <= q < kd.len() && kd[q] == x;
                    assert(k[q] == x);
                }
                if x == n {
                    assert(k[kd.len() as int] == n);
                }
            } else {
                assert(k == kd);
            }
        }
    }
}

pub proof fn lemma_add_to_each_len(t: Seq<int>, c: Seq<int>, size: int)
    ensures
        add_to_each(t, c, size).len() == t.len(),
    decreases c.len(),
{
    if c.len() > 0 {
        if 0 <= c[0] < t.len() {
            lemma_add_to_each_len(t.update(c[0], t[c[0]] + size), c.drop_first(), size);
        } else {
            lemma_add_to_each_len(t, c.drop_first(), size);
        }
    }
}

pub proof fn lemma_add_to_each_grows(t: Seq<int>, c: Seq<int>, size: int)
    requires
        size >= 0,
    ensures
        forall|x: int| 0 <= x < t.len() ==> #[trigger] add_to_each(t, c, size)[x] >= t[x],
    decreases c.len(),
{
    if c.len() > 0 {
        if 0 <= c[0] < t.len() {
            let t2 = t.update(c[0], t[c[0]] + size);
            lemma_add_to_each_grows(t2, c.drop_first(), size);
            assert(add_to_each(t, c, size) == add_to_each(t2, c.drop_first(), size));
            assert forall|x: int| 0 <= x < t.len() implies #[trigger] add_to_each(t, c, size)[x] >= t[x] by {
                assert(t2[x] >= t[x]);
                assert(add_to_each(t2, c.drop_first(), size)[x] >= t2[x]);
            }
        } else {
            lemma_add_to_each_grows(t, c.drop_first(), size);
            assert(add_to_each(t, c, size) == add_to_each(t, c.drop_first(), size));
        }
    }
}

pub proof fn lemma_subtree_model_len(s: Seq<Entry>)
    ensures
        subtree_model(s).len() == s.len(),
    decreases s.len(),
{
    if s.len() > 0 {
        lemma_subtree_model_len(s.drop_last());
        let size = s.last().size as int;
        lemma_add_to_each_len(
            subtree_model(s.drop_last()).push(size),
            ancestors(s, id_index(s), s.len() - 1),
            size,
        );
    }
}

/// Any two fuels that let the walk end give the same chain.
pub proof fn lemma_chain_fuel(s: Seq<Entry>, ids: Map<u32, usize>, k: int, f: nat, g: nat)
    requires
        walk_stops(s, ids, k, f),
        walk_stops(s, ids, k, g),
    ensures
        chain(s, ids, k, f) == chain(s, ids, k, g),
    decreases f,
{
    match link(s, ids, k) {
        None => {},
        Some(p) => {
            lemma_chain_fuel(s, ids, p, (f - 1) as nat, (g - 1) as nat);
        },
    }
}


/// Where following `d` links from `j` lands, if all of them exist.
pub open spec fn step_n(s: Seq<Entry>, ids: Map<u32, usize>, j: int, d: nat) -> Option<int>
    decreases d,
{
    if d == 0 {
        Some(j)
    } else {
        match link(s, ids, j) {
            None => None,
            Some(p) => step_n(s, ids, p, (d - 1) as nat),
        }
    }
}

pub proof fn lemma_walk_fuel_mono(s: Seq<Entry>, ids: Map<u32, usize>, k: int, f: nat, g: nat)
    requires
        walk_stops(s, ids, k, f),
        f <= g,
    ensures
        walk_stops(s, ids, k, g),
    decreases f,
{
    match link(s, ids, k) {
        None => {},
        Some(p) => {
            lemma_walk_fuel_mono(s, ids, p, (f - 1) as nat, (g - 1) as nat);
        },
    }
}

proof fn lemma_step_stops(s: Seq<Entry>, ids: Map<u32, usize>, j: int, g: nat, d: nat, k: int)
    requires
        walk_stops(s, ids, j, g),
        step_n(s, ids, j, d) == Some(k),
    ensures
        g >= d,
        walk_stops(s, ids, k, (g - d) as nat),
    decreases d,
{
    if d > 0 {
        let p = link(s, ids, j).unwrap();
        lemma_step_stops(s, ids, p, (g - 1) as nat, (d - 1) as nat, k);
    }
}

proof fn lemma_cycle_never_stops(s: Seq<Entry>, ids: Map<u32, usize>, k: int, d: nat, g: nat)
    requires
        d >= 1,
        step_n(s, ids, k, d) == Some(k),
    ensures
        !walk_stops(s, ids, k, g),
    decreases g,
{
    if walk_stops(s, ids, k, g) {
        lemma_step_stops(s, ids, k, g, d, k);
        lemma_cycle_never_stops(s, ids, k, d, (g - d) as nat);
    }
}

proof fn lemma_chain_steps(s: Seq<Entry>, ids: Map<u32, usize>, j: int, f: nat, q: int)
    requires
        0 <= q < chain(s, ids, j, f).len(),
    ensures
        step_n(s, ids, j, (q + 1) as nat) == Some(chain(s, ids, j, f)[q]),
    decreases f,
{
    let p = link(s, ids, j).unwrap();
    let rest = chain(s, ids, p, (f - 1) as nat);
    assert(chain(s, ids, j, f) == seq![p] + rest);
    if q > 0 {
        lemma_chain_steps(s, ids, p, (f - 1) as nat, q - 1);
    }
}

proof fn lemma_step_add(s: Seq<Entry>, ids: Map<u32, usize>, j: int, a: nat, m: nat, x: int)
    requires
        step_n(s, ids, j, a) == Some(x),
    ensures
        step_n(s, ids, j, a + m) == step_n(s, ids, x, m),
    decreases a,
{
    if a > 0 {
        let p = link(s, ids, j).unwrap();
        lemma_step_add(s, ids, p, (a - 1) as nat, m, x);
        assert((a - 1) as nat + m == (a + m - 1) as nat);
    }
}

/// A walk that ends never visits an entry twice, nor comes back to its start.
pub proof fn lemma_walk_no_repeats(s: Seq<Entry>, ids: Map<u32, usize>, j: int, f: nat)
    requires
        walk_stops(s, ids, j, f),
    ensures
        chain(s, ids, j, f).no_duplicates(),
        !chain(s, ids, j, f).contains(j),
{
    let c = chain(s, ids, j, f);
    assert forall|a: int, b: int| 0 <= a < b < c.len() implies c[a] != c[b] by {
        if c[a] == c[b] {
            let x = c[a];
            lemma_chain_steps(s, ids, j, f, a);
            lemma_chain_steps(s, ids, j, f, b);
            lemma_step_add(s, ids, j, (a + 1) as nat, (b - a) as nat, x);
            assert((a + 1) as nat + (b - a) as nat == (b + 1) as nat);
            lemma_step_stops(s, ids, j, f, (a + 1) as nat, x);
            lemma_cycle_never_stops(s, ids, x, (b - a) as nat, (f - (a + 1)) as nat);
        }
    }
    if c.contains(j) {
        let q = choose|q: int| 0 <= q < c.len() && c[q] == j;
        lemma_chain_steps(s, ids, j, f, q);
        lemma_cycle_never_stops(s, ids, j, (q + 1) as nat, f);
    }
}

/// The walk needs exactly as many steps as its chain is long.
proof fn lemma_walk_stops_chain_len(s: Seq<Entry>, ids: Map<u32, usize>, j: int, f: nat)
    requires
        walk_stops(s, ids, j, f),
    ensures
        walk_stops(s, ids, j, chain(s, ids, j, f).len()),
    decreases f,
{
    if let Some(p) = link(s, ids, j) {
        lemma_walk_stops_chain_len(s, ids, p, (f - 1) as nat);
        assert(chain(s, ids, j, f) == seq![p] + chain(s, ids, p, (f - 1) as nat));
    }
}

pub proof fn lemma_chain_in_range(s: Seq<Entry>, ids: Map<u32, usize>, j: int, f: nat)
    requires
        forall|id: u32| #[trigger] ids.contains_key(id) ==> ids[id] < s.len(),
    ensures
        forall|q: int| 0 <= q < chain(s, ids, j, f).len() ==> 0 <= #[trigger] chain(s, ids, j, f)[q] < s.len(),
    decreases f,
{
    if let Some(p) = link(s, ids, j) {
        if f > 0 {
            lemma_chain_in_range(s, ids, p, (f - 1) as nat);
            let c = chain(s, ids, j, f);
            assert(c == seq![p] + chain(s, ids, p, (f - 1) as nat));
            assert forall|q: int| 0 <= q < c.len() implies 0 <= #[trigger] c[q] < s.len() by {
                if q > 0 {
                    assert(c[q] == chain(s, ids, p, (f - 1) as nat)[q - 1]);
                }
            }
        }
    }
}

/// A walk that ends at all ends within as many steps as there are entries.
pub proof fn lemma_walk_stops_within(s: Seq<Entry>, ids: Map<u32, usize>, j: int, f: nat)
    requires
        forall|id: u32| #[trigger] ids.contains_key(id) ==> ids[id] < s.len(),
        walk_stops(s, ids, j, f),
    ensures
        walk_stops(s, ids, j, s.len()),
{
    let c = chain(s, ids, j, f);
    lemma_walk_no_repeats(s, ids, j, f);
    lemma_chain_in_range(s, ids, j, f);
    lemma_walk_stops_chain_len(s, ids, j, f);
    c.unique_seq_to_set();
    vstd::set_lib::lemma_int_range(0, s.len() as int);
    assert(c.to_set().subset_of(vstd::set_lib::set_int_range(0, s.len() as int)));
    vstd::set_lib::lemma_len_subset(c.to_set(), vstd::set_lib::set_int_range(0, s.len() as int));
    lemma_walk_fuel_mono(s, ids, j, c.len(), s.len());
}

/// Adding `size` along a chain without repeats adds it once to each member.
pub proof fn lemma_add_once(t: Seq<int>, c: Seq<int>, size: int)
    requires
        c.no_duplicates(),
        forall|q: int| 0 <= q < c.len() ==> 0 <= #[trigger] c[q] < t.len(),
    ensures
        add_to_each(t, c, size).len() == t.len(),
        forall|x: int| 0 <= x < t.len() ==> #[trigger] add_to_each(t, c, size)[x] == t[x] + if c.contains(x) {
            size
        } else {
            0
        },
    decreases c.len(),
{
    lemma_add_to_each_len(t, c, size);
    if c.len() > 0 {
        let t2 = t.update(c[0], t[c[0]] + size);
        let rest = c.drop_first();
        assert forall|a: int, b: int| 0 <= a < b < rest.len() implies rest[a] != rest[b] by {
            assert(rest[a] == c[a + 1] && rest[b] == c[b + 1]);
        }
        assert forall|q: int| 0 <= q < rest.len() implies 0 <= #[trigger] rest[q] < t2.len() by {
            assert(rest[q] == c[q + 1]);
        }
        lemma_add_once(t2, rest, size);
        assert(add_to_each(t, c, size) == add_to_each(t2, rest, size));
        assert forall|x: int| 0 <= x < t.len() implies #[trigger] add_to_each(t, c, size)[x] == t[x]
            + if c.contains(x) {
            size
        } else {
            0
        } by {
            if x == c[0] {
                assert(c.contains(x));
                if rest.contains(x) {
                    let q = choose|q: int| 0 <= q < rest.len() && rest[q] == x;
                    assert(rest[q] == c[q + 1]);
                }
            } else {
                if c.contains(x) {
                    let q = choose|q: int| 0 <= q < c.len() && c[q] == x;
                    assert(rest[q - 1] == x);
                }
                if rest.contains(x) {
                    let q = choose|q: int| 0 <= q < rest.len() && rest[q] == x;
                    assert(c[q + 1] == x);
                }
            }
        }
    }
}

/// A walk that ended before `e` was pushed still ends after it, given that the
/// walk from `e` ends.
pub proof fn lemma_walk_survives_push(s: Seq<Entry>, e: Entry, k: int, f: nat)
    requires
        0 <= k < s.len(),
        s.len() < usize::MAX,
        walk_stops(s, id_index(s), k, f),
        walk_ends(s.push(e), id_index(s.push(e)), s.len() as int),
    ensures
        walk_ends(s.push(e), id_index(s.push(e)), k),
    decreases f,
{
    let s2 = s.push(e);
    let ids = id_index(s);
    let ids2 = id_index(s2);
    assert(s2.drop_last() =~= s);
    lemma_id_index(s);
    assert(s2[k] == s[k]);
    assert(ids2 == ids.insert(e.id, s.len() as usize));
    if s[k].parent_id == e.id {
        let g = choose|g: nat| walk_stops(s2, ids2, s.len() as int, g);
        assert(link(s2, ids2, k) == Some(s.len() as int));
        assert(walk_stops(s2, ids2, k, g + 1));
    } else {
        match link(s, ids, k) {
            None => {
                assert(link(s2, ids2, k) is None);
                assert(walk_stops(s2, ids2, k, 0));
            },
            Some(p) => {
                assert(link(s2, ids2, k) == Some(p));
                lemma_walk_survives_push(s, e, p, (f - 1) as nat);
                let g = choose|g: nat| walk_stops(s2, ids2, p, g);
                assert(walk_stops(s2, ids2, k, g + 1));
            },
        }
    }
}


/// Every entry of `es`, pushed in turn after `s`, meets [`push_ok`].
pub open spec fn extend_ok(s: Seq<Entry>, es: Seq<Entry>) -> bool
    decreases es.len(),
{
    es.len() == 0 || (push_ok(s, es[0]) && extend_ok(s.push(es[0]), es.drop_first()))
}

/// `e` marks a root: its parent id is its own id.
pub open spec fn is_root(e: Entry) -> bool {
    e.id == e.parent_id
}


/// Entry `k` followed by its ancestors, nearest first.
pub open spec fn path_parts(s: Seq<Entry>, k: int) -> Seq<int> {
    seq![k] + ancestors(s, id_index(s), k)
}

/// The names from the outermost ancestor down to entry `k`.
pub open spec fn path_names(s: Seq<Entry>, k: int) -> Seq<Seq<char>> {
    let parts = path_parts(s, k);
    Seq::new(parts.len(), |m: int| s[parts[parts.len() - 1 - m]].name@)
}

/// The path of entry `k`: the names from the outermost ancestor down to `k`
/// joined with `/`, each run of slashes then made one (a root's name usually
/// already holds slashes).
pub open spec fn path_text(s: Seq<Entry>, k: int) -> Seq<char> {
    collapse_slashes(join(path_names(s, k), '/'))
}


/// `(index, subtree size)` of each directory among the first `n` entries, in order.
pub open spec fn dir_items(s: Seq<Entry>, sub: Seq<u64>, n: int) -> Seq<(usize, u64)>
    decreases n,
{
    if n <= 0 {
        Seq::empty()
    } else if s[n - 1].kind == KIND_DIR {
        dir_items(s, sub, n - 1).push(((n - 1) as usize, sub[n - 1]))
    } else {
        dir_items(s, sub, n - 1)
    }
}

/// The first `top` items of `s` (all of them when there are fewer).
pub open spec fn first_n<T>(s: Seq<T>, top: nat) -> Seq<T> {
    if top < s.len() {
        s.take(top as int)
    } else {
        s
    }
}

impl Default for Tree {
    /// An empty tree.
    fn default() -> (t: Tree)
        ensures
            t.wf(),
            t.entries@.len() == 0,
    {
        Tree::new()
    }
}

impl Tree {
    /// The tree is what pushing `entries` in order yields.
    pub open spec fn wf(&self) -> bool {
        let s = self.entries@;
        &&& s.len() <= usize::MAX
        &&& self.subtree@.len() == s.len()
        &&& as_ints(self.subtree@) == subtree_model(s)
        &&& self.id_to_index@ == id_index(s)
        &&& forall|p: u32| #[trigger]
            self.children@.contains_key(p) <==> kids(s, p).len() > 0
        &&& forall|p: u32| #[trigger]
            self.children@.contains_key(p) ==> self.children@[p]@ == kids(s, p)
        &&& all_walks_end(s)
    }

    /// An empty tree.
    pub fn new() -> (t: Tree)
        ensures
            t.wf(),
            t.entries@.len() == 0,
    {
        let t = Tree {
            entries: Vec::new(),
            subtree: Vec::new(),
            id_to_index: HashMap::new(),
            children: HashMap::new(),
        };
        assert(as_ints(t.subtree@) =~= subtree_model(t.entries@));
        assert(t.id_to_index@ =~= id_index(t.entries@));
        t
    }


    /// Pushes every entry of `es` in order.
    pub fn extend(&mut self, es: Vec<Entry>)
        requires
            old(self).wf(),
            old(self).entries@.len() + es@.len() <= usize::MAX,
            extend_ok(old(self).entries@, es@),
        ensures
            final(self).wf(),
            final(self).entries@ == old(self).entries@ + es@,
    {
        let ghost s0 = self.entries@;
        let ghost all = es@;
        assert(all.skip(0) =~= all);
        assert(s0 + all.take(0) =~= s0);
        for e in it: es.into_iter()
            invariant
                self.wf(),
                it.seq() == all,
                self.entries@ == s0 + all.take(it.index() as int),
                s0.len() + all.len() <= usize::MAX,
                extend_ok(self.entries@, all.skip(it.index() as int)),
        {
            let ghost j = it.index() as int;
            assert(all.skip(j)[0] == all[j]);
            assert(all.skip(j).drop_first() =~= all.skip(j + 1));
            assert(all.take(j + 1) =~= all.take(j).push(all[j]));
            self.push(e);
        }
        assert(all.take(all.len() as int) =~= all);
    }

    /// The index of the first root entry (one whose parent id is its own id).
    pub fn root_idx(&self) -> (r: Option<usize>)
        ensures
            match r {
                Some(i) => i < self.entries@.len() && is_root(self.entries@[i as int])
                    && forall|j: int| 0 <= j < i ==> !is_root(#[trigger] self.entries@[j]),
                None => forall|j: int|
                    0 <= j < self.entries@.len() ==> !is_root(#[trigger] self.entries@[j]),
            },
    {
        let mut i: usize = 0;
        while i < self.entries.len()
            invariant
                i <= self.entries@.len(),
                forall|j: int| 0 <= j < i ==> !is_root(#[trigger] self.entries@[j]),
            decreases self.entries@.len() - i,
        {
            if self.entries[i].id == self.entries[i].parent_id {
                return Some(i);
            }
            i = i + 1;
        }
        None
    }

    /// Whether entry `i` is a directory.
    pub fn is_dir(&self, i: usize) -> (r: bool)
        requires
            i < self.entries@.len(),
        ensures
            r == (self.entries@[i as int].kind == KIND_DIR),
    {
        self.entries[i].kind == KIND_DIR
    }

    /// Child indices of entry `i` in push order, or an empty slice if none.
    pub fn children_of(&self, i: usize) -> (r: &[usize])
        requires
            self.wf(),
            i < self.entries@.len(),
        ensures
            r@ == kids(self.entries@, self.entries@[i as int].id),
    {
        let id = self.entries[i].id;
        match self.children.get(&id) {
            Some(v) => v.as_slice(),
            None => &[],
        }
    }


    /// The path of entry `i`: see [`path_text`].
    pub fn path_of(&self, i: usize) -> (p: String)
        requires
            self.wf(),
            i < self.entries@.len(),
        ensures
            p@ == path_text(self.entries@, i as int),
    {
        let ghost s = self.entries@;
        let ghost ids = id_index(s);
        let _len = self.entries.len();
        proof {
            lemma_id_index(s);
            assert(walk_ends(s, ids, i as int));
        }
        let ghost f0: nat = choose|f: nat| walk_stops(s, ids, i as int, f);
        let ghost full = seq![i as int] + chain(s, ids, i as int, f0);
        let mut parts: Vec<usize> = Vec::new();
        parts.push(i);
        let mut cur: usize = i;
        let ghost mut fuel: nat = f0;
        assert(parts@.map_values(|x: usize| x as int) =~= seq![i as int]);
        loop
            invariant
                self.wf(),
                s == self.entries@,
                ids == id_index(s),
                forall|id: u32| #[trigger] ids.contains_key(id) ==> ids[id] < s.len(),
                0 <= cur < s.len(),
                walk_stops(s, ids, cur as int, fuel),
                parts@.map_values(|x: usize| x as int) + chain(s, ids, cur as int, fuel) == full,
                forall|m: int| 0 <= m < parts@.len() ==> #[trigger] parts@[m] < s.len(),
            ensures
                parts@.map_values(|x: usize| x as int) == full,
                forall|m: int| 0 <= m < parts@.len() ==> #[trigger] parts@[m] < s.len(),
            decreases fuel,
        {
            let pid = self.entries[cur].parent_id;
            match self.id_to_index.get(&pid) {
                None => {
                    assert(link(s, ids, cur as int) is None);
                    assert(parts@.map_values(|x: usize| x as int) + Seq::<int>::empty() =~= parts@.map_values(|x: usize| x as int));
                    break;
                },
                Some(pi_ref) => {
                    let pi = *pi_ref;
                    if pi == cur {
                        assert(link(s, ids, cur as int) is None);
                        assert(parts@.map_values(|x: usize| x as int) + Seq::<int>::empty() =~= parts@.map_values(|x: usize| x as int));
                        break;
                    }
                    assert(link(s, ids, cur as int) == Some(pi as int));
                    let ghost before = parts@.map_values(|x: usize| x as int);
                    let ghost rest = chain(s, ids, pi as int, (fuel - 1) as nat);
                    assert(chain(s, ids, cur as int, fuel) == seq![pi as int] + rest);
                    parts.push(pi);
                    assert(parts@.map_values(|x: usize| x as int) =~= before.push(pi as int));
                    assert(before + (seq![pi as int] + rest) =~= before.push(pi as int) + rest);
                    cur = pi;
                    proof {
                        fuel = (fuel - 1) as nat;
                    }
                },
            }
        }
        assert(full == path_parts(s, i as int));
        let ghost names = path_names(s, i as int);
        let n = parts.len();
        let mut joined: Vec<char> = Vec::new();
        let mut m: usize = 0;
        while m < n
            invariant
                n == parts@.len(),
                n == names.len(),
                names == path_names(s, i as int),
                m <= n,
                s == self.entries@,
                parts@.map_values(|x: usize| x as int) == path_parts(s, i as int),
                forall|q: int| 0 <= q < parts@.len() ==> #[trigger] parts@[q] < s.len(),
                joined@ == join(names.take(m as int), '/'),
            decreases n - m,
        {
            let j = parts[n - 1 - m];
            assert(parts@.map_values(|x: usize| x as int)[(n - 1 - m) as int] == j as int);
            assert(names[m as int] == s[j as int].name@);
            assert(names.take(m + 1).drop_last() =~= names.take(m as int));
            if m > 0 {
                joined.push('/');
            }
            append_chars(&mut joined, self.entries[j].name.as_str());
            m = m + 1;
        }
        assert(names.take(n as int) =~= names);
        collapse_slashes_of(&joined)
    }


    /// Whether `e` may be pushed next, that is whether [`push_ok`] holds: the
    /// walk from `e` is followed for at most as many steps as there will be
    /// entries (an ending walk never visits an entry twice), then the size of
    /// each ancestor found is checked against `u64::MAX`.
    pub fn can_push(&self, e: &Entry) -> (ok: bool)
        requires
            self.wf(),
            self.entries@.len() < usize::MAX,
        ensures
            ok == push_ok(self.entries@, *e),
    {
        let ghost s = self.entries@;
        let ghost s2 = s.push(*e);
        let ghost ids2 = id_index(s2);
        let n = self.entries.len();
        let ghost big: nat = s2.len();
        proof {
            assert(s2.drop_last() =~= s);
            lemma_id_index(s);
            lemma_id_index(s2);
            assert(ids2 == id_index(s).insert(e.id, n));
        }
        let mut chainv: Vec<usize> = Vec::new();
        let mut cur: usize = n;
        let mut steps: usize = 0;
        assert(chainv@.map_values(|x: usize| x as int) =~= Seq::<int>::empty());
        assert(Seq::<int>::empty() + chain(s2, ids2, n as int, big) =~= chain(s2, ids2, n as int, big));
        loop
            invariant
                self.wf(),
                s == self.entries@,
                s2 == s.push(*e),
                ids2 == id_index(s2),
                ids2 == id_index(s).insert(e.id, n),
                forall|id: u32| #[trigger] ids2.contains_key(id) ==> ids2[id] < s2.len(),
                n == s.len(),
                n < usize::MAX,
                big == s2.len(),
                0 <= cur <= n,
                steps <= big,
                walk_stops(s2, ids2, n as int, big) == walk_stops(s2, ids2, cur as int, (big - steps) as nat),
                chain(s2, ids2, n as int, big) == chainv@.map_values(|x: usize| x as int) + chain(
                    s2,
                    ids2,
                    cur as int,
                    (big - steps) as nat,
                ),
            ensures
                walk_stops(s2, ids2, n as int, big),
                chain(s2, ids2, n as int, big) == chainv@.map_values(|x: usize| x as int),
            decreases big - steps,
        {
            let pid = if cur == n {
                e.parent_id
            } else {
                self.entries[cur].parent_id
            };
            assert(s2[cur as int].parent_id == pid);
            let next: Option<usize> = if pid == e.id {
                Some(n)
            } else {
                match self.id_to_index.get(&pid) {
                    Some(p) => Some(*p),
                    None => None,
                }
            };
            assert(next == (if ids2.contains_key(pid) { Some(ids2[pid]) } else { None::<usize> }));
            match next {
                None => {
                    assert(link(s2, ids2, cur as int) is None);
                    assert(chainv@.map_values(|x: usize| x as int) + Seq::<int>::empty() =~= chainv@.map_values(|x: usize| x as int));
                    break;
                },
                Some(p) => {
                    if p == cur {
                        assert(link(s2, ids2, cur as int) is None);
                        assert(chainv@.map_values(|x: usize| x as int) + Seq::<int>::empty() =~= chainv@.map_values(|x: usize| x as int));
                        break;
                    }
                    assert(link(s2, ids2, cur as int) == Some(p as int));
                    if steps == n + 1 {
                        assert(!walk_stops(s2, ids2, cur as int, 0));
                        proof {
                            if walk_ends(s2, id_index(s2), n as int) {
                                let f = choose|f: nat| walk_stops(s2, ids2, n as int, f);
                                lemma_walk_stops_within(s2, ids2, n as int, f);
                            }
                        }
                        return false;
                    }
                    let ghost before = chainv@.map_values(|x: usize| x as int);
                    let ghost rest = chain(s2, ids2, p as int, (big - steps - 1) as nat);
                    assert(chain(s2, ids2, cur as int, (big - steps) as nat) == seq![p as int] + rest);
                    chainv.push(p);
                    assert(chainv@.map_values(|x: usize| x as int) =~= before.push(p as int));
                    assert(before + (seq![p as int] + rest) =~= before.push(p as int) + rest);
                    cur = p;
                    steps = steps + 1;
                },
            }
        }
        let ghost c = chain(s2, ids2, n as int, big);
        let ghost base = subtree_model(s).push(e.size as int);
        proof {
            lemma_walk_no_repeats(s2, ids2, n as int, big);
            lemma_chain_in_range(s2, ids2, n as int, big);
            lemma_subtree_model_len(s);
            let f = choose|f: nat| walk_stops(s2, ids2, n as int, f);
            lemma_chain_fuel(s2, ids2, n as int, f, big);
            assert(subtree_model(s2) == add_to_each(base, c, e.size as int));
            lemma_add_once(base, c, e.size as int);
            assert forall|q: int| 0 <= q < c.len() implies #[trigger] c[q] < n by {
                if c[q] == n {
                    assert(c.contains(n as int));
                }
            }
        }
        let size = e.size;
        let mut q: usize = 0;
        while q < chainv.len()
            invariant
                self.wf(),
                s == self.entries@,
                n == s.len(),
                c == chainv@.map_values(|x: usize| x as int),
                forall|r: int| 0 <= r < c.len() ==> #[trigger] c[r] < n,
                q <= chainv@.len(),
                forall|r: int| 0 <= r < q ==> #[trigger] base[c[r]] + size <= u64::MAX,
                base == as_ints(self.subtree@).push(size as int),
                size == e.size,
                s2 == s.push(*e),
                subtree_model(s2).len() == s2.len(),
                forall|x: int| 0 <= x < s2.len() ==> #[trigger] subtree_model(s2)[x] == base[x] + if c.contains(x) {
                    size as int
                } else {
                    0
                },
            decreases chainv@.len() - q,
        {
            let x = chainv[q];
            assert(c[q as int] == x as int);
            assert(base[x as int] == self.subtree@[x as int]);
            if self.subtree[x] > u64::MAX - size {
                assert(c.contains(x as int));
                assert(subtree_model(s2)[x as int] > u64::MAX);
                return false;
            }
            q = q + 1;
        }
        proof {
            assert forall|x: int| 0 <= x < s2.len() implies #[trigger] subtree_model(s2)[x] <= u64::MAX by {
                if c.contains(x) {
                    let r = choose|r: int| 0 <= r < c.len() && c[r] == x;
                    assert(base[c[r]] + size <= u64::MAX);
                } else {
                    if x < n {
                        assert(base[x] == self.subtree@[x]);
                    }
                }
            }
        }
        true
    }


    /// The `top` largest directories as `(index, subtree size)`, largest first;
    /// directories of equal size come in push order.
    pub fn largest_dirs(&self, top: usize) -> (r: Vec<(usize, u64)>)
        requires
            self.wf(),
        ensures
            r@ == first_n(
                sorted_by_size(dir_items(self.entries@, self.subtree@, self.entries@.len() as int)),
                top as nat,
            ),
    {
        let mut dirs: Vec<(usize, u64)> = Vec::new();
        let mut i: usize = 0;
        while i < self.entries.len()
            invariant
                self.wf(),
                i <= self.entries@.len(),
                dirs@ == dir_items(self.entries@, self.subtree@, i as int),
            decreases self.entries@.len() - i,
        {
            if self.entries[i].kind == KIND_DIR {
                dirs.push((i, self.subtree[i]));
            }
            i = i + 1;
        }
        let mut sorted = sort_by_size_desc(dirs);
        sorted.truncate(top);
        sorted
    }


    /// Pushes the entries of `es` in order as long as each may be pushed (see
    /// [`Tree::can_push`]); at the first that may not, stops and returns its
    /// index, having pushed those before it.
    pub fn try_extend(&mut self, es: Vec<Entry>) -> (r: Result<(), usize>)
        requires
            old(self).wf(),
        ensures
            final(self).wf(),
            r is Ok ==> final(self).entries@ == old(self).entries@ + es@,
            r is Ok ==> extend_ok(old(self).entries@, es@),
            extend_ok(old(self).entries@, es@) && old(self).entries@.len() + es@.len() <= usize::MAX
                ==> r is Ok,
            r matches Err(k) ==> k < es@.len(),
            r matches Err(k) ==> final(self).entries@ == old(self).entries@ + es@.take(k as int),
            r matches Err(k) ==> (final(self).entries@.len() == usize::MAX || !push_ok(
                final(self).entries@,
                es@[k as int],
            )),
    {
        let ghost s0 = self.entries@;
        let ghost all = es@;
        assert(all.take(0) =~= Seq::<Entry>::empty());
        assert(s0 + all.take(0) =~= s0);
        let n = es.len();
        let mut k: usize = 0;
        for e in it: es.into_iter()
            invariant
                self.wf(),
                it.seq() == all,
                s0 == old(self).entries@,
                all == es@,
                n == all.len(),
                k == it.index(),
                self.entries@ == s0 + all.take(it.index() as int),
                extend_ok(s0, all.take(it.index() as int)),
        {
            let ghost i = it.index() as int;
            let ghost cur = self.entries@;
            assert(all[i] == e);
            assert(i < all.len());
            assert(cur == s0 + all.take(i));
            if self.entries.len() == usize::MAX {
                return Err(k);
            }
            proof {
                assert(all.take(i) + all.skip(i) =~= all);
                crate::tree_laws::lemma_extend_ok_split(s0, all.take(i), all.skip(i));
                assert(all.skip(i)[0] == e);
                assert(all.take(i + 1) =~= all.take(i) + seq![e]);
                crate::tree_laws::lemma_extend_ok_split(s0, all.take(i), seq![e]);
                assert(seq![e].drop_first() =~= Seq::<Entry>::empty());
            }
            if !self.can_push(&e) {
                return Err(k);
            }
            proof {
                assert(extend_ok(cur.push(e), seq![e].drop_first()));
                assert(extend_ok(cur, seq![e]));
                assert(extend_ok(s0, all.take(i + 1)));
            }
            self.push(e);
            assert(cur.push(e) =~= s0 + all.take(i + 1));
            k = k + 1;
        }
        assert(all.take(all.len() as int) =~= all);
        Ok(())
    }

    /// Adds `e` as the next entry: records its index under its id, lists it
    /// among its parent's children (unless it is a root), and adds its size to
    /// every ancestor reached through the parent links.
    pub fn push(&mut self, e: Entry)
        requires
            old(self).wf(),
            old(self).entries@.len() < usize::MAX,
            push_ok(old(self).entries@, e),
        ensures
            final(self).wf(),
            final(self).entries@ == old(self).entries@.push(e),
            as_ints(final(self).subtree@) == add_to_each(
                as_ints(old(self).subtree@).push(e.size as int),
                ancestors(final(self).entries@, final(self).id_to_index@, old(self).entries@.len() as int),
                e.size as int,
            ),
    {
        let ghost s = self.entries@;
        let ghost s2 = s.push(e);
        let ghost old_children = self.children@;
        let i = self.entries.len();
        let id = e.id;
        let parent_id = e.parent_id;
        let size = e.size;
        proof {
            assert(s2.drop_last() =~= s);
            lemma_id_index(s);
            lemma_id_index(s2);
            lemma_subtree_model_len(s);
            lemma_subtree_model_len(s2);
        }
        self.id_to_index.insert(id, i);
        self.subtree.push(size);
        if id != parent_id {
            let v = match self.children.remove(&parent_id) {
                Some(v) => v,
                None => Vec::new(),
            };
            let mut v = v;
            v.push(i);
            let ghost gv = v@;
            assert(gv == if old_children.contains_key(parent_id) {
                old_children[parent_id]@.push(i)
            } else {
                seq![i]
            });
            self.children.insert(parent_id, v);
            assert(self.children@ == old_children.insert(parent_id, v));
            assert(self.children@[parent_id]@ == gv);
        }
        self.entries.push(e);
        let ghost ids = self.id_to_index@;
        let ghost ch = self.children@;
        assert(ids == id_index(s2));
        let ghost f0: nat = choose|f: nat| walk_stops(s2, ids, i as int, f);
        let ghost base = as_ints(old(self).subtree@).push(size as int);
        let ghost target = add_to_each(base, chain(s2, ids, i as int, f0), size as int);
        assert(as_ints(self.subtree@) =~= base);
        assert(target == subtree_model(s2));
        proof {
            lemma_add_to_each_len(base, chain(s2, ids, i as int, f0), size as int);
        }
        let mut cur: usize = i;
        let ghost mut fuel: nat = f0;
        loop
            invariant
                self.entries@ == s2,
                self.id_to_index@ == ids,
                self.children@ == ch,
                ids == id_index(s2),
                self.subtree@.len() == s2.len(),
                0 <= cur < s2.len(),
                walk_stops(s2, ids, cur as int, fuel),
                add_to_each(as_ints(self.subtree@), chain(s2, ids, cur as int, fuel), size as int) == target,
                forall|x: int| 0 <= x < s2.len() ==> #[trigger] target[x] <= u64::MAX,
                target.len() == s2.len(),
                forall|id: u32| #[trigger]
                    ids.contains_key(id) ==> ids[id] < s2.len(),
            ensures
                self.entries@ == s2,
                self.id_to_index@ == ids,
                self.children@ == ch,
                self.subtree@.len() == s2.len(),
                as_ints(self.subtree@) == target,
            decreases fuel,
        {
            let pid = self.entries[cur].parent_id;
            match self.id_to_index.get(&pid) {
                None => {
                    assert(link(s2, ids, cur as int) is None);
                    break;
                },
                Some(pi_ref) => {
                    let pi = *pi_ref;
                    if pi == cur {
                        assert(link(s2, ids, cur as int) is None);
                        break;
                    }
                    assert(link(s2, ids, cur as int) == Some(pi as int));
                    let ghost t = as_ints(self.subtree@);
                    let ghost rest = chain(s2, ids, pi as int, (fuel - 1) as nat);
                    assert(chain(s2, ids, cur as int, fuel) == seq![pi as int] + rest);
                    assert((seq![pi as int] + rest).drop_first() =~= rest);
                    assert(add_to_each(t, seq![pi as int] + rest, size as int) == add_to_each(
                        t.update(pi as int, t[pi as int] + size),
                        rest,
                        size as int,
                    ));
                    proof {
                        lemma_add_to_each_grows(t.update(pi as int, t[pi as int] + size), rest, size as int);
                    }
                    assert(t[pi as int] == self.subtree@[pi as int]);
                    assert(t[pi as int] + size <= target[pi as int]);
                    let v = self.subtree[pi] + size;
                    self.subtree.set(pi, v);
                    assert(as_ints(self.subtree@) =~= t.update(pi as int, t[pi as int] + size));
                    cur = pi;
                    proof {
                        fuel = (fuel - 1) as nat;
                    }
                },
            }
        }
        proof {
            assert(self.entries@ =~= s2);
            assert forall|p: u32| #[trigger] self.children@.contains_key(p) <==> kids(s2, p).len() > 0 by {
                assert(kids(s2, p) == if e.parent_id == p && e.id != p {
                    kids(s, p).push(i)
                } else {
                    kids(s, p)
                });
                if p != parent_id || id == parent_id {
                    assert(self.children@.contains_key(p) == old_children.contains_key(p));
                }
            }
            assert forall|p: u32| #[trigger] self.children@.contains_key(p) implies self.children@[p]@ == kids(s2, p) by {
                assert(kids(s2, p) == if e.parent_id == p && e.id != p {
                    kids(s, p).push(i)
                } else {
                    kids(s, p)
                });
                if p != parent_id || id == parent_id {
                    assert(self.children@[p] == old_children[p]);
                }
            }
            assert forall|k: int| 0 <= k < s2.len() implies #[trigger] walk_ends(s2, id_index(s2), k) by {
                if k < s.len() {
                    assert(walk_ends(s, id_index(s), k));
                    let f = choose|f: nat| walk_stops(s, id_index(s), k, f);
                    lemma_walk_survives_push(s, e, k, f);
                }
            }
        }
    }
}

} // verus!
