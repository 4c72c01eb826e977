//! Text helpers shared by the front ends.

use vstd::prelude::*;

verus! {

broadcast use vstd::string::group_string_axioms;

/// Appends one character to a `String`.
///
/// Trusted: calls `String::push`, which std documents as appending the given
/// `char` to the end of the string; nothing else is claimed.
#[verifier::external_body]
pub(crate) fn push_char(s: &mut String, c: char)
    ensures
        final(s)@ == old(s)@.push(c),
{
    s.push(c);
}

/// The characters of `s`, in order.
pub fn chars_of(s: &str) -> (v: Vec<char>)
    ensures
        v@ == s@,
{
    let mut v: Vec<char> = Vec::new();
    for c in it: s.chars()
        invariant
            v@ == it.seq().take(it.index() as int),
    {
        v.push(c);
    }
    v
}

/// Appends the characters of `s` to `v`.
pub fn append_chars(v: &mut Vec<char>, s: &str)
    ensures
        final(v)@ == old(v)@ + s@,
{
    let ghost start = v@;
    for c in it: s.chars()
        invariant
            v@ == start + it.seq().take(it.index() as int),
    {
        v.push(c);
    }
}

/// `parts` joined with `sep` between consecutive parts.
pub open spec fn join(parts: Seq<Seq<char>>, sep: char) -> Seq<char>
    decreases parts.len(),
{
    if parts.len() == 0 {
        Seq::empty()
    } else if parts.len() == 1 {
        parts[0]
    } else {
        join(parts.drop_last(), sep).push(sep) + parts.last()
    }
}

/// `cs` with every `/` that directly follows another `/` removed, so that each
/// run of slashes becomes one.
pub open spec fn collapse_slashes(cs: Seq<char>) -> Seq<char>
    decreases cs.len(),
{
    if cs.len() == 0 {
        Seq::empty()
    } else if cs.last() == '/' && cs.len() >= 2 && cs[cs.len() - 2] == '/' {
        collapse_slashes(cs.drop_last())
    } else {
        collapse_slashes(cs.drop_last()).push(cs.last())
    }
}

/// The `String` holding the characters of `cs` with each run of slashes made one.
pub fn collapse_slashes_of(cs: &Vec<char>) -> (out: String)
    ensures
        out@ == collapse_slashes(cs@),
{
    let mut out = String::new();
    let mut prev_slash = false;
    let mut q: usize = 0;
    while q < cs.len()
        invariant
            q <= cs@.len(),
            out@ == collapse_slashes(cs@.take(q as int)),
            prev_slash == (q > 0 && cs@[q - 1] == '/'),
        decreases cs@.len() - q,
    {
        let c = cs[q];
        assert(cs@.take(q + 1).drop_last() =~= cs@.take(q as int));
        if c == '/' {
            if !prev_slash {
                push_char(&mut out, '/');
            }
            prev_slash = true;
        } else {
            push_char(&mut out, c);
            prev_slash = false;
        }
        q = q + 1;
    }
    assert(cs@.take(q as int) =~= cs@);
    out
}


/// The `String` holding the characters of `v`.
pub fn string_of(v: &Vec<char>) -> (s: String)
    ensures
        s@ == v@,
{
    let mut s = String::new();
    let mut i: usize = 0;
    while i < v.len()
        invariant
            i <= v@.len(),
            s@ == v@.take(i as int),
        decreases v@.len() - i,
    {
        push_char(&mut s, v[i]);
        i = i + 1;
        assert(v@.take(i as int) =~= v@.take(i - 1).push(v@[i - 1]));
    }
    assert(v@.take(i as int) =~= v@);
    s
}

/// Whether two character vectors hold the same characters.
pub fn chars_eq(a: &Vec<char>, b: &Vec<char>) -> (r: bool)
    ensures
        r == (a@ == b@),
{
    if a.len() != b.len() {
        return false;
    }
    let mut i: usize = 0;
    while i < a.len()
        invariant
            a@.len() == b@.len(),
            i <= a@.len(),
            forall|j: int| 0 <= j < i ==> a@[j] == b@[j],
        decreases a@.len() - i,
    {
        if a[i] != b[i] {
            return false;
        }
        i = i + 1;
    }
    assert(a@ =~= b@);
    true
}

/// The characters of `v` from `lo` up to `hi`.
pub fn sub_chars(v: &Vec<char>, lo: usize, hi: usize) -> (r: Vec<char>)
    requires
        lo <= hi <= v@.len(),
    ensures
        r@ == v@.subrange(lo as int, hi as int),
{
    let mut r: Vec<char> = Vec::new();
    let mut i: usize = lo;
    while i < hi
        invariant
            lo <= i <= hi,
            hi <= v@.len(),
            r@ == v@.subrange(lo as int, i as int),
        decreases hi - i,
    {
        r.push(v[i]);
        i = i + 1;
        assert(v@.subrange(lo as int, i as int) =~= v@.subrange(lo as int, i - 1).push(v@[i - 1]));
    }
    r
}


/// Collapsing keeps the last character, and leaves no two slashes side by side.
pub proof fn lemma_collapse_slashes(cs: Seq<char>)
    ensures
        cs.len() > 0 ==> collapse_slashes(cs).len() > 0 && collapse_slashes(cs).last() == cs.last(),
        forall|i: int|
            0 <= i < collapse_slashes(cs).len() - 1 ==> !(#[trigger] collapse_slashes(cs)[i] == '/'
                && collapse_slashes(cs)[i + 1] == '/'),
    decreases cs.len(),
{
    if cs.len() > 0 {
        let d = cs.drop_last();
        lemma_collapse_slashes(d);
        let r = collapse_slashes(cs);
        let rd = collapse_slashes(d);
        if cs.last() == '/' && cs.len() >= 2 && cs[cs.len() - 2] == '/' {
            assert(d.last() == cs[cs.len() - 2]);
        } else {
            assert(r == rd.push(cs.last()));
            assert forall|i: int| 0 <= i < r.len() - 1 implies !(#[trigger] r[i] == '/' && r[i + 1] == '/') by {
                if i + 1 == r.len() - 1 {
                    if rd.len() > 0 {
                        assert(rd.last() == d.last());
                        assert(r[i] == rd.last());
                    }
                } else {
                    assert(r[i] == rd[i] && r[i + 1] == rd[i + 1]);
                }
            }
        }
    }
}


/// A text without two slashes side by side is left as it is.
pub proof fn lemma_collapse_keeps_single(cs: Seq<char>)
    requires
        forall|i: int| 0 <= i < cs.len() - 1 ==> !(#[trigger] cs[i] == '/' && cs[i + 1] == '/'),
    ensures
        collapse_slashes(cs) == cs,
    decreases cs.len(),
{
    if cs.len() > 0 {
        let d = cs.drop_last();
        assert forall|i: int| 0 <= i < d.len() - 1 implies !(#[trigger] d[i] == '/' && d[i + 1] == '/') by {
            assert(d[i] == cs[i] && d[i + 1] == cs[i + 1]);
        }
        lemma_collapse_keeps_single(d);
        if cs.len() >= 2 {
            assert(!(cs[cs.len() - 2] == '/' && cs[cs.len() - 1] == '/'));
        }
        assert(d.push(cs.last()) =~= cs);
    }
}

/// Collapsing twice is collapsing once.
pub proof fn lemma_collapse_idempotent(cs: Seq<char>)
    ensures
        collapse_slashes(collapse_slashes(cs)) == collapse_slashes(cs),
{
    lemma_collapse_slashes(cs);
    lemma_collapse_keeps_single(collapse_slashes(cs));
}

/// Collapsing a front part first changes nothing: the runs of slashes come
/// out the same.
pub proof fn lemma_collapse_prefix(a: Seq<char>, b: Seq<char>)
    ensures
        collapse_slashes(collapse_slashes(a) + b) == collapse_slashes(a + b),
    decreases b.len(),
{
    let x = collapse_slashes(a);
    lemma_collapse_slashes(a);
    if b.len() == 0 {
        assert(x + b =~= x);
        assert(a + b =~= a);
        lemma_collapse_idempotent(a);
    } else {
        let bd = b.drop_last();
        lemma_collapse_prefix(a, bd);
        let l = x + b;
        let r = a + b;
        assert(l.drop_last() =~= x + bd);
        assert(r.drop_last() =~= a + bd);
        assert(l.last() == b.last() && r.last() == b.last());
        assert(l.len() >= 2 <==> r.len() >= 2 || (bd.len() == 0 && x.len() >= 1 && a.len() >= 1)) by {
            if a.len() == 0 {
                assert(x.len() == 0);
            }
        }
        if bd.len() > 0 {
            assert(l[l.len() - 2] == bd.last());
            assert(r[r.len() - 2] == bd.last());
        } else if a.len() > 0 {
            assert(l[l.len() - 2] == x.last());
            assert(r[r.len() - 2] == a.last());
        } else {
            assert(x.len() == 0);
        }
    }
}

} // verus!
