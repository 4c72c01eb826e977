//! What the remote host says about itself, and whether the scanner must be
//! uploaded to it.

use crate::text::{chars_eq, chars_of, string_of, sub_chars};
use vstd::prelude::*;

verus! {

broadcast use vstd::string::group_string_axioms;

/// Unicode `White_Space`, the characters `char::is_whitespace` accepts.
pub open spec fn is_space(c: char) -> bool {
    let u = c as u32;
    ||| 9 <= u <= 13
    ||| u == 32
    ||| u == 0x85
    ||| u == 0xa0
    ||| u == 0x1680
    ||| 0x2000 <= u <= 0x200a
    ||| u == 0x2028
    ||| u == 0x2029
    ||| u == 0x202f
    ||| u == 0x205f
    ||| u == 0x3000
}

fn is_space_exec(c: char) -> (r: bool)
    ensures
        r == is_space(c),
{
    let u = c as u32;
    (9 <= u && u <= 13) || u == 32 || u == 0x85 || u == 0xa0 || u == 0x1680 || (0x2000 <= u && u
        <= 0x200a) || u == 0x2028 || u == 0x2029 || u == 0x202f || u == 0x205f || u == 0x3000
}

/// The pieces of `cs` between newlines (an empty text is one empty piece).
pub open spec fn split_lines(cs: Seq<char>) -> Seq<Seq<char>>
    decreases cs.len(),
{
    if cs.len() == 0 {
        seq![Seq::empty()]
    } else {
        let prev = split_lines(cs.drop_last());
        if cs.last() == '\n' {
            prev.push(Seq::empty())
        } else {
            prev.update(prev.len() - 1, prev.last().push(cs.last()))
        }
    }
}

/// The first index from `i` on that holds no white space (or the length).
pub open spec fn lead(cs: Seq<char>, i: int) -> int
    decreases cs.len() - i,
{
    if 0 <= i < cs.len() && is_space(cs[i]) {
        lead(cs, i + 1)
    } else {
        i
    }
}

/// The end of `cs.take(j)` once trailing white space is dropped.
pub open spec fn trail(cs: Seq<char>, j: int) -> int
    decreases j,
{
    if 0 < j <= cs.len() && is_space(cs[j - 1]) {
        trail(cs, j - 1)
    } else {
        j
    }
}

/// `cs` without leading and trailing white space.
pub open spec fn trim(cs: Seq<char>) -> Seq<char> {
    let lo = lead(cs, 0);
    let hi = trail(cs, cs.len() as int);
    if lo >= hi {
        Seq::empty()
    } else {
        cs.subrange(lo, hi)
    }
}

/// The end of the run of non-white-space characters starting at `i`.
pub open spec fn word_end(cs: Seq<char>, i: int) -> int
    decreases cs.len() - i,
{
    if 0 <= i < cs.len() && !is_space(cs[i]) {
        word_end(cs, i + 1)
    } else {
        i
    }
}

/// A white-space separated word starts at `i`.
pub open spec fn word_starts(cs: Seq<char>, i: int) -> bool {
    0 <= i < cs.len() && !is_space(cs[i]) && (i == 0 || is_space(cs[i - 1]))
}

/// What follows `build=` in the first word from index `i` on that starts with it.
pub open spec fn find_build_from(cs: Seq<char>, i: int) -> Option<Seq<char>>
    decreases cs.len() - i,
{
    if i < 0 || i >= cs.len() {
        None
    } else if word_starts(cs, i) && i + 6 <= cs.len() && cs.subrange(i, i + 6) == "build="@ {
        Some(cs.subrange(i + 6, word_end(cs, i)))
    } else {
        find_build_from(cs, i + 1)
    }
}

/// The architecture names the remote may report.
pub open spec fn is_arch(l: Seq<char>) -> bool {
    l == "x86_64"@ || l == "aarch64"@
}

/// What the remote reported: the architecture (a whole line) and the build
/// (a `build=` word), each the last one seen.
pub struct RemoteInfo {
    pub arch: Option<String>,
    pub build: Option<String>,
}

pub open spec fn opt_view(o: Option<String>) -> Option<Seq<char>> {
    match o {
        Some(s) => Some(s@),
        None => None,
    }
}

/// Takes one line into account: a trimmed line that names an architecture
/// replaces the architecture; a `build=` word replaces the build.
pub open spec fn scan_step(acc: (Option<Seq<char>>, Option<Seq<char>>), raw: Seq<char>) -> (
    Option<Seq<char>>,
    Option<Seq<char>>,
) {
    let l = trim(raw);
    (
        if is_arch(l) {
            Some(l)
        } else {
            acc.0
        },
        match find_build_from(l, 0) {
            Some(v) => Some(v),
            None => acc.1,
        },
    )
}

/// The lines of `ls` taken into account in order.
pub open spec fn scan_lines(ls: Seq<Seq<char>>) -> (Option<Seq<char>>, Option<Seq<char>>)
    decreases ls.len(),
{
    if ls.len() == 0 {
        (None, None)
    } else {
        scan_step(scan_lines(ls.drop_last()), ls.last())
    }
}

/// What the output of the remote version check reports. Splitting at newlines
/// gives the lines `str::lines` gives, up to a trailing carriage return and a
/// final empty line, neither of which can change the result.
pub open spec fn remote_report(cs: Seq<char>) -> (Option<Seq<char>>, Option<Seq<char>>) {
    scan_lines(split_lines(cs))
}

/// The bounds of `v` once leading and trailing white space is dropped.
fn trim_bounds(v: &Vec<char>) -> (r: (usize, usize))
    ensures
        r.0 == lead(v@, 0),
        r.1 == trail(v@, v@.len() as int),
        r.0 <= v@.len(),
        r.1 <= v@.len(),
{
    let mut lo: usize = 0;
    while lo < v.len() && is_space_exec(v[lo])
        invariant
            lo <= v@.len(),
            lead(v@, 0) == lead(v@, lo as int),
        decreases v@.len() - lo,
    {
        lo = lo + 1;
    }
    let mut hi: usize = v.len();
    while hi > 0 && is_space_exec(v[hi - 1])
        invariant
            hi <= v@.len(),
            trail(v@, v@.len() as int) == trail(v@, hi as int),
        decreases hi,
    {
        hi = hi - 1;
    }
    (lo, hi)
}

fn trimmed(v: &Vec<char>) -> (r: Vec<char>)
    ensures
        r@ == trim(v@),
{
    let (lo, hi) = trim_bounds(v);
    if lo >= hi {
        Vec::new()
    } else {
        sub_chars(v, lo, hi)
    }
}

fn word_end_exec(v: &Vec<char>, i: usize) -> (j: usize)
    requires
        i <= v@.len(),
    ensures
        j == word_end(v@, i as int),
        i <= j <= v@.len(),
{
    let mut j = i;
    while j < v.len() && !is_space_exec(v[j])
        invariant
            i <= j <= v@.len(),
            word_end(v@, i as int) == word_end(v@, j as int),
        decreases v@.len() - j,
    {
        j = j + 1;
    }
    j
}

/// What follows `build=` in the first word of `l` that starts with it.
fn find_build(l: &Vec<char>) -> (r: Option<Vec<char>>)
    ensures
        match r {
            Some(v) => find_build_from(l@, 0) == Some(v@),
            None => find_build_from(l@, 0) is None,
        },
{
    let key = chars_of("build=");
    let mut i: usize = 0;
    while i < l.len()
        invariant
            i <= l@.len(),
            key@ == "build="@,
            find_build_from(l@, 0) == find_build_from(l@, i as int),
        decreases l@.len() - i,
    {
        let starts = !is_space_exec(l[i]) && (i == 0 || is_space_exec(l[i - 1]));
        assert(starts == word_starts(l@, i as int));
        if starts && l.len() >= 6 && i <= l.len() - 6 {
            let head = sub_chars(l, i, i + 6);
            if chars_eq(&head, &key) {
                let j = word_end_exec(l, i);
                proof {
                    lemma_word_end_past(l@, i as int);
                }
                return Some(sub_chars(l, i + 6, j));
            }
        }
        i = i + 1;
    }
    None
}

/// A word that starts with `build=` runs at least past it.
proof fn lemma_word_end_past(cs: Seq<char>, i: int)
    requires
        0 <= i,
        i + 6 <= cs.len(),
        cs.subrange(i, i + 6) == "build="@,
    ensures
        word_end(cs, i) >= i + 6,
{
    reveal_strlit("build=");
    assert(cs[i] == cs.subrange(i, i + 6)[0]);
    assert(cs[i + 1] == cs.subrange(i, i + 6)[1]);
    assert(cs[i + 2] == cs.subrange(i, i + 6)[2]);
    assert(cs[i + 3] == cs.subrange(i, i + 6)[3]);
    assert(cs[i + 4] == cs.subrange(i, i + 6)[4]);
    assert(cs[i + 5] == cs.subrange(i, i + 6)[5]);
    assert(word_end(cs, i + 6) >= i + 6) by {
        lemma_word_end_ge(cs, i + 6);
    }
    assert(word_end(cs, i + 5) == word_end(cs, i + 6));
    assert(word_end(cs, i + 4) == word_end(cs, i + 5));
    assert(word_end(cs, i + 3) == word_end(cs, i + 4));
    assert(word_end(cs, i + 2) == word_end(cs, i + 3));
    assert(word_end(cs, i + 1) == word_end(cs, i + 2));
    assert(word_end(cs, i) == word_end(cs, i + 1));
}

proof fn lemma_word_end_ge(cs: Seq<char>, i: int)
    ensures
        word_end(cs, i) >= i,
    decreases cs.len() - i,
{
    if 0 <= i < cs.len() && !is_space(cs[i]) {
        lemma_word_end_ge(cs, i + 1);
    }
}


fn scan_step_exec(arch: Option<Vec<char>>, build: Option<Vec<char>>, raw: &Vec<char>) -> (r: (
    Option<Vec<char>>,
    Option<Vec<char>>,
))
    ensures
        (opt_chars(r.0), opt_chars(r.1)) == scan_step((opt_chars(arch), opt_chars(build)), raw@),
{
    let l = trimmed(raw);
    let x86 = chars_of("x86_64");
    let arm = chars_of("aarch64");
    let is_a = chars_eq(&l, &x86) || chars_eq(&l, &arm);
    let b = find_build(&l);
    let new_build = match b {
        Some(v) => Some(v),
        None => build,
    };
    let new_arch = if is_a {
        Some(l)
    } else {
        arch
    };
    (new_arch, new_build)
}

pub open spec fn opt_chars(o: Option<Vec<char>>) -> Option<Seq<char>> {
    match o {
        Some(v) => Some(v@),
        None => None,
    }
}

fn opt_string(o: Option<Vec<char>>) -> (r: Option<String>)
    ensures
        opt_view(r) == opt_chars(o),
{
    match o {
        Some(v) => Some(string_of(&v)),
        None => None,
    }
}

/// Reads the output of the remote version check (`uname -m`, then the
/// scanner's `wire=.. build=..` line or `build=missing`): see [`remote_report`].
pub fn parse_remote_info(output: &str) -> (r: RemoteInfo)
    ensures
        (opt_view(r.arch), opt_view(r.build)) == remote_report(output@),
{
    let cs = chars_of(output);
    let mut arch: Option<Vec<char>> = None;
    let mut build: Option<Vec<char>> = None;
    let mut cur: Vec<char> = Vec::new();
    let mut k: usize = 0;
    assert(cs@.take(0) =~= Seq::<char>::empty());
    while k < cs.len()
        invariant
            k <= cs@.len(),
            split_lines(cs@.take(k as int)).len() >= 1,
            (opt_chars(arch), opt_chars(build)) == scan_lines(split_lines(cs@.take(k as int)).drop_last()),
            cur@ == split_lines(cs@.take(k as int)).last(),
        decreases cs@.len() - k,
    {
        let c = cs[k];
        let ghost prev = split_lines(cs@.take(k as int));
        assert(cs@.take(k + 1).drop_last() =~= cs@.take(k as int));
        if c == '\n' {
            assert(split_lines(cs@.take(k + 1)) == prev.push(Seq::empty()));
            assert(prev.push(Seq::empty()).drop_last() =~= prev);
            assert(prev.drop_last().push(prev.last()) =~= prev);
            let (a, b) = scan_step_exec(arch, build, &cur);
            arch = a;
            build = b;
            cur = Vec::new();
        } else {
            let ghost upd = prev.update(prev.len() - 1, prev.last().push(c));
            assert(upd.drop_last() =~= prev.drop_last());
            cur.push(c);
        }
        k = k + 1;
    }
    assert(cs@.take(k as int) =~= cs@);
    let ghost all = split_lines(cs@);
    assert(all.drop_last().push(all.last()) =~= all);
    let (a, b) = scan_step_exec(arch, build, &cur);
    RemoteInfo { arch: opt_string(a), build: opt_string(b) }
}

/// The scanner binaries that can be uploaded, one per architecture.
pub struct EmbeddedScanners<'a> {
    pub x86_64: &'a [u8],
    pub aarch64: &'a [u8],
}

/// Why no scanner could be picked.
pub enum PickError {
    /// The remote reported no architecture a scanner exists for; holds the
    /// reported one (empty when none was).
    UnsupportedArch(String),
}

/// Decides whether the scanner must be uploaded, from the output of the
/// remote version check: nothing when the remote build equals `local_build`
/// (a missing build counts as the empty one) or when no scanners are
/// embedded; otherwise the scanner for the reported architecture, or an
/// error when there is none for it.
pub fn pick_bytes_if_needed<'a>(
    output: &str,
    local_build: &str,
    scanners: Option<EmbeddedScanners<'a>>,
) -> (r: Result<Option<&'a [u8]>, PickError>)
    ensures
        ({
            let (arch, build) = remote_report(output@);
            let remote_build = match build {
                Some(b) => b,
                None => Seq::empty(),
            };
            let arch_text = match arch {
                Some(a) => a,
                None => Seq::empty(),
            };
            if remote_build == local_build@ {
                r matches Ok(None)
            } else {
                match scanners {
                    None => r matches Ok(None),
                    Some(sc) => if arch_text == "x86_64"@ {
                        r matches Ok(Some(bytes)) && bytes@ == sc.x86_64@
                    } else if arch_text == "aarch64"@ {
                        r matches Ok(Some(bytes)) && bytes@ == sc.aarch64@
                    } else {
                        r matches Err(PickError::UnsupportedArch(a)) && a@ == arch_text
                    },
                }
            }
        }),
{
    let info = parse_remote_info(output);
    let remote_build = match &info.build {
        Some(b) => chars_of(b.as_str()),
        None => Vec::new(),
    };
    let local = chars_of(local_build);
    if chars_eq(&remote_build, &local) {
        return Ok(None);
    }
    match scanners {
        None => Ok(None),
        Some(sc) => {
            let arch = match &info.arch {
                Some(a) => chars_of(a.as_str()),
                None => Vec::new(),
            };
            if chars_eq(&arch, &chars_of("x86_64")) {
                Ok(Some(sc.x86_64))
            } else if chars_eq(&arch, &chars_of("aarch64")) {
                Ok(Some(sc.aarch64))
            } else {
                Err(PickError::UnsupportedArch(string_of(&arch)))
            }
        },
    }
}

} // verus!
