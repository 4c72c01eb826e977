//! Decisions of the cross-build helper.

use crate::text::chars_of;
use vstd::prelude::*;

verus! {

/// The first index from `i` on that holds a `-` (or the length).
pub open spec fn dash_from(cs: Seq<char>, i: int) -> int
    decreases cs.len() - i,
{
    if 0 <= i < cs.len() && cs[i] != '-' {
        dash_from(cs, i + 1)
    } else {
        i
    }
}

proof fn lemma_dash_from_bound(cs: Seq<char>, i: int)
    requires
        0 <= i <= cs.len(),
    ensures
        i <= dash_from(cs, i) <= cs.len(),
    decreases cs.len() - i,
{
    if i < cs.len() && cs[i] != '-' {
        lemma_dash_from_bound(cs, i + 1);
    }
}

/// The architecture part of a target triple: everything before the first `-`.
pub fn arch_from_target(t: &str) -> (r: &str)
    ensures
        r@ == t@.take(dash_from(t@, 0)),
{
    let cs = chars_of(t);
    let mut i: usize = 0;
    while i < cs.len() && cs[i] != '-'
        invariant
            i <= cs@.len(),
            dash_from(cs@, 0) == dash_from(cs@, i as int),
        decreases cs@.len() - i,
    {
        i = i + 1;
    }
    proof {
        lemma_dash_from_bound(cs@, i as int);
    }
    let r = t.substring_char(0, i);
    assert(t@.subrange(0, i as int) =~= t@.take(i as int));
    r
}

/// No tool for cross-compilation was found.
#[derive(Debug, Clone, Copy, PartialEq, Eq, Structural)]
pub enum CrossToolError {
    NoCrossTool,
}

/// Picks the cross-compilation tool: `cross` when it is installed, else
/// `cargo-zigbuild` when that is, else an error.
pub fn pick_cross_tool(has_cross: bool, has_zigbuild: bool) -> (r: Result<&'static str, CrossToolError>)
    ensures
        has_cross ==> (r matches Ok(tool) && tool@ == "cross"@),
        !has_cross && has_zigbuild ==> (r matches Ok(tool) && tool@ == "cargo-zigbuild"@),
        !has_cross && !has_zigbuild ==> r == Err::<&'static str, CrossToolError>(CrossToolError::NoCrossTool),
{
    if has_cross {
        Ok("cross")
    } else if has_zigbuild {
        Ok("cargo-zigbuild")
    } else {
        Err(CrossToolError::NoCrossTool)
    }
}

} // verus!
