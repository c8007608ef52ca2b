use vstd::prelude::*;

verus! {

/// Deepest level at which the shading integrator still follows secondary rays.
pub const MAX_DEPTH: u32 = 2;

/// A ray past the maximum depth gets the background color and nothing more.
pub fn past_max_depth(depth: u32) -> (r: bool)
    ensures
        r == (depth > MAX_DEPTH),
{
    depth > MAX_DEPTH
}

/// The depth of a reflected or refracted ray spawned by a hit at `depth`, or
/// `None` when the limit forbids spawning one. Each spawned ray is one level
/// deeper and never past the limit, so the recursion ends.
pub fn secondary_depth(depth: u32) -> (r: Option<u32>)
    ensures
        r == if depth < MAX_DEPTH {
            Some((depth + 1) as u32)
        } else {
            None
        },
        r is Some ==> r.unwrap() > depth && r.unwrap() <= MAX_DEPTH,
{
    if depth < MAX_DEPTH {
        Some(depth + 1)
    } else {
        None
    }
}

/// The most rays one primary ray at `depth` can lead to when every hit spawns
/// both a reflected and a refracted ray.
pub open spec fn max_rays(depth: nat) -> nat
    decreases MAX_DEPTH - depth,
{
    if depth < MAX_DEPTH {
        1 + 2 * max_rays(depth + 1)
    } else {
        1
    }
}

/// A pixel costs at most 2^(MAX_DEPTH + 1) - 1 rays.
pub proof fn lemma_rays_per_pixel_bounded()
    ensures
        max_rays(0) == 7,
{
    assert(max_rays(2) == 1);
    assert(max_rays(1) == 3);
}

} // verus!
