//! The cave sampler's iteration geometry.
//!
//! A cave chunk is a 16 x 16 x 16 cube of density samples. The density
//! function itself is an outside collaborator working on floating-point
//! coordinates; in scope here is the geometry that drives it. For local
//! offsets i, j, k each in [0, 16), the sample point of chunk (cx, cy, cz)
//! has integer world coordinate (cx*16 + i, cy*16 + j, cz*16 + k), and the
//! 4096 points are emitted with i outermost and k innermost, so x varies
//! slowest and z fastest. A sampler divides each coordinate by its fixed
//! noise scale and evaluates the density at the result, in exactly this
//! order.

use crate::height::key_of;
use vstd::arithmetic::div_mod::{
    lemma_fundamental_div_mod_converse_div, lemma_fundamental_div_mod_converse_mod,
};
use vstd::prelude::*;

verus! {

/// The `n`-th sample point of cave chunk (cx, cy, cz), in the nested
/// i -> j -> k order: x varies slowest, z fastest.
pub open spec fn cave_sample_point(cx: int, cy: int, cz: int, n: int) -> (int, int, int) {
    (16 * cx + n / 256, 16 * cy + (n / 16) % 16, 16 * cz + n % 16)
}

/// The 4096 integer world coordinates at which one cave chunk's density
/// cube is sampled, in the contractual i -> j -> k nesting. The bounds keep
/// `16 * c + 15` inside the `i32` range.
#[verifier::loop_isolation(false)]
pub fn cave_chunk_sample_points(cx: i32, cy: i32, cz: i32) -> (points: Vec<[i32; 3]>)
    requires
        -134217728 <= cx <= 134217727,
        -134217728 <= cy <= 134217727,
        -134217728 <= cz <= 134217727,
    ensures
        points@.len() == 4096,
        forall|n: int|
            0 <= n < 4096 ==> key_of(#[trigger] points@[n]) == cave_sample_point(
                cx as int,
                cy as int,
                cz as int,
                n,
            ),
{
    let mut points: Vec<[i32; 3]> = Vec::new();
    let mut i: i32 = 0;
    while i < 16
        invariant
            0 <= i <= 16,
            points@.len() == i * 256,
            forall|n: int|
                0 <= n < points@.len() ==> key_of(#[trigger] points@[n]) == cave_sample_point(
                    cx as int,
                    cy as int,
                    cz as int,
                    n,
                ),
        decreases 16 - i,
    {
        let mut j: i32 = 0;
        while j < 16
            invariant
                0 <= i < 16,
                0 <= j <= 16,
                points@.len() == i * 256 + j * 16,
                forall|n: int|
                    0 <= n < points@.len() ==> key_of(#[trigger] points@[n]) == cave_sample_point(
                        cx as int,
                        cy as int,
                        cz as int,
                        n,
                    ),
            decreases 16 - j,
        {
            let mut k: i32 = 0;
            while k < 16
                invariant
                    0 <= i < 16,
                    0 <= j < 16,
                    0 <= k <= 16,
                    points@.len() == i * 256 + j * 16 + k,
                    forall|n: int|
                        0 <= n < points@.len() ==> key_of(#[trigger] points@[n])
                            == cave_sample_point(cx as int, cy as int, cz as int, n),
                decreases 16 - k,
            {
                points.push([cx * 16 + i, cy * 16 + j, cz * 16 + k]);
                proof {
                    let n = i * 256 + j * 16 + k;
                    lemma_fundamental_div_mod_converse_div(n, 256, i as int, (j * 16 + k) as int);
                    lemma_fundamental_div_mod_converse_div(n, 16, (i * 16 + j) as int, k as int);
                    lemma_fundamental_div_mod_converse_mod(n, 16, (i * 16 + j) as int, k as int);
                    lemma_fundamental_div_mod_converse_mod(
                        (i * 16 + j) as int,
                        16,
                        i as int,
                        j as int,
                    );
                    assert(key_of(points@[n]) == cave_sample_point(cx as int, cy as int, cz as int, n));
                }
                k += 1;
            }
            j += 1;
        }
        i += 1;
    }
    points
}

/// The sample order is the nested i -> j -> k iteration: the point for
/// offsets (i, j, k) stands at position i*256 + j*16 + k, and conversely
/// every position decodes to exactly one offset triple.
pub proof fn lemma_cave_sample_order(cx: int, cy: int, cz: int, i: int, j: int, k: int)
    requires
        0 <= i < 16,
        0 <= j < 16,
        0 <= k < 16,
    ensures
        cave_sample_point(cx, cy, cz, i * 256 + j * 16 + k) == (
            16 * cx + i,
            16 * cy + j,
            16 * cz + k,
        ),
{
    let n = i * 256 + j * 16 + k;
    lemma_fundamental_div_mod_converse_div(n, 256, i, j * 16 + k);
    lemma_fundamental_div_mod_converse_div(n, 16, i * 16 + j, k);
    lemma_fundamental_div_mod_converse_mod(n, 16, i * 16 + j, k);
    lemma_fundamental_div_mod_converse_mod(i * 16 + j, 16, i, j);
}

} // verus!
