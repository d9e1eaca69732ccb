//! Coordinate algebra between the three nested coordinate spaces.
//!
//! World space is the raw coordinate a caller supplies. Chunk space indexes
//! `CHUNK_SIZE` x `CHUNK_SIZE` patches of elevation samples. Heightmap space
//! indexes `HEIGHTMAP_CHUNK_SIZE` x `HEIGHTMAP_CHUNK_SIZE` sections, the unit
//! of bulk generation. All conversions divide with true floor division, so
//! negative coordinates map monotonically instead of collapsing around zero.

use vstd::arithmetic::div_mod::{
    lemma_fundamental_div_mod, lemma_fundamental_div_mod_converse_div,
};
use vstd::prelude::*;

verus! {

/// Side length of one elevation chunk, in world units.
pub const CHUNK_SIZE: i32 = 16;

/// Side length of one elevation chunk, as a usize for buffer addressing.
pub const CHUNK_SIZEU: usize = 16;

/// Side length of one heightmap section, in world units (64 x 64 chunks).
pub const HEIGHTMAP_CHUNK_SIZE: i32 = 1024;

/// The chunk index that contains world coordinate `w`: floor(w / 16).
///
/// Division of `int` by a positive divisor is Euclidean division, which
/// coincides with floor division.
pub open spec fn spec_world_to_chunk(w: int) -> int {
    w / 16
}

/// The heightmap-section index that contains world coordinate `w`:
/// floor(w / 1024).
pub open spec fn spec_world_to_heightmap(w: int) -> int {
    w / 1024
}

/// The world coordinate of the lower edge of chunk `c`.
pub open spec fn spec_chunk_to_world(c: int) -> int {
    16 * c
}

/// Converts a chunk-space coordinate pair to the world-space coordinate of
/// that chunk's lower corner. Exact left inverse of
/// `world_space_to_chunk_space_2d` on 16-aligned inputs.
pub fn chunk_space_to_world_space_2d(x: i32, y: i32) -> (r: (i32, i32))
    requires
        -134217728 <= x <= 134217727,
        -134217728 <= y <= 134217727,
    ensures
        r.0 as int == spec_chunk_to_world(x as int),
        r.1 as int == spec_chunk_to_world(y as int),
{
    (x * CHUNK_SIZE, y * CHUNK_SIZE)
}

/// Converts a world-space coordinate pair to the chunk-space pair containing
/// it, with floor division on both axes.
pub fn world_space_to_chunk_space_2d(x: i32, y: i32) -> (r: (i32, i32))
    ensures
        r.0 as int == spec_world_to_chunk(x as int),
        r.1 as int == spec_world_to_chunk(y as int),
{
    (floor_div_16(x), floor_div_16(y))
}

/// Converts a world-space coordinate pair to the heightmap-space pair
/// containing it, with floor division on both axes.
pub fn world_space_to_heightmap_space_2d(x: i32, y: i32) -> (r: (i32, i32))
    ensures
        r.0 as int == spec_world_to_heightmap(x as int),
        r.1 as int == spec_world_to_heightmap(y as int),
{
    (floor_div_1024(x), floor_div_1024(y))
}

/// Floor division of an `i32` by 16. Never overflows: the quotient of any
/// `i32` by 16 stays strictly inside the `i32` range.
fn floor_div_16(w: i32) -> (q: i32)
    ensures
        q as int == spec_world_to_chunk(w as int),
{
    proof {
        lemma_fundamental_div_mod(w as int, 16);
    }
    match w.checked_div_euclid(16) {
        Some(q) => q,
        None => {
            proof {
                assert(false);
            }
            0
        },
    }
}

/// Floor division of an `i32` by 1024, on the same pattern as `floor_div_16`.
fn floor_div_1024(w: i32) -> (q: i32)
    ensures
        q as int == spec_world_to_heightmap(w as int),
{
    proof {
        lemma_fundamental_div_mod(w as int, 1024);
    }
    match w.checked_div_euclid(1024) {
        Some(q) => q,
        None => {
            proof {
                assert(false);
            }
            0
        },
    }
}

/// Floor-division law: a 16-aligned world coordinate `16n` lands in chunk
/// `n`, and the world coordinate one step below it lands in chunk `n - 1`.
/// In particular negative coordinates are never truncated toward zero.
pub proof fn lemma_world_to_chunk_floor(n: int)
    ensures
        spec_world_to_chunk(16 * n) == n,
        spec_world_to_chunk(16 * n - 1) == n - 1,
{
    lemma_fundamental_div_mod_converse_div(16 * n, 16, n, 0);
    lemma_fundamental_div_mod_converse_div(16 * n - 1, 16, n - 1, 15);
}

/// The same floor-division law for heightmap-section space.
pub proof fn lemma_world_to_heightmap_floor(n: int)
    ensures
        spec_world_to_heightmap(1024 * n) == n,
        spec_world_to_heightmap(1024 * n - 1) == n - 1,
{
    lemma_fundamental_div_mod_converse_div(1024 * n, 1024, n, 0);
    lemma_fundamental_div_mod_converse_div(1024 * n - 1, 1024, n - 1, 1023);
}

/// `chunk_space_to_world_space_2d` is a left inverse of
/// `world_space_to_chunk_space_2d` on 16-aligned world coordinates.
pub proof fn lemma_chunk_world_round_trip(c: int)
    ensures
        spec_world_to_chunk(spec_chunk_to_world(c)) == c,
{
    lemma_world_to_chunk_floor(c);
}

} // verus!
