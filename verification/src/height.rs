//! The chunk cache: a map from (chunk x, chunk y, seed) to one elevation
//! chunk of `CHUNK_SIZE` x `CHUNK_SIZE` samples.
//!
//! The cache absorbs bulk-generated heightmap sections of 1024 x 1024
//! samples, splits each into its 64 x 64 grid of chunks, and serves chunks
//! one by one. It also reports which sections around a world position still
//! have to be generated, testing each section by its sentinel chunk: the one
//! chunk at the section's chunk-space origin. Re-ingesting a section
//! overwrites the stored chunks with the newly supplied samples; entries are
//! never appended to, so duplicate generation of one section cannot grow the
//! cache contents.
//!
//! The store is generic in the sample type, which the splitting logic only
//! moves, never inspects.

use crate::chunk::{
    spec_world_to_chunk, spec_world_to_heightmap, world_space_to_chunk_space_2d,
    world_space_to_heightmap_space_2d,
};
use vstd::arithmetic::div_mod::{
    lemma_fundamental_div_mod, lemma_fundamental_div_mod_converse_div,
    lemma_fundamental_div_mod_converse_mod,
};
use vstd::prelude::*;

verus! {

broadcast use vstd::std_specs::vec::axiom_spec_len;

/// One cached chunk, keyed by chunk-space coordinates and seed.
struct ChunkEntry<T> {
    x: i32,
    y: i32,
    seed: i32,
    data: Vec<T>,
}

impl<T> ChunkEntry<T> {
    /// The key of this entry in the cache map.
    spec fn key(&self) -> (int, int, int) {
        (self.x as int, self.y as int, self.seed as int)
    }
}

/// Is `k` the key of some entry of `s`?
spec fn has_key<T>(s: Seq<ChunkEntry<T>>, k: (int, int, int)) -> bool {
    exists|i: int| 0 <= i < s.len() && (#[trigger] s[i].key()) == k
}

/// No two entries of `s` share a key.
spec fn unique_keys<T>(s: Seq<ChunkEntry<T>>) -> bool {
    forall|i: int, j: int|
        0 <= i < j < s.len() ==> (#[trigger] s[i].key()) != (#[trigger] s[j].key())
}

/// The cache map that a sequence of entries represents.
spec fn map_of<T>(s: Seq<ChunkEntry<T>>) -> Map<(int, int, int), Seq<T>> {
    Map::new(
        |k: (int, int, int)| has_key(s, k),
        |k: (int, int, int)|
            s[choose|i: int| 0 <= i < s.len() && (#[trigger] s[i].key()) == k].data@,
    )
}

/// With unique keys, the entry at index `i` is exactly what the map holds
/// under that entry's key.
proof fn lemma_map_of_entry<T>(s: Seq<ChunkEntry<T>>, i: int)
    requires
        unique_keys(s),
        0 <= i < s.len(),
    ensures
        map_of(s).dom().contains(s[i].key()),
        map_of(s)[s[i].key()] == s[i].data@,
{
    assert(has_key(s, s[i].key()));
    let j = choose|j: int| 0 <= j < s.len() && (#[trigger] s[j].key()) == s[i].key();
    if i < j {
        assert(s[i].key() != s[j].key());
    } else if j < i {
        assert(s[j].key() != s[i].key());
    }
}

/// The concurrent elevation-chunk cache of the terrain server, abstracted as
/// a map from (chunk x, chunk y, seed) to the chunk's sample sequence.
pub struct HeightStore<T> {
    entries: Vec<ChunkEntry<T>>,
}

impl<T> View for HeightStore<T> {
    type V = Map<(int, int, int), Seq<T>>;

    closed spec fn view(&self) -> Map<(int, int, int), Seq<T>> {
        map_of(self.entries@)
    }
}

impl<T: Copy> HeightStore<T> {
    /// Internal invariant: entry keys are unique, so the entry list is a
    /// faithful representation of the cache map.
    pub closed spec fn wf(&self) -> bool {
        unique_keys(self.entries@)
    }

    /// Creates an empty cache: no chunk of any seed is present.
    pub fn new() -> (s: Self)
        ensures
            s.wf(),
            s@ == Map::<(int, int, int), Seq<T>>::empty(),
    {
        let s = HeightStore { entries: Vec::new() };
        proof {
            assert(s@ =~= Map::<(int, int, int), Seq<T>>::empty());
        }
        s
    }

    /// The index of the entry holding `(x, y, seed)`, if one is present.
    fn find(&self, x: i32, y: i32, seed: i32) -> (r: Option<usize>)
        requires
            self.wf(),
        ensures
            match r {
                Some(i) => i < self.entries@.len() && self.entries@[i as int].key() == (
                    x as int,
                    y as int,
                    seed as int,
                ),
                None => !self@.dom().contains((x as int, y as int, seed as int)),
            },
    {
        let mut i: usize = 0;
        while i < self.entries.len()
            invariant
                i <= self.entries@.len(),
                forall|t: int|
                    0 <= t < i ==> (#[trigger] self.entries@[t].key()) != (
                        x as int,
                        y as int,
                        seed as int,
                    ),
            decreases self.entries@.len() - i,
        {
            let e = &self.entries[i];
            if e.x == x && e.y == y && e.seed == seed {
                return Some(i);
            }
            i += 1;
        }
        None
    }

    /// Read-only lookup: the stored chunk under `(x, y, seed)`, or `None`
    /// when that chunk has not been generated yet. A `None` is not an error;
    /// it is the designed signal that generation must be scheduled.
    pub fn get_chunk(&self, x: i32, y: i32, seed: i32) -> (r: Option<Vec<T>>)
        requires
            self.wf(),
        ensures
            match r {
                Some(c) => self@.dom().contains((x as int, y as int, seed as int)) && c@ == self@[(
                    x as int,
                    y as int,
                    seed as int,
                )],
                None => !self@.dom().contains((x as int, y as int, seed as int)),
            },
    {
        match self.find(x, y, seed) {
            Some(i) => {
                proof {
                    lemma_map_of_entry(self.entries@, i as int);
                }
                Some(clone_chunk(&self.entries[i].data))
            },
            None => None,
        }
    }
}

impl<T: Copy> Default for HeightStore<T> {
    /// An empty cache, as `new` builds it.
    fn default() -> (s: Self)
        ensures
            s.wf(),
            s@ == Map::<(int, int, int), Seq<T>>::empty(),
    {
        Self::new()
    }
}

/// Does chunk key `k` lie inside the section whose chunk-space origin is
/// `(cx, cy)`, for `seed`? A section spans 64 x 64 chunks.
pub open spec fn in_section(k: (int, int, int), cx: int, cy: int, seed: int) -> bool {
    cx <= k.0 < cx + 64 && cy <= k.1 < cy + 64 && k.2 == seed
}

/// Sub-chunk (j, i) of a row-major 1024 x 1024 section grid: the 16 x 16
/// window whose top-left section-local coordinate is (j*16, i*16), itself
/// kept in row-major order.
pub open spec fn chunk_seq<T>(data: Seq<T>, j: int, i: int) -> Seq<T> {
    Seq::new(256, |b: int| data[(i * 16 + b / 16) * 1024 + j * 16 + b % 16])
}

/// The cache map after a full section grid is ingested at chunk-space origin
/// `(cx, cy)`: every key of that section now holds its sub-chunk of `data`,
/// overwriting any earlier value, and every other key is untouched.
pub open spec fn spec_ingest<T>(
    m: Map<(int, int, int), Seq<T>>,
    cx: int,
    cy: int,
    seed: int,
    data: Seq<T>,
) -> Map<(int, int, int), Seq<T>> {
    Map::new(
        |k: (int, int, int)| m.dom().contains(k) || in_section(k, cx, cy, seed),
        |k: (int, int, int)|
            if in_section(k, cx, cy, seed) {
                chunk_seq(data, k.0 - cx, k.1 - cy)
            } else {
                m[k]
            },
    )
}

/// The cache map while an ingest at `(cx, cy)` is in progress: the first `n`
/// chunks in row-major block order (row block i, column block j, position
/// i*64 + j) have been stored on top of `m`.
spec fn spec_ingest_prefix<T>(
    m: Map<(int, int, int), Seq<T>>,
    cx: int,
    cy: int,
    seed: int,
    data: Seq<T>,
    n: int,
) -> Map<(int, int, int), Seq<T>> {
    Map::new(
        |k: (int, int, int)| m.dom().contains(k) || (in_section(k, cx, cy, seed) && (k.1 - cy) * 64
            + (k.0 - cx) < n),
        |k: (int, int, int)|
            if in_section(k, cx, cy, seed) && (k.1 - cy) * 64 + (k.0 - cx) < n {
                chunk_seq(data, k.0 - cx, k.1 - cy)
            } else {
                m[k]
            },
    )
}

/// Does the chunk at chunk-space (x, y) for seed `sd` lie inside the
/// section at chunk-space origin `(cx, cy)` for `seed`? The comparison is
/// widened to `i64` so that `cx + 64` cannot overflow near the edge of the
/// `i32` range.
fn section_contains(cx: i32, cy: i32, seed: i32, x: i32, y: i32, sd: i32) -> (b: bool)
    ensures
        b == in_section((x as int, y as int, sd as int), cx as int, cy as int, seed as int),
{
    sd == seed && (cx as i64) <= (x as i64) && (x as i64) < (cx as i64) + 64 && (cy as i64) <= (
    y as i64) && (y as i64) < (cy as i64) + 64
}

/// Does the suffix of `s` from index `lo` contain `e` itself?
spec fn suffix_has_entry<T>(s: Seq<ChunkEntry<T>>, lo: int, e: ChunkEntry<T>) -> bool {
    exists|j: int| lo <= j < s.len() && (#[trigger] s[j]) == e
}

/// Pushing an entry with a fresh key onto the entry list inserts exactly
/// that key into the represented map.
proof fn lemma_map_of_push<T>(s: Seq<ChunkEntry<T>>, e: ChunkEntry<T>)
    requires
        unique_keys(s),
        !has_key(s, e.key()),
    ensures
        unique_keys(s.push(e)),
        map_of(s.push(e)) == map_of(s).insert(e.key(), e.data@),
{
    let t = s.push(e);
    let n = s.len() as int;
    assert forall|i: int, j: int| 0 <= i < j < t.len() implies (#[trigger] t[i].key()) != (
    #[trigger] t[j].key()) by {
        if j < n {
            assert(t[i] == s[i] && t[j] == s[j]);
        } else {
            assert(t[j] == e && t[i] == s[i]);
            if t[i].key() == e.key() {
                assert(has_key(s, e.key()));
            }
        }
    }
    assert forall|k: (int, int, int)| #[trigger]
        map_of(t).dom().contains(k) implies map_of(s).insert(e.key(), e.data@).dom().contains(k)
        && map_of(t)[k] == map_of(s).insert(e.key(), e.data@)[k] by {
        let i = choose|i: int| 0 <= i < t.len() && (#[trigger] t[i].key()) == k;
        lemma_map_of_entry(t, i);
        if i < n {
            assert(t[i] == s[i]);
            assert(has_key(s, k));
            lemma_map_of_entry(s, i);
            assert(k != e.key());
        } else {
            assert(t[i] == e);
        }
    }
    assert forall|k: (int, int, int)| #[trigger]
        map_of(s).insert(e.key(), e.data@).dom().contains(k) implies map_of(t).dom().contains(
        k,
    ) by {
        if k == e.key() {
            assert(t[n].key() == k);
        } else {
            let i = choose|i: int| 0 <= i < s.len() && (#[trigger] s[i].key()) == k;
            assert(t[i].key() == k);
        }
    }
    assert(map_of(t) =~= map_of(s).insert(e.key(), e.data@));
}

impl<T: Copy> HeightStore<T> {
    /// Removes every cached chunk of the section at chunk-space origin
    /// `(cx, cy)` for `seed`, leaving all other entries untouched.
    #[verifier::loop_isolation(false)]
    fn remove_section(&mut self, cx: i32, cy: i32, seed: i32)
        requires
            old(self).wf(),
        ensures
            final(self).wf(),
            forall|k: (int, int, int)|
                in_section(k, cx as int, cy as int, seed as int)
                    ==> !final(self)@.dom().contains(k),
            forall|k: (int, int, int)|
                !in_section(k, cx as int, cy as int, seed as int)
                    ==> (final(self)@.dom().contains(k) <==> old(self)@.dom().contains(k)),
            forall|k: (int, int, int)|
                !in_section(k, cx as int, cy as int, seed as int) && old(self)@.dom().contains(k)
                    ==> final(self)@[k] == old(self)@[k],
    {
        let ghost s0 = self.entries@;
        let ghost ci = cx as int;
        let ghost cyi = cy as int;
        let ghost si = seed as int;
        let mut kept: Vec<ChunkEntry<T>> = Vec::new();
        while self.entries.len() > 0
            invariant
                unique_keys(s0),
                self.entries@ == s0.take(self.entries@.len() as int),
                self.entries@.len() <= s0.len(),
                unique_keys(kept@),
                forall|i: int|
                    0 <= i < kept@.len() ==> !in_section((#[trigger] kept@[i]).key(), ci, cyi, si),
                forall|i: int|
                    0 <= i < kept@.len() ==> suffix_has_entry(
                        s0,
                        self.entries@.len() as int,
                        #[trigger] kept@[i],
                    ),
                forall|j: int|
                    self.entries@.len() <= j < s0.len() && !in_section(
                        (#[trigger] s0[j]).key(),
                        ci,
                        cyi,
                        si,
                    ) ==> exists|i: int| 0 <= i < kept@.len() && kept@[i] == s0[j],
            decreases self.entries@.len(),
        {
            let ghost pre = self.entries@;
            let ghost kpre = kept@;
            let e = match self.entries.pop() {
                Some(e) => e,
                None => vstd::pervasive::unreached(),
            };
            let ghost ge = e;
            proof {
                assert(s0.take(pre.len() as int).subrange(0, pre.len() - 1) =~= s0.take(
                    pre.len() - 1,
                ));
                assert(ge == s0[pre.len() - 1]);
            }
            let keep = !section_contains(cx, cy, seed, e.x, e.y, e.seed);
            proof {
                assert(keep == !in_section(ge.key(), ci, cyi, si));
            }
            if keep {
                proof {
                    assert forall|i: int| 0 <= i < kpre.len() implies (#[trigger] kpre[i].key())
                        != ge.key() by {
                        assert(suffix_has_entry(s0, pre.len() as int, kpre[i]));
                        let j = choose|j: int|
                            pre.len() as int <= j < s0.len() && (#[trigger] s0[j]) == kpre[i];
                        assert(s0[pre.len() - 1].key() != s0[j].key());
                    }
                    assert forall|a: int, b: int| 0 <= a < b < kpre.push(ge).len() implies (
                    #[trigger] kpre.push(ge)[a].key()) != (#[trigger] kpre.push(ge)[b].key()) by {
                        if b < kpre.len() {
                            assert(kpre.push(ge)[a] == kpre[a] && kpre.push(ge)[b] == kpre[b]);
                        } else {
                            assert(kpre.push(ge)[b] == ge && kpre.push(ge)[a] == kpre[a]);
                        }
                    }
                }
                kept.push(e);
            }
            proof {
                assert forall|j: int|
                    self.entries@.len() <= j < s0.len() && !in_section(
                        (#[trigger] s0[j]).key(),
                        ci,
                        cyi,
                        si,
                    ) implies exists|i: int| 0 <= i < kept@.len() && (#[trigger] kept@[i]) == s0[
                    j] by {
                    if j == pre.len() - 1 {
                        assert(kept@[kept@.len() - 1] == ge);
                    } else {
                        let i0 = choose|i: int| 0 <= i < kpre.len() && (#[trigger] kpre[i]) == s0[
                        j];
                        assert(kept@[i0] == s0[j]);
                    }
                }
            }
        }
        self.entries = kept;
        proof {
            let ghost s1 = self.entries@;
            let ghost m0 = map_of(s0);
            assert forall|k: (int, int, int)|
                in_section(k, ci, cyi, si) implies !map_of(s1).dom().contains(k) by {
                if has_key(s1, k) {
                    let i = choose|i: int| 0 <= i < s1.len() && (#[trigger] s1[i].key()) == k;
                }
            }
            assert forall|k: (int, int, int)|
                !in_section(k, ci, cyi, si) implies (map_of(s1).dom().contains(k) <==> m0.dom().contains(k))
                && (m0.dom().contains(k) ==> map_of(s1)[k] == m0[k]) by {
                if has_key(s1, k) {
                    let i = choose|i: int| 0 <= i < s1.len() && (#[trigger] s1[i].key()) == k;
                    assert(suffix_has_entry(s0, 0, s1[i]));
                    let j = choose|j: int| 0 <= j < s0.len() && (#[trigger] s0[j]) == s1[i];
                    assert(s0[j].key() == k);
                    assert(has_key(s0, k));
                    if m0.dom().contains(k) {
                        lemma_map_of_entry(s1, i);
                        lemma_map_of_entry(s0, j);
                    }
                }
                if has_key(s0, k) && !has_key(s1, k) {
                    let j = choose|j: int| 0 <= j < s0.len() && (#[trigger] s0[j].key()) == k;
                    assert(!in_section(s0[j].key(), ci, cyi, si));
                    let i = choose|i: int| 0 <= i < s1.len() && s1[i] == s0[j];
                    assert(s1[i].key() == k);
                    assert(false);
                }
            }
        }
    }

    /// Absorbs one bulk-generated heightmap section into the cache.
    ///
    /// `(x, y)` is the world-space position of the section's corner; the
    /// section's chunk-space origin is its floor division by `CHUNK_SIZE`,
    /// so any integer position is placed correctly on both sides of zero.
    /// `data` must hold exactly the section's 1024 x 1024 samples in
    /// row-major order; sample (lx, ly) lives at index `ly*1024 + lx`. The
    /// grid is split into 64 x 64 sub-chunks of 16 x 16 samples, and
    /// sub-chunk (j, i) is stored under key (origin + j, origin + i, seed).
    /// Re-ingesting a section overwrites: the stored chunks equal the newly
    /// supplied samples, whatever was present before.
    #[verifier::loop_isolation(false)]
    pub fn insert_chunks(&mut self, x: i32, y: i32, seed: i32, data: Vec<T>)
        requires
            old(self).wf(),
            data@.len() == 1048576,
        ensures
            final(self).wf(),
            final(self)@ == spec_ingest(
                old(self)@,
                spec_world_to_chunk(x as int),
                spec_world_to_chunk(y as int),
                seed as int,
                data@,
            ),
    {
        let ghost m0 = old(self)@;
        let (cx, cy) = world_space_to_chunk_space_2d(x, y);
        proof {
            lemma_fundamental_div_mod(x as int, 16);
            lemma_fundamental_div_mod(y as int, 16);
            assert(-134217728 <= cx as int <= 134217727);
            assert(-134217728 <= cy as int <= 134217727);
        }
        let ghost ci = cx as int;
        let ghost cyi = cy as int;
        let ghost si = seed as int;
        self.remove_section(cx, cy, seed);
        let ghost m1 = self@;
        proof {
            assert(self@ =~= spec_ingest_prefix(m1, ci, cyi, si, data@, 0));
        }
        let mut i: usize = 0;
        while i < 64
            invariant
                i <= 64,
                self.wf(),
                data@.len() == 1048576,
                -134217728 <= ci <= 134217727,
                -134217728 <= cyi <= 134217727,
                ci == cx as int,
                cyi == cy as int,
                si == seed as int,
                forall|k: (int, int, int)| in_section(k, ci, cyi, si) ==> !m1.dom().contains(k),
                self@ == spec_ingest_prefix(m1, ci, cyi, si, data@, (i as int) * 64),
            decreases 64 - i,
        {
            let mut j: usize = 0;
            while j < 64
                invariant
                    i < 64,
                    j <= 64,
                    self.wf(),
                    data@.len() == 1048576,
                    -134217728 <= ci <= 134217727,
                    -134217728 <= cyi <= 134217727,
                    ci == cx as int,
                    cyi == cy as int,
                    si == seed as int,
                    forall|k: (int, int, int)| in_section(k, ci, cyi, si) ==> !m1.dom().contains(k),
                    self@ == spec_ingest_prefix(m1, ci, cyi, si, data@, (i as int) * 64 + j as int),
                decreases 64 - j,
            {
                let ghost n = (i as int) * 64 + j as int;
                let chunk = build_chunk(&data, j, i);
                let e = ChunkEntry { x: cx + (j as i32), y: cy + (i as i32), seed, data: chunk };
                let ghost ge = e;
                let ghost pre = self.entries@;
                proof {
                    assert(ge.key() == (ci + j, cyi + i, si));
                    assert(in_section(ge.key(), ci, cyi, si));
                    assert((ge.key().1 - cyi) * 64 + (ge.key().0 - ci) == n);
                    assert(!self@.dom().contains(ge.key()));
                    assert(!has_key(pre, ge.key()));
                }
                self.entries.push(e);
                proof {
                    lemma_map_of_push(pre, ge);
                    assert(self@ == spec_ingest_prefix(m1, ci, cyi, si, data@, n).insert(
                        ge.key(),
                        chunk_seq(data@, j as int, i as int),
                    ));
                    assert forall|k: (int, int, int)|
                        in_section(k, ci, cyi, si) && (k.1 - cyi) * 64 + (k.0 - ci) == n implies k
                        == ge.key() by {}
                    assert(spec_ingest_prefix(m1, ci, cyi, si, data@, n).insert(
                        ge.key(),
                        chunk_seq(data@, j as int, i as int),
                    ) =~= spec_ingest_prefix(m1, ci, cyi, si, data@, n + 1));
                }
                j += 1;
            }
            i += 1;
        }
        proof {
            assert forall|k: (int, int, int)|
                in_section(k, ci, cyi, si) implies (k.1 - cyi) * 64 + (k.0 - ci) < 4096 by {}
            assert(spec_ingest_prefix(m1, ci, cyi, si, data@, 4096) =~= spec_ingest(
                m0,
                ci,
                cyi,
                si,
                data@,
            ));
        }
    }
}

/// Extracts sub-chunk (j, i) from a full section grid, reading the 16 x 16
/// window whose top-left section-local coordinate is (j*16, i*16).
fn build_chunk<T: Copy>(data: &Vec<T>, j: usize, i: usize) -> (r: Vec<T>)
    requires
        data@.len() == 1048576,
        j < 64,
        i < 64,
    ensures
        r@ == chunk_seq(data@, j as int, i as int),
{
    let mut out: Vec<T> = Vec::new();
    let mut bi: usize = 0;
    while bi < 16
        invariant
            bi <= 16,
            data@.len() == 1048576,
            j < 64,
            i < 64,
            out@.len() == bi * 16,
            forall|b: int|
                0 <= b < out@.len() ==> out@[b] == chunk_seq(data@, j as int, i as int)[b],
        decreases 16 - bi,
    {
        let mut bj: usize = 0;
        while bj < 16
            invariant
                bi < 16,
                bj <= 16,
                data@.len() == 1048576,
                j < 64,
                i < 64,
                out@.len() == bi * 16 + bj,
                forall|b: int|
                    0 <= b < out@.len() ==> out@[b] == chunk_seq(data@, j as int, i as int)[b],
            decreases 16 - bj,
        {
            let idx = (i * 16 + bi) * 1024 + j * 16 + bj;
            out.push(data[idx]);
            proof {
                let b = (bi * 16 + bj) as int;
                lemma_fundamental_div_mod_converse_div(b, 16, bi as int, bj as int);
                lemma_fundamental_div_mod_converse_mod(b, 16, bi as int, bj as int);
                assert(chunk_seq(data@, j as int, i as int)[b] == data@[idx as int]);
            }
            bj += 1;
        }
        bi += 1;
    }
    proof {
        assert(out@ =~= chunk_seq(data@, j as int, i as int));
    }
    out
}

/// The key triple that a `[x, y, seed]` result entry denotes.
pub open spec fn key_of(a: [i32; 3]) -> (int, int, int) {
    (a[0] as int, a[1] as int, a[2] as int)
}

/// The sentinel chunk key of the `n`-th section (0 <= n < 9, x axis
/// outermost) in the 3 x 3 neighborhood of sections around world position
/// (x, y): the chunk at that section's chunk-space origin.
pub open spec fn candidate_section(x: int, y: int, seed: int, n: int) -> (int, int, int) {
    (
        (spec_world_to_heightmap(x) + n / 3 - 1) * 64,
        (spec_world_to_heightmap(y) + n % 3 - 1) * 64,
        seed,
    )
}

/// The sentinel keys among the first `n` candidate sections around (x, y)
/// whose sentinel chunk is absent from `m`, in scan order.
pub open spec fn missing_prefix<T>(
    m: Map<(int, int, int), Seq<T>>,
    x: int,
    y: int,
    seed: int,
    n: int,
) -> Seq<(int, int, int)>
    decreases n,
{
    if n <= 0 {
        Seq::empty()
    } else {
        missing_prefix(m, x, y, seed, n - 1) + (if m.dom().contains(
            candidate_section(x, y, seed, n - 1),
        ) {
            Seq::<(int, int, int)>::empty()
        } else {
            seq![candidate_section(x, y, seed, n - 1)]
        })
    }
}

/// Every section of the 3 x 3 neighborhood around (x, y) whose sentinel
/// chunk is absent from `m`, as its chunk-space origin key, in scan order.
pub open spec fn spec_missing<T>(
    m: Map<(int, int, int), Seq<T>>,
    x: int,
    y: int,
    seed: int,
) -> Seq<(int, int, int)> {
    missing_prefix(m, x, y, seed, 9)
}

impl<T: Copy> HeightStore<T> {
    /// Which sections around world position `(x, y)` still need bulk
    /// generation for `seed`?
    ///
    /// The section containing the position and its 8 neighbors are each
    /// tested by their sentinel chunk alone -- the chunk at the section's
    /// chunk-space origin -- on the assumption that a section is either
    /// entirely generated or entirely absent. Each absent section is
    /// reported as `[origin chunk x, origin chunk y, seed]`, so a caller can
    /// hand the triple straight to generation and ingest. The call never
    /// mutates the cache.
    #[verifier::loop_isolation(false)]
    pub fn chunks_to_generate(&self, x: i32, y: i32, seed: i32) -> (r: Vec<[i32; 3]>)
        requires
            self.wf(),
        ensures
            r@.len() == spec_missing(self@, x as int, y as int, seed as int).len(),
            forall|t: int|
                0 <= t < r@.len() ==> key_of(#[trigger] r@[t]) == spec_missing(
                    self@,
                    x as int,
                    y as int,
                    seed as int,
                )[t],
    {
        let (sx, sy) = world_space_to_heightmap_space_2d(x, y);
        proof {
            lemma_fundamental_div_mod(x as int, 1024);
            lemma_fundamental_div_mod(y as int, 1024);
            assert(-2097152 <= sx as int <= 2097151);
            assert(-2097152 <= sy as int <= 2097151);
        }
        let mut out: Vec<[i32; 3]> = Vec::new();
        let mut n: usize = 0;
        while n < 9
            invariant
                n <= 9,
                out@.len() == missing_prefix(
                    self@,
                    x as int,
                    y as int,
                    seed as int,
                    n as int,
                ).len(),
                forall|t: int|
                    0 <= t < out@.len() ==> key_of(#[trigger] out@[t]) == missing_prefix(
                        self@,
                        x as int,
                        y as int,
                        seed as int,
                        n as int,
                    )[t],
            decreases 9 - n,
        {
            let dx = (n / 3) as i32 - 1;
            let dy = (n % 3) as i32 - 1;
            let kx = (sx + dx) * 64;
            let ky = (sy + dy) * 64;
            proof {
                assert(kx as int == candidate_section(x as int, y as int, seed as int, n as int).0);
                assert(ky as int == candidate_section(x as int, y as int, seed as int, n as int).1);
            }
            let missing = match self.find(kx, ky, seed) {
                Some(i) => {
                    proof {
                        lemma_map_of_entry(self.entries@, i as int);
                    }
                    false
                },
                None => true,
            };
            proof {
                assert(missing == !self@.dom().contains(
                    candidate_section(x as int, y as int, seed as int, n as int),
                ));
            }
            if missing {
                out.push([kx, ky, seed]);
            }
            n += 1;
        }
        out
    }

    /// How many chunks the cache holds, over all seeds.
    pub fn chunk_count(&self) -> (n: usize)
        requires
            self.wf(),
        ensures
            self@.dom().finite(),
            n == self@.dom().len(),
    {
        proof {
            lemma_map_of_dom_len(self.entries@);
        }
        self.entries.len()
    }
}

/// An entry list with unique keys represents a map with exactly one key per
/// entry.
proof fn lemma_map_of_dom_len<T>(s: Seq<ChunkEntry<T>>)
    requires
        unique_keys(s),
    ensures
        map_of(s).dom().finite(),
        map_of(s).dom().len() == s.len(),
    decreases s.len(),
{
    if s.len() == 0 {
        assert(map_of(s).dom() =~= Set::<(int, int, int)>::empty());
    } else {
        let s1 = s.drop_last();
        let e = s.last();
        assert(unique_keys(s1)) by {
            assert forall|i: int, j: int| 0 <= i < j < s1.len() implies (#[trigger] s1[i].key())
                != (#[trigger] s1[j].key()) by {
                assert(s1[i] == s[i] && s1[j] == s[j]);
            }
        }
        lemma_map_of_dom_len(s1);
        assert(!has_key(s1, e.key())) by {
            if has_key(s1, e.key()) {
                let i = choose|i: int| 0 <= i < s1.len() && (#[trigger] s1[i].key()) == e.key();
                assert(s[i] == s1[i]);
                assert(s[i].key() != s[s.len() - 1].key());
            }
        }
        assert(map_of(s).dom() =~= map_of(s1).dom().insert(e.key())) by {
            assert forall|k: (int, int, int)| #[trigger]
                has_key(s, k) implies has_key(s1, k) || k == e.key() by {
                let i = choose|i: int| 0 <= i < s.len() && (#[trigger] s[i].key()) == k;
                if i < s.len() - 1 {
                    assert(s1[i] == s[i]);
                    assert(has_key(s1, k));
                }
            }
            assert forall|k: (int, int, int)| #[trigger]
                has_key(s1, k) implies has_key(s, k) by {
                let i = choose|i: int| 0 <= i < s1.len() && (#[trigger] s1[i].key()) == k;
                assert(s[i] == s1[i]);
            }
            assert(has_key(s, e.key()));
        }
    }
}

/// A missing-sections report never names a section whose sentinel chunk is
/// already present in the map: helper induction over the scan prefix.
proof fn lemma_missing_prefix_absent<T>(
    m: Map<(int, int, int), Seq<T>>,
    x: int,
    y: int,
    seed: int,
    n: int,
    t: int,
)
    requires
        0 <= t < missing_prefix(m, x, y, seed, n).len(),
    ensures
        !m.dom().contains(missing_prefix(m, x, y, seed, n)[t]),
    decreases n,
{
    if n > 0 {
        let p = missing_prefix(m, x, y, seed, n - 1);
        if t < p.len() {
            lemma_missing_prefix_absent(m, x, y, seed, n - 1, t);
        }
    }
}

/// A missing-sections report never names a section whose sentinel chunk is
/// already present in the map.
pub proof fn lemma_missing_sections_absent<T>(
    m: Map<(int, int, int), Seq<T>>,
    x: int,
    y: int,
    seed: int,
    t: int,
)
    requires
        0 <= t < spec_missing(m, x, y, seed).len(),
    ensures
        !m.dom().contains(spec_missing(m, x, y, seed)[t]),
{
    lemma_missing_prefix_absent(m, x, y, seed, 9, t);
}

/// Helper induction: while no cached key carries `seed`, every scanned
/// candidate is reported, so the prefix has full length.
proof fn lemma_missing_prefix_fresh<T>(
    m: Map<(int, int, int), Seq<T>>,
    x: int,
    y: int,
    seed: int,
    n: int,
)
    requires
        0 <= n,
        forall|k: (int, int, int)| m.dom().contains(k) ==> k.2 != seed,
    ensures
        missing_prefix(m, x, y, seed, n).len() == n,
    decreases n,
{
    if n > 0 {
        lemma_missing_prefix_fresh(m, x, y, seed, n - 1);
        assert(candidate_section(x, y, seed, n - 1).2 == seed);
    }
}

/// For a seed that has never been ingested -- no cached key carries it --
/// the missing-sections report has exactly 9 entries, whatever the query
/// position: the section containing it and all 8 neighbors.
pub proof fn lemma_missing_sections_fresh<T>(
    m: Map<(int, int, int), Seq<T>>,
    x: int,
    y: int,
    seed: int,
)
    requires
        forall|k: (int, int, int)| m.dom().contains(k) ==> k.2 != seed,
    ensures
        spec_missing(m, x, y, seed).len() == 9,
{
    lemma_missing_prefix_fresh(m, x, y, seed, 9);
}

/// After a full-section ingest at chunk-space origin (cx, cy), every chunk
/// key of the section is present and holds exactly its 256-sample sub-chunk
/// of the grid -- on both sides of the origin, with no off-by-one shift --
/// and every key outside the section is exactly as before.
pub proof fn lemma_ingest_complete<T>(
    m: Map<(int, int, int), Seq<T>>,
    cx: int,
    cy: int,
    seed: int,
    data: Seq<T>,
    k: (int, int, int),
)
    requires
        data.len() == 1048576,
    ensures
        in_section(k, cx, cy, seed) ==> spec_ingest(m, cx, cy, seed, data).dom().contains(k)
            && spec_ingest(m, cx, cy, seed, data)[k] == chunk_seq(data, k.0 - cx, k.1 - cy)
            && spec_ingest(m, cx, cy, seed, data)[k].len() == 256,
        !in_section(k, cx, cy, seed) ==> (spec_ingest(m, cx, cy, seed, data).dom().contains(k)
            <==> m.dom().contains(k)),
        !in_section(k, cx, cy, seed) && m.dom().contains(k) ==> spec_ingest(
            m,
            cx,
            cy,
            seed,
            data,
        )[k] == m[k],
{
}

/// Ingest is idempotent: ingesting the same section grid twice leaves
/// exactly the map that one ingest produces. Chunk contents are overwritten,
/// never appended to, so the duplicate-generation race cannot grow them.
pub proof fn lemma_ingest_idempotent<T>(
    m: Map<(int, int, int), Seq<T>>,
    cx: int,
    cy: int,
    seed: int,
    data: Seq<T>,
)
    ensures
        spec_ingest(spec_ingest(m, cx, cy, seed, data), cx, cy, seed, data) == spec_ingest(
            m,
            cx,
            cy,
            seed,
            data,
        ),
{
    assert(spec_ingest(spec_ingest(m, cx, cy, seed, data), cx, cy, seed, data) =~= spec_ingest(
        m,
        cx,
        cy,
        seed,
        data,
    ));
}

/// Splitting correctness on a repeating pattern: when every sample of the
/// section grid equals `pat[t % 16]` for some 16-sample pattern `pat`, then
/// every stored chunk of the section repeats the pattern as well: its sample
/// at local index `b` is `pat[b % 16]`. In particular sample `b` equals
/// `pat[b]` for `b` in [0, 16): no transposition or off-by-one in the split.
pub proof fn lemma_ingest_pattern<T>(
    m: Map<(int, int, int), Seq<T>>,
    cx: int,
    cy: int,
    seed: int,
    data: Seq<T>,
    pat: Seq<T>,
    k: (int, int, int),
    b: int,
)
    requires
        data.len() == 1048576,
        pat.len() == 16,
        forall|t: int| 0 <= t < data.len() ==> data[t] == pat[t % 16],
        in_section(k, cx, cy, seed),
        0 <= b < 256,
    ensures
        spec_ingest(m, cx, cy, seed, data)[k][b] == pat[b % 16],
{
    let j = k.0 - cx;
    let i = k.1 - cy;
    let idx = (i * 16 + b / 16) * 1024 + j * 16 + b % 16;
    assert(spec_ingest(m, cx, cy, seed, data)[k][b] == data[idx]);
    assert(0 <= b % 16 < 16 && 0 <= b / 16 < 16) by {
        lemma_fundamental_div_mod(b, 16);
    }
    assert(0 <= idx < 1048576);
    assert(idx == 16 * ((i * 16 + b / 16) * 64 + j) + b % 16);
    lemma_fundamental_div_mod_converse_mod(idx, 16, (i * 16 + b / 16) * 64 + j, b % 16);
    assert(data[idx] == pat[idx % 16]);
}


/// Copies one chunk's samples into a fresh vector.
fn clone_chunk<T: Copy>(v: &Vec<T>) -> (r: Vec<T>)
    ensures
        r@ == v@,
{
    let mut out: Vec<T> = Vec::new();
    let mut i: usize = 0;
    while i < v.len()
        invariant
            i <= v@.len(),
            out@ == v@.take(i as int),
        decreases v@.len() - i,
    {
        out.push(v[i]);
        proof {
            assert(v@.take(i + 1 as int) =~= v@.take(i as int).push(v@[i as int]));
        }
        i += 1;
    }
    proof {
        assert(v@.take(v@.len() as int) =~= v@);
    }
    out
}

} // verus!
