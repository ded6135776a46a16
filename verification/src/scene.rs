//! Compute-scene layout, retained uploads and bin reuse.

use vstd::prelude::*;
use core::ops::Range;
use crate::error::Error;
use crate::layout::{
    SceneLayout, CONTOUR_SECTION, EDGE_SECTION, LUT_SECTION, PAINT_SECTION, POINT_SECTION, TILE_SECTION,
};

verus! {

/// Unchanged words tolerated inside one upload range before it is split.
pub const MERGE_GAP_WORDS: usize = 16;

/// Whether word `i` of `current` must be uploaded over `previous`.
pub open spec fn word_differs(previous: Seq<u32>, current: Seq<u32>, i: int) -> bool {
    i >= previous.len() || previous[i] != current[i]
}

/// The words already resident, or none.
pub open spec fn resident(previous: Option<&[u32]>) -> Seq<u32> {
    match previous {
        Some(p) => p@,
        None => Seq::empty(),
    }
}

/// Some word among `i ..= i + MERGE_GAP_WORDS` changed.
pub open spec fn change_near(previous: Seq<u32>, current: Seq<u32>, i: int) -> bool {
    exists|j: int| i <= j <= i + MERGE_GAP_WORDS && #[trigger] word_differs(previous, current, j)
}

/// `ranges` is the coalesced upload plan of the first `n` words of `current`
/// over `previous`: ordered, non-empty ranges that start and end on changed
/// words, cover every changed word, contain no run of more than
/// `MERGE_GAP_WORDS` unchanged words, and are separated by more than
/// `MERGE_GAP_WORDS` unchanged words.
pub open spec fn dirty_plan_upto(previous: Seq<u32>, current: Seq<u32>, ranges: Seq<Range<usize>>, n: int) -> bool {
    &&& forall|k: int|
        0 <= k < ranges.len() ==> #[trigger] ranges[k].start < ranges[k].end <= n
            && word_differs(previous, current, ranges[k].start as int)
            && word_differs(previous, current, ranges[k].end - 1)
    &&& forall|k: int, l: int|
        #![trigger ranges[k], ranges[l]]
        0 <= k < l < ranges.len() ==> ranges[k].end + MERGE_GAP_WORDS < ranges[l].start
    &&& forall|k: int, i: int|
        #![trigger ranges[k], change_near(previous, current, i)]
        0 <= k < ranges.len() && ranges[k].start <= i && i + MERGE_GAP_WORDS < ranges[k].end
            ==> change_near(previous, current, i)
    &&& forall|i: int|
        0 <= i < n && #[trigger] word_differs(previous, current, i) ==> exists|k: int|
            0 <= k < ranges.len() && #[trigger] ranges[k].start <= i < ranges[k].end
}

/// `ranges` is the coalesced upload plan of all of `current` over `previous`.
pub open spec fn is_dirty_plan(previous: Seq<u32>, current: Seq<u32>, ranges: Seq<Range<usize>>) -> bool {
    dirty_plan_upto(previous, current, ranges, current.len() as int)
}

fn words_equal_at(previous: &[u32], current: &[u32], index: usize) -> (eq: bool)
    requires
        index < current@.len(),
    ensures
        eq == !word_differs(previous@, current@, index as int),
{
    index < previous.len() && previous[index] == current[index]
}

/// Word ranges of `current` that differ from the `previous` upload, merging
/// changes separated by at most `MERGE_GAP_WORDS` unchanged words. Without a
/// previous upload the whole section is one range.
pub fn scene_dirty_ranges(previous: Option<&[u32]>, current: &[u32]) -> (ranges: Vec<Range<usize>>)
    ensures
        is_dirty_plan(resident(previous), current@, ranges@),
{
    let ghost prev = resident(previous);
    let empty: [u32; 0] = [];
    let prev_words: &[u32] = match previous {
        Some(p) => p,
        None => &empty,
    };
    assert(prev_words@ =~= prev);
    let len = current.len();
    let mut ranges: Vec<Range<usize>> = Vec::new();
    let mut index: usize = 0;
    while index < len
        invariant
            len == current@.len(),
            prev_words@ == prev,
            0 <= index <= len,
            dirty_plan_upto(prev, current@, ranges@, index as int),
            ranges@.len() > 0 ==> {
                let last = ranges@.last();
                &&& last.end <= index
                &&& forall|i: int| last.end <= i < index ==> !#[trigger] word_differs(prev, current@, i)
                &&& index < len ==> index - last.end >= MERGE_GAP_WORDS
                &&& index < len && word_differs(prev, current@, index as int) ==> index - last.end > MERGE_GAP_WORDS
            },
        decreases len - index,
    {
        if words_equal_at(prev_words, current, index) {
            index = index + 1;
            continue;
        }
        let start = index;
        index = index + 1;
        let mut last_dirty = index;
        let mut done = false;
        while index < len && !done
            invariant
                len == current@.len(),
                prev_words@ == prev,
                start < last_dirty <= index <= len,
                word_differs(prev, current@, start as int),
                word_differs(prev, current@, last_dirty - 1),
                forall|i: int| last_dirty <= i < index ==> !#[trigger] word_differs(prev, current@, i),
                index - last_dirty <= MERGE_GAP_WORDS,
                done ==> index < len && index - last_dirty == MERGE_GAP_WORDS && !word_differs(prev, current@, index as int),
                forall|i: int| start <= i && i + MERGE_GAP_WORDS < last_dirty
                    ==> #[trigger] change_near(prev, current@, i),
            decreases len - index, if done { 0int } else { 1int },
        {
            if !words_equal_at(prev_words, current, index) {
                let ghost old_last = last_dirty;
                last_dirty = index + 1;
                proof {
                    assert forall|i: int| start <= i && i + MERGE_GAP_WORDS < last_dirty
                        implies #[trigger] change_near(prev, current@, i) by {
                        if i + MERGE_GAP_WORDS < old_last {
                        } else if i <= old_last - 1 {
                            assert(word_differs(prev, current@, old_last - 1));
                        } else {
                            assert(word_differs(prev, current@, index as int));
                        }
                    }
                }
                index = index + 1;
            } else if index - last_dirty >= MERGE_GAP_WORDS {
                done = true;
            } else {
                index = index + 1;
            }
        }
        let ghost old_ranges = ranges@;
        let r = start..last_dirty;
        ranges.push(r);
        proof {
            let rs = ranges@;
            let n = rs.len() - 1;
            assert(rs[n] == r);
            assert forall|k: int| 0 <= k < n implies #[trigger] rs[k] == old_ranges[k] by {}
            assert forall|k: int, l: int| #![trigger rs[k], rs[l]] 0 <= k < l < rs.len() implies rs[k].end
                + MERGE_GAP_WORDS < rs[l].start by {
                if l == n {
                    assert(old_ranges.last() == rs[n - 1]);
                    if k < n - 1 {
                        assert(old_ranges[k].end + MERGE_GAP_WORDS < old_ranges[n - 1].start);
                    }
                }
            }
            assert forall|i: int| 0 <= i < index && #[trigger] word_differs(prev, current@, i) implies exists|k: int|
                0 <= k < rs.len() && #[trigger] rs[k].start <= i < rs[k].end by {
                if i < start {
                    if n > 0 && i >= old_ranges.last().end {
                    } else {
                        let k = choose|k: int| 0 <= k < old_ranges.len() && #[trigger] old_ranges[k].start <= i < old_ranges[k].end;
                        assert(rs[k] == old_ranges[k]);
                    }
                } else {
                    assert(rs[n].start <= i < rs[n].end);
                }
            }
            assert forall|k: int, i: int| #![trigger rs[k], change_near(prev, current@, i)]
                0 <= k < rs.len() && rs[k].start <= i && i + MERGE_GAP_WORDS < rs[k].end
                implies change_near(prev, current@, i) by {
                if k < n {
                    assert(rs[k] == old_ranges[k]);
                }
            }
        }
    }
    ranges
}

/// A section identical to what is resident uploads nothing.
pub proof fn law_unchanged_section_uploads_nothing(current: Seq<u32>, ranges: Seq<Range<usize>>)
    requires
        is_dirty_plan(current, current, ranges),
    ensures
        ranges.len() == 0,
{
    assert forall|k: int| 0 <= k < ranges.len() implies (#[trigger] ranges[k]).start < ranges[k].end <= current.len()
        && word_differs(current, current, ranges[k].start as int) by {}
    if ranges.len() > 0 {
        assert(ranges[0].start < ranges[0].end);
    }
}

/// With nothing resident, a non-empty section is uploaded whole, as one
/// range; an empty one not at all.
pub proof fn law_first_upload_is_whole_section(current: Seq<u32>, ranges: Seq<Range<usize>>)
    requires
        is_dirty_plan(Seq::empty(), current, ranges),
    ensures
        current.len() == 0 ==> ranges.len() == 0,
        current.len() > 0 ==> ranges.len() == 1 && ranges[0].start == 0 && ranges[0].end == current.len(),
{
    let prev = Seq::<u32>::empty();
    assert forall|k: int| 0 <= k < ranges.len() implies (#[trigger] ranges[k]).start < ranges[k].end <= current.len() by {}
    if ranges.len() > 0 {
        assert(ranges[0].start < ranges[0].end);
    }
    if ranges.len() >= 2 {
        let e = ranges[0].end as int;
        assert(ranges[0].end + MERGE_GAP_WORDS < ranges[1].start);
        assert(e < current.len());
        assert(word_differs(prev, current, e));
        let k = choose|k: int| 0 <= k < ranges.len() && #[trigger] ranges[k].start <= e < ranges[k].end;
        if k > 0 {
            if k > 1 {
                assert(ranges[1].end + MERGE_GAP_WORDS < ranges[k].start);
                assert(ranges[1].start < ranges[1].end);
            }
        }
        assert(false);
    }
    if current.len() > 0 {
        assert(word_differs(prev, current, 0));
        let k0 = choose|k: int| 0 <= k < ranges.len() && #[trigger] ranges[k].start <= 0 < ranges[k].end;
        let last = current.len() - 1;
        assert(word_differs(prev, current, last));
        let k1 = choose|k: int| 0 <= k < ranges.len() && #[trigger] ranges[k].start <= last < ranges[k].end;
    }
}

/// Multiplier of the 64-bit FNV-1a hash.
pub const FNV_PRIME: u64 = 0x0000_0100_0000_01b3;
/// Starting value of the first hash lane.
pub const KEY_SEED_A: u64 = 0xcbf2_9ce4_8422_2325;
/// Starting value of the second hash lane.
pub const KEY_SEED_B: u64 = 0x8422_2325_cbf2_9ce4;

/// `x` rotated left by 13 bits.
pub open spec fn rotl32_13(x: u32) -> u32 {
    (x << 13u32) | (x >> 19u32)
}

/// `x` rotated left by 17 bits.
pub open spec fn rotl64_17(x: u64) -> u64 {
    (x << 17u64) | (x >> 47u64)
}

/// One step of the two-lane key hash: FNV-1a on the word in the first lane,
/// FNV-1a on the rotated word followed by a rotation in the second.
pub open spec fn mix_pair(state: (u64, u64), word: u32) -> (u64, u64) {
    (
        vstd::wrapping::u64_specs::wrapping_mul(state.0 ^ (word as u64), FNV_PRIME),
        rotl64_17(vstd::wrapping::u64_specs::wrapping_mul(state.1 ^ (rotl32_13(word) as u64), FNV_PRIME)),
    )
}

/// The two-lane key hash of `words`, in order, from `state`.
pub open spec fn mix_all(state: (u64, u64), words: Seq<u32>) -> (u64, u64)
    decreases words.len(),
{
    if words.len() == 0 {
        state
    } else {
        mix_pair(mix_all(state, words.drop_last()), words.last())
    }
}

/// The two-lane key hash of `words` from the fixed seeds.
pub open spec fn key_hash(words: Seq<u32>) -> (u64, u64) {
    mix_all((KEY_SEED_A, KEY_SEED_B), words)
}

/// Mixes one word into the key state.
pub fn mix_key_word(a: u64, b: u64, word: u32) -> (r: (u64, u64))
    ensures
        r == mix_pair((a, b), word),
{
    let rotated: u32 = (word << 13u32) | (word >> 19u32);
    let na = (a ^ (word as u64)).wrapping_mul(FNV_PRIME);
    let nb0 = (b ^ (rotated as u64)).wrapping_mul(FNV_PRIME);
    let nb = (nb0 << 17u64) | (nb0 >> 47u64);
    (na, nb)
}

/// Push constants of the compute renderer.
#[derive(Clone, Copy, Debug, PartialEq, Eq, Structural)]
pub struct ComputePush {
    /// Target width in pixels.
    pub width: u32,
    /// Target height in pixels.
    pub height: u32,
    /// First output word.
    pub output_word: u32,
    /// First point word.
    pub point_word: u32,
    /// First contour word.
    pub contour_word: u32,
    /// First paint word.
    pub paint_word: u32,
    /// First gradient lookup-table word.
    pub lut_word: u32,
    /// Number of paints.
    pub paint_count: u32,
    /// Antialiasing flag, or the binning phase for the bin pipeline.
    pub antialias: u32,
    /// First tile word.
    pub tile_word: u32,
    /// First tile-index word.
    pub tile_index_word: u32,
    /// Tiles per row.
    pub tiles_x: u32,
    /// First edge-bin word.
    pub edge_bin_word: u32,
    /// First edge word.
    pub edge_word: u32,
    /// Tile rows.
    pub tiles_y: u32,
    /// Bit 0: 16-bit tile indices; bit 1: 16-bit edge indices; bit 2: RGBA
    /// output order; bit 3: alpha-only output.
    pub compact_flags: u32,
}

/// Scene words of one frame, their layout and push constants.
pub struct ComputeScene {
    /// Words of each section.
    pub sections: [Vec<u32>; 8],
    /// Placement of the sections.
    pub layout: SceneLayout,
    /// Push constants.
    pub push: ComputePush,
}

/// Hash of the scene inputs that decide tile and edge binning.
#[derive(Clone, Copy, Debug, PartialEq, Eq, Structural)]
pub struct BinKey {
    /// First hash lane.
    pub a: u64,
    /// Second hash lane.
    pub b: u64,
}

/// Words of each 24-word paint record that affect binning: contour span,
/// then the four bounds.
pub open spec fn paint_bin_words(paints: Seq<u32>, chunks: int) -> Seq<u32>
    decreases chunks,
{
    if chunks <= 0 {
        Seq::empty()
    } else {
        let base = 24 * (chunks - 1);
        paint_bin_words(paints, chunks - 1) + seq![
            paints[base],
            paints[base + 1],
            paints[base + 20],
            paints[base + 21],
            paints[base + 22],
            paints[base + 23],
        ]
    }
}

/// The words a bin key hashes: target and paint-count push constants, the
/// point and contour sections each preceded by its length, and the binning
/// words of every paint record.
pub open spec fn bin_key_words(scene: &ComputeScene) -> Seq<u32> {
    let points = scene.sections@[POINT_SECTION as int]@;
    let contours = scene.sections@[CONTOUR_SECTION as int]@;
    let paints = scene.sections@[PAINT_SECTION as int]@;
    seq![
        scene.push.width,
        scene.push.height,
        scene.push.paint_count,
        scene.push.tiles_x,
        scene.push.tiles_y,
        scene.push.compact_flags,
    ] + seq![points.len() as u32] + points + seq![contours.len() as u32] + contours + paint_bin_words(
        paints,
        (paints.len() / 24) as int,
    )
}

proof fn lemma_paint_bin_step(paints: Seq<u32>, c: int, base: Seq<u32>, c0: Seq<u32>, c6: Seq<u32>)
    requires
        0 <= c,
        24 * c + 24 <= paints.len(),
        c0 == base + paint_bin_words(paints, c),
        c6 == c0.push(paints[24 * c]).push(paints[24 * c + 1]).push(paints[24 * c + 20]).push(
            paints[24 * c + 21],
        ).push(paints[24 * c + 22]).push(paints[24 * c + 23]),
    ensures
        c6 == base + paint_bin_words(paints, c + 1),
{
    assert(c6 =~= base + paint_bin_words(paints, c + 1));
}

proof fn lemma_paint_bin_words_agree(p1: Seq<u32>, p2: Seq<u32>, chunks: int)
    requires
        0 <= chunks,
        24 * chunks <= p1.len(),
        p1.len() == p2.len(),
        forall|i: int|
            0 <= i < p1.len() && (i % 24 == 0 || i % 24 == 1 || i % 24 >= 20) ==> #[trigger] p1[i] == p2[i],
    ensures
        paint_bin_words(p1, chunks) == paint_bin_words(p2, chunks),
    decreases chunks,
{
    if chunks > 0 {
        lemma_paint_bin_words_agree(p1, p2, chunks - 1);
        let base = 24 * (chunks - 1);
        assert(p1[base] == p2[base]);
        assert(p1[base + 1] == p2[base + 1]);
        assert(p1[base + 20] == p2[base + 20]);
        assert(p1[base + 21] == p2[base + 21]);
        assert(p1[base + 22] == p2[base + 22]);
        assert(p1[base + 23] == p2[base + 23]);
    }
}

/// Only the spatial inputs of a scene decide its bin key: scenes that agree
/// on the target, paint count, tiling and output flags, on their point and
/// contour sections, and on the contour span and bounds of every paint
/// record have the same key, whatever their paint colors, kinds, rules or
/// gradients.
pub proof fn law_bin_key_tracks_only_spatial_inputs(s1: ComputeScene, s2: ComputeScene)
    requires
        s1.push.width == s2.push.width,
        s1.push.height == s2.push.height,
        s1.push.paint_count == s2.push.paint_count,
        s1.push.tiles_x == s2.push.tiles_x,
        s1.push.tiles_y == s2.push.tiles_y,
        s1.push.compact_flags == s2.push.compact_flags,
        s1.sections@[POINT_SECTION as int]@ == s2.sections@[POINT_SECTION as int]@,
        s1.sections@[CONTOUR_SECTION as int]@ == s2.sections@[CONTOUR_SECTION as int]@,
        s1.sections@[PAINT_SECTION as int]@.len() == s2.sections@[PAINT_SECTION as int]@.len(),
        forall|i: int|
            0 <= i < s1.sections@[PAINT_SECTION as int]@.len() && (i % 24 == 0 || i % 24 == 1 || i % 24 >= 20)
                ==> #[trigger] s1.sections@[PAINT_SECTION as int]@[i] == s2.sections@[PAINT_SECTION as int]@[i],
    ensures
        key_hash(bin_key_words(&s1)) == key_hash(bin_key_words(&s2)),
{
    let p1 = s1.sections@[PAINT_SECTION as int]@;
    let p2 = s2.sections@[PAINT_SECTION as int]@;
    let chunks = (p1.len() / 24) as int;
    assert(24 * chunks <= p1.len());
    lemma_paint_bin_words_agree(p1, p2, chunks);
    assert(bin_key_words(&s1) =~= bin_key_words(&s2));
}

/// Hashing one more word is one more mixing step.
pub proof fn lemma_key_hash_push(s: Seq<u32>, w: u32)
    ensures
        key_hash(s.push(w)) == mix_pair(key_hash(s), w),
{
    assert(s.push(w).drop_last() =~= s);
}

/// A key of the spatial scene inputs: bins built for one frame can be reused
/// by another frame with the same key.
pub fn compute_bin_key(scene: &ComputeScene) -> (res: Result<BinKey, Error>)
    ensures
        res is Ok <==> scene.sections@[POINT_SECTION as int]@.len() <= u32::MAX
            && scene.sections@[CONTOUR_SECTION as int]@.len() <= u32::MAX
            && scene.sections@[PAINT_SECTION as int]@.len() % 24 == 0,
        res is Err ==> res == Err::<BinKey, Error>(Error::FrameTooLarge),
        res matches Ok(key) ==> (key.a, key.b) == key_hash(bin_key_words(scene)),
{
    let mut state: (u64, u64) = (KEY_SEED_A, KEY_SEED_B);
    let ghost mut consumed: Seq<u32> = Seq::empty();
    let head: [u32; 6] = [
        scene.push.width,
        scene.push.height,
        scene.push.paint_count,
        scene.push.tiles_x,
        scene.push.tiles_y,
        scene.push.compact_flags,
    ];
    let mut i: usize = 0;
    while i < 6
        invariant
            0 <= i <= 6,
            consumed == head@.subrange(0, i as int),
            state == key_hash(consumed),
        decreases 6 - i,
    {
        state = mix_key_word(state.0, state.1, head[i]);
        proof {
            let next = consumed.push(head@[i as int]);
            assert(next.drop_last() =~= consumed);
            consumed = next;
        }
        i = i + 1;
        assert(consumed =~= head@.subrange(0, i as int));
    }
    let ghost points = scene.sections@[POINT_SECTION as int]@;
    let ghost contours = scene.sections@[CONTOUR_SECTION as int]@;
    let mut pass: usize = 0;
    while pass < 2
        invariant
            0 <= pass <= 2,
            points == scene.sections@[POINT_SECTION as int]@,
            contours == scene.sections@[CONTOUR_SECTION as int]@,
            pass >= 1 ==> points.len() <= u32::MAX,
            pass >= 2 ==> contours.len() <= u32::MAX,
            consumed == (if pass == 0 {
                head@
            } else if pass == 1 {
                head@ + seq![points.len() as u32] + points
            } else {
                head@ + seq![points.len() as u32] + points + seq![contours.len() as u32] + contours
            }),
            state == key_hash(consumed),
        decreases 2 - pass,
    {
        let section: &Vec<u32> = if pass == 0 { &scene.sections[POINT_SECTION] } else { &scene.sections[CONTOUR_SECTION] };
        let n = section.len();
        if n > 0xffff_ffffusize {
            return Err(Error::FrameTooLarge);
        }
        state = mix_key_word(state.0, state.1, n as u32);
        proof {
            let next = consumed.push(n as u32);
            assert(next.drop_last() =~= consumed);
            consumed = next;
        }
        let ghost base = consumed;
        let mut k: usize = 0;
        while k < n
            invariant
                0 <= k <= n,
                n == section@.len(),
                consumed == base + section@.subrange(0, k as int),
                state == key_hash(consumed),
            decreases n - k,
        {
            state = mix_key_word(state.0, state.1, section[k]);
            proof {
                let next = consumed.push(section@[k as int]);
                assert(next.drop_last() =~= consumed);
                consumed = next;
            }
            k = k + 1;
            assert(consumed =~= base + section@.subrange(0, k as int));
        }
        assert(section@.subrange(0, n as int) =~= section@);
        pass = pass + 1;
        assert(consumed =~= (if pass == 1 {
            head@ + seq![points.len() as u32] + points
        } else {
            head@ + seq![points.len() as u32] + points + seq![contours.len() as u32] + contours
        }));
    }
    let paints: &Vec<u32> = &scene.sections[PAINT_SECTION];
    if paints.len() % 24 != 0 {
        return Err(Error::FrameTooLarge);
    }
    let plen = paints.len();
    let chunks = plen / 24;
    let ghost base = consumed;
    let mut c: usize = 0;
    while c < chunks
        invariant
            0 <= c <= chunks,
            24 * chunks == plen,
            plen == paints@.len(),
            consumed == base + paint_bin_words(paints@, c as int),
            state == key_hash(consumed),
        decreases chunks - c,
    {
        assert(24 * c + 24 <= 24 * chunks) by (nonlinear_arith)
            requires c < chunks;
        assert(24 * c + 24 <= 24 * chunks) by (nonlinear_arith)
            requires c < chunks;
        let at = 24 * c;
        assert(at + 24 <= paints.len());
        let ghost c0 = consumed;
        assert(at == 24 * c);
        let w0 = paints[at];
        let w1 = paints[at + 1];
        let w2 = paints[at + 20];
        let w3 = paints[at + 21];
        let w4 = paints[at + 22];
        let w5 = paints[at + 23];
        state = mix_key_word(state.0, state.1, w0);
        proof { lemma_key_hash_push(consumed, w0); consumed = consumed.push(w0); }
        state = mix_key_word(state.0, state.1, w1);
        proof { lemma_key_hash_push(consumed, w1); consumed = consumed.push(w1); }
        state = mix_key_word(state.0, state.1, w2);
        proof { lemma_key_hash_push(consumed, w2); consumed = consumed.push(w2); }
        state = mix_key_word(state.0, state.1, w3);
        proof { lemma_key_hash_push(consumed, w3); consumed = consumed.push(w3); }
        state = mix_key_word(state.0, state.1, w4);
        proof { lemma_key_hash_push(consumed, w4); consumed = consumed.push(w4); }
        state = mix_key_word(state.0, state.1, w5);
        proof {
            lemma_key_hash_push(consumed, w5);
            consumed = consumed.push(w5);
            lemma_paint_bin_step(paints@, c as int, base, c0, consumed);
        }
        c = c + 1;
    }
    assert(consumed =~= bin_key_words(scene));
    Ok(BinKey { a: state.0, b: state.1 })
}

/// Tile and edge sections of `current` sit where they sat in `previous`, so
/// bins retained in the buffer are still addressed correctly.
pub fn retained_bin_layout_matches(previous: SceneLayout, current: SceneLayout) -> (r: bool)
    ensures
        r == forall|i: int| TILE_SECTION <= i <= EDGE_SECTION ==> #[trigger] current.section_kept(previous, i),
{
    let mut i: usize = TILE_SECTION;
    while i <= EDGE_SECTION
        invariant
            TILE_SECTION <= i <= EDGE_SECTION + 1,
            forall|k: int| TILE_SECTION <= k < i ==> #[trigger] current.section_kept(previous, k),
        decreases EDGE_SECTION + 1 - i,
    {
        if previous.offsets[i] != current.offsets[i] || previous.capacities[i] != current.capacities[i] {
            assert(!current.section_kept(previous, i as int));
            return false;
        }
        i = i + 1;
    }
    true
}

/// Upload statistics domain of a section: 0 geometry, 1 paint, 2 bins.
pub open spec fn section_domain(section: int) -> int {
    if section == POINT_SECTION || section == CONTOUR_SECTION {
        0
    } else if section == PAINT_SECTION || section == LUT_SECTION {
        1
    } else {
        2
    }
}

/// Upload statistics domain of a section: 0 geometry, 1 paint, 2 bins.
pub fn scene_section_domain(section: usize) -> (d: usize)
    ensures
        d == section_domain(section as int),
{
    if section == POINT_SECTION || section == CONTOUR_SECTION {
        0
    } else if section == PAINT_SECTION || section == LUT_SECTION {
        1
    } else {
        2
    }
}

} // verus!
