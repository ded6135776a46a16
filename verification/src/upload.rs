//! Incremental scene uploads, bin reuse and dispatch sizes of the compute
//! rasterizer.

use vstd::prelude::*;
use core::ops::Range;
use crate::error::Error;
use crate::arena::Point;
use crate::compute::{law_rebuilt_scene_matches, scene_built};
use crate::geometry::{CachedContour, PreparedPaint};
use crate::layout::{SceneLayout, EDGE_SECTION, TILE_SECTION};
use crate::scene::{
    bin_key_words, compute_bin_key, is_dirty_plan, key_hash, resident, retained_bin_layout_matches,
    scene_dirty_ranges, scene_section_domain, section_domain, BinKey, ComputePush, ComputeScene, MERGE_GAP_WORDS,
};

verus! {

broadcast use vstd::array::group_array_axioms;

/// Pixel format of an image target.
#[derive(Clone, Copy, Debug, PartialEq, Eq, Structural)]
pub enum TargetFormat {
    /// Blue, green, red, alpha bytes.
    Bgra8,
    /// Red, green, blue, alpha bytes.
    Rgba8,
    /// Any other format.
    Other,
}

/// Scene words resident in a buffer from the previous upload.
pub struct UploadedScene {
    /// Handle of the buffer holding them.
    pub buffer: u64,
    /// Their placement.
    pub layout: SceneLayout,
    /// Their words, per section.
    pub sections: [Vec<u32>; 8],
}

/// Tile and edge bins left in a buffer by the bin passes.
#[derive(Clone, Copy, Debug, PartialEq, Eq)]
pub struct RetainedBins {
    /// Handle of the buffer holding them.
    pub buffer: u64,
    /// Placement they were built for.
    pub layout: SceneLayout,
    /// Key of the scene they were built for.
    pub key: Option<BinKey>,
}

impl UploadedScene {
    /// Nothing uploaded yet.
    pub fn new() -> (u: Self)
        ensures
            u.buffer == 0,
            forall|s: int| 0 <= s < 8 ==> (#[trigger] u.sections@[s])@.len() == 0,
    {
        UploadedScene {
            buffer: 0,
            layout: SceneLayout::default(),
            sections: [Vec::new(), Vec::new(), Vec::new(), Vec::new(), Vec::new(), Vec::new(), Vec::new(), Vec::new()],
        }
    }
}

impl RetainedBins {
    /// No bins retained.
    pub fn new() -> (b: Self)
        ensures
            b.buffer == 0,
            b.key is None,
    {
        RetainedBins { buffer: 0, layout: SceneLayout::default(), key: None }
    }
}

/// What recording a compute frame does, decided before any command.
pub struct ComputePlan {
    /// Push constants, with the output byte order of the target.
    pub push: ComputePush,
    /// Every paint is a fill, so the stack-free shader suffices.
    pub simple_compute: bool,
    /// Bytes of the output image at the start of the buffer.
    pub output_bytes: u64,
    /// Word ranges of each section to upload.
    pub ranges: Vec<Vec<Range<usize>>>,
    /// Bytes uploaded.
    pub upload_bytes: u64,
    /// Ranges uploaded.
    pub upload_ranges: u32,
    /// Bytes uploaded per domain: geometry, paint, bins.
    pub domain_bytes: [u64; 3],
    /// The bins in the buffer are reused and the bin passes skipped.
    pub reuse_bins: bool,
    /// Key of the scene's bins.
    pub bin_key: BinKey,
    /// Workgroups of the five bin passes.
    pub bin_groups: [u32; 5],
    /// Workgroups of the raster pass, across.
    pub dispatch_x: u32,
    /// Workgroups of the raster pass, down.
    pub dispatch_y: u32,
}

/// Largest byte count of one buffer update command.
pub const MAX_UPDATE_BYTES: usize = 65_536;

/// One buffer update: bytes `start..end` of the payload written at byte
/// `offset` of the buffer.
#[derive(Clone, Copy, Debug, PartialEq, Eq, Structural)]
pub struct UploadChunk {
    /// Byte offset in the buffer.
    pub offset: u64,
    /// First payload byte.
    pub start: usize,
    /// One past the last payload byte.
    pub end: usize,
}

/// Chunk `k` of a payload of `len` bytes written from `target_offset`.
pub open spec fn chunk_at(target_offset: u64, len: int, k: int) -> UploadChunk {
    let start = MAX_UPDATE_BYTES * k;
    UploadChunk {
        offset: (target_offset + start) as u64,
        start: start as usize,
        end: (if start + MAX_UPDATE_BYTES < len { start + MAX_UPDATE_BYTES } else { len }) as usize,
    }
}

/// Number of update commands for `len` bytes.
pub open spec fn chunk_count(len: int) -> int {
    len / (MAX_UPDATE_BYTES as int) + if len % (MAX_UPDATE_BYTES as int) != 0 { 1int } else { 0 }
}

proof fn lemma_chunk_start(len: int, k: int)
    requires
        len >= 0,
        0 <= k < chunk_count(len),
    ensures
        MAX_UPDATE_BYTES * k < len,
{
    let q = len / 65536;
    let r = len % 65536;
    assert(len == 65536 * q + r && 0 <= r < 65536) by (nonlinear_arith)
        requires q == len / 65536, r == len % 65536, len >= 0;
    assert(65536 * k < len) by (nonlinear_arith)
        requires
            len == 65536 * q + r,
            0 <= r < 65536,
            0 <= k,
            k < q + (if r != 0 { 1int } else { 0 }),
    ;
}

/// Splits a payload of `len` bytes written at `target_offset` into buffer
/// updates of at most `MAX_UPDATE_BYTES` bytes, in order; fails when an
/// offset does not fit in 64 bits.
pub fn upload_chunks(target_offset: u64, len: usize) -> (res: Result<Vec<UploadChunk>, Error>)
    ensures
        res is Ok <==> len == 0 || target_offset + MAX_UPDATE_BYTES * (chunk_count(len as int) - 1) <= u64::MAX,
        res is Err ==> res == Err::<Vec<UploadChunk>, Error>(Error::FrameTooLarge),
        res matches Ok(chunks) ==> chunks@.len() == chunk_count(len as int) && forall|k: int|
            0 <= k < chunks@.len() ==> #[trigger] chunks@[k] == chunk_at(target_offset, len as int, k),
{
    let count = len / MAX_UPDATE_BYTES + if len % MAX_UPDATE_BYTES != 0 { 1 } else { 0 };
    let mut chunks: Vec<UploadChunk> = Vec::new();
    let mut k: usize = 0;
    while k < count
        invariant
            count == chunk_count(len as int),
            0 <= k <= count,
            chunks@.len() == k,
            forall|j: int| 0 <= j < k ==> #[trigger] chunks@[j] == chunk_at(target_offset, len as int, j),
            k > 0 ==> target_offset + MAX_UPDATE_BYTES * (k - 1) <= u64::MAX,
        decreases count - k,
    {
        proof {
            lemma_chunk_start(len as int, k as int);
        }
        let start = k * MAX_UPDATE_BYTES;
        if target_offset > u64::MAX - start as u64 {
            proof {
                assert(MAX_UPDATE_BYTES * k <= MAX_UPDATE_BYTES * (chunk_count(len as int) - 1)) by (nonlinear_arith)
                    requires k <= chunk_count(len as int) - 1;
            }
            return Err(Error::FrameTooLarge);
        }
        let end = if len - start > MAX_UPDATE_BYTES { start + MAX_UPDATE_BYTES } else { len };
        chunks.push(UploadChunk { offset: target_offset + start as u64, start, end });
        proof {
            assert(chunks@[k as int] == chunk_at(target_offset, len as int, k as int));
        }
        k = k + 1;
    }
    proof {
        if len > 0 {
            assert(count >= 1);
            lemma_chunk_start(len as int, count - 1);
        }
    }
    Ok(chunks)
}

/// Words covered by the ranges.
pub open spec fn range_words(ranges: Seq<Range<usize>>) -> int
    decreases ranges.len(),
{
    if ranges.len() == 0 {
        0
    } else {
        range_words(ranges.drop_last()) + (ranges.last().end - ranges.last().start)
    }
}

/// Words covered by the ranges of the first `n` sections.
pub open spec fn planned_words(ranges: Seq<Vec<Range<usize>>>, n: int) -> int
    decreases n,
{
    if n <= 0 {
        0
    } else {
        planned_words(ranges, n - 1) + range_words(ranges[n - 1]@)
    }
}

/// Ranges of the first `n` sections.
pub open spec fn planned_ranges(ranges: Seq<Vec<Range<usize>>>, n: int) -> int
    decreases n,
{
    if n <= 0 {
        0
    } else {
        planned_ranges(ranges, n - 1) + ranges[n - 1]@.len()
    }
}

/// Words covered by the ranges of the first `n` sections of domain `d`.
pub open spec fn planned_domain_words(ranges: Seq<Vec<Range<usize>>>, d: int, n: int) -> int
    decreases n,
{
    if n <= 0 {
        0
    } else {
        planned_domain_words(ranges, d, n - 1) + if section_domain(n - 1) == d {
            range_words(ranges[n - 1]@)
        } else {
            0
        }
    }
}

/// Words of the first `n` sections of the scene.
pub open spec fn section_words(scene: ComputeScene, n: int) -> int
    decreases n,
{
    if n <= 0 {
        0
    } else {
        section_words(scene, n - 1) + scene.sections@[n - 1]@.len()
    }
}

/// The words of section `s` that an upload into `buffer` can be compared
/// with: those resident from the previous upload when it went to the same
/// buffer with the section at the same offset, else none.
pub open spec fn previous_words(uploaded: UploadedScene, scene: ComputeScene, buffer: u64, s: int) -> Seq<u32> {
    if uploaded.buffer == buffer && uploaded.layout.offsets@[s] == scene.layout.offsets@[s] {
        uploaded.sections@[s]@
    } else {
        Seq::empty()
    }
}

/// `u` holds `scene`'s words as uploaded into `buffer`.
pub open spec fn holds_scene(u: UploadedScene, buffer: u64, scene: ComputeScene) -> bool {
    &&& u.buffer == buffer
    &&& u.layout == scene.layout
    &&& forall|s: int| 0 <= s < 8 ==> (#[trigger] u.sections@[s])@ == scene.sections@[s]@
}

/// `a` and `b` record the same upload.
pub open spec fn same_upload(a: UploadedScene, b: UploadedScene) -> bool {
    &&& a.buffer == b.buffer
    &&& a.layout == b.layout
    &&& forall|s: int| 0 <= s < 8 ==> (#[trigger] a.sections@[s])@ == b.sections@[s]@
}

/// The key of the scene's bins.
pub open spec fn scene_bin_key(scene: ComputeScene) -> BinKey {
    BinKey { a: key_hash(bin_key_words(&scene)).0, b: key_hash(bin_key_words(&scene)).1 }
}

/// Bins retained in `buffer` were built for this scene at this placement.
pub open spec fn bins_reusable(bins: RetainedBins, buffer: u64, scene: ComputeScene) -> bool {
    &&& bins.buffer == buffer
    &&& bins.key == Some(scene_bin_key(scene))
    &&& forall|i: int| TILE_SECTION <= i <= EDGE_SECTION ==> #[trigger] scene.layout.section_kept(bins.layout, i)
}

/// Workgroups of 64 invocations covering `n`.
pub open spec fn blocks_of(n: u32) -> u32 {
    (if n + 63 > u32::MAX { u32::MAX as int } else { n + 63 }) as u32 / 64
}

/// Workgroups of the five bin passes: count, prefix, scatter, and two more
/// passes over every tile and edge bin.
pub open spec fn bin_pass_groups(push: ComputePush) -> [u32; 5] {
    let tiles = (push.tiles_x * push.tiles_y) as u32;
    let edge_bins = (push.paint_count * push.tiles_y) as u32;
    let all = if tiles >= edge_bins { tiles } else { edge_bins };
    let both = blocks_of(tiles) + blocks_of(edge_bins);
    [
        blocks_of(all),
        (if both > u32::MAX { u32::MAX as int } else { both }) as u32,
        1u32,
        blocks_of(all),
        blocks_of(all),
    ]
}

/// Workgroups of 8 pixels covering `n` pixels.
pub open spec fn raster_groups(n: u32) -> u32 {
    (if n + 7 > u32::MAX { u32::MAX as int } else { n + 7 }) as u32 / 8
}

/// Planning a compute frame for `scene` into `buffer` yields `plan`, and
/// records the upload and the bins the frame leaves behind.
pub open spec fn compute_planned(
    scene: ComputeScene,
    format: TargetFormat,
    paints: Seq<PreparedPaint>,
    buffer: u64,
    uploaded: UploadedScene,
    bins: RetainedBins,
    plan: ComputePlan,
    uploaded_after: UploadedScene,
    bins_after: RetainedBins,
) -> bool {
    let reuse = bins_reusable(bins, buffer, scene);
    let r = plan.ranges@;
    &&& plan.push == ComputePush {
        compact_flags: if format == TargetFormat::Bgra8 {
            scene.push.compact_flags & !4u32
        } else {
            scene.push.compact_flags | 4u32
        },
        ..scene.push
    }
    &&& plan.simple_compute == forall|i: int| 0 <= i < paints.len() ==> (#[trigger] paints[i]).paint_kind < 2
    &&& plan.output_bytes == 4 * scene.layout.output_words
    &&& r.len() == 8
    &&& forall|s: int| 0 <= s < 8 ==> is_dirty_plan(previous_words(uploaded, scene, buffer, s), scene.sections@[s]@, #[trigger] r[s]@)
    &&& plan.upload_bytes == 4 * planned_words(r, 8)
    &&& plan.upload_ranges == planned_ranges(r, 8)
    &&& forall|d: int| 0 <= d < 3 ==> #[trigger] plan.domain_bytes@[d] == 4 * planned_domain_words(r, d, 8)
    &&& plan.reuse_bins == reuse
    &&& plan.bin_key == scene_bin_key(scene)
    &&& plan.bin_groups == bin_pass_groups(scene.push)
    &&& plan.dispatch_x == raster_groups(scene.push.width)
    &&& plan.dispatch_y == raster_groups(scene.push.height)
    &&& holds_scene(uploaded_after, buffer, scene)
    &&& bins_after == if reuse {
        bins
    } else {
        RetainedBins { buffer, layout: scene.layout, key: Some(scene_bin_key(scene)) }
    }
}

/// The scene fits the buffer and every upload offset and count fits.
pub open spec fn plan_fits(scene: ComputeScene, buffer_bytes: u64) -> bool {
    &&& 4 * scene.layout.total_words <= buffer_bytes
    &&& scene.sections@[0]@.len() <= u32::MAX
    &&& scene.sections@[1]@.len() <= u32::MAX
    &&& scene.sections@[2]@.len() % 24 == 0
    &&& forall|s: int| 0 <= s < 8 ==> scene.layout.offsets@[s] + (#[trigger] scene.sections@[s])@.len() <= u32::MAX + 1
    &&& section_words(scene, 8) <= u32::MAX
    &&& scene.push.tiles_x * scene.push.tiles_y <= u32::MAX
    &&& scene.push.paint_count * scene.push.tiles_y <= u32::MAX
}

proof fn lemma_range_words_bound(r: Seq<Range<usize>>, n: int)
    requires
        forall|k: int| 0 <= k < r.len() ==> (#[trigger] r[k]).start < r[k].end <= n,
        forall|k: int, l: int| #![trigger r[k], r[l]] 0 <= k < l < r.len() ==> r[k].end < r[l].start,
    ensures
        r.len() <= range_words(r),
        range_words(r) <= if r.len() == 0 { 0 } else { r.last().end as int },
        range_words(r) <= if n < 0 { 0 } else { n },
    decreases r.len(),
{
    if r.len() > 0 {
        let p = r.drop_last();
        assert forall|k: int| 0 <= k < p.len() implies (#[trigger] p[k]).start < p[k].end <= n by {
            assert(p[k] == r[k]);
        }
        assert forall|k: int, l: int| #![trigger p[k], p[l]] 0 <= k < l < p.len() implies p[k].end < p[l].start by {
            assert(p[k] == r[k] && p[l] == r[l]);
        }
        lemma_range_words_bound(p, n);
        if p.len() > 0 {
            assert(p.last() == r[r.len() - 2]);
            assert(r[r.len() - 2].end < r[r.len() - 1].start);
        }
        assert(r[r.len() - 1].start < r[r.len() - 1].end <= n);
    }
}

proof fn lemma_dirty_plan_words(previous: Seq<u32>, current: Seq<u32>, r: Seq<Range<usize>>)
    requires
        is_dirty_plan(previous, current, r),
    ensures
        r.len() <= range_words(r) <= current.len(),
        forall|k: int| 0 <= k < r.len() ==> (#[trigger] r[k]).start < current.len(),
{
    assert forall|k: int, l: int| #![trigger r[k], r[l]] 0 <= k < l < r.len() implies r[k].end < r[l].start by {
        assert(r[k].end + MERGE_GAP_WORDS < r[l].start);
    }
    assert forall|k: int| 0 <= k < r.len() implies (#[trigger] r[k]).start < r[k].end <= current.len() by {}
    lemma_range_words_bound(r, current.len() as int);
}

fn copy_words(v: &Vec<u32>) -> (c: Vec<u32>)
    ensures
        c@ == v@,
{
    let c = v.clone();
    proof {
        assert forall|i: int| 0 <= i < c@.len() implies c@[i] == v@[i] by {
            assert(vstd::pervasive::cloned::<u32>(v@[i], c@[i]));
        }
        assert(c@ =~= v@);
    }
    c
}

/// Every paint is a plain solid or gradient fill, so the stack-free
/// compute shader can draw them.
pub open spec fn simple_paints(paints: Seq<PreparedPaint>) -> bool {
    forall|i: int| 0 <= i < paints.len() ==> (#[trigger] paints[i]).paint_kind < 2
}

/// Whether the stack-free compute shader can draw these paints.
pub fn all_simple(paints: &Vec<PreparedPaint>) -> (r: bool)
    ensures
        r == simple_paints(paints@),
{
    let mut simple = true;
    let mut i: usize = 0;
    while i < paints.len()
        invariant
            0 <= i <= paints@.len(),
            simple == forall|k: int| 0 <= k < i ==> (#[trigger] paints@[k]).paint_kind < 2,
        decreases paints@.len() - i,
    {
        if paints[i].paint_kind >= 2 {
            simple = false;
        }
        i = i + 1;
    }
    simple
}

/// Decides what recording a compute frame for `scene` into the buffer with
/// handle `buffer` and `buffer_bytes` bytes does: the upload of every
/// section word that differs from what the previous upload left there (all
/// of a section that moved or when the buffer changed), whether the bins
/// left by the previous frame can be reused, and the workgroup counts. It
/// records the upload in `uploaded` and, when the bin passes run, their
/// scene in `bins`. It fails with `BadTarget` on an unsupported format and
/// with `FrameTooLarge` when the scene does not fit the buffer or a 32-bit
/// offset or count.
#[verifier::spinoff_prover]
#[verifier::rlimit(40)]
pub fn plan_compute(
    scene: &ComputeScene,
    format: TargetFormat,
    paints: &Vec<PreparedPaint>,
    buffer: u64,
    buffer_bytes: u64,
    uploaded: &mut UploadedScene,
    bins: &mut RetainedBins,
) -> (res: Result<ComputePlan, Error>)
    ensures
        format == TargetFormat::Other <==> res == Err::<ComputePlan, Error>(Error::BadTarget),
        res is Err && format != TargetFormat::Other ==> res == Err::<ComputePlan, Error>(Error::FrameTooLarge),
        res is Err ==> *final(bins) == *old(bins),
        res is Err ==> same_upload(*final(uploaded), *old(uploaded)) || holds_scene(*final(uploaded), buffer, *scene),
        format != TargetFormat::Other && 4 * scene.layout.total_words > buffer_bytes ==> res is Err,
        format != TargetFormat::Other && plan_fits(*scene, buffer_bytes) ==> res is Ok,
        format != TargetFormat::Other ==> (res is Ok <==> plan_fits(*scene, buffer_bytes)),
        res matches Ok(plan) ==> compute_planned(
            *scene,
            format,
            paints@,
            buffer,
            *old(uploaded),
            *old(bins),
            plan,
            *final(uploaded),
            *final(bins),
        ),
{
    let flags = match format {
        TargetFormat::Bgra8 => scene.push.compact_flags & !4u32,
        TargetFormat::Rgba8 => scene.push.compact_flags | 4u32,
        TargetFormat::Other => return Err(Error::BadTarget),
    };
    let push = ComputePush { compact_flags: flags, ..scene.push };
    let simple_compute = all_simple(paints);
    let output_bytes = (scene.layout.output_words as u64) * 4;
    if !scene_plan_fits(scene, buffer_bytes) {
        return Err(Error::FrameTooLarge);
    }
    let retained_buffer = uploaded.buffer == buffer;
    let bin_key = match compute_bin_key(scene) {
        Ok(k) => k,
        Err(e) => return Err(e),
    };
    let same_key = match bins.key {
        Some(k) => k.a == bin_key.a && k.b == bin_key.b,
        None => false,
    };
    let reuse_bins = bins.buffer == buffer && same_key && retained_bin_layout_matches(bins.layout, scene.layout);
    let ghost ghost_scene = *scene;
    let ghost before = *uploaded;
    let mut all_ranges: Vec<Vec<Range<usize>>> = Vec::new();
    let mut upload_bytes: u64 = 0;
    let mut upload_ranges: u32 = 0;
    let mut domain_bytes: [u64; 3] = [0, 0, 0];
    let mut s: usize = 0;
    while s < 8
        invariant
            0 <= s <= 8,
            format != TargetFormat::Other,
            *uploaded == before,
            ghost_scene == *scene,
            all_ranges@.len() == s,
            forall|t: int| 0 <= t < s ==> is_dirty_plan(
                previous_words(before, ghost_scene, buffer, t),
                ghost_scene.sections@[t]@,
                #[trigger] all_ranges@[t]@,
            ),
            retained_buffer == (before.buffer == buffer),
            upload_bytes == 4 * planned_words(all_ranges@, s as int),
            upload_ranges == planned_ranges(all_ranges@, s as int),
            forall|d: int| 0 <= d < 3 ==> #[trigger] domain_bytes@[d] == 4 * planned_domain_words(all_ranges@, d, s as int),
            planned_words(all_ranges@, s as int) <= section_words(ghost_scene, s as int),
            planned_ranges(all_ranges@, s as int) <= planned_words(all_ranges@, s as int),
            forall|d: int| 0 <= d < 3 ==> #[trigger] planned_domain_words(all_ranges@, d, s as int) <= planned_words(all_ranges@, s as int),
            plan_fits(ghost_scene, buffer_bytes) ==> section_words(ghost_scene, s as int) <= u32::MAX,
        decreases 8 - s,
    {
        let section_offset = scene.layout.offsets[s];
        let retained_section = retained_buffer && uploaded.layout.offsets[s] == section_offset;
        let words = &scene.sections[s];
        let ranges = if retained_section {
            scene_dirty_ranges(Some(uploaded.sections[s].as_slice()), words.as_slice())
        } else {
            scene_dirty_ranges(None, words.as_slice())
        };
        let ghost prev = previous_words(before, ghost_scene, buffer, s as int);
        proof {
            assert(is_dirty_plan(prev, ghost_scene.sections@[s as int]@, ranges@));
            lemma_dirty_plan_words(prev, ghost_scene.sections@[s as int]@, ranges@);
            if plan_fits(ghost_scene, buffer_bytes) {
                assert(section_words(ghost_scene, s as int + 1) <= section_words(ghost_scene, 8)) by {
                    lemma_section_words_monotone(ghost_scene, s as int + 1, 8);
                }
            }
        }
        let domain = scene_section_domain(s);
        let section_bytes = match section_upload_bytes(&ranges, section_offset, words.len()) {
            Ok(b) => b,
            Err(e) => return Err(e),
        };
        proof {
            if plan_fits(ghost_scene, buffer_bytes) {
                assert(section_words(ghost_scene, s as int + 1) == section_words(ghost_scene, s as int)
                    + ghost_scene.sections@[s as int]@.len());
            }
        }
        upload_bytes = match upload_bytes.checked_add(section_bytes) {
            Some(v) => v,
            None => return Err(Error::FrameTooLarge),
        };
        let slot = domain_bytes[domain];
        domain_bytes[domain] = match slot.checked_add(section_bytes) {
            Some(v) => v,
            None => return Err(Error::FrameTooLarge),
        };
        if ranges.len() > 0xffff_ffffusize {
            return Err(Error::FrameTooLarge);
        }
        let count = ranges.len() as u32;
        upload_ranges = match upload_ranges.checked_add(count) {
            Some(v) => v,
            None => return Err(Error::FrameTooLarge),
        };
        let ghost r0 = all_ranges@;
        all_ranges.push(ranges);
        proof {
            let r1 = all_ranges@;
            assert(r1.len() == s + 1);
            assert forall|t: int| 0 <= t < s implies #[trigger] r1[t] == r0[t] by {}
            lemma_planned_prefix(r0, r1, s as int);
            assert(r1[s as int]@ == ranges@);
            assert forall|d: int| 0 <= d < 3 implies #[trigger] domain_bytes@[d] == 4 * planned_domain_words(r1, d, s as int + 1) by {
                assert(planned_domain_words(r1, d, s as int) == planned_domain_words(r0, d, s as int));
            }
            assert forall|d: int| 0 <= d < 3 implies #[trigger] planned_domain_words(r1, d, s as int + 1) <= planned_words(r1, s as int + 1) by {
                assert(planned_domain_words(r1, d, s as int) == planned_domain_words(r0, d, s as int));
            }
            assert forall|t: int| 0 <= t < s + 1 implies is_dirty_plan(
                previous_words(before, ghost_scene, buffer, t),
                ghost_scene.sections@[t]@,
                #[trigger] r1[t]@,
            ) by {
                if t < s {
                    assert(r1[t] == r0[t]);
                }
            }
        }
        s = s + 1;
    }
    let mut copies: [Vec<u32>; 8] = [Vec::new(), Vec::new(), Vec::new(), Vec::new(), Vec::new(), Vec::new(), Vec::new(), Vec::new()];
    let mut c: usize = 0;
    while c < 8
        invariant
            0 <= c <= 8,
            format != TargetFormat::Other,
            ghost_scene == *scene,
            forall|t: int| 0 <= t < c ==> (#[trigger] copies@[t])@ == ghost_scene.sections@[t]@,
        decreases 8 - c,
    {
        let w = copy_words(&scene.sections[c]);
        copies.set(c, w);
        c = c + 1;
    }
    uploaded.buffer = buffer;
    uploaded.layout = scene.layout;
    uploaded.sections = copies;
    let tile_count = match push.tiles_x.checked_mul(push.tiles_y) {
        Some(v) => v,
        None => return Err(Error::FrameTooLarge),
    };
    let edge_bin_count = match push.paint_count.checked_mul(push.tiles_y) {
        Some(v) => v,
        None => return Err(Error::FrameTooLarge),
    };
    let all = if tile_count >= edge_bin_count { tile_count } else { edge_bin_count };
    let tile_blocks = tile_count.saturating_add(63) / 64;
    let edge_blocks = edge_bin_count.saturating_add(63) / 64;
    let all_blocks = all.saturating_add(63) / 64;
    let bin_groups: [u32; 5] = [all_blocks, tile_blocks.saturating_add(edge_blocks), 1, all_blocks, all_blocks];
    let dispatch_x = scene.push.width.saturating_add(7) / 8;
    let dispatch_y = scene.push.height.saturating_add(7) / 8;
    if !reuse_bins {
        *bins = RetainedBins { buffer, layout: scene.layout, key: Some(bin_key) };
    }
    proof {
        assert(bin_groups@ =~= bin_pass_groups(ghost_scene.push)@);
    }
    Ok(
        ComputePlan {
            push,
            simple_compute,
            output_bytes,
            ranges: all_ranges,
            upload_bytes,
            upload_ranges,
            domain_bytes,
            reuse_bins,
            bin_key,
            bin_groups,
            dispatch_x,
            dispatch_y,
        },
    )
}

/// Whether the scene fits a buffer of `buffer_bytes` bytes with every
/// upload offset and count in range.
fn scene_plan_fits(scene: &ComputeScene, buffer_bytes: u64) -> (r: bool)
    ensures
        r == plan_fits(*scene, buffer_bytes),
{
    if (scene.layout.total_words as u64) * 4 > buffer_bytes {
        return false;
    }
    if scene.sections[0].len() > 0xffff_ffffusize || scene.sections[1].len() > 0xffff_ffffusize {
        return false;
    }
    if scene.sections[2].len() % 24 != 0 {
        return false;
    }
    let mut sum: u64 = 0;
    let mut s: usize = 0;
    while s < 8
        invariant
            0 <= s <= 8,
            sum == section_words(*scene, s as int),
            sum <= u32::MAX,
            forall|t: int| 0 <= t < s ==> scene.layout.offsets@[t] + (#[trigger] scene.sections@[t])@.len() <= u32::MAX + 1,
        decreases 8 - s,
    {
        let len = scene.sections[s].len();
        if len > 0xffff_ffffusize {
            proof {
                lemma_section_words_monotone(*scene, s as int + 1, 8);
            }
            return false;
        }
        if scene.layout.offsets[s] as u64 + len as u64 > 0x1_0000_0000u64 {
            return false;
        }
        if sum + len as u64 > 0xffff_ffffu64 {
            proof {
                lemma_section_words_monotone(*scene, s as int + 1, 8);
            }
            return false;
        }
        sum = sum + len as u64;
        s = s + 1;
    }
    match scene.push.tiles_x.checked_mul(scene.push.tiles_y) {
        Some(_) => {},
        None => return false,
    }
    match scene.push.paint_count.checked_mul(scene.push.tiles_y) {
        Some(_) => {},
        None => return false,
    }
    true
}

/// Bytes of the upload ranges of a section placed at word `offset`; fails
/// when a range's word offset does not fit in 32 bits.
fn section_upload_bytes(ranges: &Vec<Range<usize>>, offset: u32, len: usize) -> (res: Result<u64, Error>)
    requires
        forall|j: int| 0 <= j < ranges@.len() ==> (#[trigger] ranges@[j]).start < ranges@[j].end,
        forall|j: int| 0 <= j < ranges@.len() ==> (#[trigger] ranges@[j]).start < len,
        range_words(ranges@) <= len,
    ensures
        res is Err ==> res == Err::<u64, Error>(Error::FrameTooLarge),
        offset + len <= u32::MAX + 1 ==> res == Ok::<u64, Error>((4 * range_words(ranges@)) as u64),
        res matches Ok(b) ==> b == 4 * range_words(ranges@),
{
    let mut bytes: u64 = 0;
    let mut k: usize = 0;
    proof {
        assert(ranges@.subrange(0, 0).len() == 0);
        if ranges@.len() > 0 {
            lemma_range_words_prefix(ranges@, 0);
        } else {
            assert(ranges@.subrange(0, 0) =~= ranges@);
        }
    }
    while k < ranges.len()
        invariant
            0 <= k <= ranges@.len(),
            forall|j: int| 0 <= j < ranges@.len() ==> (#[trigger] ranges@[j]).start < ranges@[j].end,
            forall|j: int| 0 <= j < ranges@.len() ==> (#[trigger] ranges@[j]).start < len,
            range_words(ranges@) <= len,
            bytes == 4 * range_words(ranges@.subrange(0, k as int)),
            range_words(ranges@.subrange(0, k as int)) <= range_words(ranges@),
        decreases ranges@.len() - k,
    {
        let range_start = ranges[k].start;
        let range_end = ranges[k].end;
        proof {
            lemma_range_words_prefix(ranges@, k as int);
        }
        if range_start > 0xffff_ffffusize || offset > u32::MAX - range_start as u32 {
            return Err(Error::FrameTooLarge);
        }
        let words = (range_end - range_start) as u64;
        if words > 0x3fff_ffff_ffff_ffffu64 || bytes > u64::MAX - words * 4 {
            return Err(Error::FrameTooLarge);
        }
        bytes = bytes + words * 4;
        k = k + 1;
    }
    proof {
        assert(ranges@.subrange(0, ranges@.len() as int) =~= ranges@);
    }
    Ok(bytes)
}

proof fn lemma_no_ranges_no_words(r: Seq<Vec<Range<usize>>>, n: int)
    requires
        0 <= n <= r.len(),
        forall|s: int| 0 <= s < n ==> (#[trigger] r[s])@.len() == 0,
    ensures
        planned_words(r, n) == 0,
        planned_ranges(r, n) == 0,
        forall|d: int| #[trigger] planned_domain_words(r, d, n) == 0,
    decreases n,
{
    if n > 0 {
        lemma_no_ranges_no_words(r, n - 1);
        assert(r[n - 1]@.len() == 0);
        assert(range_words(r[n - 1]@) == 0);
        assert forall|d: int| #[trigger] planned_domain_words(r, d, n) == 0 by {
            assert(planned_domain_words(r, d, n - 1) == 0);
        }
    }
}

/// Two scenes with the same placement, push constants and section words.
pub open spec fn same_scene(a: ComputeScene, b: ComputeScene) -> bool {
    &&& a.layout == b.layout
    &&& a.push == b.push
    &&& forall|s: int| 0 <= s < 8 ==> (#[trigger] a.sections@[s])@ == b.sections@[s]@
}

/// Recording the same scene again into the same buffer uploads nothing and
/// reuses the bins the first recording left, which stay as they are.
pub proof fn law_same_scene_uploads_nothing(
    scene: ComputeScene,
    again: ComputeScene,
    format: TargetFormat,
    paints: Seq<PreparedPaint>,
    buffer: u64,
    u0: UploadedScene,
    b0: RetainedBins,
    p1: ComputePlan,
    u1: UploadedScene,
    b1: RetainedBins,
    p2: ComputePlan,
    u2: UploadedScene,
    b2: RetainedBins,
)
    requires
        same_scene(scene, again),
        compute_planned(scene, format, paints, buffer, u0, b0, p1, u1, b1),
        compute_planned(again, format, paints, buffer, u1, b1, p2, u2, b2),
    ensures
        p2.upload_bytes == 0,
        p2.upload_ranges == 0,
        forall|d: int| 0 <= d < 3 ==> #[trigger] p2.domain_bytes@[d] == 0,
        p2.reuse_bins,
        b2 == b1,
{
    let r = p2.ranges@;
    assert forall|s: int| 0 <= s < 8 implies (#[trigger] r[s])@.len() == 0 by {
        let cur = again.sections@[s]@;
        assert(scene.sections@[s]@ == cur);
        assert(u1.sections@[s]@ == cur);
        assert(previous_words(u1, again, buffer, s) == cur);
        assert(is_dirty_plan(cur, cur, r[s]@));
        if r[s]@.len() > 0 {
            let first = r[s]@[0];
            assert(first.start < first.end <= cur.len());
            assert(crate::scene::word_differs(cur, cur, first.start as int));
        }
    }
    lemma_no_ranges_no_words(r, 8);
    assert forall|d: int| 0 <= d < 3 implies #[trigger] p2.domain_bytes@[d] == 0 by {
        assert(planned_domain_words(r, d, 8) == 0);
    }
    assert(bin_key_words(&again) =~= bin_key_words(&scene)) by {
        assert(again.sections@[0]@ == scene.sections@[0]@);
        assert(again.sections@[1]@ == scene.sections@[1]@);
        assert(again.sections@[2]@ == scene.sections@[2]@);
    }
    assert(scene_bin_key(again) == scene_bin_key(scene));
    if !p1.reuse_bins {
        assert forall|i: int| TILE_SECTION <= i <= EDGE_SECTION implies #[trigger] again.layout.section_kept(b1.layout, i) by {}
    } else {
        assert forall|i: int| TILE_SECTION <= i <= EDGE_SECTION implies #[trigger] again.layout.section_kept(b1.layout, i) by {
            assert(scene.layout.section_kept(b0.layout, i));
        }
    }
}

/// End to end, a second compute frame with the same inputs uploads nothing:
/// building the scene again in the layout the first frame left yields the
/// same scene, and planning it into the same buffer uploads no word and
/// reuses the bins.
pub proof fn law_second_compute_frame_uploads_nothing(
    width: u32,
    height: u32,
    points: Seq<Point>,
    slots: Seq<CachedContour>,
    paints: Seq<PreparedPaint>,
    luts: Seq<u32>,
    antialias: bool,
    alpha_only: bool,
    edge_rows: Seq<u32>,
    layout0: SceneLayout,
    first: ComputeScene,
    again: ComputeScene,
    format: TargetFormat,
    buffer: u64,
    u0: UploadedScene,
    b0: RetainedBins,
    p1: ComputePlan,
    u1: UploadedScene,
    b1: RetainedBins,
    p2: ComputePlan,
    u2: UploadedScene,
    b2: RetainedBins,
)
    requires
        scene_built(width, height, points, slots, paints, luts, antialias, alpha_only, edge_rows, layout0, first),
        scene_built(width, height, points, slots, paints, luts, antialias, alpha_only, edge_rows, first.layout, again),
        compute_planned(first, format, paints, buffer, u0, b0, p1, u1, b1),
        compute_planned(again, format, paints, buffer, u1, b1, p2, u2, b2),
    ensures
        again.layout == first.layout,
        p2.upload_bytes == 0,
        p2.upload_ranges == 0,
        forall|d: int| 0 <= d < 3 ==> #[trigger] p2.domain_bytes@[d] == 0,
        p2.reuse_bins,
        b2 == b1,
{
    law_rebuilt_scene_matches(
        width,
        height,
        points,
        slots,
        paints,
        luts,
        antialias,
        alpha_only,
        edge_rows,
        layout0,
        first,
        again,
    );
    law_same_scene_uploads_nothing(first, again, format, paints, buffer, u0, b0, p1, u1, b1, p2, u2, b2);
}

proof fn lemma_section_words_monotone(scene: ComputeScene, m: int, n: int)
    requires
        0 <= m <= n,
    ensures
        section_words(scene, m) <= section_words(scene, n),
    decreases n - m,
{
    if m < n {
        lemma_section_words_monotone(scene, m, n - 1);
    }
}

proof fn lemma_range_words_prefix(r: Seq<Range<usize>>, k: int)
    requires
        0 <= k < r.len(),
        forall|j: int| 0 <= j < r.len() ==> (#[trigger] r[j]).start < r[j].end,
    ensures
        range_words(r.subrange(0, k + 1)) == range_words(r.subrange(0, k)) + (r[k].end - r[k].start),
        range_words(r.subrange(0, k + 1)) <= range_words(r),
    decreases r.len() - k,
{
    assert(r.subrange(0, k + 1).drop_last() =~= r.subrange(0, k));
    if k + 1 < r.len() {
        lemma_range_words_prefix(r, k + 1);
    } else {
        assert(r.subrange(0, k + 1) =~= r);
    }
}

proof fn lemma_planned_prefix(a: Seq<Vec<Range<usize>>>, b: Seq<Vec<Range<usize>>>, n: int)
    requires
        0 <= n <= a.len(),
        n <= b.len(),
        forall|t: int| 0 <= t < n ==> #[trigger] a[t] == b[t],
    ensures
        planned_words(a, n) == planned_words(b, n),
        planned_ranges(a, n) == planned_ranges(b, n),
        forall|d: int| planned_domain_words(a, d, n) == #[trigger] planned_domain_words(b, d, n),
    decreases n,
{
    if n > 0 {
        lemma_planned_prefix(a, b, n - 1);
        assert(a[n - 1] == b[n - 1]);
        assert forall|d: int| planned_domain_words(a, d, n) == #[trigger] planned_domain_words(b, d, n) by {
            assert(planned_domain_words(a, d, n - 1) == planned_domain_words(b, d, n - 1));
        }
    }
}

/// The raster pass covers the target exactly with 8-by-8 workgroups: the
/// workgroup counts are the width and height rounded up to whole groups of
/// eight pixels, so every column and row is rasterized and no group lies
/// wholly outside the target (for extents that leave room to round up).
pub proof fn law_raster_dispatch_covers_target(
    scene: ComputeScene,
    format: TargetFormat,
    paints: Seq<PreparedPaint>,
    buffer: u64,
    uploaded: UploadedScene,
    bins: RetainedBins,
    plan: ComputePlan,
    uploaded_after: UploadedScene,
    bins_after: RetainedBins,
)
    requires
        compute_planned(scene, format, paints, buffer, uploaded, bins, plan, uploaded_after, bins_after),
    ensures
        scene.push.width + 7 <= u32::MAX ==> 8 * plan.dispatch_x >= scene.push.width && 8 * plan.dispatch_x
            < scene.push.width + 8,
        scene.push.height + 7 <= u32::MAX ==> 8 * plan.dispatch_y >= scene.push.height && 8 * plan.dispatch_y
            < scene.push.height + 8,
{
    assert(plan.dispatch_x == raster_groups(scene.push.width));
    assert(plan.dispatch_y == raster_groups(scene.push.height));
    lemma_raster_groups_cover(scene.push.width);
    lemma_raster_groups_cover(scene.push.height);
}

/// The bin passes cover every bin: the count, scatter and final passes run
/// one invocation per tile or per edge bin, whichever is more, rounded up to
/// whole groups of 64; the prefix pass runs the tile groups and the edge
/// groups added; the middle pass is a single group (for counts that leave
/// room to round up).
pub proof fn law_bin_passes_cover_bins(
    scene: ComputeScene,
    format: TargetFormat,
    paints: Seq<PreparedPaint>,
    buffer: u64,
    uploaded: UploadedScene,
    bins: RetainedBins,
    plan: ComputePlan,
    uploaded_after: UploadedScene,
    bins_after: RetainedBins,
)
    requires
        compute_planned(scene, format, paints, buffer, uploaded, bins, plan, uploaded_after, bins_after),
        scene.push.tiles_x * scene.push.tiles_y + 63 <= u32::MAX,
        scene.push.paint_count * scene.push.tiles_y + 63 <= u32::MAX,
    ensures
        ({
            let tiles = scene.push.tiles_x * scene.push.tiles_y;
            let edges = scene.push.paint_count * scene.push.tiles_y;
            let all = if tiles >= edges { tiles } else { edges };
            &&& forall|p: int| #![trigger plan.bin_groups[p]] p == 0 || p == 3 || p == 4
                ==> 64 * plan.bin_groups[p] >= all && 64 * plan.bin_groups[p] < all + 64
            &&& plan.bin_groups[1] == (tiles + 63) / 64 + (edges + 63) / 64
            &&& plan.bin_groups[2] == 1
        }),
{
    let tiles = scene.push.tiles_x * scene.push.tiles_y;
    let edges = scene.push.paint_count * scene.push.tiles_y;
    let all = if tiles >= edges { tiles } else { edges };
    assert(plan.bin_groups == bin_pass_groups(scene.push));
    assert((tiles as u32) as int == tiles);
    assert((edges as u32) as int == edges);
    lemma_blocks_cover(tiles as u32);
    lemma_blocks_cover(edges as u32);
    lemma_blocks_cover(all as u32);
    assert(blocks_of(tiles as u32) + blocks_of(edges as u32) <= u32::MAX) by (nonlinear_arith)
        requires
            64 * blocks_of(tiles as u32) < tiles + 64,
            64 * blocks_of(tiles as u32) >= tiles,
            64 * blocks_of(edges as u32) < edges + 64,
            tiles + 63 <= u32::MAX,
            edges + 63 <= u32::MAX,
    {}
}

proof fn lemma_blocks_cover(n: u32)
    ensures
        n + 63 <= u32::MAX ==> blocks_of(n) == (n + 63) / 64 && 64 * blocks_of(n) >= n && 64 * blocks_of(n) < n + 64,
{
    if n + 63 <= u32::MAX {
        let m: int = n + 63;
        assert(blocks_of(n) == m / 64);
        assert(64 * (m / 64) <= m && m < 64 * (m / 64) + 64) by (nonlinear_arith)
            requires m >= 0;
    }
}

/// The target's channel order is passed to the rasterizer in bit 2 of the
/// compact flags: cleared for blue-first targets, set for red-first ones;
/// every other bit and every other push constant is the scene's own.
pub proof fn law_target_format_sets_channel_flag(
    scene: ComputeScene,
    format: TargetFormat,
    paints: Seq<PreparedPaint>,
    buffer: u64,
    uploaded: UploadedScene,
    bins: RetainedBins,
    plan: ComputePlan,
    uploaded_after: UploadedScene,
    bins_after: RetainedBins,
)
    requires
        compute_planned(scene, format, paints, buffer, uploaded, bins, plan, uploaded_after, bins_after),
        format != TargetFormat::Other,
    ensures
        format == TargetFormat::Bgra8 ==> plan.push.compact_flags & 4u32 == 0,
        format == TargetFormat::Rgba8 ==> plan.push.compact_flags & 4u32 == 4,
        plan.push.compact_flags & !4u32 == scene.push.compact_flags & !4u32,
        plan.push == (ComputePush { compact_flags: plan.push.compact_flags, ..scene.push }),
{
    let f = scene.push.compact_flags;
    let bgra = format == TargetFormat::Bgra8;
    assert(plan.push.compact_flags == if bgra { f & !4u32 } else { f | 4u32 });
    lemma_channel_flag(f, plan.push.compact_flags, bgra);
}

proof fn lemma_channel_flag(f: u32, g: u32, bgra: bool)
    requires
        g == if bgra { f & !4u32 } else { f | 4u32 },
    ensures
        bgra ==> g & 4u32 == 0,
        !bgra ==> g & 4u32 == 4,
        g & !4u32 == f & !4u32,
{
    if bgra {
        assert((f & !4u32) & 4u32 == 0 && (f & !4u32) & !4u32 == f & !4u32) by (bit_vector);
    } else {
        assert((f | 4u32) & 4u32 == 4 && (f | 4u32) & !4u32 == f & !4u32) by (bit_vector);
    }
}

proof fn lemma_raster_groups_cover(n: u32)
    ensures
        n + 7 <= u32::MAX ==> 8 * raster_groups(n) >= n && 8 * raster_groups(n) < n + 8,
{
    if n + 7 <= u32::MAX {
        let m: int = n + 7;
        assert(raster_groups(n) == m / 8);
        assert(8 * (m / 8) <= m && m < 8 * (m / 8) + 8) by (nonlinear_arith)
            requires m >= 0;
    }
}

} // verus!
