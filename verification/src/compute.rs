//! Scene words, sizes and push constants of the compute rasterizer.

use vstd::prelude::*;
use crate::arena::Point;
use crate::error::Error;
use crate::geometry::{point_words, CachedContour, PreparedGeometry, PreparedPaint};
use crate::layout::SceneLayout;
use crate::scene::{ComputePush, ComputeScene};
use crate::stats::sat_add;

verus! {

broadcast use vstd::array::group_array_axioms;

/// Side of a square compute tile, in pixels.
pub const COMPUTE_TILE_SIZE: u32 = 16;

/// One edge of a contour: the contour's slot and its two point indices.
#[derive(Clone, Copy, Debug, PartialEq, Eq, Structural)]
pub struct SceneEdge {
    /// Slot of the contour.
    pub contour: u32,
    /// Index of the edge's first point.
    pub a: u32,
    /// Index of the edge's second point.
    pub b: u32,
}

/// Edges of slot `c`: each point to the next and the last back to the
/// first; none for a contour of fewer than two points.
pub open spec fn contour_edges(slot: CachedContour, c: int) -> Seq<SceneEdge> {
    if slot.range.count < 2 {
        Seq::empty()
    } else {
        Seq::new(
            slot.range.count as nat,
            |e: int|
                SceneEdge {
                    contour: c as u32,
                    a: (slot.range.first + e) as u32,
                    b: (slot.range.first + (e + 1) % (slot.range.count as int)) as u32,
                },
        )
    }
}

/// The edges of `slot` can be addressed: its points lie below `points_len`
/// and their indices fit in 32 bits.
pub open spec fn contour_edges_ok(slot: CachedContour, points_len: int) -> bool {
    slot.range.count < 2 || (slot.range.first + slot.range.count <= points_len && slot.range.first
        + slot.range.count - 1 <= u32::MAX)
}

/// Edges of the slots `from..to`, in order.
pub open spec fn span_edges(slots: Seq<CachedContour>, from: int, to: int) -> Seq<SceneEdge>
    decreases to - from,
{
    if to <= from {
        Seq::empty()
    } else {
        span_edges(slots, from, to - 1) + contour_edges(slots[to - 1], to - 1)
    }
}

/// Slot `c` exists and its edges can be addressed.
pub open spec fn slot_edges_ok(slots: Seq<CachedContour>, c: int, points_len: int) -> bool {
    c < slots.len() && contour_edges_ok(slots[c], points_len)
}

/// A paint's contours exist and their edges can be addressed.
pub open spec fn paint_edges_ok(paint: PreparedPaint, slots: Seq<CachedContour>, points_len: int) -> bool {
    &&& paint.contour_start + paint.contour_count <= u32::MAX
    &&& forall|c: int|
        paint.contour_start <= c < paint.contour_start + paint.contour_count ==> #[trigger] slot_edges_ok(
            slots,
            c,
            points_len,
        )
}

/// Edges of the contours of the first `n` paints, in order.
pub open spec fn edges_upto(paints: Seq<PreparedPaint>, slots: Seq<CachedContour>, n: int) -> Seq<SceneEdge>
    decreases n,
{
    if n <= 0 {
        Seq::empty()
    } else {
        let p = paints[n - 1];
        edges_upto(paints, slots, n - 1) + span_edges(
            slots,
            p.contour_start as int,
            p.contour_start + p.contour_count,
        )
    }
}

/// Every paint's contours exist and their edges can be addressed.
pub open spec fn edges_valid(paints: Seq<PreparedPaint>, slots: Seq<CachedContour>, points_len: int) -> bool {
    forall|i: int| 0 <= i < paints.len() ==> #[trigger] paint_edges_ok(paints[i], slots, points_len)
}

/// Lists the edges of every paint's contours, in paint order; fails when a
/// paint names a missing contour or an edge names a missing point.
pub fn scene_edges(points_len: usize, slots: &Vec<CachedContour>, paints: &Vec<PreparedPaint>) -> (res: Result<
    Vec<SceneEdge>,
    Error,
>)
    ensures
        res is Ok <==> edges_valid(paints@, slots@, points_len as int),
        res is Err ==> res == Err::<Vec<SceneEdge>, Error>(Error::FrameTooLarge),
        res matches Ok(edges) ==> edges@ == edges_upto(paints@, slots@, paints@.len() as int),
{
    let mut edges: Vec<SceneEdge> = Vec::new();
    let n = paints.len();
    let mut i: usize = 0;
    while i < n
        invariant
            0 <= i <= n,
            n == paints@.len(),
            edges@ == edges_upto(paints@, slots@, i as int),
            forall|k: int| 0 <= k < i ==> #[trigger] paint_edges_ok(paints@[k], slots@, points_len as int),
        decreases n - i,
    {
        let paint = paints[i];
        if paint.contour_start > u32::MAX - paint.contour_count {
            proof {
                assert(!paint_edges_ok(paints@[i as int], slots@, points_len as int));
            }
            return Err(Error::FrameTooLarge);
        }
        let end = paint.contour_start + paint.contour_count;
        let ghost head = edges@;
        let mut c = paint.contour_start;
        while c < end
            invariant
                0 <= i < n,
                n == paints@.len(),
                paint == paints@[i as int],
                end == paint.contour_start + paint.contour_count,
                paint.contour_start <= c <= end,
                head == edges_upto(paints@, slots@, i as int),
                edges@ == head + span_edges(slots@, paint.contour_start as int, c as int),
                forall|k: int| paint.contour_start <= k < c ==> #[trigger] slot_edges_ok(slots@, k, points_len as int),
            decreases end - c,
        {
            if c as usize >= slots.len() {
                proof {
                    assert(!slot_edges_ok(slots@, c as int, points_len as int));
                    assert(!paint_edges_ok(paints@[i as int], slots@, points_len as int));
                }
                return Err(Error::FrameTooLarge);
            }
            let slot = slots[c as usize];
            let ghost before = edges@;
            if slot.range.count >= 2 {
                let count = slot.range.count;
                let first = slot.range.first;
                let mut e: u32 = 0;
                while e < count
                    invariant
                        0 <= i < n,
                        n == paints@.len(),
                        paint == paints@[i as int],
                        end == paint.contour_start + paint.contour_count,
                        paint.contour_start <= c < end,
                        c < slots@.len(),
                        slot == slots@[c as int],
                        count == slot.range.count,
                        first == slot.range.first,
                        count >= 2,
                        0 <= e <= count,
                        edges@ == before + contour_edges(slot, c as int).subrange(0, e as int),
                        first + e - 1 <= u32::MAX,
                        e > 0 ==> first + e <= points_len,
                    decreases count - e,
                {
                    if first > u32::MAX - e {
                        proof {
                            assert(!slot_edges_ok(slots@, c as int, points_len as int));
                            assert(!paint_edges_ok(paints@[i as int], slots@, points_len as int));
                        }
                        return Err(Error::FrameTooLarge);
                    }
                    let a = first + e;
                    let next = (e + 1) % count;
                    if first > u32::MAX - next {
                        proof {
                            assert(!slot_edges_ok(slots@, c as int, points_len as int));
                            assert(!paint_edges_ok(paints@[i as int], slots@, points_len as int));
                        }
                        return Err(Error::FrameTooLarge);
                    }
                    let b = first + next;
                    if a as usize >= points_len || b as usize >= points_len {
                        proof {
                            assert(!slot_edges_ok(slots@, c as int, points_len as int));
                            assert(!paint_edges_ok(paints@[i as int], slots@, points_len as int));
                        }
                        return Err(Error::FrameTooLarge);
                    }
                    edges.push(SceneEdge { contour: c, a, b });
                    proof {
                        assert(contour_edges(slot, c as int)[e as int] == SceneEdge { contour: c, a, b });
                        assert(contour_edges(slot, c as int).subrange(0, e as int + 1) =~= contour_edges(
                            slot,
                            c as int,
                        ).subrange(0, e as int).push(SceneEdge { contour: c, a, b }));
                    }
                    e = e + 1;
                }
                proof {
                    assert(contour_edges(slot, c as int).subrange(0, count as int) =~= contour_edges(slot, c as int));
                    assert(slot_edges_ok(slots@, c as int, points_len as int));
                }
            } else {
                proof {
                    assert(slot_edges_ok(slots@, c as int, points_len as int));
                    assert(contour_edges(slot, c as int) =~= Seq::<SceneEdge>::empty());
                    assert(before + contour_edges(slot, c as int) =~= before);
                }
            }
            proof {
                assert(span_edges(slots@, paint.contour_start as int, c as int + 1) == span_edges(
                    slots@,
                    paint.contour_start as int,
                    c as int,
                ) + contour_edges(slots@[c as int], c as int));
                assert(edges@ =~= head + span_edges(slots@, paint.contour_start as int, c as int + 1));
            }
            c = c + 1;
        }
        proof {
            assert forall|k: int| paint.contour_start <= k < paint.contour_start + paint.contour_count implies #[trigger] slot_edges_ok(
                slots@,
                k,
                points_len as int,
            ) by {
                assert(k < c);
            }
            assert(paint_edges_ok(paints@[i as int], slots@, points_len as int));
        }
        i = i + 1;
    }
    Ok(edges)
}

/// Words of each slot's record: first point, point count, then the six
/// transform words.
pub open spec fn contour_words(slots: Seq<CachedContour>) -> Seq<u32>
    decreases slots.len(),
{
    if slots.len() == 0 {
        Seq::empty()
    } else {
        let s = slots.last();
        let t = s.transform@;
        contour_words(slots.drop_last()) + seq![s.range.first, s.range.count, t[0], t[1], t[2], t[3], t[4], t[5]]
    }
}

/// The 24 words of a paint record.
pub open spec fn paint_record(p: PreparedPaint) -> Seq<u32> {
    let (i0, i1, p0, p1, b) = (p.inverse0@, p.inverse1@, p.params0@, p.params1@, p.bounds@);
    seq![p.contour_start, p.contour_count, p.paint_kind, p.rule, p.argb, p.gradient_kind, p.lut_word_offset, 0u32]
        + seq![i0[0], i0[1], i0[2], i0[3], i1[0], i1[1]]
        + seq![p0[0], p0[1], p0[2], p0[3], p1[0], p1[1]]
        + seq![b[0], b[1], b[2], b[3]]
}

/// Records of the paints, in order.
pub open spec fn paint_words(paints: Seq<PreparedPaint>) -> Seq<u32>
    decreases paints.len(),
{
    if paints.len() == 0 {
        Seq::empty()
    } else {
        paint_words(paints.drop_last()) + paint_record(paints.last())
    }
}

/// Sum of the rows spanned by the edges.
pub open spec fn rows_total(rows: Seq<u32>) -> int
    decreases rows.len(),
{
    if rows.len() == 0 {
        0
    } else {
        rows_total(rows.drop_last()) + rows.last()
    }
}

/// Tiles covering `extent` pixels.
pub open spec fn tiles_for(extent: u32) -> u32 {
    (sat_add(extent, (COMPUTE_TILE_SIZE - 1) as u32) / COMPUTE_TILE_SIZE) as u32
}

/// Paint indices of a tile fit in 16 bits.
pub open spec fn compact_tiles(paint_count: int) -> bool {
    paint_count <= 0x1_0000
}

/// Point indices of an edge fit in 16 bits.
pub open spec fn compact_edges(points_len: int) -> bool {
    points_len <= 0x1_0000
}

/// Entries of the per-tile paint index lists.
pub open spec fn tile_entries(width: u32, height: u32, paint_count: int) -> int {
    tiles_for(width) * tiles_for(height) * (if compact_tiles(paint_count) { paint_count + 1 } else { paint_count })
}

/// Every size of the scene fits in 32 bits.
pub open spec fn scene_counts_fit(width: u32, height: u32, points_len: int, paint_count: int, entries: int) -> bool {
    &&& width * height <= u32::MAX
    &&& paint_count <= u32::MAX
    &&& 2 * (tiles_for(width) * tiles_for(height)) <= u32::MAX
    &&& tile_entries(width, height, paint_count) <= u32::MAX
    &&& 2 * (paint_count * tiles_for(height)) <= u32::MAX
    &&& 5 * entries <= u32::MAX
}

/// Lengths of the eight scene sections.
pub open spec fn scene_lengths(
    width: u32,
    height: u32,
    points_len: int,
    slots_len: int,
    paint_count: int,
    luts_len: int,
    entries: int,
) -> Seq<usize> {
    let te = tile_entries(width, height, paint_count);
    let tile_index_words = if compact_tiles(paint_count) {
        (if te + 1 > u32::MAX { u32::MAX as int } else { te + 1 }) / 2
    } else {
        te
    };
    seq![
        (2 * points_len) as usize,
        (8 * slots_len) as usize,
        (24 * paint_count) as usize,
        luts_len as usize,
        (2 * (tiles_for(width) * tiles_for(height))) as usize,
        tile_index_words as usize,
        (2 * (paint_count * tiles_for(height))) as usize,
        (5 * entries) as usize,
    ]
}

/// The scene can be built: its edges are addressable and every count fits.
pub open spec fn scene_fits(
    width: u32,
    height: u32,
    points_len: int,
    slots: Seq<CachedContour>,
    paints: Seq<PreparedPaint>,
    edge_rows: Seq<u32>,
) -> bool {
    &&& edges_valid(paints, slots, points_len)
    &&& rows_total(edge_rows) <= u32::MAX
    &&& scene_counts_fit(width, height, points_len, paints.len() as int, rows_total(edge_rows))
}

/// `scene` is what building a scene from these inputs yields, placed by
/// ensuring room in the retained layout `before`.
pub open spec fn scene_built(
    width: u32,
    height: u32,
    points: Seq<Point>,
    slots: Seq<CachedContour>,
    paints: Seq<PreparedPaint>,
    luts: Seq<u32>,
    antialias: bool,
    alpha_only: bool,
    edge_rows: Seq<u32>,
    before: SceneLayout,
    scene: ComputeScene,
) -> bool {
    &&& scene_fits(width, height, points.len() as int, slots, paints, edge_rows)
    &&& SceneLayout::ensured(
        before,
        (width * height) as u32,
        scene_lengths(
            width,
            height,
            points.len() as int,
            slots.len() as int,
            paints.len() as int,
            luts.len() as int,
            rows_total(edge_rows),
        ),
        true,
        scene.layout,
    )
    &&& scene.sections@[0]@ == point_words(points)
    &&& scene.sections@[1]@ == contour_words(slots)
    &&& scene.sections@[2]@ == paint_words(paints)
    &&& scene.sections@[3]@ == luts
    &&& forall|k: int| 4 <= k < 8 ==> (#[trigger] scene.sections@[k])@.len() == 0
    &&& scene.push == scene_push(width, height, points.len() as int, paints.len() as u32, scene.layout, antialias, alpha_only)
}

/// Push constants of a scene placed by `layout`.
pub open spec fn scene_push(
    width: u32,
    height: u32,
    points_len: int,
    paint_count: u32,
    layout: SceneLayout,
    antialias: bool,
    alpha_only: bool,
) -> ComputePush {
    let o = layout.offsets@;
    ComputePush {
        width,
        height,
        output_word: 0,
        point_word: o[0],
        contour_word: o[1],
        paint_word: o[2],
        lut_word: o[3],
        paint_count,
        antialias: if antialias { 1 } else { 0 },
        tile_word: o[4],
        tile_index_word: o[5],
        tiles_x: tiles_for(width),
        edge_bin_word: o[6],
        edge_word: o[7],
        tiles_y: tiles_for(height),
        compact_flags: ((if compact_tiles(paint_count as int) { 1int } else { 0 }) + (if compact_edges(points_len) {
            2int
        } else {
            0
        }) + 4 + (if alpha_only { 8int } else { 0 })) as u32,
    }
}

fn tiles_exec(extent: u32) -> (t: u32)
    ensures
        t == tiles_for(extent),
{
    extent.saturating_add(COMPUTE_TILE_SIZE - 1) / COMPUTE_TILE_SIZE
}

fn point_section(points: &Vec<Point>) -> (words: Vec<u32>)
    ensures
        words@ == point_words(points@),
{
    let mut words: Vec<u32> = Vec::new();
    let mut i: usize = 0;
    while i < points.len()
        invariant
            0 <= i <= points@.len(),
            words@ == point_words(points@.subrange(0, i as int)),
        decreases points@.len() - i,
    {
        proof {
            assert(points@.subrange(0, i as int + 1).drop_last() =~= points@.subrange(0, i as int));
        }
        words.push(points[i].x);
        words.push(points[i].y);
        proof {
            assert(words@ =~= point_words(points@.subrange(0, i as int + 1)));
        }
        i = i + 1;
    }
    proof {
        assert(points@.subrange(0, points@.len() as int) =~= points@);
    }
    words
}

fn contour_section(slots: &Vec<CachedContour>) -> (words: Vec<u32>)
    ensures
        words@ == contour_words(slots@),
{
    let mut words: Vec<u32> = Vec::new();
    let mut i: usize = 0;
    while i < slots.len()
        invariant
            0 <= i <= slots@.len(),
            words@ == contour_words(slots@.subrange(0, i as int)),
        decreases slots@.len() - i,
    {
        proof {
            assert(slots@.subrange(0, i as int + 1).drop_last() =~= slots@.subrange(0, i as int));
        }
        let s = slots[i];
        words.push(s.range.first);
        words.push(s.range.count);
        let mut k: usize = 0;
        while k < 6
            invariant
                0 <= k <= 6,
                words@ == contour_words(slots@.subrange(0, i as int)) + seq![s.range.first, s.range.count]
                    + s.transform@.subrange(0, k as int),
            decreases 6 - k,
        {
            words.push(s.transform[k]);
            proof {
                assert(s.transform@.subrange(0, k as int + 1) =~= s.transform@.subrange(0, k as int).push(
                    s.transform@[k as int],
                ));
            }
            k = k + 1;
        }
        proof {
            let t = s.transform@;
            assert(t.subrange(0, 6) =~= seq![t[0], t[1], t[2], t[3], t[4], t[5]]);
            assert(words@ =~= contour_words(slots@.subrange(0, i as int + 1)));
        }
        i = i + 1;
    }
    proof {
        assert(slots@.subrange(0, slots@.len() as int) =~= slots@);
    }
    words
}

fn push_words(words: &mut Vec<u32>, src: &[u32; 4], n: usize)
    requires
        n <= 4,
    ensures
        final(words)@ == old(words)@ + src@.subrange(0, n as int),
{
    let mut k: usize = 0;
    while k < n
        invariant
            0 <= k <= n <= 4,
            words@ == old(words)@ + src@.subrange(0, k as int),
        decreases n - k,
    {
        words.push(src[k]);
        proof {
            assert(src@.subrange(0, k as int + 1) =~= src@.subrange(0, k as int).push(src@[k as int]));
            assert(words@ =~= old(words)@ + src@.subrange(0, k as int + 1));
        }
        k = k + 1;
    }
}

fn paint_section(paints: &Vec<PreparedPaint>) -> (words: Vec<u32>)
    ensures
        words@ == paint_words(paints@),
{
    let mut words: Vec<u32> = Vec::new();
    let mut i: usize = 0;
    while i < paints.len()
        invariant
            0 <= i <= paints@.len(),
            words@ == paint_words(paints@.subrange(0, i as int)),
        decreases paints@.len() - i,
    {
        proof {
            assert(paints@.subrange(0, i as int + 1).drop_last() =~= paints@.subrange(0, i as int));
        }
        let p = paints[i];
        let ghost before = words@;
        words.push(p.contour_start);
        words.push(p.contour_count);
        words.push(p.paint_kind);
        words.push(p.rule);
        words.push(p.argb);
        words.push(p.gradient_kind);
        words.push(p.lut_word_offset);
        words.push(0);
        push_words(&mut words, &p.inverse0, 4);
        push_words(&mut words, &p.inverse1, 2);
        push_words(&mut words, &p.params0, 4);
        push_words(&mut words, &p.params1, 2);
        push_words(&mut words, &p.bounds, 4);
        proof {
            assert(p.inverse0@.subrange(0, 4) =~= seq![p.inverse0@[0], p.inverse0@[1], p.inverse0@[2], p.inverse0@[3]]);
            assert(p.inverse1@.subrange(0, 2) =~= seq![p.inverse1@[0], p.inverse1@[1]]);
            assert(p.params0@.subrange(0, 4) =~= seq![p.params0@[0], p.params0@[1], p.params0@[2], p.params0@[3]]);
            assert(p.params1@.subrange(0, 2) =~= seq![p.params1@[0], p.params1@[1]]);
            assert(p.bounds@.subrange(0, 4) =~= seq![p.bounds@[0], p.bounds@[1], p.bounds@[2], p.bounds@[3]]);
            assert(words@ =~= before + paint_record(p));
        }
        i = i + 1;
    }
    proof {
        assert(paints@.subrange(0, paints@.len() as int) =~= paints@);
    }
    words
}

proof fn lemma_contour_words_len(slots: Seq<CachedContour>)
    ensures
        contour_words(slots).len() == 8 * slots.len(),
    decreases slots.len(),
{
    if slots.len() > 0 {
        lemma_contour_words_len(slots.drop_last());
    }
}

proof fn lemma_point_words_len(points: Seq<Point>)
    ensures
        point_words(points).len() == 2 * points.len(),
    decreases points.len(),
{
    if points.len() > 0 {
        lemma_point_words_len(points.drop_last());
    }
}

proof fn lemma_paint_words_len(paints: Seq<PreparedPaint>)
    ensures
        paint_words(paints).len() == 24 * paints.len(),
    decreases paints.len(),
{
    if paints.len() > 0 {
        lemma_paint_words_len(paints.drop_last());
    }
}

/// Packs the scene sections of a frame for the compute rasterizer, sizes the
/// tile and edge sections from `edge_rows` (the tile rows each edge of
/// `scene_edges` spans), places them with `retained_layout`, and fills the
/// push constants.
pub fn build_compute_scene(
    width: u32,
    height: u32,
    points: &Vec<Point>,
    slots: &Vec<CachedContour>,
    prepared: &PreparedGeometry,
    antialias: bool,
    alpha_only: bool,
    edge_rows: &Vec<u32>,
    retained_layout: &mut SceneLayout,
) -> (res: Result<ComputeScene, Error>)
    requires
        edges_valid(prepared.paints@, slots@, points@.len() as int) ==> edge_rows@.len() == edges_upto(
            prepared.paints@,
            slots@,
            prepared.paints@.len() as int,
        ).len(),
    ensures
        !scene_fits(width, height, points@.len() as int, slots@, prepared.paints@, edge_rows@) ==> res
            == Err::<ComputeScene, Error>(Error::FrameTooLarge) && *final(retained_layout) == *old(retained_layout),
        scene_fits(width, height, points@.len() as int, slots@, prepared.paints@, edge_rows@) ==> SceneLayout::ensured(
            *old(retained_layout),
            (width * height) as u32,
            scene_lengths(
                width,
                height,
                points@.len() as int,
                slots@.len() as int,
                prepared.paints@.len() as int,
                prepared.gradient_luts@.len() as int,
                rows_total(edge_rows@),
            ),
            res is Ok,
            *final(retained_layout),
        ),
        res is Err ==> res == Err::<ComputeScene, Error>(Error::FrameTooLarge),
        res matches Ok(scene) ==> {
            &&& scene.layout == *final(retained_layout)
            &&& scene.sections@[0]@ == point_words(points@)
            &&& scene.sections@[1]@ == contour_words(slots@)
            &&& scene.sections@[2]@ == paint_words(prepared.paints@)
            &&& scene.sections@[3]@ == prepared.gradient_luts@
            &&& forall|k: int| 4 <= k < 8 ==> (#[trigger] scene.sections@[k])@.len() == 0
            &&& scene.push == scene_push(
                width,
                height,
                points@.len() as int,
                prepared.paints@.len() as u32,
                scene.layout,
                antialias,
                alpha_only,
            )
        },
        res matches Ok(scene) ==> scene_built(
            width,
            height,
            points@,
            slots@,
            prepared.paints@,
            prepared.gradient_luts@,
            antialias,
            alpha_only,
            edge_rows@,
            *old(retained_layout),
            scene,
        ),
{
    let ghost fits = scene_fits(width, height, points@.len() as int, slots@, prepared.paints@, edge_rows@);
    let output_words = match width.checked_mul(height) {
        Some(v) => v,
        None => return Err(Error::FrameTooLarge),
    };
    if prepared.paints.len() > 0xffff_ffffusize {
        return Err(Error::FrameTooLarge);
    }
    let paint_count = prepared.paints.len() as u32;
    let tiles_x = tiles_exec(width);
    let tiles_y = tiles_exec(height);
    let tile_count = match tiles_x.checked_mul(tiles_y) {
        Some(v) => v,
        None => {
            proof {
                assert(2 * (tiles_for(width) * tiles_for(height)) > u32::MAX);
            }
            return Err(Error::FrameTooLarge);
        },
    };
    let compact_tile_indices = paint_count <= 0x1_0000u32;
    let compact_edge_indices = points.len() <= 0x1_0000usize;
    match scene_edges(points.len(), slots, &prepared.paints) {
        Ok(_) => {},
        Err(e) => return Err(e),
    }
    let mut entries: u32 = 0;
    let mut k: usize = 0;
    while k < edge_rows.len()
        invariant
            0 <= k <= edge_rows@.len(),
            entries == rows_total(edge_rows@.subrange(0, k as int)),
        decreases edge_rows@.len() - k,
    {
        proof {
            assert(edge_rows@.subrange(0, k as int + 1).drop_last() =~= edge_rows@.subrange(0, k as int));
        }
        entries = match entries.checked_add(edge_rows[k]) {
            Some(v) => v,
            None => {
                proof {
                    lemma_rows_total_prefix(edge_rows@, k as int + 1);
                }
                return Err(Error::FrameTooLarge);
            },
        };
        k = k + 1;
    }
    proof {
        assert(edge_rows@.subrange(0, edge_rows@.len() as int) =~= edge_rows@);
    }
    let tile_record_words = match tile_count.checked_mul(2) {
        Some(v) => v,
        None => return Err(Error::FrameTooLarge),
    };
    let tile_stride = if compact_tile_indices { paint_count + 1 } else { paint_count };
    let tile_entries_exec = match tile_count.checked_mul(tile_stride) {
        Some(v) => v,
        None => return Err(Error::FrameTooLarge),
    };
    let tile_index_words = if compact_tile_indices { tile_entries_exec.saturating_add(1) / 2 } else { tile_entries_exec };
    let edge_bin_count = match paint_count.checked_mul(tiles_y) {
        Some(v) => v,
        None => {
            proof {
                assert(2 * (paint_count * tiles_for(height)) > u32::MAX);
            }
            return Err(Error::FrameTooLarge);
        },
    };
    let edge_bin_words = match edge_bin_count.checked_mul(2) {
        Some(v) => v,
        None => return Err(Error::FrameTooLarge),
    };
    let edge_words = match entries.checked_mul(5) {
        Some(v) => v,
        None => return Err(Error::FrameTooLarge),
    };
    proof {
        assert(fits);
    }
    let point_words_vec = point_section(points);
    let contour_words_vec = contour_section(slots);
    let paint_words_vec = paint_section(&prepared.paints);
    let lut_words = prepared.gradient_luts.clone();
    proof {
        assert forall|i: int| 0 <= i < lut_words@.len() implies lut_words@[i] == prepared.gradient_luts@[i] by {
            assert(vstd::pervasive::cloned::<u32>(prepared.gradient_luts@[i], lut_words@[i]));
        }
        assert(lut_words@ =~= prepared.gradient_luts@);
        lemma_point_words_len(points@);
        lemma_contour_words_len(slots@);
        lemma_paint_words_len(prepared.paints@);
    }
    let lengths: [usize; 8] = [
        point_words_vec.len(),
        contour_words_vec.len(),
        paint_words_vec.len(),
        lut_words.len(),
        tile_record_words as usize,
        tile_index_words as usize,
        edge_bin_words as usize,
        edge_words as usize,
    ];
    proof {
        assert(lengths@ =~= scene_lengths(
            width,
            height,
            points@.len() as int,
            slots@.len() as int,
            prepared.paints@.len() as int,
            prepared.gradient_luts@.len() as int,
            rows_total(edge_rows@),
        ));
    }
    match retained_layout.ensure(output_words, lengths) {
        Ok(()) => {},
        Err(e) => return Err(e),
    }
    let layout = *retained_layout;
    let flags: u32 = (if compact_tile_indices { 1u32 } else { 0u32 }) + (if compact_edge_indices { 2u32 } else { 0u32 }) + 4
        + (if alpha_only { 8u32 } else { 0u32 });
    let push = ComputePush {
        width,
        height,
        output_word: 0,
        point_word: layout.offsets[0],
        contour_word: layout.offsets[1],
        paint_word: layout.offsets[2],
        lut_word: layout.offsets[3],
        paint_count,
        antialias: if antialias { 1 } else { 0 },
        tile_word: layout.offsets[4],
        tile_index_word: layout.offsets[5],
        tiles_x,
        edge_bin_word: layout.offsets[6],
        edge_word: layout.offsets[7],
        tiles_y,
        compact_flags: flags,
    };
    let sections: [Vec<u32>; 8] = [
        point_words_vec,
        contour_words_vec,
        paint_words_vec,
        lut_words,
        Vec::new(),
        Vec::new(),
        Vec::new(),
        Vec::new(),
    ];
    Ok(ComputeScene { sections, layout, push })
}

proof fn lemma_rows_total_prefix(rows: Seq<u32>, k: int)
    requires
        0 <= k <= rows.len(),
    ensures
        rows_total(rows.subrange(0, k)) <= rows_total(rows),
    decreases rows.len() - k,
{
    if k < rows.len() {
        lemma_rows_total_prefix(rows, k + 1);
        assert(rows.subrange(0, k + 1).drop_last() =~= rows.subrange(0, k));
    } else {
        assert(rows.subrange(0, k) =~= rows);
    }
}

/// Building the scene again from the same inputs, in the layout the first
/// build left, yields the same scene: same placement, push constants and
/// section words.
pub proof fn law_rebuilt_scene_matches(
    width: u32,
    height: u32,
    points: Seq<Point>,
    slots: Seq<CachedContour>,
    paints: Seq<PreparedPaint>,
    luts: Seq<u32>,
    antialias: bool,
    alpha_only: bool,
    edge_rows: Seq<u32>,
    before: SceneLayout,
    first: ComputeScene,
    again: ComputeScene,
)
    requires
        scene_built(width, height, points, slots, paints, luts, antialias, alpha_only, edge_rows, before, first),
        scene_built(width, height, points, slots, paints, luts, antialias, alpha_only, edge_rows, first.layout, again),
    ensures
        again.layout == first.layout,
        again.push == first.push,
        forall|k: int| 0 <= k < 8 ==> (#[trigger] again.sections@[k])@ == first.sections@[k]@,
{
    let lengths = scene_lengths(
        width,
        height,
        points.len() as int,
        slots.len() as int,
        paints.len() as int,
        luts.len() as int,
        rows_total(edge_rows),
    );
    crate::layout::law_layout_kept_while_sections_fit(
        before,
        (width * height) as u32,
        lengths,
        first.layout,
        lengths,
        true,
        again.layout,
    );
    assert forall|k: int| 0 <= k < 8 implies (#[trigger] again.sections@[k])@ == first.sections@[k]@ by {
        if k >= 4 {
            assert(again.sections@[k]@.len() == 0);
            assert(first.sections@[k]@.len() == 0);
            assert(again.sections@[k]@ =~= first.sections@[k]@);
        }
    }
}

proof fn lemma_paint_words_at(paints: Seq<PreparedPaint>, i: int, k: int)
    requires
        0 <= i < paints.len(),
        0 <= k < 24,
    ensures
        paint_words(paints)[24 * i + k] == paint_record(paints[i])[k],
    decreases paints.len(),
{
    let n = paints.len() as int;
    let prefix = paints.drop_last();
    lemma_paint_words_len(prefix);
    assert(paint_words(paints) == paint_words(prefix) + paint_record(paints.last()));
    if i < n - 1 {
        lemma_paint_words_at(prefix, i, k);
        assert(prefix[i] == paints[i]);
    }
}

/// The paint section of a built scene is one 24-word record per paint, in
/// paint order, laid out as the coverage shader reads it: contour start and
/// count, paint kind, fill rule, color, gradient kind, gradient table
/// offset, a reserved zero, the inverse transform (four matrix words, then
/// the two translation words), the gradient parameters (four, then two),
/// and the paint's bounds.
pub proof fn law_paint_section_layout(
    width: u32,
    height: u32,
    points: Seq<Point>,
    slots: Seq<CachedContour>,
    paints: Seq<PreparedPaint>,
    luts: Seq<u32>,
    antialias: bool,
    alpha_only: bool,
    edge_rows: Seq<u32>,
    before: SceneLayout,
    scene: ComputeScene,
)
    requires
        scene_built(width, height, points, slots, paints, luts, antialias, alpha_only, edge_rows, before, scene),
    ensures
        scene.sections@[2]@.len() == 24 * paints.len(),
        forall|i: int|
            0 <= i < paints.len() ==> {
                let w = scene.sections@[2]@;
                let p = #[trigger] paints[i];
                let b = 24 * i;
                &&& w[b] == p.contour_start
                &&& w[b + 1] == p.contour_count
                &&& w[b + 2] == p.paint_kind
                &&& w[b + 3] == p.rule
                &&& w[b + 4] == p.argb
                &&& w[b + 5] == p.gradient_kind
                &&& w[b + 6] == p.lut_word_offset
                &&& w[b + 7] == 0
                &&& forall|k: int| 0 <= k < 4 ==> w[b + 8 + k] == #[trigger] p.inverse0[k]
                &&& w[b + 12] == p.inverse1[0]
                &&& w[b + 13] == p.inverse1[1]
                &&& forall|k: int| 0 <= k < 4 ==> w[b + 14 + k] == #[trigger] p.params0[k]
                &&& w[b + 18] == p.params1[0]
                &&& w[b + 19] == p.params1[1]
                &&& forall|k: int| 0 <= k < 4 ==> w[b + 20 + k] == #[trigger] p.bounds[k]
            },
{
    lemma_paint_words_len(paints);
    assert forall|i: int| 0 <= i < paints.len() implies {
        let w = scene.sections@[2]@;
        let p = #[trigger] paints[i];
        let b = 24 * i;
        &&& w[b] == p.contour_start
        &&& w[b + 1] == p.contour_count
        &&& w[b + 2] == p.paint_kind
        &&& w[b + 3] == p.rule
        &&& w[b + 4] == p.argb
        &&& w[b + 5] == p.gradient_kind
        &&& w[b + 6] == p.lut_word_offset
        &&& w[b + 7] == 0
        &&& forall|k: int| 0 <= k < 4 ==> w[b + 8 + k] == #[trigger] p.inverse0[k]
        &&& w[b + 12] == p.inverse1[0]
        &&& w[b + 13] == p.inverse1[1]
        &&& forall|k: int| 0 <= k < 4 ==> w[b + 14 + k] == #[trigger] p.params0[k]
        &&& w[b + 18] == p.params1[0]
        &&& w[b + 19] == p.params1[1]
        &&& forall|k: int| 0 <= k < 4 ==> w[b + 20 + k] == #[trigger] p.bounds[k]
    } by {
        let p = paints[i];
        let r = paint_record(p);
        let b = 24 * i;
        assert forall|k: int| 0 <= k < 24 implies scene.sections@[2]@[b + k] == #[trigger] r[k] by {
            lemma_paint_words_at(paints, i, k);
        }
        assert(r[0] == p.contour_start);
        assert(r[7] == 0);
        assert forall|k: int| 0 <= k < 4 implies scene.sections@[2]@[b + 8 + k] == #[trigger] p.inverse0[k] by {
            assert(r[8 + k] == p.inverse0@[k]);
            assert(scene.sections@[2]@[b + (8 + k)] == r[8 + k]);
        }
        assert forall|k: int| 0 <= k < 4 implies scene.sections@[2]@[b + 14 + k] == #[trigger] p.params0[k] by {
            assert(r[14 + k] == p.params0@[k]);
            assert(scene.sections@[2]@[b + (14 + k)] == r[14 + k]);
        }
        assert forall|k: int| 0 <= k < 4 implies scene.sections@[2]@[b + 20 + k] == #[trigger] p.bounds[k] by {
            assert(r[20 + k] == p.bounds@[k]);
            assert(scene.sections@[2]@[b + (20 + k)] == r[20 + k]);
        }
        assert(scene.sections@[2]@[b + 1] == r[1]);
        assert(scene.sections@[2]@[b + 2] == r[2]);
        assert(scene.sections@[2]@[b + 3] == r[3]);
        assert(scene.sections@[2]@[b + 4] == r[4]);
        assert(scene.sections@[2]@[b + 5] == r[5]);
        assert(scene.sections@[2]@[b + 6] == r[6]);
        assert(scene.sections@[2]@[b + 7] == r[7]);
        assert(scene.sections@[2]@[b + 12] == r[12]);
        assert(scene.sections@[2]@[b + 13] == r[13]);
        assert(scene.sections@[2]@[b + 18] == r[18]);
        assert(scene.sections@[2]@[b + 19] == r[19]);
    }
}

} // verus!
