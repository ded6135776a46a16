//! Upload layout and draw sequence of the stencil-and-cover triangle path.

use vstd::prelude::*;
use crate::arena::Point;
use crate::error::Error;
use crate::geometry::{ContourDrawData, PreparedPaint};
use crate::stats::CacheStats;

verus! {

/// Bytes of one resident point.
pub const POINT_BYTES: usize = 8;
/// Bytes of one contour's draw data.
pub const DRAW_DATA_BYTES: usize = 48;
/// Bytes of one indirect draw command.
pub const INDIRECT_BYTES: usize = 16;

/// Bytes of the upload of `points`.
pub fn point_payload_bytes(points: &[Point]) -> (b: usize)
    requires
        points@.len() * POINT_BYTES <= usize::MAX,
    ensures
        b == POINT_BYTES * points@.len(),
{
    points.len() * POINT_BYTES
}

/// Where the triangle path places its uploads in the scratch buffer.
#[derive(Clone, Copy, Debug, PartialEq, Eq, Structural)]
pub struct TriangleUploads {
    /// Consecutive draws of one paint are submitted as one indirect draw.
    pub use_indirect: bool,
    /// Bytes of the resident points, at offset zero.
    pub point_bytes: usize,
    /// Offset of the gradient tables.
    pub gradient_offset: usize,
    /// Bytes of the gradient tables.
    pub gradient_bytes: usize,
    /// Offset of the draw data.
    pub draw_offset: usize,
    /// Bytes of the draw data (none without indirect draws).
    pub draw_bytes: usize,
    /// Offset of the indirect fan commands.
    pub indirect_offset: usize,
    /// Bytes of the indirect fan commands (none without indirect draws).
    pub indirect_bytes: usize,
    /// Bytes uploaded in all.
    pub upload_bytes: usize,
}

/// Some two consecutive draws belong to the same paint.
pub open spec fn repeats_paint(draws: Seq<ContourDrawData>) -> bool {
    exists|j: int| 0 <= j < draws.len() - 1 && #[trigger] draws[j].paint_index == draws[j + 1].paint_index
}

/// The triangle path can draw paint `p`: fills always, isolated groups only
/// with raster-order groups, nothing else.
pub open spec fn triangle_paint_ok(p: PreparedPaint, raster_order_groups: bool) -> bool {
    p.paint_kind < 2 || (p.paint_kind < 4 && raster_order_groups)
}

/// The upload layout for these sizes.
pub open spec fn uploads_for(
    use_indirect: bool,
    points_len: int,
    luts_len: int,
    draws_len: int,
    fan_len: int,
) -> TriangleUploads {
    let point_bytes = POINT_BYTES * points_len;
    let gradient_bytes = 4 * luts_len;
    let draw_bytes = if use_indirect { DRAW_DATA_BYTES * draws_len } else { 0 };
    let indirect_bytes = if use_indirect { INDIRECT_BYTES * fan_len } else { 0 };
    TriangleUploads {
        use_indirect,
        point_bytes: point_bytes as usize,
        gradient_offset: point_bytes as usize,
        gradient_bytes: gradient_bytes as usize,
        draw_offset: (point_bytes + gradient_bytes) as usize,
        draw_bytes: draw_bytes as usize,
        indirect_offset: (point_bytes + gradient_bytes + draw_bytes) as usize,
        indirect_bytes: indirect_bytes as usize,
        upload_bytes: (point_bytes + gradient_bytes + draw_bytes + indirect_bytes) as usize,
    }
}

/// Every byte count of the layout fits in `usize`.
pub open spec fn uploads_fit(use_indirect: bool, points_len: int, luts_len: int, draws_len: int, fan_len: int) -> bool {
    POINT_BYTES * points_len + 4 * luts_len + (if use_indirect { DRAW_DATA_BYTES * draws_len } else { 0 }) + (
    if use_indirect {
        INDIRECT_BYTES * fan_len
    } else {
        0
    }) <= usize::MAX
}

fn has_repeated_paint(draws: &Vec<ContourDrawData>) -> (r: bool)
    ensures
        r == repeats_paint(draws@),
{
    let n = draws.len();
    if n < 2 {
        return false;
    }
    let mut j: usize = 0;
    while j < n - 1
        invariant
            0 <= j <= n - 1,
            n == draws@.len(),
            n >= 2,
            forall|k: int| 0 <= k < j ==> #[trigger] draws@[k].paint_index != draws@[k + 1].paint_index,
        decreases n - 1 - j,
    {
        if draws[j].paint_index == draws[j + 1].paint_index {
            return true;
        }
        j = j + 1;
    }
    false
}

/// Lays out the triangle path's uploads: points, gradient tables, and, when
/// multi-draw is on and some paint has several draws, the draw data and the
/// indirect fan commands. Fails with `BadTarget` on a paint the path cannot
/// draw.
pub fn triangle_uploads(
    paints: &Vec<PreparedPaint>,
    draws: &Vec<ContourDrawData>,
    fan_len: usize,
    luts_len: usize,
    points_len: usize,
    multi_draw_indirect: bool,
    raster_order_groups: bool,
) -> (res: Result<TriangleUploads, Error>)
    ensures
        (exists|i: int| 0 <= i < paints@.len() && !triangle_paint_ok(#[trigger] paints@[i], raster_order_groups))
            <==> res == Err::<TriangleUploads, Error>(Error::BadTarget),
        res is Err ==> res == Err::<TriangleUploads, Error>(Error::BadTarget) || res == Err::<TriangleUploads, Error>(
            Error::FrameTooLarge,
        ),
        (forall|i: int| 0 <= i < paints@.len() ==> triangle_paint_ok(#[trigger] paints@[i], raster_order_groups)) ==> {
            let use_indirect = multi_draw_indirect && repeats_paint(draws@);
            &&& res is Ok <==> uploads_fit(use_indirect, points_len as int, luts_len as int, draws@.len() as int, fan_len as int)
            &&& res matches Ok(u) ==> u == uploads_for(use_indirect, points_len as int, luts_len as int, draws@.len() as int, fan_len as int)
        },
{
    let mut i: usize = 0;
    while i < paints.len()
        invariant
            0 <= i <= paints@.len(),
            forall|k: int| 0 <= k < i ==> triangle_paint_ok(#[trigger] paints@[k], raster_order_groups),
        decreases paints@.len() - i,
    {
        let kind = paints[i].paint_kind;
        if kind >= 4 || (kind >= 2 && !raster_order_groups) {
            proof {
                assert(!triangle_paint_ok(paints@[i as int], raster_order_groups));
            }
            return Err(Error::BadTarget);
        }
        i = i + 1;
    }
    let repeats = if multi_draw_indirect { has_repeated_paint(draws) } else { false };
    let use_indirect = multi_draw_indirect && repeats;
    let ghost spec_fits = uploads_fit(use_indirect, points_len as int, luts_len as int, draws@.len() as int, fan_len as int);
    let point_bytes = match points_len.checked_mul(POINT_BYTES) {
        Some(v) => v,
        None => return Err(Error::FrameTooLarge),
    };
    let gradient_bytes = match luts_len.checked_mul(4) {
        Some(v) => v,
        None => return Err(Error::FrameTooLarge),
    };
    let draw_bytes = if use_indirect {
        match draws.len().checked_mul(DRAW_DATA_BYTES) {
            Some(v) => v,
            None => return Err(Error::FrameTooLarge),
        }
    } else {
        0
    };
    let indirect_bytes = if use_indirect {
        match fan_len.checked_mul(INDIRECT_BYTES) {
            Some(v) => v,
            None => return Err(Error::FrameTooLarge),
        }
    } else {
        0
    };
    let draw_offset = match point_bytes.checked_add(gradient_bytes) {
        Some(v) => v,
        None => return Err(Error::FrameTooLarge),
    };
    let indirect_offset = match draw_offset.checked_add(draw_bytes) {
        Some(v) => v,
        None => return Err(Error::FrameTooLarge),
    };
    let upload_bytes = match indirect_offset.checked_add(indirect_bytes) {
        Some(v) => v,
        None => return Err(Error::FrameTooLarge),
    };
    Ok(
        TriangleUploads {
            use_indirect,
            point_bytes,
            gradient_offset: point_bytes,
            gradient_bytes,
            draw_offset,
            draw_bytes,
            indirect_offset,
            indirect_bytes,
            upload_bytes,
        },
    )
}

/// Statistics of a triangle frame with these uploads: bytes and non-empty
/// uploads, geometry (points, draw data, indirect commands) and paint
/// (gradient tables) bytes, no bin bytes.
pub open spec fn triangle_upload_stats(stats: CacheStats, u: TriangleUploads) -> CacheStats {
    let ranges = (if u.point_bytes != 0 { 1int } else { 0 }) + (if u.gradient_bytes != 0 { 1int } else { 0 }) + (
    if u.draw_bytes != 0 {
        1int
    } else {
        0
    }) + (if u.indirect_bytes != 0 { 1int } else { 0 });
    let geometry = u.point_bytes + u.draw_bytes + u.indirect_bytes;
    CacheStats {
        scene_upload_bytes: u.upload_bytes as u64,
        scene_upload_ranges: ranges as u32,
        geometry_upload_bytes: (if geometry > usize::MAX { usize::MAX as int } else { geometry }) as u64,
        paint_upload_bytes: u.gradient_bytes as u64,
        bin_upload_bytes: 0,
        ..stats
    }
}

/// Records the upload statistics of a triangle frame.
pub fn record_triangle_upload_stats(stats: &mut CacheStats, u: &TriangleUploads)
    ensures
        *final(stats) == triangle_upload_stats(*old(stats), *u),
{
    let ranges: u32 = (if u.point_bytes != 0 { 1u32 } else { 0u32 }) + (if u.gradient_bytes != 0 { 1u32 } else { 0u32 })
        + (if u.draw_bytes != 0 { 1u32 } else { 0u32 }) + (if u.indirect_bytes != 0 { 1u32 } else { 0u32 });
    let geometry = u.point_bytes.saturating_add(u.draw_bytes).saturating_add(u.indirect_bytes);
    stats.scene_upload_bytes = u.upload_bytes as u64;
    stats.scene_upload_ranges = ranges;
    stats.geometry_upload_bytes = geometry as u64;
    stats.paint_upload_bytes = u.gradient_bytes as u64;
    stats.bin_upload_bytes = 0;
}

/// Indirect submission of a run of draws.
#[derive(Clone, Copy, Debug, PartialEq, Eq, Structural)]
pub struct IndirectRun {
    /// Offset of the run's first indirect command.
    pub byte_offset: usize,
    /// Commands in the run.
    pub count: u32,
}

/// One step of the triangle path's render pass.
#[derive(Clone, Copy, Debug, PartialEq, Eq, Structural)]
pub enum TriangleStep {
    /// Start drawing into the isolated group attachment.
    BeginGroup,
    /// Composite the group with the layer opacity in `argb`.
    EndGroup { argb: u32 },
    /// Stencil the winding of draws `draws_start..draws_end` of paint
    /// `paint`, then cover the paint's bounds.
    Fill {
        paint: usize,
        even_odd: bool,
        lut_word_offset: u32,
        draws_start: usize,
        draws_end: usize,
        indirect: Option<IndirectRun>,
    },
}

/// The render pass of a triangle frame.
pub struct TriangleSteps {
    /// First word of the gradient tables.
    pub lut_word_base: u32,
    /// First word of the draw data.
    pub draw_word_base: u32,
    /// One step per paint.
    pub steps: Vec<TriangleStep>,
}

/// End of the run of draws of paint `p` that starts at `cursor`.
pub open spec fn run_end(draws: Seq<ContourDrawData>, cursor: int, p: int) -> int
    decreases draws.len() - cursor,
{
    if 0 <= cursor < draws.len() && draws[cursor].paint_index == p {
        run_end(draws, cursor + 1, p)
    } else {
        cursor
    }
}

/// First draw of paint `n`: where the runs of the paints before it end.
pub open spec fn draw_cursor(draws: Seq<ContourDrawData>, n: int) -> int
    decreases n,
{
    if n <= 0 {
        0
    } else {
        run_end(draws, draw_cursor(draws, n - 1), n - 1)
    }
}

/// The step of paint `i`.
pub open spec fn triangle_step(
    paints: Seq<PreparedPaint>,
    draws: Seq<ContourDrawData>,
    u: TriangleUploads,
    lut_word_base: int,
    i: int,
) -> TriangleStep {
    let p = paints[i];
    let start = draw_cursor(draws, i);
    let end = draw_cursor(draws, i + 1);
    if p.paint_kind == 2 {
        TriangleStep::BeginGroup
    } else if p.paint_kind == 3 {
        TriangleStep::EndGroup { argb: p.argb }
    } else {
        TriangleStep::Fill {
            paint: i as usize,
            even_odd: p.rule != 0,
            lut_word_offset: (lut_word_base + p.lut_word_offset) as u32,
            draws_start: start as usize,
            draws_end: end as usize,
            indirect: if u.use_indirect && end - start > 1 {
                Some(IndirectRun { byte_offset: (u.indirect_offset + INDIRECT_BYTES * start) as usize, count: (end - start) as u32 })
            } else {
                None
            },
        }
    }
}

/// Every offset and count of paint `i`'s step fits.
pub open spec fn step_fits(
    paints: Seq<PreparedPaint>,
    draws: Seq<ContourDrawData>,
    u: TriangleUploads,
    lut_word_base: int,
    i: int,
) -> bool {
    let p = paints[i];
    let start = draw_cursor(draws, i);
    let end = draw_cursor(draws, i + 1);
    p.paint_kind == 2 || p.paint_kind == 3 || {
        &&& lut_word_base + p.lut_word_offset <= u32::MAX
        &&& u.use_indirect && end - start > 1 ==> u.indirect_offset + INDIRECT_BYTES * start <= usize::MAX && end - start
            <= u32::MAX
    }
}

proof fn lemma_run_end_bounds(draws: Seq<ContourDrawData>, cursor: int, p: int)
    requires
        0 <= cursor <= draws.len(),
    ensures
        cursor <= run_end(draws, cursor, p) <= draws.len(),
        forall|j: int| cursor <= j < run_end(draws, cursor, p) ==> #[trigger] draws[j].paint_index == p,
    decreases draws.len() - cursor,
{
    if cursor < draws.len() && draws[cursor].paint_index == p {
        lemma_run_end_bounds(draws, cursor + 1, p);
    }
}

proof fn lemma_draw_cursor_bounds(draws: Seq<ContourDrawData>, n: int)
    requires
        0 <= n,
    ensures
        0 <= draw_cursor(draws, n) <= draws.len(),
    decreases n,
{
    if n > 0 {
        lemma_draw_cursor_bounds(draws, n - 1);
        lemma_run_end_bounds(draws, draw_cursor(draws, n - 1), n - 1);
    }
}

/// Orders the render pass: per paint, a group start or end, or the paint's
/// run of stencil draws (one indirect draw when there are several and
/// indirect draws are on) followed by its cover.
pub fn triangle_steps(
    paints: &Vec<PreparedPaint>,
    draws: &Vec<ContourDrawData>,
    u: &TriangleUploads,
) -> (res: Result<TriangleSteps, Error>)
    ensures
        res is Ok <==> u.point_bytes / 4 <= u32::MAX && u.draw_offset / 4 <= u32::MAX && forall|i: int|
            0 <= i < paints@.len() ==> #[trigger] step_fits(paints@, draws@, *u, (u.point_bytes / 4) as int, i),
        res is Err ==> res == Err::<TriangleSteps, Error>(Error::FrameTooLarge),
        res matches Ok(t) ==> {
            &&& t.lut_word_base == u.point_bytes / 4
            &&& t.draw_word_base == u.draw_offset / 4
            &&& t.steps@.len() == paints@.len()
            &&& forall|i: int| 0 <= i < paints@.len() ==> #[trigger] t.steps@[i] == triangle_step(
                paints@,
                draws@,
                *u,
                (u.point_bytes / 4) as int,
                i,
            )
        },
{
    let lut_base_words = u.point_bytes / 4;
    if lut_base_words > 0xffff_ffffusize {
        return Err(Error::FrameTooLarge);
    }
    let draw_base_words = u.draw_offset / 4;
    if draw_base_words > 0xffff_ffffusize {
        return Err(Error::FrameTooLarge);
    }
    let lut_word_base = lut_base_words as u32;
    let draw_word_base = draw_base_words as u32;
    let mut steps: Vec<TriangleStep> = Vec::new();
    let mut cursor: usize = 0;
    let n = paints.len();
    let mut i: usize = 0;
    while i < n
        invariant
            0 <= i <= n,
            n == paints@.len(),
            lut_word_base == u.point_bytes / 4,
            cursor == draw_cursor(draws@, i as int),
            cursor <= draws@.len(),
            steps@.len() == i,
            forall|k: int| 0 <= k < i ==> #[trigger] steps@[k] == triangle_step(paints@, draws@, *u, lut_word_base as int, k),
            forall|k: int| 0 <= k < i ==> #[trigger] step_fits(paints@, draws@, *u, lut_word_base as int, k),
        decreases n - i,
    {
        let start = cursor;
        proof {
            lemma_run_end_bounds(draws@, cursor as int, i as int);
        }
        while cursor < draws.len() && draws[cursor].paint_index as usize == i
            invariant
                start <= cursor <= draws@.len(),
                run_end(draws@, start as int, i as int) == run_end(draws@, cursor as int, i as int),
            decreases draws@.len() - cursor,
        {
            cursor = cursor + 1;
        }
        let paint = paints[i];
        assert(cursor == draw_cursor(draws@, i as int + 1));
        if paint.paint_kind == 2 {
            steps.push(TriangleStep::BeginGroup);
        } else if paint.paint_kind == 3 {
            steps.push(TriangleStep::EndGroup { argb: paint.argb });
        } else {
            if lut_word_base > u32::MAX - paint.lut_word_offset {
                proof {
                    assert(!step_fits(paints@, draws@, *u, lut_word_base as int, i as int));
                }
                return Err(Error::FrameTooLarge);
            }
            let lut_word_offset = lut_word_base + paint.lut_word_offset;
            let count = cursor - start;
            let limit = (usize::MAX - u.indirect_offset) / INDIRECT_BYTES;
            let indirect = if u.use_indirect && count > 1 {
                if start > limit || count > 0xffff_ffffusize {
                    proof {
                        if start > limit {
                            assert(u.indirect_offset + 16 * start > usize::MAX) by (nonlinear_arith)
                                requires
                                    start > limit,
                                    limit == (usize::MAX - u.indirect_offset) / 16,
                                    u.indirect_offset <= usize::MAX;
                        }
                        assert(!step_fits(paints@, draws@, *u, lut_word_base as int, i as int));
                    }
                    return Err(Error::FrameTooLarge);
                }
                proof {
                    assert(u.indirect_offset + 16 * start <= usize::MAX) by (nonlinear_arith)
                        requires
                            start <= limit,
                            limit == (usize::MAX - u.indirect_offset) / 16,
                            u.indirect_offset <= usize::MAX;
                }
                Some(IndirectRun { byte_offset: u.indirect_offset + INDIRECT_BYTES * start, count: count as u32 })
            } else {
                None
            };
            steps.push(
                TriangleStep::Fill {
                    paint: i,
                    even_odd: paint.rule != 0,
                    lut_word_offset,
                    draws_start: start,
                    draws_end: cursor,
                    indirect,
                },
            );
        }
        proof {
            assert(steps@[i as int] == triangle_step(paints@, draws@, *u, lut_word_base as int, i as int));
            assert(step_fits(paints@, draws@, *u, lut_word_base as int, i as int));
        }
        i = i + 1;
    }
    Ok(TriangleSteps { lut_word_base, draw_word_base, steps })
}

/// Draws grouped by paint: their paint indices never decrease.
pub open spec fn draws_in_paint_order(draws: Seq<ContourDrawData>) -> bool {
    forall|a: int, b: int| 0 <= a <= b < draws.len() ==> #[trigger] draws[a].paint_index <= #[trigger] draws[b].paint_index
}

proof fn lemma_run_end_stops(draws: Seq<ContourDrawData>, cursor: int, p: int)
    requires
        0 <= cursor <= draws.len(),
    ensures
        run_end(draws, cursor, p) == draws.len() || draws[run_end(draws, cursor, p)].paint_index != p,
    decreases draws.len() - cursor,
{
    if cursor < draws.len() && draws[cursor].paint_index == p {
        lemma_run_end_stops(draws, cursor + 1, p);
    }
}

proof fn lemma_draw_cursor_splits(draws: Seq<ContourDrawData>, n: int)
    requires
        0 <= n,
        draws_in_paint_order(draws),
    ensures
        0 <= draw_cursor(draws, n) <= draws.len(),
        forall|j: int| 0 <= j < draw_cursor(draws, n) ==> #[trigger] draws[j].paint_index < n,
        forall|j: int| draw_cursor(draws, n) <= j < draws.len() ==> #[trigger] draws[j].paint_index >= n,
    decreases n,
{
    if n > 0 {
        lemma_draw_cursor_splits(draws, n - 1);
        let c = draw_cursor(draws, n - 1);
        let e = run_end(draws, c, n - 1);
        lemma_run_end_bounds(draws, c, n - 1);
        lemma_run_end_stops(draws, c, n - 1);
        assert(draw_cursor(draws, n) == e);
        assert forall|j: int| 0 <= j < e implies #[trigger] draws[j].paint_index < n by {
            if j >= c {
                assert(draws[j].paint_index == n - 1);
            }
        }
        assert forall|j: int| e <= j < draws.len() implies #[trigger] draws[j].paint_index >= n by {
            assert(draws[e].paint_index >= n - 1);
            assert(draws[e].paint_index <= draws[j].paint_index);
        }
    }
}

/// With the draws grouped by paint, the stencil run of each filled paint is
/// exactly that paint's draws: a draw lies in paint `i`'s run if and only if
/// it was made for paint `i`. With indirect draws on and more than one draw
/// in the run, the run is one indirect command over those draws.
pub proof fn law_fill_steps_draw_their_paints(
    paints: Seq<PreparedPaint>,
    draws: Seq<ContourDrawData>,
    u: TriangleUploads,
    lut_word_base: int,
    i: int,
)
    requires
        draws_in_paint_order(draws),
        draws.len() <= usize::MAX,
        paints.len() <= usize::MAX,
        0 <= i < paints.len(),
        paints[i].paint_kind != 2,
        paints[i].paint_kind != 3,
    ensures
        triangle_step(paints, draws, u, lut_word_base, i) matches TriangleStep::Fill {
            paint,
            even_odd,
            draws_start,
            draws_end,
            indirect,
            ..
        } ==> {
            &&& paint == i
            &&& even_odd == (paints[i].rule != 0)
            &&& draws_start <= draws_end <= draws.len()
            &&& forall|j: int| 0 <= j < draws.len() ==> (draws_start <= j < draws_end <==> #[trigger] draws[j].paint_index == i)
            &&& indirect matches Some(run) ==> draws_end - draws_start > 1 && (draws_end - draws_start <= u32::MAX
                ==> run.count == draws_end - draws_start)
        },
        triangle_step(paints, draws, u, lut_word_base, i) is Fill,
{
    lemma_draw_cursor_splits(draws, i);
    lemma_draw_cursor_splits(draws, i + 1);
    let start = draw_cursor(draws, i);
    let end = draw_cursor(draws, i + 1);
    assert(start <= end) by {
        if start > end {
            assert(draws[end].paint_index >= i);
            assert(draws[end].paint_index < i + 1);
        }
    }
    let step = triangle_step(paints, draws, u, lut_word_base, i);
    assert(step == TriangleStep::Fill {
        paint: i as usize,
        even_odd: paints[i].rule != 0,
        lut_word_offset: (lut_word_base + paints[i].lut_word_offset) as u32,
        draws_start: start as usize,
        draws_end: end as usize,
        indirect: if u.use_indirect && end - start > 1 {
            Some(IndirectRun { byte_offset: (u.indirect_offset + INDIRECT_BYTES * start) as usize, count: (end - start) as u32 })
        } else {
            None
        },
    });
    assert forall|j: int| 0 <= j < draws.len() implies (start <= j < end <==> #[trigger] draws[j].paint_index == i) by {}
}

/// The triangle path's uploads fill the scratch buffer back to back without
/// overlapping: the points from byte 0 (eight bytes each), then the gradient
/// tables (four bytes per word), then, with indirect draws, the draw data
/// (48 bytes per draw) and the indirect fan commands (16 bytes each), the
/// total being where the last region ends.
pub proof fn law_triangle_uploads_do_not_overlap(
    draws: Seq<ContourDrawData>,
    fan_len: int,
    luts_len: int,
    points_len: int,
    multi_draw_indirect: bool,
)
    requires
        fan_len >= 0,
        luts_len >= 0,
        points_len >= 0,
        uploads_fit(multi_draw_indirect && repeats_paint(draws), points_len, luts_len, draws.len() as int, fan_len),
    ensures
        ({
            let use_indirect = multi_draw_indirect && repeats_paint(draws);
            let u = uploads_for(use_indirect, points_len, luts_len, draws.len() as int, fan_len);
            &&& u.point_bytes == 8 * points_len
            &&& u.gradient_offset == u.point_bytes
            &&& u.gradient_bytes == 4 * luts_len
            &&& u.draw_offset == u.gradient_offset + u.gradient_bytes
            &&& u.draw_bytes == if use_indirect { 48 * draws.len() } else { 0 }
            &&& u.indirect_offset == u.draw_offset + u.draw_bytes
            &&& u.indirect_bytes == if use_indirect { 16 * fan_len } else { 0 }
            &&& u.upload_bytes == u.indirect_offset + u.indirect_bytes
        }),
{
}

} // verus!
