//! Paint records, gradient tables and indirect draws of a prepared frame.

use vstd::prelude::*;
use std::collections::HashMap;
use crate::error::Error;
use crate::arena::PointRange;
use crate::frame::{EvaluatedFrame, GradientKind, RecordedCommand, RecordedContour, RecordedOp, Rule};
use crate::geometry::{
    action_at, contour_draw, frame_key, identity_transform, ContourAction, count_draws, dirty_upto, draws_upto, fan_commands, lemma_dirty_upto_len,
    lemma_dirty_upto_prefix, lemma_placed_congruent, new_points_upto, op_argb, placed_first_fit, op_even_odd, op_paint_kind, paint_header, points_upto, prepared_paint,
    slot_contents_ok, slot_prepared, span_draws, stats_upto, triangle_commands, CachedContour, ContourDrawData,
    ContourEvidence, DirtyRange, DrawIndirect, GeometryCache, GeometryKey, PreparedGeometry,
};
use crate::lut::{
    concat_tables, intern_gradient_lut, lemma_concat_tables, lemma_intern_distinct, payload_holds, table_index,
    LUT_WORDS,
};
use crate::stats::{sat_add, zero_stats, CacheStats};

verus! {

/// Distinct gradient tables of the first `n` commands, in order of first use.
pub open spec fn luts_upto(commands: Seq<RecordedCommand>, n: int) -> Seq<Seq<u32>>
    decreases n,
{
    if n <= 0 {
        Seq::empty()
    } else {
        let d = luts_upto(commands, n - 1);
        match commands[n - 1].op {
            RecordedOp::Gradient(g) => if d.contains(g.lut@) { d } else { d.push(g.lut@) },
            _ => d,
        }
    }
}

/// Word offset of command `i`'s gradient table in the frame's table payload
/// (0 for commands without a gradient).
pub open spec fn lut_offset_at(commands: Seq<RecordedCommand>, i: int) -> u32 {
    match commands[i].op {
        RecordedOp::Gradient(g) => (LUT_WORDS * table_index(luts_upto(commands, i + 1), g.lut@)) as u32,
        _ => 0,
    }
}

/// A command's first contour and contour count fit in 32 bits.
pub open spec fn command_fits(c: RecordedCommand) -> bool {
    c.start <= u32::MAX && (if c.end >= c.start { c.end - c.start } else { 0int }) <= u32::MAX
}

/// Command `i`'s gradient table can be placed in a payload holding the
/// distinct tables seen before it.
pub open spec fn gradient_fits(commands: Seq<RecordedCommand>, i: int) -> bool {
    match commands[i].op {
        RecordedOp::Gradient(g) => {
            let d = luts_upto(commands, i);
            &&& LUT_WORDS * d.len() + LUT_WORDS <= usize::MAX
            &&& d.contains(g.lut@) || LUT_WORDS * d.len() <= u32::MAX
        },
        _ => true,
    }
}

/// Every index, offset and vertex count of the frame's draws fits in 32 bits.
pub open spec fn draws_fit(slots: Seq<CachedContour>, commands: Seq<RecordedCommand>) -> bool {
    let n = commands.len() as int;
    let draws = draws_upto(slots, commands, n);
    &&& n <= u32::MAX + 1
    &&& forall|i: int| 0 <= i < n ==> #[trigger] command_fits(commands[i])
    &&& forall|i: int| 0 <= i < n ==> #[trigger] gradient_fits(commands, i)
    &&& draws.len() <= u32::MAX + 1
    &&& forall|j: int| 0 <= j < draws.len() ==> ((#[trigger] draws[j]).point_count - 2) * 3 <= u32::MAX
}

/// Slots shaped like the frame's contours: one per contour, with its point
/// count and closedness. This is all of a slot that the number of draws and
/// their vertex counts depend on.
pub open spec fn contour_shapes(contours: Seq<RecordedContour>) -> Seq<CachedContour> {
    Seq::new(
        contours.len(),
        |i: int|
            CachedContour {
                key: GeometryKey { a: 0, b: 0 },
                range: PointRange { first: 0, count: contours[i].points@.len() as u32 },
                closed: contours[i].closed,
                transform: [0u32, 0u32, 0u32, 0u32, 0u32, 0u32],
                bounds: [0u32, 0u32, 0u32, 0u32],
            },
    )
}

/// The frame's paints and draws fit the 32-bit indices and counts of the
/// draw path: what preparing the frame needs beyond storing its points.
pub open spec fn frame_draws_fit(frame: EvaluatedFrame) -> bool {
    let shapes = contour_shapes(frame.contours@);
    &&& draws_fit(shapes, frame.commands@)
    &&& draws_upto(shapes, frame.commands@, frame.commands@.len() as int).len() <= u32::MAX
}

/// Two slot sequences with the same point counts.
pub open spec fn same_counts(a: Seq<CachedContour>, b: Seq<CachedContour>) -> bool {
    &&& a.len() == b.len()
    &&& forall|i: int| 0 <= i < a.len() ==> #[trigger] a[i].range.count == b[i].range.count
}

proof fn lemma_span_counts(
    a: Seq<CachedContour>,
    b: Seq<CachedContour>,
    from: int,
    to: int,
    paint_index: u32,
    even_odd: bool,
    gradient: bool,
    argb: u32,
)
    requires
        same_counts(a, b),
        from >= 0,
    ensures
        ({
            let x = span_draws(a, from, to, paint_index, even_odd, gradient, argb);
            let y = span_draws(b, from, to, paint_index, even_odd, gradient, argb);
            &&& x.len() == y.len()
            &&& forall|k: int| 0 <= k < x.len() ==> #[trigger] x[k].point_count == y[k].point_count
        }),
    decreases to - from,
{
    if to > from {
        lemma_span_counts(a, b, from, to - 1, paint_index, even_odd, gradient, argb);
        if 0 <= to - 1 < a.len() {
            assert(a[to - 1].range.count == b[to - 1].range.count);
        }
    }
}

proof fn lemma_draws_counts(a: Seq<CachedContour>, b: Seq<CachedContour>, commands: Seq<RecordedCommand>, n: int)
    requires
        same_counts(a, b),
    ensures
        ({
            let x = draws_upto(a, commands, n);
            let y = draws_upto(b, commands, n);
            &&& x.len() == y.len()
            &&& forall|k: int| 0 <= k < x.len() ==> #[trigger] x[k].point_count == y[k].point_count
        }),
    decreases n,
{
    if n > 0 {
        lemma_draws_counts(a, b, commands, n - 1);
        let c = commands[n - 1];
        let (eo, gr, argb) = (op_even_odd(c.op), op_paint_kind(c.op) == 1, op_argb(c.op));
        lemma_span_counts(a, b, c.start as int, c.end as int, (n - 1) as u32, eo, gr, argb);
        let x0 = draws_upto(a, commands, n - 1);
        let y0 = draws_upto(b, commands, n - 1);
        let xs = span_draws(a, c.start as int, c.end as int, (n - 1) as u32, eo, gr, argb);
        let ys = span_draws(b, c.start as int, c.end as int, (n - 1) as u32, eo, gr, argb);
        let x = draws_upto(a, commands, n);
        let y = draws_upto(b, commands, n);
        assert(x == x0 + xs);
        assert(y == y0 + ys);
        assert forall|k: int| 0 <= k < x.len() implies #[trigger] x[k].point_count == y[k].point_count by {
            if k < x0.len() {
                assert(x[k] == x0[k]);
                assert(y[k] == y0[k]);
            } else {
                assert(x[k] == xs[k - x0.len()]);
                assert(y[k] == ys[k - y0.len()]);
            }
        }
    }
}

/// Whether a frame's draws fit depends on the slots' point counts only.
pub proof fn lemma_draws_fit_counts(a: Seq<CachedContour>, b: Seq<CachedContour>, commands: Seq<RecordedCommand>)
    requires
        same_counts(a, b),
    ensures
        draws_fit(a, commands) == draws_fit(b, commands),
        draws_upto(a, commands, commands.len() as int).len() == draws_upto(b, commands, commands.len() as int).len(),
{
    let n = commands.len() as int;
    lemma_draws_counts(a, b, commands, n);
    let x = draws_upto(a, commands, n);
    let y = draws_upto(b, commands, n);
    assert((forall|j: int| 0 <= j < x.len() ==> ((#[trigger] x[j]).point_count - 2) * 3 <= u32::MAX) == (forall|j: int|
        0 <= j < y.len() ==> ((#[trigger] y[j]).point_count - 2) * 3 <= u32::MAX)) by {
        if forall|j: int| 0 <= j < x.len() ==> ((#[trigger] x[j]).point_count - 2) * 3 <= u32::MAX {
            assert forall|j: int| 0 <= j < y.len() implies ((#[trigger] y[j]).point_count - 2) * 3 <= u32::MAX by {
                assert(x[j].point_count == y[j].point_count);
            }
        }
        if forall|j: int| 0 <= j < y.len() ==> ((#[trigger] y[j]).point_count - 2) * 3 <= u32::MAX {
            assert forall|j: int| 0 <= j < x.len() implies ((#[trigger] x[j]).point_count - 2) * 3 <= u32::MAX by {
                assert(x[j].point_count == y[j].point_count);
            }
        }
    }
}

/// `p` holds a paint record per command, the distinct gradient tables of
/// the commands, and the draws of `commands` over `slots` with their
/// indirect triangle and fan commands.
pub open spec fn draws_built(
    slots: Seq<CachedContour>,
    commands: Seq<RecordedCommand>,
    paint_bounds: Seq<[u32; 4]>,
    p: PreparedGeometry,
) -> bool {
    let n = commands.len() as int;
    let draws = draws_upto(slots, commands, n);
    &&& p.paints@.len() == n
    &&& forall|i: int| 0 <= i < n ==> #[trigger] p.paints@[i] == prepared_paint(
        commands[i],
        lut_offset_at(commands, i),
        paint_bounds[i],
    )
    &&& p.gradient_luts@ == concat_tables(luts_upto(commands, n))
    &&& p.draw_data@ == draws
    &&& p.indirect@ == triangle_commands(draws)
    &&& p.fan_indirect@ == fan_commands(draws)
}

/// `stats` with the solid and gradient draw counters advanced over `draws`.
pub open spec fn with_draw_counts(stats: CacheStats, draws: Seq<ContourDrawData>) -> CacheStats {
    CacheStats {
        gradient_draws: count_draws(draws, true, stats.gradient_draws),
        solid_draws: count_draws(draws, false, stats.solid_draws),
        ..stats
    }
}

proof fn lemma_span_prefix(
    slots: Seq<CachedContour>,
    from: int,
    a: int,
    b: int,
    paint_index: u32,
    even_odd: bool,
    gradient: bool,
    argb: u32,
)
    requires
        from <= a <= b,
    ensures
        span_draws(slots, from, a, paint_index, even_odd, gradient, argb).is_prefix_of(
            span_draws(slots, from, b, paint_index, even_odd, gradient, argb),
        ),
    decreases b - a,
{
    let x = span_draws(slots, from, a, paint_index, even_odd, gradient, argb);
    if a < b {
        lemma_span_prefix(slots, from, a, b - 1, paint_index, even_odd, gradient, argb);
        let y = span_draws(slots, from, b - 1, paint_index, even_odd, gradient, argb);
        let z = span_draws(slots, from, b, paint_index, even_odd, gradient, argb);
        assert(y.is_prefix_of(z)) by {
            assert(z.subrange(0, y.len() as int) =~= y);
        }
        assert forall|k: int| 0 <= k < x.len() implies z[k] == x[k] by {
            assert(x[k] == y.subrange(0, x.len() as int)[k]);
            assert(y[k] == z.subrange(0, y.len() as int)[k]);
        }
        assert(z.subrange(0, x.len() as int) =~= x);
    } else {
        assert(x.subrange(0, x.len() as int) =~= x);
    }
}

proof fn lemma_draws_prefix(slots: Seq<CachedContour>, commands: Seq<RecordedCommand>, m: int, n: int)
    requires
        0 <= m <= n <= commands.len(),
    ensures
        draws_upto(slots, commands, m).is_prefix_of(draws_upto(slots, commands, n)),
    decreases n - m,
{
    let x = draws_upto(slots, commands, m);
    if m < n {
        lemma_draws_prefix(slots, commands, m, n - 1);
        let y = draws_upto(slots, commands, n - 1);
        let z = draws_upto(slots, commands, n);
        assert forall|k: int| 0 <= k < x.len() implies z[k] == x[k] by {
            assert(x[k] == y.subrange(0, x.len() as int)[k]);
        }
        assert(z.subrange(0, x.len() as int) =~= x);
    } else {
        assert(x.subrange(0, x.len() as int) =~= x);
    }
}

/// A draw emitted for contour `c` of command `i` lands in the frame's draws
/// right after the draws emitted before it.
proof fn lemma_draw_in_frame(slots: Seq<CachedContour>, commands: Seq<RecordedCommand>, i: int, c: int)
    requires
        0 <= i < commands.len(),
        commands[i].start <= c < commands[i].end,
        c < slots.len(),
        slots[c].range.count >= 3,
    ensures
        ({
            let cmd = commands[i];
            let pre = draws_upto(slots, commands, i) + span_draws(
                slots,
                cmd.start as int,
                c,
                i as u32,
                op_even_odd(cmd.op),
                op_paint_kind(cmd.op) == 1,
                op_argb(cmd.op),
            );
            let all = draws_upto(slots, commands, commands.len() as int);
            &&& all.len() > pre.len()
            &&& all[pre.len() as int] == contour_draw(
                slots[c],
                i as u32,
                op_even_odd(cmd.op),
                op_paint_kind(cmd.op) == 1,
                op_argb(cmd.op),
            )
        }),
{
    let cmd = commands[i];
    let (eo, gr, argb) = (op_even_odd(cmd.op), op_paint_kind(cmd.op) == 1, op_argb(cmd.op));
    let head = draws_upto(slots, commands, i);
    let part = span_draws(slots, cmd.start as int, c, i as u32, eo, gr, argb);
    let part1 = span_draws(slots, cmd.start as int, c + 1, i as u32, eo, gr, argb);
    let whole = span_draws(slots, cmd.start as int, cmd.end as int, i as u32, eo, gr, argb);
    let d = contour_draw(slots[c], i as u32, eo, gr, argb);
    assert(part1 == part.push(d));
    lemma_span_prefix(slots, cmd.start as int, c + 1, cmd.end as int, i as u32, eo, gr, argb);
    lemma_draws_prefix(slots, commands, i + 1, commands.len() as int);
    let next = draws_upto(slots, commands, i + 1);
    let all = draws_upto(slots, commands, commands.len() as int);
    assert(next == head + whole);
    let p: int = (head.len() + part.len()) as int;
    assert(whole[part.len() as int] == d) by {
        assert(part1[part.len() as int] == d);
        assert(part1[part.len() as int] == whole.subrange(0, part1.len() as int)[part.len() as int]);
    }
    assert(next[p] == d);
    assert(next[p] == all.subrange(0, next.len() as int)[p]);
}

impl GeometryCache {
    /// Appends a paint record per command, the command's gradient table
    /// (shared with identical earlier tables), and one draw per contour of
    /// at least three points, with its indirect triangle and fan commands.
    pub(crate) fn build_draws(
        &self,
        commands: &Vec<RecordedCommand>,
        paint_bounds: &Vec<[u32; 4]>,
        prepared: &mut PreparedGeometry,
    ) -> (res: Result<(), Error>)
        requires
            paint_bounds@.len() == commands@.len(),
            old(prepared).paints@.len() == 0,
            old(prepared).gradient_luts@.len() == 0,
            old(prepared).draw_data@.len() == 0,
            old(prepared).indirect@.len() == 0,
            old(prepared).fan_indirect@.len() == 0,
        ensures
            res is Ok <==> draws_fit(self.slots(), commands@),
            res is Err ==> res == Err::<(), Error>(Error::FrameTooLarge),
            res is Ok ==> draws_built(self.slots(), commands@, paint_bounds@, *final(prepared)),
            res is Ok ==> final(prepared).dirty@ == old(prepared).dirty@,
            res is Ok ==> final(prepared).stats == with_draw_counts(
                old(prepared).stats,
                draws_upto(self.slots(), commands@, commands@.len() as int),
            ),
    {
        let slots = self.contours();
        let ghost s = self.slots();
        let ghost cmds = commands@;
        let ghost stats0 = prepared.stats;
        let ghost dirty0 = prepared.dirty@;
        let mut lut_index: HashMap<u64, Vec<u32>> = HashMap::new();
        let n = commands.len();
        proof {
            assert(concat_tables(Seq::<Seq<u32>>::empty()) =~= prepared.gradient_luts@);
            assert forall|h: u64| #[trigger] crate::lut::candidates_for(lut_index@, h)
                == crate::lut::offsets_with_hash(Seq::<Seq<u32>>::empty(), h) by {}
            assert(draws_upto(s, cmds, 0) =~= prepared.draw_data@);
            assert(triangle_commands(prepared.draw_data@) =~= prepared.indirect@);
            assert(fan_commands(prepared.draw_data@) =~= prepared.fan_indirect@);
        }
        let mut i: usize = 0;
        while i < n
            invariant
                0 <= i <= n,
                n == cmds.len(),
                cmds == commands@,
                s == self.slots(),
                slots@ == s,
                paint_bounds@.len() == n,
                i <= u32::MAX + 1,
                prepared.paints@.len() == i,
                forall|k: int| 0 <= k < i ==> #[trigger] prepared.paints@[k] == prepared_paint(
                    cmds[k],
                    lut_offset_at(cmds, k),
                    paint_bounds@[k],
                ),
                payload_holds(prepared.gradient_luts@, lut_index@, luts_upto(cmds, i as int)),
                prepared.draw_data@ == draws_upto(s, cmds, i as int),
                prepared.indirect@ == triangle_commands(prepared.draw_data@),
                prepared.fan_indirect@ == fan_commands(prepared.draw_data@),
                prepared.dirty@ == dirty0,
                prepared.stats == (CacheStats {
                    gradient_draws: count_draws(prepared.draw_data@, true, stats0.gradient_draws),
                    solid_draws: count_draws(prepared.draw_data@, false, stats0.solid_draws),
                    ..stats0
                }),
                forall|k: int| 0 <= k < i ==> #[trigger] command_fits(cmds[k]),
                forall|k: int| 0 <= k < i ==> #[trigger] gradient_fits(cmds, k),
                prepared.draw_data@.len() <= u32::MAX + 1,
                forall|j: int| 0 <= j < prepared.draw_data@.len() ==> ((#[trigger] prepared.draw_data@[j]).point_count
                    - 2) * 3 <= u32::MAX,
            decreases n - i,
        {
            if i > 0xffff_ffffusize {
                return Err(Error::FrameTooLarge);
            }
            let command = &commands[i];
            let ghost d = luts_upto(cmds, i as int);
            let ghost d1 = luts_upto(cmds, i as int + 1);
            let lut_offset: u32 = match &command.op {
                RecordedOp::Gradient(g) => {
                    proof {
                        lemma_concat_tables(d);
                    }
                    if prepared.gradient_luts.len() > usize::MAX - LUT_WORDS {
                        proof {
                            assert(!gradient_fits(cmds, i as int));
                        }
                        return Err(Error::FrameTooLarge);
                    }
                    let ghost w0 = prepared.gradient_luts@;
                    let ghost o0 = lut_index@;
                    let r = intern_gradient_lut(&mut prepared.gradient_luts, &mut lut_index, &g.lut);
                    proof {
                        lemma_intern_distinct(w0, o0, d, g.lut@, r, prepared.gradient_luts@, lut_index@);
                    }
                    match r {
                        Ok(o) => {
                            proof {
                                let t = table_index(d1, g.lut@);
                                if d.contains(g.lut@) {
                                    assert(d1 == d);
                                } else {
                                    assert(d1 == d.push(g.lut@));
                                    assert(d1[d.len() as int] == g.lut@);
                                    assert(0 <= t < d1.len() && d1[t] == g.lut@);
                                    assert(t == d.len());
                                }
                                assert(gradient_fits(cmds, i as int));
                            }
                            o
                        },
                        Err(e) => {
                            proof {
                                assert(!gradient_fits(cmds, i as int));
                            }
                            return Err(e);
                        },
                    }
                },
                _ => {
                    proof {
                        assert(d1 == d);
                    }
                    0
                },
            };
            assert(lut_offset == lut_offset_at(cmds, i as int));
            let paint = match paint_header(command, lut_offset, paint_bounds[i]) {
                Ok(p) => p,
                Err(e) => {
                    proof {
                        assert(!command_fits(cmds[i as int]));
                    }
                    return Err(e);
                },
            };
            assert(command_fits(cmds[i as int]));
            prepared.paints.push(paint);
            let even_odd = paint.rule == 1;
            let gradient = paint.paint_kind == 1;
            let argb = paint.argb;
            let ghost head = prepared.draw_data@;
            let ghost paints1 = prepared.paints@;
            let ghost luts1 = prepared.gradient_luts@;
            let ghost index1 = lut_index@;
            let start = command.start;
            let end = command.end;
            let mut c = start;
            while c < end
                invariant
                    0 <= i < n,
                    i <= u32::MAX,
                    n == cmds.len(),
                    cmds == commands@,
                    slots@ == s,
                    s == self.slots(),
                    start == cmds[i as int].start,
                    end == cmds[i as int].end,
                    start <= c,
                    start <= end ==> c <= end,
                    start > end ==> c == start,
                    prepared.paints@ == paints1,
                    prepared.gradient_luts@ == luts1,
                    lut_index@ == index1,
                    prepared.dirty@ == dirty0,
                    even_odd == op_even_odd(cmds[i as int].op),
                    gradient == (op_paint_kind(cmds[i as int].op) == 1),
                    argb == op_argb(cmds[i as int].op),
                    head == draws_upto(s, cmds, i as int),
                    prepared.draw_data@ == head + span_draws(s, start as int, c as int, i as u32, even_odd, gradient, argb),
                    prepared.indirect@ == triangle_commands(prepared.draw_data@),
                    prepared.fan_indirect@ == fan_commands(prepared.draw_data@),
                    prepared.stats == (CacheStats {
                        gradient_draws: count_draws(prepared.draw_data@, true, stats0.gradient_draws),
                        solid_draws: count_draws(prepared.draw_data@, false, stats0.solid_draws),
                        ..stats0
                    }),
                    prepared.draw_data@.len() <= u32::MAX + 1,
                    forall|j: int| 0 <= j < prepared.draw_data@.len() ==> ((#[trigger] prepared.draw_data@[j]).point_count
                        - 2) * 3 <= u32::MAX,
                decreases end - c,
            {
                let ghost before = prepared.draw_data@;
                if c < slots.len() {
                    let contour = slots[c];
                    if contour.range.count >= 3 {
                        proof {
                            lemma_draw_in_frame(s, cmds, i as int, c as int);
                        }
                        let len = prepared.draw_data.len();
                        let ghost all = draws_upto(s, cmds, cmds.len() as int);
                        if len > 0xffff_ffffusize {
                            proof {
                                assert(all.len() > u32::MAX + 1);
                            }
                            return Err(Error::FrameTooLarge);
                        }
                        let draw_index = len as u32;
                        let tri = contour.range.count - 2;
                        if tri > 0x5555_5555u32 {
                            proof {
                                assert(all[len as int].point_count == contour.range.count);
                                assert(!((all[len as int].point_count - 2) * 3 <= u32::MAX));
                            }
                            return Err(Error::FrameTooLarge);
                        }
                        let vertex_count = tri * 3;
                        let flags: u32 = (if contour.closed { 1u32 } else { 0u32 }) + (if even_odd { 2u32 } else { 0u32 })
                            + (if gradient { 4u32 } else { 0u32 });
                        if gradient {
                            prepared.stats.gradient_draws = prepared.stats.gradient_draws.saturating_add(1);
                        } else {
                            prepared.stats.solid_draws = prepared.stats.solid_draws.saturating_add(1);
                        }
                        let draw = ContourDrawData {
                            point_offset: contour.range.first,
                            point_count: contour.range.count,
                            vertex_count,
                            paint_index: i as u32,
                            flags,
                            argb,
                            transform: contour.transform,
                        };
                        prepared.draw_data.push(draw);
                        prepared.indirect.push(
                            DrawIndirect { vertex_count, instance_count: 1, first_vertex: 0, first_instance: draw_index },
                        );
                        prepared.fan_indirect.push(
                            DrawIndirect {
                                vertex_count: contour.range.count,
                                instance_count: 1,
                                first_vertex: 0,
                                first_instance: draw_index,
                            },
                        );
                        proof {
                            assert(draw == contour_draw(contour, i as u32, even_odd, gradient, argb));
                            assert(prepared.draw_data@.drop_last() =~= before);
                            assert(prepared.indirect@ =~= triangle_commands(prepared.draw_data@));
                            assert(prepared.fan_indirect@ =~= fan_commands(prepared.draw_data@));
                        }
                    }
                }
                proof {
                    let sp = span_draws(s, start as int, c as int + 1, i as u32, even_odd, gradient, argb);
                    assert(prepared.draw_data@ =~= head + sp);
                }
                c = c + 1;
            }
            proof {
                let cmd = cmds[i as int];
                if start > end {
                    assert(span_draws(s, start as int, c as int, i as u32, even_odd, gradient, argb).len() == 0);
                    assert(span_draws(s, start as int, end as int, i as u32, even_odd, gradient, argb).len() == 0);
                }
                assert(span_draws(s, start as int, c as int, i as u32, even_odd, gradient, argb)
                    == span_draws(s, start as int, end as int, i as u32, even_odd, gradient, argb));
                assert(prepared.draw_data@ == draws_upto(s, cmds, i as int + 1));
                assert forall|k: int| 0 <= k < i + 1 implies #[trigger] prepared.paints@[k] == prepared_paint(
                    cmds[k],
                    lut_offset_at(cmds, k),
                    paint_bounds@[k],
                ) by {}
            }
            i = i + 1;
        }
        proof {
            assert(draws_fit(s, cmds));
        }
        Ok(())
    }
}

/// Floating-point facts about a frame, computed beside it: per contour, its
/// bounds and how its points compare with the resident points of its slot;
/// per command, the bounds of the command's contours.
pub struct FrameEvidence {
    /// One entry per frame contour.
    pub contours: Vec<ContourEvidence>,
    /// One entry per frame command, as single-precision bit patterns.
    pub paint_bounds: Vec<[u32; 4]>,
}

/// Points in the upload runs, summed with saturation from the first run on.
pub open spec fn dirty_total(dirty: Seq<DirtyRange>) -> u32
    decreases dirty.len(),
{
    if dirty.len() == 0 {
        0
    } else {
        sat_add(dirty_total(dirty.drop_last()), dirty.last().point_count)
    }
}

/// `p` is what preparing `frame` produced, the cache going from `before`
/// to `after`: one slot per contour, as its action decides; the storage
/// grows only by contours that take new storage, each placed by first fit
/// among the points free at its turn (or at the end); the upload runs,
/// paints, draws and statistics that follow from the slots.
pub open spec fn frame_prepared(
    before: GeometryCache,
    after: GeometryCache,
    frame: EvaluatedFrame,
    evidence: FrameEvidence,
    p: PreparedGeometry,
) -> bool {
    let s0 = before.slots();
    let s1 = after.slots();
    let contours = frame.contours@;
    let ev = evidence.contours@;
    let n = contours.len() as int;
    let commands = frame.commands@;
    let draws = draws_upto(s1, commands, commands.len() as int);
    let counted = stats_upto(zero_stats(), s0, contours, ev, n);
    &&& s1.len() == n
    &&& before.storage().stored().len() <= after.storage().stored().len() <= before.storage().stored().len()
        + new_points_upto(s0, contours, ev, n)
    &&& placed_first_fit(before.storage(), s0, s1, contours, ev, n)
    &&& forall|i: int| 0 <= i < n ==> #[trigger] slot_prepared(s1[i], s0, contours, ev, i)
    &&& forall|i: int| 0 <= i < n ==> #[trigger] slot_contents_ok(
        after.storage().stored(),
        before.storage().stored(),
        s1[i],
        action_at(s0, contours, ev, i),
        contours[i].points@,
    )
    &&& p.dirty@ == dirty_upto(s1, s0, contours, ev, n)
    &&& draws_built(s1, commands, evidence.paint_bounds@, p)
    &&& p.stats == CacheStats {
        dirty_points: dirty_total(p.dirty@),
        dirty_ranges: p.dirty@.len() as u32,
        arena_points: after.storage().stored().len() as u32,
        draws: draws.len() as u32,
        ..with_draw_counts(counted, draws)
    }
}

impl GeometryCache {
    /// Stores the frame's contours in their slots, reusing resident points
    /// where the evidence allows, drops the slots past the frame's last
    /// contour, and builds the frame's paints and draws.
    #[verifier::spinoff_prover]
    #[verifier::rlimit(100)]
    pub fn prepare(&mut self, frame: &EvaluatedFrame, evidence: &FrameEvidence) -> (res: Result<PreparedGeometry, Error>)
        requires
            old(self).wf(),
            evidence.contours@.len() == frame.contours@.len(),
            evidence.paint_bounds@.len() == frame.commands@.len(),
        ensures
            final(self).wf(),
            res is Err ==> res == Err::<PreparedGeometry, Error>(Error::FrameTooLarge),
            res matches Ok(p) ==> frame_prepared(*old(self), *final(self), *frame, *evidence, p),
            old(self).storage().stored().len() + new_points_upto(
                old(self).slots(),
                frame.contours@,
                evidence.contours@,
                frame.contours@.len() as int,
            ) <= u32::MAX && points_upto(frame.contours@, frame.contours@.len() as int) <= u32::MAX ==> (res is Ok
                <==> frame_draws_fit(*frame)),
            !frame_draws_fit(*frame) ==> res is Err,
    {
        let ghost s0 = self.slots();
        let ghost stored0 = self.storage().stored();
        let ghost stored0_arena = self.storage();
        let ghost contours = frame.contours@;
        let ghost ev = evidence.contours@;
        let ghost commands = frame.commands@;
        let mut prepared = PreparedGeometry {
            dirty: Vec::new(),
            draw_data: Vec::new(),
            paints: Vec::new(),
            gradient_luts: Vec::new(),
            indirect: Vec::new(),
            fan_indirect: Vec::new(),
            stats: CacheStats::default(),
        };
        match self.store_contours(&frame.contours, &evidence.contours, &mut prepared.dirty, &mut prepared.stats) {
            Ok(()) => {},
            Err(e) => return Err(e),
        }
        let n = frame.contours.len();
        let ghost stored_slots = self.slots();
        let ghost stored_len = self.storage().stored().len();
        assert(stored0.len() <= stored_len <= stored0.len() + new_points_upto(s0, contours, ev, n as int));
        self.retire_slots(n);
        let ghost s1 = self.slots();
        assert(self.storage().stored().len() == stored_len);
        proof {
            assert forall|i: int| 0 <= i < n implies #[trigger] s1[i] == stored_slots[i] by {}
            lemma_placed_congruent(stored0_arena, s0, stored_slots, s1, contours, ev, n as int);
            lemma_dirty_upto_prefix(stored_slots, s1, s0, contours, ev, n as int);
            assert forall|i: int| 0 <= i < n implies #[trigger] slot_prepared(s1[i], s0, contours, ev, i) by {
                assert(s1[i] == stored_slots[i]);
            }
            lemma_dirty_upto_len(s1, s0, contours, ev, n as int);
            let shapes = contour_shapes(contours);
            assert forall|i: int| 0 <= i < s1.len() implies #[trigger] s1[i].range.count == shapes[i].range.count by {
                assert(slot_prepared(s1[i], s0, contours, ev, i));
            }
            lemma_draws_fit_counts(s1, shapes, commands);
        }
        let ghost dirty1 = prepared.dirty@;
        let ghost counted = prepared.stats;
        match self.build_draws(&frame.commands, &evidence.paint_bounds, &mut prepared) {
            Ok(()) => {},
            Err(e) => return Err(e),
        }
        let ghost draws = draws_upto(s1, commands, commands.len() as int);
        let mut total: u32 = 0;
        let mut k: usize = 0;
        while k < prepared.dirty.len()
            invariant
                0 <= k <= prepared.dirty@.len(),
                total == dirty_total(prepared.dirty@.subrange(0, k as int)),
            decreases prepared.dirty@.len() - k,
        {
            proof {
                assert(prepared.dirty@.subrange(0, k as int + 1).drop_last() =~= prepared.dirty@.subrange(0, k as int));
            }
            total = total.saturating_add(prepared.dirty[k].point_count);
            k = k + 1;
        }
        proof {
            assert(prepared.dirty@.subrange(0, prepared.dirty@.len() as int) =~= prepared.dirty@);
        }
        if prepared.dirty.len() > 0xffff_ffffusize {
            return Err(Error::FrameTooLarge);
        }
        if prepared.indirect.len() > 0xffff_ffffusize {
            return Err(Error::FrameTooLarge);
        }
        let arena_points = self.arena().len() as u32;
        prepared.stats.dirty_points = total;
        prepared.stats.dirty_ranges = prepared.dirty.len() as u32;
        prepared.stats.arena_points = arena_points;
        prepared.stats.draws = prepared.indirect.len() as u32;
        Ok(prepared)
    }
}

proof fn lemma_no_writes_no_dirty(
    new_slots: Seq<CachedContour>,
    slots: Seq<CachedContour>,
    contours: Seq<crate::frame::RecordedContour>,
    evidence: Seq<ContourEvidence>,
    n: int,
)
    requires
        forall|i: int| 0 <= i < n ==> #[trigger] action_at(slots, contours, evidence, i) == ContourAction::Reuse,
    ensures
        dirty_upto(new_slots, slots, contours, evidence, n).len() == 0,
        n >= 0 ==> stats_upto(zero_stats(), slots, contours, evidence, n) == (CacheStats {
            reused_contours: if n > u32::MAX { u32::MAX } else { n as u32 },
            ..zero_stats()
        }),
    decreases n,
{
    if n > 0 {
        assert(action_at(slots, contours, evidence, n - 1) == ContourAction::Reuse);
        lemma_no_writes_no_dirty(new_slots, slots, contours, evidence, n - 1);
    }
}

/// Preparing a frame again, with evidence that every contour still matches
/// its resident points, reuses every contour in place: nothing is uploaded,
/// nothing is rewritten or reallocated, and every slot keeps its storage and
/// its points.
pub proof fn law_unchanged_frame_uploads_nothing(
    c0: GeometryCache,
    c1: GeometryCache,
    c2: GeometryCache,
    frame: EvaluatedFrame,
    ev1: FrameEvidence,
    ev2: FrameEvidence,
    p1: PreparedGeometry,
    p2: PreparedGeometry,
)
    requires
        frame_prepared(c0, c1, frame, ev1, p1),
        frame_prepared(c1, c2, frame, ev2, p2),
        ev2.contours@.len() == frame.contours@.len(),
        forall|i: int| 0 <= i < ev2.contours@.len() ==> (#[trigger] ev2.contours@[i]).matches_cached,
    ensures
        p2.dirty@.len() == 0,
        p2.stats.dirty_points == 0,
        p2.stats.dirty_ranges == 0,
        p2.stats.updated_contours == 0,
        p2.stats.allocated_contours == 0,
        p2.stats.reused_contours == if frame.contours@.len() > u32::MAX {
            u32::MAX
        } else {
            frame.contours@.len() as u32
        },
        forall|i: int| 0 <= i < frame.contours@.len() ==> (#[trigger] c2.slots()[i]).range == c1.slots()[i].range,
        forall|i: int, p: int|
            0 <= i < frame.contours@.len() && #[trigger] c2.slots()[i].range.contains(p) ==> c2.storage().stored()[p]
                == c1.storage().stored()[p],
{
    let contours = frame.contours@;
    let n = contours.len() as int;
    let (s0, s1, s2) = (c0.slots(), c1.slots(), c2.slots());
    assert forall|i: int| 0 <= i < n implies #[trigger] action_at(s1, contours, ev2.contours@, i)
        == ContourAction::Reuse by {
        assert(slot_prepared(s1[i], s0, contours, ev1.contours@, i));
        assert(ev2.contours@[i].matches_cached);
    }
    lemma_no_writes_no_dirty(s2, s1, contours, ev2.contours@, n);
    assert forall|i: int| 0 <= i < n implies (#[trigger] s2[i]).range == s1[i].range by {
        assert(slot_prepared(s2[i], s1, contours, ev2.contours@, i));
        assert(action_at(s1, contours, ev2.contours@, i) == ContourAction::Reuse);
    }
    assert forall|i: int, p: int| 0 <= i < n && #[trigger] s2[i].range.contains(p) implies c2.storage().stored()[p]
        == c1.storage().stored()[p] by {
        assert(slot_contents_ok(
            c2.storage().stored(),
            c1.storage().stored(),
            s2[i],
            action_at(s1, contours, ev2.contours@, i),
            contours[i].points@,
        ));
        assert(action_at(s1, contours, ev2.contours@, i) == ContourAction::Reuse);
    }
}

/// A contour whose point count is unchanged keeps the storage of its slot,
/// whatever else in the frame changed: only contours whose point count
/// changed (or that are new) move.
pub proof fn law_same_count_keeps_storage(
    c0: GeometryCache,
    c1: GeometryCache,
    frame: EvaluatedFrame,
    ev: FrameEvidence,
    p: PreparedGeometry,
    i: int,
)
    requires
        frame_prepared(c0, c1, frame, ev, p),
        0 <= i < frame.contours@.len(),
        i < c0.slots().len(),
        frame.contours@[i].points@.len() == c0.slots()[i].range.count,
    ensures
        c1.slots()[i].range == c0.slots()[i].range,
{
    assert(slot_prepared(c1.slots()[i], c0.slots(), frame.contours@, ev.contours@, i));
}

/// After a frame is prepared its slots mirror the frame: one slot per
/// contour, holding the contour's point count, closedness, geometry key and
/// bounds; a contour whose points were written has exactly those points
/// resident, under the identity transform.
pub proof fn law_slots_mirror_frame(
    c0: GeometryCache,
    c1: GeometryCache,
    frame: EvaluatedFrame,
    ev: FrameEvidence,
    p: PreparedGeometry,
)
    requires
        frame_prepared(c0, c1, frame, ev, p),
    ensures
        c1.slots().len() == frame.contours@.len(),
        forall|i: int|
            0 <= i < frame.contours@.len() ==> {
                let slot = #[trigger] c1.slots()[i];
                let contour = frame.contours@[i];
                &&& slot.range.count == contour.points@.len()
                &&& slot.closed == contour.closed
                &&& slot.key == frame_key(contour)
                &&& slot.bounds == ev.contours@[i].bounds
            },
        forall|i: int|
            0 <= i < frame.contours@.len() && (#[trigger] action_at(c0.slots(), frame.contours@, ev.contours@, i)).writes()
                ==> c1.slots()[i].transform == identity_transform() && c1.storage().stored().subrange(
                c1.slots()[i].range.first as int,
                c1.slots()[i].range.end(),
            ) == frame.contours@[i].points@,
{
    let contours = frame.contours@;
    assert forall|i: int| 0 <= i < contours.len() implies {
        let slot = #[trigger] c1.slots()[i];
        let contour = contours[i];
        &&& slot.range.count == contour.points@.len()
        &&& slot.closed == contour.closed
        &&& slot.key == frame_key(contour)
        &&& slot.bounds == ev.contours@[i].bounds
    } by {
        assert(slot_prepared(c1.slots()[i], c0.slots(), contours, ev.contours@, i));
    }
    assert forall|i: int|
        0 <= i < contours.len() && (#[trigger] action_at(c0.slots(), contours, ev.contours@, i)).writes() implies c1.slots()[i].transform
        == identity_transform() && c1.storage().stored().subrange(c1.slots()[i].range.first as int, c1.slots()[i].range.end())
        == contours[i].points@ by {
        assert(slot_prepared(c1.slots()[i], c0.slots(), contours, ev.contours@, i));
        assert(slot_contents_ok(
            c1.storage().stored(),
            c0.storage().stored(),
            c1.slots()[i],
            action_at(c0.slots(), contours, ev.contours@, i),
            contours[i].points@,
        ));
    }
}

/// A prepared frame holds one paint record per command, telling the shader
/// how to fill: a solid fill is paint kind 0 with its color; a gradient fill
/// is paint kind 1 with gradient kind 0 (linear), 1 (radial) or 2 (focal),
/// its inverse transform, and its geometry parameters in the order the
/// shader reads them; the fill rule is 1 for even-odd and 0 for nonzero.
pub proof fn law_paint_records_follow_commands(
    c0: GeometryCache,
    c1: GeometryCache,
    frame: EvaluatedFrame,
    ev: FrameEvidence,
    p: PreparedGeometry,
)
    requires
        frame_prepared(c0, c1, frame, ev, p),
    ensures
        p.paints@.len() == frame.commands@.len(),
        forall|i: int|
            0 <= i < frame.commands@.len() ==> {
                let r = #[trigger] p.paints@[i];
                let c = frame.commands@[i];
                &&& r.contour_start == c.start as u32
                &&& (c.end >= c.start ==> r.contour_count == (c.end - c.start) as u32)
                &&& match c.op {
                    RecordedOp::Solid(solid) => {
                        &&& r.paint_kind == 0
                        &&& r.gradient_kind == 0
                        &&& r.argb == solid.rgba
                        &&& r.rule == (if solid.rule == Rule::EvenOdd { 1u32 } else { 0u32 })
                    },
                    RecordedOp::Gradient(g) => {
                        let t = g.transform;
                        &&& r.paint_kind == 1
                        &&& r.rule == (if g.rule == Rule::EvenOdd { 1u32 } else { 0u32 })
                        &&& r.inverse0 == [t.a, t.b, t.c, t.d]
                        &&& r.inverse1 == [t.tx, t.ty, 0u32, 0u32]
                        &&& match g.kind {
                            GradientKind::Linear { sx, sy, dx, dy, inv_len_sq } => {
                                &&& r.gradient_kind == 0
                                &&& r.params0 == [sx, sy, dx, dy]
                                &&& r.params1 == [inv_len_sq, 0u32, 0u32, 0u32]
                            },
                            GradientKind::Radial { sx, sy, inv_r } => {
                                &&& r.gradient_kind == 1
                                &&& r.params0 == [sx, sy, inv_r, 0u32]
                                &&& r.params1 == [0u32, 0u32, 0u32, 0u32]
                            },
                            GradientKind::Focal { fx, fy, dx, dy, a, r: radius } => {
                                &&& r.gradient_kind == 2
                                &&& r.params0 == [fx, fy, dx, dy]
                                &&& r.params1 == [a, radius, 0u32, 0u32]
                            },
                        }
                    },
                    _ => r.gradient_kind == 0,
                }
            },
{
    assert forall|i: int| 0 <= i < frame.commands@.len() implies #[trigger] p.paints@[i] == prepared_paint(
        frame.commands@[i],
        lut_offset_at(frame.commands@, i),
        ev.paint_bounds@[i],
    ) by {}
}

} // verus!
