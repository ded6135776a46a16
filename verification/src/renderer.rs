//! State of the Vulkan backend that outlives a frame, and the decisions it
//! takes for each frame: recording, geometry reuse, the rasterization path,
//! scene placement, uploads and cached framebuffers.

use vstd::prelude::*;
use crate::compute::{
    build_compute_scene, contour_words, edges_upto, edges_valid, paint_words, rows_total, scene_fits, scene_lengths,
    scene_push,
};
use crate::draws::{frame_draws_fit, frame_prepared, FrameEvidence};
use crate::error::Error;
use crate::frame::{ended_layer, Composite, EvaluatedFrame, FrameRecorder, Paint, RecordedCommand, RecordedContour, RecordedOp};
use crate::geometry::{new_points_upto, point_words, points_upto, GeometryCache, PreparedGeometry, PreparedPaint};
use crate::layout::SceneLayout;
use crate::scene::ComputeScene;
use crate::stats::{zero_stats, CacheStats};
use crate::triangles::{
    record_triangle_upload_stats, repeats_paint, triangle_paint_ok, triangle_upload_stats, triangle_uploads,
    uploads_fit, uploads_for, TriangleUploads,
};
use crate::upload::{
    all_simple, simple_paints, compute_planned, holds_scene, plan_compute, plan_fits, same_upload, ComputePlan, RetainedBins, TargetFormat,
    UploadedScene,
};

verus! {

/// GPU rasterization path used to record frames.
#[derive(Clone, Copy, Debug, PartialEq, Eq, Structural)]
pub enum RendererMode {
    /// Portable per-pixel compute ownership with exact fill-rule ordering.
    Compute,
    /// Direct triangle decomposition for profiling simple convex content.
    Triangles,
    /// Hardware stencil winding followed by one paint cover draw.
    StencilCover,
}

impl Default for RendererMode {
    fn default() -> (m: Self)
        ensures
            m == RendererMode::Compute,
    {
        RendererMode::Compute
    }
}

/// How a frame is rasterized.
#[derive(Clone, Copy, Debug, PartialEq, Eq, Structural)]
pub enum RenderPath {
    /// The compute rasterizer, writing only coverage when `alpha_only`.
    Compute { alpha_only: bool },
    /// Triangle fans.
    Triangles,
    /// Stencil winding and cover draws.
    StencilCover,
}

/// Depth of isolated groups after the first `n` paints on the stencil path,
/// or `None` once a paint rules the path out: fills are always drawn; with
/// raster-order groups one group level may open and close.
pub open spec fn stencil_depth(paints: Seq<PreparedPaint>, raster_order_groups: bool, n: int) -> Option<int>
    decreases n,
{
    if n <= 0 {
        Some(0)
    } else {
        match stencil_depth(paints, raster_order_groups, n - 1) {
            None => None,
            Some(d) => {
                let k = paints[n - 1].paint_kind;
                if k == 0 || k == 1 {
                    Some(d)
                } else if k == 2 && raster_order_groups && d == 0 {
                    Some(1)
                } else if k == 3 && raster_order_groups && d == 1 {
                    Some(0)
                } else {
                    None
                }
            },
        }
    }
}

/// The paints can be drawn by the stencil path.
pub open spec fn stencil_ok(paints: Seq<PreparedPaint>, raster_order_groups: bool) -> bool {
    stencil_depth(paints, raster_order_groups, paints.len() as int) == Some(0int)
}

/// Whether the triangle and stencil paths can draw these paints.
pub fn stencil_compatible(paints: &Vec<PreparedPaint>, raster_order_groups: bool) -> (r: bool)
    ensures
        r == stencil_ok(paints@, raster_order_groups),
{
    let mut depth: u32 = 0;
    let mut i: usize = 0;
    while i < paints.len()
        invariant
            0 <= i <= paints@.len(),
            depth <= 1,
            stencil_depth(paints@, raster_order_groups, i as int) == Some(depth as int),
        decreases paints@.len() - i,
    {
        let k = paints[i].paint_kind;
        if k == 0 || k == 1 {
        } else if k == 2 && raster_order_groups && depth == 0 {
            depth = 1;
        } else if k == 3 && raster_order_groups && depth == 1 {
            depth = 0;
        } else {
            proof {
                lemma_stencil_depth_stays_none(paints@, raster_order_groups, i as int + 1, paints@.len() as int);
            }
            return false;
        }
        i = i + 1;
    }
    depth == 0
}

proof fn lemma_stencil_depth_stays_none(paints: Seq<PreparedPaint>, raster_order_groups: bool, m: int, n: int)
    requires
        0 < m <= n,
        stencil_depth(paints, raster_order_groups, m) is None,
    ensures
        stencil_depth(paints, raster_order_groups, n) is None,
    decreases n - m,
{
    if m < n {
        lemma_stencil_depth_stays_none(paints, raster_order_groups, m, n - 1);
    }
}

/// The path a frame takes: coverage-only frames and the compute mode use
/// the compute rasterizer; the triangle and stencil modes fall back to it
/// when the paints are not stencil compatible.
pub open spec fn path_for(alpha_only: bool, mode: RendererMode, compatible: bool) -> RenderPath {
    if alpha_only {
        RenderPath::Compute { alpha_only: true }
    } else {
        match mode {
            RendererMode::Compute => RenderPath::Compute { alpha_only: false },
            RendererMode::Triangles => if compatible {
                RenderPath::Triangles
            } else {
                RenderPath::Compute { alpha_only: false }
            },
            RendererMode::StencilCover => if compatible {
                RenderPath::StencilCover
            } else {
                RenderPath::Compute { alpha_only: false }
            },
        }
    }
}

/// Identity of a cached framebuffer: the images it binds and its size.
#[derive(Clone, Copy, Debug, PartialEq, Eq, Structural)]
pub struct FramebufferKey {
    /// Image the frame resolves into.
    pub resolve: u64,
    /// Multisampled color attachment (0 with raster-order groups).
    pub multisample: u64,
    /// Stencil attachment.
    pub stencil: u64,
    /// Group accumulator (0 when absent).
    pub group: u64,
    /// Width in pixels.
    pub width: u32,
    /// Height in pixels.
    pub height: u32,
}

/// The key of the framebuffer for a target's images; fails with `BadTarget`
/// when an attachment the path needs is missing: the multisampled color
/// image without raster-order groups, the stencil image always, and the
/// group image with raster-order groups.
pub fn framebuffer_key(
    raster_order_groups: bool,
    image: u64,
    multisample: Option<u64>,
    stencil: Option<u64>,
    group: Option<u64>,
    width: u32,
    height: u32,
) -> (res: Result<FramebufferKey, Error>)
    ensures
        res is Ok <==> (raster_order_groups || multisample is Some) && stencil is Some && (!raster_order_groups || (
        group is Some && group->0 != 0)),
        res is Err ==> res == Err::<FramebufferKey, Error>(Error::BadTarget),
        res matches Ok(k) ==> k == (FramebufferKey {
            resolve: image,
            multisample: if raster_order_groups { 0 } else { multisample->0 },
            stencil: stencil->0,
            group: match group {
                Some(g) => g,
                None => 0,
            },
            width,
            height,
        }),
{
    let ms = if raster_order_groups {
        0
    } else {
        match multisample {
            Some(m) => m,
            None => return Err(Error::BadTarget),
        }
    };
    let st = match stencil {
        Some(s) => s,
        None => return Err(Error::BadTarget),
    };
    let gr = match group {
        Some(g) => g,
        None => 0,
    };
    if raster_order_groups && gr == 0 {
        return Err(Error::BadTarget);
    }
    Ok(FramebufferKey { resolve: image, multisample: ms, stencil: st, group: gr, width, height })
}

/// State of the Vulkan backend kept between frames.
pub struct VulkanRenderer {
    recorder: FrameRecorder,
    geometry: GeometryCache,
    cache_stats: CacheStats,
    raster_order_groups: bool,
    multi_draw_indirect: bool,
    mode: RendererMode,
    scene_layout: SceneLayout,
    uploaded_scene: UploadedScene,
    retained_bins: RetainedBins,
    framebuffers: Vec<FramebufferKey>,
}

impl VulkanRenderer {
    /// The renderer's invariant.
    pub closed spec fn wf(&self) -> bool {
        self.recorder.wf() && self.geometry.wf()
    }

    /// Statistics of the most recent frame.
    pub closed spec fn stats(&self) -> CacheStats {
        self.cache_stats
    }

    /// The selected rasterization mode.
    pub closed spec fn current_mode(&self) -> RendererMode {
        self.mode
    }

    /// Whether raster-order groups are enabled.
    pub closed spec fn groups_enabled(&self) -> bool {
        self.raster_order_groups
    }

    /// Whether multi-draw indirect submission is enabled.
    pub closed spec fn indirect_enabled(&self) -> bool {
        self.multi_draw_indirect
    }

    /// The frame recorded so far.
    pub closed spec fn recorded(&self) -> EvaluatedFrame {
        self.recorder.frame
    }

    /// The open layers of the frame being recorded.
    pub closed spec fn open_layers(&self) -> Seq<usize> {
        self.recorder.saves@
    }

    /// The retained geometry.
    pub closed spec fn cache(&self) -> GeometryCache {
        self.geometry
    }

    /// The retained placement of the scene sections.
    pub closed spec fn layout(&self) -> SceneLayout {
        self.scene_layout
    }

    /// Keys of the cached framebuffers, oldest first.
    pub closed spec fn framebuffer_keys(&self) -> Seq<FramebufferKey> {
        self.framebuffers@
    }

    /// The most recent scene upload.
    pub closed spec fn upload(&self) -> UploadedScene {
        self.uploaded_scene
    }

    /// The bins the most recent bin passes left.
    pub closed spec fn bins(&self) -> RetainedBins {
        self.retained_bins
    }

    /// A renderer with nothing recorded or retained, in compute mode.
    pub fn new(raster_order_groups: bool) -> (r: Self)
        ensures
            r.wf(),
            r.stats() == zero_stats(),
            r.current_mode() == RendererMode::Compute,
            r.groups_enabled() == raster_order_groups,
            !r.indirect_enabled(),
            r.recorded().contours@.len() == 0,
            r.recorded().commands@.len() == 0,
            r.cache().slots().len() == 0,
            r.framebuffer_keys().len() == 0,
    {
        VulkanRenderer {
            recorder: FrameRecorder::new(),
            geometry: GeometryCache::new(),
            cache_stats: CacheStats::default(),
            raster_order_groups,
            multi_draw_indirect: false,
            mode: RendererMode::default(),
            scene_layout: SceneLayout::default(),
            uploaded_scene: UploadedScene::new(),
            retained_bins: RetainedBins::new(),
            framebuffers: Vec::new(),
        }
    }

    /// Geometry reuse statistics of the most recent frame.
    pub fn cache_stats(&self) -> (s: CacheStats)
        ensures
            s == self.stats(),
    {
        self.cache_stats
    }

    /// Selects the rasterization path for subsequent frames.
    pub fn set_mode(&mut self, mode: RendererMode)
        ensures
            final(self).current_mode() == mode,
            final(self).wf() == old(self).wf(),
            final(self).stats() == old(self).stats(),
            final(self).groups_enabled() == old(self).groups_enabled(),
            final(self).indirect_enabled() == old(self).indirect_enabled(),
            final(self).cache() == old(self).cache(),
    {
        self.mode = mode;
    }

    /// Enables multi-draw indirect submission of stencil contours.
    pub fn set_multi_draw_indirect(&mut self, enabled: bool)
        ensures
            final(self).indirect_enabled() == enabled,
            final(self).wf() == old(self).wf(),
            final(self).stats() == old(self).stats(),
            final(self).current_mode() == old(self).current_mode(),
            final(self).groups_enabled() == old(self).groups_enabled(),
            final(self).cache() == old(self).cache(),
    {
        self.multi_draw_indirect = enabled;
    }

    /// Whether raster-order groups are enabled.
    pub fn raster_order_groups(&self) -> (b: bool)
        ensures
            b == self.groups_enabled(),
    {
        self.raster_order_groups
    }

    /// The retained geometry.
    pub fn geometry(&self) -> (g: &GeometryCache)
        ensures
            *g == self.cache(),
    {
        &self.geometry
    }

    /// The frame recorded so far.
    pub fn frame(&self) -> (f: &EvaluatedFrame)
        ensures
            *f == self.recorded(),
    {
        &self.recorder.frame
    }

    /// Starts recording a new frame.
    pub fn begin_frame(&mut self)
        requires
            old(self).wf(),
        ensures
            final(self).wf(),
            final(self).recorded().contours@.len() == 0,
            final(self).recorded().commands@.len() == 0,
            final(self).open_layers().len() == 0,
            final(self).cache() == old(self).cache(),
            final(self).stats() == old(self).stats(),
    {
        self.recorder.reset();
    }

    /// Opens an isolated layer in the frame being recorded.
    pub fn save_layer(&mut self)
        requires
            old(self).wf(),
        ensures
            final(self).wf(),
            final(self).recorded().contours@ == old(self).recorded().contours@,
            final(self).recorded().commands@ == old(self).recorded().commands@.push(
                RecordedCommand {
                    op: RecordedOp::BeginLayer,
                    start: old(self).recorded().contours@.len() as usize,
                    end: old(self).recorded().contours@.len() as usize,
                },
            ),
            final(self).open_layers() == old(self).open_layers().push(old(self).recorded().commands@.len() as usize),
            final(self).cache() == old(self).cache(),
    {
        self.recorder.save_layer();
    }

    /// Records a fill of `contours` with `paint`.
    pub fn draw(&mut self, contours: Vec<RecordedContour>, paint: Paint)
        requires
            old(self).wf(),
        ensures
            final(self).wf(),
            final(self).recorded().contours@ == old(self).recorded().contours@ + contours@,
            final(self).open_layers() == old(self).open_layers(),
            final(self).recorded().commands@ == old(self).recorded().commands@.push(
                RecordedCommand {
                    op: match paint {
                        Paint::Solid(s) => RecordedOp::Solid(s),
                        Paint::Gradient(g) => RecordedOp::Gradient(g),
                    },
                    start: old(self).recorded().contours@.len() as usize,
                    end: (old(self).recorded().contours@.len() + contours@.len()) as usize,
                },
            ),
            final(self).cache() == old(self).cache(),
    {
        self.recorder.draw(contours, paint);
    }

    /// Records a mask applied with `contours`.
    pub fn apply_mask(&mut self, contours: Vec<RecordedContour>, mode: u8, inverted: bool, opacity: u8, first: bool, last: bool)
        requires
            old(self).wf(),
        ensures
            final(self).wf(),
            final(self).recorded().contours@ == old(self).recorded().contours@ + contours@,
            final(self).open_layers() == old(self).open_layers(),
            final(self).recorded().commands@ == old(self).recorded().commands@.push(
                RecordedCommand {
                    op: RecordedOp::Mask { mode, inverted, opacity, first, last },
                    start: old(self).recorded().contours@.len() as usize,
                    end: (old(self).recorded().contours@.len() + contours@.len()) as usize,
                },
            ),
            final(self).cache() == old(self).cache(),
    {
        self.recorder.apply_mask(contours, mode, inverted, opacity, first, last);
    }

    /// Closes the innermost layer (two layers for a matte).
    pub fn end_layer(&mut self, composite: Composite)
        requires
            old(self).wf(),
        ensures
            final(self).wf(),
            final(self).recorded().contours@ == old(self).recorded().contours@,
            ended_layer(
                old(self).recorded().commands@,
                old(self).open_layers(),
                old(self).recorded().contours@.len() as usize,
                composite,
                final(self).recorded().commands@,
                final(self).open_layers(),
            ),
            final(self).cache() == old(self).cache(),
    {
        self.recorder.end_layer(composite);
    }

    /// Prepares the recorded frame against the retained geometry and makes
    /// its statistics the renderer's.
    pub fn prepare_frame(&mut self, evidence: &FrameEvidence) -> (res: Result<PreparedGeometry, Error>)
        requires
            old(self).wf(),
            evidence.contours@.len() == old(self).recorded().contours@.len(),
            evidence.paint_bounds@.len() == old(self).recorded().commands@.len(),
        ensures
            final(self).wf(),
            final(self).recorded() == old(self).recorded(),
            res is Err ==> res == Err::<PreparedGeometry, Error>(Error::FrameTooLarge),
            res is Err ==> final(self).stats() == old(self).stats(),
            res matches Ok(p) ==> frame_prepared(old(self).cache(), final(self).cache(), old(self).recorded(), *evidence, p)
                && final(self).stats() == p.stats,
            old(self).cache().storage().stored().len() + new_points_upto(
                old(self).cache().slots(),
                old(self).recorded().contours@,
                evidence.contours@,
                old(self).recorded().contours@.len() as int,
            ) <= u32::MAX && points_upto(old(self).recorded().contours@, old(self).recorded().contours@.len() as int)
                <= u32::MAX ==> (res is Ok <==> frame_draws_fit(old(self).recorded())),
            !frame_draws_fit(old(self).recorded()) ==> res is Err,
    {
        let prepared = match self.geometry.prepare(&self.recorder.frame, evidence) {
            Ok(p) => p,
            Err(e) => return Err(e),
        };
        self.cache_stats = prepared.stats;
        Ok(prepared)
    }

    /// Chooses how to rasterize a prepared frame; choosing the stencil path
    /// is recorded in the statistics.
    pub fn choose_path(&mut self, prepared: &PreparedGeometry, alpha_only: bool) -> (path: RenderPath)
        ensures
            path == path_for(alpha_only, old(self).current_mode(), stencil_ok(prepared.paints@, old(self).groups_enabled())),
            final(self).stats() == if path == RenderPath::StencilCover {
                CacheStats { stencil_cover: true, ..old(self).stats() }
            } else {
                old(self).stats()
            },
            final(self).wf() == old(self).wf(),
            final(self).cache() == old(self).cache(),
            final(self).recorded() == old(self).recorded(),
            final(self).current_mode() == old(self).current_mode(),
            final(self).groups_enabled() == old(self).groups_enabled(),
            final(self).indirect_enabled() == old(self).indirect_enabled(),
            final(self).layout() == old(self).layout(),
    {
        if alpha_only {
            return RenderPath::Compute { alpha_only: true };
        }
        let compatible = stencil_compatible(&prepared.paints, self.raster_order_groups);
        match self.mode {
            RendererMode::Compute => RenderPath::Compute { alpha_only: false },
            RendererMode::Triangles => if compatible {
                RenderPath::Triangles
            } else {
                RenderPath::Compute { alpha_only: false }
            },
            RendererMode::StencilCover => if compatible {
                self.cache_stats.stencil_cover = true;
                RenderPath::StencilCover
            } else {
                RenderPath::Compute { alpha_only: false }
            },
        }
    }

    /// Packs the compute scene of a prepared frame over the retained points
    /// and slots, placing it with the retained layout.
    pub fn build_scene(
        &mut self,
        width: u32,
        height: u32,
        prepared: &PreparedGeometry,
        antialias: bool,
        alpha_only: bool,
        edge_rows: &Vec<u32>,
    ) -> (res: Result<ComputeScene, Error>)
        requires
            edges_valid(prepared.paints@, old(self).cache().slots(), old(self).cache().storage().stored().len() as int)
                ==> edge_rows@.len() == edges_upto(
                prepared.paints@,
                old(self).cache().slots(),
                prepared.paints@.len() as int,
            ).len(),
        ensures
            ({
                let points = old(self).cache().storage().stored();
                let slots = old(self).cache().slots();
                let fits = scene_fits(width, height, points.len() as int, slots, prepared.paints@, edge_rows@);
                &&& !fits ==> res == Err::<ComputeScene, Error>(Error::FrameTooLarge) && final(self).layout()
                    == old(self).layout()
                &&& fits ==> SceneLayout::ensured(
                    old(self).layout(),
                    (width * height) as u32,
                    scene_lengths(
                        width,
                        height,
                        points.len() as int,
                        slots.len() as int,
                        prepared.paints@.len() as int,
                        prepared.gradient_luts@.len() as int,
                        rows_total(edge_rows@),
                    ),
                    res is Ok,
                    final(self).layout(),
                )
                &&& res matches Ok(scene) ==> {
                    &&& scene.sections@[0]@ == point_words(points)
                    &&& scene.sections@[1]@ == contour_words(slots)
                    &&& scene.sections@[2]@ == paint_words(prepared.paints@)
                    &&& scene.sections@[3]@ == prepared.gradient_luts@
                    &&& forall|k: int| 4 <= k < 8 ==> (#[trigger] scene.sections@[k])@.len() == 0
                    &&& scene.push == scene_push(
                        width,
                        height,
                        points.len() as int,
                        prepared.paints@.len() as u32,
                        scene.layout,
                        antialias,
                        alpha_only,
                    )
                }
            }),
            res is Err ==> res == Err::<ComputeScene, Error>(Error::FrameTooLarge),
            res matches Ok(scene) ==> scene.layout == final(self).layout(),
            final(self).wf() == old(self).wf(),
            final(self).cache() == old(self).cache(),
            final(self).stats() == old(self).stats(),
            final(self).recorded() == old(self).recorded(),
    {
        let points = self.geometry.arena().points();
        let slots = self.geometry.contours();
        build_compute_scene(width, height, points, slots, prepared, antialias, alpha_only, edge_rows, &mut self.scene_layout)
    }

    /// Plans the uploads, bin reuse and dispatches of a compute frame into
    /// the buffer `buffer` of `buffer_bytes` bytes, and records their
    /// statistics.
    pub fn plan_compute_frame(
        &mut self,
        scene: &ComputeScene,
        format: TargetFormat,
        prepared: &PreparedGeometry,
        buffer: u64,
        buffer_bytes: u64,
    ) -> (res: Result<ComputePlan, Error>)
        ensures
            format == TargetFormat::Other <==> res == Err::<ComputePlan, Error>(Error::BadTarget),
            res is Err && format != TargetFormat::Other ==> res == Err::<ComputePlan, Error>(Error::FrameTooLarge),
            format != TargetFormat::Other && 4 * scene.layout.total_words > buffer_bytes ==> res is Err,
            format != TargetFormat::Other && plan_fits(*scene, buffer_bytes) ==> res is Ok,
            format != TargetFormat::Other ==> (res is Ok <==> plan_fits(*scene, buffer_bytes)),
            res is Err ==> final(self).bins() == old(self).bins(),
            format == TargetFormat::Other ==> final(self).stats() == old(self).stats(),
            res is Err && format != TargetFormat::Other ==> final(self).stats() == (CacheStats {
                simple_compute: simple_paints(prepared.paints@),
                ..old(self).stats()
            }),
            res is Err ==> same_upload(final(self).upload(), old(self).upload()) || holds_scene(
                final(self).upload(),
                buffer,
                *scene,
            ),
            res matches Ok(plan) ==> {
                &&& compute_planned(
                    *scene,
                    format,
                    prepared.paints@,
                    buffer,
                    old(self).upload(),
                    old(self).bins(),
                    plan,
                    final(self).upload(),
                    final(self).bins(),
                )
                &&& final(self).stats() == (CacheStats {
                    simple_compute: plan.simple_compute,
                    reused_bins: plan.reuse_bins,
                    scene_upload_bytes: plan.upload_bytes,
                    scene_upload_ranges: plan.upload_ranges,
                    geometry_upload_bytes: plan.domain_bytes@[0],
                    paint_upload_bytes: plan.domain_bytes@[1],
                    bin_upload_bytes: plan.domain_bytes@[2],
                    ..old(self).stats()
                })
            },
            final(self).wf() == old(self).wf(),
            final(self).cache() == old(self).cache(),
            final(self).recorded() == old(self).recorded(),
    {
        match format {
            TargetFormat::Other => {},
            _ => {
                self.cache_stats.simple_compute = all_simple(&prepared.paints);
            },
        }
        let plan = match plan_compute(
            scene,
            format,
            &prepared.paints,
            buffer,
            buffer_bytes,
            &mut self.uploaded_scene,
            &mut self.retained_bins,
        ) {
            Ok(p) => p,
            Err(e) => return Err(e),
        };
        self.cache_stats.simple_compute = plan.simple_compute;
        self.cache_stats.reused_bins = plan.reuse_bins;
        self.cache_stats.scene_upload_bytes = plan.upload_bytes;
        self.cache_stats.scene_upload_ranges = plan.upload_ranges;
        self.cache_stats.geometry_upload_bytes = plan.domain_bytes[0];
        self.cache_stats.paint_upload_bytes = plan.domain_bytes[1];
        self.cache_stats.bin_upload_bytes = plan.domain_bytes[2];
        Ok(plan)
    }

    /// Lays out the uploads of a triangle frame, records their statistics,
    /// and checks that they fit the `buffer_bytes` bytes of the scratch
    /// buffer.
    pub fn plan_triangle_uploads(&mut self, prepared: &PreparedGeometry, buffer_bytes: u64) -> (res: Result<
        TriangleUploads,
        Error,
    >)
        ensures
            res is Err ==> res == Err::<TriangleUploads, Error>(Error::BadTarget) || res == Err::<TriangleUploads, Error>(
                Error::FrameTooLarge,
            ),
            (exists|i: int|
                0 <= i < prepared.paints@.len() && !triangle_paint_ok(#[trigger] prepared.paints@[i], old(self).groups_enabled()))
                <==> res == Err::<TriangleUploads, Error>(Error::BadTarget),
            res == Err::<TriangleUploads, Error>(Error::BadTarget) ==> final(self).stats() == old(self).stats(),
            (forall|i: int|
                0 <= i < prepared.paints@.len() ==> triangle_paint_ok(#[trigger] prepared.paints@[i], old(self).groups_enabled()))
                ==> ({
                let use_indirect = old(self).indirect_enabled() && repeats_paint(prepared.draw_data@);
                let points_len = old(self).cache().storage().stored().len() as int;
                let luts_len = prepared.gradient_luts@.len() as int;
                let draws_len = prepared.draw_data@.len() as int;
                let fan_len = prepared.fan_indirect@.len() as int;
                let fits = uploads_fit(use_indirect, points_len, luts_len, draws_len, fan_len);
                let u = uploads_for(use_indirect, points_len, luts_len, draws_len, fan_len);
                &&& res is Ok <==> fits && u.upload_bytes <= buffer_bytes
                &&& res matches Ok(r) ==> r == u
                &&& fits ==> final(self).stats() == triangle_upload_stats(old(self).stats(), u)
                &&& !fits ==> final(self).stats() == old(self).stats()
            }),
            res matches Ok(u) ==> u.upload_bytes <= buffer_bytes && final(self).stats() == triangle_upload_stats(
                old(self).stats(),
                u,
            ),
            final(self).wf() == old(self).wf(),
            final(self).cache() == old(self).cache(),
            final(self).recorded() == old(self).recorded(),
    {
        let u = match triangle_uploads(
            &prepared.paints,
            &prepared.draw_data,
            prepared.fan_indirect.len(),
            prepared.gradient_luts.len(),
            self.geometry.arena().len(),
            self.multi_draw_indirect,
            self.raster_order_groups,
        ) {
            Ok(u) => u,
            Err(e) => return Err(e),
        };
        record_triangle_upload_stats(&mut self.cache_stats, &u);
        if u.upload_bytes as u64 > buffer_bytes {
            return Err(Error::FrameTooLarge);
        }
        Ok(u)
    }

    /// Index of the cached framebuffer with this key, if any.
    pub fn find_framebuffer(&self, key: FramebufferKey) -> (res: Option<usize>)
        ensures
            res matches Some(i) ==> i < self.framebuffer_keys().len() && self.framebuffer_keys()[i as int] == key
                && forall|j: int| 0 <= j < i ==> #[trigger] self.framebuffer_keys()[j] != key,
            res is None ==> forall|j: int| 0 <= j < self.framebuffer_keys().len() ==> #[trigger] self.framebuffer_keys()[j]
                != key,
    {
        let mut i: usize = 0;
        while i < self.framebuffers.len()
            invariant
                0 <= i <= self.framebuffers@.len(),
                forall|j: int| 0 <= j < i ==> #[trigger] self.framebuffers@[j] != key,
            decreases self.framebuffers@.len() - i,
        {
            if self.framebuffers[i] == key {
                return Some(i);
            }
            i = i + 1;
        }
        None
    }

    /// Caches a framebuffer created for `key`; its index is the old count.
    pub fn remember_framebuffer(&mut self, key: FramebufferKey)
        ensures
            final(self).framebuffer_keys() == old(self).framebuffer_keys().push(key),
            final(self).wf() == old(self).wf(),
            final(self).cache() == old(self).cache(),
            final(self).stats() == old(self).stats(),
    {
        self.framebuffers.push(key);
    }

    /// Forgets every cached framebuffer, returning their keys oldest first.
    pub fn take_framebuffers(&mut self) -> (keys: Vec<FramebufferKey>)
        ensures
            keys@ == old(self).framebuffer_keys(),
            final(self).framebuffer_keys().len() == 0,
            final(self).wf() == old(self).wf(),
            final(self).cache() == old(self).cache(),
            final(self).stats() == old(self).stats(),
    {
        let mut keys: Vec<FramebufferKey> = Vec::new();
        std::mem::swap(&mut keys, &mut self.framebuffers);
        keys
    }
}

} // verus!
