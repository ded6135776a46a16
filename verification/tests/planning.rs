use std::collections::HashMap;
use tlottie::arena::{Point, PointArena, PointRange};
use tlottie::commands::{
    check_same_extent, clear_bytes, clear_source, copy_barriers, fill_rows, final_transition, rect_draw, Access, FillSpan,
    ImageLayout, Rect, Stage,
};
use tlottie::compute::{build_compute_scene, scene_edges, SceneEdge};
use tlottie::draws::FrameEvidence;
use tlottie::error::Error;
use tlottie::frame::{Composite, FrameRecorder, Paint, RecordedContour, RecordedOp, Rule, SolidPaint};
use tlottie::geometry::{geometry_key, push_dirty, ContourEvidence, DirtyRange, PreparedPaint};
use tlottie::host::{
    find_memory_type, image_memory_type, pick_queue, pixels_le_bytes, readback_bytes, scratch_bytes, target_bytes,
    ReadbackError, MEMORY_DEVICE_LOCAL, MEMORY_HOST_COHERENT, MEMORY_HOST_VISIBLE, MEMORY_LAZILY_ALLOCATED,
};
use tlottie::layout::{scene_section_capacity, SceneLayout};
use tlottie::lut::intern_gradient_lut;
use tlottie::renderer::{framebuffer_key, stencil_compatible, FramebufferKey, RenderPath, RendererMode, VulkanRenderer};
use tlottie::scene::scene_section_domain;
use tlottie::stats::CacheStats;
use tlottie::triangles::{triangle_steps, triangle_uploads, IndirectRun, TriangleStep};
use tlottie::upload::{plan_compute, upload_chunks, RetainedBins, TargetFormat, UploadedScene};

fn square(x: f32, y: f32, size: f32) -> RecordedContour {
    let corners = [(x, y), (x + size, y), (x + size, y + size), (x, y + size)];
    RecordedContour { points: corners.iter().map(|&(a, b)| Point { x: a.to_bits(), y: b.to_bits() }).collect(), closed: true }
}

fn new_evidence(contours: usize, commands: usize) -> FrameEvidence {
    FrameEvidence {
        contours: (0..contours)
            .map(|_| ContourEvidence { bounds: [0; 4], matches_cached: false, translation: None, affine: None })
            .collect(),
        paint_bounds: vec![[0; 4]; commands],
    }
}

fn paint(kind: u32, start: u32, count: u32) -> PreparedPaint {
    PreparedPaint {
        contour_start: start,
        contour_count: count,
        rule: 0,
        argb: 0xff00_00ff,
        paint_kind: kind,
        gradient_kind: 0,
        lut_word_offset: 0,
        inverse0: [0; 4],
        inverse1: [0; 4],
        params0: [0; 4],
        params1: [0; 4],
        bounds: [0; 4],
    }
}

#[test]
fn arena_reuses_released_points_first_fit() {
    let mut arena = PointArena::new();
    let a = arena.allocate(4).unwrap();
    let b = arena.allocate(3).unwrap();
    assert_eq!(a, PointRange { first: 0, count: 4 });
    assert_eq!(b, PointRange { first: 4, count: 3 });
    arena.release(a);
    let c = arena.allocate(2).unwrap();
    assert_eq!(c, PointRange { first: 0, count: 2 });
    let d = arena.allocate(5).unwrap();
    assert_eq!(d, PointRange { first: 7, count: 5 });
    assert_eq!(arena.len(), 12);
    let written = vec![Point { x: 1, y: 2 }, Point { x: 3, y: 4 }];
    arena.write(c, &written).unwrap();
    assert_eq!(&arena.points()[0..2], written.as_slice());
    assert_eq!(arena.write(PointRange { first: 11, count: 2 }, &written), Err(Error::FrameTooLarge));
    assert_eq!(arena.allocate(0).unwrap(), PointRange { first: 0, count: 0 });
}

#[test]
fn arena_release_then_allocate_restores_the_range() {
    let mut arena = PointArena::new();
    let a = arena.allocate(6).unwrap();
    arena.release(a);
    assert_eq!(arena.allocate(6).unwrap(), a);
    assert_eq!(arena.len(), 6);
}

#[test]
fn dirty_ranges_coalesce_when_adjacent() {
    let mut dirty = Vec::new();
    push_dirty(&mut dirty, PointRange { first: 4, count: 4 });
    push_dirty(&mut dirty, PointRange { first: 8, count: 2 });
    push_dirty(&mut dirty, PointRange { first: 20, count: 0 });
    push_dirty(&mut dirty, PointRange { first: 11, count: 1 });
    assert_eq!(dirty, vec![DirtyRange { first_point: 4, point_count: 6 }, DirtyRange { first_point: 11, point_count: 1 }]);
}

#[test]
fn interning_a_table_twice_keeps_one_copy() {
    let mut words = Vec::new();
    let mut index = HashMap::new();
    let a = [7u32; 1024];
    let mut b = [7u32; 1024];
    b[1023] = 8;
    assert_eq!(intern_gradient_lut(&mut words, &mut index, &a), Ok(0));
    assert_eq!(intern_gradient_lut(&mut words, &mut index, &b), Ok(1024));
    assert_eq!(intern_gradient_lut(&mut words, &mut index, &a), Ok(0));
    assert_eq!(intern_gradient_lut(&mut words, &mut index, &b), Ok(1024));
    assert_eq!(words.len(), 2048);
}

#[test]
fn geometry_key_distinguishes_closedness() {
    let open = RecordedContour { closed: false, ..square(0.0, 0.0, 1.0) };
    let closed = square(0.0, 0.0, 1.0);
    assert_ne!(geometry_key(&open), geometry_key(&closed));
    assert_eq!(geometry_key(&closed), geometry_key(&square(0.0, 0.0, 1.0)));
}

#[test]
fn recorder_marks_matte_source_and_target() {
    let mut recorder = FrameRecorder::new();
    recorder.save_layer();
    recorder.draw(vec![square(0.0, 0.0, 2.0)], Paint::Solid(SolidPaint { rule: Rule::NonZero, rgba: 1 }));
    recorder.save_layer();
    recorder.draw(vec![square(1.0, 1.0, 2.0)], Paint::Solid(SolidPaint { rule: Rule::EvenOdd, rgba: 2 }));
    recorder.end_layer(Composite::Matte { kind: 1, opacity: 255, source_opacity: 128 });
    let ops: Vec<_> = recorder.frame.commands.iter().map(|c| c.op.clone()).collect();
    assert!(matches!(ops[0], RecordedOp::BeginMatte));
    assert!(matches!(ops[2], RecordedOp::BeginMatteTarget));
    assert!(matches!(ops[4], RecordedOp::EndMatte { kind: 1, opacity: 255, source_opacity: 128 }));
    assert_eq!(recorder.frame.commands[3].start, 1);
    assert_eq!(recorder.frame.commands[3].end, 2);
    assert!(recorder.saves.is_empty());
    recorder.reset();
    assert!(recorder.frame.commands.is_empty() && recorder.frame.contours.is_empty());
}

#[test]
fn recorder_layer_round_trip() {
    let mut recorder = FrameRecorder::new();
    recorder.save_layer();
    recorder.end_layer(Composite::Over { opacity: 77 });
    assert!(matches!(recorder.frame.commands[0].op, RecordedOp::BeginLayer));
    assert!(matches!(recorder.frame.commands[1].op, RecordedOp::EndLayer { opacity: 77 }));
    assert!(recorder.saves.is_empty());
}

#[test]
fn stencil_path_needs_balanced_groups() {
    let fills = vec![paint(0, 0, 0), paint(1, 0, 0)];
    assert!(stencil_compatible(&fills, false));
    let grouped = vec![paint(2, 0, 0), paint(0, 0, 0), paint(3, 0, 0)];
    assert!(!stencil_compatible(&grouped, false));
    assert!(stencil_compatible(&grouped, true));
    assert!(!stencil_compatible(&vec![paint(2, 0, 0)], true));
    assert!(!stencil_compatible(&vec![paint(2, 0, 0), paint(2, 0, 0), paint(3, 0, 0), paint(3, 0, 0)], true));
    assert!(!stencil_compatible(&vec![paint(7, 0, 0)], true));
}

#[test]
fn renderer_chooses_path_by_mode_and_paints() {
    let mut renderer = VulkanRenderer::new(false);
    assert_eq!(renderer.cache_stats(), CacheStats::default());
    renderer.begin_frame();
    renderer.draw(vec![square(0.0, 0.0, 4.0)], Paint::Solid(SolidPaint { rule: Rule::NonZero, rgba: 0xff00_00ff }));
    let prepared = renderer.prepare_frame(&new_evidence(1, 1)).unwrap();
    assert_eq!(renderer.cache_stats().allocated_contours, 1);
    assert_eq!(renderer.choose_path(&prepared, false), RenderPath::Compute { alpha_only: false });
    renderer.set_mode(RendererMode::StencilCover);
    assert_eq!(renderer.choose_path(&prepared, true), RenderPath::Compute { alpha_only: true });
    assert!(!renderer.cache_stats().stencil_cover);
    assert_eq!(renderer.choose_path(&prepared, false), RenderPath::StencilCover);
    assert!(renderer.cache_stats().stencil_cover);
    renderer.set_mode(RendererMode::Triangles);
    assert_eq!(renderer.choose_path(&prepared, false), RenderPath::Triangles);
    assert_eq!(RendererMode::default(), RendererMode::Compute);
}

#[test]
fn renderer_falls_back_to_compute_for_layers_without_groups() {
    let mut renderer = VulkanRenderer::new(false);
    renderer.set_mode(RendererMode::Triangles);
    renderer.save_layer();
    renderer.end_layer(Composite::Over { opacity: 255 });
    let prepared = renderer.prepare_frame(&new_evidence(0, 2)).unwrap();
    assert_eq!(renderer.choose_path(&prepared, false), RenderPath::Compute { alpha_only: false });
}

#[test]
fn framebuffers_are_cached_by_key() {
    let key = framebuffer_key(false, 1, Some(2), Some(3), None, 64, 32).unwrap();
    assert_eq!(key, FramebufferKey { resolve: 1, multisample: 2, stencil: 3, group: 0, width: 64, height: 32 });
    assert_eq!(framebuffer_key(false, 1, None, Some(3), None, 64, 32), Err(Error::BadTarget));
    assert_eq!(framebuffer_key(false, 1, Some(2), None, None, 64, 32), Err(Error::BadTarget));
    assert_eq!(framebuffer_key(true, 1, None, Some(3), None, 64, 32), Err(Error::BadTarget));
    let grouped = framebuffer_key(true, 1, Some(2), Some(3), Some(4), 64, 32).unwrap();
    assert_eq!(grouped.multisample, 0);
    let mut renderer = VulkanRenderer::new(true);
    assert_eq!(renderer.find_framebuffer(grouped), None);
    renderer.remember_framebuffer(key);
    renderer.remember_framebuffer(grouped);
    assert_eq!(renderer.find_framebuffer(grouped), Some(1));
    assert_eq!(renderer.take_framebuffers(), vec![key, grouped]);
    assert_eq!(renderer.find_framebuffer(key), None);
}

fn scene_for_plan() -> (tlottie::scene::ComputeScene, Vec<PreparedPaint>) {
    let mut renderer = VulkanRenderer::new(false);
    renderer.draw(vec![square(0.0, 0.0, 4.0)], Paint::Solid(SolidPaint { rule: Rule::NonZero, rgba: 0xff00_00ff }));
    let prepared = renderer.prepare_frame(&new_evidence(1, 1)).unwrap();
    let edges = scene_edges(renderer.geometry().arena().len(), renderer.geometry().contours(), &prepared.paints).unwrap();
    let rows = vec![1u32; edges.len()];
    let scene = renderer.build_scene(16, 16, &prepared, true, false, &rows).unwrap();
    (scene, prepared.paints)
}

#[test]
fn the_same_scene_uploads_once_per_buffer() {
    let (scene, paints) = scene_for_plan();
    let mut uploaded = UploadedScene::new();
    let mut bins = RetainedBins::new();
    let first = plan_compute(&scene, TargetFormat::Bgra8, &paints, 7, 1 << 20, &mut uploaded, &mut bins).unwrap();
    assert!(first.upload_bytes > 0);
    assert!(!first.reuse_bins);
    assert!(first.simple_compute);
    assert_eq!(first.push.compact_flags & 4, 0);
    let second = plan_compute(&scene, TargetFormat::Rgba8, &paints, 7, 1 << 20, &mut uploaded, &mut bins).unwrap();
    assert_eq!(second.upload_bytes, 0);
    assert_eq!(second.upload_ranges, 0);
    assert_eq!(second.domain_bytes, [0, 0, 0]);
    assert!(second.reuse_bins);
    assert_eq!(second.push.compact_flags & 4, 4);
    let moved = plan_compute(&scene, TargetFormat::Bgra8, &paints, 8, 1 << 20, &mut uploaded, &mut bins).unwrap();
    assert_eq!(moved.upload_bytes, first.upload_bytes);
    assert!(!moved.reuse_bins);
}

#[test]
fn compute_plan_rejects_bad_formats_and_small_buffers() {
    let (scene, paints) = scene_for_plan();
    let mut uploaded = UploadedScene::new();
    let mut bins = RetainedBins::new();
    assert!(matches!(plan_compute(&scene, TargetFormat::Other, &paints, 7, 1 << 20, &mut uploaded, &mut bins), Err(Error::BadTarget)));
    assert!(matches!(plan_compute(&scene, TargetFormat::Bgra8, &paints, 7, 16, &mut uploaded, &mut bins), Err(Error::FrameTooLarge)));
}

#[test]
fn compute_plan_sizes_dispatches() {
    let (scene, paints) = scene_for_plan();
    let mut uploaded = UploadedScene::new();
    let mut bins = RetainedBins::new();
    let plan = plan_compute(&scene, TargetFormat::Bgra8, &paints, 1, 1 << 20, &mut uploaded, &mut bins).unwrap();
    assert_eq!((plan.dispatch_x, plan.dispatch_y), (2, 2));
    assert_eq!(plan.bin_groups, [1, 2, 1, 1, 1]);
    assert_eq!(plan.output_bytes, 16 * 16 * 4);
}

#[test]
fn scene_edges_walk_each_closed_contour() {
    let slots = vec![tlottie::geometry::CachedContour {
        key: tlottie::geometry::GeometryKey { a: 0, b: 0 },
        range: PointRange { first: 2, count: 3 },
        closed: true,
        transform: [0; 6],
        bounds: [0; 4],
    }];
    let edges = scene_edges(5, &slots, &vec![paint(0, 0, 1)]).unwrap();
    assert_eq!(
        edges,
        vec![SceneEdge { contour: 0, a: 2, b: 3 }, SceneEdge { contour: 0, a: 3, b: 4 }, SceneEdge { contour: 0, a: 4, b: 2 }]
    );
    assert_eq!(scene_edges(4, &slots, &vec![paint(0, 0, 1)]), Err(Error::FrameTooLarge));
    assert_eq!(scene_edges(5, &slots, &vec![paint(0, 0, 2)]), Err(Error::FrameTooLarge));
}

#[test]
fn compute_scene_rejects_oversized_targets() {
    let mut layout = SceneLayout::default();
    let prepared = tlottie::geometry::PreparedGeometry {
        dirty: Vec::new(),
        draw_data: Vec::new(),
        paints: Vec::new(),
        gradient_luts: Vec::new(),
        indirect: Vec::new(),
        fan_indirect: Vec::new(),
        stats: CacheStats::default(),
    };
    let result = build_compute_scene(0x1_0000, 0x1_0000, &Vec::new(), &Vec::new(), &prepared, false, true, &Vec::new(), &mut layout);
    assert!(matches!(result, Err(Error::FrameTooLarge)));
    assert_eq!(layout, SceneLayout::default());
    let scene = build_compute_scene(8, 8, &Vec::new(), &Vec::new(), &prepared, false, true, &Vec::new(), &mut layout).unwrap();
    assert_eq!(scene.push.compact_flags, 1 | 2 | 4 | 8);
    assert_eq!(scene.layout.output_words, 64);
}

#[test]
fn upload_chunks_split_large_payloads() {
    let chunks = upload_chunks(8, 70_000).unwrap();
    assert_eq!(chunks.len(), 2);
    assert_eq!((chunks[0].offset, chunks[0].start, chunks[0].end), (8, 0, 65_536));
    assert_eq!((chunks[1].offset, chunks[1].start, chunks[1].end), (65_544, 65_536, 70_000));
    assert!(upload_chunks(8, 0).unwrap().is_empty());
    assert_eq!(upload_chunks(u64::MAX, 70_000), Err(Error::FrameTooLarge));
}

#[test]
fn triangle_path_batches_repeated_paints_indirectly() {
    let mut renderer = VulkanRenderer::new(false);
    renderer.set_multi_draw_indirect(true);
    renderer.draw(vec![square(0.0, 0.0, 2.0), square(4.0, 4.0, 2.0)], Paint::Solid(SolidPaint { rule: Rule::EvenOdd, rgba: 5 }));
    let prepared = renderer.prepare_frame(&new_evidence(2, 1)).unwrap();
    let uploads = renderer.plan_triangle_uploads(&prepared, 1 << 20).unwrap();
    assert!(uploads.use_indirect);
    assert_eq!(uploads.point_bytes, 64);
    assert_eq!(uploads.draw_offset, 64);
    assert_eq!(uploads.draw_bytes, 96);
    assert_eq!(uploads.indirect_offset, 160);
    assert_eq!(uploads.indirect_bytes, 32);
    assert_eq!(uploads.upload_bytes, 192);
    assert_eq!(renderer.cache_stats().scene_upload_ranges, 3);
    assert_eq!(renderer.cache_stats().geometry_upload_bytes, 192);
    let steps = triangle_steps(&prepared.paints, &prepared.draw_data, &uploads).unwrap();
    assert_eq!(steps.lut_word_base, 16);
    assert_eq!(steps.draw_word_base, 16);
    assert_eq!(
        steps.steps,
        vec![TriangleStep::Fill {
            paint: 0,
            even_odd: true,
            lut_word_offset: 16,
            draws_start: 0,
            draws_end: 2,
            indirect: Some(IndirectRun { byte_offset: 160, count: 2 }),
        }]
    );
    assert_eq!(renderer.plan_triangle_uploads(&prepared, 100), Err(Error::FrameTooLarge));
}

#[test]
fn triangle_path_rejects_mattes() {
    let paints = vec![paint(0, 0, 0), paint(4, 0, 0)];
    assert_eq!(triangle_uploads(&paints, &Vec::new(), 0, 0, 0, false, true), Err(Error::BadTarget));
    let groups = vec![paint(2, 0, 0), paint(3, 0, 0)];
    assert_eq!(triangle_uploads(&groups, &Vec::new(), 0, 0, 0, false, false), Err(Error::BadTarget));
    let uploads = triangle_uploads(&groups, &Vec::new(), 0, 0, 0, false, true).unwrap();
    let steps = triangle_steps(&groups, &Vec::new(), &uploads).unwrap();
    assert_eq!(steps.steps, vec![TriangleStep::BeginGroup, TriangleStep::EndGroup { argb: 0xff00_00ff }]);
}

#[test]
fn rectangle_fills_are_validated() {
    assert_eq!(clear_bytes(4, 2), Ok(32));
    assert_eq!(clear_bytes(0, 2), Err(Error::BadTarget));
    assert_eq!(clear_bytes(0x1_0000, 0x1_0000), Err(Error::BadTarget));
    let rows = fill_rows(4, 3, Rect { x: 1, y: 1, w: 2, h: 2 }).unwrap();
    assert_eq!(rows, vec![FillSpan { offset: 20, bytes: 8 }, FillSpan { offset: 36, bytes: 8 }]);
    assert_eq!(fill_rows(4, 3, Rect { x: 3, y: 0, w: 2, h: 1 }), Err(Error::BadTarget));
    assert_eq!(fill_rows(4, 3, Rect { x: u32::MAX, y: 0, w: 2, h: 1 }), Err(Error::BadTarget));
    assert!(fill_rows(4, 3, Rect { x: 0, y: 0, w: 0, h: 0 }).unwrap().is_empty());
    let draw = rect_draw(4, 3, Rect { x: 0, y: 2, w: 4, h: 1 }).unwrap();
    assert_eq!(draw.clear_bytes, 48);
    assert_eq!(draw.rows, vec![FillSpan { offset: 32, bytes: 16 }]);
    assert_eq!(check_same_extent(4, 3, 4, 3), Ok(()));
    assert_eq!(check_same_extent(4, 3, 3, 4), Err(Error::BadTarget));
}

#[test]
fn image_transitions_follow_layouts() {
    let b = copy_barriers(2, 2, ImageLayout::Undefined, ImageLayout::TransferSrc).unwrap();
    assert_eq!((b.src_access, b.src_stage, b.dst_access, b.dst_stage), (Access::Nothing, Stage::TopOfPipe, Access::TransferRead, Stage::Transfer));
    let p = copy_barriers(2, 2, ImageLayout::PresentSrc, ImageLayout::PresentSrc).unwrap();
    assert_eq!((p.src_access, p.src_stage, p.dst_access, p.dst_stage), (Access::MemoryRead, Stage::BottomOfPipe, Access::MemoryRead, Stage::BottomOfPipe));
    assert_eq!(copy_barriers(2, 2, ImageLayout::ColorAttachment, ImageLayout::TransferSrc), Err(Error::BadTarget));
    assert_eq!(copy_barriers(2, 2, ImageLayout::Undefined, ImageLayout::TransferDst), Err(Error::BadTarget));
    assert_eq!(copy_barriers(0, 2, ImageLayout::Undefined, ImageLayout::TransferSrc), Err(Error::BadTarget));
    assert_eq!(clear_source(ImageLayout::PresentSrc), Ok((Access::MemoryRead, Stage::BottomOfPipe)));
    assert_eq!(clear_source(ImageLayout::TransferDst), Err(Error::BadTarget));
    assert_eq!(final_transition(ImageLayout::ColorAttachment), Ok(None));
    assert_eq!(final_transition(ImageLayout::TransferSrc), Ok(Some((Stage::Transfer, Access::TransferRead))));
    assert_eq!(final_transition(ImageLayout::Undefined), Err(Error::BadTarget));
}

#[test]
fn host_picks_first_usable_queue_and_memory() {
    assert_eq!(pick_queue(&vec![vec![0x8], vec![0x4, 0x2, 0x1]]), Some((1, 1)));
    assert_eq!(pick_queue(&vec![vec![0x8]]), None);
    let types = vec![MEMORY_HOST_VISIBLE, MEMORY_DEVICE_LOCAL, MEMORY_DEVICE_LOCAL | MEMORY_LAZILY_ALLOCATED, MEMORY_HOST_VISIBLE | MEMORY_HOST_COHERENT];
    assert_eq!(find_memory_type(&types, 4, 0b1111, MEMORY_HOST_VISIBLE | MEMORY_HOST_COHERENT), Some(3));
    assert_eq!(find_memory_type(&types, 4, 0b0111, MEMORY_HOST_VISIBLE | MEMORY_HOST_COHERENT), None);
    assert_eq!(find_memory_type(&types, 3, 0b1111, MEMORY_HOST_VISIBLE | MEMORY_HOST_COHERENT), None);
    assert_eq!(image_memory_type(&types, 4, 0b1111, true), Some(2));
    assert_eq!(image_memory_type(&types, 4, 0b1011, true), Some(1));
    assert_eq!(image_memory_type(&types, 4, 0b1111, false), Some(1));
}

#[test]
fn host_buffer_sizes() {
    assert_eq!(target_bytes(512, 512), Some(1 << 20));
    assert_eq!(target_bytes(u32::MAX, u32::MAX), None);
    assert_eq!(scratch_bytes(1 << 20), 64 * 1024 * 1024);
    assert_eq!(scratch_bytes(1 << 25), 1 << 27);
    assert_eq!(scratch_bytes(u64::MAX), u64::MAX);
    assert_eq!(readback_bytes(4, 16), Ok(16));
    assert_eq!(readback_bytes(5, 16), Err(ReadbackError::TargetTooSmall));
    assert_eq!(readback_bytes(usize::MAX, u64::MAX), Err(ReadbackError::SizeOverflow));
    assert_eq!(pixels_le_bytes(&[0x0403_0201, 0xff00_0080]), vec![1, 2, 3, 4, 0x80, 0, 0, 0xff]);
}

#[test]
fn section_capacities_and_domains() {
    assert_eq!(scene_section_capacity(0), Ok(1));
    assert_eq!(scene_section_capacity(5), Ok(8));
    assert_eq!(scene_section_capacity(64), Ok(64));
    assert_eq!(scene_section_capacity(0x8000_0001), Err(Error::FrameTooLarge));
    assert_eq!((0..8).map(scene_section_domain).collect::<Vec<_>>(), vec![0, 0, 1, 1, 2, 2, 2, 2]);
}
