use tlottie::arena::Point;
use tlottie::compute::{build_compute_scene, scene_edges, SceneEdge, COMPUTE_TILE_SIZE};
use tlottie::draws::FrameEvidence;
use tlottie::error::Error;
use tlottie::frame::{
    EvaluatedFrame, GradientKind, GradientPaint, GradientTransform, RecordedCommand, RecordedContour, RecordedOp, Rule,
    SolidPaint,
};
use tlottie::geometry::{CachedContour, ContourEvidence, DirtyRange, GeometryCache, PreparedGeometry};
use tlottie::layout::{SceneLayout, CONTOUR_SECTION, EDGE_SECTION, LUT_SECTION, PAINT_SECTION, POINT_SECTION, SCENE_SECTION_COUNT, TILE_INDEX_SECTION, TILE_SECTION};
use tlottie::matte::matte_factor;
use tlottie::scene::{compute_bin_key, retained_bin_layout_matches, scene_dirty_ranges};
use tlottie::triangles::point_payload_bytes;

fn bits(v: f32) -> u32 {
    v.to_bits()
}

fn contour(points: &[(f32, f32)]) -> RecordedContour {
    RecordedContour { points: points.iter().map(|&(x, y)| Point { x: bits(x), y: bits(y) }).collect(), closed: true }
}

fn frame(contours: Vec<RecordedContour>, rule: Rule, argb: u32) -> EvaluatedFrame {
    let end = contours.len();
    EvaluatedFrame {
        contours,
        commands: vec![RecordedCommand { op: RecordedOp::Solid(SolidPaint { rule, rgba: argb }), start: 0, end }],
    }
}

fn transform_bits(t: [f32; 6]) -> [u32; 6] {
    t.map(f32::to_bits)
}

fn bounds_of(points: &[Point]) -> [u32; 4] {
    let mut b = [f32::MAX, f32::MAX, f32::MIN, f32::MIN];
    for p in points {
        let (x, y) = (f32::from_bits(p.x), f32::from_bits(p.y));
        b[0] = b[0].min(x);
        b[1] = b[1].min(y);
        b[2] = b[2].max(x);
        b[3] = b[3].max(y);
    }
    b.map(f32::to_bits)
}

/// Evidence of a frame whose contours are new or compared with resident
/// points in the way each test describes.
fn evidence(walked: &EvaluatedFrame, per_contour: &[(bool, Option<[f32; 6]>, Option<[f32; 6]>)]) -> FrameEvidence {
    let contours = walked
        .contours
        .iter()
        .enumerate()
        .map(|(i, c)| {
            let (matches_cached, translation, affine) = per_contour.get(i).copied().unwrap_or((false, None, None));
            ContourEvidence {
                bounds: bounds_of(&c.points),
                matches_cached,
                translation: translation.map(transform_bits),
                affine: affine.map(transform_bits),
            }
        })
        .collect();
    let paint_bounds = walked.commands.iter().map(|_| [0u32; 4]).collect();
    FrameEvidence { contours, paint_bounds }
}

fn fresh(walked: &EvaluatedFrame) -> FrameEvidence {
    evidence(walked, &[])
}

fn unchanged(walked: &EvaluatedFrame) -> FrameEvidence {
    let same: Vec<_> = walked.contours.iter().map(|_| (true, None, None)).collect();
    evidence(walked, &same)
}

fn apply(p: Point, t: [f32; 6]) -> (f32, f32) {
    let (x, y) = (f32::from_bits(p.x), f32::from_bits(p.y));
    if t[..4] == [1.0, 0.0, 0.0, 1.0] {
        return (x + t[4], y + t[5]);
    }
    (t[0] * x + t[2] * y + t[4], t[1] * x + t[3] * y + t[5])
}

/// Tile rows spanned by each scene edge, as the floating-point side of the
/// renderer computes them.
fn edge_rows(height: u32, points: &[Point], slots: &[CachedContour], edges: &[SceneEdge]) -> Vec<u32> {
    let tiles_y = height.saturating_add(COMPUTE_TILE_SIZE - 1) / COMPUTE_TILE_SIZE;
    edges
        .iter()
        .map(|edge| {
            let t = slots[edge.contour as usize].transform.map(f32::from_bits);
            let a_y = apply(points[edge.a as usize], t).1;
            let b_y = apply(points[edge.b as usize], t).1;
            let start = (a_y.min(b_y) / COMPUTE_TILE_SIZE as f32).floor().clamp(0.0, tiles_y as f32) as u32;
            let end = (a_y.max(b_y) / COMPUTE_TILE_SIZE as f32).ceil().clamp(0.0, tiles_y as f32) as u32;
            end.saturating_sub(start)
        })
        .collect()
}

fn scene_of(cache: &GeometryCache, prepared: &PreparedGeometry, width: u32, height: u32, layout: &mut SceneLayout) -> tlottie::scene::ComputeScene {
    let points = cache.arena().points();
    let edges = scene_edges(points.len(), cache.contours(), &prepared.paints).unwrap();
    let rows = edge_rows(height, points, cache.contours(), &edges);
    build_compute_scene(width, height, points, cache.contours(), prepared, true, false, &rows, layout).unwrap()
}

#[test]
fn geometry_cache_uploads_once_for_unchanged_contours() {
    let walked = frame(vec![contour(&[(1.0, 1.0), (3.0, 1.0), (3.0, 3.0), (1.0, 3.0)])], Rule::NonZero, 0xffff_0000);
    let mut cache = GeometryCache::new();

    let first = cache.prepare(&walked, &fresh(&walked)).unwrap();
    assert_eq!(first.stats.allocated_contours, 1);
    assert_eq!(first.stats.dirty_points, 4);
    assert_eq!(first.stats.dirty_ranges, 1);
    assert_eq!(first.stats.draws, 1);
    assert_eq!(first.indirect.first().map(|draw| draw.vertex_count), Some(6));
    assert_eq!(first.indirect.first().map(|draw| draw.first_instance), Some(0));

    let second = cache.prepare(&walked, &unchanged(&walked)).unwrap();
    assert_eq!(second.stats.reused_contours, 1);
    assert_eq!(second.stats.dirty_points, 0);
    assert!(second.dirty.is_empty());
}

#[test]
fn translation_only_animation_reuses_resident_points() {
    let original = [(1.0, 2.0), (5.0, 2.0), (5.0, 7.0), (1.0, 7.0)];
    let mut walked = frame(vec![contour(&original)], Rule::NonZero, 0xffff_0000);
    let mut cache = GeometryCache::new();
    cache.prepare(&walked, &fresh(&walked)).unwrap();

    for point in &mut walked.contours[0].points {
        point.x = bits(f32::from_bits(point.x) + 10.0);
        point.y = bits(f32::from_bits(point.y) - 3.0);
    }
    let shift = [1.0, 0.0, 0.0, 1.0, 10.0, -3.0];
    let translated = cache.prepare(&walked, &evidence(&walked, &[(false, Some(shift), None)])).unwrap();
    assert_eq!(translated.stats.reused_contours, 1);
    assert_eq!(translated.stats.translated_contours, 1);
    assert_eq!(translated.stats.translated_points, 4);
    assert_eq!(translated.stats.updated_contours, 0);
    assert_eq!(translated.stats.dirty_points, 0);
    assert_eq!(cache.contours()[0].transform, transform_bits(shift));
    assert_eq!(cache.contours()[0].bounds, [11.0f32, -1.0, 15.0, 4.0].map(f32::to_bits));
    assert_eq!(translated.draw_data[0].transform, transform_bits(shift));
    for (stored, &(x, y)) in cache.arena().points().iter().zip(&original) {
        assert_eq!([stored.x, stored.y], [bits(x), bits(y)]);
    }

    let repeated = cache.prepare(&walked, &unchanged(&walked)).unwrap();
    assert_eq!(repeated.stats.reused_contours, 1);
    assert_eq!(repeated.stats.translated_contours, 0);
    assert_eq!(repeated.stats.dirty_points, 0);

    let mut layout = SceneLayout::default();
    let scene = scene_of(&cache, &repeated, 32, 32, &mut layout);
    assert_eq!(
        scene.sections[CONTOUR_SECTION],
        vec![0, 4, bits(1.0), bits(0.0), bits(0.0), bits(1.0), bits(10.0), bits(-3.0)]
    );
}

#[test]
fn affine_animation_reuses_resident_points() {
    let original = [(1.0, 2.0), (5.0, 2.0), (5.0, 7.0), (1.0, 7.0)];
    let mut walked = frame(vec![contour(&original)], Rule::NonZero, 0xff00_ff00);
    let mut cache = GeometryCache::new();
    cache.prepare(&walked, &fresh(&walked)).unwrap();
    let expected = [0.5, 0.25, -0.75, 1.5, 10.0, -4.0];
    for point in &mut walked.contours[0].points {
        let (x, y) = apply(*point, expected);
        point.x = bits(x);
        point.y = bits(y);
    }

    let affine = cache.prepare(&walked, &evidence(&walked, &[(false, None, Some(expected))])).unwrap();
    assert_eq!(affine.stats.affine_contours, 1);
    assert_eq!(affine.stats.affine_points, 4);
    assert_eq!(affine.stats.dirty_points, 0);
    assert_eq!(cache.contours()[0].transform, transform_bits(expected));
    for (stored, &(x, y)) in cache.arena().points().iter().zip(&original) {
        assert_eq!([stored.x, stored.y], [bits(x), bits(y)]);
    }
}

#[test]
fn nonuniform_deformation_replaces_translated_resident_points() {
    let mut walked = frame(vec![contour(&[(0.0, 0.0), (4.0, 0.0), (4.0, 4.0), (0.0, 4.0)])], Rule::NonZero, 0xffff_ffff);
    let mut cache = GeometryCache::new();
    cache.prepare(&walked, &fresh(&walked)).unwrap();
    for point in &mut walked.contours[0].points {
        point.x = bits(f32::from_bits(point.x) + 6.0);
        point.y = bits(f32::from_bits(point.y) + 2.0);
    }
    cache.prepare(&walked, &evidence(&walked, &[(false, Some([1.0, 0.0, 0.0, 1.0, 6.0, 2.0]), None)])).unwrap();
    walked.contours[0].points[2].x = bits(f32::from_bits(walked.contours[0].points[2].x) + 1.0);

    let deformed = cache.prepare(&walked, &fresh(&walked)).unwrap();
    assert_eq!(deformed.stats.translated_contours, 0);
    assert_eq!(deformed.stats.updated_contours, 1);
    assert_eq!(deformed.stats.dirty_points, 4);
    assert_eq!(cache.contours()[0].transform, transform_bits([1.0, 0.0, 0.0, 1.0, 0.0, 0.0]));
    let range = cache.contours()[0].range;
    let stored = &cache.arena().points()[range.first as usize..(range.first + range.count) as usize];
    assert_eq!(stored, walked.contours[0].points.as_slice());
}

#[test]
fn point_upload_counts_the_slice_payload() {
    let points = [Point { x: 0, y: 0 }; 4];
    assert_eq!(point_payload_bytes(&points), 32);
}

fn gradient(lut: [u32; 1024], kind: GradientKind, tx: f32, ty: f32) -> GradientPaint {
    GradientPaint {
        rule: Rule::NonZero,
        lut,
        transform: GradientTransform { a: bits(1.0), b: bits(0.0), c: bits(0.0), d: bits(1.0), tx: bits(tx), ty: bits(ty) },
        kind,
    }
}

#[test]
fn prepares_gradient_lut_and_shader_parameters() {
    let kind = GradientKind::Linear { sx: bits(0.0), sy: bits(0.0), dx: bits(4.0), dy: bits(0.0), inv_len_sq: bits(0.0625) };
    let walked = EvaluatedFrame {
        contours: vec![contour(&[(0.0, 0.0), (4.0, 0.0), (4.0, 4.0), (0.0, 4.0)])],
        commands: vec![RecordedCommand { op: RecordedOp::Gradient(gradient([0xff12_3456; 1024], kind, 2.0, 3.0)), start: 0, end: 1 }],
    };
    let prepared = GeometryCache::new().prepare(&walked, &fresh(&walked)).unwrap();
    let paint = prepared.paints.first().unwrap();
    assert_eq!(prepared.gradient_luts.len(), 1024);
    assert_eq!(prepared.gradient_luts.first(), Some(&0xff12_3456));
    assert_eq!(paint.paint_kind, 1);
    assert_eq!(paint.params0, [0.0f32, 0.0, 4.0, 0.0].map(f32::to_bits));
    assert_eq!(paint.params1[0], bits(0.0625));
    assert_eq!(prepared.stats.gradient_draws, 1);
}

#[test]
fn identical_gradient_paints_share_one_lut_payload() {
    let mut lut = [0u32; 1024];
    for (index, entry) in lut.iter_mut().enumerate() {
        *entry = index as u32;
    }
    let paint = gradient(lut, GradientKind::Radial { sx: bits(0.0), sy: bits(0.0), inv_r: bits(0.25) }, 0.0, 0.0);
    let walked = EvaluatedFrame {
        contours: vec![contour(&[(0.0, 0.0), (4.0, 0.0), (4.0, 4.0)])],
        commands: vec![
            RecordedCommand { op: RecordedOp::Gradient(paint.clone()), start: 0, end: 1 },
            RecordedCommand { op: RecordedOp::Gradient(paint), start: 0, end: 1 },
        ],
    };

    let prepared = GeometryCache::new().prepare(&walked, &fresh(&walked)).unwrap();
    assert_eq!(prepared.gradient_luts.len(), 1024);
    assert_eq!(prepared.paints.len(), 2);
    assert_eq!(prepared.paints[0].lut_word_offset, 0);
    assert_eq!(prepared.paints[1].lut_word_offset, 0);
}

#[test]
fn compute_scene_preserves_even_odd_rule_and_sample_mode() {
    let walked = frame(
        vec![contour(&[(0.0, 0.0), (4.0, 0.0), (4.0, 4.0), (0.0, 4.0)]), contour(&[(1.0, 1.0), (3.0, 1.0), (3.0, 3.0), (1.0, 3.0)])],
        Rule::EvenOdd,
        0xff00_ff00,
    );
    let mut cache = GeometryCache::new();
    let prepared = cache.prepare(&walked, &fresh(&walked)).unwrap();
    let mut layout = SceneLayout::default();
    let scene = scene_of(&cache, &prepared, 4, 4, &mut layout);
    let paint_words = &scene.sections[PAINT_SECTION];
    assert_eq!(scene.push.antialias, 1);
    assert_eq!(paint_words.first(), Some(&0));
    assert_eq!(paint_words.get(1), Some(&2));
    assert_eq!(paint_words.get(3), Some(&1));
    for section in TILE_SECTION..SCENE_SECTION_COUNT {
        assert!(scene.sections[section].is_empty());
        assert!(scene.layout.capacities[section] > 0);
    }
    assert!(scene.layout.capacities[TILE_INDEX_SECTION] >= 1);
    assert!(scene.layout.capacities[EDGE_SECTION] >= 4);
}

#[test]
fn bin_key_tracks_only_spatial_scene_inputs() {
    let walked = frame(vec![contour(&[(0.0, 0.0), (4.0, 0.0), (4.0, 4.0), (0.0, 4.0)])], Rule::NonZero, 0xff12_3456);
    let mut cache = GeometryCache::new();
    let prepared = cache.prepare(&walked, &fresh(&walked)).unwrap();
    let mut layout = SceneLayout::default();
    let mut scene = scene_of(&cache, &prepared, 32, 32, &mut layout);
    let original = compute_bin_key(&scene).unwrap();

    scene.sections[PAINT_SECTION][4] = 0xffab_cdef;
    assert_eq!(compute_bin_key(&scene).unwrap(), original);
    scene.sections[PAINT_SECTION][2] = 1;
    assert_eq!(compute_bin_key(&scene).unwrap(), original);
    scene.sections[PAINT_SECTION][20] = bits(1.0);
    assert_ne!(compute_bin_key(&scene).unwrap(), original);
    scene.sections[PAINT_SECTION][20] = bits(0.0);
    assert_eq!(compute_bin_key(&scene).unwrap(), original);
    scene.sections[CONTOUR_SECTION][2] = bits(2.0);
    assert_ne!(compute_bin_key(&scene).unwrap(), original);
}

#[test]
fn retained_bin_layout_ignores_unrelated_domain_relocation() {
    let previous = SceneLayout { offsets: [10, 20, 30, 40, 50, 60, 70, 80], capacities: [1, 2, 3, 4, 5, 6, 7, 8], ..SceneLayout::default() };
    let mut current = previous;
    current.offsets[LUT_SECTION] = 100;
    current.capacities[LUT_SECTION] = 16;
    assert!(retained_bin_layout_matches(previous, current));
    current.offsets[EDGE_SECTION] += 8;
    assert!(!retained_bin_layout_matches(previous, current));
}

#[test]
fn scene_layout_compacts_when_capacity_is_exceeded() {
    let mut layout = SceneLayout::default();
    layout.ensure(64, [3, 2, 24, 0, 8, 5, 4, 9]).unwrap();
    let first = layout;
    layout.ensure(64, [4, 1, 20, 0, 8, 6, 3, 16]).unwrap();
    assert_eq!(layout, first);
    layout.ensure(64, [5, 1, 20, 0, 8, 6, 3, 16]).unwrap();
    assert_ne!(layout, first);
    assert!(layout.capacities.get(POINT_SECTION).copied().unwrap_or(0) >= 5);
    assert_eq!(layout.offset(POINT_SECTION).unwrap(), first.offset(POINT_SECTION).unwrap());
    assert!(layout.total_words < first.total_words + 8);
    assert_eq!(layout.offset(CONTOUR_SECTION).unwrap(), first.offset(CONTOUR_SECTION).unwrap() + 4);
}

#[test]
fn scene_upload_diff_skips_unchanged_words_and_coalesces_nearby_changes() {
    let previous: Vec<u32> = (0..64).collect();
    let mut current = previous.clone();
    current[3] = 100;
    current[10] = 101;
    current[40] = 102;
    assert_eq!(scene_dirty_ranges(Some(&previous), &current), vec![3..11, 40..41]);
    assert!(scene_dirty_ranges(Some(&current), &current).is_empty());
    assert_eq!(scene_dirty_ranges(None, &current), vec![0..64]);
}

#[test]
fn prepares_pixel_local_layer_commands_without_geometry() {
    let walked = EvaluatedFrame {
        contours: Vec::new(),
        commands: vec![
            RecordedCommand { op: RecordedOp::BeginLayer, start: 0, end: 0 },
            RecordedCommand { op: RecordedOp::EndLayer { opacity: 128 }, start: 0, end: 0 },
            RecordedCommand { op: RecordedOp::BeginMatte, start: 0, end: 0 },
            RecordedCommand { op: RecordedOp::BeginMatteTarget, start: 0, end: 0 },
            RecordedCommand { op: RecordedOp::EndMatte { kind: 4, opacity: 127, source_opacity: 255 }, start: 0, end: 0 },
        ],
    };
    let prepared = GeometryCache::new().prepare(&walked, &fresh(&walked)).unwrap();
    assert_eq!(prepared.paints.len(), 5);
    assert_eq!(prepared.paints[0].paint_kind, 2);
    assert_eq!(prepared.paints[1].paint_kind, 3);
    assert_eq!(prepared.paints[1].argb, 0x8000_0000);
    assert_eq!(prepared.paints[2].paint_kind, 4);
    assert_eq!(prepared.paints[3].paint_kind, 5);
    assert_eq!(prepared.paints[4].paint_kind, 6);
    assert_eq!(prepared.paints[4].argb, 0x7f00_ff04);
    assert!(prepared.indirect.is_empty());
}

#[test]
fn prepares_mask_as_pixel_local_operation_with_geometry() {
    let walked = EvaluatedFrame {
        contours: vec![contour(&[(1.0, 1.0), (8.0, 1.0), (8.0, 8.0), (1.0, 8.0)])],
        commands: vec![RecordedCommand {
            op: RecordedOp::Mask { mode: b's', inverted: true, opacity: 128, first: true, last: true },
            start: 0,
            end: 1,
        }],
    };
    let prepared = GeometryCache::new().prepare(&walked, &fresh(&walked)).unwrap();
    assert_eq!(prepared.paints.len(), 1);
    assert_eq!(prepared.paints[0].paint_kind, 7);
    assert_eq!(prepared.paints[0].argb, 0x8000_0773);
    assert_eq!(prepared.paints[0].contour_count, 1);
    assert_eq!(prepared.indirect.len(), 1);
}

#[test]
fn matte_factors_match_cpu_integer_semantics() {
    let matte = 0x8010_2040;
    assert_eq!(matte_factor(matte, 1), 128);
    assert_eq!(matte_factor(matte, 2), 127);
    assert_eq!(matte_factor(matte, 3), 78);
    assert_eq!(matte_factor(matte, 4), 177);
    assert_eq!(matte_factor(0, 3), 0);
    assert_eq!(matte_factor(0, 4), 255);
}

#[test]
fn same_topology_deformation_updates_only_its_range() {
    let mut walked = frame(
        vec![contour(&[(0.0, 0.0), (2.0, 0.0), (2.0, 2.0), (0.0, 2.0)]), contour(&[(4.0, 4.0), (6.0, 4.0), (6.0, 6.0), (4.0, 6.0)])],
        Rule::NonZero,
        0xffff_ffff,
    );
    let mut cache = GeometryCache::new();
    let first = cache.prepare(&walked, &fresh(&walked)).unwrap();
    let first_offsets: Vec<u32> = first.draw_data.iter().map(|draw| draw.point_offset).collect();

    walked.contours[1].points[2].x = bits(7.0);
    let second = cache.prepare(&walked, &evidence(&walked, &[(true, None, None), (false, None, None)])).unwrap();
    let second_offsets: Vec<u32> = second.draw_data.iter().map(|draw| draw.point_offset).collect();

    assert_eq!(second.stats.reused_contours, 1);
    assert_eq!(second.stats.updated_contours, 1);
    assert_eq!(second.stats.allocated_contours, 0);
    assert_eq!(second.stats.dirty_points, 4);
    assert_eq!(first_offsets, second_offsets);
    assert_eq!(second.dirty.first(), Some(&DirtyRange { first_point: 4, point_count: 4 }));
}

#[test]
fn topology_change_keeps_other_contour_allocations_stable() {
    let mut walked = frame(
        vec![contour(&[(0.0, 0.0), (2.0, 0.0), (2.0, 2.0), (0.0, 2.0)]), contour(&[(4.0, 4.0), (6.0, 4.0), (6.0, 6.0), (4.0, 6.0)])],
        Rule::EvenOdd,
        0xff00_ffff,
    );
    let mut cache = GeometryCache::new();
    let first = cache.prepare(&walked, &fresh(&walked)).unwrap();
    let other_offset = first.draw_data.get(1).map(|draw| draw.point_offset);

    walked.contours[0].points.push(Point { x: bits(1.0), y: bits(3.0) });
    let second = cache.prepare(&walked, &evidence(&walked, &[(false, None, None), (true, None, None)])).unwrap();

    assert_eq!(second.stats.allocated_contours, 1);
    assert_eq!(second.stats.reused_contours, 1);
    assert_eq!(second.draw_data.get(1).map(|draw| draw.point_offset), other_offset);
    assert_eq!(second.indirect.first().map(|draw| draw.vertex_count), Some(9));
}

#[test]
fn rejects_frames_whose_contour_overflows_the_point_index() {
    let walked = EvaluatedFrame {
        contours: Vec::new(),
        commands: vec![RecordedCommand { op: RecordedOp::BeginLayer, start: usize::MAX, end: usize::MAX }],
    };
    let result = GeometryCache::new().prepare(&walked, &fresh(&walked));
    assert!(matches!(result, Err(Error::FrameTooLarge)));
}
