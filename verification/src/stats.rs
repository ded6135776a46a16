//! Reuse and upload statistics of the most recently prepared frame.

use vstd::prelude::*;

verus! {

/// Geometry reuse statistics for the most recently prepared frame.
#[derive(Clone, Copy, Debug, PartialEq, Eq, Structural)]
pub struct CacheStats {
    /// Contours whose point storage was reused without an upload.
    pub reused_contours: u32,
    /// Reused contours represented by a new translation instead of point uploads.
    pub translated_contours: u32,
    /// Resident point values retained by translation-only contour updates.
    pub translated_points: u32,
    /// Reused contours represented by a verified non-translation affine map.
    pub affine_contours: u32,
    /// Resident point values retained by verified affine contour updates.
    pub affine_points: u32,
    /// Contours updated in place because their point count stayed constant.
    pub updated_contours: u32,
    /// Contours assigned a new or differently sized allocation.
    pub allocated_contours: u32,
    /// Point values that need uploading for the prepared frame.
    pub dirty_points: u32,
    /// Number of coalesced point upload ranges.
    pub dirty_ranges: u32,
    /// Total point capacity currently retained by the arena.
    pub arena_points: u32,
    /// Indirect contour draws emitted for the frame.
    pub draws: u32,
    /// Solid contour draws currently submitted to the Vulkan pipeline.
    pub solid_draws: u32,
    /// Gradient contour draws submitted to the Vulkan pipeline.
    pub gradient_draws: u32,
    /// Scene words uploaded for the most recently prepared frame.
    pub scene_upload_bytes: u64,
    /// Coalesced scene upload ranges for the most recently prepared frame.
    pub scene_upload_ranges: u32,
    /// Point and contour bytes uploaded for the most recent frame.
    pub geometry_upload_bytes: u64,
    /// Paint record and gradient LUT bytes uploaded for the most recent frame.
    pub paint_upload_bytes: u64,
    /// Tile and edge-bin bytes uploaded for the most recent frame.
    pub bin_upload_bytes: u64,
    /// Whether the most recent frame reused GPU-generated tile and edge bins.
    pub reused_bins: bool,
    /// Whether the most recent frame used the stack-free compute shader.
    pub simple_compute: bool,
    /// Whether the most recent frame used hardware stencil winding and cover draws.
    pub stencil_cover: bool,
}

/// All counters zero and all flags false.
pub open spec fn zero_stats() -> CacheStats {
    CacheStats {
        reused_contours: 0,
        translated_contours: 0,
        translated_points: 0,
        affine_contours: 0,
        affine_points: 0,
        updated_contours: 0,
        allocated_contours: 0,
        dirty_points: 0,
        dirty_ranges: 0,
        arena_points: 0,
        draws: 0,
        solid_draws: 0,
        gradient_draws: 0,
        scene_upload_bytes: 0,
        scene_upload_ranges: 0,
        geometry_upload_bytes: 0,
        paint_upload_bytes: 0,
        bin_upload_bytes: 0,
        reused_bins: false,
        simple_compute: false,
        stencil_cover: false,
    }
}

impl CacheStats {
    /// Statistics of a renderer that has prepared nothing.
    pub fn default() -> (s: Self)
        ensures
            s == zero_stats(),
    {
        CacheStats {
            reused_contours: 0,
            translated_contours: 0,
            translated_points: 0,
            affine_contours: 0,
            affine_points: 0,
            updated_contours: 0,
            allocated_contours: 0,
            dirty_points: 0,
            dirty_ranges: 0,
            arena_points: 0,
            draws: 0,
            solid_draws: 0,
            gradient_draws: 0,
            scene_upload_bytes: 0,
            scene_upload_ranges: 0,
            geometry_upload_bytes: 0,
            paint_upload_bytes: 0,
            bin_upload_bytes: 0,
            reused_bins: false,
            simple_compute: false,
            stencil_cover: false,
        }
    }
}

/// `a + b`, clamped to `u32::MAX`.
pub open spec fn sat_add(a: u32, b: u32) -> u32 {
    if a + b > u32::MAX { u32::MAX } else { (a + b) as u32 }
}

} // verus!
