//! Device, memory and buffer-size choices of the command-line Vulkan host.

use vstd::prelude::*;
use crate::opengl::{copy_premultiplied_rgba, pixel_byte};

verus! {

/// Queue family capability: graphics.
pub const QUEUE_GRAPHICS: u32 = 0x1;
/// Queue family capability: compute.
pub const QUEUE_COMPUTE: u32 = 0x2;
/// Memory property: device local.
pub const MEMORY_DEVICE_LOCAL: u32 = 0x1;
/// Memory property: host visible.
pub const MEMORY_HOST_VISIBLE: u32 = 0x2;
/// Memory property: host coherent.
pub const MEMORY_HOST_COHERENT: u32 = 0x4;
/// Memory property: lazily allocated.
pub const MEMORY_LAZILY_ALLOCATED: u32 = 0x10;
/// Smallest scratch buffer kept for scene uploads, in bytes.
pub const MIN_SCRATCH_BYTES: u64 = 64 * 1024 * 1024;

/// A queue family with these capabilities can run the renderer.
pub open spec fn queue_usable(flags: u32) -> bool {
    flags & QUEUE_GRAPHICS != 0 || flags & QUEUE_COMPUTE != 0
}

/// Family `f` of device `d` is usable and no family before it, of this or an
/// earlier device, is.
pub open spec fn first_usable_queue(devices: Seq<Vec<u32>>, d: int, f: int) -> bool {
    &&& 0 <= d < devices.len()
    &&& 0 <= f < devices[d]@.len()
    &&& queue_usable(devices[d]@[f])
    &&& forall|e: int, g: int|
        #![trigger devices[e]@[g]]
        0 <= e <= d && 0 <= g < devices[e]@.len() && (e < d || g < f) ==> !queue_usable(devices[e]@[g])
}

/// The first device, in enumeration order, with a queue family able to run
/// graphics or compute work, and the first such family of it. `devices`
/// lists each device's queue family capabilities.
pub fn pick_queue(devices: &Vec<Vec<u32>>) -> (res: Option<(usize, u32)>)
    requires
        forall|d: int| 0 <= d < devices@.len() ==> (#[trigger] devices@[d])@.len() <= u32::MAX,
    ensures
        res matches Some((d, f)) ==> first_usable_queue(devices@, d as int, f as int),
        res is None ==> forall|d: int, f: int|
            #![trigger devices@[d]@[f]]
            0 <= d < devices@.len() && 0 <= f < devices@[d]@.len() ==> !queue_usable(devices@[d]@[f]),
{
    let mut d: usize = 0;
    while d < devices.len()
        invariant
            0 <= d <= devices@.len(),
            forall|d: int| 0 <= d < devices@.len() ==> (#[trigger] devices@[d])@.len() <= u32::MAX,
            forall|e: int, g: int|
                #![trigger devices@[e]@[g]]
                0 <= e < d && 0 <= g < devices@[e]@.len() ==> !queue_usable(devices@[e]@[g]),
        decreases devices@.len() - d,
    {
        let families = &devices[d];
        let mut f: usize = 0;
        while f < families.len()
            invariant
                0 <= d < devices@.len(),
                families@ == devices@[d as int]@,
                0 <= f <= families@.len(),
                families@.len() <= u32::MAX,
                forall|e: int, g: int|
                    #![trigger devices@[e]@[g]]
                    0 <= e < d && 0 <= g < devices@[e]@.len() ==> !queue_usable(devices@[e]@[g]),
                forall|g: int| 0 <= g < f ==> !queue_usable(#[trigger] families@[g]),
            decreases families@.len() - f,
        {
            let flags = families[f];
            if flags & QUEUE_GRAPHICS != 0 || flags & QUEUE_COMPUTE != 0 {
                return Some((d, f as u32));
            }
            f = f + 1;
        }
        d = d + 1;
    }
    None
}

/// Memory type `i` is allowed by `bits` and has every property asked for.
pub open spec fn memory_type_ok(type_flags: Seq<u32>, bits: u32, properties: u32, i: int) -> bool {
    &&& 0 <= i < 32
    &&& i < type_flags.len()
    &&& bits & (1u32 << (i as u32)) != 0
    &&& type_flags[i] & properties == properties
}

/// The first of the `type_count` memory types that `bits` allows and that
/// has every property in `properties`; `type_flags` lists each type's
/// properties.
pub fn find_memory_type(type_flags: &Vec<u32>, type_count: u32, bits: u32, properties: u32) -> (res: Option<u32>)
    ensures
        res matches Some(i) ==> i < type_count && memory_type_ok(type_flags@, bits, properties, i as int) && forall|j: int|
            0 <= j < i ==> !#[trigger] memory_type_ok(type_flags@, bits, properties, j),
        res is None ==> forall|j: int| 0 <= j < type_count ==> !#[trigger] memory_type_ok(type_flags@, bits, properties, j),
{
    let mut i: u32 = 0;
    while i < type_count
        invariant
            0 <= i <= type_count,
            forall|j: int| 0 <= j < i ==> !#[trigger] memory_type_ok(type_flags@, bits, properties, j),
        decreases type_count - i,
    {
        if i < 32 && (i as usize) < type_flags.len() {
            let mask = 1u32 << i;
            if bits & mask != 0 && type_flags[i as usize] & properties == properties {
                return Some(i);
            }
        }
        i = i + 1;
    }
    None
}

/// Memory type `i` is the first of the `type_count` types that `bits`
/// allows and that has every property in `properties`.
pub open spec fn first_memory_type(type_flags: Seq<u32>, type_count: u32, bits: u32, properties: u32, i: int) -> bool {
    &&& 0 <= i < type_count
    &&& memory_type_ok(type_flags, bits, properties, i)
    &&& forall|j: int| 0 <= j < i ==> !#[trigger] memory_type_ok(type_flags, bits, properties, j)
}

/// Some of the `type_count` types is allowed by `bits` and has every
/// property in `properties`.
pub open spec fn has_memory_type(type_flags: Seq<u32>, type_count: u32, bits: u32, properties: u32) -> bool {
    exists|j: int| 0 <= j < type_count && #[trigger] memory_type_ok(type_flags, bits, properties, j)
}

/// Memory for an image: for a transient attachment, the first type that is
/// device-local and lazily allocated when there is one; otherwise the first
/// device-local type.
pub fn image_memory_type(type_flags: &Vec<u32>, type_count: u32, bits: u32, transient: bool) -> (res: Option<u32>)
    ensures
        ({
            let lazy = MEMORY_DEVICE_LOCAL | MEMORY_LAZILY_ALLOCATED;
            if transient && has_memory_type(type_flags@, type_count, bits, lazy) {
                res matches Some(i) && first_memory_type(type_flags@, type_count, bits, lazy, i as int)
            } else {
                match res {
                    Some(i) => first_memory_type(type_flags@, type_count, bits, MEMORY_DEVICE_LOCAL, i as int),
                    None => !has_memory_type(type_flags@, type_count, bits, MEMORY_DEVICE_LOCAL),
                }
            }
        }),
        res matches Some(i) ==> i < type_count && memory_type_ok(type_flags@, bits, MEMORY_DEVICE_LOCAL, i as int),
{
    if transient {
        match find_memory_type(type_flags, type_count, bits, MEMORY_DEVICE_LOCAL | MEMORY_LAZILY_ALLOCATED) {
            Some(i) => {
                proof {
                    let f = type_flags@[i as int];
                    assert(f & (0x1u32 | 0x10u32) == (0x1u32 | 0x10u32) ==> f & 0x1u32 == 0x1u32) by (bit_vector);
                }
                return Some(i);
            },
            None => {},
        }
    }
    find_memory_type(type_flags, type_count, bits, MEMORY_DEVICE_LOCAL)
}

/// Bytes of a `width` by `height` RGBA8 target, if they fit in 64 bits.
pub fn target_bytes(width: u32, height: u32) -> (res: Option<u64>)
    ensures
        res matches Some(b) ==> b == width * height * 4,
        res is None <==> width * height * 4 > u64::MAX,
{
    let w = width as u64;
    let h = height as u64;
    proof {
        assert(w * h <= u64::MAX) by (nonlinear_arith)
            requires w <= u32::MAX, h <= u32::MAX;
    }
    let pixels = w * h;
    if pixels > u64::MAX / 4 {
        return None;
    }
    Some(pixels * 4)
}

/// Size of the scene scratch buffer for a target of `target_bytes` bytes:
/// four targets' worth, and at least `MIN_SCRATCH_BYTES`.
pub fn scratch_bytes(target_bytes: u64) -> (b: u64)
    ensures
        b == if target_bytes * 4 > u64::MAX {
            u64::MAX
        } else if target_bytes * 4 > MIN_SCRATCH_BYTES {
            (target_bytes * 4) as u64
        } else {
            MIN_SCRATCH_BYTES
        },
{
    let scaled = if target_bytes > u64::MAX / 4 { u64::MAX } else { target_bytes * 4 };
    if scaled > MIN_SCRATCH_BYTES {
        scaled
    } else {
        MIN_SCRATCH_BYTES
    }
}

/// Why pixels cannot be read back from a buffer.
#[derive(Clone, Copy, Debug, PartialEq, Eq, Structural)]
pub enum ReadbackError {
    /// The byte count of the pixels overflows.
    SizeOverflow,
    /// The buffer holds fewer bytes than the pixels.
    TargetTooSmall,
}

/// Bytes read back into `pixel_count` pixels from a buffer of
/// `capacity` bytes.
pub fn readback_bytes(pixel_count: usize, capacity: u64) -> (res: Result<usize, ReadbackError>)
    ensures
        pixel_count * 4 > usize::MAX ==> res == Err::<usize, ReadbackError>(ReadbackError::SizeOverflow),
        pixel_count * 4 <= usize::MAX && pixel_count * 4 > capacity ==> res == Err::<usize, ReadbackError>(
            ReadbackError::TargetTooSmall,
        ),
        pixel_count * 4 <= usize::MAX && pixel_count * 4 <= capacity ==> res == Ok::<usize, ReadbackError>(
            (pixel_count * 4) as usize,
        ),
{
    if pixel_count > usize::MAX / 4 {
        return Err(ReadbackError::SizeOverflow);
    }
    let bytes = pixel_count * 4;
    if bytes as u64 > capacity {
        return Err(ReadbackError::TargetTooSmall);
    }
    Ok(bytes)
}

/// The little-endian bytes of the pixels, pixel after pixel.
pub fn pixels_le_bytes(pixels: &[u32]) -> (bytes: Vec<u8>)
    requires
        pixels@.len() * 4 <= usize::MAX,
    ensures
        bytes@.len() == 4 * pixels@.len(),
        forall|i: int, k: int|
            0 <= i < pixels@.len() && 0 <= k < 4 ==> #[trigger] bytes@[4 * i + k] == pixel_byte(pixels@[i], k),
{
    let mut bytes: Vec<u8> = vec![0u8; pixels.len() * 4];
    copy_premultiplied_rgba(pixels, bytes.as_mut_slice());
    bytes
}

} // verus!
