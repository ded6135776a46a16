//! Validated fills, clears, copies and layout transitions of host-owned
//! targets.

use vstd::prelude::*;
use crate::error::Error;

verus! {

/// Integer rectangle in target pixels.
#[derive(Clone, Copy, Debug, PartialEq, Eq, Structural)]
pub struct Rect {
    /// Left edge in pixels.
    pub x: u32,
    /// Top edge in pixels.
    pub y: u32,
    /// Width in pixels.
    pub w: u32,
    /// Height in pixels.
    pub h: u32,
}

/// One buffer fill: `bytes` bytes from byte `offset`.
#[derive(Clone, Copy, Debug, PartialEq, Eq, Structural)]
pub struct FillSpan {
    /// First byte.
    pub offset: u32,
    /// Bytes filled.
    pub bytes: u32,
}

/// Bytes of a `width` by `height` RGBA8 buffer, when the size is valid.
pub open spec fn rgba_bytes(width: u32, height: u32) -> int {
    width * height * 4
}

/// Bytes to clear in a `width` by `height` RGBA8 buffer; fails with
/// `BadTarget` on an empty or oversized target.
pub fn clear_bytes(width: u32, height: u32) -> (res: Result<u32, Error>)
    ensures
        res is Ok <==> width > 0 && height > 0 && rgba_bytes(width, height) <= u32::MAX,
        res is Err ==> res == Err::<u32, Error>(Error::BadTarget),
        res matches Ok(b) ==> b == rgba_bytes(width, height),
{
    let pixels = match width.checked_mul(height) {
        Some(p) => p,
        None => {
            proof {
                assert(width * height * 4 > u32::MAX) by (nonlinear_arith)
                    requires width * height > u32::MAX;
            }
            return Err(Error::BadTarget);
        },
    };
    let bytes = match pixels.checked_mul(4) {
        Some(b) => b,
        None => return Err(Error::BadTarget),
    };
    if width == 0 || height == 0 {
        return Err(Error::BadTarget);
    }
    Ok(bytes)
}

/// The fill of row `row` of `rect` in a buffer `width` pixels wide.
pub open spec fn row_span(width: u32, rect: Rect, row: int) -> FillSpan {
    FillSpan { offset: ((row * width + rect.x) * 4) as u32, bytes: (rect.w * 4) as u32 }
}

/// `rect` lies inside a non-empty `width` by `height` target and the byte
/// offset of every one of its rows fits in 32 bits.
pub open spec fn rect_fits(width: u32, height: u32, rect: Rect) -> bool {
    &&& width > 0 && height > 0
    &&& rect.x + rect.w <= width
    &&& rect.y + rect.h <= height
    &&& rect.h > 0 ==> ((rect.y + rect.h - 1) * width + rect.x) * 4 <= u32::MAX && rect.w * 4 <= u32::MAX
}

/// The row fills that paint `rect` into a `width` by `height` RGBA8 buffer,
/// top row first; fails with `BadTarget` when the rectangle does not fit.
pub fn fill_rows(width: u32, height: u32, rect: Rect) -> (res: Result<Vec<FillSpan>, Error>)
    ensures
        res is Ok <==> rect_fits(width, height, rect),
        res is Err ==> res == Err::<Vec<FillSpan>, Error>(Error::BadTarget),
        res matches Ok(spans) ==> spans@.len() == rect.h && forall|k: int|
            0 <= k < rect.h ==> #[trigger] spans@[k] == row_span(width, rect, rect.y + k),
{
    if rect.x > u32::MAX - rect.w || rect.y > u32::MAX - rect.h {
        return Err(Error::BadTarget);
    }
    let x1 = rect.x + rect.w;
    let y1 = rect.y + rect.h;
    if width == 0 || height == 0 || x1 > width || y1 > height {
        return Err(Error::BadTarget);
    }
    let mut spans: Vec<FillSpan> = Vec::new();
    let mut row = rect.y;
    while row < y1
        invariant
            rect.y <= row <= y1,
            y1 == rect.y + rect.h,
            x1 == rect.x + rect.w,
            x1 <= width,
            y1 <= height,
            width > 0,
            spans@.len() == row - rect.y,
            forall|k: int| 0 <= k < row - rect.y ==> #[trigger] spans@[k] == row_span(width, rect, rect.y + k),
            row > rect.y ==> ((row - 1) * width + rect.x) * 4 <= u32::MAX && rect.w * 4 <= u32::MAX,
        decreases y1 - row,
    {
        let ghost last = y1 - 1;
        let start_px = match row.checked_mul(width) {
            Some(v) => match v.checked_add(rect.x) {
                Some(s) => s,
                None => {
                    proof {
                        assert(row * width <= last * width) by (nonlinear_arith)
                            requires row <= last, width >= 0;
                    }
                    return Err(Error::BadTarget);
                },
            },
            None => {
                proof {
                    assert(row * width <= last * width) by (nonlinear_arith)
                        requires row <= last, width >= 0;
                }
                return Err(Error::BadTarget);
            },
        };
        let offset = match start_px.checked_mul(4) {
            Some(o) => o,
            None => {
                proof {
                    assert(row * width <= last * width) by (nonlinear_arith)
                        requires row <= last, width >= 0;
                }
                return Err(Error::BadTarget);
            },
        };
        let bytes = match rect.w.checked_mul(4) {
            Some(b) => b,
            None => return Err(Error::BadTarget),
        };
        spans.push(FillSpan { offset, bytes });
        proof {
            assert(spans@[row - rect.y] == row_span(width, rect, rect.y + (row - rect.y)));
        }
        row = row + 1;
    }
    proof {
        if rect.h > 0 {
            let last = rect.y + rect.h - 1;
            assert(spans@[rect.h - 1] == row_span(width, rect, last));
        }
    }
    Ok(spans)
}

/// What painting a rectangle into a buffer records: a clear of the whole
/// buffer, then the rectangle's row fills.
pub struct RectDraw {
    /// Bytes cleared from the start of the buffer.
    pub clear_bytes: u32,
    /// Row fills of the rectangle.
    pub rows: Vec<FillSpan>,
}

/// Plans clearing a `width` by `height` RGBA8 buffer and filling `rect`.
pub fn rect_draw(width: u32, height: u32, rect: Rect) -> (res: Result<RectDraw, Error>)
    ensures
        res is Ok <==> rgba_bytes(width, height) <= u32::MAX && rect_fits(width, height, rect),
        res is Err ==> res == Err::<RectDraw, Error>(Error::BadTarget),
        res matches Ok(d) ==> d.clear_bytes == rgba_bytes(width, height) && d.rows@.len() == rect.h && forall|k: int|
            0 <= k < rect.h ==> #[trigger] d.rows@[k] == row_span(width, rect, rect.y + k),
{
    let clear = match clear_bytes(width, height) {
        Ok(b) => b,
        Err(e) => return Err(e),
    };
    let rows = match fill_rows(width, height, rect) {
        Ok(r) => r,
        Err(e) => return Err(e),
    };
    Ok(RectDraw { clear_bytes: clear, rows })
}

/// A rectangle drawn into a scratch buffer is copied into an image of the
/// same size.
pub fn check_same_extent(scratch_width: u32, scratch_height: u32, width: u32, height: u32) -> (res: Result<(), Error>)
    ensures
        res is Ok <==> scratch_width == width && scratch_height == height,
        res is Err ==> res == Err::<(), Error>(Error::BadTarget),
{
    if scratch_width != width || scratch_height != height {
        return Err(Error::BadTarget);
    }
    Ok(())
}

/// Layout of an image.
#[derive(Clone, Copy, Debug, PartialEq, Eq, Structural)]
pub enum ImageLayout {
    /// Contents undefined.
    Undefined,
    /// Source of transfers.
    TransferSrc,
    /// Destination of transfers.
    TransferDst,
    /// Ready for presentation.
    PresentSrc,
    /// Color attachment.
    ColorAttachment,
    /// Any other layout.
    Other,
}

/// Pipeline stage that a barrier waits for or blocks.
#[derive(Clone, Copy, Debug, PartialEq, Eq, Structural)]
pub enum Stage {
    /// Before any work.
    TopOfPipe,
    /// Transfers.
    Transfer,
    /// After all work.
    BottomOfPipe,
}

/// Memory access that a barrier makes visible or available.
#[derive(Clone, Copy, Debug, PartialEq, Eq, Structural)]
pub enum Access {
    /// No access.
    Nothing,
    /// Transfer reads.
    TransferRead,
    /// Transfer writes.
    TransferWrite,
    /// Any memory read.
    MemoryRead,
}

/// Barriers around copying a buffer into an image.
#[derive(Clone, Copy, Debug, PartialEq, Eq, Structural)]
pub struct CopyBarriers {
    /// Access to wait for before the image becomes a transfer destination.
    pub src_access: Access,
    /// Stage to wait for before the image becomes a transfer destination.
    pub src_stage: Stage,
    /// Access that follows the copy.
    pub dst_access: Access,
    /// Stage that follows the copy.
    pub dst_stage: Stage,
}

/// Access and stage to wait for before leaving layout `layout`, for the
/// layouts a copy can start from.
pub open spec fn copy_source(layout: ImageLayout) -> Option<(Access, Stage)> {
    match layout {
        ImageLayout::Undefined => Some((Access::Nothing, Stage::TopOfPipe)),
        ImageLayout::TransferSrc => Some((Access::TransferRead, Stage::Transfer)),
        ImageLayout::TransferDst => Some((Access::TransferWrite, Stage::Transfer)),
        ImageLayout::PresentSrc => Some((Access::MemoryRead, Stage::BottomOfPipe)),
        _ => None,
    }
}

/// Plans the barriers of copying a `width` by `height` RGBA8 buffer into an
/// image in layout `layout` that must end in `final_layout` (transfer
/// source or presentation); fails with `BadTarget` otherwise.
pub fn copy_barriers(width: u32, height: u32, layout: ImageLayout, final_layout: ImageLayout) -> (res: Result<
    CopyBarriers,
    Error,
>)
    ensures
        res is Ok <==> width > 0 && height > 0 && rgba_bytes(width, height) <= u32::MAX && copy_source(layout) is Some
            && (final_layout == ImageLayout::TransferSrc || final_layout == ImageLayout::PresentSrc),
        res is Err ==> res == Err::<CopyBarriers, Error>(Error::BadTarget),
        res matches Ok(b) ==> {
            &&& (b.src_access, b.src_stage) == copy_source(layout)->0
            &&& b.dst_access == if final_layout == ImageLayout::TransferSrc {
                Access::TransferRead
            } else {
                Access::MemoryRead
            }
            &&& b.dst_stage == if final_layout == ImageLayout::TransferSrc {
                Stage::Transfer
            } else {
                Stage::BottomOfPipe
            }
        },
{
    if width == 0 || height == 0 {
        return Err(Error::BadTarget);
    }
    let pixels = match width.checked_mul(height) {
        Some(p) => p,
        None => {
            proof {
                assert(width * height * 4 > u32::MAX) by (nonlinear_arith)
                    requires width * height > u32::MAX;
            }
            return Err(Error::BadTarget);
        },
    };
    match pixels.checked_mul(4) {
        Some(_) => {},
        None => return Err(Error::BadTarget),
    }
    let (src_access, src_stage) = match layout {
        ImageLayout::Undefined => (Access::Nothing, Stage::TopOfPipe),
        ImageLayout::TransferSrc => (Access::TransferRead, Stage::Transfer),
        ImageLayout::TransferDst => (Access::TransferWrite, Stage::Transfer),
        ImageLayout::PresentSrc => (Access::MemoryRead, Stage::BottomOfPipe),
        _ => return Err(Error::BadTarget),
    };
    match final_layout {
        ImageLayout::TransferSrc => Ok(
            CopyBarriers { src_access, src_stage, dst_access: Access::TransferRead, dst_stage: Stage::Transfer },
        ),
        ImageLayout::PresentSrc => Ok(
            CopyBarriers { src_access, src_stage, dst_access: Access::MemoryRead, dst_stage: Stage::BottomOfPipe },
        ),
        _ => Err(Error::BadTarget),
    }
}

/// Access and stage to wait for before clearing a group-rendered target that
/// starts in `layout`.
pub fn clear_source(layout: ImageLayout) -> (res: Result<(Access, Stage), Error>)
    ensures
        res is Ok <==> layout == ImageLayout::Undefined || layout == ImageLayout::PresentSrc || layout
            == ImageLayout::TransferSrc,
        res is Err ==> res == Err::<(Access, Stage), Error>(Error::BadTarget),
        layout == ImageLayout::Undefined ==> res == Ok::<(Access, Stage), Error>((Access::Nothing, Stage::TopOfPipe)),
        layout == ImageLayout::PresentSrc ==> res == Ok::<(Access, Stage), Error>((Access::MemoryRead, Stage::BottomOfPipe)),
        layout == ImageLayout::TransferSrc ==> res == Ok::<(Access, Stage), Error>((Access::TransferRead, Stage::Transfer)),
{
    match layout {
        ImageLayout::Undefined => Ok((Access::Nothing, Stage::TopOfPipe)),
        ImageLayout::PresentSrc => Ok((Access::MemoryRead, Stage::BottomOfPipe)),
        ImageLayout::TransferSrc => Ok((Access::TransferRead, Stage::Transfer)),
        _ => Err(Error::BadTarget),
    }
}

/// Transition after a render pass into `final_layout`: none when the image
/// stays a color attachment, else the stage and access that follow.
pub fn final_transition(final_layout: ImageLayout) -> (res: Result<Option<(Stage, Access)>, Error>)
    ensures
        res is Ok <==> final_layout == ImageLayout::ColorAttachment || final_layout == ImageLayout::TransferSrc
            || final_layout == ImageLayout::PresentSrc,
        res is Err ==> res == Err::<Option<(Stage, Access)>, Error>(Error::BadTarget),
        final_layout == ImageLayout::ColorAttachment ==> res == Ok::<Option<(Stage, Access)>, Error>(None),
        final_layout == ImageLayout::TransferSrc ==> res == Ok::<Option<(Stage, Access)>, Error>(
            Some((Stage::Transfer, Access::TransferRead)),
        ),
        final_layout == ImageLayout::PresentSrc ==> res == Ok::<Option<(Stage, Access)>, Error>(
            Some((Stage::BottomOfPipe, Access::Nothing)),
        ),
{
    match final_layout {
        ImageLayout::ColorAttachment => Ok(None),
        ImageLayout::TransferSrc => Ok(Some((Stage::Transfer, Access::TransferRead))),
        ImageLayout::PresentSrc => Ok(Some((Stage::BottomOfPipe, Access::Nothing))),
        _ => Err(Error::BadTarget),
    }
}

} // verus!
