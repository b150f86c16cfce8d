//! Detecting click targets in a captured frame.
//!
//! The image operations themselves (edges, dilation, contours) belong to the
//! program; what goes into them and what is made of their result is here.

use crate::areas::TargetArea;
use crate::contours::{
    bounded, filter_rects, filter_rects_size_only, hierarchy_filter, law_hierarchy_filter,
    size_filter, walkable, ContourLinks, LogicalRect, RECT_LIMIT, SCALE_LIMIT,
};
use crate::double::{
    double, mantissa, places, to_double, to_double_quotient, to_power, to_quotient, unit_bits,
    Quotient, BITS52, BITS53,
};
use crate::fixed::{clamp, div_nearest, nearest_i32};
use crate::text::{decimal, lowered, same, to_ascii_lowercase, to_decimal, trim, trimmed};
use crate::wayland::{Monitor, Transform};
use vstd::arithmetic::power2::{
    lemma2_to64, lemma2_to64_rest, lemma_pow2_adds, lemma_pow2_strictly_increases, pow2,
};
use vstd::prelude::*;
use vstd::string::*;

verus! {

/// The order of the four bytes of a pixel.
#[derive(Clone, Copy, Debug, PartialEq, Eq, Structural)]
pub enum ShmFormat {
    Argb8888,
    Xrgb8888,
    Abgr8888,
    Xbgr8888,
    Rgba8888,
    Rgbx8888,
    Bgra8888,
    Bgrx8888,
    Other,
}

/// A picture of an output.
#[derive(Debug)]
pub struct CapturedFrame {
    pub width: i32,
    pub height: i32,
    pub stride: i32,
    pub format: ShmFormat,
    /// Whether the first row is the bottom one.
    pub y_invert: bool,
    pub data: Vec<u8>,
}

#[derive(Clone, Copy, Debug, PartialEq, Eq, Structural)]
pub enum DetectError {
    /// The frame has no pixels, or rows that overlap.
    InvalidDimensions,
    /// The pixel format is not one that can be read.
    UnsupportedFormat,
    /// There are fewer links than contours.
    HierarchyMismatch,
}

/// An operation on a picture.
#[derive(Clone, Copy, Debug, PartialEq, Eq, Structural)]
pub enum MatOp {
    RotateClockwise,
    Rotate180,
    RotateCounterclockwise,
    FlipHorizontally,
}

/// A rectangle in pixels of the captured frame.
#[derive(Clone, Copy, Debug, PartialEq, Eq, Structural)]
pub struct PixelRect {
    pub x: i32,
    pub y: i32,
    pub width: i32,
    pub height: i32,
}

// ---------------------------------------------------------------------------
// Grayscale
// ---------------------------------------------------------------------------

pub open spec fn valid_dimensions(frame: CapturedFrame) -> bool {
    frame.width > 0 && frame.height > 0 && frame.stride >= 4 * frame.width
}

/// The bytes of a pixel that count as blue, green and red. For ARGB and XRGB
/// the second byte stands for both blue and green.
pub open spec fn channels(format: ShmFormat, p: Seq<u8>) -> Option<(u8, u8, u8)> {
    match format {
        ShmFormat::Argb8888 | ShmFormat::Xrgb8888 => Some((p[1], p[1], p[2])),
        ShmFormat::Abgr8888 | ShmFormat::Xbgr8888 => Some((p[2], p[1], p[0])),
        ShmFormat::Rgba8888 | ShmFormat::Rgbx8888 => Some((p[2], p[1], p[0])),
        ShmFormat::Bgra8888 | ShmFormat::Bgrx8888 => Some((p[0], p[1], p[2])),
        ShmFormat::Other => None,
    }
}

/// The brightness of a pixel, in 256ths weighted 29, 150 and 77.
pub open spec fn luminance(bgr: (u8, u8, u8)) -> u8 {
    ((29 * bgr.0 + 150 * bgr.1 + 77 * bgr.2) / 256) as u8
}

/// The four bytes of the pixel in column `x` of row `y`.
pub open spec fn pixel(frame: CapturedFrame, x: int, y: int) -> Seq<u8> {
    let at = y * frame.stride + x * 4;
    frame.data@.subrange(at, at + 4)
}

/// The row of the frame that is row `y` of the picture, counted from the top.
pub open spec fn source_row(frame: CapturedFrame, y: int) -> int {
    if frame.y_invert {
        frame.height - 1 - y
    } else {
        y
    }
}

/// The brightness of every pixel, row by row from the top.
pub open spec fn gray(frame: CapturedFrame) -> Seq<u8> {
    Seq::new(
        (frame.width * frame.height) as nat,
        |k: int|
            luminance(
                channels(
                    frame.format,
                    pixel(
                        frame,
                        k % frame.width as int,
                        source_row(frame, k / frame.width as int),
                    ),
                )->0,
            ),
    )
}

fn pixel_channels(format: ShmFormat, data: &Vec<u8>, at: usize) -> (r: Option<(u8, u8, u8)>)
    requires
        at + 4 <= data.len(),
    ensures
        r == channels(format, data@.subrange(at as int, at + 4)),
{
    match format {
        ShmFormat::Argb8888 | ShmFormat::Xrgb8888 => Some(
            (data[at + 1], data[at + 1], data[at + 2]),
        ),
        ShmFormat::Abgr8888 | ShmFormat::Xbgr8888 => Some((data[at + 2], data[at + 1], data[at])),
        ShmFormat::Rgba8888 | ShmFormat::Rgbx8888 => Some((data[at + 2], data[at + 1], data[at])),
        ShmFormat::Bgra8888 | ShmFormat::Bgrx8888 => Some((data[at], data[at + 1], data[at + 2])),
        ShmFormat::Other => None,
    }
}

/// The frame in shades of gray, one byte a pixel, row by row from the top.
pub fn grayscale_from_frame(frame: &CapturedFrame) -> (r: Result<Vec<u8>, DetectError>)
    requires
        valid_dimensions(*frame) && frame.format != ShmFormat::Other ==> frame.data@.len() >= (
        frame.height - 1) * frame.stride + 4 * frame.width,
        valid_dimensions(*frame) ==> frame.data@.len() >= 4,
    ensures
        r == Err::<Vec<u8>, DetectError>(DetectError::InvalidDimensions)
            <==> !valid_dimensions(*frame),
        r == Err::<Vec<u8>, DetectError>(DetectError::UnsupportedFormat)
            <==> valid_dimensions(*frame) && frame.format == ShmFormat::Other,
        r matches Ok(bytes) ==> bytes@ == gray(*frame),
        valid_dimensions(*frame) && frame.format != ShmFormat::Other ==> r is Ok,
{
    if frame.width <= 0 || frame.height <= 0 || (frame.stride as i64) < 4 * (frame.width as i64) {
        return Err(DetectError::InvalidDimensions);
    }
    if frame.format == ShmFormat::Other {
        return Err(DetectError::UnsupportedFormat);
    }
    let width: usize = frame.width as usize;
    let height: usize = frame.height as usize;
    let stride: usize = frame.stride as usize;
    let len: usize = frame.data.len();
    let mut bytes: Vec<u8> = Vec::new();
    let mut y: usize = 0;
    while y < height
        invariant
            y <= height,
            width == frame.width,
            height == frame.height,
            stride == frame.stride,
            valid_dimensions(*frame),
            len == frame.data@.len(),
            len >= (height - 1) * stride + 4 * width,
            bytes@.len() == y * width,
            bytes@ == gray(*frame).take(y * width),
            y > 0 ==> frame.format != ShmFormat::Other,
            y * width <= width * height,
        decreases height - y,
    {
        let mut x: usize = 0;
        let from: usize = if frame.y_invert {
            height - 1 - y
        } else {
            y
        };
        proof {
            lemma_row_inside(from as int, stride as int, height as int, width as int);
            lemma_row_inside(y as int, stride as int, height as int, width as int);
        }
        let row: usize = from * stride;
        while x < width
            invariant
                x <= width,
                y < height,
                width == frame.width,
                height == frame.height,
                stride == frame.stride,
                valid_dimensions(*frame),
                from == source_row(*frame, y as int),
                row == from * stride,
                len == frame.data@.len(),
                row + 4 * width <= len,
                bytes@.len() == y * width + x,
                bytes@ == gray(*frame).take(y * width + x),
                x > 0 || y > 0 ==> frame.format != ShmFormat::Other,
                y * width + width <= width * height,
            decreases width - x,
        {
            let at: usize = row + x * 4;
            match pixel_channels(frame.format, &frame.data, at) {
                None => {
                    return Err(DetectError::UnsupportedFormat);
                },
                Some(bgr) => {
                    let sum: u32 = 29 * bgr.0 as u32 + 150 * bgr.1 as u32 + 77 * bgr.2 as u32;
                    let lum: u8 = (sum / 256) as u8;
                    let ghost k = y * width + x;
                    proof {
                        vstd::arithmetic::div_mod::lemma_fundamental_div_mod_converse(
                            k,
                            width as int,
                            y as int,
                            x as int,
                        );
                        assert(gray(*frame).take(k + 1) =~= gray(*frame).take(k).push(
                            gray(*frame)[k],
                        ));
                    }
                    bytes.push(lum);
                },
            }
            x = x + 1;
        }
        proof {
            assert((y + 1) * width == y * width + width) by (nonlinear_arith);
            assert((y + 1) * width <= width * height) by (nonlinear_arith)
                requires
                    y + 1 <= height,
            ;
        }
        y = y + 1;
    }
    proof {
        assert(height * width == width * height) by (nonlinear_arith);
        assert(gray(*frame).take(width * height) =~= gray(*frame));
    }
    Ok(bytes)
}

proof fn lemma_row_inside(y: int, stride: int, height: int, width: int)
    requires
        0 <= y < height,
        stride >= 4 * width,
        width > 0,
    ensures
        0 <= y * stride <= (height - 1) * stride,
        y * width + width <= width * height,
{
    assert(0 <= y * stride <= (height - 1) * stride) by (nonlinear_arith)
        requires
            0 <= y <= height - 1,
            stride >= 0,
    ;
    assert(y * width + width <= width * height) by (nonlinear_arith)
        requires
            y + 1 <= height,
            width > 0,
    ;
}

// ---------------------------------------------------------------------------
// Orientation and scale
// ---------------------------------------------------------------------------

/// The operations that turn a picture of an output upright, in order.
pub open spec fn upright_ops(transform: Transform) -> Seq<MatOp> {
    match transform {
        Transform::Normal => Seq::empty(),
        Transform::_90 => seq![MatOp::RotateClockwise],
        Transform::_180 => seq![MatOp::Rotate180],
        Transform::_270 => seq![MatOp::RotateCounterclockwise],
        Transform::Flipped => seq![MatOp::FlipHorizontally],
        Transform::Flipped90 => seq![MatOp::RotateClockwise, MatOp::FlipHorizontally],
        Transform::Flipped180 => seq![MatOp::Rotate180, MatOp::FlipHorizontally],
        Transform::Flipped270 => seq![MatOp::RotateCounterclockwise, MatOp::FlipHorizontally],
    }
}

/// The operations that turn a picture of an output upright, in order.
pub fn apply_transform(transform: Transform) -> (ops: Vec<MatOp>)
    ensures
        ops@ == upright_ops(transform),
{
    let mut ops: Vec<MatOp> = Vec::new();
    match transform {
        Transform::Normal | Transform::Flipped => {},
        Transform::_90 | Transform::Flipped90 => {
            ops.push(MatOp::RotateClockwise);
        },
        Transform::_180 | Transform::Flipped180 => {
            ops.push(MatOp::Rotate180);
        },
        Transform::_270 | Transform::Flipped270 => {
            ops.push(MatOp::RotateCounterclockwise);
        },
    }
    match transform {
        Transform::Flipped | Transform::Flipped90 | Transform::Flipped180
        | Transform::Flipped270 => {
            ops.push(MatOp::FlipHorizontally);
        },
        _ => {},
    }
    ops
}

/// The height that logical coordinates are scaled by.
pub open spec fn scale_height(monitor_height: int) -> int {
    if monitor_height < 1 {
        1
    } else {
        monitor_height
    }
}

/// The number of frame rows to a logical row, as a double: its bits, and how many
/// of them stand behind the point.
pub open spec fn scale_mantissa(rows: int, monitor_height: int) -> int {
    mantissa(rows, scale_height(monitor_height))
}

pub open spec fn scale_places(rows: int, monitor_height: int) -> nat {
    places(rows, scale_height(monitor_height))
}

/// `factor / 2` times the scale as a double, rounded, and at least one.
pub open spec fn kernel_length(factor: int, rows: int, monitor_height: int) -> int {
    let product = double(factor * scale_mantissa(rows, monitor_height), 1);
    let n = div_nearest(product, pow2(scale_places(rows, monitor_height) + 1) as int);
    clamp(n, 1, i32::MAX as int)
}

fn to_scale(rows: i32, monitor_height: i32) -> (q: Quotient)
    requires
        rows > 0,
    ensures
        q.mantissa == scale_mantissa(rows as int, monitor_height as int),
        q.places == scale_places(rows as int, monitor_height as int),
        BITS52 <= q.mantissa <= BITS53,
        21 <= q.places <= 84,
{
    let height: i32 = if monitor_height < 1 {
        1
    } else {
        monitor_height
    };
    to_quotient(rows, height)
}

fn to_kernel_length(factor: i128, scale: &Quotient) -> (r: i32)
    requires
        0 < factor < 16,
        BITS52 <= scale.mantissa <= BITS53,
        21 <= scale.places <= 84,
    ensures
        r == clamp(
            div_nearest(double(factor * scale.mantissa, 1), pow2((scale.places + 1) as nat) as int),
            1,
            i32::MAX as int,
        ),
{
    assert(0 <= factor * scale.mantissa <= 16 * BITS53) by (nonlinear_arith)
        requires
            0 < factor < 16,
            0 <= scale.mantissa <= BITS53,
    ;
    let a: i128 = to_double(factor * scale.mantissa);
    let b: i128 = to_power(scale.places + 1);
    let q: i128 = (2 * a + b) / (2 * b);
    if q > i32::MAX as i128 {
        i32::MAX
    } else if q < 1 {
        1
    } else {
        q as i32
    }
}

/// The width and height of the dilation kernel: three and a half by two and a
/// half logical pixels.
pub fn kernel_size(rows: i32, monitor_height: i32) -> (size: (i32, i32))
    requires
        rows > 0,
    ensures
        size.0 == kernel_length(7, rows as int, monitor_height as int),
        size.1 == kernel_length(5, rows as int, monitor_height as int),
{
    let scale: Quotient = to_scale(rows, monitor_height);
    (to_kernel_length(7, &scale), to_kernel_length(5, &scale))
}

/// The units that make a logical pixel. They are so small that the scale divides
/// every whole number of frame pixels to a number of at least 53 bits.
pub open spec fn grain(rows: int, monitor_height: int) -> int {
    pow2((unit_bits() - scale_places(rows, monitor_height)) as nat) as int
}

/// A number of frame pixels divided by the scale, as a double.
pub open spec fn logical_length(v: i32, rows: int, monitor_height: int) -> int {
    double(v * pow2(unit_bits()), scale_mantissa(rows, monitor_height))
}

/// A rectangle of the frame in logical coordinates.
pub open spec fn logical(r: PixelRect, rows: int, monitor_height: int) -> LogicalRect {
    LogicalRect {
        x: logical_length(r.x, rows, monitor_height) as i128,
        y: logical_length(r.y, rows, monitor_height) as i128,
        w: logical_length(r.width, rows, monitor_height) as i128,
        h: logical_length(r.height, rows, monitor_height) as i128,
    }
}

pub open spec fn logicals(rects: Seq<PixelRect>, rows: int, monitor_height: int) -> Seq<
    LogicalRect,
> {
    Seq::new(rects.len(), |i: int| logical(rects[i], rows, monitor_height))
}

fn to_grain(scale: &Quotient) -> (g: i128)
    requires
        21 <= scale.places <= 84,
    ensures
        g == pow2((unit_bits() - scale.places) as nat),
        0 < g <= SCALE_LIMIT,
{
    proof {
        lemma2_to64();
        lemma2_to64_rest();
        lemma_pow2_adds(53, 32);
        if scale.places > 21 {
            lemma_pow2_strictly_increases((106 - scale.places) as nat, 85);
        }
    }
    to_power(106 - scale.places)
}

fn to_logicals(rects: &Vec<PixelRect>, rows: i32, monitor_height: i32) -> (r: Vec<LogicalRect>)
    requires
        rows > 0,
    ensures
        r@ == logicals(rects@, rows as int, monitor_height as int),
        forall|i: int| 0 <= i < r.len() ==> bounded(#[trigger] r[i]),
{
    let scale: Quotient = to_scale(rows, monitor_height);
    let mut out: Vec<LogicalRect> = Vec::new();
    let mut i: usize = 0;
    while i < rects.len()
        invariant
            i <= rects.len(),
            scale.mantissa == scale_mantissa(rows as int, monitor_height as int),
            BITS52 <= scale.mantissa <= BITS53,
            out@ == logicals(rects@, rows as int, monitor_height as int).take(i as int),
            forall|j: int| 0 <= j < out.len() ==> bounded(#[trigger] out[j]),
        decreases rects.len() - i,
    {
        let r: PixelRect = rects[i];
        out.push(
            LogicalRect {
                x: to_double_quotient(r.x, scale.mantissa),
                y: to_double_quotient(r.y, scale.mantissa),
                w: to_double_quotient(r.width, scale.mantissa),
                h: to_double_quotient(r.height, scale.mantissa),
            },
        );
        i = i + 1;
    }
    out
}

// ---------------------------------------------------------------------------
// Choosing targets
// ---------------------------------------------------------------------------

/// The number of rectangles that a filter leaves in.
pub open spec fn kept(filtered: Seq<bool>) -> nat
    decreases filtered.len(),
{
    if filtered.len() == 0 {
        0
    } else if filtered.last() {
        kept(filtered.drop_last())
    } else {
        kept(filtered.drop_last()) + 1
    }
}

/// The number of rectangles that a filter leaves in.
pub fn count_kept(filtered: &Vec<bool>) -> (n: usize)
    ensures
        n == kept(filtered@),
        n <= filtered.len(),
{
    let mut n: usize = 0;
    let mut i: usize = 0;
    while i < filtered.len()
        invariant
            i <= filtered.len(),
            n <= i,
            n == kept(filtered@.take(i as int)),
        decreases filtered.len() - i,
    {
        assert(filtered@.take(i + 1).drop_last() =~= filtered@.take(i as int));
        if !filtered[i] {
            n = n + 1;
        }
        i = i + 1;
    }
    assert(filtered@.take(i as int) =~= filtered@);
    n
}

/// Whether the contour forest left so little of many rectangles, fewer than 80
/// or than eight in a hundred, that size alone should decide.
pub open spec fn over_pruned(total: nat, kept: nat) -> bool {
    total > 120 && (kept < 80 || 100 * kept < 8 * total)
}

/// What the filters said of each rectangle.
pub struct Verdicts {
    pub primary: Vec<bool>,
    pub size_only: Vec<bool>,
    pub used_fallback: bool,
}

impl Verdicts {
    /// The filter that counts.
    pub open spec fn chosen(self) -> Seq<bool> {
        if self.used_fallback {
            self.size_only@
        } else {
            self.primary@
        }
    }

    /// The filter that counts.
    pub fn filtered(&self) -> (f: &Vec<bool>)
        ensures
            f@ == self.chosen(),
    {
        if self.used_fallback {
            &self.size_only
        } else {
            &self.primary
        }
    }
}

/// The filter that counts for rectangles of the given scale and forest.
pub open spec fn target_filter(
    rects: Seq<LogicalRect>,
    scale: int,
    h: Seq<ContourLinks>,
) -> Seq<bool> {
    let primary = hierarchy_filter(rects, scale, h);
    if over_pruned(rects.len(), kept(primary)) {
        size_filter(rects, scale)
    } else {
        primary
    }
}

fn judge(rects: &Vec<LogicalRect>, scale: i128, hierarchy: &Vec<ContourLinks>) -> (v: Verdicts)
    requires
        0 < scale <= SCALE_LIMIT,
        rects.len() <= i32::MAX,
        walkable(hierarchy@, rects@.len()),
        forall|i: int| 0 <= i < rects.len() ==> bounded(#[trigger] rects[i]),
    ensures
        v.primary@ == hierarchy_filter(rects@, scale as int, hierarchy@),
        v.size_only@ == size_filter(rects@, scale as int),
        v.used_fallback == over_pruned(rects@.len(), kept(v.primary@)),
        v.primary@.len() == rects@.len(),
{
    let primary: Vec<bool> = filter_rects(rects, scale, hierarchy);
    let size_only: Vec<bool> = filter_rects_size_only(rects, scale);
    let kept_primary: u64 = count_kept(&primary) as u64;
    let total: u64 = rects.len() as u64;
    let used_fallback: bool = total > 120 && (kept_primary < 80 || 100 * kept_primary < 8 * total);
    Verdicts { primary, size_only, used_fallback }
}

/// Where an edge lies once it is moved to the monitor's place, in the arithmetic
/// of doubles, and rounded to whole logical pixels.
pub open spec fn placed(edge: int, scale: int, offset: int) -> int {
    clamp(
        div_nearest(double(edge + offset * scale, 1), scale),
        i32::MIN as int,
        i32::MAX as int,
    )
}

/// The area of a rectangle, moved to the monitor's place and rounded to whole
/// logical pixels.
pub open spec fn area_of(r: LogicalRect, scale: int, x: int, y: int) -> TargetArea {
    TargetArea {
        x: placed(r.x as int, scale, x) as i32,
        y: placed(r.y as int, scale, y) as i32,
        w: clamp(div_nearest(r.w as int, scale), i32::MIN as int, i32::MAX as int) as i32,
        h: clamp(div_nearest(r.h as int, scale), i32::MIN as int, i32::MAX as int) as i32,
    }
}

/// The areas of the first `k` rectangles that are left in and not empty.
pub open spec fn areas_of(
    rects: Seq<LogicalRect>,
    filtered: Seq<bool>,
    scale: int,
    x: int,
    y: int,
    k: nat,
) -> Seq<TargetArea>
    decreases k,
{
    if k == 0 {
        Seq::empty()
    } else {
        let before = areas_of(rects, filtered, scale, x, y, (k - 1) as nat);
        let area = area_of(rects[k - 1], scale, x, y);
        if !filtered[k - 1] && area.w > 0 && area.h > 0 {
            before.push(area)
        } else {
            before
        }
    }
}

fn to_placed(edge: i128, scale: i128, offset: i32) -> (r: i32)
    requires
        0 < scale <= SCALE_LIMIT,
        -RECT_LIMIT <= edge <= RECT_LIMIT,
    ensures
        r == placed(edge as int, scale as int, offset as int),
{
    assert(-0x8000_0000 * SCALE_LIMIT <= offset * scale <= 0x8000_0000 * SCALE_LIMIT)
        by (nonlinear_arith)
        requires
            -0x8000_0000 <= offset <= 0x8000_0000,
            0 < scale <= SCALE_LIMIT,
    ;
    let v: i128 = to_double(edge + offset as i128 * scale);
    nearest_i32(v, scale)
}

fn to_area(r: &LogicalRect, scale: i128, x: i32, y: i32) -> (a: TargetArea)
    requires
        0 < scale <= SCALE_LIMIT,
        bounded(*r),
    ensures
        a == area_of(*r, scale as int, x as int, y as int),
{
    TargetArea {
        x: to_placed(r.x, scale, x),
        y: to_placed(r.y, scale, y),
        w: nearest_i32(r.w, scale),
        h: nearest_i32(r.h, scale),
    }
}

/// The areas that detection finds.
pub open spec fn detected(
    rects: Seq<PixelRect>,
    h: Seq<ContourLinks>,
    rows: int,
    monitor: Monitor,
) -> Seq<TargetArea> {
    let logical_rects = logicals(rects, rows, monitor.height as int);
    let scale = grain(rows, monitor.height as int);
    areas_of(
        logical_rects,
        target_filter(logical_rects, scale, h),
        scale,
        monitor.x as int,
        monitor.y as int,
        rects.len(),
    )
}

/// The detected targets, and what the filters said on the way.
pub struct Detection {
    pub areas: Vec<TargetArea>,
    pub verdicts: Verdicts,
}

/// The areas of the contours that are targets, in the compositor's logical
/// space. `rects` are the bounding boxes of the contours in a frame of the
/// monitor with `rows` rows, and `hierarchy` their links.
pub fn detect_target_areas(
    rects: &Vec<PixelRect>,
    hierarchy: &Vec<ContourLinks>,
    rows: i32,
    monitor: &Monitor,
) -> (r: Result<Detection, DetectError>)
    requires
        rows > 0,
        rects.len() <= i32::MAX,
        hierarchy.len() >= rects.len() ==> walkable(hierarchy@, rects@.len()),
    ensures
        hierarchy.len() < rects.len() ==> r == Err::<Detection, DetectError>(
            DetectError::HierarchyMismatch,
        ),
        hierarchy.len() >= rects.len() ==> {
            let logical_rects = logicals(rects@, rows as int, monitor.height as int);
            let scale = grain(rows as int, monitor.height as int);
            &&& r matches Ok(d)
            &&& d.areas@ == detected(rects@, hierarchy@, rows as int, *monitor)
            &&& d.verdicts.primary@ == hierarchy_filter(logical_rects, scale, hierarchy@)
            &&& d.verdicts.size_only@ == size_filter(logical_rects, scale)
            &&& d.verdicts.used_fallback == over_pruned(rects@.len(), kept(d.verdicts.primary@))
            &&& d.verdicts.chosen() == target_filter(logical_rects, scale, hierarchy@)
        },
{
    if hierarchy.len() < rects.len() {
        return Err(DetectError::HierarchyMismatch);
    }
    let logical_rects: Vec<LogicalRect> = to_logicals(rects, rows, monitor.height);
    let scale: i128 = to_grain(&to_scale(rows, monitor.height));
    let verdicts: Verdicts = judge(&logical_rects, scale, hierarchy);
    let filtered: &Vec<bool> = verdicts.filtered();
    let mut areas: Vec<TargetArea> = Vec::new();
    let mut i: usize = 0;
    while i < logical_rects.len()
        invariant
            i <= logical_rects.len(),
            0 < scale <= SCALE_LIMIT,
            filtered@.len() == logical_rects@.len(),
            forall|j: int| 0 <= j < logical_rects.len() ==> bounded(#[trigger] logical_rects[j]),
            areas@ == areas_of(
                logical_rects@,
                filtered@,
                scale as int,
                monitor.x as int,
                monitor.y as int,
                i as nat,
            ),
        decreases logical_rects.len() - i,
    {
        if !filtered[i] {
            let area: TargetArea = to_area(&logical_rects[i], scale, monitor.x, monitor.y);
            if area.w > 0 && area.h > 0 {
                areas.push(area);
            }
        }
        i = i + 1;
    }
    Ok(Detection { areas, verdicts })
}

// ---------------------------------------------------------------------------
// Debug output
// ---------------------------------------------------------------------------

/// Whether the value of the debug variable asks for debug output.
pub fn detect_debug_enabled(value: Option<&str>) -> (b: bool)
    ensures
        b == (match value {
            Some(v) => {
                let word = lowered(trimmed(v@));
                word == "1"@ || word == "true"@ || word == "yes"@
            },
            None => false,
        }),
{
    match value {
        Some(v) => {
            let t: String = trim(v);
            let word: String = to_ascii_lowercase(t.as_str());
            same(word.as_str(), "1") || same(word.as_str(), "true") || same(word.as_str(), "yes")
        },
        None => false,
    }
}

/// The directory for debug output: the one asked for, if its name is not blank,
/// and otherwise one named after the time in seconds and the process.
pub fn debug_dump_dir(asked: Option<&str>, seconds: u64, process: u32) -> (dir: String)
    ensures
        dir@ == (match asked {
            Some(name) if trimmed(name@).len() > 0 => name@,
            _ => "/tmp/warpd-rs-detect-"@ + decimal(seconds as nat) + "-"@ + decimal(
                process as nat,
            ),
        }),
{
    if let Some(name) = asked {
        let t: String = trim(name);
        if !t.as_str().is_empty() {
            return name.to_owned();
        }
    }
    let mut dir: String = "/tmp/warpd-rs-detect-".to_owned();
    dir.append(to_decimal(seconds).as_str());
    dir.append("-");
    dir.append(to_decimal(process as u64).as_str());
    dir
}

// ---------------------------------------------------------------------------
// What detection guarantees
// ---------------------------------------------------------------------------

proof fn lemma_areas_sized(
    rects: Seq<LogicalRect>,
    filtered: Seq<bool>,
    scale: int,
    x: int,
    y: int,
    k: nat,
    i: int,
)
    requires
        scale > 0,
        k <= rects.len(),
        forall|j: int|
            0 <= j < k && !#[trigger] filtered[j] ==> !size_filter(rects, scale)[j],
        0 <= i < areas_of(rects, filtered, scale, x, y, k).len(),
    ensures
        7 <= areas_of(rects, filtered, scale, x, y, k)[i].w <= 500,
        3 <= areas_of(rects, filtered, scale, x, y, k)[i].h <= 50,
    decreases k,
{
    if k > 0 {
        let before = areas_of(rects, filtered, scale, x, y, (k - 1) as nat);
        if i < before.len() {
            lemma_areas_sized(rects, filtered, scale, x, y, (k - 1) as nat, i);
        } else {
            let r = rects[k - 1];
            assert(!filtered[k - 1]);
            lemma_nearest_between(r.w as int, scale, 7, 500);
            lemma_nearest_between(r.h as int, scale, 3, 50);
        }
    }
}

proof fn lemma_nearest_between(v: int, scale: int, lo: int, hi: int)
    requires
        scale > 0,
        0 <= lo,
        lo * scale < v < hi * scale,
    ensures
        lo <= div_nearest(v, scale) <= hi,
{
    let q = (2 * v + scale) / (2 * scale);
    assert(lo <= q <= hi) by (nonlinear_arith)
        requires
            scale > 0,
            lo * scale < v < hi * scale,
            q == (2 * v + scale) / (2 * scale),
    ;
}

/// Every target that detection finds is 7 to 500 logical pixels wide and 3 to
/// 50 high.
pub proof fn law_targets_sized(
    rects: Seq<PixelRect>,
    h: Seq<ContourLinks>,
    rows: int,
    monitor: Monitor,
    i: int,
)
    requires
        rows > 0,
        rects.len() <= i32::MAX,
        walkable(h, rects.len()),
        0 <= i < detected(rects, h, rows, monitor).len(),
    ensures
        7 <= detected(rects, h, rows, monitor)[i].w <= 500,
        3 <= detected(rects, h, rows, monitor)[i].h <= 50,
{
    let ls = logicals(rects, rows, monitor.height as int);
    let scale = grain(rows, monitor.height as int);
    vstd::arithmetic::power2::lemma_pow2_pos(
        (unit_bits() - scale_places(rows, monitor.height as int)) as nat,
    );
    let f = target_filter(ls, scale, h);
    assert forall|j: int| 0 <= j < ls.len() && !#[trigger] f[j] implies !size_filter(
        ls,
        scale,
    )[j] by {
        law_hierarchy_filter(ls, scale, h, j);
    }
    lemma_areas_sized(ls, f, scale, monitor.x as int, monitor.y as int, rects.len(), i);
}

} // verus!
