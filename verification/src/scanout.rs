//! Pixel layouts, and copying a frame into the framebuffer of a sink.

use vstd::arithmetic::div_mod::*;
use vstd::prelude::*;

verus! {

/// The code that four characters make, as a number.
pub open spec fn fourcc_of(a: u8, b: u8, c: u8, d: u8) -> int {
    a + b * 0x100 + c * 0x1_0000 + d * 0x100_0000
}

/// The code that four characters make.
pub fn drm_fourcc(a: u8, b: u8, c: u8, d: u8) -> (r: u32)
    ensures
        r == fourcc_of(a, b, c, d),
{
    a as u32 + b as u32 * 0x100 + c as u32 * 0x1_0000 + d as u32 * 0x100_0000
}

/// `XR24`
pub const DRM_FORMAT_XRGB8888: u32 = 0x3432_5258;

/// `AR24`
pub const DRM_FORMAT_ARGB8888: u32 = 0x3432_5241;

/// `XB24`
pub const DRM_FORMAT_XBGR8888: u32 = 0x3432_4258;

/// `AB24`
pub const DRM_FORMAT_ABGR8888: u32 = 0x3432_4241;

/// `RG24`
pub const DRM_FORMAT_RGB888: u32 = 0x3432_4752;

/// `RG16`
pub const DRM_FORMAT_RGB565: u32 = 0x3631_4752;

/// The formats are the codes that their characters make.
pub proof fn formats_are_fourccs()
    ensures
        DRM_FORMAT_XRGB8888 == fourcc_of(88, 82, 50, 52),
        DRM_FORMAT_ARGB8888 == fourcc_of(65, 82, 50, 52),
        DRM_FORMAT_XBGR8888 == fourcc_of(88, 66, 50, 52),
        DRM_FORMAT_ABGR8888 == fourcc_of(65, 66, 50, 52),
        DRM_FORMAT_RGB888 == fourcc_of(82, 71, 50, 52),
        DRM_FORMAT_RGB565 == fourcc_of(82, 71, 49, 54),
{
}

#[derive(Clone, Copy, Debug, PartialEq, Eq, Structural)]
pub enum PixelLayout {
    /// B, G, R, X/A in memory.
    BlueFirst8888,
    /// R, G, B, X/A in memory.
    RedFirst8888,
    /// B, G, R in memory.
    BlueFirst888,
    /// Five, six and five bits in two bytes, the low byte first.
    Rgb565,
}

impl PixelLayout {
    /// Bytes of one pixel.
    pub open spec fn bpp(self) -> int {
        match self {
            PixelLayout::BlueFirst8888 | PixelLayout::RedFirst8888 => 4,
            PixelLayout::BlueFirst888 => 3,
            PixelLayout::Rgb565 => 2,
        }
    }

    /// Bytes of one pixel.
    pub fn bytes_per_pixel(self) -> (r: usize)
        ensures
            r == self.bpp(),
    {
        match self {
            PixelLayout::BlueFirst8888 | PixelLayout::RedFirst8888 => 4,
            PixelLayout::BlueFirst888 => 3,
            PixelLayout::Rgb565 => 2,
        }
    }
}

/// The layout of a format.
pub open spec fn layout_of(fourcc: u32) -> Option<PixelLayout> {
    if fourcc == DRM_FORMAT_XRGB8888 || fourcc == DRM_FORMAT_ARGB8888 {
        Some(PixelLayout::BlueFirst8888)
    } else if fourcc == DRM_FORMAT_XBGR8888 || fourcc == DRM_FORMAT_ABGR8888 {
        Some(PixelLayout::RedFirst8888)
    } else if fourcc == DRM_FORMAT_RGB888 {
        Some(PixelLayout::BlueFirst888)
    } else if fourcc == DRM_FORMAT_RGB565 {
        Some(PixelLayout::Rgb565)
    } else {
        None
    }
}

/// The layout of a format.
pub fn pixel_layout(fourcc: u32) -> (r: Option<PixelLayout>)
    ensures
        r == layout_of(fourcc),
{
    if fourcc == DRM_FORMAT_XRGB8888 || fourcc == DRM_FORMAT_ARGB8888 {
        Some(PixelLayout::BlueFirst8888)
    } else if fourcc == DRM_FORMAT_XBGR8888 || fourcc == DRM_FORMAT_ABGR8888 {
        Some(PixelLayout::RedFirst8888)
    } else if fourcc == DRM_FORMAT_RGB888 {
        Some(PixelLayout::BlueFirst888)
    } else if fourcc == DRM_FORMAT_RGB565 {
        Some(PixelLayout::Rgb565)
    } else {
        None
    }
}

/// The parts of a pixel.
#[derive(Clone, Copy, Debug, PartialEq, Eq, Structural)]
pub struct Pixel {
    pub r: u8,
    pub g: u8,
    pub b: u8,
    pub a: u8,
}

/// The pixel whose bytes are those of `s` from `at` on.
pub open spec fn pixel_of(layout: PixelLayout, s: Seq<u8>, at: int) -> Pixel {
    match layout {
        PixelLayout::BlueFirst8888 => Pixel {
            r: s[at + 2],
            g: s[at + 1],
            b: s[at],
            a: s[at + 3],
        },
        PixelLayout::RedFirst8888 => Pixel { r: s[at], g: s[at + 1], b: s[at + 2], a: s[at + 3] },
        PixelLayout::BlueFirst888 => Pixel { r: s[at + 2], g: s[at + 1], b: s[at], a: 255 },
        PixelLayout::Rgb565 => {
            let packed = s[at] + s[at + 1] * 256;
            Pixel {
                r: (packed / 2048 * 255 / 31) as u8,
                g: (packed / 32 % 64 * 255 / 63) as u8,
                b: (packed % 32 * 255 / 31) as u8,
                a: 255,
            }
        },
    }
}

/// A pixel of sixteen bits has its three channels scaled to the whole range of a byte: each is the
/// greatest number that is not above its share of 255, so that none is black at none and full at
/// the most, and more is never darker.
pub proof fn packed_channels_are_scaled(s: Seq<u8>, at: int, r5: int, g6: int, b5: int)
    requires
        0 <= r5 < 32,
        0 <= g6 < 64,
        0 <= b5 < 32,
        s[at] + s[at + 1] * 256 == r5 * 2048 + g6 * 32 + b5,
    ensures
        ({
            let p = pixel_of(PixelLayout::Rgb565, s, at);
            &&& 31 * p.r <= 255 * r5 < 31 * (p.r + 1)
            &&& 63 * p.g <= 255 * g6 < 63 * (p.g + 1)
            &&& 31 * p.b <= 255 * b5 < 31 * (p.b + 1)
            &&& p.a == 255
        }),
{
    let packed = s[at] + s[at + 1] * 256;
    assert(packed / 2048 == r5);
    assert(packed / 32 == r5 * 64 + g6);
    assert(packed / 32 % 64 == g6);
    assert(packed % 32 == b5);
}

/// What each format means: a pixel is a number with its low byte first. In `XR24` and `AR24` its
/// bytes are blue, green, red and the rest, from the lowest on, in `XB24` and `AB24` red, green, blue
/// and the rest, in `RG24` blue, green and red alone; `RG16` has two bytes. There are no others.
pub proof fn formats_say_where_colours_are(fourcc: u32, s: Seq<u8>, at: int)
    ensures
        ({
            let word = s[at] + s[at + 1] * 0x100 + s[at + 2] * 0x1_0000 + s[at + 3] * 0x100_0000;
            let p = pixel_of(layout_of(fourcc)->0, s, at);
            let size = (layout_of(fourcc)->0).bpp();
            if fourcc == 0x3432_5258 || fourcc == 0x3432_5241 {
                &&& layout_of(fourcc) is Some && size == 4
                &&& p.b == word % 256 && p.g == word / 0x100 % 256 && p.r == word / 0x1_0000 % 256
                &&& p.a == word / 0x100_0000
            } else if fourcc == 0x3432_4258 || fourcc == 0x3432_4241 {
                &&& layout_of(fourcc) is Some && size == 4
                &&& p.r == word % 256 && p.g == word / 0x100 % 256 && p.b == word / 0x1_0000 % 256
                &&& p.a == word / 0x100_0000
            } else if fourcc == 0x3432_4752 {
                &&& layout_of(fourcc) is Some && size == 3
                &&& p.b == word % 256 && p.g == word / 0x100 % 256 && p.r == word / 0x1_0000 % 256
                &&& p.a == 255
            } else if fourcc == 0x3631_4752 {
                layout_of(fourcc) == Some(PixelLayout::Rgb565) && size == 2
            } else {
                layout_of(fourcc) is None
            }
        }),
{
    bytes_of_a_word(s[at], s[at + 1], s[at + 2], s[at + 3]);
}

/// The bytes that a number is made of.
proof fn bytes_of_a_word(a: u8, b: u8, c: u8, d: u8)
    ensures
        ({
            let word = a + b * 0x100 + c * 0x1_0000 + d * 0x100_0000;
            &&& word % 256 == a
            &&& word / 0x100 % 256 == b
            &&& word / 0x1_0000 % 256 == c
            &&& word / 0x100_0000 == d
        }),
{
    let word = a + b * 0x100 + c * 0x1_0000 + d * 0x100_0000;
    lemma_fundamental_div_mod_converse(word, 0x100, b + c * 0x100 + d * 0x1_0000, a as int);
    lemma_fundamental_div_mod_converse(
        b + c * 0x100 + d * 0x1_0000,
        0x100,
        c + d * 0x100,
        b as int,
    );
    lemma_fundamental_div_mod_converse(word, 0x1_0000, c + d * 0x100, a + b * 0x100);
    lemma_fundamental_div_mod_converse(c + d * 0x100, 0x100, d as int, c as int);
    lemma_fundamental_div_mod_converse(
        word,
        0x100_0000,
        d as int,
        a + b * 0x100 + c * 0x1_0000,
    );
}

/// Byte `k` of a pixel of four bytes.
pub open spec fn byte_of(layout: PixelLayout, p: Pixel, k: int) -> u8 {
    let blue_first = layout == PixelLayout::BlueFirst8888;
    if k == 0 {
        if blue_first {
            p.b
        } else {
            p.r
        }
    } else if k == 1 {
        p.g
    } else if k == 2 {
        if blue_first {
            p.r
        } else {
            p.b
        }
    } else {
        p.a
    }
}

/// Rows can be converted into that format: its pixels have four bytes.
pub open spec fn is_target(layout: PixelLayout) -> bool {
    layout == PixelLayout::BlueFirst8888 || layout == PixelLayout::RedFirst8888
}

/// Byte `i` of a row of `source` in another layout.
pub open spec fn converted_byte(
    from: PixelLayout,
    to: PixelLayout,
    source: Seq<u8>,
    i: int,
) -> u8 {
    byte_of(to, pixel_of(from, source, i / 4 * from.bpp()), i % 4)
}

/// A row of `width` pixels can be converted.
pub open spec fn convertible(
    source_fourcc: u32,
    target_fourcc: u32,
    width: int,
    source_len: int,
    target_len: int,
) -> bool {
    &&& layout_of(source_fourcc) matches Some(from) && layout_of(target_fourcc) matches Some(to)
        && is_target(to) && width * from.bpp() <= source_len
    &&& width * 4 <= target_len
}

/// The row `target` after `width` pixels of `source` were converted into it.
pub open spec fn converted_row(
    from: PixelLayout,
    to: PixelLayout,
    width: int,
    source: Seq<u8>,
    target: Seq<u8>,
) -> Seq<u8> {
    Seq::new(
        target.len(),
        |i: int|
            if i < width * 4 {
                converted_byte(from, to, source, i)
            } else {
                target[i]
            },
    )
}

/// Reads the pixel at `at`.
fn read_pixel(layout: PixelLayout, s: &[u8], at: usize) -> (r: Pixel)
    requires
        at + layout.bpp() <= s.len(),
    ensures
        r == pixel_of(layout, s@, at as int),
{
    match layout {
        PixelLayout::BlueFirst8888 => Pixel {
            r: s[at + 2],
            g: s[at + 1],
            b: s[at],
            a: s[at + 3],
        },
        PixelLayout::RedFirst8888 => Pixel { r: s[at], g: s[at + 1], b: s[at + 2], a: s[at + 3] },
        PixelLayout::BlueFirst888 => Pixel { r: s[at + 2], g: s[at + 1], b: s[at], a: 255 },
        PixelLayout::Rgb565 => {
            let packed: u32 = s[at] as u32 + s[at + 1] as u32 * 256;
            Pixel {
                r: (packed / 2048 * 255 / 31) as u8,
                g: (packed / 32 % 64 * 255 / 63) as u8,
                b: (packed % 32 * 255 / 31) as u8,
                a: 255,
            }
        },
    }
}

/// Converts a row of pixels into another layout, if it can be.
pub fn convert_scanout_row(
    source_fourcc: u32,
    target_fourcc: u32,
    width: usize,
    source: &[u8],
    target: &mut [u8],
) -> (r: bool)
    ensures
        r == convertible(
            source_fourcc,
            target_fourcc,
            width as int,
            source@.len() as int,
            old(target)@.len() as int,
        ),
        r ==> final(target)@ == converted_row(
            layout_of(source_fourcc)->0,
            layout_of(target_fourcc)->0,
            width as int,
            source@,
            old(target)@,
        ),
        !r ==> final(target)@ == old(target)@,
{
    let from = match pixel_layout(source_fourcc) {
        Some(l) => l,
        None => {
            return false;
        },
    };
    let to = match pixel_layout(target_fourcc) {
        Some(l) => l,
        None => {
            return false;
        },
    };
    if to != PixelLayout::BlueFirst8888 && to != PixelLayout::RedFirst8888 {
        return false;
    }
    let bpp: usize = from.bytes_per_pixel();
    let source_bytes: usize = match width.checked_mul(bpp) {
        Some(n) => n,
        None => {
            assert(source.len() == source@.len());
            return false;
        },
    };
    let target_bytes: usize = match width.checked_mul(4) {
        Some(n) => n,
        None => {
            assert(target.len() == target@.len());
            return false;
        },
    };
    if source.len() < source_bytes || target.len() < target_bytes {
        return false;
    }
    let mut p: usize = 0;
    while p < width
        invariant
            p <= width,
            from == layout_of(source_fourcc)->0,
            to == layout_of(target_fourcc)->0,
            is_target(to),
            bpp == from.bpp(),
            width * bpp <= source@.len(),
            width * 4 <= target@.len(),
            source.len() == source@.len(),
            target.len() == target@.len(),
            target@.len() == old(target)@.len(),
            forall|i: int|
                0 <= i < target@.len() ==> target@[i] == (if i < p * 4 {
                    converted_byte(from, to, source@, i)
                } else {
                    old(target)@[i]
                }),
        decreases width - p,
    {
        proof {
            assert((p + 1) * bpp <= width * bpp) by (nonlinear_arith)
                requires
                    p + 1 <= width,
                    bpp >= 0,
            ;
            assert((p + 1) * bpp == p * bpp + bpp) by (nonlinear_arith);
            assert(0 <= p * bpp) by (nonlinear_arith)
                requires
                    p >= 0,
                    bpp >= 0,
            ;
        }
        let pixel = read_pixel(from, source, p * bpp);
        let blue_first = to == PixelLayout::BlueFirst8888;
        let at: usize = p * 4;
        target[at] = if blue_first {
            pixel.b
        } else {
            pixel.r
        };
        target[at + 1] = pixel.g;
        target[at + 2] = if blue_first {
            pixel.r
        } else {
            pixel.b
        };
        target[at + 3] = pixel.a;
        proof {
            assert forall|i: int| at <= i < at + 4 implies target@[i] == converted_byte(
                from,
                to,
                source@,
                i,
            ) by {
                assert(i / 4 == p);
            }
        }
        p = p + 1;
    }
    assert(target@ =~= converted_row(from, to, width as int, source@, old(target)@));
    true
}

/// Converting a row keeps its colours: every pixel of the new row has the red, green, blue and alpha
/// of the pixel in the same place of the old one, and what lies behind the row stays as it was.
pub proof fn conversion_keeps_colours(
    from: PixelLayout,
    to: PixelLayout,
    width: int,
    source: Seq<u8>,
    target: Seq<u8>,
    p: int,
)
    requires
        is_target(to),
        0 <= p < width,
        width * 4 <= target.len(),
    ensures
        ({
            let row = converted_row(from, to, width, source, target);
            &&& row.len() == target.len()
            &&& pixel_of(to, row, p * 4) == pixel_of(from, source, p * from.bpp())
            &&& forall|i: int| width * 4 <= i < target.len() ==> #[trigger] row[i] == target[i]
        }),
{
    let row = converted_row(from, to, width, source, target);
    assert(row[p * 4 + 0] == byte_of(to, pixel_of(from, source, p * from.bpp()), 0));
    assert(row[p * 4 + 1] == byte_of(to, pixel_of(from, source, p * from.bpp()), 1));
    assert(row[p * 4 + 2] == byte_of(to, pixel_of(from, source, p * from.bpp()), 2));
    assert(row[p * 4 + 3] == byte_of(to, pixel_of(from, source, p * from.bpp()), 3));
}

/// A row is converted exactly where its format is known, the new one has red or blue first in four
/// bytes, and both rows are long enough.
pub proof fn rows_that_are_converted(
    source_fourcc: u32,
    target_fourcc: u32,
    width: int,
    source_len: int,
    target_len: int,
)
    ensures
        convertible(source_fourcc, target_fourcc, width, source_len, target_len) <==> {
            let bpp = if source_fourcc == 0x3631_4752 {
                2int
            } else if source_fourcc == 0x3432_4752 {
                3
            } else {
                4
            };
            &&& source_fourcc == 0x3432_5258 || source_fourcc == 0x3432_5241 || source_fourcc
                == 0x3432_4258 || source_fourcc == 0x3432_4241 || source_fourcc == 0x3432_4752
                || source_fourcc == 0x3631_4752
            &&& target_fourcc == 0x3432_5258 || target_fourcc == 0x3432_5241 || target_fourcc
                == 0x3432_4258 || target_fourcc == 0x3432_4241
            &&& width * bpp <= source_len
            &&& width * 4 <= target_len
        },
{
}

/// Rows whose layouts agree are converted into themselves.
pub proof fn matching_layouts_preserve_rows(layout: PixelLayout, source: Seq<u8>, i: int)
    requires
        is_target(layout),
        0 <= i < source.len(),
        source.len() % 4 == 0,
    ensures
        converted_byte(layout, layout, source, i) == source[i],
{
}

/// Converting a row of 32-bit pixels into the other order and back gives the row.
pub proof fn conversions_invert_each_other(
    from: PixelLayout,
    to: PixelLayout,
    width: int,
    source: Seq<u8>,
    blank: Seq<u8>,
    i: int,
)
    requires
        is_target(from),
        is_target(to),
        0 <= width,
        width * 4 <= source.len(),
        width * 4 <= blank.len(),
        0 <= i < width * 4,
    ensures
        converted_byte(to, from, converted_row(from, to, width, source, blank), i) == source[i],
{
    let mid = converted_row(from, to, width, source, blank);
    let p = i / 4;
    assert(p * 4 + 3 < width * 4);
    assert(mid[p * 4 + 0] == byte_of(to, pixel_of(from, source, p * 4), 0));
    assert(mid[p * 4 + 1] == byte_of(to, pixel_of(from, source, p * 4), 1));
    assert(mid[p * 4 + 2] == byte_of(to, pixel_of(from, source, p * 4), 2));
    assert(mid[p * 4 + 3] == byte_of(to, pixel_of(from, source, p * 4), 3));
}

/// How much of a frame is new since the sink last saw one.
#[derive(Clone, Copy, Debug, PartialEq, Eq, Structural)]
pub enum Damage {
    Full,
}

/// A produced frame offered to a display sink.
pub struct ScanoutFrame<'a> {
    /// The pixels, top row first; the first byte is that of the top-left pixel.
    pub bytes: &'a [u8],
    /// Distance in bytes from the start of one row to the start of the next.
    pub stride: u32,
    pub width: u32,
    pub height: u32,
    /// The layout of `bytes`.
    pub fourcc: u32,
    pub damage: Damage,
}

/// What presenting a frame did.
#[derive(Clone, Copy, Debug, PartialEq, Eq, Structural)]
pub enum PresentOutcome {
    /// The frame was copied into the surface's framebuffer and the surface was flipped.
    Flipped,
    /// The sink handed out no framebuffer: nothing was copied and nothing was flipped.
    NoFramebuffer,
}

/// The framebuffer of a sink, and the part of it that is written.
pub struct GpuDisplayFramebuffer<'a> {
    pub framebuffer: &'a mut [u8],
    /// Where the part that is written begins, and how long it is.
    pub offset: usize,
    pub len: usize,
    pub stride: u32,
    pub bytes_per_pixel: u32,
    pub fourcc: u32,
}

/// Where a region of a framebuffer begins.
pub open spec fn region_offset(stride: u32, bpp: u32, x: u32, y: u32) -> int {
    x * bpp + y * stride
}

/// How long a region of a framebuffer is: whole rows, but for the last.
pub open spec fn region_len(stride: u32, bpp: u32, width: u32, height: u32) -> int {
    (height - 1) * stride + width * bpp
}

/// A region lies in a framebuffer of `size` bytes, and its position can be told in 32 bits.
pub open spec fn region_fits(
    size: int,
    stride: u32,
    bpp: u32,
    x: u32,
    y: u32,
    width: u32,
    height: u32,
) -> bool {
    &&& width > 0
    &&& height > 0
    &&& region_offset(stride, bpp, x, y) <= u32::MAX
    &&& height * stride <= u32::MAX
    &&& region_len(stride, bpp, width, height) <= u32::MAX
    &&& width * bpp <= u32::MAX
    &&& region_offset(stride, bpp, x, y) + region_len(stride, bpp, width, height) <= size
}

/// A region is the rectangle that was asked for: the pixel in its column `c` and row `r` is that of
/// the framebuffer in column `x + c` and row `y + r`, the first pixel begins it and the last one ends
/// it. One that is granted lies in the framebuffer.
pub proof fn a_region_is_its_rectangle(
    size: int,
    stride: u32,
    bpp: u32,
    x: u32,
    y: u32,
    width: u32,
    height: u32,
    c: int,
    r: int,
)
    requires
        0 <= c < width,
        0 <= r < height,
    ensures
        ({
            let start = region_offset(stride, bpp, x, y);
            let end = start + region_len(stride, bpp, width, height);
            let at = start + r * stride + c * bpp;
            &&& at == (y + r) * stride + (x + c) * bpp
            &&& start <= at
            &&& width * bpp <= stride ==> at + bpp <= end
            &&& c == width - 1 && r == height - 1 ==> at + bpp == end
            &&& region_fits(size, stride, bpp, x, y, width, height) ==> end <= size
        }),
{
    assert((y + r) * stride == y * stride + r * stride && (x + c) * bpp == x * bpp + c * bpp)
        by (nonlinear_arith);
    assert(0 <= r * stride && 0 <= c * bpp && c * bpp + bpp <= width * bpp && r * stride <= (height
        - 1) * stride) by (nonlinear_arith)
        requires
            0 <= c,
            c + 1 <= width,
            0 <= r,
            r + 1 <= height,
            0 <= bpp,
            0 <= stride,
    ;
    assert(c == width - 1 ==> c * bpp + bpp == width * bpp) by (nonlinear_arith);
}

/// What a copy of a frame does with each row.
pub struct CopyShape {
    pub pixels: int,
    pub rows: int,
    /// Bytes that a row of the frame gives.
    pub source_row: int,
    /// Bytes that are written of a row.
    pub written: int,
    /// Rows are converted.
    pub converted: bool,
}

/// The lesser of two numbers.
pub open spec fn least(a: int, b: int) -> int {
    if a <= b {
        a
    } else {
        b
    }
}

/// How many whole pieces of size `b` are in `a`; none, if the pieces have no size.
pub open spec fn pieces(a: int, b: int) -> int {
    if b == 0 {
        0
    } else {
        a / b
    }
}

/// Pieces that were counted fit.
proof fn pieces_fit(a: int, b: int, n: int)
    requires
        0 <= a,
        0 <= b,
        0 <= n <= pieces(a, b),
    ensures
        0 <= n * b <= a,
{
    if b > 0 {
        lemma_fundamental_div_mod(a, b);
        assert(0 <= n * b <= b * (a / b)) by (nonlinear_arith)
            requires
                0 <= n <= a / b,
                0 < b,
        ;
    } else {
        assert(n * b == 0) by (nonlinear_arith)
            requires
                b == 0,
        ;
    }
}

/// Where one row does not fit, none of the rows below it does.
proof fn rows_that_do_not_fit(fb: GpuDisplayFramebuffer, f: ScanoutFrame, row: int)
    requires
        0 <= row < fb.shape(f).rows,
        !fb.row_fits(f, row),
    ensures
        forall|j: int| row <= j ==> !fb.row_fits(f, j),
{
    assert forall|j: int| row <= j implies !fb.row_fits(f, j) by {
        assert(row * f.stride <= j * f.stride && row * fb.stride <= j * fb.stride)
            by (nonlinear_arith)
            requires
                row <= j,
                0 <= f.stride,
                0 <= fb.stride,
        ;
    }
}

/// What writing one row does to the part that is written.
proof fn row_was_copied(
    fb: GpuDisplayFramebuffer,
    f: ScanoutFrame,
    prev: Seq<u8>,
    now: Seq<u8>,
    out: Seq<u8>,
    row: int,
)
    requires
        fb.wf(),
        fb.row_fits(f, row),
        prev.len() == fb.framebuffer@.len(),
        now.len() == prev.len(),
        0 < fb.stride,
        0 <= fb.shape(f).written <= fb.stride,
        forall|i: int|
            0 <= i < fb.len ==> #[trigger] prev.subrange(fb.offset as int, fb.offset + fb.len)[i]
                == fb.partly_copied(f, row)[i],
        forall|c: int| 0 <= c < fb.shape(f).written ==> out[c] == fb.frame_byte(f, row, c),
        ({
            let at = fb.offset + row * fb.stride;
            forall|i: int|
                0 <= i < now.len() ==> now[i] == (if at <= i < at + fb.shape(f).written {
                    out[i - at]
                } else {
                    prev[i]
                })
        }),
    ensures
        forall|i: int|
            0 <= i < fb.len ==> #[trigger] now.subrange(fb.offset as int, fb.offset + fb.len)[i]
                == fb.partly_copied(f, row + 1)[i],
{
    let stride = fb.stride as int;
    let part = now.subrange(fb.offset as int, fb.offset + fb.len);
    let prev_part = prev.subrange(fb.offset as int, fb.offset + fb.len);
    assert forall|i: int| 0 <= i < fb.len implies #[trigger] part[i] == fb.partly_copied(
        f,
        row + 1,
    )[i] by {
        assert(prev_part[i] == fb.partly_copied(f, row)[i]);
        lemma_fundamental_div_mod(i, stride);
        lemma_mod_bound(i, stride);
        assert(row * stride == stride * row) by (nonlinear_arith);
        assert(0 <= row * stride) by (nonlinear_arith)
            requires
                0 <= row,
                0 <= stride,
        ;
        if row * stride <= i < row * stride + fb.shape(f).written {
            lemma_fundamental_div_mod_converse(i, stride, row, i - row * stride);
        } else if i / stride == row {
            assert(i % stride == i - row * stride);
        }
    }
}

/// Writes the first `n` bytes of a row.
pub(crate) fn put_row(target: &mut [u8], at: usize, row: &[u8], n: usize)
    requires
        at + n <= old(target).len(),
        n <= row.len(),
    ensures
        final(target)@.len() == old(target)@.len(),
        forall|i: int|
            0 <= i < old(target)@.len() ==> final(target)@[i] == (if at <= i < at + n {
                row@[i - at]
            } else {
                old(target)@[i]
            }),
{
    let mut c: usize = 0;
    while c < n
        invariant
            c <= n <= row@.len(),
            row.len() == row@.len(),
            target.len() == target@.len(),
            at + n <= target@.len(),
            target@.len() == old(target)@.len(),
            forall|i: int|
                0 <= i < old(target)@.len() ==> target@[i] == (if at <= i < at + c {
                    row@[i - at]
                } else {
                    old(target)@[i]
                }),
        decreases n - c,
    {
        target[at + c] = row[c];
        c = c + 1;
    }
}

impl<'a> GpuDisplayFramebuffer<'a> {
    /// The part that is written lies in the framebuffer.
    pub open spec fn wf(&self) -> bool {
        self.offset + self.len <= self.framebuffer@.len()
    }

    /// The bytes of the part that is written.
    pub open spec fn region(&self) -> Seq<u8> {
        self.framebuffer@.subrange(self.offset as int, self.offset + self.len)
    }

    /// The frame's rows can be written as they are.
    pub open spec fn takes_directly(&self, source_fourcc: u32) -> bool {
        &&& self.bytes_per_pixel == 4
        &&& layout_of(self.fourcc) matches Some(to) && is_target(to) && layout_of(source_fourcc)
            == Some(to)
    }

    /// The frame's rows can be written, converted if they have to be.
    pub open spec fn takes_converted(&self, source_fourcc: u32) -> bool {
        &&& self.bytes_per_pixel == 4
        &&& layout_of(source_fourcc) is Some
        &&& layout_of(self.fourcc) matches Some(to) && is_target(to)
    }

    /// Bytes of a pixel of the frame; where its format is not known, those of the framebuffer.
    pub open spec fn source_bpp(&self, source_fourcc: u32) -> int {
        match layout_of(source_fourcc) {
            Some(l) => l.bpp(),
            None => self.bytes_per_pixel as int,
        }
    }

    /// How a frame is copied: the smaller rectangle, by both strides.
    pub open spec fn shape(&self, f: ScanoutFrame) -> CopyShape {
        let bpp = self.source_bpp(f.fourcc);
        let rows = if self.stride == 0 || self.len == 0 {
            0
        } else {
            (self.len - 1) / self.stride as int + 1
        };
        let pixels = least(
            least(f.width as int, pieces(f.stride as int, bpp)),
            pieces(self.stride as int, self.bytes_per_pixel as int),
        );
        let source_row = pixels * bpp;
        let target_row = pixels * self.bytes_per_pixel;
        CopyShape {
            pixels,
            rows: least(f.height as int, rows),
            source_row,
            written: if self.takes_converted(f.fourcc) {
                target_row
            } else {
                least(source_row, target_row)
            },
            converted: self.takes_converted(f.fourcc) && !self.takes_directly(f.fourcc),
        }
    }

    /// Row `row` is in the frame, and what is written of it is in the framebuffer.
    pub open spec fn row_fits(&self, f: ScanoutFrame, row: int) -> bool {
        let k = self.shape(f);
        &&& 0 <= row < k.rows
        &&& row * f.stride + k.source_row <= f.bytes@.len()
        &&& row * self.stride + k.written <= self.len
    }

    /// Byte `col` of row `row`, as the framebuffer has it.
    pub open spec fn frame_byte(&self, f: ScanoutFrame, row: int, col: int) -> u8 {
        let k = self.shape(f);
        if k.converted {
            converted_byte(
                layout_of(f.fourcc)->0,
                layout_of(self.fourcc)->0,
                f.bytes@.subrange(row * f.stride, row * f.stride + k.source_row),
                col,
            )
        } else {
            f.bytes@[row * f.stride + col]
        }
    }

    /// The part that is written, after a frame was copied into it.
    pub open spec fn with_frame(&self, f: ScanoutFrame) -> Seq<u8> {
        let k = self.shape(f);
        let stride = self.stride as int;
        Seq::new(
            self.len as nat,
            |i: int|
                if self.row_fits(f, i / stride) && i % stride < k.written {
                    self.frame_byte(f, i / stride, i % stride)
                } else {
                    self.region()[i]
                },
        )
    }

    /// The part that is written, after the rows before `rows` were copied into it.
    spec fn partly_copied(&self, f: ScanoutFrame, rows: int) -> Seq<u8> {
        let k = self.shape(f);
        let stride = self.stride as int;
        Seq::new(
            self.len as nat,
            |i: int|
                if i / stride < rows && self.row_fits(f, i / stride) && i % stride < k.written {
                    self.frame_byte(f, i / stride, i % stride)
                } else {
                    self.region()[i]
                },
        )
    }

    /// A framebuffer that is written as a whole.
    pub fn new(framebuffer: &'a mut [u8], stride: u32, bytes_per_pixel: u32, fourcc: u32) -> (r:
        Self)
        ensures
            r.wf(),
            r.framebuffer@ == old(framebuffer)@,
            final(r.framebuffer)@ == final(framebuffer)@,
            r.offset == 0,
            r.len == old(framebuffer)@.len(),
            r.stride == stride,
            r.bytes_per_pixel == bytes_per_pixel,
            r.fourcc == fourcc,
    {
        let len: usize = framebuffer.len();
        GpuDisplayFramebuffer { framebuffer, offset: 0, len, stride, bytes_per_pixel, fourcc }
    }

    /// Narrows the part that is written to a rectangle of the framebuffer. Whether it could: a
    /// rectangle that does not lie in the framebuffer is refused.
    pub fn sub_region(&mut self, x: u32, y: u32, width: u32, height: u32) -> (r: bool)
        requires
            old(self).wf(),
        ensures
            final(self).wf(),
            final(self).framebuffer@ == old(self).framebuffer@,
            final(final(self).framebuffer)@ == final(old(self).framebuffer)@,
            final(self).stride == old(self).stride,
            final(self).bytes_per_pixel == old(self).bytes_per_pixel,
            final(self).fourcc == old(self).fourcc,
            r == region_fits(
                old(self).framebuffer@.len() as int,
                old(self).stride,
                old(self).bytes_per_pixel,
                x,
                y,
                width,
                height,
            ),
            if r {
                &&& final(self).offset == region_offset(
                    old(self).stride,
                    old(self).bytes_per_pixel,
                    x,
                    y,
                )
                &&& final(self).len == region_len(
                    old(self).stride,
                    old(self).bytes_per_pixel,
                    width,
                    height,
                )
            } else {
                final(self).offset == old(self).offset && final(self).len == old(self).len
            },
    {
        if width == 0 || height == 0 {
            return false;
        }
        let stride: u32 = self.stride;
        let bpp: u32 = self.bytes_per_pixel;
        proof {
            assert(0 <= x * bpp && 0 <= y * stride && 0 <= width * bpp && 0 <= (height - 1)
                * stride && height * stride == (height - 1) * stride + stride) by (nonlinear_arith)
                requires
                    0 <= x,
                    0 <= y,
                    0 <= bpp,
                    0 <= stride,
                    0 <= width,
                    1 <= height,
            ;
        }
        let x_bytes: u32 = match x.checked_mul(bpp) {
            Some(v) => v,
            None => {
                return false;
            },
        };
        let y_bytes: u32 = match y.checked_mul(stride) {
            Some(v) => v,
            None => {
                return false;
            },
        };
        let byte_offset: u32 = match x_bytes.checked_add(y_bytes) {
            Some(v) => v,
            None => {
                return false;
            },
        };
        let width_bytes: u32 = match width.checked_mul(bpp) {
            Some(v) => v,
            None => {
                return false;
            },
        };
        let rows_bytes: u32 = match height.checked_mul(stride) {
            Some(v) => v,
            None => {
                return false;
            },
        };
        let count: u32 = match (rows_bytes - stride).checked_add(width_bytes) {
            Some(v) => v,
            None => {
                return false;
            },
        };
        let size: usize = self.framebuffer.len();
        if byte_offset as usize > size || count as usize > size - byte_offset as usize {
            return false;
        }
        self.offset = byte_offset as usize;
        self.len = count as usize;
        true
    }

    /// The part that is written.
    pub fn as_volatile_slice(&self) -> (r: &[u8])
        requires
            self.wf(),
        ensures
            r@ == self.region(),
    {
        let n: usize = self.framebuffer.len();
        assert(self.offset + self.len <= n);
        vstd::slice::slice_subrange(&*self.framebuffer, self.offset, self.offset + self.len)
    }

    pub fn stride(&self) -> (r: u32)
        ensures
            r == self.stride,
    {
        self.stride
    }

    pub fn fourcc(&self) -> (r: u32)
        ensures
            r == self.fourcc,
    {
        self.fourcc
    }

    /// Whether a producer can write this framebuffer without changing pixel layout. What the fourth
    /// byte means does not matter; the order of red and blue does.
    pub fn can_copy_direct_from(&self, source_fourcc: u32) -> (r: bool)
        ensures
            r == self.takes_directly(source_fourcc),
    {
        if self.bytes_per_pixel != 4 {
            return false;
        }
        match (pixel_layout(source_fourcc), pixel_layout(self.fourcc)) {
            (Some(PixelLayout::BlueFirst8888), Some(PixelLayout::BlueFirst8888)) => true,
            (Some(PixelLayout::RedFirst8888), Some(PixelLayout::RedFirst8888)) => true,
            _ => false,
        }
    }

    /// Copies as much of a frame as fits in the part that is written: the smaller rectangle, by
    /// both strides. Where layouts differ, red and blue are put in order; a layout that cannot be
    /// converted is copied as it is.
    pub fn copy_from_frame(&mut self, frame: &ScanoutFrame)
        requires
            old(self).wf(),
        ensures
            final(self).wf(),
            final(self).offset == old(self).offset,
            final(self).len == old(self).len,
            final(self).stride == old(self).stride,
            final(self).bytes_per_pixel == old(self).bytes_per_pixel,
            final(self).fourcc == old(self).fourcc,
            final(self).framebuffer@.len() == old(self).framebuffer@.len(),
            final(final(self).framebuffer)@ == final(old(self).framebuffer)@,
            final(self).region() == old(self).with_frame(*frame),
            forall|i: int|
                0 <= i < old(self).framebuffer@.len() && !(old(self).offset <= i < old(self).offset
                    + old(self).len) ==> final(self).framebuffer@[i] == old(self).framebuffer@[i],
    {
        let source_layout = pixel_layout(frame.fourcc);
        let target_layout = pixel_layout(self.fourcc);
        let dst_bpp: usize = self.bytes_per_pixel as usize;
        let dst_stride: usize = self.stride as usize;
        let src_stride: usize = frame.stride as usize;
        let bytes: &[u8] = frame.bytes;
        let source_bpp: usize = match source_layout {
            Some(l) => l.bytes_per_pixel(),
            None => dst_bpp,
        };
        let dst_rows: usize = if dst_stride == 0 || self.len == 0 {
            0
        } else {
            (self.len - 1) / dst_stride + 1
        };
        let src_pixels: usize = if source_bpp == 0 {
            0
        } else {
            src_stride / source_bpp
        };
        let dst_pixels: usize = if dst_bpp == 0 {
            0
        } else {
            dst_stride / dst_bpp
        };
        let mut pixels: usize = frame.width as usize;
        if src_pixels < pixels {
            pixels = src_pixels;
        }
        if dst_pixels < pixels {
            pixels = dst_pixels;
        }
        let mut rows: usize = frame.height as usize;
        if dst_rows < rows {
            rows = dst_rows;
        }
        proof {
            pieces_fit(src_stride as int, source_bpp as int, pixels as int);
            pieces_fit(dst_stride as int, dst_bpp as int, pixels as int);
            if rows > 0 {
                pieces_fit(self.len - 1, dst_stride as int, rows - 1);
            }
        }
        let source_row_bytes: usize = pixels * source_bpp;
        let target_row_bytes: usize = pixels * dst_bpp;
        let direct = self.can_copy_direct_from(frame.fourcc);
        let to_8888 = match target_layout {
            Some(PixelLayout::BlueFirst8888) | Some(PixelLayout::RedFirst8888) => true,
            _ => false,
        };
        let convertible = dst_bpp == 4 && source_layout.is_some() && to_8888;
        let written: usize = if convertible || source_row_bytes > target_row_bytes {
            target_row_bytes
        } else {
            source_row_bytes
        };
        let ghost before = *self;
        let ghost k = before.shape(*frame);
        let ghost base = self.offset as int;
        assert(k.pixels == pixels && k.rows == rows && k.source_row == source_row_bytes
            && k.written == written && k.converted == (convertible && !direct));
        let mut row: usize = 0;
        while row < rows
            invariant
                row <= rows,
                before.wf(),
                before == *old(self),
                k == before.shape(*frame),
                k.pixels == pixels,
                k.rows == rows,
                k.source_row == source_row_bytes,
                k.written == written,
                k.converted == (convertible && !direct),
                before.takes_converted(frame.fourcc) == convertible,
                base == before.offset,
                src_stride == frame.stride,
                dst_stride == before.stride,
                source_bpp == before.source_bpp(frame.fourcc),
                source_row_bytes == pixels * source_bpp,
                convertible ==> written == pixels * 4 && target_row_bytes == written,
                !convertible ==> written <= source_row_bytes,
                convertible && direct ==> written == source_row_bytes,
                written <= dst_stride,
                rows > 0 ==> dst_stride > 0 && (rows - 1) * dst_stride < before.len,
                bytes@ == frame.bytes@,
                bytes.len() == bytes@.len(),
                self.wf(),
                self.offset == before.offset,
                self.len == before.len,
                self.stride == before.stride,
                self.bytes_per_pixel == before.bytes_per_pixel,
                self.fourcc == before.fourcc,
                self.framebuffer@.len() == before.framebuffer@.len(),
                final(self.framebuffer)@ == final(before.framebuffer)@,
                forall|i: int|
                    0 <= i < before.framebuffer@.len() && !(base <= i < base + before.len)
                        ==> self.framebuffer@[i] == before.framebuffer@[i],
                forall|i: int|
                    0 <= i < before.len ==> #[trigger] self.region()[i] == before.partly_copied(
                        *frame,
                        row as int,
                    )[i],
            ensures
                forall|j: int| row <= j ==> !before.row_fits(*frame, j),
            decreases rows - row,
        {
            proof {
                assert(row * dst_stride <= (rows - 1) * dst_stride) by (nonlinear_arith)
                    requires
                        row <= rows - 1,
                        dst_stride >= 0,
                ;
                assert(0 <= row * dst_stride && 0 <= row * src_stride) by (nonlinear_arith)
                    requires
                        row >= 0,
                        dst_stride >= 0,
                        src_stride >= 0,
                ;
                if !before.row_fits(*frame, row as int) {
                    rows_that_do_not_fit(before, *frame, row as int);
                }
            }
            let source_offset: usize = match row.checked_mul(src_stride) {
                Some(v) => v,
                None => {
                    break;
                },
            };
            if source_offset > bytes.len() || source_row_bytes > bytes.len() - source_offset {
                break;
            }
            let target_offset: usize = row * dst_stride;
            if written > self.len - target_offset {
                break;
            }
            let source_row: &[u8] = vstd::slice::slice_subrange(
                bytes,
                source_offset,
                source_offset + source_row_bytes,
            );
            let size: usize = self.framebuffer.len();
            assert(self.offset + self.len <= size);
            let at: usize = self.offset + target_offset;
            let ghost prev = self.framebuffer@;
            assert(self.region() == prev.subrange(base, base + before.len));
            let ghost out: Seq<u8>;
            if convertible && !direct {
                let mut converted: Vec<u8> = vec![0u8; target_row_bytes];
                convert_scanout_row(
                    frame.fourcc,
                    self.fourcc,
                    pixels,
                    source_row,
                    converted.as_mut_slice(),
                );
                put_row(&mut *self.framebuffer, at, converted.as_slice(), written);
                proof {
                    out = converted@;
                }
            } else {
                put_row(&mut *self.framebuffer, at, source_row, written);
                proof {
                    out = source_row@;
                }
            }
            proof {
                assert forall|c: int| 0 <= c < written implies out[c] == before.frame_byte(
                    *frame,
                    row as int,
                    c,
                ) by {}
                assert(before.row_fits(*frame, row as int));
                row_was_copied(before, *frame, prev, self.framebuffer@, out, row as int);
            }
            row = row + 1;
        }
        proof {
            assert(self.region() =~= before.with_frame(*frame)) by {
                assert forall|i: int| 0 <= i < before.len implies self.region()[i]
                    == before.with_frame(*frame)[i] by {
                    assert(self.region()[i] == before.partly_copied(*frame, row as int)[i]);
                }
            }
        }
    }
}

/// A copy writes nothing beside the rectangle of the frame: neither to the right of its rows nor
/// below them.
pub proof fn only_the_rectangle_is_written(fb: GpuDisplayFramebuffer, f: ScanoutFrame, i: int)
    requires
        fb.wf(),
        0 <= i < fb.len,
        fb.stride > 0,
        i / fb.stride as int >= f.height || i % fb.stride as int >= f.width * fb.bytes_per_pixel,
    ensures
        fb.with_frame(f)[i] == fb.region()[i],
{
    let k = fb.shape(f);
    assert(k.pixels * fb.bytes_per_pixel <= f.width * fb.bytes_per_pixel) by (nonlinear_arith)
        requires
            k.pixels <= f.width,
            0 <= fb.bytes_per_pixel,
    ;
}

/// A row of a frame that both hold is shown from its first byte to its last.
proof fn a_row_is_shown(fb: GpuDisplayFramebuffer, f: ScanoutFrame, row: int, c: int)
    requires
        fb.wf(),
        fb.takes_converted(f.fourcc),
        0 <= row < f.height,
        0 <= c < f.width * 4,
        f.width * (layout_of(f.fourcc)->0).bpp() <= f.stride,
        f.width * 4 <= fb.stride,
        row * f.stride + f.width * (layout_of(f.fourcc)->0).bpp() <= f.bytes@.len(),
        row * fb.stride + f.width * 4 <= fb.len,
    ensures
        0 <= row * fb.stride,
        0 <= row * f.stride,
        fb.shape(f).pixels == f.width,
        fb.with_frame(f)[row * fb.stride + c] == fb.frame_byte(f, row, c),
{
    let bpp = (layout_of(f.fourcc)->0).bpp();
    let stride = fb.stride as int;
    let width = f.width as int;
    let k = fb.shape(f);
    assert(0 <= row * stride && 0 <= row * f.stride) by (nonlinear_arith)
        requires
            0 <= row,
            0 <= stride,
            0 <= f.stride,
    ;
    lemma_div_is_ordered(width * bpp, f.stride as int, bpp);
    lemma_fundamental_div_mod_converse(width * bpp, bpp, width, 0);
    assert(k.pixels == width);
    assert(row <= (fb.len - 1) / stride) by {
        lemma_fundamental_div_mod_converse(row * stride, stride, row, 0);
        lemma_div_is_ordered(row * stride, fb.len - 1, stride);
    }
    assert(fb.row_fits(f, row));
    lemma_fundamental_div_mod_converse(row * stride + c, stride, row, c);
}

/// A frame whose format is known is shown in its colours: every pixel of it that the framebuffer has
/// room for has there the red, green and blue that it has in the frame.
pub proof fn a_frame_is_shown_in_its_colours(
    fb: GpuDisplayFramebuffer,
    f: ScanoutFrame,
    row: int,
    x: int,
)
    requires
        fb.wf(),
        fb.takes_converted(f.fourcc),
        0 <= row < f.height,
        0 <= x < f.width,
        f.width * (layout_of(f.fourcc)->0).bpp() <= f.stride,
        f.width * 4 <= fb.stride,
        row * f.stride + f.width * (layout_of(f.fourcc)->0).bpp() <= f.bytes@.len(),
        row * fb.stride + f.width * 4 <= fb.len,
    ensures
        ({
            let from = layout_of(f.fourcc)->0;
            let to = layout_of(fb.fourcc)->0;
            pixel_of(to, fb.with_frame(f), row * fb.stride + x * 4) == pixel_of(
                from,
                f.bytes@,
                row * f.stride + x * from.bpp(),
            )
        }),
{
    let from = layout_of(f.fourcc)->0;
    let to = layout_of(fb.fourcc)->0;
    let bpp = from.bpp();
    let width = f.width as int;
    let at = row * f.stride;
    let k = fb.shape(f);
    a_row_is_shown(fb, f, row, x * 4);
    a_row_is_shown(fb, f, row, x * 4 + 1);
    a_row_is_shown(fb, f, row, x * 4 + 2);
    a_row_is_shown(fb, f, row, x * 4 + 3);
    let part = f.bytes@.subrange(at, at + k.source_row);
    assert(0 <= x * bpp && x * bpp + bpp <= width * bpp) by (nonlinear_arith)
        requires
            0 <= x,
            x + 1 <= width,
            0 <= bpp,
    ;
    assert(forall|c: int| 0 <= c < bpp ==> part[x * bpp + c] == #[trigger] f.bytes@[at + x * bpp + c]);
    assert(part[x * bpp + 0] == f.bytes@[at + x * bpp + 0]);
    assert(pixel_of(from, part, x * bpp) == pixel_of(from, f.bytes@, at + x * bpp));
}

/// A frame of the framebuffer's own layout arrives byte for byte, wherever both hold it.
pub proof fn a_matching_frame_is_copied_as_it_is(
    fb: GpuDisplayFramebuffer,
    f: ScanoutFrame,
    row: int,
    col: int,
)
    requires
        fb.wf(),
        fb.takes_directly(f.fourcc),
        0 <= row < f.height,
        0 <= col < f.width * 4 <= f.stride,
        f.width * 4 <= fb.stride,
        row * f.stride + f.width * 4 <= f.bytes@.len(),
        row * fb.stride + f.width * 4 <= fb.len,
    ensures
        fb.with_frame(f)[row * fb.stride + col] == f.bytes@[row * f.stride + col],
{
    let stride = fb.stride as int;
    let i = row * stride + col;
    assert(0 <= row * stride) by (nonlinear_arith)
        requires
            0 <= row,
            0 <= stride,
    ;
    lemma_fundamental_div_mod_converse(i, stride, row, col);
    assert(row <= (fb.len - 1) / stride) by {
        lemma_div_is_ordered(i, fb.len - 1, stride);
    }
    assert(fb.shape(f).pixels == f.width) by {
        assert(f.width <= f.stride as int / 4);
        assert(f.width <= stride / 4);
    }
}

} // verus!
