//! The frame that a network display shows: where its pixels are, and the cursor over it.

use crate::scanout;
use crate::vnc::imports::VncImport;
use vstd::arithmetic::div_mod::*;
use vstd::prelude::*;

verus! {

/// Where the last frame of a blit is, and how it is laid out.
#[derive(Clone, Copy, Debug, PartialEq, Eq, Structural)]
pub struct BlitMapping {
    /// Distance in bytes between rows; it may exceed that of a packed row.
    pub stride_bytes: u32,
    pub width: u32,
    pub height: u32,
    pub size: u32,
    /// Which blit the frame is of.
    pub generation: u64,
}

/// The blit after one.
pub open spec fn next_generation(generation: u64) -> u64 {
    if generation == u64::MAX {
        0
    } else {
        (generation + 1) as u64
    }
}

/// The frame is that of a blit.
pub open spec fn is_current(m: BlitMapping, generation: u64) -> bool {
    m.generation == generation
}

/// The target of blits: the frame of each is gone with the next one.
pub struct BlitTarget {
    pub generation: u64,
}

impl BlitTarget {
    pub fn new() -> (r: Self)
        ensures
            r.generation == 0,
    {
        BlitTarget { generation: 0 }
    }

    /// A blit begins: whether it succeeds or not, the frame before it is gone.
    pub fn blit(&mut self)
        ensures
            final(self).generation == if old(self).generation == u64::MAX {
                0
            } else {
                (old(self).generation + 1) as u64
            },
            final(self).generation == next_generation(old(self).generation),
    {
        self.generation = self.generation.wrapping_add(1);
    }

    /// The frame of the last blit.
    pub fn map(&self, stride_bytes: u32, width: u32, height: u32, size: u32) -> (r: BlitMapping)
        ensures
            r == (BlitMapping { stride_bytes, width, height, size, generation: self.generation }),
            r.generation == self.generation,
            is_current(r, self.generation),
    {
        BlitMapping { stride_bytes, width, height, size, generation: self.generation }
    }

    /// Whether a frame is still that of the last blit.
    pub fn mapping_is_current(&self, mapping: &BlitMapping) -> (r: bool)
        ensures
            r == (mapping.generation == self.generation),
            r == is_current(*mapping, self.generation),
    {
        mapping.generation == self.generation
    }
}

/// The cursor of the guest, as it was last reported.
pub struct CursorState {
    pub pixels: Vec<u8>,
    pub width: u32,
    pub height: u32,
    /// Where the top left corner of the image is; left of the screen or above it, if negative.
    pub x: i32,
    pub y: i32,
    pub visible: bool,
}

/// Where the pixels of a frame are.
#[derive(Clone, Copy, Debug, PartialEq, Eq, Structural)]
pub enum Clean {
    /// In the target of blits.
    Target { size: u32 },
    /// In the display's own buffer.
    Buffer { len: usize },
    /// Nowhere: the frame is gone.
    Gone,
}

/// A frame that is offered to those who watch.
#[derive(Clone, Copy, Debug, PartialEq, Eq, Structural)]
pub struct Offer {
    pub pixels: Clean,
    /// There is an image of the cursor.
    pub has_cursor: bool,
    pub cursor_width: u32,
    pub cursor_height: u32,
    pub cursor_x: i32,
    pub cursor_y: i32,
    /// The cursor is drawn.
    pub cursor_visible: bool,
    /// The guest made a new frame; otherwise only the cursor changed.
    pub full: bool,
    /// The import that the frame is of; zero where there is none.
    pub gpu_import: i64,
}

/// Why a blitted frame is not offered.
#[derive(Clone, Copy, Debug, PartialEq, Eq, Structural)]
pub enum BlitError {
    /// There is no such import.
    InvalidImport,
    /// The import has another size than the screen.
    ImportSize,
    /// The frame came back in another size than the screen.
    MappingSize,
}

/// The frame without its cursor, and the cursor.
pub struct SharedFramebuffer {
    pub width: u32,
    pub height: u32,
    pub data: Vec<u8>,
    /// Set while the frame is in the target of blits rather than in `data`.
    pub gpu_frame: Option<BlitMapping>,
    pub cursor: CursorState,
}

/// Row `row` of a frame with padded rows can be repacked.
pub open spec fn row_fits(src_len: int, stride: int, data_len: int, packed: int, row: int) -> bool {
    &&& row * stride + packed <= src_len
    &&& row * packed + packed <= data_len
}

/// A buffer after the rows of a frame were packed into it.
pub open spec fn repacked(
    data: Seq<u8>,
    src: Seq<u8>,
    stride: int,
    packed: int,
    rows: int,
) -> Seq<u8> {
    Seq::new(
        data.len(),
        |i: int|
            if packed > 0 && i / packed < rows && row_fits(
                src.len() as int,
                stride,
                data.len() as int,
                packed,
                i / packed,
            ) {
                src[i / packed * stride + i % packed]
            } else {
                data[i]
            },
    )
}

/// Packs the rows of a frame, as far as they fit.
fn repack(data: &mut Vec<u8>, src: &[u8], stride: usize, packed: usize, rows: usize)
    ensures
        final(data)@ == repacked(
            old(data)@,
            src@,
            stride as int,
            packed as int,
            rows as int,
        ),
{
    if packed == 0 {
        assert(data@ =~= repacked(data@, src@, stride as int, packed as int, rows as int));
        return;
    }
    let ghost before = data@;
    let ghost st = stride as int;
    let ghost pk = packed as int;
    let mut y: usize = 0;
    assert(data@ =~= repacked(before, src@, st, pk, 0)) by {
        assert forall|i: int| 0 <= i < before.len() implies repacked(before, src@, st, pk, 0)[i]
            == before[i] by {
            lemma_div_pos_is_pos(i, pk);
        }
    }
    while y < rows
        invariant
            y <= rows,
            packed > 0,
            st == stride,
            pk == packed,
            src.len() == src@.len(),
            before == old(data)@,
            data@.len() == before.len(),
            data@ == repacked(before, src@, st, pk, y as int),
        ensures
            forall|j: int|
                y <= j < rows ==> !row_fits(src@.len() as int, st, before.len() as int, pk, j),
        decreases rows - y,
    {
        proof {
            if !row_fits(src@.len() as int, st, before.len() as int, pk, y as int) {
                assert forall|j: int| y <= j implies !row_fits(
                    src@.len() as int,
                    st,
                    before.len() as int,
                    pk,
                    j,
                ) by {
                    assert(y * st <= j * st && y * pk <= j * pk) by (nonlinear_arith)
                        requires
                            y <= j,
                            0 <= st,
                            0 <= pk,
                    ;
                }
            }
        }
        let len: usize = data.len();
        let src_off: usize = match y.checked_mul(stride) {
            Some(v) => v,
            None => {
                break;
            },
        };
        let dst_off: usize = match y.checked_mul(packed) {
            Some(v) => v,
            None => {
                break;
            },
        };
        if src_off > src.len() || packed > src.len() - src_off || dst_off > len || packed > len
            - dst_off {
            break;
        }
        let row: &[u8] = vstd::slice::slice_subrange(src, src_off, src_off + packed);
        let ghost prev = data@;
        scanout::put_row(data.as_mut_slice(), dst_off, row, packed);
        proof {
            assert(data@ =~= repacked(before, src@, st, pk, y + 1)) by {
                assert forall|i: int| 0 <= i < before.len() implies data@[i] == repacked(
                    before,
                    src@,
                    st,
                    pk,
                    y + 1,
                )[i] by {
                    assert(prev[i] == repacked(before, src@, st, pk, y as int)[i]);
                    lemma_fundamental_div_mod(i, pk);
                    lemma_mod_bound(i, pk);
                    assert(y * pk == pk * y) by (nonlinear_arith);
                    if dst_off <= i < dst_off + packed {
                        lemma_fundamental_div_mod_converse(i, pk, y as int, i - dst_off);
                    } else if i / pk == y {
                        assert(i % pk == i - dst_off);
                    }
                }
            }
        }
        y = y + 1;
    }
    assert(data@ =~= repacked(before, src@, st, pk, rows as int)) by {
        assert forall|i: int| 0 <= i < before.len() implies data@[i] == repacked(
            before,
            src@,
            st,
            pk,
            rows as int,
        )[i] by {
            assert(data@[i] == repacked(before, src@, st, pk, y as int)[i]);
        }
    }
}

impl SharedFramebuffer {
    /// A black screen without a cursor.
    pub fn new(width: u32, height: u32) -> (r: Self)
        requires
            width * height * 4 <= usize::MAX,
        ensures
            r.width == width,
            r.height == height,
            r.data@.len() == width * height * 4,
            forall|i: int| 0 <= i < r.data@.len() ==> r.data@[i] == 0,
            r.gpu_frame is None,
            r.cursor.pixels@.len() == 0,
            r.cursor.width == 0,
            r.cursor.height == 0,
            r.cursor.x == 0,
            r.cursor.y == 0,
            !r.cursor.visible,
            r.clean_now(0) == (Clean::Buffer { len: r.data.len() }),
            r.offered(true, None, 0) matches Some(o) && !o.has_cursor && !o.cursor_visible,
    {
        let size: usize = crate::vnc::buffer_size(width, height);
        SharedFramebuffer {
            width,
            height,
            data: vec![0u8; size],
            gpu_frame: None,
            cursor: CursorState {
                pixels: Vec::new(),
                width: 0,
                height: 0,
                x: 0,
                y: 0,
                visible: false,
            },
        }
    }

    /// Where the frame is, given the last blit: one that was blitted is gone with the next blit.
    pub open spec fn clean_now(&self, generation: u64) -> Clean {
        match self.gpu_frame {
            Some(m) => if m.generation == generation {
                Clean::Target { size: m.size }
            } else {
                Clean::Gone
            },
            None => Clean::Buffer { len: self.data.len() },
        }
    }

    /// There is an image of the cursor.
    pub open spec fn has_cursor(&self) -> bool {
        self.cursor.pixels@.len() > 0 && self.cursor.width > 0 && self.cursor.height > 0
    }

    /// Where the frame is.
    pub fn clean(&self, generation: u64) -> (r: Clean)
        ensures
            r == self.clean_now(generation),
    {
        match self.gpu_frame {
            Some(m) => if m.generation == generation {
                Clean::Target { size: m.size }
            } else {
                Clean::Gone
            },
            None => Clean::Buffer { len: self.data.len() },
        }
    }

    /// What is offered of the frame.
    pub open spec fn offered(
        &self,
        full: bool,
        gpu_import: Option<i64>,
        generation: u64,
    ) -> Option<Offer> {
        if self.clean_now(generation) is Gone {
            None
        } else {
            Some(
                Offer {
                    pixels: self.clean_now(generation),
                    has_cursor: self.has_cursor(),
                    cursor_width: self.cursor.width,
                    cursor_height: self.cursor.height,
                    cursor_x: self.cursor.x,
                    cursor_y: self.cursor.y,
                    cursor_visible: self.cursor.visible && self.has_cursor(),
                    full,
                    gpu_import: if let Some(i) = gpu_import {
                        i
                    } else {
                        0
                    },
                },
            )
        }
    }

    /// The offer of the frame; none, where the frame is gone.
    pub fn offer_frame(&self, full: bool, gpu_import: Option<i64>, generation: u64) -> (r: Option<
        Offer,
    >)
        ensures
            r == (if self.clean_now(generation) == Clean::Gone {
                None
            } else {
                Some(
                    Offer {
                        pixels: self.clean_now(generation),
                        has_cursor: self.has_cursor(),
                        cursor_width: self.cursor.width,
                        cursor_height: self.cursor.height,
                        cursor_x: self.cursor.x,
                        cursor_y: self.cursor.y,
                        cursor_visible: self.cursor.visible && self.has_cursor(),
                        full,
                        gpu_import: match gpu_import {
                            Some(i) => i,
                            None => 0,
                        },
                    },
                )
            }),
            r == self.offered(full, gpu_import, generation),
    {
        let pixels = self.clean(generation);
        if pixels == Clean::Gone {
            return None;
        }
        let has_cursor: bool = self.cursor.pixels.len() > 0 && self.cursor.width > 0
            && self.cursor.height > 0;
        Some(
            Offer {
                pixels,
                has_cursor,
                cursor_width: self.cursor.width,
                cursor_height: self.cursor.height,
                cursor_x: self.cursor.x,
                cursor_y: self.cursor.y,
                cursor_visible: self.cursor.visible && has_cursor,
                full,
                gpu_import: match gpu_import {
                    Some(i) => i,
                    None => 0,
                },
            },
        )
    }

    /// Takes a frame that the CPU drew, as much of it as fits.
    pub fn flip(&mut self, local: &[u8])
        ensures
            final(self).gpu_frame is None,
            final(self).data@ == Seq::new(
                old(self).data@.len(),
                |i: int|
                    if i < local@.len() {
                        local@[i]
                    } else {
                        old(self).data@[i]
                    },
            ),
            final(self).data@ == drawn(old(self).data@, local@),
            final(self).width == old(self).width,
            final(self).height == old(self).height,
            final(self).cursor == old(self).cursor,
    {
        let n: usize = if local.len() < self.data.len() {
            local.len()
        } else {
            self.data.len()
        };
        let ghost before = self.data@;
        scanout::put_row(self.data.as_mut_slice(), 0, local, n);
        self.gpu_frame = None;
        assert(self.data@ =~= Seq::new(
            before.len(),
            |i: int|
                if i < local@.len() {
                    local@[i]
                } else {
                    before[i]
                },
        ));
    }

    /// Takes a new image of the cursor, which shows it.
    pub fn set_cursor(&mut self, pixels: &[u8], width: u32, height: u32)
        ensures
            final(self).cursor.pixels@ == pixels@,
            final(self).cursor.width == width,
            final(self).cursor.height == height,
            final(self).cursor.visible,
            final(self).cursor@ == follows(
                old(self).cursor@,
                CursorEvent::Image { pixels: pixels@, width, height },
            ),
            final(self).cursor.x == old(self).cursor.x,
            final(self).cursor.y == old(self).cursor.y,
            final(self).data == old(self).data,
            final(self).gpu_frame == old(self).gpu_frame,
            final(self).width == old(self).width,
            final(self).height == old(self).height,
    {
        let mut image: Vec<u8> = Vec::new();
        image.extend_from_slice(pixels);
        assert(image@ =~= pixels@);
        self.cursor.pixels = image;
        self.cursor.width = width;
        self.cursor.height = height;
        self.cursor.visible = true;
    }

    /// Moves the cursor.
    pub fn set_position(&mut self, x: i32, y: i32)
        ensures
            final(self).cursor.x == x,
            final(self).cursor.y == y,
            final(self).cursor@ == follows(old(self).cursor@, CursorEvent::Moved { x, y }),
            final(self).cursor.visible == old(self).cursor.visible,
            final(self).cursor.pixels == old(self).cursor.pixels,
            final(self).cursor.width == old(self).cursor.width,
            final(self).cursor.height == old(self).cursor.height,
            final(self).data == old(self).data,
            final(self).gpu_frame == old(self).gpu_frame,
            final(self).width == old(self).width,
            final(self).height == old(self).height,
    {
        self.cursor.x = x;
        self.cursor.y = y;
    }

    /// Shows the cursor or hides it.
    pub fn set_cursor_visible(&mut self, visible: bool)
        ensures
            final(self).cursor.visible == visible,
            final(self).cursor@ == follows(old(self).cursor@, CursorEvent::Shown(visible)),
            final(self).cursor.x == old(self).cursor.x,
            final(self).cursor.y == old(self).cursor.y,
            final(self).cursor.pixels == old(self).cursor.pixels,
            final(self).cursor.width == old(self).cursor.width,
            final(self).cursor.height == old(self).cursor.height,
            final(self).data == old(self).data,
            final(self).gpu_frame == old(self).gpu_frame,
            final(self).width == old(self).width,
            final(self).height == old(self).height,
    {
        self.cursor.visible = visible;
    }

    /// Begins a blit: what the one before left in the target is shown no longer, whether or not
    /// this one succeeds.
    pub fn begin_blit(&mut self)
        ensures
            *final(self) == (SharedFramebuffer { gpu_frame: None, ..*old(self) }),
            forall|generation: u64|
                #![trigger final(self).clean_now(generation)]
                final(self).clean_now(generation) == (Clean::Buffer { len: old(self).data.len() }),
            final(self).data@ == old(self).data@ && final(self).cursor == old(self).cursor,
    {
        self.gpu_frame = None;
    }

    /// Takes the frame of a blit, on a screen of that size. Where its rows are packed it is shown
    /// from where it is; otherwise its rows are packed into the display's own buffer.
    pub fn take_blit(&mut self, width: u32, height: u32, mapping: BlitMapping, pixels: &[u8]) -> (r:
        Result<(), BlitError>)
        requires
            width * 4 <= usize::MAX,
        ensures
            final(self).width == old(self).width,
            final(self).height == old(self).height,
            final(self).cursor == old(self).cursor,
            if mapping.width != width || mapping.height != height {
                &&& r == Err::<(), BlitError>(BlitError::MappingSize)
                &&& final(self).data@ == old(self).data@
                &&& final(self).gpu_frame is None
            } else if mapping.stride_bytes == width * 4 {
                &&& r is Ok
                &&& final(self).data@ == old(self).data@
                &&& final(self).gpu_frame == Some(mapping)
            } else {
                &&& r is Ok
                &&& final(self).gpu_frame is None
                &&& final(self).data@ == repacked(
                    old(self).data@,
                    pixels@,
                    mapping.stride_bytes as int,
                    width * 4,
                    height as int,
                )
            },
            r is Ok <==> mapping.width == width && mapping.height == height,
            r is Ok ==> (final(self).clean_now(mapping.generation) == Clean::Target {
                size: mapping.size,
            } <==> mapping.stride_bytes == width * 4),
            r is Ok && mapping.generation != u64::MAX && mapping.stride_bytes == width * 4
                ==> final(self).clean_now((mapping.generation + 1) as u64) is Gone,
    {
        self.gpu_frame = None;
        if mapping.width != width || mapping.height != height {
            return Err(BlitError::MappingSize);
        }
        let packed: usize = width as usize * 4;
        if mapping.stride_bytes as usize == packed {
            self.gpu_frame = Some(mapping);
        } else {
            repack(&mut self.data, pixels, mapping.stride_bytes as usize, packed, height as usize);
        }
        Ok(())
    }
}

/// The import that is blitted, on a screen of that size: only one of that very size can be shown.
pub fn blit_source(import: Option<VncImport>, width: u32, height: u32) -> (r: Result<
    VncImport,
    BlitError,
>)
    ensures
        r == (match import {
            None => Err(BlitError::InvalidImport),
            Some(i) => if i.width != width || i.height != height {
                Err(BlitError::ImportSize)
            } else {
                Ok(i)
            },
        }),
        r matches Ok(i) ==> import == Some(i) && i.width == width && i.height == height,
        r is Ok <==> (import matches Some(i) && i.width == width && i.height == height),
        r == Err::<VncImport, BlitError>(BlitError::InvalidImport) <==> import is None,
{
    match import {
        None => Err(BlitError::InvalidImport),
        Some(i) => if i.width != width || i.height != height {
            Err(BlitError::ImportSize)
        } else {
            Ok(i)
        },
    }
}

/// A hotspot as the server takes it, in two's complement.
pub open spec fn signed_hotspot(hot: u32) -> int {
    if hot <= i32::MAX {
        hot as int
    } else {
        hot - 0x1_0000_0000
    }
}

/// Where the pointer is on an axis, given where its image is and the hotspot in the image.
pub fn pointer_position(at: i32, hot: u32) -> (r: i32)
    requires
        i32::MIN <= at + signed_hotspot(hot) <= i32::MAX,
    ensures
        r == at + signed_hotspot(hot),
{
    let by: i64 = if hot <= i32::MAX as u32 {
        hot as i64
    } else {
        hot as i64 - 0x1_0000_0000
    };
    (at as i64 + by) as i32
}

/// A frame of a blit cannot be read after the next blit.
pub proof fn blits_replace_frames(generation: u64, next: u64, m: BlitMapping)
    requires
        m.generation == generation,
        next == if generation == u64::MAX {
            0
        } else {
            (generation + 1) as u64
        },
    ensures
        m.generation != next,
        next_generation(generation) == next,
        is_current(m, generation),
        !is_current(m, next_generation(generation)),
{
}

/// Every row of a frame with padded rows arrives, where the buffer holds the screen and the frame
/// all of its rows.
pub proof fn repacking_keeps_the_picture(
    data: Seq<u8>,
    src: Seq<u8>,
    stride: int,
    packed: int,
    rows: int,
    row: int,
    col: int,
)
    requires
        0 < packed <= stride,
        0 <= row < rows,
        0 <= col < packed,
        rows * packed <= data.len(),
        rows * stride <= src.len(),
    ensures
        repacked(data, src, stride, packed, rows)[row * packed + col] == src[row * stride + col],
{
    let i = row * packed + col;
    assert(row * packed + packed <= rows * packed && row * stride + stride <= rows * stride && 0
        <= row * packed) by (nonlinear_arith)
        requires
            0 <= row,
            row + 1 <= rows,
            0 < packed,
            0 < stride,
    ;
    lemma_fundamental_div_mod_converse(i, packed, row, col);
}

/// A hotspot and what the server takes for it are the same 32 bits.
pub proof fn hotspots_are_twos_complement(hot: u32)
    ensures
        (hot - signed_hotspot(hot)) % 0x1_0000_0000 == 0,
        -0x8000_0000 <= signed_hotspot(hot) < 0x8000_0000,
{
}

/// A buffer after a frame was drawn into it.
pub open spec fn drawn(data: Seq<u8>, local: Seq<u8>) -> Seq<u8> {
    Seq::new(
        data.len(),
        |i: int|
            if i < local.len() {
                local[i]
            } else {
                data[i]
            },
    )
}

/// A frame that fills the buffer is what the buffer holds after it, whatever it held before; what
/// does not fit, and what a small frame does not reach, leave the rest as it was.
pub proof fn a_drawn_frame_is_held(data: Seq<u8>, local: Seq<u8>)
    ensures
        data.len() == local.len() ==> drawn(data, local) == local,
        data.len() <= local.len() ==> drawn(data, local) == local.take(data.len() as int),
        data.len() >= local.len() ==> drawn(data, local) == local + data.skip(local.len() as int),
{
    if data.len() == local.len() {
        assert(drawn(data, local) =~= local);
    }
    if data.len() <= local.len() {
        assert(drawn(data, local) =~= local.take(data.len() as int));
    }
    if data.len() >= local.len() {
        assert(drawn(data, local) =~= local + data.skip(local.len() as int));
    }
}

/// A frame is offered unless a blit made it gone; a frame that is in the display's own buffer always
/// is. A cursor is drawn only where there is an image of it and it is shown.
pub proof fn frames_are_offered_while_they_last(
    fb: SharedFramebuffer,
    full: bool,
    gpu_import: Option<i64>,
    generation: u64,
)
    ensures
        fb.offered(full, gpu_import, generation) is None <==> (fb.gpu_frame matches Some(m)
            && m.generation != generation),
        fb.offered(full, gpu_import, generation) matches Some(o) ==> {
            &&& o.pixels is Buffer <==> fb.gpu_frame is None
            &&& o.pixels matches Clean::Buffer { len } ==> len == fb.data@.len()
            &&& o.pixels matches Clean::Target { size } ==> (fb.gpu_frame matches Some(m) && size
                == m.size)
            &&& o.cursor_visible ==> fb.cursor.visible && fb.cursor.pixels@.len() > 0
            &&& fb.cursor.visible && o.has_cursor ==> o.cursor_visible
            &&& o.has_cursor <==> fb.cursor.pixels@.len() > 0 && o.cursor_width > 0
                && o.cursor_height > 0
            &&& (o.cursor_width, o.cursor_height) == (fb.cursor.width, fb.cursor.height)
            &&& (o.cursor_x, o.cursor_y) == (fb.cursor.x, fb.cursor.y)
            &&& o.full == full
            &&& gpu_import is Some ==> Some(o.gpu_import) == gpu_import
            &&& gpu_import is None ==> o.gpu_import == 0
        },
{
}

/// The cursor as a value.
pub struct CursorView {
    pub pixels: Seq<u8>,
    pub width: u32,
    pub height: u32,
    pub x: i32,
    pub y: i32,
    pub visible: bool,
}

impl View for CursorState {
    type V = CursorView;

    open spec fn view(&self) -> CursorView {
        CursorView {
            pixels: self.pixels@,
            width: self.width,
            height: self.height,
            x: self.x,
            y: self.y,
            visible: self.visible,
        }
    }
}

/// What the guest does with its cursor.
pub enum CursorEvent {
    Image { pixels: Seq<u8>, width: u32, height: u32 },
    Moved { x: i32, y: i32 },
    Shown(bool),
}

/// The cursor after one of these.
pub open spec fn follows(c: CursorView, e: CursorEvent) -> CursorView {
    match e {
        CursorEvent::Image { pixels, width, height } => CursorView {
            pixels,
            width,
            height,
            visible: true,
            ..c
        },
        CursorEvent::Moved { x, y } => CursorView { x, y, ..c },
        CursorEvent::Shown(visible) => CursorView { visible, ..c },
    }
}

/// A cursor that got an image and was moved, in whatever order, shows that image there, whatever it
/// was before; hiding it changes nothing else, and showing it again brings the same cursor back.
pub proof fn cursors_are_where_they_were_moved(
    c: CursorView,
    pixels: Seq<u8>,
    width: u32,
    height: u32,
    x: i32,
    y: i32,
)
    ensures
        ({
            let image = CursorEvent::Image { pixels, width, height };
            let moved = CursorEvent::Moved { x, y };
            let shown = CursorView { pixels, width, height, x, y, visible: true };
            &&& follows(follows(c, image), moved) == shown
            &&& follows(follows(c, moved), image) == shown
            &&& follows(shown, CursorEvent::Shown(false)) != shown
            &&& follows(
                follows(shown, CursorEvent::Shown(false)),
                CursorEvent::Shown(true),
            ) == shown
            &&& follows(c, moved).visible == c.visible
        }),
{
}

} // verus!
