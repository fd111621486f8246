//! Description of a host allocation that is shared with the guest.

use vstd::prelude::*;

verus! {

/// The `AB24` fourcc code: one byte each of R, G, B, A in memory.
pub const FOURCC_AB24: u32 = 0x3432_4241;

/// Largest width and height that a shared allocation may declare.
pub const MAX_SHARED_EXTENT: u32 = 8192;

/// Largest size in bytes of a shared allocation.
pub const MAX_SHARED_BYTES: u64 = 0x1000_0000;

/// Layout of one native allocation as its allocator reports it.
#[derive(Clone, Copy, Debug)]
pub struct SharedAllocationDescription {
    pub version: u32,
    pub size: u32,
    pub buffer_id: u64,
    pub allocation_size: u64,
    pub modifier: u64,
    pub plane_offset: u64,
    pub plane_stride: u32,
    pub width: u32,
    pub height: u32,
    pub fourcc: u32,
    pub plane_count: u32,
    pub layout_flags: u32,
}

impl Default for SharedAllocationDescription {
    /// The all-zero description, which is valid for no extent.
    fn default() -> (r: Self)
        ensures
            r == SharedAllocationDescription::zeroed(),
    {
        SharedAllocationDescription {
            version: 0,
            size: 0,
            buffer_id: 0,
            allocation_size: 0,
            modifier: 0,
            plane_offset: 0,
            plane_stride: 0,
            width: 0,
            height: 0,
            fourcc: 0,
            plane_count: 0,
            layout_flags: 0,
        }
    }
}

impl SharedAllocationDescription {
    /// The description whose fields are all zero.
    pub open spec fn zeroed() -> Self {
        SharedAllocationDescription {
            version: 0,
            size: 0,
            buffer_id: 0,
            allocation_size: 0,
            modifier: 0,
            plane_offset: 0,
            plane_stride: 0,
            width: 0,
            height: 0,
            fourcc: 0,
            plane_count: 0,
            layout_flags: 0,
        }
    }

    /// Position just behind the last pixel of the plane.
    pub open spec fn plane_end(&self) -> int {
        (self.height - 1) * self.plane_stride + self.width * 4 + self.plane_offset
    }

    /// The description is one of a linear `AB24` image of exactly `width` by `height` pixels
    /// that lies inside its allocation.
    pub open spec fn describes(&self, width: int, height: int) -> bool {
        &&& self.version == 1
        &&& self.size == 64
        &&& self.buffer_id != 0
        &&& self.width == width
        &&& self.height == height
        &&& 0 < width <= MAX_SHARED_EXTENT
        &&& 0 < height <= MAX_SHARED_EXTENT
        &&& self.modifier == 0
        &&& self.fourcc == FOURCC_AB24
        &&& self.plane_count == 1
        &&& self.layout_flags == 1
        &&& self.plane_stride % 4 == 0
        &&& self.plane_stride >= width * 4
        &&& 0 < self.allocation_size <= MAX_SHARED_BYTES
        &&& self.plane_end() <= self.allocation_size
    }

    /// Whether this description is acceptable for an image of `width` by `height` pixels.
    pub fn valid(&self, width: u32, height: u32) -> (r: bool)
        ensures
            r == self.describes(width as int, height as int),
    {
        if self.version != 1 || self.size != 64 || self.buffer_id == 0 || width == 0 || height == 0
            || width > MAX_SHARED_EXTENT || height > MAX_SHARED_EXTENT || self.width != width
            || self.height != height || self.modifier != 0 || self.fourcc != FOURCC_AB24
            || self.plane_count != 1 || self.layout_flags != 1 || self.plane_stride % 4 != 0
            || (self.plane_stride as u64) < width as u64 * 4 || self.allocation_size == 0
            || self.allocation_size > MAX_SHARED_BYTES {
            return false;
        }
        assert(0 <= (height - 1) * self.plane_stride <= 8191 * u32::MAX) by (nonlinear_arith)
            requires
                1 <= height <= 8192,
                0 <= self.plane_stride <= u32::MAX,
        ;
        let rows: u64 = (height - 1) as u64 * self.plane_stride as u64;
        let bytes: u64 = rows + width as u64 * 4;
        match bytes.checked_add(self.plane_offset) {
            Some(end) => end <= self.allocation_size,
            None => false,
        }
    }
}

/// In an accepted description every row lies inside the allocation, and rows do not overlap.
pub proof fn rows_lie_inside_the_allocation(
    d: SharedAllocationDescription,
    width: int,
    height: int,
    row: int,
)
    requires
        d.describes(width, height),
        0 <= row < height,
    ensures
        d.plane_offset + row * d.plane_stride + width * 4 <= d.allocation_size,
        d.plane_offset + row * d.plane_stride + width * 4 <= d.plane_offset + (row + 1)
            * d.plane_stride,
{
    assert(row * d.plane_stride <= (height - 1) * d.plane_stride) by (nonlinear_arith)
        requires
            row <= height - 1,
            0 <= d.plane_stride,
    ;
    assert((row + 1) * d.plane_stride == row * d.plane_stride + d.plane_stride)
        by (nonlinear_arith);
}

/// A description is accepted for one extent at most.
pub proof fn extent_is_unique(
    d: SharedAllocationDescription,
    width: int,
    height: int,
    other_width: int,
    other_height: int,
)
    requires
        d.describes(width, height),
        d.describes(other_width, other_height),
    ensures
        width == other_width,
        height == other_height,
{
}

/// A description of an image with red first in four bytes, whose rows are whole pixels apart and lie
/// inside an allocation of a size that is allowed, is accepted for the extent that it names.
pub proof fn linear_images_are_accepted(d: SharedAllocationDescription)
    requires
        d.version == 1,
        d.size == 64,
        d.buffer_id != 0,
        1 <= d.width <= 8192,
        1 <= d.height <= 8192,
        d.modifier == 0,
        d.fourcc == 0x3432_4241,
        d.plane_count == 1,
        d.layout_flags == 1,
        d.plane_stride % 4 == 0,
        d.plane_stride >= d.width * 4,
        d.allocation_size <= 256 * 1024 * 1024,
        d.plane_offset + (d.height - 1) * d.plane_stride + d.width * 4 <= d.allocation_size,
    ensures
        d.describes(d.width as int, d.height as int),
{
    assert(0 <= (d.height - 1) * d.plane_stride) by (nonlinear_arith)
        requires
            1 <= d.height,
            0 <= d.plane_stride,
    ;
}

/// What is accepted is such an image, and nothing else.
pub proof fn only_linear_images_are_accepted(
    d: SharedAllocationDescription,
    width: int,
    height: int,
)
    requires
        d.describes(width, height),
    ensures
        d.version == 1,
        d.size == 64,
        d.buffer_id != 0,
        d.width == width && 1 <= width <= 8192,
        d.height == height && 1 <= height <= 8192,
        d.modifier == 0,
        d.fourcc == 0x3432_4241,
        d.plane_count == 1,
        d.layout_flags == 1,
        d.plane_stride % 4 == 0,
        width * 4 <= d.plane_stride,
        0 < d.allocation_size <= 256 * 1024 * 1024,
{
}

} // verus!
