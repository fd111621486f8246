//! Color state of displays and of the frames that they are shown. Every floating-point value is
//! held as the bits that transport it.

use vstd::prelude::*;

verus! {

/// Bytes of a description of a display's color capabilities.
pub const CAPABILITIES_SIZE: u32 = 48;

/// Bytes of a description of a frame's color.
pub const FRAME_COLOR_SIZE: u32 = 80;

/// What was observed of a physical display.
#[derive(Clone, Copy, Debug, PartialEq, Eq, Structural)]
pub struct HostDisplayColorCapabilities {
    pub version: u32,
    pub size: u32,
    pub generation: u64,
    pub display_id: i32,
    pub hdr_types: u32,
    pub wide_color_gamut: u32,
    pub usable_hdr_types: u32,
    pub max_luminance: u32,
    pub max_average_luminance: u32,
    pub min_luminance: u32,
    pub reserved: u32,
}

/// Immutable color state of an import: encoding 0 is SDR, 1 is BT.2020 with PQ, 2 is BT.2020 with
/// HLG, 3 is linear scRGB.
#[derive(Clone, Copy, Debug, PartialEq, Eq)]
pub struct DisplayFrameColor {
    pub version: u32,
    pub size: u32,
    pub generation: u64,
    pub format: u32,
    pub encoding: u32,
    pub has_static_metadata: u32,
    pub reserved: u32,
    pub primaries: [u32; 6],
    pub white_point: [u32; 2],
    pub max_mastering_luminance: u32,
    pub min_mastering_luminance: u32,
    pub max_content_light_level: u32,
    pub max_frame_average_light_level: u32,
}

impl DisplayFrameColor {
    /// The color of an ordinary frame.
    pub fn sdr(format: u32, generation: u64) -> (r: Self)
        ensures
            r.version == 1,
            r.size == FRAME_COLOR_SIZE,
            r.size == 80,
            r.generation == generation,
            r.format == format,
            r.encoding == 0,
            r.has_static_metadata == 0,
            r.reserved == 0,
            forall|i: int| 0 <= i < 6 ==> r.primaries[i] == 0,
            forall|i: int| 0 <= i < 2 ==> r.white_point[i] == 0,
            r.max_mastering_luminance == 0,
            r.min_mastering_luminance == 0,
            r.max_content_light_level == 0,
            r.max_frame_average_light_level == 0,
    {
        DisplayFrameColor {
            version: 1,
            size: FRAME_COLOR_SIZE,
            generation,
            format,
            encoding: 0,
            has_static_metadata: 0,
            reserved: 0,
            primaries: [0u32; 6],
            white_point: [0u32; 2],
            max_mastering_luminance: 0,
            min_mastering_luminance: 0,
            max_content_light_level: 0,
            max_frame_average_light_level: 0,
        }
    }
}

impl HostDisplayColorCapabilities {
    /// The description is of a version that is known, and says nothing that contradicts itself:
    /// only the two HDR types that are known, usable ones among those that the display has.
    pub open spec fn is_valid(&self) -> bool {
        &&& self.version == 1
        &&& self.size == CAPABILITIES_SIZE
        &&& self.reserved == 0
        &&& self.hdr_types <= 3
        &&& self.usable_hdr_types & !self.hdr_types == 0
        &&& self.wide_color_gamut <= 1
    }

    pub fn valid(&self) -> (r: bool)
        ensures
            r == self.is_valid(),
    {
        let types: u32 = self.hdr_types;
        assert((types & !3u32 == 0) == (types <= 3)) by (bit_vector);
        self.version == 1 && self.size == CAPABILITIES_SIZE && self.reserved == 0 && types & !3u32
            == 0 && self.usable_hdr_types & !types == 0 && self.wide_color_gamut <= 1
    }
}

/// What is usable is what the display has.
pub proof fn usable_types_are_present(c: HostDisplayColorCapabilities, bit: u32)
    requires
        c.is_valid(),
        bit < 32,
        c.usable_hdr_types & (1u32 << bit) != 0,
    ensures
        c.hdr_types & (1u32 << bit) != 0,
        bit < 2,
{
    let usable = c.usable_hdr_types;
    let types = c.hdr_types;
    assert(types & (1u32 << bit) != 0 && bit < 2) by (bit_vector)
        requires
            bit < 32,
            types <= 3,
            usable & !types == 0,
            usable & (1u32 << bit) != 0,
    ;
}

/// A description that makes sense is of the one version that there is and of its size, has nothing in
/// what is reserved, and says yes or no to a wide gamut.
pub proof fn only_known_descriptions_make_sense(c: HostDisplayColorCapabilities)
    ensures
        c.is_valid() ==> c.version == 1 && c.size == 48 && c.reserved == 0 && c.hdr_types < 4 && (c.wide_color_gamut
            == 0 || c.wide_color_gamut == 1),
        c.is_valid() && c.hdr_types == 0 ==> c.usable_hdr_types == 0,
        c.version == 1 && c.size == 48 && c.reserved == 0 && c.hdr_types < 4
            && c.usable_hdr_types == c.hdr_types && c.wide_color_gamut < 2 ==> c.is_valid(),
{
    let usable = c.usable_hdr_types;
    assert(usable & !0u32 == 0 ==> usable == 0) by (bit_vector);
    assert(usable & !usable == 0) by (bit_vector);
}

} // verus!
