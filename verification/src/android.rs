//! A display of the phone itself: its surfaces, the fences of its flips, and what it imports.

use crate::display::DisplayExternalResourceImport;
use crate::display_color::HostDisplayColorCapabilities;
use crate::shared_allocation::SharedAllocationDescription;
use std::collections::BTreeMap;
use vstd::prelude::*;

verus! {

/// The side of the plane that a guest's cursor has.
pub const CURSOR_PLANE_SIZE: u32 = 64;

/// The position that says that the guest hid its cursor.
pub const CURSOR_HIDDEN_POS: u32 = 0xffff_ffff;

pub const BYTES_PER_PIXEL: u32 = 4;

/// The size of a new surface: one with a parent is the cursor, and takes no size from the display's
/// parameters.
pub fn surface_size(parented: bool, requested: (u32, u32)) -> (r: (u32, u32))
    ensures
        r == (if parented {
            (CURSOR_PLANE_SIZE, CURSOR_PLANE_SIZE)
        } else {
            requested
        }),
        r == size_of_surface(parented, requested),
{
    if parented {
        (CURSOR_PLANE_SIZE, CURSOR_PLANE_SIZE)
    } else {
        requested
    }
}

/// A position that is not left of the screen or above it.
pub open spec fn on_screen(v: i32) -> u32 {
    if v < 0 {
        0
    } else {
        v as u32
    }
}

/// Where the cursor goes: at the edge, where it would go beyond.
pub fn set_position(x: i32, y: i32) -> (r: (u32, u32))
    ensures
        r == (on_screen(x), on_screen(y)),
{
    (
        if x < 0 {
            0
        } else {
            x as u32
        },
        if y < 0 {
            0
        } else {
            y as u32
        },
    )
}

/// Where the cursor goes when it is shown or hidden: nowhere, when it is shown, since the next
/// position does that.
pub fn set_cursor_visible(visible: bool) -> (r: Option<(u32, u32)>)
    ensures
        r == (if visible {
            None
        } else {
            Some((CURSOR_HIDDEN_POS, CURSOR_HIDDEN_POS))
        }),
        r == shown_at(visible),
{
    if visible {
        None
    } else {
        Some((CURSOR_HIDDEN_POS, CURSOR_HIDDEN_POS))
    }
}

/// No position of a cursor hides it.
pub proof fn positions_do_not_hide(v: i32)
    ensures
        on_screen(v) != CURSOR_HIDDEN_POS,
{
}

/// The stride and the size of a window's buffer in bytes, whose stride is in pixels.
pub fn buffer_layout(stride: i32, height: i32) -> (r: (u32, u32))
    requires
        stride >= 0,
        height >= 0,
        stride * BYTES_PER_PIXEL <= u32::MAX,
        stride * BYTES_PER_PIXEL * height <= u32::MAX,
    ensures
        r.0 == stride * BYTES_PER_PIXEL,
        r.1 == stride * BYTES_PER_PIXEL * height,
        r == buffer_of(stride as int, height as int),
{
    let stride_bytes: u32 = BYTES_PER_PIXEL * stride as u32;
    proof {
        assert(0 <= stride * 4 * height) by (nonlinear_arith)
            requires
                stride >= 0,
                height >= 0,
        ;
    }
    (stride_bytes, stride_bytes * height as u32)
}

/// Why an image is not flipped to.
#[derive(Clone, Copy, Debug, PartialEq, Eq, Structural)]
pub enum FlipError {
    /// The fence of the flip before was not collected.
    Uncollected,
    /// There is no such import.
    InvalidImport,
    /// The blit failed.
    Failed,
}

/// A surface, and the fence of its last flip.
pub struct AndroidSurface {
    pub pending_flip_fence: Option<i32>,
}

impl AndroidSurface {
    /// What a flip to an import is answered.
    pub open spec fn answer(&self, import: Option<i64>) -> Result<i64, FlipError> {
        if self.pending_flip_fence is Some {
            Err(FlipError::Uncollected)
        } else {
            match import {
                Some(h) => Ok(h),
                None => Err(FlipError::InvalidImport),
            }
        }
    }

    /// The surface once a flip has left a fence, or none.
    pub open spec fn with_fence(self, fence_fd: i32) -> Self {
        AndroidSurface {
            pending_flip_fence: if fence_fd >= 0 {
                Some(fence_fd)
            } else {
                None
            },
        }
    }

    /// The display has to outlive the surface.
    pub open spec fn keeps_the_display(self, retired: bool) -> bool {
        !retired || self.pending_flip_fence is Some
    }

    /// The fence that is collected, and the surface without it.
    pub open spec fn collected(self) -> (Option<i32>, Self) {
        (self.pending_flip_fence, AndroidSurface { pending_flip_fence: None })
    }

    pub fn new() -> (r: Self)
        ensures
            r.pending_flip_fence is None,
            forall|import: i64|
                #![trigger r.answer(Some(import))]
                r.answer(Some(import)) == Ok::<i64, FlipError>(import),
    {
        AndroidSurface { pending_flip_fence: None }
    }

    /// The handle that is flipped to. A fence that was not collected is not overwritten.
    pub fn flip_to(&self, import: Option<i64>) -> (r: Result<i64, FlipError>)
        ensures
            r == self.answer(import),
    {
        if self.pending_flip_fence.is_some() {
            return Err(FlipError::Uncollected);
        }
        match import {
            Some(h) => Ok(h),
            None => Err(FlipError::InvalidImport),
        }
    }

    /// Takes in what came of the flip. The fence is kept whether it succeeded or not.
    pub fn flipped(&mut self, fence_fd: i32, success: bool) -> (r: Result<(), FlipError>)
        ensures
            r == (if success {
                Ok(())
            } else {
                Err(FlipError::Failed)
            }),
            final(self).pending_flip_fence == (if fence_fd >= 0 {
                Some(fence_fd)
            } else {
                None
            }),
            *final(self) == old(self).with_fence(fence_fd),
            r is Ok <==> success,
    {
        self.pending_flip_fence = if fence_fd >= 0 {
            Some(fence_fd)
        } else {
            None
        };
        if success {
            Ok(())
        } else {
            Err(FlipError::Failed)
        }
    }

    /// Collects the fence.
    pub fn take_flip_completion_fence(&mut self) -> (r: Option<i32>)
        ensures
            r == old(self).pending_flip_fence,
            final(self).pending_flip_fence is None,
            (r, *final(self)) == old(self).collected(),
    {
        let fence: Option<i32> = self.pending_flip_fence;
        self.pending_flip_fence = None;
        fence
    }

    /// Whether the display has to outlive the surface: it was not retired, or its fence was not
    /// collected.
    pub fn outlived(&self, retired: bool) -> (r: bool)
        ensures
            r == (!retired || self.pending_flip_fence is Some),
            r == self.keeps_the_display(retired),
    {
        !retired || self.pending_flip_fence.is_some()
    }
}

/// How a buffer is imported.
#[derive(Clone, Copy, Debug, PartialEq, Eq, Structural)]
pub enum ImportRoute {
    Plain,
    /// With its color.
    Color,
    /// With its color, and transformed.
    ColorTransform,
}

/// Why a buffer is not imported.
#[derive(Clone, Copy, Debug, PartialEq, Eq, Structural)]
pub enum ImportError {
    NotDmabuf,
    InvalidSurface,
    TransformNeedsColor,
    TransformFormat,
    ColorFormat,
    Failed,
    /// It is still owned by the display.
    StillOwned,
}

/// How a buffer is imported, if it can be: its color speaks of its own format, and only a buffer
/// with a color is transformed.
pub open spec fn route_of(
    resource: DisplayExternalResourceImport,
    surface_known: bool,
) -> Result<ImportRoute, ImportError> {
    match resource {
        DisplayExternalResourceImport::Dmabuf(d) => if !surface_known {
            Err(ImportError::InvalidSurface)
        } else {
            match d.color {
                None => if d.has_transform {
                    Err(ImportError::TransformNeedsColor)
                } else {
                    Ok(ImportRoute::Plain)
                },
                Some(c) => if d.has_transform {
                    if c.format != d.fourcc {
                        Err(ImportError::TransformFormat)
                    } else {
                        Ok(ImportRoute::ColorTransform)
                    }
                } else if c.format != d.fourcc {
                    Err(ImportError::ColorFormat)
                } else {
                    Ok(ImportRoute::Color)
                },
            }
        },
        _ => Err(ImportError::NotDmabuf),
    }
}

/// How a buffer is imported, if it can be.
pub fn import_route(resource: &DisplayExternalResourceImport, surface_known: bool) -> (r: Result<
    ImportRoute,
    ImportError,
>)
    ensures
        r == route_of(*resource, surface_known),
{
    match resource {
        DisplayExternalResourceImport::Dmabuf(d) => {
            if !surface_known {
                return Err(ImportError::InvalidSurface);
            }
            match &d.color {
                None => if d.has_transform {
                    Err(ImportError::TransformNeedsColor)
                } else {
                    Ok(ImportRoute::Plain)
                },
                Some(c) => if d.has_transform {
                    if c.format != d.fourcc {
                        Err(ImportError::TransformFormat)
                    } else {
                        Ok(ImportRoute::ColorTransform)
                    }
                } else if c.format != d.fourcc {
                    Err(ImportError::ColorFormat)
                } else {
                    Ok(ImportRoute::Color)
                },
            }
        },
        _ => Err(ImportError::NotDmabuf),
    }
}

/// The handles of what was imported, by their ids.
pub struct AndroidImports {
    pub imports: BTreeMap<u32, i64>,
}

impl View for AndroidImports {
    type V = Map<u32, i64>;

    open spec fn view(&self) -> Map<u32, i64> {
        self.imports@
    }
}

impl AndroidImports {
    pub fn new() -> (r: Self)
        ensures
            r@ == Map::<u32, i64>::empty(),
    {
        AndroidImports { imports: BTreeMap::new() }
    }

    /// The handle of an import.
    pub fn get(&self, import_id: u32) -> (r: Option<i64>)
        ensures
            r == (if self@.contains_key(import_id) {
                Some(self@[import_id])
            } else {
                None
            }),
    {
        match self.imports.get(&import_id) {
            Some(h) => Some(*h),
            None => None,
        }
    }

    /// Keeps the handle of an import; a handle of zero is none.
    pub fn imported(&mut self, import_id: u32, raw_handle: i64) -> (r: Result<(), ImportError>)
        ensures
            r == (if raw_handle == 0 {
                Err(ImportError::Failed)
            } else {
                Ok(())
            }),
            final(self)@ == if r is Ok {
                old(self)@.insert(import_id, raw_handle)
            } else {
                old(self)@
            },
            final(self)@ == with_import(old(self)@, import_id, raw_handle),
            r is Ok <==> with_import(Map::<u32, i64>::empty(), import_id, raw_handle).contains_key(
                import_id,
            ),
    {
        if raw_handle == 0 {
            return Err(ImportError::Failed);
        }
        self.imports.insert(import_id, raw_handle);
        Ok(())
    }

    /// Takes in whether the display let go of an import: only then it is forgotten. One that is not
    /// known was let go of.
    pub fn try_release_import(&mut self, import_id: u32, released: bool) -> (r: Result<
        (),
        ImportError,
    >)
        ensures
            r == (if old(self)@.contains_key(import_id) && !released {
                Err(ImportError::StillOwned)
            } else {
                Ok(())
            }),
            final(self)@ == if r is Ok {
                old(self)@.remove(import_id)
            } else {
                old(self)@
            },
            final(self)@ == with_release(old(self)@, import_id, released),
            r is Ok <==> !with_release(old(self)@, import_id, released).contains_key(import_id),
    {
        if self.get(import_id).is_none() {
            assert(self@ =~= self@.remove(import_id));
            return Ok(());
        }
        if !released {
            return Err(ImportError::StillOwned);
        }
        self.imports.remove(&import_id);
        Ok(())
    }
}

/// What became of a buffer that was to be shared.
#[derive(Clone, Copy, Debug, PartialEq, Eq, Structural)]
pub enum Shared {
    /// It is usable.
    Usable,
    /// There is none.
    Missing,
    /// There is one, and it has to be given up.
    GiveUp,
}

/// What becomes of a buffer that was allocated to be shared: without a descriptor, or with a
/// description that is not of what was asked for, it is given up.
pub fn shared_buffer(
    allocated: bool,
    raw_fd: i32,
    description: &SharedAllocationDescription,
    width: u32,
    height: u32,
) -> (r: Shared)
    ensures
        r == (if !allocated {
            Shared::Missing
        } else if raw_fd < 0 || !description.describes(width as int, height as int) {
            Shared::GiveUp
        } else {
            Shared::Usable
        }),
        r == share_of(allocated, raw_fd, *description, width as int, height as int),
{
    if !allocated {
        return Shared::Missing;
    }
    if raw_fd < 0 {
        return Shared::GiveUp;
    }
    if !description.valid(width, height) {
        return Shared::GiveUp;
    }
    Shared::Usable
}

/// What is known of the colors of the display: nothing, unless the display answered and what it
/// said makes sense.
pub fn color_capabilities(answered: bool, capabilities: HostDisplayColorCapabilities) -> (r: Option<
    HostDisplayColorCapabilities,
>)
    ensures
        r == (if answered && capabilities.is_valid() {
            Some(capabilities)
        } else {
            None
        }),
        r == known_colors(answered, capabilities),
{
    if answered && capabilities.valid() {
        Some(capabilities)
    } else {
        None
    }
}

/// No fence is lost: a flip that left one has to be collected before the next flip.
pub proof fn fences_are_collected(s: AndroidSurface, import: Option<i64>)
    requires
        s.pending_flip_fence is Some,
    ensures
        s.answer(import) == Err::<i64, FlipError>(FlipError::Uncollected),
{
}

/// A cursor that is on the screen stays where it is, one that is not is at the edge, and cursors keep
/// their order.
pub proof fn cursors_keep_their_place(v: i32, w: i32)
    ensures
        v >= 0 ==> on_screen(v) == v,
        v < 0 ==> on_screen(v) == 0,
        v <= w ==> on_screen(v) <= on_screen(w),
{
}

/// The fence that a flip left is the one that is collected, once, and the next flip can follow then.
pub proof fn a_fence_is_collected_once(s: AndroidSurface, fence_fd: i32, import: i64)
    ensures
        ({
            let flipped = s.with_fence(fence_fd);
            let (fence, after) = flipped.collected();
            &&& fence_fd >= 0 ==> fence == Some(fence_fd) && flipped.answer(Some(import)) is Err
            &&& fence_fd < 0 ==> fence is None && flipped.answer(Some(import)) == Ok::<
                i64,
                FlipError,
            >(import)
            &&& after.collected().0 is None
            &&& after.answer(Some(import)) == Ok::<i64, FlipError>(import)
            &&& after.answer(None) == Err::<i64, FlipError>(FlipError::InvalidImport)
        }),
{
}

/// A buffer of pixels for a surface that is known is imported exactly where a color speaks of its
/// format and a transformation comes with a color; it is imported with the color that it has, and
/// transformed where that is asked for. Everything else is refused for what is wrong with it.
pub proof fn buffers_are_imported_as_what_they_are(
    resource: DisplayExternalResourceImport,
    surface_known: bool,
)
    ensures
        match resource {
            DisplayExternalResourceImport::Dmabuf(d) => {
                let fits = d.color is Some ==> d.color->0.format == d.fourcc;
                &&& route_of(resource, surface_known) is Ok <==> surface_known && fits && (
                d.has_transform ==> d.color is Some)
                &&& route_of(resource, surface_known) matches Ok(r) ==> {
                    &&& r == ImportRoute::Plain <==> d.color is None
                    &&& r == ImportRoute::ColorTransform <==> d.has_transform
                }
                &&& !surface_known ==> route_of(resource, surface_known) == Err::<
                    ImportRoute,
                    ImportError,
                >(ImportError::InvalidSurface)
                &&& surface_known && !fits ==> route_of(resource, surface_known) == Err::<
                    ImportRoute,
                    ImportError,
                >(
                    if d.has_transform {
                        ImportError::TransformFormat
                    } else {
                        ImportError::ColorFormat
                    },
                )
            },
            _ => route_of(resource, surface_known) == Err::<ImportRoute, ImportError>(
                ImportError::NotDmabuf,
            ),
        },
{
}

/// The imports once a handle was given for an id; zero is no handle.
pub open spec fn with_import(m: Map<u32, i64>, id: u32, raw_handle: i64) -> Map<u32, i64> {
    if raw_handle == 0 {
        m
    } else {
        m.insert(id, raw_handle)
    }
}

/// The imports once the display was asked to let go of one, and did or did not.
pub open spec fn with_release(m: Map<u32, i64>, id: u32, released: bool) -> Map<u32, i64> {
    if released || !m.contains_key(id) {
        m.remove(id)
    } else {
        m
    }
}

/// A handle that was imported is found under its id until the display has let go of it; as long as
/// the display still owns it, it is not forgotten. No other id is touched.
pub proof fn imports_last_until_the_display_lets_go(
    m: Map<u32, i64>,
    id: u32,
    raw_handle: i64,
    other: u32,
    released: bool,
)
    requires
        raw_handle != 0,
        other != id,
    ensures
        ({
            let held = with_import(m, id, raw_handle);
            &&& held.contains_key(id) && held[id] == raw_handle
            &&& with_release(held, id, false) == held
            &&& !with_release(held, id, true).contains_key(id)
            &&& with_release(held, other, released).contains_key(id)
            &&& with_release(held, other, released)[id] == raw_handle
            &&& m.contains_key(other) ==> held.contains_key(other) && held[other] == m[other]
            &&& with_import(m, id, 0) == m
        }),
{
}

/// The size of a new surface.
pub open spec fn size_of_surface(parented: bool, requested: (u32, u32)) -> (u32, u32) {
    if parented {
        (CURSOR_PLANE_SIZE, CURSOR_PLANE_SIZE)
    } else {
        requested
    }
}

/// Where a cursor goes when it is shown or hidden.
pub open spec fn shown_at(visible: bool) -> Option<(u32, u32)> {
    if visible {
        None
    } else {
        Some((CURSOR_HIDDEN_POS, CURSOR_HIDDEN_POS))
    }
}

/// A screen has the size that is asked for; the size of a cursor does not depend on it, and is a square
/// of 64. A cursor is hidden where no position can be, in both directions, and showing it moves it
/// nowhere.
pub proof fn cursors_are_squares(parented: bool, a: (u32, u32), b: (u32, u32), v: i32)
    ensures
        size_of_surface(false, a) == a,
        size_of_surface(true, a) == size_of_surface(true, b),
        size_of_surface(true, a).0 == 64 && size_of_surface(true, a).1 == 64,
        shown_at(true) is None,
        shown_at(false) matches Some((x, y)) && x == y && x == 0xffff_ffff && x != on_screen(v),
{
}

/// The stride and the size of a buffer, in bytes.
pub open spec fn buffer_of(stride: int, height: int) -> (u32, u32) {
    ((stride * BYTES_PER_PIXEL) as u32, (stride * BYTES_PER_PIXEL * height) as u32)
}

/// A pixel is four bytes, and a buffer as many strides as it has rows.
pub proof fn buffers_are_rows_of_pixels(stride: int, height: int)
    requires
        0 <= stride,
        0 <= height,
        stride * 4 <= u32::MAX,
        stride * 4 * height <= u32::MAX,
    ensures
        buffer_of(stride, height).0 == stride * 4,
        buffer_of(stride, height).1 == buffer_of(stride, height).0 * height,
{
    assert(0 <= stride * 4 * height) by (nonlinear_arith)
        requires
            0 <= stride,
            0 <= height,
    ;
}

/// The display can go before a surface exactly where the surface was retired and its last fence was
/// collected.
pub proof fn displays_outlive_their_fences(s: AndroidSurface, fence_fd: i32)
    requires
        fence_fd >= 0,
    ensures
        s.keeps_the_display(false),
        s.with_fence(fence_fd).keeps_the_display(true),
        !s.collected().1.keeps_the_display(true),
{
}

/// What becomes of a buffer that was allocated to be shared.
pub open spec fn share_of(
    allocated: bool,
    raw_fd: i32,
    description: SharedAllocationDescription,
    width: int,
    height: int,
) -> Shared {
    if !allocated {
        Shared::Missing
    } else if raw_fd < 0 || !description.describes(width, height) {
        Shared::GiveUp
    } else {
        Shared::Usable
    }
}

/// A buffer is shared exactly where it was allocated, has a descriptor and is what was asked for; one
/// that was allocated and is not shared is given up, and no other is.
pub proof fn buffers_that_are_shared(
    allocated: bool,
    raw_fd: i32,
    description: SharedAllocationDescription,
    width: int,
    height: int,
)
    ensures
        share_of(allocated, raw_fd, description, width, height) is Usable <==> allocated && raw_fd
            >= 0 && description.describes(width, height),
        share_of(allocated, raw_fd, description, width, height) is Missing <==> !allocated,
{
}

/// What is known of the colors of the display.
pub open spec fn known_colors(
    answered: bool,
    capabilities: HostDisplayColorCapabilities,
) -> Option<HostDisplayColorCapabilities> {
    if answered && capabilities.is_valid() {
        Some(capabilities)
    } else {
        None
    }
}

/// What is known of the colors is what the display said, and makes sense.
pub proof fn known_colors_make_sense(answered: bool, capabilities: HostDisplayColorCapabilities)
    ensures
        known_colors(answered, capabilities) matches Some(c) ==> c == capabilities && c.is_valid()
            && answered,
        known_colors(answered, capabilities) is None <==> !answered || !capabilities.is_valid(),
{
}

} // verus!
