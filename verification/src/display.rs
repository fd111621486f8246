//! What a display keeps of its surfaces, imports and event devices, and how it routes events.

use crate::display_color::DisplayFrameColor;
use crate::event_device::EventDeviceKind;
use crate::scanout::{GpuDisplayFramebuffer, PresentOutcome, ScanoutFrame};
use vstd::prelude::*;

verus! {

/// What a display refuses, and why.
#[derive(Clone, Copy, Debug, PartialEq, Eq, Structural)]
pub enum GpuDisplayError {
    /// Connection to compositor has been broken.
    ConnectionBroken,
    /// Failed to create a surface on the compositor.
    CreateSurface,
    /// Failed to import a buffer to the compositor.
    FailedImport,
    /// Native readers still own the import and its backing cannot be released.
    ImportRetirement,
    /// The display is held to copies by the CPU.
    ImportCapped,
    /// The import ID is invalid.
    InvalidImportId,
    /// The surface ID is invalid.
    InvalidSurfaceId,
    /// The method is unsupported by the implementation.
    Unsupported,
}

/// A surface type
#[derive(Clone, Copy, Debug, PartialEq, Eq, Structural)]
pub enum SurfaceType {
    /// Scanout surface
    Scanout,
    /// Mouse cursor surface
    Cursor,
}

/// Event token for display instances
#[derive(Clone, Copy, Debug, PartialEq, Eq, Structural)]
pub enum DisplayEventToken {
    Display,
    EventDevice { event_device_id: u32 },
}

#[derive(Clone, Copy, Debug, PartialEq, Eq, Structural)]
pub struct VkExtent3D {
    pub width: u32,
    pub height: u32,
    pub depth: u32,
}

#[derive(Clone, Debug)]
pub struct VulkanDisplayImageImportMetadata {
    pub flags: u32,
    pub image_type: i32,
    pub format: i32,
    pub extent: VkExtent3D,
    pub mip_levels: u32,
    pub array_layers: u32,
    pub samples: u32,
    pub tiling: i32,
    pub usage: u32,
    pub sharing_mode: i32,
    pub queue_family_indices: Vec<u32>,
    pub initial_layout: i32,
    pub allocation_size: u64,
    pub memory_type_index: u32,
    pub dedicated_allocation: bool,
}

#[derive(Clone, Copy, Debug, PartialEq, Eq, Structural)]
pub struct SemaphoreTimepoint {
    pub import_id: u32,
    pub value: u64,
}

#[derive(Clone, Copy, Debug, PartialEq, Eq, Structural)]
pub enum FlipToExtraInfo {
    Vulkan { old_layout: i32, new_layout: i32 },
}

/// A buffer that is offered to a display, as far as the display decides on it.
#[derive(Clone, Copy, Debug, PartialEq, Eq)]
pub struct DmabufImport {
    pub offset: u32,
    pub stride: u32,
    pub modifiers: u64,
    /// The producer has verified that this single-plane buffer holds a linear image with the
    /// supplied layout.
    pub linear_layout_verified: bool,
    pub width: u32,
    pub height: u32,
    pub fourcc: u32,
    /// Explicit immutable color metadata; without it, the frame is SDR.
    pub color: Option<DisplayFrameColor>,
    pub has_transform: bool,
}

/// A resource that is offered to a display.
pub enum DisplayExternalResourceImport {
    Dmabuf(DmabufImport),
    VulkanImage(VulkanDisplayImageImportMetadata),
    VulkanTimelineSemaphore,
}

/// An event that was waited for.
#[derive(Clone, Copy, Debug, PartialEq, Eq, Structural)]
pub struct WaitEvent {
    pub token: DisplayEventToken,
    pub is_readable: bool,
    pub is_writable: bool,
    pub is_hungup: bool,
}

/// A surface, and the number by which the compositor names it.
#[derive(Clone, Copy, Debug, PartialEq, Eq, Structural)]
pub struct Surface {
    pub id: u32,
    pub descriptor: u64,
}

/// An event device of the display.
#[derive(Clone, Copy, Debug, PartialEq, Eq, Structural)]
pub struct Device {
    pub id: u32,
    pub kind: EventDeviceKind,
}

/// What becomes of some events.
pub struct Dispatch {
    /// The display's connection hung up: nothing else is to be done.
    pub broken: bool,
    /// The devices that hung up, and are gone.
    pub removed: Vec<u32>,
    /// The devices that can be written: their buffers are flushed.
    pub flush: Vec<u32>,
    /// What can be read, in order.
    pub readable: Vec<DisplayEventToken>,
}

/// What came of asking for a part of a framebuffer.
pub enum Region<'a> {
    /// The surface has no framebuffer to hand out.
    NoFramebuffer,
    Part(GpuDisplayFramebuffer<'a>),
    /// The part does not lie in the framebuffer: the surface is flipped, which gives up the lock
    /// that handing out the framebuffer took.
    Release,
}

/// How hangups change the event devices.
#[verifier::ext_equal]
pub struct Hangups {
    pub devices: Seq<Device>,
    pub removed: Seq<u32>,
    pub broken: bool,
}

/// A device is among these.
pub open spec fn present(devices: Seq<Device>, id: u32) -> bool {
    exists|i: int| 0 <= i < devices.len() && #[trigger] devices[i].id == id
}

/// These devices without one.
pub open spec fn without(devices: Seq<Device>, id: u32) -> Seq<Device> {
    devices.filter(|d: Device| d.id != id)
}

/// The devices after the hangups among the first `n` events; the first hangup of the display ends
/// it.
pub open spec fn hangups(devices: Seq<Device>, events: Seq<WaitEvent>, n: nat) -> Hangups
    decreases n,
{
    if n == 0 {
        Hangups { devices, removed: Seq::empty(), broken: false }
    } else {
        let before = hangups(devices, events, (n - 1) as nat);
        let e = events[n - 1];
        if before.broken || !e.is_hungup {
            before
        } else {
            match e.token {
                DisplayEventToken::Display => Hangups { broken: true, ..before },
                DisplayEventToken::EventDevice { event_device_id } => if present(
                    before.devices,
                    event_device_id,
                ) {
                    Hangups {
                        devices: without(before.devices, event_device_id),
                        removed: before.removed.push(event_device_id),
                        broken: false,
                    }
                } else {
                    before
                },
            }
        }
    }
}

/// The devices that the first `n` events say can be written.
pub open spec fn writable(devices: Seq<Device>, events: Seq<WaitEvent>, n: nat) -> Seq<u32>
    decreases n,
{
    if n == 0 {
        Seq::empty()
    } else {
        let before = writable(devices, events, (n - 1) as nat);
        let e = events[n - 1];
        match e.token {
            DisplayEventToken::EventDevice { event_device_id } if e.is_writable && present(
                devices,
                event_device_id,
            ) => before.push(event_device_id),
            _ => before,
        }
    }
}

/// The tokens that the first `n` events say can be read.
pub open spec fn readable(events: Seq<WaitEvent>, n: nat) -> Seq<DisplayEventToken>
    decreases n,
{
    if n == 0 {
        Seq::empty()
    } else {
        let before = readable(events, (n - 1) as nat);
        let e = events[n - 1];
        if e.is_readable {
            before.push(e.token)
        } else {
            before
        }
    }
}

/// The devices of a kind, in order.
pub open spec fn of_kind(devices: Seq<Device>, kind: EventDeviceKind) -> Seq<u32>
    decreases devices.len(),
{
    if devices.len() == 0 {
        Seq::empty()
    } else {
        let before = of_kind(devices.drop_last(), kind);
        if devices.last().kind == kind {
            before.push(devices.last().id)
        } else {
            before
        }
    }
}

/// The surfaces that a compositor's number names, in order.
pub open spec fn named(surfaces: Seq<Surface>, descriptor: u64) -> Seq<u32>
    decreases surfaces.len(),
{
    if surfaces.len() == 0 {
        Seq::empty()
    } else {
        let before = named(surfaces.drop_last(), descriptor);
        if surfaces.last().descriptor == descriptor {
            before.push(surfaces.last().id)
        } else {
            before
        }
    }
}

/// The ids of these surfaces rise, and are below `bound`.
pub open spec fn rising(surfaces: Seq<Surface>, bound: int) -> bool {
    &&& forall|i: int| 0 <= i < surfaces.len() ==> 1 <= #[trigger] surfaces[i].id < bound
    &&& forall|i: int, j: int|
        0 <= i < j < surfaces.len() ==> #[trigger] surfaces[i].id < #[trigger] surfaces[j].id
}

/// A surface is among these.
pub open spec fn listed(surfaces: Seq<Surface>, id: u32) -> bool {
    exists|i: int| 0 <= i < surfaces.len() && #[trigger] surfaces[i].id == id
}

/// Taking one surface out leaves the others, in their order.
proof fn surfaces_without(surfaces: Seq<Surface>, gone: u32, bound: int)
    requires
        rising(surfaces, bound),
    ensures
        rising(surfaces.filter(|s: Surface| s.id != gone), bound),
        forall|id: u32|
            listed(surfaces.filter(|s: Surface| s.id != gone), id) == (listed(surfaces, id) && id
                != gone),
    decreases surfaces.len(),
{
    let keep = |s: Surface| s.id != gone;
    let b = surfaces.filter(keep);
    reveal(Seq::filter);
    if surfaces.len() > 0 {
        let rest = surfaces.drop_last();
        let last = surfaces.last();
        let a = rest.filter(keep);
        assert(surfaces[surfaces.len() - 1] == last);
        surfaces_without(rest, gone, last.id as int);
        assert forall|id: u32| listed(b, id) == (listed(surfaces, id) && id != gone) by {
            assert(listed(a, id) == (listed(rest, id) && id != gone));
            if listed(rest, id) {
                let i = choose|i: int| 0 <= i < rest.len() && #[trigger] rest[i].id == id;
                assert(surfaces[i].id == id);
            }
            if listed(a, id) {
                let i = choose|i: int| 0 <= i < a.len() && #[trigger] a[i].id == id;
                assert(b[i].id == id);
            }
            if listed(b, id) {
                let i = choose|i: int| 0 <= i < b.len() && #[trigger] b[i].id == id;
                if i < a.len() {
                    assert(a[i].id == id);
                }
            }
            if last.id == id && id != gone {
                assert(b[b.len() - 1].id == id);
            }
            if listed(surfaces, id) {
                let i = choose|i: int| 0 <= i < surfaces.len() && #[trigger] surfaces[i].id == id;
                if i < rest.len() {
                    assert(rest[i].id == id);
                }
            }
        }
    }
}

/// The ids of these devices rise, and are below `bound`.
pub open spec fn devices_rising(devices: Seq<Device>, bound: int) -> bool {
    &&& forall|i: int| 0 <= i < devices.len() ==> 1 <= #[trigger] devices[i].id < bound
    &&& forall|i: int, j: int|
        0 <= i < j < devices.len() ==> #[trigger] devices[i].id < #[trigger] devices[j].id
}

/// Taking one device out leaves the others in their order.
proof fn devices_without(devices: Seq<Device>, gone: u32, bound: int)
    requires
        devices_rising(devices, bound),
    ensures
        devices_rising(without(devices, gone), bound),
    decreases devices.len(),
{
    reveal(Seq::filter);
    let b = without(devices, gone);
    if devices.len() > 0 {
        let rest = devices.drop_last();
        let last = devices.last();
        let a = without(rest, gone);
        assert(devices[devices.len() - 1] == last);
        devices_without(rest, gone, last.id as int);
        assert(b =~= if last.id != gone {
            a.push(last)
        } else {
            a
        });
    }
}

/// The ids that a display gave out, what stands behind them, and whether imports are refused.
#[verifier::ext_equal]
pub struct DisplayState {
    pub next_id: int,
    pub devices: Seq<Device>,
    pub surfaces: Seq<Surface>,
    pub capped: bool,
}

/// What changes a display.
pub enum Call {
    /// An event device was taken in.
    ImportEventDevice(EventDeviceKind),
    /// A surface was created.
    SurfaceCreated(u64),
    ReleaseSurface(u32),
    CapTransportToCpu,
    /// A resource was imported.
    ResourceImported,
    TakeEventDevices,
    DispatchEvents(Seq<WaitEvent>),
}

impl Call {
    /// The call gives out an id.
    pub open spec fn gives_id(self) -> bool {
        self is ImportEventDevice || self is SurfaceCreated || self is ResourceImported
    }
}

impl DisplayState {
    /// A display that nothing was asked of.
    pub open spec fn opened() -> DisplayState {
        DisplayState { next_id: 1, devices: Seq::empty(), surfaces: Seq::empty(), capped: false }
    }

    /// The display after a call.
    pub open spec fn after(self, call: Call) -> DisplayState {
        match call {
            Call::ImportEventDevice(kind) => DisplayState {
                next_id: self.next_id + 1,
                devices: self.devices.push(Device { id: self.next_id as u32, kind }),
                ..self
            },
            Call::SurfaceCreated(descriptor) => DisplayState {
                next_id: self.next_id + 1,
                surfaces: self.surfaces.push(Surface { id: self.next_id as u32, descriptor }),
                ..self
            },
            Call::ReleaseSurface(surface_id) => DisplayState {
                surfaces: self.surfaces.filter(|s: Surface| s.id != surface_id),
                ..self
            },
            Call::CapTransportToCpu => DisplayState { capped: true, ..self },
            Call::ResourceImported => DisplayState { next_id: self.next_id + 1, ..self },
            Call::TakeEventDevices => DisplayState { devices: Seq::empty(), ..self },
            Call::DispatchEvents(events) => DisplayState {
                devices: hangups(self.devices, events, events.len()).devices,
                ..self
            },
        }
    }

    /// The id that a new import will have, unless imports are refused.
    pub open spec fn new_import(self) -> Result<u32, GpuDisplayError> {
        if self.capped {
            Err(GpuDisplayError::ImportCapped)
        } else {
            Ok(self.next_id as u32)
        }
    }

    /// The next buffer of a surface is in use, given the surface's own answer.
    pub open spec fn in_use(self, surface_id: u32, answer: bool) -> bool {
        listed(self.surfaces, surface_id) && answer
    }

    /// A surface was told to close, given its own answer.
    pub open spec fn closing(self, surface_id: u32, answer: bool) -> bool {
        listed(self.surfaces, surface_id) ==> answer
    }

    /// The id that a new surface will have, unless its parent is missing.
    pub open spec fn new_surface(self, parent: Option<u32>) -> Result<u32, GpuDisplayError> {
        if parent is Some && !listed(self.surfaces, parent->0) {
            Err(GpuDisplayError::InvalidSurfaceId)
        } else {
            Ok(self.next_id as u32)
        }
    }

    /// The display after some calls, one after the other.
    pub open spec fn after_all(self, calls: Seq<Call>) -> DisplayState
        decreases calls.len(),
    {
        if calls.len() == 0 {
            self
        } else {
            self.after_all(calls.drop_last()).after(calls.last())
        }
    }
}

/// The state of a display: the ids that it gave out, and what stands behind them.
pub struct GpuDisplay {
    pub next_id: u32,
    pub event_devices: Vec<Device>,
    pub surfaces: Vec<Surface>,
    /// Imports are refused: the display is held to copies by the CPU.
    pub dmabuf_import_capped: bool,
}

impl View for GpuDisplay {
    type V = DisplayState;

    open spec fn view(&self) -> DisplayState {
        DisplayState {
            next_id: self.next_id as int,
            devices: self.event_devices@,
            surfaces: self.surfaces@,
            capped: self.dmabuf_import_capped,
        }
    }
}

impl GpuDisplay {
    /// Ids are in use once, and the next one is not in use.
    pub open spec fn wf(&self) -> bool {
        &&& self.next_id >= 1
        &&& rising(self.surfaces@, self.next_id as int)
        &&& devices_rising(self.event_devices@, self.next_id as int)
    }

    /// A surface of that id exists.
    pub open spec fn has(&self, id: u32) -> bool {
        listed(self.surfaces@, id)
    }

    /// A display without surfaces, that may import.
    pub fn open() -> (r: GpuDisplay)
        ensures
            r.wf(),
            r.next_id == 1,
            r@ == DisplayState::opened(),
            r.event_devices@ == Seq::<Device>::empty(),
            r.surfaces@ == Seq::<Surface>::empty(),
            !r.dmabuf_import_capped,
    {
        GpuDisplay {
            next_id: 1,
            event_devices: Vec::new(),
            surfaces: Vec::new(),
            dmabuf_import_capped: false,
        }
    }

    /// Whether a surface exists: without it, an operation on it is refused.
    pub fn surface(&self, surface_id: u32) -> (r: Result<(), GpuDisplayError>)
        ensures
            r == (if self.has(surface_id) {
                Ok(())
            } else {
                Err(GpuDisplayError::InvalidSurfaceId)
            }),
    {
        let mut i: usize = 0;
        while i < self.surfaces.len()
            invariant
                i <= self.surfaces@.len(),
                forall|j: int| 0 <= j < i ==> #[trigger] self.surfaces@[j].id != surface_id,
            decreases self.surfaces.len() - i,
        {
            if self.surfaces[i].id == surface_id {
                return Ok(());
            }
            i = i + 1;
        }
        Err(GpuDisplayError::InvalidSurfaceId)
    }

    /// The id that a new surface will have, if its parent exists. The id is used up only once the
    /// surface was created.
    pub fn create_surface(&self, parent_surface_id: Option<u32>) -> (r: Result<
        u32,
        GpuDisplayError,
    >)
        ensures
            r == (match parent_surface_id {
                Some(parent) if !self.has(parent) => Err(GpuDisplayError::InvalidSurfaceId),
                _ => Ok(self.next_id),
            }),
            r == self@.new_surface(parent_surface_id),
    {
        if let Some(parent) = parent_surface_id {
            if self.surface(parent).is_err() {
                return Err(GpuDisplayError::InvalidSurfaceId);
            }
        }
        Ok(self.next_id)
    }

    /// Takes in the surface that was created, and gives its id.
    pub fn surface_created(&mut self, descriptor: u64) -> (r: u32)
        requires
            old(self).wf(),
            old(self).next_id < u32::MAX,
        ensures
            final(self).wf(),
            r == old(self).next_id,
            final(self)@ == old(self)@.after(Call::SurfaceCreated(descriptor)),
    {
        let id: u32 = self.next_id;
        self.next_id = id + 1;
        self.surfaces.push(Surface { id, descriptor });
        id
    }

    /// Gives up a surface.
    pub fn release_surface(&mut self, surface_id: u32)
        requires
            old(self).wf(),
        ensures
            final(self).wf(),
            !final(self).has(surface_id),
            forall|id: u32| id != surface_id ==> final(self).has(id) == old(self).has(id),
            final(self)@ == old(self)@.after(Call::ReleaseSurface(surface_id)),
    {
        let mut rest: Vec<Surface> = Vec::new();
        let ghost keep = |s: Surface| s.id != surface_id;
        let mut i: usize = 0;
        assert(self.surfaces@.take(0).filter(keep) =~= Seq::<Surface>::empty()) by {
            reveal(Seq::filter);
        }
        while i < self.surfaces.len()
            invariant
                i <= self.surfaces@.len(),
                keep == (|s: Surface| s.id != surface_id),
                rest@ == self.surfaces@.take(i as int).filter(keep),
            decreases self.surfaces.len() - i,
        {
            proof {
                assert(self.surfaces@.take(i + 1).drop_last() =~= self.surfaces@.take(i as int));
                reveal(Seq::filter);
            }
            if self.surfaces[i].id != surface_id {
                rest.push(self.surfaces[i]);
            }
            i = i + 1;
        }
        assert(self.surfaces@.take(i as int) =~= self.surfaces@);
        proof {
            surfaces_without(self.surfaces@, surface_id, self.next_id as int);
        }
        self.surfaces = rest;
    }

    /// Refuses imports for the rest of the display's life.
    pub fn cap_transport_to_cpu(&mut self)
        ensures
            final(self)@ == old(self)@.after(Call::CapTransportToCpu),
            old(self).wf() ==> final(self).wf(),
    {
        self.dmabuf_import_capped = true;
    }

    /// Takes in an event device, and gives its id.
    pub fn import_event_device(&mut self, kind: EventDeviceKind) -> (r: u32)
        requires
            old(self).wf(),
            old(self).next_id < u32::MAX,
        ensures
            final(self).wf(),
            r == old(self).next_id,
            final(self)@ == old(self)@.after(Call::ImportEventDevice(kind)),
    {
        let id: u32 = self.next_id;
        self.next_id = id + 1;
        self.event_devices.push(Device { id, kind });
        id
    }

    /// The id that a new import will have, unless imports are refused. The id is used up only once
    /// the import was made.
    pub fn import_resource(&self) -> (r: Result<u32, GpuDisplayError>)
        ensures
            r == (if self.dmabuf_import_capped {
                Err(GpuDisplayError::ImportCapped)
            } else {
                Ok(self.next_id)
            }),
            r == self@.new_import(),
    {
        if self.dmabuf_import_capped {
            return Err(GpuDisplayError::ImportCapped);
        }
        Ok(self.next_id)
    }

    /// Takes in the import that was made, and gives its id.
    pub fn resource_imported(&mut self) -> (r: u32)
        requires
            old(self).wf(),
            old(self).next_id < u32::MAX,
        ensures
            final(self).wf(),
            r == old(self).next_id,
            final(self)@ == old(self)@.after(Call::ResourceImported),
    {
        let id: u32 = self.next_id;
        self.next_id = id + 1;
        id
    }

    /// Whether the backend has to be asked if it can import: where imports are refused, the answer
    /// is no already.
    pub fn is_dmabuf_import_supported(&self) -> (r: bool)
        ensures
            r == !self.dmabuf_import_capped,
            r == self@.new_import() is Ok,
    {
        !self.dmabuf_import_capped
    }

    /// Whether the next buffer of a surface is in use, given the surface's own answer.
    pub fn next_buffer_in_use(&self, surface_id: u32, answer: bool) -> (r: bool)
        ensures
            r == (self.has(surface_id) && answer),
            r == self@.in_use(surface_id, answer),
    {
        self.surface(surface_id).is_ok() && answer
    }

    /// Whether a surface was told to close, given the surface's own answer: one that is gone was.
    pub fn close_requested(&self, surface_id: u32, answer: bool) -> (r: bool)
        ensures
            r == (self.has(surface_id) ==> answer),
            r == self@.closing(surface_id, answer),
    {
        self.surface(surface_id).is_err() || answer
    }

    /// The surfaces that an event is for. Where there is none, the event is handled without one.
    pub fn dispatch_display_events(&self, surface_descriptor: u64) -> (r: Vec<u32>)
        ensures
            r@ == named(self.surfaces@, surface_descriptor),
    {
        let mut out: Vec<u32> = Vec::new();
        let mut i: usize = 0;
        while i < self.surfaces.len()
            invariant
                i <= self.surfaces@.len(),
                out@ == named(self.surfaces@.take(i as int), surface_descriptor),
            decreases self.surfaces.len() - i,
        {
            assert(self.surfaces@.take(i + 1).drop_last() =~= self.surfaces@.take(i as int));
            if self.surfaces[i].descriptor == surface_descriptor {
                out.push(self.surfaces[i].id);
            }
            i = i + 1;
        }
        assert(self.surfaces@.take(i as int) =~= self.surfaces@);
        out
    }

    /// The devices that a report goes to: all of its kind.
    pub fn recipients(&self, kind: EventDeviceKind) -> (r: Vec<u32>)
        ensures
            r@ == of_kind(self.event_devices@, kind),
    {
        let mut out: Vec<u32> = Vec::new();
        let mut i: usize = 0;
        while i < self.event_devices.len()
            invariant
                i <= self.event_devices@.len(),
                out@ == of_kind(self.event_devices@.take(i as int), kind),
            decreases self.event_devices.len() - i,
        {
            assert(self.event_devices@.take(i + 1).drop_last() =~= self.event_devices@.take(
                i as int,
            ));
            if self.event_devices[i].kind == kind {
                out.push(self.event_devices[i].id);
            }
            i = i + 1;
        }
        assert(self.event_devices@.take(i as int) =~= self.event_devices@);
        out
    }

    /// The devices go to the caller.
    pub fn take_event_devices(&mut self) -> (r: Vec<Device>)
        ensures
            r@ == old(self).event_devices@,
            final(self)@ == old(self)@.after(Call::TakeEventDevices),
            old(self).wf() ==> final(self).wf(),
    {
        let mut out: Vec<Device> = Vec::new();
        std::mem::swap(&mut out, &mut self.event_devices);
        out
    }

    /// Whether a device is there.
    fn has_device(&self, id: u32) -> (r: bool)
        ensures
            r == present(self.event_devices@, id),
    {
        let mut i: usize = 0;
        while i < self.event_devices.len()
            invariant
                i <= self.event_devices@.len(),
                forall|j: int| 0 <= j < i ==> #[trigger] self.event_devices@[j].id != id,
            decreases self.event_devices.len() - i,
        {
            if self.event_devices[i].id == id {
                return true;
            }
            i = i + 1;
        }
        false
    }

    /// Takes a device out.
    fn remove_device(&mut self, id: u32)
        ensures
            old(self).wf() ==> final(self).wf(),
            final(self).event_devices@ == without(old(self).event_devices@, id),
            final(self).next_id == old(self).next_id,
            final(self).surfaces@ == old(self).surfaces@,
            final(self).dmabuf_import_capped == old(self).dmabuf_import_capped,
    {
        let mut rest: Vec<Device> = Vec::new();
        let ghost keep = |d: Device| d.id != id;
        let mut i: usize = 0;
        assert(self.event_devices@.take(0).filter(keep) =~= Seq::<Device>::empty()) by {
            reveal(Seq::filter);
        }
        while i < self.event_devices.len()
            invariant
                i <= self.event_devices@.len(),
                keep == (|d: Device| d.id != id),
                rest@ == self.event_devices@.take(i as int).filter(keep),
            decreases self.event_devices.len() - i,
        {
            proof {
                assert(self.event_devices@.take(i + 1).drop_last() =~= self.event_devices@.take(
                    i as int,
                ));
                reveal(Seq::filter);
            }
            if self.event_devices[i].id != id {
                rest.push(self.event_devices[i]);
            }
            i = i + 1;
        }
        assert(self.event_devices@.take(i as int) =~= self.event_devices@);
        proof {
            if self.wf() {
                devices_without(self.event_devices@, id, self.next_id as int);
            }
        }
        self.event_devices = rest;
    }

    /// Decides what becomes of some events: hangups come first, and one of the display itself ends
    /// everything; what can be written comes next, and what can be read last.
    pub fn dispatch_events(&mut self, events: &[WaitEvent]) -> (r: Dispatch)
        ensures
            ({
                let h = hangups(old(self).event_devices@, events@, events@.len());
                &&& r.broken == h.broken
                &&& r.removed@ == h.removed
                &&& r.flush@ == if h.broken {
                    Seq::empty()
                } else {
                    writable(h.devices, events@, events@.len())
                }
                &&& r.readable@ == if h.broken {
                    Seq::empty()
                } else {
                    readable(events@, events@.len())
                }
            }),
            final(self)@ == old(self)@.after(Call::DispatchEvents(events@)),
            old(self).wf() ==> final(self).wf(),
    {
        let mut removed: Vec<u32> = Vec::new();
        let mut flush: Vec<u32> = Vec::new();
        let mut read: Vec<DisplayEventToken> = Vec::new();
        let mut broken: bool = false;
        let ghost before = self.event_devices@;
        let mut i: usize = 0;
        while i < events.len()
            invariant
                i <= events@.len(),
                events.len() == events@.len(),
                old(self).wf() ==> self.wf(),
                self.next_id == old(self).next_id,
                self.surfaces@ == old(self).surfaces@,
                self.dmabuf_import_capped == old(self).dmabuf_import_capped,
                (Hangups { devices: self.event_devices@, removed: removed@, broken })
                    == hangups(before, events@, i as nat),
            decreases events.len() - i,
        {
            let e = events[i];
            if !broken && e.is_hungup {
                match e.token {
                    DisplayEventToken::Display => {
                        broken = true;
                    },
                    DisplayEventToken::EventDevice { event_device_id } => {
                        if self.has_device(event_device_id) {
                            self.remove_device(event_device_id);
                            removed.push(event_device_id);
                        }
                    },
                }
            }
            assert((Hangups { devices: self.event_devices@, removed: removed@, broken })
                =~= hangups(before, events@, (i + 1) as nat));
            i = i + 1;
        }
        if broken {
            return Dispatch { broken, removed, flush, readable: read };
        }
        let mut j: usize = 0;
        while j < events.len()
            invariant
                j <= events@.len(),
                events.len() == events@.len(),
                flush@ == writable(self.event_devices@, events@, j as nat),
                read@ == readable(events@, j as nat),
            decreases events.len() - j,
        {
            let e = events[j];
            if e.is_writable {
                match e.token {
                    DisplayEventToken::Display => {},
                    DisplayEventToken::EventDevice { event_device_id } => {
                        if self.has_device(event_device_id) {
                            flush.push(event_device_id);
                        }
                    },
                }
            }
            if e.is_readable {
                read.push(e.token);
            }
            j = j + 1;
        }
        Dispatch { broken, removed, flush, readable: read }
    }
}

/// Narrows the framebuffer that a surface handed out to a rectangle, or says to give it up.
pub fn framebuffer_region<'a>(
    framebuffer: Option<GpuDisplayFramebuffer<'a>>,
    x: u32,
    y: u32,
    width: u32,
    height: u32,
) -> (r: Region<'a>)
    requires
        framebuffer matches Some(fb) ==> fb.wf(),
    ensures
        match framebuffer {
            None => r is NoFramebuffer,
            Some(fb) => {
                let fits = crate::scanout::region_fits(
                    fb.framebuffer@.len() as int,
                    fb.stride,
                    fb.bytes_per_pixel,
                    x,
                    y,
                    width,
                    height,
                );
                if fits {
                    &&& r matches Region::Part(part) && part.wf() && part.framebuffer@
                        == fb.framebuffer@ && final(part.framebuffer)@ == final(fb.framebuffer)@
                        && part.stride == fb.stride && part.bytes_per_pixel == fb.bytes_per_pixel
                        && part.fourcc == fb.fourcc && part.offset == crate::scanout::region_offset(
                        fb.stride,
                        fb.bytes_per_pixel,
                        x,
                        y,
                    ) && part.len == crate::scanout::region_len(
                        fb.stride,
                        fb.bytes_per_pixel,
                        width,
                        height,
                    )
                } else {
                    r is Release
                }
            },
        },
{
    match framebuffer {
        None => Region::NoFramebuffer,
        Some(fb) => {
            let mut fb = fb;
            if fb.sub_region(x, y, width, height) {
                Region::Part(fb)
            } else {
                Region::Release
            }
        },
    }
}

/// Copies a frame into the framebuffer that a surface handed out. Where it did, the surface is
/// flipped.
pub fn present_frame<'a>(
    framebuffer: Option<GpuDisplayFramebuffer<'a>>,
    frame: &ScanoutFrame,
) -> (r: PresentOutcome)
    requires
        framebuffer matches Some(fb) ==> fb.wf(),
    ensures
        match framebuffer {
            None => r == PresentOutcome::NoFramebuffer,
            Some(fb) => {
                &&& r == PresentOutcome::Flipped
                &&& final(fb.framebuffer)@.len() == fb.framebuffer@.len()
                &&& final(fb.framebuffer)@.subrange(fb.offset as int, fb.offset + fb.len)
                    == fb.with_frame(*frame)
                &&& forall|i: int|
                    0 <= i < fb.framebuffer@.len() && !(fb.offset <= i < fb.offset + fb.len)
                        ==> final(fb.framebuffer)@[i] == fb.framebuffer@[i]
            },
        },
{
    match framebuffer {
        None => PresentOutcome::NoFramebuffer,
        Some(fb) => {
            let mut fb = fb;
            fb.copy_from_frame(frame);
            PresentOutcome::Flipped
        },
    }
}

/// An id that a new surface or import gets is not that of a surface or an event device.
pub proof fn ids_are_new(d: GpuDisplay)
    requires
        d.wf(),
    ensures
        !d.has(d.next_id),
        !present(d.event_devices@, d.next_id),
{
}

/// A display that was capped stays capped, whatever is called afterwards: it refuses every import,
/// and does not ask the backend whether it could.
pub proof fn a_cap_cannot_be_undone(s: DisplayState, calls: Seq<Call>, i: int)
    requires
        0 <= i < calls.len(),
        calls[i] is CapTransportToCpu,
    ensures
        s.after_all(calls).capped,
        forall|d: GpuDisplay| #[trigger] d@ == s.after_all(calls) ==> d.dmabuf_import_capped,
    decreases calls.len(),
{
    if i < calls.len() - 1 {
        assert(calls.drop_last()[i] == calls[i]);
        a_cap_cannot_be_undone(s, calls.drop_last(), i);
    }
}

/// Ids do not fall, and are above zero.
proof fn ids_do_not_fall(s: DisplayState, calls: Seq<Call>, n: int)
    requires
        s.next_id >= 1,
        0 <= n <= calls.len(),
    ensures
        1 <= s.after_all(calls.take(n)).next_id <= s.after_all(calls).next_id,
    decreases calls.len(),
{
    if calls.len() == 0 {
        assert(calls.take(n) =~= calls);
    } else if n == calls.len() {
        assert(calls.take(n) =~= calls);
        ids_do_not_fall(s, calls.drop_last(), 0);
    } else {
        assert(calls.drop_last().take(n) =~= calls.take(n));
        ids_do_not_fall(s, calls.drop_last(), n);
    }
}

/// Of two calls that give out an id, the later one gives the greater, and none gives zero. What is
/// called in between does not matter; an import that fails is no call, and uses up no id.
pub proof fn ids_rise(s: DisplayState, calls: Seq<Call>, i: int, j: int)
    requires
        s.next_id >= 1,
        0 <= i < j <= calls.len(),
        calls[i].gives_id(),
    ensures
        1 <= s.after_all(calls.take(i)).next_id < s.after_all(calls.take(j)).next_id,
{
    let b = calls.take(j);
    assert(b.take(i) =~= calls.take(i));
    assert(b.take(i + 1).drop_last() =~= calls.take(i));
    assert(b.take(i + 1).last() == calls[i]);
    ids_do_not_fall(s, b, i + 1);
    ids_do_not_fall(s, b, i);
}

/// A device that hung up is gone, and no other one is, as long as the connection holds.
pub proof fn a_hung_up_device_is_gone(
    devices: Seq<Device>,
    events: Seq<WaitEvent>,
    n: nat,
    id: u32,
)
    requires
        n <= events.len(),
        !hangups(devices, events, n).broken,
    ensures
        present(hangups(devices, events, n).devices, id) == (present(devices, id) && forall|i: int|
            0 <= i < n && #[trigger] events[i].is_hungup ==> events[i].token
                != (DisplayEventToken::EventDevice { event_device_id: id })),
    decreases n,
{
    if n > 0 {
        a_hung_up_device_is_gone(devices, events, (n - 1) as nat, id);
        let before = hangups(devices, events, (n - 1) as nat);
        let e = events[n - 1];
        if e.is_hungup {
            if let DisplayEventToken::EventDevice { event_device_id } = e.token {
                without_one(before.devices, event_device_id, id);
            }
        }
    }
}

/// Taking one device out leaves the others.
proof fn without_one(devices: Seq<Device>, gone: u32, id: u32)
    ensures
        present(without(devices, gone), id) == (present(devices, id) && id != gone),
    decreases devices.len(),
{
    reveal(Seq::filter);
    if devices.len() > 0 {
        let rest = devices.drop_last();
        without_one(rest, gone, id);
        let a = without(rest, gone);
        let b = without(devices, gone);
        if present(rest, id) {
            let i = choose|i: int| 0 <= i < rest.len() && #[trigger] rest[i].id == id;
            assert(devices[i].id == id);
        }
        if present(a, id) {
            let i = choose|i: int| 0 <= i < a.len() && #[trigger] a[i].id == id;
            assert(b[i].id == id);
        }
        if present(b, id) {
            let i = choose|i: int| 0 <= i < b.len() && #[trigger] b[i].id == id;
            if i < a.len() {
                assert(a[i].id == id);
            } else {
                assert(devices[devices.len() - 1].id == id);
            }
        }
        if devices.last().id == id {
            assert(devices[devices.len() - 1].id == id);
            if id != gone {
                assert(b[b.len() - 1].id == id);
            }
        }
        if present(devices, id) {
            let i = choose|i: int| 0 <= i < devices.len() && #[trigger] devices[i].id == id;
            if i < rest.len() {
                assert(rest[i].id == id);
            }
        }
    }
}

/// A broken connection leaves nothing to do, whatever else happened.
pub proof fn a_broken_connection_stays_broken(
    devices: Seq<Device>,
    events: Seq<WaitEvent>,
    n: nat,
    m: nat,
)
    requires
        n <= m <= events.len(),
        hangups(devices, events, n).broken,
    ensures
        hangups(devices, events, m) == hangups(devices, events, n),
    decreases m,
{
    if n < m {
        a_broken_connection_stays_broken(devices, events, n, (m - 1) as nat);
    }
}

/// An id is among those of a kind exactly where a device of that kind has it.
pub proof fn reports_go_to_their_kind(devices: Seq<Device>, kind: EventDeviceKind, id: u32)
    ensures
        of_kind(devices, kind).contains(id) <==> exists|i: int|
            0 <= i < devices.len() && #[trigger] devices[i] == (Device { id, kind }),
    decreases devices.len(),
{
    if devices.len() > 0 {
        let rest = devices.drop_last();
        let last = devices.last();
        reports_go_to_their_kind(rest, kind, id);
        let a = of_kind(rest, kind);
        let b = of_kind(devices, kind);
        if a.contains(id) {
            let i = choose|i: int| 0 <= i < rest.len() && #[trigger] rest[i] == (Device { id, kind });
            assert(devices[i] == (Device { id, kind }));
            let j = choose|j: int| 0 <= j < a.len() && a[j] == id;
            assert(b[j] == id);
        }
        if last == (Device { id, kind }) {
            assert(devices[devices.len() - 1] == (Device { id, kind }));
            assert(b[b.len() - 1] == id);
        }
        if b.contains(id) {
            let j = choose|j: int| 0 <= j < b.len() && b[j] == id;
            if j < a.len() {
                assert(a[j] == id);
            } else {
                assert(devices[devices.len() - 1] == (Device { id, kind }));
            }
        }
        if exists|i: int| 0 <= i < devices.len() && #[trigger] devices[i] == (Device { id, kind }) {
            let i = choose|i: int|
                0 <= i < devices.len() && #[trigger] devices[i] == (Device { id, kind });
            if i < rest.len() {
                assert(rest[i] == (Device { id, kind }));
            }
        }
    }
}

/// A surface is among those that a number names exactly where it is a surface of that number.
pub proof fn events_go_to_the_surfaces_named(surfaces: Seq<Surface>, descriptor: u64, id: u32)
    ensures
        named(surfaces, descriptor).contains(id) <==> exists|i: int|
            0 <= i < surfaces.len() && #[trigger] surfaces[i] == (Surface { id, descriptor }),
    decreases surfaces.len(),
{
    if surfaces.len() > 0 {
        let rest = surfaces.drop_last();
        let last = surfaces.last();
        let s = Surface { id, descriptor };
        events_go_to_the_surfaces_named(rest, descriptor, id);
        let a = named(rest, descriptor);
        let b = named(surfaces, descriptor);
        if a.contains(id) {
            let i = choose|i: int| 0 <= i < rest.len() && #[trigger] rest[i] == s;
            assert(surfaces[i] == s);
            let j = choose|j: int| 0 <= j < a.len() && a[j] == id;
            assert(b[j] == id);
        }
        if last == s {
            assert(surfaces[surfaces.len() - 1] == s);
            assert(b[b.len() - 1] == id);
        }
        if b.contains(id) {
            let j = choose|j: int| 0 <= j < b.len() && b[j] == id;
            if j < a.len() {
                assert(a[j] == id);
            } else {
                assert(surfaces[surfaces.len() - 1] == s);
            }
        }
        if exists|i: int| 0 <= i < surfaces.len() && #[trigger] surfaces[i] == s {
            let i = choose|i: int| 0 <= i < surfaces.len() && #[trigger] surfaces[i] == s;
            if i < rest.len() {
                assert(rest[i] == s);
            }
        }
    }
}

/// A token can be read exactly where an event says so, and the later events add theirs at the end.
pub proof fn what_can_be_read_is_read(events: Seq<WaitEvent>, n: nat, token: DisplayEventToken)
    requires
        n <= events.len(),
    ensures
        readable(events, n).contains(token) <==> exists|i: int|
            0 <= i < n && #[trigger] events[i].token == token && events[i].is_readable,
        readable(events, n).len() <= n,
        (forall|i: int| 0 <= i < n ==> #[trigger] events[i].is_readable) ==> readable(events, n)
            == Seq::new(n, |i: int| events[i].token),
    decreases n,
{
    if n > 0 {
        let m = (n - 1) as nat;
        what_can_be_read_is_read(events, m, token);
        let a = readable(events, m);
        let b = readable(events, n);
        if a.contains(token) {
            let j = choose|j: int| 0 <= j < a.len() && a[j] == token;
            assert(b[j] == token);
        }
        if events[m as int].is_readable && events[m as int].token == token {
            assert(b[b.len() - 1] == token);
        }
        if b.contains(token) {
            let j = choose|j: int| 0 <= j < b.len() && b[j] == token;
            if j < a.len() {
                assert(a[j] == token);
            }
        }
        if forall|i: int| 0 <= i < n ==> #[trigger] events[i].is_readable {
            assert(events[m as int].is_readable);
            assert(b =~= Seq::new(n, |i: int| events[i].token));
        }
    } else {
        assert(readable(events, n) =~= Seq::new(n, |i: int| events[i].token));
    }
}

/// A device is flushed exactly where an event says that it can be written and it is still there.
pub proof fn what_can_be_written_is_flushed(
    devices: Seq<Device>,
    events: Seq<WaitEvent>,
    n: nat,
    id: u32,
)
    requires
        n <= events.len(),
    ensures
        writable(devices, events, n).contains(id) <==> present(devices, id) && exists|i: int|
            0 <= i < n && #[trigger] events[i].token == (DisplayEventToken::EventDevice {
                event_device_id: id,
            }) && events[i].is_writable,
    decreases n,
{
    if n > 0 {
        let m = (n - 1) as nat;
        what_can_be_written_is_flushed(devices, events, m, id);
        let a = writable(devices, events, m);
        let b = writable(devices, events, n);
        let e = events[m as int];
        if a.contains(id) {
            let j = choose|j: int| 0 <= j < a.len() && a[j] == id;
            assert(b[j] == id);
        }
        if e.is_writable && e.token == (DisplayEventToken::EventDevice { event_device_id: id })
            && present(devices, id) {
            assert(b[b.len() - 1] == id);
        }
        if b.contains(id) {
            let j = choose|j: int| 0 <= j < b.len() && b[j] == id;
            if j < a.len() {
                assert(a[j] == id);
            }
        }
    }
}

/// The connection is broken exactly where the display itself hung up.
pub proof fn only_the_display_breaks_the_connection(
    devices: Seq<Device>,
    events: Seq<WaitEvent>,
    n: nat,
)
    requires
        n <= events.len(),
    ensures
        hangups(devices, events, n).broken <==> exists|i: int|
            0 <= i < n && #[trigger] events[i].is_hungup && events[i].token is Display,
    decreases n,
{
    if n > 0 {
        only_the_display_breaks_the_connection(devices, events, (n - 1) as nat);
        let e = events[n - 1];
        assert(e.is_hungup == events[n - 1].is_hungup);
    }
}

/// A device is reported as gone exactly where it was there and is no longer.
pub proof fn what_is_gone_is_reported(devices: Seq<Device>, events: Seq<WaitEvent>, n: nat, id: u32)
    requires
        n <= events.len(),
    ensures
        hangups(devices, events, n).removed.contains(id) <==> present(devices, id) && !present(
            hangups(devices, events, n).devices,
            id,
        ),
    decreases n,
{
    if n > 0 {
        let m = (n - 1) as nat;
        what_is_gone_is_reported(devices, events, m, id);
        let before = hangups(devices, events, m);
        let after = hangups(devices, events, n);
        if let DisplayEventToken::EventDevice { event_device_id } = events[m as int].token {
            without_one(before.devices, event_device_id, id);
            let a = before.removed;
            let b = after.removed;
            if a.contains(id) {
                let j = choose|j: int| 0 <= j < a.len() && a[j] == id;
                assert(b[j] == id);
            }
            if b.contains(id) {
                let j = choose|j: int| 0 <= j < b.len() && b[j] == id;
                if j < a.len() {
                    assert(a[j] == id);
                }
            }
            if b != a {
                assert(b[b.len() - 1] == event_device_id);
                devices_before(devices, events, m, event_device_id);
            }
        }
    }
}

/// Hangups bring no device.
proof fn devices_before(devices: Seq<Device>, events: Seq<WaitEvent>, n: nat, id: u32)
    requires
        n <= events.len(),
        present(hangups(devices, events, n).devices, id),
    ensures
        present(devices, id),
    decreases n,
{
    if n > 0 {
        let before = hangups(devices, events, (n - 1) as nat);
        if let DisplayEventToken::EventDevice { event_device_id } = events[n - 1].token {
            without_one(before.devices, event_device_id, id);
        }
        devices_before(devices, events, (n - 1) as nat, id);
    }
}

/// What is taken in is the last of its kind from then on, under the id that was announced for it, and
/// nothing else changes; imports are announced the same id until one is made.
pub proof fn what_is_taken_in_is_found(
    s: DisplayState,
    kind: EventDeviceKind,
    other: EventDeviceKind,
    descriptor: u64,
)
    requires
        1 <= s.next_id < u32::MAX,
    ensures
        ({
            let d = s.after(Call::ImportEventDevice(kind));
            &&& of_kind(d.devices, kind) == of_kind(s.devices, kind).push(s.next_id as u32)
            &&& other != kind ==> of_kind(d.devices, other) == of_kind(s.devices, other)
            &&& d.surfaces == s.surfaces && d.capped == s.capped
        }),
        ({
            let d = s.after(Call::SurfaceCreated(descriptor));
            &&& s.new_surface(None) matches Ok(id) && {
                &&& named(d.surfaces, descriptor) == named(s.surfaces, descriptor).push(id)
                &&& listed(d.surfaces, id)
                &&& d.new_surface(Some(id)) is Ok
                &&& d.new_surface(Some(id)) != Ok::<u32, GpuDisplayError>(id)
            }
            &&& d.devices == s.devices && d.capped == s.capped
        }),
        ({
            let d = s.after(Call::ResourceImported);
            &&& d.devices == s.devices && d.surfaces == s.surfaces && d.capped == s.capped
            &&& !s.capped ==> s.new_import() is Ok && d.new_import() is Ok && s.new_import()
                != d.new_import()
        }),
        ({
            let d = s.after(Call::CapTransportToCpu);
            &&& d.new_import() == Err::<u32, GpuDisplayError>(GpuDisplayError::ImportCapped)
            &&& d.devices == s.devices && d.surfaces == s.surfaces && d.next_id == s.next_id
        }),
        !s.capped ==> s.new_import() == Ok::<u32, GpuDisplayError>(s.next_id as u32),
        of_kind(s.after(Call::TakeEventDevices).devices, kind).len() == 0,
        s.after(Call::TakeEventDevices).surfaces == s.surfaces,
{
    let d = s.after(Call::ImportEventDevice(kind));
    assert(d.devices.drop_last() =~= s.devices);
    let e = s.after(Call::SurfaceCreated(descriptor));
    assert(e.surfaces.drop_last() =~= s.surfaces);
    assert(e.surfaces[e.surfaces.len() - 1].id == s.next_id as u32);
}

/// A surface that is there is as it says; one that was given up is told to close, and has no buffer in
/// use.
pub proof fn surfaces_that_are_gone_are_closed(s: DisplayState, descriptor: u64, answer: bool)
    requires
        1 <= s.next_id < u32::MAX,
        rising(s.surfaces, s.next_id),
    ensures
        ({
            let id = s.next_id as u32;
            let made = s.after(Call::SurfaceCreated(descriptor));
            let gone = made.after(Call::ReleaseSurface(id));
            &&& made.in_use(id, answer) == answer
            &&& made.closing(id, answer) == answer
            &&& !gone.in_use(id, answer)
            &&& gone.closing(id, answer)
        }),
{
    let id = s.next_id as u32;
    let made = s.after(Call::SurfaceCreated(descriptor));
    assert(made.surfaces[made.surfaces.len() - 1].id == id);
    assert(rising(made.surfaces, made.next_id));
    surfaces_without(made.surfaces, id, made.next_id);
}

/// A new display may import, has no surface and no device, and gives out one as its first id.
pub proof fn displays_start_empty(id: u32, kind: EventDeviceKind)
    ensures
        DisplayState::opened().new_import() == Ok::<u32, GpuDisplayError>(1),
        DisplayState::opened().new_surface(None) == Ok::<u32, GpuDisplayError>(1),
        DisplayState::opened().new_surface(Some(id)) is Err,
        of_kind(DisplayState::opened().devices, kind).len() == 0,
        !present(DisplayState::opened().devices, id),
        DisplayState::opened().closing(id, false),
{
}

} // verus!
