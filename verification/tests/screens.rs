//! Frames, framebuffers, displays, and the devices that their events go to.

use std::cell::Cell;

use droidvm_core::android;
use droidvm_core::android::{AndroidImports, AndroidSurface, FlipError, ImportRoute, Shared};
use droidvm_core::display;
use droidvm_core::display::{
    Device, DisplayEventToken, DisplayExternalResourceImport, DmabufImport, GpuDisplay,
    GpuDisplayError, Region, SurfaceType, WaitEvent,
};
use droidvm_core::display_color::{DisplayFrameColor, HostDisplayColorCapabilities};
use droidvm_core::event_device::{
    EventDevice, EventDeviceKind, Flush, InputEvent, VncBindingInput, WriteOutcome,
};
use droidvm_core::scanout::{
    convert_scanout_row, drm_fourcc, pixel_layout, Damage, GpuDisplayFramebuffer, PixelLayout,
    PresentOutcome, ScanoutFrame, DRM_FORMAT_ABGR8888, DRM_FORMAT_ARGB8888, DRM_FORMAT_RGB565,
    DRM_FORMAT_RGB888, DRM_FORMAT_XBGR8888, DRM_FORMAT_XRGB8888,
};
use droidvm_core::shared_allocation::SharedAllocationDescription;
use droidvm_core::vnc;
use droidvm_core::vnc::frame::{
    blit_source, pointer_position, BlitError, BlitTarget, Clean, SharedFramebuffer,
};
use droidvm_core::vnc::h264;
use droidvm_core::vnc::h264::{
    caps_for, EncodeStep, EncoderSize, FrameOffer, FrameStep, H264Consumer, PollOutput,
    CAPS_AVAILABLE, CAPS_UNAVAILABLE, CAPS_WARMING,
};
use droidvm_core::vnc::imports::{
    exchange_red_blue, import_handle, import_request, wants_encoder_view, BlitProbe, BufferView,
    ImportError, VncImports,
};
use droidvm_core::vnc::input::{vnc_norm_abs, Target, VncInput, VncInputEvent};
use droidvm_core::vnc::NewSurface;

/// A surface whose buffer is locked from when it is handed out until it is posted.
struct LockedSurface {
    bytes: [u8; 16],
    locked: Cell<bool>,
    posts: Cell<u32>,
}

impl LockedSurface {
    fn framebuffer(&mut self) -> Option<GpuDisplayFramebuffer<'_>> {
        assert!(!self.locked.replace(true), "native buffer locked twice");
        Some(GpuDisplayFramebuffer::new(&mut self.bytes, 8, 4, DRM_FORMAT_ABGR8888))
    }

    fn flip(&self) {
        assert!(self.locked.replace(false), "post without a lock");
        self.posts.set(self.posts.get() + 1);
    }

    /// Whether there is such a region; a buffer without one is posted at once.
    fn region(&mut self, x: u32, y: u32, width: u32, height: u32) -> bool {
        let found = match display::framebuffer_region(self.framebuffer(), x, y, width, height) {
            Region::NoFramebuffer => return false,
            Region::Part(_) => true,
            Region::Release => false,
        };
        if !found {
            self.flip();
        }
        found
    }
}

#[test]
fn invalid_framebuffer_region_releases_native_lock() {
    let mut surface =
        LockedSurface { bytes: [0; 16], locked: Cell::new(false), posts: Cell::new(0) };
    for (x, y, width, height) in [(0, 0, 0, 2), (0, 0, 2, 3), (u32::MAX, 0, 2, 2)] {
        assert!(!surface.region(x, y, width, height));
        assert!(!surface.locked.get());
    }
    assert_eq!(surface.posts.get(), 3);
    assert!(surface.region(0, 0, 2, 2));
    assert!(surface.locked.get());
    surface.flip();
    assert!(!surface.locked.get());
    assert_eq!(surface.posts.get(), 4);
    assert!(matches!(display::framebuffer_region(None, 0, 0, 1, 1), Region::NoFramebuffer));
}

#[test]
fn converts_between_red_first_and_blue_first_8888() {
    let rgba = [0x11, 0x22, 0x33, 0x44, 0x55, 0x66, 0x77, 0x88];
    let mut bgra = [0; 8];
    assert!(convert_scanout_row(
        DRM_FORMAT_ABGR8888,
        DRM_FORMAT_XRGB8888,
        2,
        &rgba,
        &mut bgra,
    ));
    assert_eq!(bgra, [0x33, 0x22, 0x11, 0x44, 0x77, 0x66, 0x55, 0x88]);

    let mut round_trip = [0; 8];
    assert!(convert_scanout_row(
        DRM_FORMAT_ARGB8888,
        DRM_FORMAT_ABGR8888,
        2,
        &bgra,
        &mut round_trip,
    ));
    assert_eq!(round_trip, rgba);
}

#[test]
fn preserves_rows_when_8888_orders_match() {
    let source = [0x33, 0x22, 0x11, 0x44];
    let mut target = [0; 4];
    assert!(convert_scanout_row(
        DRM_FORMAT_ARGB8888,
        DRM_FORMAT_XRGB8888,
        1,
        &source,
        &mut target,
    ));
    assert_eq!(target, source);
}

#[test]
fn expands_rgb565_into_sink_layout() {
    let source = [0x00, 0xf8, 0xe0, 0x07, 0x1f, 0x00];
    let mut target = [0; 12];
    assert!(convert_scanout_row(
        DRM_FORMAT_RGB565,
        DRM_FORMAT_ABGR8888,
        3,
        &source,
        &mut target,
    ));
    assert_eq!(
        target,
        [0xff, 0x00, 0x00, 0xff, 0x00, 0xff, 0x00, 0xff, 0x00, 0x00, 0xff, 0xff]
    );
}

#[test]
fn framebuffer_copy_converts_once_and_honors_both_strides() {
    let source = [
        1, 2, 3, 4, 5, 6, 7, 8, 0xaa, 0xaa, 0xaa, 0xaa, 9, 10, 11, 12, 13, 14, 15, 16, 0xbb, 0xbb,
        0xbb, 0xbb,
    ];
    let mut target = [0xee; 24];
    {
        let mut framebuffer =
            GpuDisplayFramebuffer::new(&mut target, 12, 4, DRM_FORMAT_XRGB8888);
        framebuffer.copy_from_frame(&ScanoutFrame {
            bytes: &source,
            stride: 12,
            width: 2,
            height: 2,
            fourcc: DRM_FORMAT_ABGR8888,
            damage: Damage::Full,
        });
    }
    assert_eq!(
        target,
        [
            3, 2, 1, 4, 7, 6, 5, 8, 0xee, 0xee, 0xee, 0xee, 11, 10, 9, 12, 15, 14, 13, 16, 0xee,
            0xee, 0xee, 0xee,
        ]
    );
}

#[test]
fn formats_have_their_layouts() {
    assert_eq!(drm_fourcc(b'X', b'R', b'2', b'4'), DRM_FORMAT_XRGB8888);
    assert_eq!(drm_fourcc(b'R', b'G', b'1', b'6'), DRM_FORMAT_RGB565);
    assert_eq!(pixel_layout(DRM_FORMAT_XBGR8888), Some(PixelLayout::RedFirst8888));
    assert_eq!(pixel_layout(DRM_FORMAT_ARGB8888), Some(PixelLayout::BlueFirst8888));
    assert_eq!(pixel_layout(DRM_FORMAT_RGB888).unwrap().bytes_per_pixel(), 3);
    assert_eq!(pixel_layout(DRM_FORMAT_RGB565).unwrap().bytes_per_pixel(), 2);
    assert_eq!(pixel_layout(0), None);
}

#[test]
fn rows_that_do_not_fit_are_refused() {
    let mut target = [7u8; 8];
    assert!(!convert_scanout_row(DRM_FORMAT_ABGR8888, DRM_FORMAT_XRGB8888, 2, &[0; 7], &mut target));
    assert!(!convert_scanout_row(DRM_FORMAT_ABGR8888, DRM_FORMAT_XRGB8888, 3, &[0; 12], &mut target));
    assert!(!convert_scanout_row(0, DRM_FORMAT_XRGB8888, 1, &[0; 4], &mut target));
    assert!(!convert_scanout_row(DRM_FORMAT_ABGR8888, 0, 1, &[0; 4], &mut target));
    assert_eq!(target, [7; 8]);
}

#[test]
fn three_byte_pixels_are_opaque_when_they_grow() {
    let mut target = [0u8; 4];
    assert!(convert_scanout_row(DRM_FORMAT_RGB888, DRM_FORMAT_ABGR8888, 1, &[1, 2, 3], &mut target));
    assert_eq!(target, [3, 2, 1, 0xff]);
    // They are read, but never drawn.
    let mut back = [0u8; 3];
    assert!(!convert_scanout_row(DRM_FORMAT_ABGR8888, DRM_FORMAT_RGB888, 1, &target, &mut back));
    assert_eq!(back, [0, 0, 0]);
}

#[test]
fn a_region_is_the_rectangle_of_its_framebuffer() {
    let mut bytes: Vec<u8> = (0..48).collect();
    let mut fb = GpuDisplayFramebuffer::new(&mut bytes, 16, 4, DRM_FORMAT_XRGB8888);
    assert_eq!((fb.stride(), fb.fourcc()), (16, DRM_FORMAT_XRGB8888));
    assert!(fb.can_copy_direct_from(DRM_FORMAT_ARGB8888));
    assert!(!fb.can_copy_direct_from(DRM_FORMAT_ABGR8888));
    assert!(fb.sub_region(1, 1, 2, 2));
    assert_eq!(fb.as_volatile_slice()[0], 20);
    fb.copy_from_frame(&ScanoutFrame {
        bytes: &[0xcc; 64],
        stride: 8,
        width: 8,
        height: 8,
        fourcc: DRM_FORMAT_XRGB8888,
        damage: Damage::Full,
    });
    let changed: Vec<usize> =
        (0..48).filter(|i| bytes[*i] == 0xcc).collect();
    assert_eq!(changed, (20..28).chain(36..44).collect::<Vec<usize>>());
}

#[test]
fn presenting_needs_a_framebuffer() {
    let pixels = [9u8; 4];
    let frame = ScanoutFrame {
        bytes: &pixels,
        stride: 4,
        width: 1,
        height: 1,
        fourcc: DRM_FORMAT_ABGR8888,
        damage: Damage::Full,
    };
    assert_eq!(display::present_frame(None, &frame), PresentOutcome::NoFramebuffer);
    let mut target = [0u8; 4];
    let fb = GpuDisplayFramebuffer::new(&mut target, 4, 4, DRM_FORMAT_ABGR8888);
    assert_eq!(display::present_frame(Some(fb), &frame), PresentOutcome::Flipped);
    assert_eq!(target, [9; 4]);
}

#[test]
fn surfaces_and_imports_have_ids_of_their_own() {
    let mut d = GpuDisplay::open();
    let a = d.create_surface(None).unwrap();
    assert_eq!(d.surface_created(70), a);
    let b = d.create_surface(Some(a)).unwrap();
    assert_eq!(d.surface_created(71), b);
    let i = d.import_resource().unwrap();
    assert_eq!(d.resource_imported(), i);
    assert!(a != b && b != i && a != i);
    assert_eq!(d.create_surface(Some(999)).err(), Some(GpuDisplayError::InvalidSurfaceId));
    assert_eq!(d.dispatch_display_events(71), vec![b]);
    d.release_surface(a);
    assert_eq!(d.surface(a).err(), Some(GpuDisplayError::InvalidSurfaceId));
    assert!(d.surface(b).is_ok());
    assert!(d.is_dmabuf_import_supported());
    d.cap_transport_to_cpu();
    assert!(!d.is_dmabuf_import_supported());
    assert_eq!(d.import_resource().err(), Some(GpuDisplayError::ImportCapped));
    assert!(d.import_event_device(EventDeviceKind::Mouse) > i);
    assert_eq!(d.import_resource().err(), Some(GpuDisplayError::ImportCapped));
    assert!(d.next_buffer_in_use(b, true));
    assert!(!d.next_buffer_in_use(a, true));
    assert!(d.close_requested(b, true));
    assert!(d.close_requested(a, false));
}

fn event(token: DisplayEventToken) -> WaitEvent {
    WaitEvent { token, is_readable: false, is_writable: false, is_hungup: false }
}

#[test]
fn devices_that_hang_up_are_taken_out() {
    let mut d = GpuDisplay::open();
    assert_eq!(d.import_event_device(EventDeviceKind::Keyboard), 1);
    assert_eq!(d.import_event_device(EventDeviceKind::Tablet), 2);
    assert_eq!(d.import_event_device(EventDeviceKind::Tablet), 3);
    let tablet = Device { id: 3, kind: EventDeviceKind::Tablet };
    assert_eq!(d.event_devices[2], tablet);
    assert_eq!(d.recipients(EventDeviceKind::Tablet), vec![2, 3]);
    let gone = WaitEvent {
        is_hungup: true,
        is_writable: true,
        ..event(DisplayEventToken::EventDevice { event_device_id: 2 })
    };
    let writable = WaitEvent {
        is_writable: true,
        ..event(DisplayEventToken::EventDevice { event_device_id: 3 })
    };
    let readable = WaitEvent { is_readable: true, ..event(DisplayEventToken::Display) };
    let r = d.dispatch_events(&[readable, gone, writable]);
    assert!(!r.broken);
    assert_eq!(r.removed, vec![2]);
    assert_eq!(r.flush, vec![3]);
    assert_eq!(r.readable, vec![DisplayEventToken::Display]);
    assert_eq!(d.recipients(EventDeviceKind::Tablet), vec![3]);

    let lost = WaitEvent { is_hungup: true, ..event(DisplayEventToken::Display) };
    let r = d.dispatch_events(&[writable, lost]);
    assert!(r.broken);
    assert!(r.flush.is_empty() && r.readable.is_empty());
    assert_eq!(d.take_event_devices().len(), 2);
    assert!(d.event_devices.is_empty());
}

#[test]
fn events_are_encoded_and_buffered() {
    let press = InputEvent { kind: 1, code: 0x110, value: -2 };
    assert_eq!(press.to_bytes(), vec![1, 0, 0x10, 1, 0xfe, 0xff, 0xff, 0xff]);
    let mut b = [0u8; 8];
    b.copy_from_slice(&press.to_bytes());
    assert_eq!(InputEvent::from_bytes(&b), press);
    assert_eq!(InputEvent::syn().to_bytes(), vec![0; 8]);

    let mut dev = EventDevice::tablet();
    assert_eq!(dev.kind(), EventDeviceKind::Tablet);
    assert!(dev.is_buffered_events_empty());
    assert!(dev.send_report(&[press]));
    // The report is followed by the event that ends it.
    assert_eq!(dev.pending().len(), 16);
    assert_eq!(&dev.pending()[..8], &press.to_bytes()[..]);
    assert_eq!(&dev.pending()[8..], &[0; 8]);
    assert_eq!(dev.flush_buffered_events(WriteOutcome::Wrote(5)), Flush::Again);
    assert_eq!(dev.flush_buffered_events(WriteOutcome::WouldBlock), Flush::Kept);
    assert_eq!(dev.pending().len(), 11);
    assert_eq!(dev.flush_buffered_events(WriteOutcome::Failed), Flush::Failed);
    assert_eq!(dev.flush_buffered_events(WriteOutcome::Wrote(11)), Flush::Empty);

    assert_eq!(EventDevice::mouse().kind(), EventDeviceKind::Mouse);
    assert_eq!(EventDevice::touchscreen().kind(), EventDeviceKind::Touchscreen);
    assert_eq!(EventDevice::keyboard().kind(), EventDeviceKind::Keyboard);
    let binding = VncBindingInput::default();
    assert!(binding.tablet.is_none() && binding.keyboard.is_none());
}

#[test]
fn a_report_is_buffered_whole_or_not_at_all() {
    let mut dev = EventDevice::keyboard();
    let key = InputEvent { kind: 1, code: 30, value: 1 };
    for _ in 0..31 {
        assert!(dev.send_report(&[key]));
    }
    assert_eq!(dev.pending().len(), 496);
    assert!(dev.can_buffer_events(2));
    assert!(!dev.can_buffer_events(3));
    assert!(!dev.send_report(&[key, key]));
    assert_eq!(dev.pending().len(), 496);
    assert!(dev.send_report(&[key]));
    assert!(!dev.send_report(&[]));
}

#[test]
fn what_the_socket_did_not_take_is_buffered() {
    let mut dev = EventDevice::mouse();
    let e = InputEvent { kind: 2, code: 8, value: 1 };
    assert_eq!(dev.send_event_encoded(e, WriteOutcome::Wrote(8)), Some(true));
    assert!(dev.is_buffered_events_empty());
    dev.send_event_encoded(e, WriteOutcome::Wrote(3));
    assert_eq!(dev.pending(), &e.to_bytes()[3..]);
}

fn capabilities() -> HostDisplayColorCapabilities {
    HostDisplayColorCapabilities {
        version: 1,
        size: 48,
        generation: 9,
        display_id: 0,
        hdr_types: 3,
        wide_color_gamut: 1,
        usable_hdr_types: 2,
        max_luminance: 0,
        max_average_luminance: 0,
        min_luminance: 0,
        reserved: 0,
    }
}

#[test]
fn color_capabilities_are_checked() {
    assert!(capabilities().valid());
    assert!(android::color_capabilities(true, capabilities()).is_some());
    assert!(android::color_capabilities(false, capabilities()).is_none());
    let mut c = capabilities();
    c.hdr_types = 1;
    assert!(!c.valid());
    assert!(android::color_capabilities(true, c).is_none());
    let mut c = capabilities();
    c.hdr_types = 4;
    c.usable_hdr_types = 0;
    assert!(!c.valid());
    let mut c = capabilities();
    c.wide_color_gamut = 2;
    assert!(!c.valid());
    let mut c = capabilities();
    c.reserved = 1;
    assert!(!c.valid());
    let sdr = DisplayFrameColor::sdr(DRM_FORMAT_ABGR8888, 4);
    assert_eq!((sdr.version, sdr.size, sdr.format, sdr.generation), (1, 80, DRM_FORMAT_ABGR8888, 4));
    assert_eq!((sdr.encoding, sdr.has_static_metadata), (0, 0));
}

fn allocation() -> SharedAllocationDescription {
    SharedAllocationDescription {
        version: 1,
        size: 64,
        buffer_id: 5,
        allocation_size: 16 * 100,
        modifier: 0,
        plane_offset: 0,
        plane_stride: 16,
        width: 4,
        height: 100,
        fourcc: DRM_FORMAT_ABGR8888,
        plane_count: 1,
        layout_flags: 1,
    }
}

#[test]
fn shared_buffers_hold_what_they_describe() {
    assert!(allocation().valid(4, 100));
    assert!(!allocation().valid(4, 99));
    let mut d = allocation();
    d.plane_offset = 1;
    assert!(!d.valid(4, 100));
    let mut d = allocation();
    d.plane_stride = 12;
    assert!(!d.valid(4, 100));
    let mut d = allocation();
    d.plane_offset = u64::MAX;
    assert!(!d.valid(4, 100));
    assert!(!SharedAllocationDescription::default().valid(0, 0));
    assert_eq!(android::shared_buffer(false, 3, &allocation(), 4, 100), Shared::Missing);
    assert_eq!(android::shared_buffer(true, -1, &allocation(), 4, 100), Shared::GiveUp);
    assert_eq!(android::shared_buffer(true, 3, &allocation(), 5, 100), Shared::GiveUp);
    assert_eq!(android::shared_buffer(true, 3, &allocation(), 4, 100), Shared::Usable);
}

fn split(addr: &str) -> (&str, i32) {
    let a = vnc::split_address(addr.as_bytes());
    (&addr[a.host_start..a.host_end], a.port)
}

#[test]
fn addresses_are_split_at_the_last_colon() {
    assert_eq!(split("127.0.0.1:5901"), ("127.0.0.1", 5901));
    assert_eq!(split("[::1]:5902"), ("::1", 5902));
    assert_eq!(split("localhost"), ("", 5900));
    assert_eq!(split("host:"), ("host", 5900));
    assert_eq!(split("host:x"), ("host", 5900));
    assert_eq!(split(":-1"), ("", -1));
    assert_eq!(split("h:+7"), ("h", 7));
    assert_eq!(split("h:2147483648"), ("h", 5900));
    assert_eq!(split("h:-2147483648"), ("h", i32::MIN));
    assert_eq!(split("[]]:1"), ("", 1));
}

#[test]
fn a_cursor_needs_a_screen() {
    assert_eq!(
        vnc::create_surface(true, SurfaceType::Cursor, false, (9, 9), (1, 1)).err(),
        Some(GpuDisplayError::Unsupported)
    );
    assert_eq!(
        vnc::create_surface(true, SurfaceType::Scanout, true, (9, 9), (1, 1)).err(),
        Some(GpuDisplayError::Unsupported)
    );
    assert_eq!(
        vnc::create_surface(true, SurfaceType::Cursor, true, (9, 9), (1, 1)).unwrap(),
        NewSurface::Cursor { width: 64, height: 64 }
    );
    assert_eq!(
        vnc::create_surface(false, SurfaceType::Scanout, false, (0, 600), (800, 600)).unwrap(),
        NewSurface::Screen { width: 800, height: 600, resize: false }
    );
    assert_eq!(
        vnc::create_surface(false, SurfaceType::Scanout, false, (1024, 0), (800, 600)).unwrap(),
        NewSurface::Screen { width: 1024, height: 600, resize: true }
    );
    assert_eq!(vnc::buffer_size(800, 600), 1_920_000);
}

#[test]
fn consumers_are_told_apart() {
    assert!(vnc::has_consumer(true, false));
    assert!(vnc::has_consumer(false, true));
    assert!(!vnc::has_consumer(false, false));
    assert_eq!(vnc::consumer_generation(true, 5), 11);
    assert_eq!(vnc::consumer_generation(false, 5), 10);
}

fn pointer(x: i32, y: i32, button_mask: u8) -> VncInputEvent {
    VncInputEvent { event_type: 2, down: 0, linux_keycode: 0, x, y, button_mask }
}

#[test]
fn pointers_become_tablet_events() {
    assert_eq!(vnc_norm_abs(-5, 100), 0);
    assert_eq!(vnc_norm_abs(50, 100), 16383);
    assert_eq!(vnc_norm_abs(200, 100), 0x7fff);
    assert_eq!(vnc_norm_abs(1, 0), 0x7fff);

    let mut input = VncInput::new();
    let at = |code, value| InputEvent { kind: 3, code, value };
    let key = |code, value| InputEvent { kind: 1, code, value };
    let wheel = |value| InputEvent { kind: 2, code: 8, value };
    assert_eq!(
        input.pointer_to_mouse_events(&pointer(50, 0, 0b1_0101), 100, 100),
        vec![at(0, 16383), at(1, 0), key(0x110, 1), key(0x111, 1), wheel(-1)]
    );
    assert_eq!(
        input.pointer_to_mouse_events(&pointer(0, 0, 0b1_1010), 100, 100),
        vec![at(0, 0), at(1, 0), key(0x110, 0), key(0x112, 1), key(0x111, 0), wheel(1)]
    );
}

#[test]
fn input_is_delivered_in_order() {
    let mut input = VncInput::new();
    input.push(VncInputEvent {
        event_type: 1,
        down: 1,
        linux_keycode: 30,
        x: 0,
        y: 0,
        button_mask: 0,
    });
    input.push(pointer(0, 0, 1));
    input.push(pointer(0, 0, 0));
    let d = input.inject_next_event(true, true, 10, 10).unwrap();
    assert_eq!(d.target, Target::Keyboard);
    assert_eq!(d.events, vec![InputEvent { kind: 1, code: 30, value: 1 }]);
    // Without a tablet the press is lost, but not forgotten: the release is still one.
    assert!(input.inject_next_event(false, true, 10, 10).is_none());
    let d = input.inject_next_event(true, true, 10, 10).unwrap();
    assert_eq!(d.target, Target::Tablet);
    assert_eq!(d.events[2], InputEvent { kind: 1, code: 0x110, value: 0 });
    assert!(input.inject_next_event(true, true, 10, 10).is_none());
}

fn dmabuf(color: Option<DisplayFrameColor>, has_transform: bool) -> DmabufImport {
    DmabufImport {
        offset: 0,
        stride: 32,
        modifiers: 0,
        linear_layout_verified: true,
        width: 8,
        height: 4,
        fourcc: DRM_FORMAT_ABGR8888,
        color,
        has_transform,
    }
}

#[test]
fn imports_are_kept_until_they_are_released() {
    let plain = DisplayExternalResourceImport::Dmabuf(dmabuf(None, false));
    let request = import_request(&plain).unwrap();
    assert_eq!(
        import_request(&DisplayExternalResourceImport::VulkanTimelineSemaphore).err(),
        Some(ImportError::NotDmabuf)
    );
    let colored = DisplayFrameColor::sdr(DRM_FORMAT_ABGR8888, 1);
    assert_eq!(
        import_request(&DisplayExternalResourceImport::Dmabuf(dmabuf(Some(colored), false))).err(),
        Some(ImportError::Color)
    );
    assert_eq!(
        import_request(&DisplayExternalResourceImport::Dmabuf(dmabuf(None, true))).err(),
        Some(ImportError::Color)
    );

    let mut probe = BlitProbe::new();
    assert!(probe.begin());
    probe.answer(true);
    assert!(!probe.begin());
    assert!(probe.available);

    assert_eq!(import_handle(0), None);
    assert_eq!(import_handle(-5), Some(-5));
    assert!(wants_encoder_view(import_handle(7), true));
    assert!(!wants_encoder_view(import_handle(7), false));
    assert!(!wants_encoder_view(None, true));
    assert!(exchange_red_blue(BufferView::Screen) && !exchange_red_blue(BufferView::Encoder));

    let mut imports = VncImports::new();
    assert_eq!(
        imports.import_resource(3, &request, false, Some(1), None).err(),
        Some(ImportError::NoGpu)
    );
    assert_eq!(
        imports.import_resource(3, &request, true, None, None).err(),
        Some(ImportError::Failed)
    );
    imports.import_resource(3, &request, true, Some(11), Some(12)).unwrap();
    imports.import_resource(4, &request, true, Some(13), None).unwrap();
    let i = imports.get(3).unwrap();
    assert_eq!((i.handle, i.encoder_handle, i.width, i.height), (11, 12, 8, 4));
    assert_eq!(blit_source(imports.get(3), 8, 4).unwrap().handle, 11);
    assert_eq!(blit_source(imports.get(3), 8, 5).err(), Some(BlitError::ImportSize));
    assert_eq!(blit_source(None, 8, 4).err(), Some(BlitError::InvalidImport));
    assert_eq!(imports.release_import(3), (Some(11), Some(12)));
    assert_eq!(imports.release_import(4), (Some(13), None));
    assert_eq!(imports.release_import(3), (None, None));
    assert!(imports.get(3).is_none());
}

#[test]
fn a_blitted_frame_lasts_until_the_next_blit() {
    let mut target = BlitTarget::new();
    let mut screen = SharedFramebuffer::new(2, 2);
    assert_eq!(screen.clean(0), Clean::Buffer { len: 16 });
    target.blit();
    let m = target.map(8, 2, 2, 16);
    screen.take_blit(2, 2, m, &[]).unwrap();
    assert_eq!(screen.clean(target.generation), Clean::Target { size: 16 });
    let offer = screen.offer_frame(true, Some(77), target.generation).unwrap();
    assert_eq!((offer.gpu_import, offer.full, offer.has_cursor), (77, true, false));
    target.blit();
    assert!(!target.mapping_is_current(&m));
    assert_eq!(screen.clean(target.generation), Clean::Gone);
    assert!(screen.offer_frame(true, None, target.generation).is_none());
    screen.flip(&[1; 20]);
    assert_eq!(screen.clean(target.generation), Clean::Buffer { len: 16 });
    assert!(screen.data.iter().all(|b| *b == 1));
}

#[test]
fn a_blit_that_fails_leaves_the_buffer() {
    let mut target = BlitTarget::new();
    let mut screen = SharedFramebuffer::new(2, 2);
    target.blit();
    screen.take_blit(2, 2, target.map(8, 2, 2, 16), &[]).unwrap();
    screen.begin_blit();
    target.blit();
    assert_eq!(screen.clean(target.generation), Clean::Buffer { len: 16 });
}

#[test]
fn padded_rows_are_packed() {
    let mut target = BlitTarget::new();
    target.blit();
    let mut screen = SharedFramebuffer::new(2, 2);
    let pixels: Vec<u8> = (0..24).collect();
    screen.take_blit(2, 2, target.map(12, 2, 2, 24), &pixels).unwrap();
    let want: Vec<u8> = (0..8).chain(12..20).collect();
    assert_eq!(screen.data, want);
    assert_eq!(
        screen.take_blit(2, 2, target.map(12, 2, 3, 24), &pixels).err(),
        Some(BlitError::MappingSize)
    );
}

#[test]
fn the_cursor_is_offered_where_there_is_one() {
    let mut screen = SharedFramebuffer::new(1, 1);
    screen.set_position(-3, 7);
    screen.set_cursor_visible(true);
    assert!(!screen.offer_frame(false, None, 0).unwrap().cursor_visible);
    screen.set_cursor(&[5; 16], 2, 2);
    let o = screen.offer_frame(false, None, 0).unwrap();
    assert_eq!((o.cursor_x, o.cursor_y, o.cursor_width), (-3, 7, 2));
    assert!(o.has_cursor && o.cursor_visible && !o.full);
    screen.set_cursor_visible(false);
    assert!(!screen.offer_frame(false, None, 0).unwrap().cursor_visible);
    assert_eq!(pointer_position(-3, 5), 2);
    assert_eq!(pointer_position(10, 0xffff_fffe), 8);
}

#[test]
fn caps_says_permanent_only_when_a_codec_could_not_be_built() {
    assert_eq!(caps_for(false, false), CAPS_WARMING);
    assert_eq!(caps_for(false, true), CAPS_AVAILABLE);
    assert_eq!(caps_for(true, false), CAPS_UNAVAILABLE);
    assert_eq!(caps_for(true, true), CAPS_UNAVAILABLE);
}

fn offer(width: i32, height: i32, import: i64) -> FrameOffer {
    FrameOffer {
        has_pixels: true,
        width,
        height,
        has_blit_ctx: true,
        gpu_import_id: import,
        has_cursor: true,
        cursor_visible: true,
    }
}

#[test]
fn frames_are_encoded_for_those_who_watch() {
    let mut c = H264Consumer::start(true);
    assert_eq!(c.caps(), CAPS_WARMING);
    assert!(!c.wants_frames(0));
    assert_eq!(c.connect_generation(4), 4);
    assert_eq!(
        c.on_frame(0, &offer(64, 32, 0)),
        FrameStep::Paused { ended: false, skipped: 0 }
    );
    let size = EncoderSize { width: 64, height: 32 };
    assert_eq!(c.on_frame(1, &offer(64, 32, 9)), FrameStep::Build(size));
    assert_eq!(
        c.encoder_for(size, true, &offer(64, 32, 9)),
        (FrameStep::Encode { use_gpu: true, cursor_visible: true }, CAPS_AVAILABLE)
    );
    assert_eq!(c.caps(), CAPS_AVAILABLE);
    assert_eq!(c.encoded(true, false), EncodeStep::RetryOnCpu);
    assert_eq!(
        c.on_frame(1, &offer(64, 32, 9)),
        FrameStep::Encode { use_gpu: false, cursor_visible: true }
    );
    assert_eq!(c.encoded(false, true), EncodeStep::Done);
    let mut reported = Vec::new();
    for n in 1..=9u64 {
        match c.encoded(false, false) {
            EncodeStep::Failed { report, errors } => {
                assert_eq!(errors, n);
                if report {
                    reported.push(n);
                }
            }
            other => panic!("{:?}", other),
        }
    }
    assert_eq!(reported, vec![1, 2, 3, 5, 9]);
    assert_eq!(c.on_frame(1, &offer(0, 32, 0)), FrameStep::Unusable);
    assert_eq!(
        c.on_frame(0, &offer(64, 32, 0)),
        FrameStep::Paused { ended: true, skipped: 1 }
    );
    assert!(c.sync_frame_for_rfb_joins(2));
    assert!(!c.sync_frame_for_rfb_joins(2));
    let bigger = EncoderSize { width: 128, height: 32 };
    assert_eq!(c.on_frame(1, &offer(128, 32, 0)), FrameStep::Build(bigger));
    assert_eq!(
        c.encoder_for(bigger, false, &offer(128, 32, 0)),
        (FrameStep::NoEncoder, CAPS_UNAVAILABLE)
    );
    assert_eq!(c.on_frame(1, &offer(128, 32, 0)), FrameStep::NoEncoder);
    c.shutdown();
    assert_eq!(c.on_frame(1, &offer(64, 32, 0)), FrameStep::Stopped);
    let mut alone = H264Consumer::start(false);
    assert!(!alone.wants_frames(3));
    assert_eq!(alone.connect_generation(3), 0);
    assert!(!alone.sync_frame_for_rfb_joins(3));
}

#[test]
fn the_encoder_is_told_a_bit_rate() {
    assert_eq!(h264::bitrate_for(64, 64), 1_000_000);
    assert_eq!(h264::bitrate_for(1920, 1080), 6_220_800);
    assert_eq!(h264::bitrate_for(8000, 8000), 40_000_000);
}

#[test]
fn what_the_encoder_answers_is_told_apart() {
    assert_eq!(h264::poll_output(100, 7), PollOutput::Frame(100));
    assert_eq!(h264::poll_output(0, 7), PollOutput::Idle);
    assert_eq!(h264::poll_output(-1, 7), PollOutput::TooSmall(7));
    assert_eq!(h264::poll_output(-2, 7), PollOutput::Failed);
    assert_eq!(h264::unit_kind(1), (true, false));
    assert_eq!(h264::unit_kind(2), (false, true));
    assert!(h264::too_small(h264::OUTPUT_BUFFER_LOUD));
    assert!(!h264::too_small(h264::OUTPUT_BUFFER_INITIAL));
    assert!(h264::codec_config(4096));
    assert!(!h264::codec_config(0));
    assert!(!h264::codec_config(4097));
}

#[test]
fn a_fence_is_collected_before_the_next_flip() {
    let mut s = AndroidSurface::new();
    assert_eq!(s.flip_to(None).err(), Some(FlipError::InvalidImport));
    assert_eq!(s.flip_to(Some(8)), Ok(8));
    assert_eq!(s.flipped(-1, true), Ok(()));
    assert_eq!(s.take_flip_completion_fence(), None);
    assert_eq!(s.flipped(5, false).err(), Some(FlipError::Failed));
    assert_eq!(s.flip_to(Some(8)).err(), Some(FlipError::Uncollected));
    assert!(s.outlived(true));
    assert_eq!(s.take_flip_completion_fence(), Some(5));
    assert!(!s.outlived(true));
    assert!(s.outlived(false));
    assert_eq!(s.flip_to(Some(8)), Ok(8));
}

#[test]
fn buffers_are_imported_with_their_color() {
    let route = |color: Option<DisplayFrameColor>, transform: bool, known: bool| {
        android::import_route(&DisplayExternalResourceImport::Dmabuf(dmabuf(color, transform)), known)
    };
    let own = || Some(DisplayFrameColor::sdr(DRM_FORMAT_ABGR8888, 1));
    let other = || Some(DisplayFrameColor::sdr(DRM_FORMAT_XRGB8888, 1));
    assert_eq!(route(None, false, true), Ok(ImportRoute::Plain));
    assert_eq!(route(own(), false, true), Ok(ImportRoute::Color));
    assert_eq!(route(own(), true, true), Ok(ImportRoute::ColorTransform));
    assert_eq!(route(None, false, false).err(), Some(android::ImportError::InvalidSurface));
    assert_eq!(route(None, true, true).err(), Some(android::ImportError::TransformNeedsColor));
    assert_eq!(route(other(), true, true).err(), Some(android::ImportError::TransformFormat));
    assert_eq!(route(other(), false, true).err(), Some(android::ImportError::ColorFormat));
    assert_eq!(
        android::import_route(&DisplayExternalResourceImport::VulkanTimelineSemaphore, true).err(),
        Some(android::ImportError::NotDmabuf)
    );
}

#[test]
fn imports_that_are_still_owned_are_kept() {
    let mut i = AndroidImports::new();
    assert_eq!(i.imported(1, 0).err(), Some(android::ImportError::Failed));
    i.imported(1, 44).unwrap();
    assert_eq!(i.get(1), Some(44));
    assert_eq!(i.try_release_import(1, false).err(), Some(android::ImportError::StillOwned));
    assert_eq!(i.get(1), Some(44));
    assert!(i.try_release_import(1, true).is_ok());
    assert!(i.try_release_import(1, false).is_ok());
    assert_eq!(i.get(1), None);
}

#[test]
fn a_hidden_cursor_has_a_position_of_its_own() {
    assert_eq!(android::set_cursor_visible(false), Some((0xffff_ffff, 0xffff_ffff)));
    assert_eq!(android::set_cursor_visible(true), None);
    assert_eq!(android::set_position(-1, 9), (0, 9));
    assert_eq!(android::surface_size(true, (9, 9)), (64, 64));
    assert_eq!(android::surface_size(false, (9, 8)), (9, 8));
    assert_eq!(android::buffer_layout(100, 3), (400, 1200));
}
