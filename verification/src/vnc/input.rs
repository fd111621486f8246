//! Keys and pointers of network clients, as events of a tablet and a keyboard.

use crate::event_device::InputEvent;
use std::collections::VecDeque;
use vstd::prelude::*;

verus! {

/// The greatest value of an absolute axis.
pub const VNC_ABS_MAX: i32 = 0x7fff;

pub const VNC_INPUT_KEY: u8 = 1;

pub const VNC_INPUT_POINTER: u8 = 2;

pub const EV_KEY: u16 = 1;

pub const EV_REL: u16 = 2;

pub const EV_ABS: u16 = 3;

pub const ABS_X: u16 = 0;

pub const ABS_Y: u16 = 1;

pub const REL_WHEEL: u16 = 8;

pub const BTN_LEFT: u16 = 0x110;

pub const BTN_RIGHT: u16 = 0x111;

pub const BTN_MIDDLE: u16 = 0x112;

/// What a client did.
#[derive(Clone, Copy, Debug, PartialEq, Eq, Structural)]
pub struct VncInputEvent {
    pub event_type: u8,
    pub down: u8,
    pub linux_keycode: u16,
    pub x: i32,
    pub y: i32,
    /// Left, middle and right button, and wheel up and down, from the lowest bit on.
    pub button_mask: u8,
}

/// A coordinate on an axis, where the whole extent is as long as the axis.
pub open spec fn on_axis(v: i32, extent: u32) -> int {
    let at = if v < 0 {
        0
    } else {
        v as int
    };
    let over = if extent == 0 {
        1
    } else {
        extent as int
    };
    let scaled = at * VNC_ABS_MAX / over;
    if scaled > VNC_ABS_MAX {
        VNC_ABS_MAX as int
    } else {
        scaled
    }
}

/// Scales a coordinate of a screen to the axis of the tablet.
pub fn vnc_norm_abs(v: i32, extent: u32) -> (r: i32)
    ensures
        r == on_axis(v, extent),
        0 <= r <= VNC_ABS_MAX,
{
    let at: i64 = if v < 0 {
        0
    } else {
        v as i64
    };
    let over: i64 = if extent == 0 {
        1
    } else {
        extent as i64
    };
    let scaled: i64 = at * VNC_ABS_MAX as i64 / over;
    proof {
        vstd::arithmetic::div_mod::lemma_div_pos_is_pos(at * VNC_ABS_MAX, over as int);
    }
    if scaled > VNC_ABS_MAX as i64 {
        VNC_ABS_MAX
    } else {
        assert(0 <= scaled);
        scaled as i32
    }
}

/// A pointer inside the screen stays inside the axis, and pointers keep their order.
pub proof fn the_axis_keeps_order(v: i32, w: i32, extent: u32)
    requires
        v <= w,
        extent > 0,
    ensures
        on_axis(v, extent) <= on_axis(w, extent),
        0 <= w < extent ==> on_axis(w, extent) < VNC_ABS_MAX,
{
    let a = if v < 0 {
        0
    } else {
        v as int
    };
    let b = if w < 0 {
        0
    } else {
        w as int
    };
    let e = extent as int;
    vstd::arithmetic::div_mod::lemma_div_is_ordered(a * 0x7fff, b * 0x7fff, e);
    if 0 <= w < extent {
        assert(b * 0x7fff / e < 0x7fff) by (nonlinear_arith)
            requires
                0 <= b < e,
        ;
    }
}

/// A pointer is where it is on the screen, to the nearest value of the axis below: the left or upper
/// edge is zero, everything beyond the other edge is the greatest value, and in between the way along
/// the axis is the way along the screen.
pub proof fn the_axis_is_as_long_as_the_screen(v: i32, extent: u32)
    requires
        extent > 0,
    ensures
        v <= 0 ==> on_axis(v, extent) == 0,
        v >= extent ==> on_axis(v, extent) == 32767,
        0 <= v < extent ==> on_axis(v, extent) * extent <= v * 32767 < (on_axis(v, extent) + 1)
            * extent,
{
    let e = extent as int;
    let at = if v < 0 {
        0
    } else {
        v as int
    };
    let q = at * 32767 / e;
    vstd::arithmetic::div_mod::lemma_fundamental_div_mod(at * 32767, e);
    vstd::arithmetic::div_mod::lemma_mod_bound(at * 32767, e);
    assert(e * q == q * e && (q + 1) * e == q * e + e) by (nonlinear_arith);
    if v >= extent {
        assert(q >= 32767) by (nonlinear_arith)
            requires
                at * 32767 < (q + 1) * e,
                at >= e,
                e > 0,
        ;
    }
    if v <= 0 {
        assert(q == 0) by (nonlinear_arith)
            requires
                q * e <= 0,
                0 < (q + 1) * e,
                e > 0,
        ;
    }
    if 0 <= v < extent {
        the_axis_keeps_order(v, v, extent);
    }
}

/// A button is held, in a mask: `place` is the value of its bit.
pub open spec fn held(mask: u8, place: int) -> bool {
    mask as int / place % 2 == 1
}

/// The event of a button, where it changed.
pub open spec fn button(before: u8, now: u8, place: int, code: u16) -> Seq<InputEvent> {
    if held(before, place) == held(now, place) {
        Seq::empty()
    } else {
        seq![
            InputEvent {
                kind: EV_KEY,
                code,
                value: if held(now, place) {
                    1
                } else {
                    0
                },
            },
        ]
    }
}

/// The event of the wheel, where it was turned.
pub open spec fn wheel(before: u8, now: u8, place: int, value: i32) -> Seq<InputEvent> {
    if !held(before, place) && held(now, place) {
        seq![InputEvent { kind: EV_REL, code: REL_WHEEL, value }]
    } else {
        Seq::empty()
    }
}

/// The events of a pointer: where it is, the buttons that changed, and the wheel.
pub open spec fn pointer_events(
    ev: VncInputEvent,
    before: u8,
    width: u32,
    height: u32,
) -> Seq<InputEvent> {
    let now = ev.button_mask;
    seq![
        InputEvent { kind: EV_ABS, code: ABS_X, value: on_axis(ev.x, width) as i32 },
        InputEvent { kind: EV_ABS, code: ABS_Y, value: on_axis(ev.y, height) as i32 },
    ] + button(before, now, 1, BTN_LEFT) + button(before, now, 2, BTN_MIDDLE) + button(
        before,
        now,
        4,
        BTN_RIGHT,
    ) + wheel(before, now, 8, 1) + wheel(before, now, 16, -1i32)
}

/// The event of a key.
pub open spec fn key_event(ev: VncInputEvent) -> InputEvent {
    InputEvent {
        kind: EV_KEY,
        code: ev.linux_keycode,
        value: if ev.down != 0 {
            1
        } else {
            0
        },
    }
}

/// A key that a client presses is pressed for the guest, one that it lets go is let go, and it is
/// that key.
pub proof fn keys_are_pressed_and_let_go(ev: VncInputEvent)
    ensures
        key_event(ev).kind == 1,
        key_event(ev).code == ev.linux_keycode,
        ev.down != 0 ==> key_event(ev).value == 1,
        ev.down == 0 ==> key_event(ev).value == 0,
{
}

/// A press and a release of one key are told apart, and so are two keys.
pub proof fn key_events_are_told_apart(a: VncInputEvent, b: VncInputEvent)
    requires
        key_event(a) == key_event(b),
    ensures
        a.linux_keycode == b.linux_keycode,
        (a.down == 0) == (b.down == 0),
{
}

/// Whether a key or a button is down after events, if it was `down` before them.
pub open spec fn is_down(events: Seq<InputEvent>, code: int, down: bool) -> bool
    decreases events.len(),
{
    if events.len() == 0 {
        down
    } else if events.last().kind == 1 && events.last().code == code {
        events.last().value != 0
    } else {
        is_down(events.drop_last(), code, down)
    }
}

/// How far events turn the wheel, away from the user.
pub open spec fn wheel_turn(events: Seq<InputEvent>) -> int
    decreases events.len(),
{
    if events.len() == 0 {
        0
    } else {
        wheel_turn(events.drop_last()) + (if events.last().kind == 2 && events.last().code == 8 {
            events.last().value as int
        } else {
            0
        })
    }
}

/// What events of one list and of another come to.
proof fn two_lists_of_events(a: Seq<InputEvent>, b: Seq<InputEvent>, code: int, down: bool)
    ensures
        is_down(a + b, code, down) == is_down(b, code, is_down(a, code, down)),
        wheel_turn(a + b) == wheel_turn(a) + wheel_turn(b),
    decreases b.len(),
{
    if b.len() == 0 {
        assert(a + b =~= a);
    } else {
        two_lists_of_events(a, b.drop_last(), code, down);
        assert((a + b).drop_last() =~= a + b.drop_last());
    }
}

/// One event, or none.
proof fn short_lists(events: Seq<InputEvent>, code: int, down: bool)
    requires
        events.len() <= 1,
    ensures
        is_down(events, code, down) == (if events.len() == 1 && events[0].kind == 1
            && events[0].code == code {
            events[0].value != 0
        } else {
            down
        }),
        wheel_turn(events) == (if events.len() == 1 && events[0].kind == 2 && events[0].code == 8 {
            events[0].value as int
        } else {
            0
        }),
{
    reveal_with_fuel(is_down, 2);
    reveal_with_fuel(wheel_turn, 2);
    if events.len() == 1 {
        assert(events.drop_last() =~= Seq::<InputEvent>::empty());
    }
}

/// A guest that follows the events of pointers has the buttons of the client: whatever was held
/// before, the left, the middle and the right button are down after them exactly where the client
/// holds them, and no other key or button has changed.
pub proof fn buttons_follow_the_client(
    ev: VncInputEvent,
    before: u8,
    width: u32,
    height: u32,
    code: int,
    down: bool,
)
    requires
        code == 0x110 ==> down == (before % 2 == 1),
        code == 0x112 ==> down == (before / 2 % 2 == 1),
        code == 0x111 ==> down == (before / 4 % 2 == 1),
    ensures
        is_down(pointer_events(ev, before, width, height), code, down) == (if code == 0x110 {
            ev.button_mask % 2 == 1
        } else if code == 0x112 {
            ev.button_mask / 2 % 2 == 1
        } else if code == 0x111 {
            ev.button_mask / 4 % 2 == 1
        } else {
            down
        }),
        wheel_turn(pointer_events(ev, before, width, height)) == (if before / 8 % 2 == 0
            && ev.button_mask / 8 % 2 == 1 {
            1int
        } else {
            0
        }) - (if before / 16 % 2 == 0 && ev.button_mask / 16 % 2 == 1 {
            1int
        } else {
            0
        }),
{
    let now = ev.button_mask;
    let place = seq![
        InputEvent { kind: EV_ABS, code: ABS_X, value: on_axis(ev.x, width) as i32 },
        InputEvent { kind: EV_ABS, code: ABS_Y, value: on_axis(ev.y, height) as i32 },
    ];
    let left = button(before, now, 1, BTN_LEFT);
    let middle = button(before, now, 2, BTN_MIDDLE);
    let right = button(before, now, 4, BTN_RIGHT);
    let up = wheel(before, now, 8, 1);
    let back = wheel(before, now, 16, -1i32);
    reveal_with_fuel(is_down, 3);
    reveal_with_fuel(wheel_turn, 3);
    assert(place.drop_last().drop_last() =~= Seq::<InputEvent>::empty());
    assert(is_down(place, code, down) == down && wheel_turn(place) == 0);
    let a = is_down(place + left, code, down);
    let b = is_down(place + left + middle, code, down);
    let c = is_down(place + left + middle + right, code, down);
    let d = is_down(place + left + middle + right + up, code, down);
    two_lists_of_events(place, left, code, down);
    short_lists(left, code, down);
    two_lists_of_events(place + left, middle, code, down);
    short_lists(middle, code, a);
    two_lists_of_events(place + left + middle, right, code, down);
    short_lists(right, code, b);
    two_lists_of_events(place + left + middle + right, up, code, down);
    short_lists(up, code, c);
    two_lists_of_events(place + left + middle + right + up, back, code, down);
    short_lists(back, code, d);
}

/// A report of a pointer begins with where it is, across and down.
pub proof fn a_pointer_is_somewhere(ev: VncInputEvent, before: u8, width: u32, height: u32)
    requires
        width > 0,
        height > 0,
    ensures
        ({
            let events = pointer_events(ev, before, width, height);
            let across = events[0];
            let down = events[1];
            &&& events.len() >= 2
            &&& across.kind == 3 && across.code == 0
            &&& down.kind == 3 && down.code == 1
            &&& ev.x <= 0 ==> across.value == 0
            &&& ev.y <= 0 ==> down.value == 0
            &&& ev.x >= width ==> across.value == 32767
            &&& ev.y >= height ==> down.value == 32767
            &&& 0 <= ev.x < width ==> across.value * width <= ev.x * 32767 < (across.value + 1)
                * width
            &&& 0 <= ev.y < height ==> down.value * height <= ev.y * 32767 < (down.value + 1)
                * height
        }),
{
    the_axis_is_as_long_as_the_screen(ev.x, width);
    the_axis_is_as_long_as_the_screen(ev.y, height);
    the_axis_keeps_order(ev.x, ev.x, width);
    the_axis_keeps_order(ev.y, ev.y, height);
}

/// The queue once a client did something.
pub open spec fn queued(queue: Seq<VncInputEvent>, ev: VncInputEvent) -> Seq<VncInputEvent> {
    queue.push(ev)
}

/// What is delivered next, and what waits behind it.
pub open spec fn next_in(queue: Seq<VncInputEvent>) -> (VncInputEvent, Seq<VncInputEvent>) {
    (queue[0], queue.skip(1))
}

/// What is delivered until nothing waits, in order.
pub open spec fn delivered(queue: Seq<VncInputEvent>, n: nat) -> Seq<VncInputEvent>
    decreases n,
{
    if n == 0 || queue.len() == 0 {
        Seq::empty()
    } else {
        seq![next_in(queue).0] + delivered(next_in(queue).1, (n - 1) as nat)
    }
}

/// What clients did is delivered in the order in which they did it: what comes last is delivered
/// last, and nothing is left out or delivered twice.
pub proof fn events_keep_their_order(queue: Seq<VncInputEvent>, ev: VncInputEvent)
    ensures
        delivered(queue, queue.len()) == queue,
        queued(queue, ev).len() == queue.len() + 1,
        delivered(queued(queue, ev), queue.len() + 1) == delivered(queue, queue.len()) + seq![ev],
    decreases queue.len(),
{
    let longer = queued(queue, ev);
    if queue.len() == 0 {
        reveal_with_fuel(delivered, 3);
        assert(delivered(longer, 1) =~= seq![ev]);
        assert(delivered(queue, 0) + seq![ev] =~= seq![ev]);
        assert(delivered(queue, 0) =~= queue);
    } else {
        let rest = next_in(queue).1;
        events_keep_their_order(rest, ev);
        assert(next_in(longer).1 =~= queued(rest, ev));
        assert(seq![queue[0]] + rest =~= queue);
        assert(delivered(longer, queue.len() + 1) =~= delivered(queue, queue.len()) + seq![ev]);
    }
}

/// A device that events go to.
#[derive(Clone, Copy, Debug, PartialEq, Eq, Structural)]
pub enum Target {
    Tablet,
    Keyboard,
}

/// A report for a device.
pub struct Delivery {
    pub target: Target,
    pub events: Vec<InputEvent>,
}

/// What clients did and was not delivered yet, and the buttons that they hold.
pub struct VncInput {
    pub queue: VecDeque<VncInputEvent>,
    pub prev_button_mask: u8,
}

/// Adds the event of a button, where it changed.
fn push_button(out: &mut Vec<InputEvent>, before: u8, now: u8, place: u8, code: u16)
    requires
        place > 0,
    ensures
        final(out)@ == old(out)@ + button(before, now, place as int, code),
{
    let was: bool = before / place % 2 == 1;
    let is: bool = now / place % 2 == 1;
    if was != is {
        out.push(
            InputEvent {
                kind: EV_KEY,
                code,
                value: if is {
                    1
                } else {
                    0
                },
            },
        );
    }
    assert(out@ =~= old(out)@ + button(before, now, place as int, code));
}

/// Adds the event of the wheel, where it was turned.
fn push_wheel(out: &mut Vec<InputEvent>, before: u8, now: u8, place: u8, value: i32)
    requires
        place > 0,
    ensures
        final(out)@ == old(out)@ + wheel(before, now, place as int, value),
{
    let was: bool = before / place % 2 == 1;
    let is: bool = now / place % 2 == 1;
    if !was && is {
        out.push(InputEvent { kind: EV_REL, code: REL_WHEEL, value });
    }
    assert(out@ =~= old(out)@ + wheel(before, now, place as int, value));
}

impl VncInput {
    pub fn new() -> (r: Self)
        ensures
            r.queue@ == Seq::<VncInputEvent>::empty(),
            r.prev_button_mask == 0,
    {
        VncInput { queue: VecDeque::new(), prev_button_mask: 0 }
    }

    /// Takes in what a client did.
    pub fn push(&mut self, ev: VncInputEvent)
        ensures
            final(self).queue@ == old(self).queue@.push(ev),
            final(self).queue@ == queued(old(self).queue@, ev),
            final(self).prev_button_mask == old(self).prev_button_mask,
    {
        self.queue.push_back(ev);
    }

    /// The events of a pointer, on a screen of that size.
    pub fn pointer_to_mouse_events(&mut self, ev: &VncInputEvent, width: u32, height: u32) -> (r:
        Vec<InputEvent>)
        ensures
            r@ == pointer_events(*ev, old(self).prev_button_mask, width, height),
            final(self).prev_button_mask == ev.button_mask,
            final(self).queue@ == old(self).queue@,
    {
        let before: u8 = self.prev_button_mask;
        let now: u8 = ev.button_mask;
        self.prev_button_mask = now;
        let mut out: Vec<InputEvent> = Vec::new();
        out.push(InputEvent { kind: EV_ABS, code: ABS_X, value: vnc_norm_abs(ev.x, width) });
        out.push(InputEvent { kind: EV_ABS, code: ABS_Y, value: vnc_norm_abs(ev.y, height) });
        assert(out@ =~= seq![
            InputEvent { kind: EV_ABS, code: ABS_X, value: on_axis(ev.x, width) as i32 },
            InputEvent { kind: EV_ABS, code: ABS_Y, value: on_axis(ev.y, height) as i32 },
        ]);
        push_button(&mut out, before, now, 1, BTN_LEFT);
        push_button(&mut out, before, now, 2, BTN_MIDDLE);
        push_button(&mut out, before, now, 4, BTN_RIGHT);
        push_wheel(&mut out, before, now, 8, 1);
        push_wheel(&mut out, before, now, 16, -1);
        out
    }

    /// Delivers the next thing that a client did, if there is a device for it. Without one it is
    /// dropped, but the buttons that are held are known all the same.
    pub fn inject_next_event(
        &mut self,
        have_tablet: bool,
        have_keyboard: bool,
        width: u32,
        height: u32,
    ) -> (r: Option<Delivery>)
        ensures
            old(self).queue@.len() == 0 ==> {
                &&& r is None
                &&& final(self).queue@ == old(self).queue@
                &&& final(self).prev_button_mask == old(self).prev_button_mask
            },
            old(self).queue@.len() > 0 ==> {
                let ev = old(self).queue@[0];
                &&& final(self).queue@ == old(self).queue@.skip(1)
                &&& (ev, final(self).queue@) == next_in(old(self).queue@)
                &&& final(self).prev_button_mask == if ev.event_type == VNC_INPUT_POINTER {
                    ev.button_mask
                } else {
                    old(self).prev_button_mask
                }
                &&& if ev.event_type == VNC_INPUT_KEY && have_keyboard {
                    r matches Some(d) && d.target == Target::Keyboard && d.events@ == seq![
                        key_event(ev),
                    ]
                } else if ev.event_type == VNC_INPUT_POINTER && have_tablet {
                    r matches Some(d) && d.target == Target::Tablet && d.events@ == pointer_events(
                        ev,
                        old(self).prev_button_mask,
                        width,
                        height,
                    )
                } else {
                    r is None
                }
            },
            old(self).queue@.len() > 0 ==> {
                let (d, held) = dispatched(
                    old(self).queue@[0],
                    old(self).prev_button_mask,
                    have_tablet,
                    have_keyboard,
                    width,
                    height,
                );
                &&& final(self).prev_button_mask == held
                &&& match d {
                    Some((target, events)) => r is Some && r->0.target == target
                        && r->0.events@ == events,
                    None => r is None,
                }
            },
            r matches Some(d) ==> d.target == Target::Keyboard ==> {
                let ev = old(self).queue@[0];
                &&& d.events@.len() == 1
                &&& d.events@[0].kind == 1
                &&& d.events@[0].code == ev.linux_keycode
                &&& d.events@[0].value == 1 <==> ev.down != 0
                &&& d.events@[0].value == 0 <==> ev.down == 0
            },
    {
        let ev = match self.queue.pop_front() {
            Some(ev) => ev,
            None => {
                return None;
            },
        };
        assert(self.queue@ =~= old(self).queue@.skip(1));
        if ev.event_type == VNC_INPUT_KEY {
            if !have_keyboard {
                return None;
            }
            let mut events: Vec<InputEvent> = Vec::new();
            events.push(
                InputEvent {
                    kind: EV_KEY,
                    code: ev.linux_keycode,
                    value: if ev.down != 0 {
                        1
                    } else {
                        0
                    },
                },
            );
            assert(events@ =~= seq![key_event(ev)]);
            return Some(Delivery { target: Target::Keyboard, events });
        }
        if ev.event_type == VNC_INPUT_POINTER {
            let events = self.pointer_to_mouse_events(&ev, width, height);
            if !have_tablet {
                return None;
            }
            return Some(Delivery { target: Target::Tablet, events });
        }
        None
    }
}

/// A button that did not change makes no event, so a press is followed by a release, and a release
/// by a press.
pub proof fn presses_and_releases_alternate(before: u8, now: u8, later: u8, place: int, code: u16)
    requires
        button(before, now, place, code).len() == 1,
        button(now, later, place, code).len() == 1,
    ensures
        button(before, now, place, code)[0].value + button(now, later, place, code)[0].value == 1,
{
}

/// Where the events go that come of what a client did, and the buttons that are held after it.
pub open spec fn dispatched(
    ev: VncInputEvent,
    held: u8,
    have_tablet: bool,
    have_keyboard: bool,
    width: u32,
    height: u32,
) -> (Option<(Target, Seq<InputEvent>)>, u8) {
    if ev.event_type == VNC_INPUT_KEY {
        (
            if have_keyboard {
                Some((Target::Keyboard, seq![key_event(ev)]))
            } else {
                None
            },
            held,
        )
    } else if ev.event_type == VNC_INPUT_POINTER {
        (
            if have_tablet {
                Some((Target::Tablet, pointer_events(ev, held, width, height)))
            } else {
                None
            },
            ev.button_mask,
        )
    } else {
        (None, held)
    }
}

/// Keys, which are events of type one, go to the keyboard, and pointers, which are of type two, to the
/// tablet; what is of neither type, or has no device, goes nowhere. The buttons that a pointer holds are
/// known from then on, whether there is a tablet or not, and a key does not change them: of two pointer
/// events in a row, the second tells of no button that the first one already held.
pub proof fn events_reach_their_device(
    ev: VncInputEvent,
    again: VncInputEvent,
    held: u8,
    have_tablet: bool,
    have_keyboard: bool,
    width: u32,
    height: u32,
)
    ensures
        ({
            let (d, now) = dispatched(ev, held, have_tablet, have_keyboard, width, height);
            let (e, later) = dispatched(again, now, true, have_keyboard, width, height);
            &&& d is Some <==> ev.event_type == 1 && have_keyboard || ev.event_type == 2
                && have_tablet
            &&& d matches Some((t, _)) ==> (t == Target::Keyboard <==> ev.event_type == 1)
            &&& d matches Some((t, events)) ==> (t == Target::Keyboard ==> events.len() == 1
                && events[0].code == ev.linux_keycode)
            &&& d matches Some((t, events)) ==> (t == Target::Tablet ==> events.len() >= 2)
            &&& now == if ev.event_type == 2 {
                ev.button_mask
            } else {
                held
            }
            &&& ev.event_type == 2 && again.event_type == 2 && again.button_mask == ev.button_mask
                ==> (e matches Some((_, events)) && events.len() == 2 && later == now)
        }),
{
}

} // verus!
