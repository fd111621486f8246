//! Input events on their way to a device, and the buffer of those that its socket did not take.

use crate::bytes;
use vstd::prelude::*;

verus! {

/// Bytes of one event.
pub const EVENT_SIZE: usize = 8;

/// Bytes that a device buffers at most: those of 64 events.
pub const EVENT_BUFFER_LEN_MAX: usize = 512;

#[derive(Copy, Clone, Debug, Hash, PartialEq, Eq, Structural)]
pub enum EventDeviceKind {
    /// Produces relative mouse motions, wheel, and button clicks while the real mouse is captured.
    Mouse,
    /// Produces absolute pointer motion, with hover, buttons and wheel.
    Tablet,
    /// Produces absolute motion and touch events from the display window's events.
    Touchscreen,
    /// Produces key events while the display window has focus.
    Keyboard,
}

/// An input event.
#[derive(Copy, Clone, Debug, PartialEq, Eq, Structural)]
pub struct InputEvent {
    pub kind: u16,
    pub code: u16,
    pub value: i32,
}

/// The number whose bits are those of `v`.
pub open spec fn bits_of(v: i32) -> nat {
    if v < 0 {
        (v + 0x1_0000_0000) as nat
    } else {
        v as nat
    }
}

impl InputEvent {
    /// The bytes of the event: each number with its least significant byte first.
    pub open spec fn encoded(self) -> Seq<u8> {
        bytes::le_bytes(self.kind as nat, 2) + bytes::le_bytes(self.code as nat, 2)
            + bytes::le_bytes(bits_of(self.value), 4)
    }

    /// The event that ends a report.
    pub fn syn() -> (r: Self)
        ensures
            r == (InputEvent { kind: 0, code: 0, value: 0 }),
    {
        InputEvent { kind: 0, code: 0, value: 0 }
    }

    /// The bytes of the event.
    pub fn to_bytes(self) -> (r: Vec<u8>)
        ensures
            r@ == self.encoded(),
            r@.len() == EVENT_SIZE,
    {
        let bits: u32 = if self.value < 0 {
            (self.value as i64 + 0x1_0000_0000) as u32
        } else {
            self.value as u32
        };
        let mut out: Vec<u8> = Vec::new();
        let kind = bytes::le16_bytes(self.kind);
        let code = bytes::le16_bytes(self.code);
        let value = bytes::le32_bytes(bits);
        out.extend_from_slice(&kind);
        out.extend_from_slice(&code);
        out.extend_from_slice(&value);
        assert(out@ =~= self.encoded());
        out
    }

    /// The event that the bytes are of.
    pub fn from_bytes(b: &[u8; 8]) -> (r: Self)
        ensures
            r.encoded() == b@,
    {
        let kind: u16 = bytes::get_le16(b, 0);
        let code: u16 = bytes::get_le16(b, 2);
        let bits: u32 = bytes::get_le32(b, 4);
        let value: i32 = if bits >= 0x8000_0000 {
            (bits as i64 - 0x1_0000_0000) as i32
        } else {
            bits as i32
        };
        let r = InputEvent { kind, code, value };
        proof {
            le_bytes_of_value(b@.subrange(0, 2));
            le_bytes_of_value(b@.subrange(2, 4));
            le_bytes_of_value(b@.subrange(4, 8));
            assert(r.encoded() =~= b@);
        }
        r
    }
}

/// A number spelled again gives the bytes that it was read from.
proof fn le_bytes_of_value(s: Seq<u8>)
    ensures
        bytes::le_bytes(bytes::le_value(s), s.len()) == s,
{
    bytes::be_bytes_of_value(s.reverse());
    assert(s.reverse().reverse() =~= s);
}

/// Two events with the same bytes are the same event.
pub proof fn events_are_told_apart(a: InputEvent, b: InputEvent)
    requires
        a.encoded() == b.encoded(),
    ensures
        a == b,
{
    bytes::byte_pow_values();
    bytes::be_bytes_len(a.kind as nat, 2);
    bytes::be_bytes_len(a.code as nat, 2);
    bytes::be_bytes_len(bits_of(a.value), 4);
    bytes::be_bytes_len(b.kind as nat, 2);
    bytes::be_bytes_len(b.code as nat, 2);
    bytes::be_bytes_len(bits_of(b.value), 4);
    let x = a.encoded();
    let y = b.encoded();
    assert(x.subrange(0, 2) =~= bytes::le_bytes(a.kind as nat, 2));
    assert(x.subrange(2, 4) =~= bytes::le_bytes(a.code as nat, 2));
    assert(x.subrange(4, 8) =~= bytes::le_bytes(bits_of(a.value), 4));
    assert(y.subrange(0, 2) =~= bytes::le_bytes(b.kind as nat, 2));
    assert(y.subrange(2, 4) =~= bytes::le_bytes(b.code as nat, 2));
    assert(y.subrange(4, 8) =~= bytes::le_bytes(bits_of(b.value), 4));
    bytes::le_round_trip(a.kind as nat, 2);
    bytes::le_round_trip(b.kind as nat, 2);
    bytes::le_round_trip(a.code as nat, 2);
    bytes::le_round_trip(b.code as nat, 2);
    bytes::le_round_trip(bits_of(a.value), 4);
    bytes::le_round_trip(bits_of(b.value), 4);
}

/// The bytes of some events, one after the other.
pub open spec fn encoded_all(events: Seq<InputEvent>) -> Seq<u8>
    decreases events.len(),
{
    if events.len() == 0 {
        Seq::empty()
    } else {
        encoded_all(events.drop_last()) + events.last().encoded()
    }
}

/// Bytes of some events.
pub proof fn encoded_len(events: Seq<InputEvent>)
    ensures
        encoded_all(events).len() == events.len() * EVENT_SIZE,
    decreases events.len(),
{
    if events.len() > 0 {
        encoded_len(events.drop_last());
        let e = events.last();
        bytes::be_bytes_len(e.kind as nat, 2);
        bytes::be_bytes_len(e.code as nat, 2);
        bytes::be_bytes_len(bits_of(e.value), 4);
    }
}

/// What a socket did with the bytes that it was handed.
#[derive(Copy, Clone, Debug, PartialEq, Eq, Structural)]
pub enum WriteOutcome {
    Wrote(usize),
    WouldBlock,
    Failed,
}

/// Where a flush stands after one write.
#[derive(Copy, Clone, Debug, PartialEq, Eq, Structural)]
pub enum Flush {
    /// Bytes are left: write again.
    Again,
    /// Nothing is left.
    Empty,
    /// Bytes are left, and the socket takes no more.
    Kept,
    /// The socket failed.
    Failed,
}

/// A virtual event device, such as a mouse or keyboard: what is buffered for its socket.
pub struct EventDevice {
    pub kind: EventDeviceKind,
    pub event_buffer: Vec<u8>,
}

impl EventDevice {
    /// The buffer is within its limit.
    pub open spec fn wf(&self) -> bool {
        self.event_buffer@.len() <= EVENT_BUFFER_LEN_MAX
    }

    /// There is room for so many events.
    pub open spec fn has_room_for(&self, num_events: int) -> bool {
        num_events * EVENT_SIZE + self.event_buffer@.len() <= EVENT_BUFFER_LEN_MAX
    }

    pub fn new(kind: EventDeviceKind) -> (r: EventDevice)
        ensures
            r.wf(),
            r.kind == kind,
            r.event_buffer@ == Seq::<u8>::empty(),
    {
        EventDevice { kind, event_buffer: Vec::new() }
    }

    pub fn mouse() -> (r: EventDevice)
        ensures
            r.wf(),
            r.kind == EventDeviceKind::Mouse,
            r.event_buffer@ == Seq::<u8>::empty(),
    {
        Self::new(EventDeviceKind::Mouse)
    }

    pub fn tablet() -> (r: EventDevice)
        ensures
            r.wf(),
            r.kind == EventDeviceKind::Tablet,
            r.event_buffer@ == Seq::<u8>::empty(),
    {
        Self::new(EventDeviceKind::Tablet)
    }

    pub fn touchscreen() -> (r: EventDevice)
        ensures
            r.wf(),
            r.kind == EventDeviceKind::Touchscreen,
            r.event_buffer@ == Seq::<u8>::empty(),
    {
        Self::new(EventDeviceKind::Touchscreen)
    }

    pub fn keyboard() -> (r: EventDevice)
        ensures
            r.wf(),
            r.kind == EventDeviceKind::Keyboard,
            r.event_buffer@ == Seq::<u8>::empty(),
    {
        Self::new(EventDeviceKind::Keyboard)
    }

    pub fn kind(&self) -> (r: EventDeviceKind)
        ensures
            r == self.kind,
    {
        self.kind
    }

    pub fn is_buffered_events_empty(&self) -> (r: bool)
        ensures
            r == (self.event_buffer@.len() == 0),
    {
        self.event_buffer.len() == 0
    }

    /// The bytes that a flush writes next.
    pub fn pending(&self) -> (r: &[u8])
        ensures
            r@ == self.event_buffer@,
    {
        self.event_buffer.as_slice()
    }

    /// Takes what the socket did with the buffered bytes, and says whether to write again. What was
    /// written leaves the buffer; nothing else does.
    pub fn flush_buffered_events(&mut self, outcome: WriteOutcome) -> (r: Flush)
        requires
            old(self).wf(),
            outcome matches WriteOutcome::Wrote(n) ==> n <= old(self).event_buffer@.len(),
        ensures
            final(self).wf(),
            final(self).kind == old(self).kind,
            r == flush_of(old(self).event_buffer@.len() as int, outcome),
            match outcome {
                WriteOutcome::Wrote(n) => {
                    &&& final(self).event_buffer@ == old(self).event_buffer@.skip(n as int)
                    &&& final(self).event_buffer@ == kept(old(self).event_buffer@, seq![n as nat])
                    &&& r == if n == old(self).event_buffer@.len() {
                        Flush::Empty
                    } else if n == 0 {
                        Flush::Kept
                    } else {
                        Flush::Again
                    }
                },
                WriteOutcome::WouldBlock => {
                    &&& final(self).event_buffer@ == old(self).event_buffer@
                    &&& r == if old(self).event_buffer@.len() == 0 {
                        Flush::Empty
                    } else {
                        Flush::Kept
                    }
                },
                WriteOutcome::Failed => {
                    &&& final(self).event_buffer@ == old(self).event_buffer@
                    &&& r == if old(self).event_buffer@.len() == 0 {
                        Flush::Empty
                    } else {
                        Flush::Failed
                    }
                },
            },
    {
        assert(self.event_buffer@.skip(0) =~= self.event_buffer@);
        proof {
            if let WriteOutcome::Wrote(n) = outcome {
                reveal_with_fuel(kept, 2);
                assert(seq![n as nat].drop_last() =~= Seq::<nat>::empty());
            }
        }
        let len: usize = self.event_buffer.len();
        match outcome {
            WriteOutcome::Wrote(n) => {
                if n == 0 {
                    return if len == 0 {
                        Flush::Empty
                    } else {
                        Flush::Kept
                    };
                }
                let mut rest: Vec<u8> = Vec::new();
                rest.extend_from_slice(vstd::slice::slice_subrange(
                    self.event_buffer.as_slice(),
                    n,
                    len,
                ));
                assert(rest@ =~= self.event_buffer@.skip(n as int));
                self.event_buffer = rest;
                if n == len {
                    Flush::Empty
                } else {
                    Flush::Again
                }
            },
            WriteOutcome::WouldBlock => if len == 0 {
                Flush::Empty
            } else {
                Flush::Kept
            },
            WriteOutcome::Failed => if len == 0 {
                Flush::Empty
            } else {
                Flush::Failed
            },
        }
    }

    /// Whether there is space in the event buffer for the given number of events.
    pub fn can_buffer_events(&self, num_events: usize) -> (r: bool)
        requires
            self.wf(),
        ensures
            r == self.has_room_for(num_events as int),
    {
        if num_events > 64 {
            return false;
        }
        EVENT_BUFFER_LEN_MAX - self.event_buffer.len() >= num_events * EVENT_SIZE
    }

    /// Buffers a report: all of its events and the one that ends it, or nothing where there is no
    /// room for all of them. Whether it was buffered: only then the buffer is flushed.
    pub fn send_report(&mut self, events: &[InputEvent]) -> (r: bool)
        requires
            old(self).wf(),
        ensures
            final(self).wf(),
            final(self).kind == old(self).kind,
            r == old(self).has_room_for(events@.len() as int + 1),
            r ==> final(self).event_buffer@ == old(self).event_buffer@ + report_of(events@),
            final(self).event_buffer@ == if r {
                old(self).event_buffer@ + encoded_all(events@) + (InputEvent {
                    kind: 0,
                    code: 0,
                    value: 0,
                }).encoded()
            } else {
                old(self).event_buffer@
            },
    {
        if events.len() >= 64 || !self.can_buffer_events(events.len() + 1) {
            return false;
        }
        assert(self.event_buffer@ =~= old(self).event_buffer@ + encoded_all(events@.take(0)));
        let mut i: usize = 0;
        while i < events.len()
            invariant
                i <= events@.len(),
                events.len() == events@.len(),
                self.kind == old(self).kind,
                self.event_buffer@ == old(self).event_buffer@ + encoded_all(events@.take(i as int)),
            decreases events.len() - i,
        {
            let b = events[i].to_bytes();
            self.event_buffer.extend_from_slice(b.as_slice());
            proof {
                let next = events@.take(i + 1);
                assert(next.drop_last() =~= events@.take(i as int));
                assert(self.event_buffer@ =~= old(self).event_buffer@ + encoded_all(next));
            }
            i = i + 1;
        }
        let b = InputEvent::syn().to_bytes();
        self.event_buffer.extend_from_slice(b.as_slice());
        proof {
            assert(events@.take(i as int) =~= events@);
            encoded_len(events@);
            assert(self.event_buffer@ =~= old(self).event_buffer@ + report_of(events@));
        }
        true
    }

    /// Takes what the socket did with one event that was written past an empty buffer. The part
    /// that was not written is buffered. Whether nothing is buffered: `None`, where the socket
    /// failed.
    pub fn send_event_encoded(&mut self, event: InputEvent, outcome: WriteOutcome) -> (r: Option<
        bool,
    >)
        requires
            old(self).wf(),
            outcome matches WriteOutcome::Wrote(n) ==> n <= EVENT_SIZE,
        ensures
            final(self).wf(),
            final(self).kind == old(self).kind,
            r == (match outcome {
                WriteOutcome::Wrote(n) => Some(n == EVENT_SIZE),
                WriteOutcome::WouldBlock => Some(false),
                WriteOutcome::Failed => None,
            }),
            final(self).event_buffer@ == (match outcome {
                WriteOutcome::Wrote(n) if n < EVENT_SIZE && old(self).has_room_for(1) => old(
                    self,
                ).event_buffer@ + event.encoded().skip(n as int),
                WriteOutcome::WouldBlock if old(self).has_room_for(1) => old(self).event_buffer@
                    + event.encoded(),
                _ => old(self).event_buffer@,
            }),
            r == Some(false) && old(self).has_room_for(1) ==> {
                let n = if let WriteOutcome::Wrote(n) = outcome {
                    n as int
                } else {
                    0
                };
                let now = final(self).event_buffer@;
                let before = old(self).event_buffer@.len() as int;
                &&& now.take(before) == old(self).event_buffer@
                &&& event.encoded().take(n) + now.skip(before) == event.encoded()
            },
    {
        let written: usize = match outcome {
            WriteOutcome::Wrote(n) => n,
            WriteOutcome::WouldBlock => 0,
            WriteOutcome::Failed => {
                return None;
            },
        };
        if written == EVENT_SIZE {
            return Some(true);
        }
        if self.can_buffer_events(1) {
            let b = event.to_bytes();
            self.event_buffer.extend_from_slice(vstd::slice::slice_subrange(
                b.as_slice(),
                written,
                EVENT_SIZE,
            ));
            proof {
                assert(b@.subrange(written as int, 8) =~= event.encoded().skip(written as int));
                assert(event.encoded().skip(0) =~= event.encoded());
                let n = written as int;
                let before = old(self).event_buffer@.len() as int;
                assert(self.event_buffer@.take(before) =~= old(self).event_buffer@);
                assert(self.event_buffer@.skip(before) =~= event.encoded().skip(n));
                assert(event.encoded().take(n) + event.encoded().skip(n) =~= event.encoded());
            }
        }
        Some(false)
    }
}

/// What is buffered after a flush wrote so many bytes at a time.
pub open spec fn kept(buffer: Seq<u8>, writes: Seq<nat>) -> Seq<u8>
    decreases writes.len(),
{
    if writes.len() == 0 {
        buffer
    } else {
        kept(buffer, writes.drop_last()).skip(writes.last() as int)
    }
}

/// What a flush wrote, so many bytes at a time.
pub open spec fn taken(buffer: Seq<u8>, writes: Seq<nat>) -> Seq<u8>
    decreases writes.len(),
{
    if writes.len() == 0 {
        Seq::empty()
    } else {
        taken(buffer, writes.drop_last()) + kept(buffer, writes.drop_last()).take(
            writes.last() as int,
        )
    }
}

/// Each write took no more than there was.
pub open spec fn within(buffer: Seq<u8>, writes: Seq<nat>) -> bool
    decreases writes.len(),
{
    writes.len() == 0 || {
        &&& within(buffer, writes.drop_last())
        &&& writes.last() <= kept(buffer, writes.drop_last()).len()
    }
}

/// In however many writes a socket takes the buffer, what it took followed by what is still
/// buffered is the buffer.
pub proof fn nothing_is_lost_or_reordered(buffer: Seq<u8>, writes: Seq<nat>)
    requires
        within(buffer, writes),
    ensures
        taken(buffer, writes) + kept(buffer, writes) == buffer,
    decreases writes.len(),
{
    if writes.len() > 0 {
        let before = writes.drop_last();
        let n = writes.last() as int;
        nothing_is_lost_or_reordered(buffer, before);
        let k = kept(buffer, before);
        assert(taken(buffer, writes) + kept(buffer, writes) =~= taken(buffer, before) + (k.take(n)
            + k.skip(n)));
        assert(k.take(n) + k.skip(n) =~= k);
    } else {
        assert(taken(buffer, writes) + kept(buffer, writes) =~= buffer);
    }
}

/// The input devices that belong to one display binding. With neither, the binding only shows.
pub struct VncBindingInput {
    /// Absolute pointer, named for the screen this binding serves.
    pub tablet: Option<EventDevice>,
    /// Keyboard, named for the same screen.
    pub keyboard: Option<EventDevice>,
}

impl Default for VncBindingInput {
    fn default() -> (r: Self)
        ensures
            r.tablet is None,
            r.keyboard is None,
    {
        VncBindingInput { tablet: None, keyboard: None }
    }
}

/// An event is eight bytes: its kind and its code, of two bytes each, and its value, of four bytes in
/// two's complement, each with its low byte first.
pub proof fn events_are_eight_bytes(e: InputEvent)
    ensures
        ({
            let b = e.encoded();
            let value = b[4] + b[5] * 0x100 + b[6] * 0x1_0000 + b[7] * 0x100_0000;
            &&& b.len() == 8
            &&& b[0] + b[1] * 0x100 == e.kind
            &&& b[2] + b[3] * 0x100 == e.code
            &&& value == e.value || value == e.value + 0x1_0000_0000
        }),
{
    bytes::byte_pow_values();
    bytes::le_round_trip(e.kind as nat, 2);
    bytes::le_round_trip(e.code as nat, 2);
    bytes::le_round_trip(bits_of(e.value), 4);
    let b = e.encoded();
    let kind = bytes::le_bytes(e.kind as nat, 2);
    let code = bytes::le_bytes(e.code as nat, 2);
    let value = bytes::le_bytes(bits_of(e.value), 4);
    bytes::be_bytes_len(e.kind as nat, 2);
    bytes::be_bytes_len(e.code as nat, 2);
    bytes::be_bytes_len(bits_of(e.value), 4);
    bytes::be_value_2(kind.reverse());
    bytes::be_value_2(code.reverse());
    bytes::be_value_4(value.reverse());
    assert(b.subrange(0, 2) =~= kind);
    assert(b.subrange(2, 4) =~= code);
    assert(b.subrange(4, 8) =~= value);
}

/// The events of a report follow each other in their order.
pub proof fn reports_keep_their_order(events: Seq<InputEvent>, i: int)
    requires
        0 <= i < events.len(),
    ensures
        encoded_all(events).len() == events.len() * 8,
        encoded_all(events).subrange(i * 8, i * 8 + 8) == events[i].encoded(),
    decreases events.len(),
{
    let before = events.drop_last();
    encoded_len(events);
    encoded_len(before);
    let e = events.last();
    bytes::be_bytes_len(e.kind as nat, 2);
    bytes::be_bytes_len(e.code as nat, 2);
    bytes::be_bytes_len(bits_of(e.value), 4);
    if i < before.len() {
        reports_keep_their_order(before, i);
        assert(before[i] == events[i]);
        assert(encoded_all(events).subrange(i * 8, i * 8 + 8) =~= encoded_all(before).subrange(
            i * 8,
            i * 8 + 8,
        ));
    } else {
        assert(encoded_all(events).subrange(i * 8, i * 8 + 8) =~= e.encoded());
    }
}

/// There is room for 64 events, whatever of them is buffered already.
pub proof fn sixty_four_events_fit(d: EventDevice, n: int)
    ensures
        d.has_room_for(n) <==> d.event_buffer@.len() + n * 8 <= 64 * 8,
{
}

/// Where a flush stands, of a buffer of so many bytes.
pub open spec fn flush_of(len: int, outcome: WriteOutcome) -> Flush {
    match outcome {
        WriteOutcome::Wrote(n) => if n == len {
            Flush::Empty
        } else if n == 0 {
            Flush::Kept
        } else {
            Flush::Again
        },
        _ => if len == 0 {
            Flush::Empty
        } else if outcome is Failed {
            Flush::Failed
        } else {
            Flush::Kept
        },
    }
}

/// A flush is over exactly where nothing is left; it goes on exactly where something was written and
/// something is left.
pub proof fn flushes_go_on_while_something_is_written(len: int, outcome: WriteOutcome)
    requires
        0 <= len,
        outcome matches WriteOutcome::Wrote(n) ==> n <= len,
    ensures
        ({
            let gone = if let WriteOutcome::Wrote(n) = outcome {
                n as int
            } else {
                0
            };
            &&& flush_of(len, outcome) is Empty <==> len - gone == 0
            &&& flush_of(len, outcome) is Again <==> gone > 0 && len - gone > 0
            &&& flush_of(len, outcome) is Failed <==> outcome is Failed && len > 0
        }),
{
}

/// The bytes of a report.
pub open spec fn report_of(events: Seq<InputEvent>) -> Seq<u8> {
    encoded_all(events) + (InputEvent { kind: 0, code: 0, value: 0 }).encoded()
}

/// A report is its events and one of zeroes that ends it.
pub proof fn reports_end_with_zeroes(events: Seq<InputEvent>, i: int)
    ensures
        report_of(events).len() == events.len() * 8 + 8,
        0 <= i < 8 ==> report_of(events)[events.len() * 8 + i] == 0,
        0 <= i < events.len() ==> report_of(events).subrange(i * 8, i * 8 + 8)
            == events[i].encoded(),
{
    let syn = InputEvent { kind: 0, code: 0, value: 0 };
    encoded_len(events);
    reveal_with_fuel(bytes::be_bytes, 5);
    bytes::be_bytes_len(0, 2);
    bytes::be_bytes_len(0, 4);
    assert(syn.encoded() =~= Seq::new(8, |k: int| 0u8));
    if 0 <= i < events.len() {
        reports_keep_their_order(events, i);
        assert(report_of(events).subrange(i * 8, i * 8 + 8) =~= encoded_all(events).subrange(
            i * 8,
            i * 8 + 8,
        ));
    }
}

} // verus!
