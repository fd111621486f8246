//! A display that is served over the network: its address, its surfaces, and who watches it.

use crate::display::{GpuDisplayError, SurfaceType};
use vstd::prelude::*;

pub mod frame;
pub mod h264;
pub mod imports;
pub mod input;

verus! {

/// The port of an address that names none.
pub const DEFAULT_PORT: i32 = 5900;

/// The side of the plane that a guest's cursor has.
pub const CURSOR_SIZE: u32 = 64;

/// Where the host of an address is, and its port.
#[derive(Clone, Copy, Debug, PartialEq, Eq, Structural)]
pub struct Address {
    /// The host is from here
    pub host_start: usize,
    /// up to here.
    pub host_end: usize,
    pub port: i32,
}

/// How many of these bytes there are at the start.
pub open spec fn leading(s: Seq<u8>, b: u8) -> nat
    decreases s.len(),
{
    if s.len() == 0 || s[0] != b {
        0
    } else {
        1 + leading(s.skip(1), b)
    }
}

/// How many of these bytes there are at the end.
pub open spec fn trailing(s: Seq<u8>, b: u8) -> nat
    decreases s.len(),
{
    if s.len() == 0 || s.last() != b {
        0
    } else {
        1 + trailing(s.drop_last(), b)
    }
}

/// The number that some digits spell; none, where there is anything else.
pub open spec fn digits(s: Seq<u8>) -> Option<nat>
    decreases s.len(),
{
    if s.len() == 0 {
        Some(0)
    } else {
        match digits(s.drop_last()) {
            Some(v) if 48 <= s.last() <= 57 => Some(v * 10 + (s.last() - 48) as nat),
            _ => None,
        }
    }
}

/// The number that a text spells: digits, with a sign before them or without, as long as it fits
/// in 32 bits.
pub open spec fn number(s: Seq<u8>) -> Option<i32> {
    let signed = s.len() > 0 && (s[0] == 43 || s[0] == 45);
    let body = if signed {
        s.skip(1)
    } else {
        s
    };
    if body.len() == 0 {
        None
    } else {
        match digits(body) {
            None => None,
            Some(v) => {
                let n = if signed && s[0] == 45 {
                    -(v as int)
                } else {
                    v as int
                };
                if i32::MIN <= n <= i32::MAX {
                    Some(n as i32)
                } else {
                    None
                }
            },
        }
    }
}

/// The last colon of an address, if it has one.
pub open spec fn is_last_colon(s: Seq<u8>, at: int) -> bool {
    &&& 0 <= at < s.len()
    &&& s[at] == 58
    &&& forall|i: int| at < i < s.len() ==> s[i] != 58
}

/// What an address says: the last colon is before the port, the brackets of the host do not count,
/// and a port that cannot be read is the default one.
pub open spec fn is_address(s: Seq<u8>, r: Address) -> bool {
    if exists|i: int| 0 <= i < s.len() && s[i] == 58 {
        exists|at: int|
            {
                &&& #[trigger] is_last_colon(s, at)
                &&& r.host_start == leading(s.take(at), 91)
                &&& r.host_end == at - trailing(s.subrange(r.host_start as int, at), 93)
                &&& r.port == match number(s.skip(at + 1)) {
                    Some(p) => p,
                    None => DEFAULT_PORT,
                }
            }
    } else {
        r.host_start == 0 && r.host_end == 0 && r.port == DEFAULT_PORT
    }
}

/// The digits before a place spell a number that is no more than what all of them do.
proof fn digits_grow(s: Seq<u8>, n: int)
    requires
        0 <= n <= s.len(),
        digits(s) is Some,
    ensures
        digits(s.take(n)) is Some,
        digits(s.take(n))->0 <= digits(s)->0,
    decreases s.len(),
{
    if n < s.len() {
        digits_grow(s.drop_last(), n);
        assert(s.drop_last().take(n) =~= s.take(n));
    } else {
        assert(s.take(n) =~= s);
    }
}

/// Reads a number.
fn parse_number(s: &[u8]) -> (r: Option<i32>)
    ensures
        r == number(s@),
{
    let len: usize = s.len();
    let signed: bool = len > 0 && (s[0] == 43 || s[0] == 45);
    let start: usize = if signed {
        1
    } else {
        0
    };
    if start == len {
        return None;
    }
    let ghost body = if signed {
        s@.skip(1)
    } else {
        s@
    };
    let negative: bool = signed && s[0] == 45;
    let mut v: u64 = 0;
    let mut i: usize = start;
    assert(body.take(0) =~= Seq::<u8>::empty());
    while i < len
        invariant
            start <= i <= len,
            len == s@.len(),
            s.len() == len,
            start == (if signed {
                1int
            } else {
                0int
            }),
            body == (if signed {
                s@.skip(1)
            } else {
                s@
            }),
            signed == (s@.len() > 0 && (s@[0] == 43 || s@[0] == 45)),
            negative == (signed && s@[0] == 45),
            body.len() > 0,
            digits(body.take(i - start)) == Some(v as nat),
            v <= 0x8000_0000,
        decreases len - i,
    {
        let c: u8 = s[i];
        proof {
            assert(body.take(i + 1 - start).drop_last() =~= body.take(i - start));
            assert(body.take(i + 1 - start).last() == c);
            if digits(body) is Some {
                digits_grow(body, i + 1 - start);
            }
        }
        if c < 48 || c > 57 {
            return None;
        }
        v = v * 10 + (c - 48) as u64;
        if v > 0x8000_0000 {
            return None;
        }
        i = i + 1;
    }
    assert(body.take(len - start) =~= body);
    if negative {
        Some((0 - v as i64) as i32)
    } else if v <= 0x7fff_ffff {
        Some(v as i32)
    } else {
        None
    }
}

/// Reads an address.
pub fn split_address(addr: &[u8]) -> (r: Address)
    ensures
        is_address(addr@, r),
        r.host_start <= r.host_end <= addr@.len(),
{
    let mut at: usize = addr.len();
    while at > 0 && addr[at - 1] != 58
        invariant
            at <= addr@.len(),
            addr.len() == addr@.len(),
            forall|i: int| at <= i < addr@.len() ==> addr@[i] != 58,
        decreases at,
    {
        at = at - 1;
    }
    if at == 0 {
        return Address { host_start: 0, host_end: 0, port: DEFAULT_PORT };
    }
    let colon: usize = at - 1;
    assert(is_last_colon(addr@, colon as int));
    let ghost host = addr@.take(colon as int);
    let mut start: usize = 0;
    assert(host.skip(0) =~= host);
    while start < colon && addr[start] == 91
        invariant
            start <= colon < addr@.len(),
            addr.len() == addr@.len(),
            host == addr@.take(colon as int),
            leading(host, 91) == start + leading(host.skip(start as int), 91),
        decreases colon - start,
    {
        assert(host.skip(start as int).skip(1) =~= host.skip(start + 1));
        start = start + 1;
    }
    let ghost rest = addr@.subrange(start as int, colon as int);
    let mut end: usize = colon;
    assert(rest.take(rest.len() as int) =~= rest);
    while end > start && addr[end - 1] == 93
        invariant
            start <= end <= colon < addr@.len(),
            addr.len() == addr@.len(),
            rest == addr@.subrange(start as int, colon as int),
            trailing(rest, 93) == colon - end + trailing(rest.take(end - start), 93),
        decreases end - start,
    {
        assert(rest.take(end - start).drop_last() =~= rest.take(end - 1 - start));
        end = end - 1;
    }
    let tail: &[u8] = vstd::slice::slice_subrange(addr, colon + 1, addr.len());
    assert(tail@ =~= addr@.skip(colon + 1));
    let port: i32 = match parse_number(tail) {
        Some(p) => p,
        None => DEFAULT_PORT,
    };
    let r = Address { host_start: start, host_end: end, port };
    proof {
        assert(r.host_start == leading(host, 91));
        assert(r.host_end == colon - trailing(rest, 93));
        assert(addr@[colon as int] == 58);
    }
    r
}

/// An address says one thing only.
pub proof fn addresses_are_unambiguous(s: Seq<u8>, a: Address, b: Address)
    requires
        is_address(s, a),
        is_address(s, b),
    ensures
        a == b,
{
    if exists|i: int| 0 <= i < s.len() && s[i] == 58 {
        let x = choose|at: int|
            {
                &&& #[trigger] is_last_colon(s, at)
                &&& a.host_start == leading(s.take(at), 91)
                &&& a.host_end == at - trailing(s.subrange(a.host_start as int, at), 93)
                &&& a.port == match number(s.skip(at + 1)) {
                    Some(p) => p,
                    None => DEFAULT_PORT,
                }
            };
        let y = choose|at: int|
            {
                &&& #[trigger] is_last_colon(s, at)
                &&& b.host_start == leading(s.take(at), 91)
                &&& b.host_end == at - trailing(s.subrange(b.host_start as int, at), 93)
                &&& b.port == match number(s.skip(at + 1)) {
                    Some(p) => p,
                    None => DEFAULT_PORT,
                }
            };
        assert(x == y);
    }
}

/// A surface that is to be made.
#[derive(Clone, Copy, Debug, PartialEq, Eq, Structural)]
pub enum NewSurface {
    /// The plane of the guest's cursor.
    Cursor { width: u32, height: u32 },
    /// The screen; the server is resized first, if it has another size.
    Screen { width: u32, height: u32, resize: bool },
}

/// The size that a screen gets: where none is asked for, the one that it has.
pub open spec fn screen_size(requested: u32, current: u32) -> u32 {
    if requested != 0 {
        requested
    } else {
        current
    }
}

/// The surface for a request.
pub open spec fn surface_for(
    parented: bool,
    surf_type: SurfaceType,
    have_screen: bool,
    requested: (u32, u32),
    current: (u32, u32),
) -> Result<NewSurface, GpuDisplayError> {
    if !parented {
        let width = screen_size(requested.0, current.0);
        let height = screen_size(requested.1, current.1);
        Ok(NewSurface::Screen { width, height, resize: (width, height) != current })
    } else if surf_type == SurfaceType::Cursor && have_screen {
        Ok(NewSurface::Cursor { width: CURSOR_SIZE, height: CURSOR_SIZE })
    } else {
        Err(GpuDisplayError::Unsupported)
    }
}

/// A screen has the size that is asked for, each side by itself, and keeps the sides that are not;
/// the server is resized exactly where a side is asked for that it does not have.
pub proof fn screens_have_the_size_asked_for(
    surf_type: SurfaceType,
    have_screen: bool,
    requested: (u32, u32),
    current: (u32, u32),
)
    ensures
        ({
            let s = surface_for(false, surf_type, have_screen, requested, current);
            &&& s matches Ok(NewSurface::Screen { width, height, resize })
            &&& width == requested.0 || (requested.0 == 0 && width == current.0)
            &&& height == requested.1 || (requested.1 == 0 && height == current.1)
            &&& requested == (0u32, 0u32) || requested == current ==> !resize
            &&& requested.0 != 0 && requested.0 != current.0 ==> resize
            &&& requested.1 != 0 && requested.1 != current.1 ==> resize
            &&& resize ==> width != current.0 || height != current.1
        }),
{
}

/// Only a cursor can have a parent, and only a screen can be its parent: it is a square of 64.
pub proof fn only_cursors_have_parents(
    surf_type: SurfaceType,
    have_screen: bool,
    requested: (u32, u32),
    current: (u32, u32),
)
    ensures
        ({
            let s = surface_for(true, surf_type, have_screen, requested, current);
            &&& s is Ok <==> have_screen && surf_type is Cursor
            &&& s matches Ok(c) ==> c == (NewSurface::Cursor { width: 64, height: 64 })
            &&& s matches Err(e) ==> e is Unsupported
        }),
{
}

/// Which surface is made: one with a parent is the guest's cursor, and takes no size from the
/// display's parameters.
pub fn create_surface(
    parented: bool,
    surf_type: SurfaceType,
    have_screen: bool,
    requested: (u32, u32),
    current: (u32, u32),
) -> (r: Result<NewSurface, GpuDisplayError>)
    ensures
        r == (if parented {
            if surf_type != SurfaceType::Cursor || !have_screen {
                Err(GpuDisplayError::Unsupported)
            } else {
                Ok(NewSurface::Cursor { width: CURSOR_SIZE, height: CURSOR_SIZE })
            }
        } else {
            let width = screen_size(requested.0, current.0);
            let height = screen_size(requested.1, current.1);
            Ok(
                NewSurface::Screen {
                    width,
                    height,
                    resize: width != current.0 || height != current.1,
                },
            )
        }),
        r == surface_for(parented, surf_type, have_screen, requested, current),
{
    if parented {
        if surf_type != SurfaceType::Cursor || !have_screen {
            return Err(GpuDisplayError::Unsupported);
        }
        return Ok(NewSurface::Cursor { width: CURSOR_SIZE, height: CURSOR_SIZE });
    }
    let width: u32 = if requested.0 != 0 {
        requested.0
    } else {
        current.0
    };
    let height: u32 = if requested.1 != 0 {
        requested.1
    } else {
        current.1
    };
    Ok(NewSurface::Screen { width, height, resize: width != current.0 || height != current.1 })
}

/// Bytes of a screen of 32-bit pixels.
pub fn buffer_size(width: u32, height: u32) -> (r: usize)
    requires
        width * height * 4 <= usize::MAX,
    ensures
        r == width * height * 4,
{
    proof {
        assert(0 <= width * height <= width * height * 4) by (nonlinear_arith);
    }
    width as usize * height as usize * 4
}

/// Whether anything waits for frames: a client of the pixel path, or one of the stream.
pub fn has_consumer(has_clients: bool, stream_wants_frames: bool) -> (r: bool)
    ensures
        r == (has_clients || stream_wants_frames),
        r == is_watched(has_clients, stream_wants_frames),
{
    has_clients || stream_wants_frames
}

/// The number that tells the consumers of a display apart.
pub open spec fn generation_of(has_clients: bool, stream_generation: u64) -> int {
    (stream_generation % 0x8000_0000_0000_0000) * 2 + if has_clients {
        1int
    } else {
        0int
    }
}

/// A number that changes whenever a client of either kind arrives.
pub fn consumer_generation(has_clients: bool, stream_generation: u64) -> (r: u64)
    ensures
        r == generation_of(has_clients, stream_generation),
{
    (stream_generation % 0x8000_0000_0000_0000) * 2 + if has_clients {
        1
    } else {
        0
    }
}

/// Either kind of client arriving changes the number, whatever the other one does.
pub proof fn an_arrival_is_noticed(a: bool, b: bool, x: u64, y: u64)
    requires
        x < 0x8000_0000_0000_0000,
        y < 0x8000_0000_0000_0000,
        a != b || x != y,
    ensures
        generation_of(a, x) != generation_of(b, y),
{
}

/// How a number is written.
pub open spec fn decimal(n: nat) -> Seq<u8>
    decreases n,
{
    if n < 10 {
        seq![(48 + n) as u8]
    } else {
        decimal(n / 10).push((48 + n % 10) as u8)
    }
}

/// What is written is read as the number that was written.
proof fn decimals_read_back(n: nat)
    ensures
        decimal(n).len() > 0,
        48 <= decimal(n)[0] <= 57,
        digits(decimal(n)) == Some(n),
        forall|i: int| 0 <= i < decimal(n).len() ==> decimal(n)[i] != 58,
    decreases n,
{
    if n < 10 {
        let s = decimal(n);
        assert(s.drop_last() =~= Seq::<u8>::empty());
        assert(digits(s.drop_last()) == Some(0nat));
    } else {
        decimals_read_back(n / 10);
        let s = decimal(n);
        assert(s.drop_last() =~= decimal(n / 10));
    }
}

/// A number is read back from how it is written, with a sign before it or without.
pub proof fn numbers_read_back(n: nat)
    ensures
        n <= 0x7fff_ffff ==> number(decimal(n)) == Some(n as i32) && number(
            seq![43u8] + decimal(n),
        ) == Some(n as i32),
        n <= 0x8000_0000 ==> number(seq![45u8] + decimal(n)) == Some((-n) as i32),
        n > 0x7fff_ffff ==> number(decimal(n)) is None,
        n > 0x8000_0000 ==> number(seq![45u8] + decimal(n)) is None,
{
    decimals_read_back(n);
    assert((seq![43u8] + decimal(n)).skip(1) =~= decimal(n));
    assert((seq![45u8] + decimal(n)).skip(1) =~= decimal(n));
}

/// What is read is a number of digits.
proof fn digits_are_digits(s: Seq<u8>)
    requires
        digits(s) is Some,
    ensures
        forall|i: int| 0 <= i < s.len() ==> 48 <= #[trigger] s[i] <= 57,
    decreases s.len(),
{
    if s.len() > 0 {
        digits_are_digits(s.drop_last());
        assert forall|i: int| 0 <= i < s.len() implies 48 <= #[trigger] s[i] <= 57 by {
            if i < s.len() - 1 {
                assert(s.drop_last()[i] == s[i]);
            }
        }
    }
}

/// Only digits are read as a number, and a sign only before the first of them.
pub proof fn only_digits_are_numbers(s: Seq<u8>)
    requires
        number(s) is Some,
    ensures
        s.len() > 0,
        48 <= s.last() <= 57,
        forall|i: int| 1 <= i < s.len() ==> 48 <= #[trigger] s[i] <= 57,
        48 <= s[0] <= 57 || (s.len() > 1 && (s[0] == 43 || s[0] == 45)),
{
    if s[0] == 43 || s[0] == 45 {
        digits_are_digits(s.skip(1));
        assert forall|i: int| 1 <= i < s.len() implies 48 <= #[trigger] s[i] <= 57 by {
            assert(s.skip(1)[i - 1] == s[i]);
        }
    } else {
        digits_are_digits(s);
    }
}

/// A host and a port that are put together with a colon are taken apart again, whether brackets
/// are round the host or not. The host may hold colons of its own.
pub proof fn addresses_read_back(host: Seq<u8>, port: nat, bracketed: bool, r: Address)
    requires
        host.len() > 0,
        host[0] != 91,
        host.last() != 93,
        port <= 0x7fff_ffff,
        is_address(
            if bracketed {
                seq![91u8] + host + seq![93u8, 58u8] + decimal(port)
            } else {
                host + seq![58u8] + decimal(port)
            },
            r,
        ),
    ensures
        r.port == port,
        r.host_start == if bracketed {
            1int
        } else {
            0int
        },
        r.host_end == r.host_start + host.len(),
{
    decimals_read_back(port);
    numbers_read_back(port);
    let s = if bracketed {
        seq![91u8] + host + seq![93u8, 58u8] + decimal(port)
    } else {
        host + seq![58u8] + decimal(port)
    };
    let colon = if bracketed {
        host.len() as int + 2
    } else {
        host.len() as int
    };
    assert(s[colon] == 58);
    assert(s.skip(colon + 1) =~= decimal(port));
    assert forall|i: int| colon < i < s.len() implies s[i] != 58 by {
        assert(s[i] == decimal(port)[i - colon - 1]);
    }
    assert(is_last_colon(s, colon));
    let at = choose|at: int|
        {
            &&& #[trigger] is_last_colon(s, at)
            &&& r.host_start == leading(s.take(at), 91)
            &&& r.host_end == at - trailing(s.subrange(r.host_start as int, at), 93)
            &&& r.port == match number(s.skip(at + 1)) {
                Some(p) => p,
                None => DEFAULT_PORT,
            }
        };
    assert(at == colon);
    reveal_with_fuel(leading, 3);
    reveal_with_fuel(trailing, 3);
    if bracketed {
        assert(s.take(at).skip(1)[0] == host[0]);
        let rest = s.subrange(1, at);
        assert(rest.last() == 93);
        assert(rest.drop_last() =~= host);
    } else {
        assert(s.take(at) =~= host);
        assert(s.subrange(0, at) =~= host);
    }
}

/// A port that is not named, or that is no number, is 5900.
pub proof fn ports_have_a_default(s: Seq<u8>, at: int, r: Address)
    requires
        is_address(s, r),
        is_last_colon(s, at) ==> number(s.skip(at + 1)) is None,
        (exists|i: int| 0 <= i < s.len() && s[i] == 58) ==> is_last_colon(s, at),
    ensures
        r.port == 5900,
{
    if exists|i: int| 0 <= i < s.len() && s[i] == 58 {
        let x = choose|x: int|
            {
                &&& #[trigger] is_last_colon(s, x)
                &&& r.host_start == leading(s.take(x), 91)
                &&& r.host_end == x - trailing(s.subrange(r.host_start as int, x), 93)
                &&& r.port == match number(s.skip(x + 1)) {
                    Some(p) => p,
                    None => DEFAULT_PORT,
                }
            };
        assert(x == at);
    }
}

/// Somebody looks at a display.
pub open spec fn is_watched(has_clients: bool, stream_wants_frames: bool) -> bool {
    has_clients || stream_wants_frames
}

/// A display is drawn for its clients whatever the stream does, and for the stream whatever the clients
/// do; where there is neither, it is not drawn.
pub proof fn displays_are_drawn_for_somebody(a: bool)
    ensures
        is_watched(true, a) && is_watched(a, true),
        is_watched(a, false) == a && is_watched(false, a) == a,
{
}

} // verus!
