//! What the first code of a VM decides: which parcels to accept, what to tell the payload about
//! its memory, and when to give up.
//!
//! The hypercalls, the console and the shared page are outside. [`Boot`] says what to do next and
//! is told how it went.

use vstd::prelude::*;
use vstd::string::*;

use crate::bytes;
use crate::fdt;
use crate::fdt::Fdt;
use crate::fdt::Match;
use crate::rm;

verus! {

/// How many polls of the shared page pass before the host is given up on.
pub const READY_SPINS: u64 = 200_000_000;

/// How many polls pass between two pushes of the host's cache lines.
pub const READY_SYNC: u64 = 4096;

/// Largest device tree that fits the slot reserved for it.
pub const MAX_TREE: usize = 0x80_0000;

/// Smallest device tree: its own header.
pub const MIN_TREE: usize = 40;

/// Bytes from the end of the window to the page that is executed as a trial.
pub const PROBE_PAGE: u64 = 4096;

/// Size of a cache line.
pub const CACHE_LINE: u64 = 64;

/// The numbers that host and guest agree on.
#[derive(Clone, Copy, Debug)]
pub struct Abi {
    pub header_magic: u64,
    pub handoff_magic: u64,
    pub version: u32,
    pub max_parcels: u32,
    pub flag_probe_exec: u32,
    pub flag_no_dt_rewrite: u32,
}

/// The header that the host patches into the image.
#[derive(Clone, Copy, Debug)]
pub struct Header {
    pub magic: u64,
    pub version: u32,
    pub flags: u32,
    pub payload: u64,
    pub handoff: u64,
}

/// One parcel of memory that the host shared.
#[derive(Clone, Copy, Debug, PartialEq, Eq, Structural)]
pub struct Parcel {
    pub handle: u32,
    pub base: u64,
    pub size: u64,
}

/// How far the boot has come, as the shared page tells the host.
#[derive(Clone, Copy, Debug, PartialEq, Eq, Structural)]
pub enum Status {
    Running,
    Accepted,
    DtDone,
    Jumping,
    Error,
}

/// Why a boot ended.
#[derive(Clone, Copy, Debug, PartialEq, Eq, Structural)]
pub enum Death {
    NoPayload,
    NeverReady,
    TooManyParcels,
    NotATree,
    BadTree,
    NoResourceManager,
    ShortReg,
    Refused,
    NoReply,
    CouldNotSend,
    NotJoined,
    NoMemoryNode,
    Panicked,
}

impl Death {
    /// The text that the console and the shared page show.
    pub open spec fn message(self) -> Seq<char> {
        match self {
            Death::NoPayload => "no payload address in the header"@,
            Death::NeverReady => "the host never finished sharing the window"@,
            Death::TooManyParcels => "more parcels than the handoff page can hold"@,
            Death::NotATree => "the device tree pointer is not a device tree"@,
            Death::BadTree => "the device tree header did not parse"@,
            Death::NoResourceManager => "no gunyah-resource-manager node in the device tree"@,
            Death::ShortReg => "the resource manager node's reg is too short"@,
            Death::Refused => "the resource manager refused MEM_ACCEPT"@,
            Death::NoReply => "MEM_ACCEPT never got a reply"@,
            Death::CouldNotSend => "could not send MEM_ACCEPT to the resource manager"@,
            Death::NotJoined => "the parcels do not join up"@,
            Death::NoMemoryNode => "could not point /memory at the window"@,
            Death::Panicked =>
            "shim panicked (a bounds check fired: the device tree is not what we assumed)"@,
        }
    }

    /// The text that the console and the shared page show.
    pub fn text(self) -> (r: &'static str)
        ensures
            r@ == self.message(),
    {
        match self {
            Death::NoPayload => "no payload address in the header",
            Death::NeverReady => "the host never finished sharing the window",
            Death::TooManyParcels => "more parcels than the handoff page can hold",
            Death::NotATree => "the device tree pointer is not a device tree",
            Death::BadTree => "the device tree header did not parse",
            Death::NoResourceManager => "no gunyah-resource-manager node in the device tree",
            Death::ShortReg => "the resource manager node's reg is too short",
            Death::Refused => "the resource manager refused MEM_ACCEPT",
            Death::NoReply => "MEM_ACCEPT never got a reply",
            Death::CouldNotSend => "could not send MEM_ACCEPT to the resource manager",
            Death::NotJoined => "the parcels do not join up",
            Death::NoMemoryNode => "could not point /memory at the window",
            Death::Panicked =>
            "shim panicked (a bounds check fired: the device tree is not what we assumed)",
        }
    }
}

/// What to do next.
#[derive(Clone, Copy, Debug, PartialEq, Eq, Structural)]
pub enum Action {
    /// Stop: there is nowhere to report to.
    Hang,
    /// Report the error and the reason, and stop.
    Die(u64, Death),
    /// Read the magic and the version of the shared page at that address.
    CheckHandoff(u64),
    /// Read the ready word, after pushing the host's cache lines out if told to.
    Poll(bool),
    /// Read the parcel count.
    Count,
    /// Read the parcels and the device tree.
    ReadTree,
    /// Empty the queue with those transmit and receive capabilities.
    Drain(u64, u64),
    /// Accept a parcel.
    Accept(Parcel),
    /// Execute a trial at that address.
    Probe(u64),
    /// Rewrite the tree: the window has that base and size.
    Rewrite(u64, u64),
    /// Jump to the payload.
    Jump(u64),
}

/// What the boot waits for.
#[derive(Clone, Copy, Debug, PartialEq, Eq, Structural)]
pub enum Stage {
    Handoff,
    /// The ready word; the number counts the polls that found it unset.
    Ready(u64),
    Counting,
    /// The parcels and the tree; the number is the parcel count.
    Tree(u32),
    Draining,
    /// The outcome for the parcel with that index.
    Accepting(usize),
    Probing,
    Rewriting(u64, u64),
    Done,
}

/// A hexadecimal digit.
pub open spec fn hex_digit(d: int) -> u8 {
    if d < 10 {
        (48 + d) as u8
    } else {
        (97 + d - 10) as u8
    }
}

/// The hexadecimal digits of `v`, without leading zeros.
pub open spec fn hex_digits(v: nat) -> Seq<u8>
    decreases v,
{
    if v < 16 {
        seq![hex_digit(v as int)]
    } else {
        hex_digits(v / 16).push(hex_digit((v % 16) as int))
    }
}

/// Appends the hexadecimal digits of `v`.
fn push_hex(out: &mut Vec<u8>, v: u64)
    ensures
        final(out)@ == old(out)@ + hex_digits(v as nat),
    decreases v,
{
    if v >= 16 {
        push_hex(out, v / 16);
    }
    let d: u8 = (v % 16) as u8;
    out.push(
        if d < 10 {
            48 + d
        } else {
            97 + (d - 10)
        },
    );
    assert(out@ =~= old(out)@ + hex_digits(v as nat));
}

/// The console's form of a number: `0x` and the digits.
pub fn uart_hex(v: u64) -> (r: Vec<u8>)
    ensures
        r@ == seq![48u8, 120u8] + hex_digits(v as nat),
{
    let mut out: Vec<u8> = Vec::new();
    out.push(48);
    out.push(120);
    push_hex(&mut out, v);
    assert(out@ =~= seq![48u8, 120u8] + hex_digits(v as nat));
    out
}

/// The cache lines that cover `len` bytes at `addr`: the first one, and how many.
pub fn cache_lines(addr: u64, len: u64) -> (r: (u64, u64))
    requires
        addr + len <= u64::MAX,
    ensures
        r.0 == addr - addr % CACHE_LINE,
        r.0 + r.1 * CACHE_LINE >= addr + len,
        r.1 > 0 ==> r.0 + (r.1 - 1) * CACHE_LINE < addr + len,
        r.0 % 64 == 0,
        r.0 <= addr < r.0 + 64,
        addr + len <= r.0 + r.1 * 64,
        r.1 > 0 ==> r.0 + (r.1 - 1) * 64 < addr + len,
{
    let first: u64 = addr - addr % CACHE_LINE;
    let span: u64 = addr + len - first;
    let whole: u64 = span / CACHE_LINE;
    if span % CACHE_LINE == 0 {
        (first, whole)
    } else {
        (first, whole + 1)
    }
}

/// Writes `text` into a message buffer as far as it fits, with a terminator.
pub fn say(msg: &mut [u8], text: &str)
    requires
        old(msg).len() > 0,
    ensures
        final(msg)@.len() == old(msg)@.len(),
        ({
            let t = text.spec_bytes();
            let n = if t.len() < old(msg)@.len() {
                t.len() as int
            } else {
                old(msg)@.len() - 1
            };
            &&& final(msg)@.subrange(0, n) == t.subrange(0, n)
            &&& final(msg)@[n] == 0
            &&& final(msg)@.subrange(n + 1, old(msg)@.len() as int) == old(msg)@.subrange(
                n + 1,
                old(msg)@.len() as int,
            )
        }),
        final(msg)@ == said(old(msg)@, text.spec_bytes()),
{
    let t = text.as_bytes();
    let n: usize = if t.len() < msg.len() {
        t.len()
    } else {
        msg.len() - 1
    };
    let mut i: usize = 0;
    while i < n
        invariant
            i <= n,
            n <= t.len(),
            n < old(msg).len(),
            msg@.len() == old(msg)@.len(),
            forall|j: int|
                0 <= j < msg@.len() ==> msg@[j] == (if j < i {
                    t@[j]
                } else {
                    old(msg)@[j]
                }),
        decreases n - i,
    {
        msg[i] = t[i];
        i = i + 1;
    }
    msg[n] = 0;
    assert(msg@.subrange(0, n as int) =~= t@.subrange(0, n as int));
    assert(msg@.subrange(n + 1, msg@.len() as int) =~= old(msg)@.subrange(
        n + 1,
        msg@.len() as int,
    ));
    assert(msg@ =~= said(old(msg)@, text.spec_bytes()));
}

/// The size that a tree declares in its first eight bytes, if it can be one's.
pub fn fdt_total_size(first: &[u8; 8]) -> (r: Option<usize>)
    ensures
        ({
            let total = bytes::be_value(first@.subrange(4, 8));
            if bytes::be_value(first@.subrange(0, 4)) == fdt::FDT_MAGIC && MIN_TREE <= total
                <= MAX_TREE {
                r == Some(total as usize)
            } else {
                r is None
            }
        }),
        r == declared_size(first@),
{
    if bytes::get_be32(first, 0) != fdt::FDT_MAGIC {
        return None;
    }
    let total: usize = bytes::get_be32(first, 4) as usize;
    if total < MIN_TREE || total > MAX_TREE {
        return None;
    }
    Some(total)
}

/// The resource manager's capabilities in the tree `b`, or the error and the reason there are
/// none.
pub open spec fn capabilities_of(b: Seq<u8>) -> Result<(u64, u64), (u64, Death)> {
    match fdt::open_result(b) {
        Err(_) => Err((0, Death::BadTree)),
        Ok(k) => match fdt::find(
            b,
            k,
            Match::Compatible("gunyah-resource-manager"),
            "reg".spec_bytes(),
        ) {
            Err(_) => Err((0, Death::NoResourceManager)),
            Ok((at, len)) => if len < 16 {
                Err((len as u64, Death::ShortReg))
            } else {
                Ok(
                    (
                        bytes::be_value(b.subrange(at as int, at + 8)) as u64,
                        bytes::be_value(b.subrange(at + 8, at + 16)) as u64,
                    ),
                )
            },
        },
    }
}

/// Finds the resource manager's transmit and receive capabilities.
pub fn capabilities(blob: &mut [u8]) -> (r: Result<(u64, u64), (u64, Death)>)
    ensures
        final(blob)@ == old(blob)@,
        r == capabilities_of(old(blob)@),
{
    let tree = match Fdt::new(blob) {
        Ok(t) => t,
        Err(_) => {
            return Err((0, Death::BadTree));
        },
    };
    let (at, len) = match tree.find_prop(Match::Compatible("gunyah-resource-manager"), "reg") {
        Ok(hit) => hit,
        Err(_) => {
            return Err((0, Death::NoResourceManager));
        },
    };
    let b: &[u8] = &*tree.blob;
    proof {
        assert(b.len() == b@.len());
        fdt::walk_stays_inside(
            b@,
            tree.blocks(),
            Match::Compatible("gunyah-resource-manager"),
            "reg".spec_bytes(),
            tree.blocks().struct_off,
            Seq::empty(),
        );
    }
    if len < 16 {
        return Err((len as u64, Death::ShortReg));
    }
    Ok((bytes::get_be64(b, at), bytes::get_be64(b, at + 8)))
}

/// The sum of the sizes of the first `n` parcels.
pub open spec fn size_sum(ps: Seq<Parcel>, n: int) -> int
    decreases n,
{
    if n <= 0 {
        0
    } else {
        size_sum(ps, n - 1) + ps[n - 1].size
    }
}

/// Parcel `i` begins where the ones before it end, and the sum of the sizes up to it is a size.
pub open spec fn joins(ps: Seq<Parcel>, i: int) -> bool {
    ps[i].base == ps[0].base + size_sum(ps, i) && size_sum(ps, i + 1) <= u64::MAX
}

/// Every parcel of the first `n` begins where the ones before it end.
pub open spec fn joined(ps: Seq<Parcel>, n: int) -> bool {
    forall|i: int| 0 <= i < n ==> #[trigger] joins(ps, i)
}

/// What putting the parcels together gives from parcel `i` on: the total size, or the error and
/// the reason why they are no window.
pub open spec fn join_from(ps: Seq<Parcel>, i: int) -> Result<u64, (u64, Death)>
    decreases ps.len() - i,
{
    if i >= ps.len() {
        Ok(size_sum(ps, i) as u64)
    } else if ps[0].base + size_sum(ps, i) > u64::MAX {
        Err((0, Death::Panicked))
    } else if ps[i].base != ps[0].base + size_sum(ps, i) {
        Err((ps[i].base, Death::NotJoined))
    } else if size_sum(ps, i + 1) > u64::MAX {
        Err((0, Death::Panicked))
    } else {
        join_from(ps, i + 1)
    }
}

/// Puts the parcels together: the total size of the window that they are.
fn join(ps: &Vec<Parcel>) -> (r: Result<u64, (u64, Death)>)
    ensures
        r == join_from(ps@, 0),
{
    let mut total: u64 = 0;
    let mut i: usize = 0;
    while i < ps.len()
        invariant
            i <= ps@.len(),
            total == size_sum(ps@, i as int),
            join_from(ps@, 0) == join_from(ps@, i as int),
        decreases ps@.len() - i,
    {
        let p = ps[i];
        let expected: u64 = match ps[0].base.checked_add(total) {
            Some(v) => v,
            None => {
                return Err((0, Death::Panicked));
            },
        };
        if p.base != expected {
            return Err((p.base, Death::NotJoined));
        }
        total = match total.checked_add(p.size) {
            Some(v) => v,
            None => {
                return Err((0, Death::Panicked));
            },
        };
        i = i + 1;
    }
    Ok(total)
}

/// The address of the page that is executed as a trial: the last page of the parcel.
pub open spec fn probe_address(p: Parcel) -> Option<u64> {
    if PROBE_PAGE <= p.base + p.size <= u64::MAX {
        Some((p.base + p.size - PROBE_PAGE) as u64)
    } else {
        None
    }
}

/// The boot of one VM.
pub struct Boot {
    pub abi: Abi,
    pub header: Header,
    pub parcels: Vec<Parcel>,
    /// How many of the parcels were accepted.
    pub accepted: usize,
    pub stage: Stage,
    /// The statuses that were reported to the host, in order.
    pub status: Vec<Status>,
    /// The magic and the version of the shared page, once they were looked at.
    pub page: Ghost<Option<(u64, u32)>>,
    /// The ready word was seen to be set.
    pub ready: Ghost<bool>,
}

/// What the boot was told is the same.
pub open spec fn same_input(a: Boot, b: Boot) -> bool {
    a.abi == b.abi && a.header == b.header && a.parcels@ == b.parcels@ && a.page == b.page
        && a.ready == b.ready
}

/// Where the boot goes once nothing is left to do before the tree is rewritten.
pub open spec fn after_probe(b: Boot) -> (Stage, Action) {
    if b.header.flags & b.abi.flag_no_dt_rewrite != 0 {
        (Stage::Done, Action::Jump(b.header.payload))
    } else {
        match join_from(b.parcels@, 0) {
            Err((err, death)) => (Stage::Done, Action::Die(err, death)),
            Ok(total) => (
                Stage::Rewriting(b.parcels@[0].base, total),
                Action::Rewrite(b.parcels@[0].base, total),
            ),
        }
    }
}

/// Where the boot goes once every parcel was accepted.
pub open spec fn after_accept(b: Boot) -> (Stage, Action) {
    if b.header.flags & b.abi.flag_probe_exec != 0 {
        match probe_address(b.parcels@.last()) {
            None => (Stage::Done, Action::Die(0, Death::Panicked)),
            Some(at) => (Stage::Probing, Action::Probe(at)),
        }
    } else {
        after_probe(b)
    }
}

/// The status that goes with an action, if it ends the boot.
pub open spec fn final_status(s: Seq<Status>, a: Action) -> Seq<Status> {
    match a {
        Action::Die(_, _) => s.push(Status::Error),
        Action::Jump(_) => s.push(Status::Jumping),
        _ => s,
    }
}

/// The error and the reason for a parcel that was not accepted.
pub open spec fn refusal(e: rm::Error) -> Action {
    match e {
        rm::Error::Refused(code) => Action::Die(code as u64, Death::Refused),
        rm::Error::Timeout => Action::Die(0, Death::NoReply),
        rm::Error::Send(err) => Action::Die(err, Death::CouldNotSend),
    }
}

impl Boot {
    /// No parcel is known, so none was accepted.
    pub open spec fn untouched(&self) -> bool {
        self.parcels@.len() == 0 && self.accepted == 0
    }

    /// Every parcel that the host shared was accepted.
    pub open spec fn all_accepted(&self) -> bool {
        self.accepted == self.parcels@.len()
    }

    /// The image's own header is one that is understood, and says where the shared page is.
    pub open spec fn header_is_trusted(&self) -> bool {
        self.header.magic == self.abi.header_magic && self.header.version == self.abi.version
            && self.header.handoff != 0
    }

    /// So is the shared page, and there is a payload to jump to.
    pub open spec fn page_is_trusted(&self) -> bool {
        self.header_is_trusted() && self.page@ == Some((self.abi.handoff_magic, self.abi.version))
            && self.header.payload != 0
    }

    /// The host said that what is on the page is complete.
    pub open spec fn is_ready(&self) -> bool {
        self.page_is_trusted() && self.ready@
    }

    /// What the boot has told the host last is that it jumps.
    pub open spec fn jumps(&self) -> bool {
        self.status@.len() > 0 && self.status@.last() == Status::Jumping
    }

    /// What is known of the page and the parcels at each stage.
    pub open spec fn wf(&self) -> bool {
        &&& self.jumps() ==> self.stage == Stage::Done
        &&& match self.stage {
            Stage::Handoff => self.untouched() && self.header_is_trusted(),
            Stage::Ready(spun) => spun <= READY_SPINS && self.untouched()
                && self.page_is_trusted(),
            Stage::Counting => self.untouched() && self.is_ready(),
            Stage::Tree(n) => 0 < n <= self.abi.max_parcels && self.untouched() && self.is_ready(),
            Stage::Draining => 0 < self.parcels@.len() <= self.abi.max_parcels && self.accepted
                == 0 && self.is_ready(),
            Stage::Accepting(i) => i < self.parcels@.len() && self.accepted == i
                && self.is_ready(),
            Stage::Probing => 0 < self.parcels@.len() && self.all_accepted() && self.is_ready(),
            Stage::Rewriting(base, total) => 0 < self.parcels@.len() && self.all_accepted()
                && self.is_ready() && base == self.parcels@[0].base && join_from(self.parcels@, 0)
                == Ok::<u64, (u64, Death)>(total),
            Stage::Done => self.jumps() ==> self.is_ready() && self.all_accepted(),
        }
    }

    /// Starts with the header that the image holds.
    pub fn start(abi: Abi, header: Header) -> (r: (Boot, Action))
        ensures
            r.0.wf(),
            r.0.abi == abi,
            r.0.header == header,
            r.0.parcels@ == Seq::<Parcel>::empty(),
            r.0.accepted == 0,
            r.0.status@ == Seq::<Status>::empty(),
            r.0.page@ is None,
            !r.0.ready@,
            if header.magic != abi.header_magic || header.version != abi.version
                || header.handoff == 0 {
                r.1 == Action::Hang && r.0.stage == Stage::Done
            } else {
                r.1 == Action::CheckHandoff(header.handoff) && r.0.stage == Stage::Handoff
            },
            (r.0@, r.1) == started(abi, header),
    {
        let trusted = header.magic == abi.header_magic && header.version == abi.version
            && header.handoff != 0;
        let boot = Boot {
            abi,
            header,
            parcels: Vec::new(),
            accepted: 0,
            stage: if trusted {
                Stage::Handoff
            } else {
                Stage::Done
            },
            status: Vec::new(),
            page: Ghost(None),
            ready: Ghost(false),
        };
        (
            boot,
            if trusted {
                Action::CheckHandoff(header.handoff)
            } else {
                Action::Hang
            },
        )
    }

    /// Ends the boot with an error.
    fn die(&mut self, err: u64, death: Death) -> (r: Action)
        ensures
            r == Action::Die(err, death),
            same_input(*final(self), *old(self)),
            final(self).accepted == old(self).accepted,
            final(self).stage == Stage::Done,
            final(self).status@ == old(self).status@.push(Status::Error),
    {
        self.stage = Stage::Done;
        self.status.push(Status::Error);
        Action::Die(err, death)
    }

    /// Ends the boot with a jump to the payload.
    fn jump(&mut self) -> (r: Action)
        ensures
            r == Action::Jump(old(self).header.payload),
            same_input(*final(self), *old(self)),
            final(self).accepted == old(self).accepted,
            final(self).stage == Stage::Done,
            final(self).status@ == old(self).status@.push(Status::Jumping),
    {
        self.stage = Stage::Done;
        self.status.push(Status::Jumping);
        Action::Jump(self.header.payload)
    }

    /// The shared page has that magic and version.
    pub fn handoff_checked(&mut self, magic: u64, version: u32) -> (r: Action)
        requires
            old(self).wf(),
            old(self).stage == Stage::Handoff,
        ensures
            final(self).wf(),
            same_input(*final(self), Boot { page: Ghost(Some((magic, version))), ..*old(self) }),
            final(self).accepted == old(self).accepted,
            if magic != old(self).abi.handoff_magic || version != old(self).abi.version {
                r == Action::Hang && final(self).stage == Stage::Done && final(self).status@ == old(self).status@
            } else if old(self).header.payload == 0 {
                r == Action::Die(0, Death::NoPayload) && final(self).stage == Stage::Done && final(self).status@ == old(self).status@.push(Status::Running).push(Status::Error)
            } else {
                r == Action::Poll(false) && final(self).stage == Stage::Ready(0) && final(self).status@ == old(self).status@.push(Status::Running)
            },
            (final(self)@, r) == old(self)@.next(Event::Handoff(magic, version)),
    {
        self.page = Ghost(Some((magic, version)));
        if magic != self.abi.handoff_magic || version != self.abi.version {
            self.stage = Stage::Done;
            return Action::Hang;
        }
        self.status.push(Status::Running);
        if self.header.payload == 0 {
            return self.die(0, Death::NoPayload);
        }
        self.stage = Stage::Ready(0);
        Action::Poll(false)
    }

    /// The ready word was read.
    pub fn polled(&mut self, ready: bool) -> (r: Action)
        requires
            old(self).wf(),
            old(self).stage is Ready,
        ensures
            final(self).wf(),
            same_input(*final(self), Boot { ready: Ghost(old(self).ready@ || ready), ..*old(self) }),
            final(self).accepted == old(self).accepted,
            old(self).stage matches Stage::Ready(spun) && if ready {
                r == Action::Count && final(self).stage == Stage::Counting && final(self).status@
                    == old(self).status@
            } else if spun == READY_SPINS {
                r == Action::Die(0, Death::NeverReady) && final(self).stage == Stage::Done
                    && final(self).status@ == old(self).status@.push(Status::Error)
            } else {
                r == Action::Poll((spun + 1) % READY_SYNC as int == 0) && final(self).stage
                    == Stage::Ready((spun + 1) as u64) && final(self).status@ == old(self).status@
            },
            (final(self)@, r) == old(self)@.next(Event::Polled(ready)),
    {
        if ready {
            self.ready = Ghost(true);
            self.stage = Stage::Counting;
            return Action::Count;
        }
        let spun: u64 = match self.stage {
            Stage::Ready(n) => n,
            _ => 0,
        };
        if spun == READY_SPINS {
            return self.die(0, Death::NeverReady);
        }
        self.stage = Stage::Ready(spun + 1);
        Action::Poll((spun + 1) % READY_SYNC == 0)
    }

    /// The shared page holds that many parcels.
    pub fn counted(&mut self, nparcels: u32) -> (r: Action)
        requires
            old(self).wf(),
            old(self).stage == Stage::Counting,
        ensures
            final(self).wf(),
            r is Jump ==> final(self).all_accepted(),
            same_input(*final(self), *old(self)),
            final(self).accepted == 0,
            if nparcels == 0 {
                r == Action::Jump(old(self).header.payload) && final(self).stage == Stage::Done
                    && final(self).status@ == old(self).status@.push(Status::Jumping)
            } else if nparcels > old(self).abi.max_parcels {
                r == Action::Die(nparcels as u64, Death::TooManyParcels) && final(self).stage
                    == Stage::Done && final(self).status@ == old(self).status@.push(Status::Error)
            } else {
                r == Action::ReadTree && final(self).stage == Stage::Tree(nparcels) && final(self).status@ == old(self).status@
            },
            (final(self)@, r) == old(self)@.next(Event::Counted(nparcels)),
    {
        if nparcels == 0 {
            return self.jump();
        }
        if nparcels > self.abi.max_parcels {
            return self.die(nparcels as u64, Death::TooManyParcels);
        }
        self.stage = Stage::Tree(nparcels);
        Action::ReadTree
    }

    /// The tree has no size that a tree can have.
    pub fn no_tree(&mut self) -> (r: Action)
        requires
            old(self).wf(),
            old(self).stage is Tree,
        ensures
            final(self).wf(),
            same_input(*final(self), *old(self)),
            final(self).accepted == old(self).accepted,
            r == Action::Die(0, Death::NotATree),
            final(self).stage == Stage::Done,
            final(self).status@ == old(self).status@.push(Status::Error),
            (final(self)@, r) == old(self)@.next(Event::NoTree),
    {
        self.die(0, Death::NotATree)
    }

    /// The parcels and the tree were read.
    pub fn tree_read(&mut self, parcels: Vec<Parcel>, blob: &mut [u8]) -> (r: Action)
        requires
            old(self).wf(),
            old(self).stage matches Stage::Tree(n) && n == parcels@.len(),
        ensures
            final(self).wf(),
            same_input(*final(self), Boot { parcels, ..*old(self) }),
            final(self).accepted == old(self).accepted,
            final(blob)@ == old(blob)@,
            match capabilities_of(old(blob)@) {
                Err((err, death)) => r == Action::Die(err, death) && final(self).stage
                    == Stage::Done && final(self).status@ == old(self).status@.push(Status::Error),
                Ok((tx, rx)) => r == Action::Drain(tx, rx) && final(self).stage == Stage::Draining
                    && final(self).status@ == old(self).status@,
            },
            (final(self)@, r) == old(self)@.next(Event::TreeRead(parcels@, old(blob)@)),
    {
        self.parcels = parcels;
        match capabilities(blob) {
            Err((err, death)) => self.die(err, death),
            Ok((tx, rx)) => {
                self.stage = Stage::Draining;
                Action::Drain(tx, rx)
            },
        }
    }

    /// The queue is empty.
    pub fn drained(&mut self) -> (r: Action)
        requires
            old(self).wf(),
            old(self).stage == Stage::Draining,
        ensures
            final(self).wf(),
            same_input(*final(self), *old(self)),
            final(self).accepted == 0,
            r == Action::Accept(old(self).parcels@[0]),
            final(self).stage == Stage::Accepting(0),
            final(self).status@ == old(self).status@,
            (final(self)@, r) == old(self)@.next(Event::Drained),
    {
        self.stage = Stage::Accepting(0);
        Action::Accept(self.parcels[0])
    }

    /// The parcel that was to be accepted came out so.
    pub fn accepted(&mut self, outcome: Result<(), rm::Error>) -> (r: Action)
        requires
            old(self).wf(),
            old(self).stage is Accepting,
        ensures
            final(self).wf(),
            r is Jump ==> final(self).all_accepted(),
            same_input(*final(self), *old(self)),
            old(self).stage matches Stage::Accepting(i) && match outcome {
                Err(e) => r == refusal(e) && final(self).stage == Stage::Done && final(self).accepted == i && final(self).status@ == old(self).status@.push(Status::Error),
                Ok(()) => final(self).accepted == i + 1 && if i + 1 < old(self).parcels@.len() {
                    r == Action::Accept(old(self).parcels@[i + 1]) && final(self).stage
                        == Stage::Accepting((i + 1) as usize) && final(self).status@ == old(self).status@
                } else {
                    r == after_accept(*old(self)).1 && final(self).stage == after_accept(
                        *old(self),
                    ).0 && final(self).status@ == final_status(
                        old(self).status@.push(Status::Accepted),
                        r,
                    )
                },
            },
            (final(self)@, r) == old(self)@.next(Event::Accepted(outcome)),
    {
        let i: usize = match self.stage {
            Stage::Accepting(n) => n,
            _ => 0,
        };
        match outcome {
            Err(rm::Error::Refused(code)) => {
                return self.die(code as u64, Death::Refused);
            },
            Err(rm::Error::Timeout) => {
                return self.die(0, Death::NoReply);
            },
            Err(rm::Error::Send(err)) => {
                return self.die(err, Death::CouldNotSend);
            },
            Ok(()) => {},
        }
        let n: usize = self.parcels.len();
        self.accepted = i + 1;
        if i + 1 < n {
            self.stage = Stage::Accepting(i + 1);
            return Action::Accept(self.parcels[i + 1]);
        }
        self.status.push(Status::Accepted);
        if self.header.flags & self.abi.flag_probe_exec != 0 {
            // The last page of the window: the payload sits at its other end.
            let last = self.parcels[i];
            let end: u64 = match last.base.checked_add(last.size) {
                Some(v) => v,
                None => {
                    return self.die(0, Death::Panicked);
                },
            };
            if end < PROBE_PAGE {
                return self.die(0, Death::Panicked);
            }
            self.stage = Stage::Probing;
            return Action::Probe(end - PROBE_PAGE);
        }
        self.go_on()
    }

    /// Goes on once nothing is left to do before the tree is rewritten.
    fn go_on(&mut self) -> (r: Action)
        requires
            0 < old(self).parcels@.len(),
            old(self).all_accepted(),
            old(self).is_ready(),
            !old(self).jumps(),
        ensures
            final(self).wf(),
            same_input(*final(self), *old(self)),
            final(self).accepted == old(self).accepted,
            r == after_probe(*old(self)).1,
            final(self).stage == after_probe(*old(self)).0,
            final(self).status@ == final_status(old(self).status@, r),
    {
        if self.header.flags & self.abi.flag_no_dt_rewrite != 0 {
            return self.jump();
        }
        match join(&self.parcels) {
            Err((err, death)) => self.die(err, death),
            Ok(total) => {
                let base: u64 = self.parcels[0].base;
                self.stage = Stage::Rewriting(base, total);
                Action::Rewrite(base, total)
            },
        }
    }

    /// The trial came back.
    pub fn probed(&mut self) -> (r: Action)
        requires
            old(self).wf(),
            old(self).stage == Stage::Probing,
        ensures
            final(self).wf(),
            r is Jump ==> final(self).all_accepted(),
            same_input(*final(self), *old(self)),
            final(self).accepted == old(self).accepted,
            r == after_probe(*old(self)).1,
            final(self).stage == after_probe(*old(self)).0,
            final(self).status@ == final_status(old(self).status@, r),
            (final(self)@, r) == old(self)@.next(Event::Probed),
    {
        self.go_on()
    }

    /// Rewrites the tree so that the window is all the memory it names.
    pub fn rewrite(&mut self, blob: &mut [u8]) -> (r: Action)
        requires
            old(self).wf(),
            old(self).stage is Rewriting,
        ensures
            final(self).wf(),
            r is Jump ==> final(self).all_accepted(),
            same_input(*final(self), *old(self)),
            final(self).accepted == old(self).accepted,
            final(self).stage == Stage::Done,
            old(self).stage matches Stage::Rewriting(base, total) && match rewritten(
                old(blob)@,
                base,
                total,
            ) {
                None => r == Action::Die(0, Death::NoMemoryNode) && final(blob)@ == old(blob)@
                    && final(self).status@ == old(self).status@.push(Status::Error),
                Some(b) => r == Action::Jump(old(self).header.payload) && final(blob)@ == b
                    && final(self).status@ == old(self).status@.push(Status::DtDone).push(
                    Status::Jumping,
                ),
            },
            (final(self)@, r) == old(self)@.next(Event::Rewrite(old(blob)@)),
    {
        let (base, total) = match self.stage {
            Stage::Rewriting(b, t) => (b, t),
            _ => (0, 0),
        };
        if !set_window(blob, base, total) {
            return self.die(0, Death::NoMemoryNode);
        }
        self.status.push(Status::DtDone);
        self.jump()
    }
}

/// The tree `b` with its memory pointed at the window, if it has a place for that.
pub open spec fn rewritten(b: Seq<u8>, base: u64, size: u64) -> Option<Seq<u8>> {
    match fdt::open_result(b) {
        Err(_) => None,
        Ok(k) => match fdt::find(b, k, Match::RootChild("memory"), "reg".spec_bytes()) {
            Err(_) => None,
            Ok((at, len)) => if len < 16 || len % 16 != 0 {
                None
            } else {
                Some(fdt::splice(b, at as int, fdt::window_reg(base, size, len as int)))
            },
        },
    }
}

/// Points the memory of the tree at the window; whether it could.
fn set_window(blob: &mut [u8], base: u64, size: u64) -> (r: bool)
    ensures
        match rewritten(old(blob)@, base, size) {
            None => !r && final(blob)@ == old(blob)@,
            Some(b) => r && final(blob)@ == b,
        },
{
    let mut tree = match Fdt::new(blob) {
        Ok(t) => t,
        Err(_) => {
            return false;
        },
    };
    match tree.set_memory_window(base, size) {
        Ok(()) => true,
        Err(_) => false,
    }
}

/// A boot that jumps to its payload has seen the magic and the version that it understands in its
/// own header and on the shared page, has seen the ready word set, and was given every parcel that
/// the page names.
pub proof fn only_a_complete_handoff_is_followed(b: Boot)
    requires
        b.wf(),
        b.jumps(),
    ensures
        b.header.magic == b.abi.header_magic,
        b.header.version == b.abi.version,
        b.header.payload != 0,
        b.page@ == Some((b.abi.handoff_magic, b.abi.version)),
        b.ready@,
        b.accepted == b.parcels@.len(),
{
}

/// Parcels make a window exactly where each begins at the end of the ones before it.
pub proof fn join_is_joined(ps: Seq<Parcel>, i: int)
    requires
        0 <= i <= ps.len(),
        joined(ps, i),
    ensures
        join_from(ps, i) is Ok <==> joined(ps, ps.len() as int),
        join_from(ps, i) matches Ok(total) ==> total == size_sum(ps, ps.len() as int),
    decreases ps.len() - i,
{
    if i < ps.len() {
        if ps[0].base + size_sum(ps, i) <= u64::MAX && ps[i].base == ps[0].base + size_sum(ps, i)
            && size_sum(ps, i + 1) <= u64::MAX {
            assert(joins(ps, i));
            join_is_joined(ps, i + 1);
        } else {
            assert(!joined(ps, ps.len() as int)) by {
                assert(!joins(ps, i));
            }
        }
    } else {
        sums_grow(ps, i);
        if i > 0 {
            assert(joins(ps, i - 1));
        }
    }
}

/// The address `a` lies in the parcel.
pub open spec fn holds(p: Parcel, a: int) -> bool {
    p.base <= a < p.base + p.size
}

/// An address lies in a window of joined parcels exactly where it lies in one of the parcels: the
/// payload is told of no memory that was not accepted, and of all that was.
pub proof fn the_window_is_the_parcels(ps: Seq<Parcel>, n: int, a: int)
    requires
        0 < n <= ps.len(),
        joined(ps, n),
    ensures
        ps[0].base <= a < ps[0].base + size_sum(ps, n) <==> exists|i: int|
            0 <= i < n && #[trigger] holds(ps[i], a),
    decreases n,
{
    let last = ps[n - 1];
    assert(joins(ps, n - 1));
    assert(size_sum(ps, n) == size_sum(ps, n - 1) + last.size);
    sums_grow(ps, n - 1);
    if n > 1 {
        the_window_is_the_parcels(ps, n - 1, a);
        if ps[0].base <= a < ps[0].base + size_sum(ps, n - 1) {
            let i = choose|i: int| 0 <= i < n - 1 && #[trigger] holds(ps[i], a);
            assert(holds(ps[i], a));
        }
    } else {
        assert(size_sum(ps, 0) == 0);
    }
    if holds(last, a) {
        assert(holds(ps[n - 1], a));
    }
    if exists|i: int| 0 <= i < n && #[trigger] holds(ps[i], a) {
        let i = choose|i: int| 0 <= i < n && #[trigger] holds(ps[i], a);
        if i < n - 1 {
            assert(holds(ps[i], a));
        }
    }
}

/// A sum of sizes is not negative.
proof fn sums_grow(ps: Seq<Parcel>, n: int)
    ensures
        size_sum(ps, n) >= 0,
    decreases n,
{
    if n > 0 {
        sums_grow(ps, n - 1);
    }
}

/// The value of a hexadecimal digit.
pub open spec fn digit_value(c: u8) -> int {
    if 48 <= c <= 57 {
        c - 48
    } else if 97 <= c <= 102 {
        c - 97 + 10
    } else {
        -1
    }
}

/// The number that hexadecimal digits spell.
pub open spec fn hex_value(s: Seq<u8>) -> int
    decreases s.len(),
{
    if s.len() == 0 {
        0
    } else {
        hex_value(s.drop_last()) * 16 + digit_value(s.last())
    }
}

/// What is written of a number are digits that spell it, and no more of them than it takes.
pub proof fn hex_reads_back(v: nat)
    ensures
        hex_value(hex_digits(v)) == v,
        hex_digits(v).len() > 0,
        v > 0 ==> hex_digits(v)[0] != 48,
        forall|i: int| 0 <= i < hex_digits(v).len() ==> 0 <= digit_value(#[trigger] hex_digits(v)[i]),
    decreases v,
{
    let s = hex_digits(v);
    if v < 16 {
        assert(s.drop_last() =~= Seq::<u8>::empty());
        assert(hex_value(s.drop_last()) == 0);
    } else {
        hex_reads_back(v / 16);
        assert(s.drop_last() =~= hex_digits(v / 16));
    }
}

/// A message buffer after a text was written into it.
pub open spec fn said(msg: Seq<u8>, text: Seq<u8>) -> Seq<u8> {
    let n = if text.len() < msg.len() {
        text.len() as int
    } else {
        msg.len() - 1
    };
    text.take(n).push(0) + msg.skip(n + 1)
}

/// A text that fits is in the buffer whole and ends with a zero; one that does not is cut so that the
/// zero is the last byte. What is behind the zero is as it was.
pub proof fn what_is_said_ends(msg: Seq<u8>, text: Seq<u8>)
    requires
        msg.len() > 0,
    ensures
        said(msg, text).len() == msg.len(),
        text.len() < msg.len() ==> said(msg, text).take(text.len() as int) == text && said(
            msg,
            text,
        )[text.len() as int] == 0 && said(msg, text).skip(text.len() as int + 1) == msg.skip(
            text.len() as int + 1,
        ),
        text.len() >= msg.len() ==> said(msg, text) == text.take(msg.len() - 1).push(0),
{
    let s = said(msg, text);
    if text.len() < msg.len() {
        assert(s.take(text.len() as int) =~= text);
        assert(s.skip(text.len() as int + 1) =~= msg.skip(text.len() as int + 1));
    } else {
        assert(s =~= text.take(msg.len() - 1).push(0));
    }
}

/// The size that the first bytes of a tree declare.
pub open spec fn declared_size(first: Seq<u8>) -> Option<usize> {
    let total = bytes::be_value(first.subrange(4, 8));
    if bytes::be_value(first.subrange(0, 4)) == fdt::FDT_MAGIC && MIN_TREE <= total <= MAX_TREE {
        Some(total as usize)
    } else {
        None
    }
}

/// A tree begins with its four magic bytes; the four after them are its size, high byte first, which
/// is that of its header at least and that of its slot at most.
pub proof fn trees_declare_their_size(first: Seq<u8>)
    requires
        first.len() == 8,
    ensures
        ({
            let total = first[4] * 0x100_0000 + first[5] * 0x1_0000 + first[6] * 0x100 + first[7];
            &&& declared_size(first) is Some <==> first[0] == 0xd0 && first[1] == 0x0d && first[2]
                == 0xfe && first[3] == 0xed && 40 <= total <= 0x80_0000
            &&& declared_size(first) matches Some(n) ==> n == total
        }),
{
    bytes::be_value_4(first.subrange(0, 4));
    bytes::be_value_4(first.subrange(4, 8));
}

/// Capabilities are the sixteen bytes, high byte first, of the property that names the resource
/// manager's queues: the sender's first. Where there are none, the reason says what is missing.
pub proof fn capabilities_are_in_the_tree(b: Seq<u8>, k: fdt::Blocks)
    requires
        b.len() <= usize::MAX,
    ensures
        fdt::open_result(b) is Err ==> capabilities_of(b) == Err::<(u64, u64), (u64, Death)>(
            (0, Death::BadTree),
        ),
        fdt::open_result(b) == Ok::<fdt::Blocks, fdt::Error>(k) ==> match fdt::find(
            b,
            k,
            Match::Compatible("gunyah-resource-manager"),
            "reg".spec_bytes(),
        ) {
            Ok((at, len)) => {
                &&& capabilities_of(b) is Ok <==> len >= 16
                &&& capabilities_of(b) matches Ok((tx, rx)) ==> b.subrange(at as int, at + 16)
                    == bytes::be_bytes(tx as nat, 8) + bytes::be_bytes(rx as nat, 8)
                &&& capabilities_of(b) matches Err((err, death)) ==> err == len && death
                    == Death::ShortReg
            },
            Err(_) => capabilities_of(b) == Err::<(u64, u64), (u64, Death)>(
                (0, Death::NoResourceManager),
            ),
        },
{
    let want = Match::Compatible("gunyah-resource-manager");
    let prop = "reg".spec_bytes();
    if fdt::open_result(b) == Ok::<fdt::Blocks, fdt::Error>(k) {
        fdt::walk_stays_inside(b, k, want, prop, k.struct_off, Seq::empty());
        if let Ok((at, len)) = fdt::find(b, k, want, prop) {
            if len >= 16 {
                let x = b.subrange(at as int, at + 8);
                let y = b.subrange(at + 8, at + 16);
                bytes::be_bytes_of_value(x);
                bytes::be_bytes_of_value(y);
                bytes::be_value_8(x);
                bytes::be_value_8(y);
                bytes::be_value_4(x.subrange(0, 4));
                bytes::be_value_4(x.subrange(4, 8));
                bytes::be_value_4(y.subrange(0, 4));
                bytes::be_value_4(y.subrange(4, 8));
                assert(b.subrange(at as int, at + 16) =~= x + y);
                let (tx, rx) = capabilities_of(b)->Ok_0;
                assert(tx == bytes::be_value(x));
                assert(rx == bytes::be_value(y));
            }
        }
    }
}

/// The trial is on the last page of a parcel.
pub proof fn the_trial_is_on_the_last_page(p: Parcel)
    ensures
        probe_address(p) matches Some(at) ==> at + 4096 == p.base + p.size,
        p.size >= 4096 && p.base + p.size <= u64::MAX ==> probe_address(p) is Some && p.base
            <= probe_address(p)->0,
{
}

/// A boot as a value.
#[verifier::ext_equal]
pub struct BootState {
    pub abi: Abi,
    pub header: Header,
    pub parcels: Seq<Parcel>,
    pub accepted: int,
    pub stage: Stage,
    pub status: Seq<Status>,
}

impl View for Boot {
    type V = BootState;

    open spec fn view(&self) -> BootState {
        BootState {
            abi: self.abi,
            header: self.header,
            parcels: self.parcels@,
            accepted: self.accepted as int,
            stage: self.stage,
            status: self.status@,
        }
    }
}

/// What a boot is told.
pub enum Event {
    /// The shared page has that magic and version.
    Handoff(u64, u32),
    /// The ready word was read.
    Polled(bool),
    /// There are so many parcels.
    Counted(u32),
    NoTree,
    /// The parcels and the tree.
    TreeRead(Seq<Parcel>, Seq<u8>),
    Drained,
    /// What came of accepting a parcel.
    Accepted(Result<(), rm::Error>),
    Probed,
    /// The tree that is rewritten.
    Rewrite(Seq<u8>),
}

/// A boot that starts with a header.
pub open spec fn started(abi: Abi, header: Header) -> (BootState, Action) {
    let s = BootState {
        abi,
        header,
        parcels: Seq::empty(),
        accepted: 0,
        stage: Stage::Handoff,
        status: Seq::empty(),
    };
    if header.magic == abi.header_magic && header.version == abi.version && header.handoff != 0 {
        (s, Action::CheckHandoff(header.handoff))
    } else {
        (BootState { stage: Stage::Done, ..s }, Action::Hang)
    }
}

impl BootState {
    pub open spec fn at(self, stage: Stage, action: Action) -> (BootState, Action) {
        (BootState { stage, ..self }, action)
    }

    pub open spec fn telling(self, status: Status) -> BootState {
        BootState { status: self.status.push(status), ..self }
    }

    pub open spec fn dying(self, err: u64, death: Death) -> (BootState, Action) {
        self.telling(Status::Error).at(Stage::Done, Action::Die(err, death))
    }

    pub open spec fn jumping(self) -> (BootState, Action) {
        self.telling(Status::Jumping).at(Stage::Done, Action::Jump(self.header.payload))
    }

    /// Once nothing is left to do before the tree is rewritten.
    pub open spec fn going_on(self) -> (BootState, Action) {
        if self.header.flags & self.abi.flag_no_dt_rewrite != 0 {
            self.jumping()
        } else {
            match join_from(self.parcels, 0) {
                Err((err, death)) => self.dying(err, death),
                Ok(total) => self.at(
                    Stage::Rewriting(self.parcels[0].base, total),
                    Action::Rewrite(self.parcels[0].base, total),
                ),
            }
        }
    }

    /// Once every parcel was accepted.
    pub open spec fn all_in(self) -> (BootState, Action) {
        let s = self.telling(Status::Accepted);
        if self.header.flags & self.abi.flag_probe_exec != 0 {
            match probe_address(self.parcels.last()) {
                None => s.dying(0, Death::Panicked),
                Some(at) => s.at(Stage::Probing, Action::Probe(at)),
            }
        } else {
            s.going_on()
        }
    }

    /// The boot after it was told something, and what it does then.
    pub open spec fn next(self, e: Event) -> (BootState, Action) {
        match (self.stage, e) {
            (Stage::Handoff, Event::Handoff(magic, version)) => if magic != self.abi.handoff_magic
                || version != self.abi.version {
                self.at(Stage::Done, Action::Hang)
            } else if self.header.payload == 0 {
                self.telling(Status::Running).dying(0, Death::NoPayload)
            } else {
                self.telling(Status::Running).at(Stage::Ready(0), Action::Poll(false))
            },
            (Stage::Ready(spun), Event::Polled(ready)) => if ready {
                self.at(Stage::Counting, Action::Count)
            } else if spun >= READY_SPINS {
                self.dying(0, Death::NeverReady)
            } else {
                self.at(
                    Stage::Ready((spun + 1) as u64),
                    Action::Poll((spun + 1) % READY_SYNC as int == 0),
                )
            },
            (Stage::Counting, Event::Counted(n)) => if n == 0 {
                self.jumping()
            } else if n > self.abi.max_parcels {
                self.dying(n as u64, Death::TooManyParcels)
            } else {
                self.at(Stage::Tree(n), Action::ReadTree)
            },
            (Stage::Tree(_), Event::NoTree) => self.dying(0, Death::NotATree),
            (Stage::Tree(_), Event::TreeRead(parcels, blob)) => {
                let s = BootState { parcels, ..self };
                match capabilities_of(blob) {
                    Err((err, death)) => s.dying(err, death),
                    Ok((tx, rx)) => s.at(Stage::Draining, Action::Drain(tx, rx)),
                }
            },
            (Stage::Draining, Event::Drained) => self.at(
                Stage::Accepting(0),
                Action::Accept(self.parcels[0]),
            ),
            (Stage::Accepting(i), Event::Accepted(outcome)) => match outcome {
                Err(rm::Error::Refused(code)) => self.dying(code as u64, Death::Refused),
                Err(rm::Error::Timeout) => self.dying(0, Death::NoReply),
                Err(rm::Error::Send(err)) => self.dying(err, Death::CouldNotSend),
                Ok(()) => {
                    let s = BootState { accepted: i + 1, ..self };
                    if i + 1 < self.parcels.len() {
                        s.at(
                            Stage::Accepting((i + 1) as usize),
                            Action::Accept(self.parcels[i + 1]),
                        )
                    } else {
                        s.all_in()
                    }
                },
            },
            (Stage::Probing, Event::Probed) => self.going_on(),
            (Stage::Rewriting(base, total), Event::Rewrite(blob)) => match rewritten(
                blob,
                base,
                total,
            ) {
                None => self.dying(0, Death::NoMemoryNode),
                Some(_) => self.telling(Status::DtDone).jumping(),
            },
            _ => (self, Action::Hang),
        }
    }

    /// The boot after it was told some things, and what it did last.
    pub open spec fn after(self, events: Seq<Event>) -> (BootState, Action)
        decreases events.len(),
    {
        if events.len() == 0 {
            (self, Action::Hang)
        } else {
            self.after(events.drop_last()).0.next(events.last())
        }
    }
}

/// A boot goes no further than to look at the shared page where the page is not one that it
/// understands, and does not look at it where its own header is not.
pub proof fn what_is_not_understood_is_not_touched(
    abi: Abi,
    header: Header,
    magic: u64,
    version: u32,
)
    ensures
        ({
            let (s, a) = started(abi, header);
            let (t, b) = s.next(Event::Handoff(magic, version));
            &&& a == Action::CheckHandoff(header.handoff) || a == Action::Hang
            &&& a is CheckHandoff <==> header.magic == abi.header_magic && header.version
                == abi.version && header.handoff != 0
            &&& a is CheckHandoff ==> (b is Hang <==> magic != abi.handoff_magic || version
                != abi.version)
            &&& a is Hang || b is Hang ==> t.status.len() == 0
            &&& a is CheckHandoff && !(b is Hang) ==> (b is Die <==> header.payload == 0)
            &&& b is Poll ==> t.status == seq![Status::Running] && t.stage == Stage::Ready(0)
        }),
{
    let (s, a) = started(abi, header);
    let (t, b) = s.next(Event::Handoff(magic, version));
    if b is Poll {
        assert(t.status =~= seq![Status::Running]);
    }
}

/// Polls that find the ready word unset.
pub open spec fn waits(n: nat) -> Seq<Event> {
    Seq::new(n, |i: int| Event::Polled(false))
}

/// A host that is ready within two hundred million polls is waited for, and its cache lines are pushed
/// out at every 4096th of them; one that is not is given up on, and the host is told.
pub proof fn the_host_is_waited_for(s: BootState, n: nat)
    requires
        s.stage == Stage::Ready(0),
        n <= 200_000_001,
    ensures
        ({
            let (t, a) = s.after(waits(n));
            &&& n <= 200_000_000 ==> t == (BootState { stage: Stage::Ready(n as u64), ..s })
            &&& 0 < n <= 200_000_000 ==> a == Action::Poll(n % 4096 == 0)
            &&& n <= 200_000_000 ==> t.next(Event::Polled(true)) == (
                BootState { stage: Stage::Counting, ..s },
                Action::Count,
            )
            &&& n == 200_000_001 ==> a == Action::Die(0, Death::NeverReady) && t.stage
                == Stage::Done && t.status == s.status.push(Status::Error)
        }),
    decreases n,
{
    if n > 0 {
        let m = (n - 1) as nat;
        the_host_is_waited_for(s, m);
        assert(waits(n).drop_last() =~= waits(m));
        assert(waits(n).last() == Event::Polled(false));
    }
}

/// A page without parcels leads straight to the payload; one with more than there is room for, or
/// without a tree, leads nowhere.
pub proof fn parcels_are_counted(s: BootState, n: u32)
    requires
        s.stage == Stage::Counting,
    ensures
        ({
            let (t, a) = s.next(Event::Counted(n));
            &&& n == 0 <==> a == Action::Jump(s.header.payload)
            &&& n > s.abi.max_parcels ==> a is Jump || a == Action::Die(
                n as u64,
                Death::TooManyParcels,
            )
            &&& 1 <= n <= s.abi.max_parcels ==> a is ReadTree && t.status == s.status
            &&& a is ReadTree ==> t.next(Event::NoTree).1 == Action::Die(0, Death::NotATree)
        }),
{
}

/// Parcels that were accepted, one after the other.
pub open spec fn grants(n: nat) -> Seq<Event> {
    seq![Event::Drained] + Seq::new(n, |i: int| Event::Accepted(Ok(())))
}

/// The parcels are asked for one after the other, each once and in their order, and the next only when
/// the one before was accepted.
pub proof fn parcels_are_accepted_in_order(s: BootState, i: nat)
    requires
        s.stage == Stage::Draining,
        i < s.parcels.len() <= usize::MAX,
        s.accepted == 0,
    ensures
        ({
            let (t, a) = s.after(grants(i));
            &&& a == Action::Accept(s.parcels[i as int])
            &&& t == (BootState { stage: Stage::Accepting(i as usize), accepted: i as int, ..s })
        }),
    decreases i,
{
    if i == 0 {
        assert(grants(0) =~= seq![Event::Drained]);
        assert(grants(0).drop_last() =~= Seq::<Event>::empty());
        assert(s.after(Seq::empty()).0 == s);
        assert(grants(0).last() == Event::Drained);
    } else {
        parcels_are_accepted_in_order(s, (i - 1) as nat);
        assert(grants(i).drop_last() =~= grants((i - 1) as nat));
        assert(grants(i).last() == Event::Accepted(Ok(())));
    }
}

/// A parcel that is not accepted ends the boot, with the reason and the number that came with it.
pub proof fn a_refused_parcel_ends_the_boot(s: BootState, code: u32, err: u64)
    requires
        s.stage is Accepting,
    ensures
        s.next(Event::Accepted(Err(rm::Error::Refused(code)))).1 == Action::Die(
            code as u64,
            Death::Refused,
        ),
        s.next(Event::Accepted(Err(rm::Error::Timeout))).1 == Action::Die(0, Death::NoReply),
        s.next(Event::Accepted(Err(rm::Error::Send(err)))).1 == Action::Die(
            err,
            Death::CouldNotSend,
        ),
        forall|e: rm::Error|
            ({
                let (t, a) = #[trigger] s.next(Event::Accepted(Err(e)));
                &&& a is Die
                &&& t.accepted == s.accepted
                &&& t.stage == Stage::Done
                &&& t.status == s.status.push(Status::Error)
            }),
{
}

/// When the last parcel was accepted, the host is told so, and the payload is jumped to only after the
/// tree was rewritten for the window that the parcels are, unless the header forbids that.
pub proof fn the_payload_gets_its_window(s: BootState, blob: Seq<u8>)
    requires
        s.stage matches Stage::Accepting(i) && i + 1 == s.parcels.len(),
        s.header.flags & s.abi.flag_probe_exec == 0,
        s.header.flags & s.abi.flag_no_dt_rewrite == 0,
    ensures
        ({
            let (t, a) = s.next(Event::Accepted(Ok(())));
            &&& a is Rewrite <==> joined(s.parcels, s.parcels.len() as int)
            &&& a is Rewrite || a is Die
            &&& a matches Action::Rewrite(base, total) ==> {
                let (u, b) = t.next(Event::Rewrite(blob));
                &&& base == s.parcels[0].base
                &&& total == size_sum(s.parcels, s.parcels.len() as int)
                &&& rewritten(blob, base, total) is Some ==> b == Action::Jump(s.header.payload)
                    && u.status == s.status + seq![
                    Status::Accepted,
                    Status::DtDone,
                    Status::Jumping,
                ]
                &&& rewritten(blob, base, total) is None ==> b == Action::Die(
                    0,
                    Death::NoMemoryNode,
                )
            }
        }),
{
    assert(joined(s.parcels, 0));
    join_is_joined(s.parcels, 0);
    let (t, a) = s.next(Event::Accepted(Ok(())));
    if let Action::Rewrite(base, total) = a {
        let (u, b) = t.next(Event::Rewrite(blob));
        if rewritten(blob, base, total) is Some {
            assert(u.status =~= s.status + seq![
                Status::Accepted,
                Status::DtDone,
                Status::Jumping,
            ]);
        }
    }
}

/// Where a trial is asked for it comes before the tree is rewritten, on the last page of the last
/// parcel, and nothing else changes; where the tree is not to be rewritten, it is not.
pub proof fn trials_come_first(s: BootState)
    requires
        s.stage matches Stage::Accepting(i) && i + 1 == s.parcels.len(),
    ensures
        ({
            let (t, a) = s.next(Event::Accepted(Ok(())));
            let (u, b) = t.next(Event::Probed);
            let trial = s.header.flags & s.abi.flag_probe_exec != 0;
            let keep = s.header.flags & s.abi.flag_no_dt_rewrite != 0;
            &&& trial ==> a is Probe || a is Die
            &&& !trial ==> !(a is Probe)
            &&& a matches Action::Probe(at) ==> at + 4096 == s.parcels.last().base
                + s.parcels.last().size
            &&& a is Probe && keep ==> b == Action::Jump(s.header.payload)
            &&& a is Probe && !keep ==> b is Rewrite || b is Die
            &&& !trial && keep ==> a == Action::Jump(s.header.payload)
            &&& a is Jump ==> t.status == s.status + seq![Status::Accepted, Status::Jumping]
        }),
{
    let (t, a) = s.next(Event::Accepted(Ok(())));
    if a is Jump {
        assert(t.status =~= s.status + seq![Status::Accepted, Status::Jumping]);
    }
}

/// A tree that is rewritten names the window, and no other memory, in the property of its memory node
/// that says where memory is; nothing else in it changes. It can be rewritten exactly where that
/// property holds whole pairs of an address and a size.
pub proof fn only_the_memory_is_rewritten(b: Seq<u8>, base: u64, size: u64, k: fdt::Blocks)
    requires
        b.len() <= usize::MAX,
        fdt::open_result(b) == Ok::<fdt::Blocks, fdt::Error>(k),
    ensures
        match fdt::find(b, k, Match::RootChild("memory"), "reg".spec_bytes()) {
            Ok((at, len)) => {
                &&& rewritten(b, base, size) is Some <==> len >= 16 && len % 16 == 0
                &&& rewritten(b, base, size) matches Some(r) ==> {
                    &&& r.len() == b.len()
                    &&& at + len <= b.len()
                    &&& bytes::be_value(r.subrange(at as int, at + 8)) == base
                    &&& bytes::be_value(r.subrange(at + 8, at + 16)) == size
                    &&& forall|i: int| at + 16 <= i < at + len ==> r[i] == 0
                    &&& forall|i: int|
                        0 <= i < b.len() && !(at <= i < at + len) ==> r[i] == b[i]
                }
            },
            Err(_) => rewritten(b, base, size) is None,
        },
{
    let want = Match::RootChild("memory");
    let prop = "reg".spec_bytes();
    fdt::walk_stays_inside(b, k, want, prop, k.struct_off, Seq::empty());
    if let Ok((at, len)) = fdt::find(b, k, want, prop) {
        if len >= 16 && len % 16 == 0 {
            let r = rewritten(b, base, size)->0;
            bytes::byte_pow_values();
            bytes::be_round_trip(base as nat, 8);
            bytes::be_round_trip(size as nat, 8);
            bytes::be_bytes_len(base as nat, 8);
            bytes::be_bytes_len(size as nat, 8);
            assert(r.subrange(at as int, at + 8) =~= bytes::be_bytes(base as nat, 8));
            assert(r.subrange(at + 8, at + 16) =~= bytes::be_bytes(size as nat, 8));
        }
    }
}

/// The first parcel that does not begin where the ones before it end is told of, with where it begins.
pub proof fn a_gap_is_told(ps: Seq<Parcel>, i: int, from: int)
    requires
        0 <= from <= i < ps.len(),
        joined(ps, i),
        ps[0].base + size_sum(ps, i) <= u64::MAX,
        ps[i].base != ps[0].base + size_sum(ps, i),
    ensures
        join_from(ps, from) == Err::<u64, (u64, Death)>((ps[i].base, Death::NotJoined)),
    decreases i - from,
{
    if from < i {
        assert(joins(ps, from));
        a_gap_is_told(ps, i, from + 1);
    }
}

/// Parcels whose sizes, or whose end, no address can say end the boot as well, and nothing else does.
pub proof fn joining_fails_for_a_reason(ps: Seq<Parcel>, from: int)
    requires
        0 <= from,
    ensures
        join_from(ps, from) matches Err((err, death)) ==> {
            ||| death == Death::Panicked && err == 0
            ||| death == Death::NotJoined && exists|i: int|
                0 <= i < ps.len() && #[trigger] ps[i].base == err
        },
    decreases ps.len() - from,
{
    if from < ps.len() {
        joining_fails_for_a_reason(ps, from + 1);
        assert(ps[from].base == ps[from].base);
    }
}

} // verus!
