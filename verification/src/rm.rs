//! The one resource-manager call that is made before a payload runs: accept a memparcel that the
//! host shared.
//!
//! The hypercalls are made outside. [`Rm`] says which one comes next and is told how it went.

use vstd::prelude::*;

use crate::bytes;

verus! {

pub const GH_HCALL_MSGQ_SEND: u64 = 0xC600_801B;

pub const GH_HCALL_MSGQ_RECV: u64 = 0xC600_801C;

pub const GH_MSGQ_TX_PUSH: u64 = 1;

pub const GH_ERROR_OK: u64 = 0;

pub const RPC_API: u8 = 0x21;

pub const RPC_TYPE_REQUEST: u8 = 0x01;

pub const RPC_TYPE_REPLY: u8 = 0x02;

pub const RPC_MEM_ACCEPT: u32 = 0x5100_0011;

pub const MEM_TYPE_NORMAL: u8 = 0;

pub const TRANS_TYPE_SHARE: u8 = 2;

/// Map the parcel contiguously, and finish the transfer.
pub const ACCEPT_FLAGS: u8 = 0x90;

/// Size of a message-queue message.
pub const MSGQ_MSG_SIZE: usize = 240;

/// Length of an accept request.
pub const REQUEST_LEN: usize = 48;

/// How many receives are tried before a wait gives up.
pub const REPLY_SPINS: u32 = 200_000_000;

#[derive(Debug, Clone, Copy, PartialEq, Eq, Structural)]
pub enum Error {
    /// The message queue itself refused the send; the payload is the hypercall's error.
    Send(u64),
    /// The resource manager answered, and said no. The payload is its error code.
    Refused(u32),
    /// No reply within [`REPLY_SPINS`].
    Timeout,
}

/// What a wait actually saw, for when it saw nothing useful.
#[derive(Debug, Clone, Copy)]
pub struct WaitTrace {
    /// Messages that the queue handed over during the wait.
    pub received: u32,
    /// The last error that the receive hypercall returned, and the size it reported.
    pub last_err: u64,
    pub last_len: u64,
    /// The header of the last message: api, type, seq, msg_id.
    pub last_hdr: [u8; 8],
    /// The sequence that the answer came back with, and how often it was not the one sent.
    pub last_seq: u16,
    pub wrong_seq: u32,
}

/// What a wait saw, as values.
#[verifier::ext_equal]
pub struct TraceView {
    pub received: int,
    pub last_err: u64,
    pub last_len: u64,
    pub last_hdr: Seq<u8>,
    pub last_seq: int,
    pub wrong_seq: int,
}

impl View for WaitTrace {
    type V = TraceView;

    open spec fn view(&self) -> TraceView {
        TraceView {
            received: self.received as int,
            last_err: self.last_err,
            last_len: self.last_len,
            last_hdr: self.last_hdr@,
            last_seq: self.last_seq as int,
            wrong_seq: self.wrong_seq as int,
        }
    }
}

impl TraceView {
    /// The trace of a wait that saw nothing.
    pub open spec fn empty() -> Self {
        TraceView {
            received: 0,
            last_err: 0,
            last_len: 0,
            last_hdr: Seq::new(8, |i: int| 0u8),
            last_seq: 0,
            wrong_seq: 0,
        }
    }
}

impl Default for WaitTrace {
    fn default() -> (r: Self)
        ensures
            r@ == TraceView::empty(),
    {
        let r = WaitTrace {
            received: 0,
            last_err: 0,
            last_len: 0,
            last_hdr: [0u8;8],
            last_seq: 0,
            wrong_seq: 0,
        };
        proof {
            assert(r@ =~= TraceView::empty());
        }
        r
    }
}

/// The parcel that a request asks to accept.
#[derive(Debug, Clone, Copy, PartialEq, Eq, Structural)]
pub struct Request {
    pub handle: u32,
    pub gpa: u64,
    pub size: u64,
}

/// What is being waited for.
#[derive(Debug, Clone, Copy, PartialEq, Eq, Structural)]
pub enum Phase {
    /// Nothing: no call is under way.
    Idle,
    /// The queue is being emptied, for a request that follows or for its own sake. The number
    /// counts the messages that were dropped.
    Draining(Option<Request>, u32),
    /// The request is on its way.
    Sending,
    /// The reply has not come. The number counts the receives that are left.
    Waiting(u32),
}

/// What comes next.
#[derive(Debug, Clone, Copy, PartialEq, Eq)]
pub enum Step {
    /// Receive into `rxbuf`, and report to [`Rm::received`].
    Receive,
    /// Send that many bytes of `txbuf`, and report to [`Rm::sent`].
    Send(usize),
    /// The queue is empty; so many messages were dropped.
    Drained(u32),
    /// The call is over.
    Finished(Result<(), Error>),
}

/// The bytes that ask for a parcel to be mapped at its fixed address.
pub open spec fn request_bytes(seq: u16, q: Request) -> Seq<u8> {
    seq![RPC_API, RPC_TYPE_REQUEST] + bytes::le_bytes(seq as nat, 2) + bytes::le_bytes(
        RPC_MEM_ACCEPT as nat,
        4,
    ) + bytes::le_bytes(q.handle as nat, 4) + seq![
        MEM_TYPE_NORMAL,
        TRANS_TYPE_SHARE,
        ACCEPT_FLAGS,
        0u8,
    ] + bytes::le_bytes(0, 4) + bytes::le_bytes(0, 4) + bytes::le_bytes(1, 2) + bytes::le_bytes(
        0,
        2,
    ) + bytes::le_bytes(q.gpa as nat, 8) + bytes::le_bytes(q.size as nat, 8) + bytes::le_bytes(0, 2)
        + bytes::le_bytes(0, 2)
}

/// The receive brought a message that is long enough to be looked at.
pub open spec fn is_message(err: u64, got: u64) -> bool {
    err == GH_ERROR_OK && got >= 12
}

/// The message is a reply to an accept request, whoever made that.
pub open spec fn is_accept_reply(m: Seq<u8>) -> bool {
    &&& m[1] % 4 == RPC_TYPE_REPLY
    &&& bytes::le_value(m.subrange(4, 8)) == RPC_MEM_ACCEPT
}

/// The sequence number of a message.
pub open spec fn seq_of(m: Seq<u8>) -> int {
    bytes::le_value(m.subrange(2, 4)) as int
}

/// The error code of a reply.
pub open spec fn code_of(m: Seq<u8>) -> int {
    bytes::le_value(m.subrange(8, 12)) as int
}

/// The message answers the request that was numbered `seq`.
pub open spec fn answers(seq: u16, err: u64, got: u64, m: Seq<u8>) -> bool {
    is_message(err, got) && is_accept_reply(m) && seq_of(m) == seq
}

/// The trace `t` after one more receive.
pub open spec fn traced(t: TraceView, seq: u16, err: u64, got: u64, m: Seq<u8>) -> TraceView {
    let reply = is_message(err, got) && is_accept_reply(m);
    TraceView {
        received: if is_message(err, got) {
            t.received + 1
        } else {
            t.received
        },
        last_err: err,
        last_len: got,
        last_hdr: if is_message(err, got) {
            m.subrange(0, 8)
        } else {
            t.last_hdr
        },
        last_seq: if reply {
            seq_of(m)
        } else {
            t.last_seq
        },
        wrong_seq: if reply && seq_of(m) != seq {
            t.wrong_seq + 1
        } else {
            t.wrong_seq
        },
    }
}

/// The outcome that a reply with `code` stands for.
pub open spec fn outcome(code: int) -> Result<(), Error> {
    if code == 0 {
        Ok(())
    } else {
        Err(Error::Refused(code as u32))
    }
}

/// The resource manager's message queues, and the call that is under way on them.
pub struct Rm {
    pub tx: u64,
    pub rx: u64,
    pub seq: u16,
    pub txbuf: [u8; 64],
    pub rxbuf: [u8; 240],
    /// What the last wait saw. Read after a timeout, which is the only time it means anything.
    pub trace: WaitTrace,
    pub phase: Phase,
}

/// Copies `src` into `dst` at `at`.
fn put(dst: &mut [u8; 64], at: usize, src: &[u8])
    requires
        at + src.len() <= 64,
        src.len() <= 64,
    ensures
        final(dst)@ == old(dst)@.subrange(0, at as int) + src@ + old(dst)@.subrange(
            at + src@.len(),
            64,
        ),
{
    let mut i: usize = 0;
    while i < src.len()
        invariant
            i <= src.len(),
            at + src.len() <= 64,
            dst@.len() == 64,
            forall|j: int|
                0 <= j < 64 ==> dst@[j] == (if at <= j < at + i {
                    src@[j - at]
                } else {
                    old(dst)@[j]
                }),
        decreases src@.len() - i,
    {
        dst[at + i] = src[i];
        i = i + 1;
    }
    assert(dst@ =~= old(dst)@.subrange(0, at as int) + src@ + old(dst)@.subrange(
        at + src@.len(),
        64,
    ));
}

impl Rm {
    /// The counters of the trace cannot have outrun the receives of the wait.
    pub open spec fn wf(&self) -> bool {
        self.phase matches Phase::Waiting(left) ==> 0 < left <= REPLY_SPINS
            && self.trace.received + left <= REPLY_SPINS && self.trace.wrong_seq <= self.trace.received
    }

    /// Everything but the phase, the sequence number, the transmit buffer and the trace is as in
    /// `other`.
    pub open spec fn same_queues(&self, other: &Rm) -> bool {
        self.tx == other.tx && self.rx == other.rx && self.rxbuf == other.rxbuf
    }

    /// Queues with the given capabilities, with no call under way.
    pub fn new(tx: u64, rx: u64) -> (r: Self)
        ensures
            r.wf(),
            r.tx == tx,
            r.rx == rx,
            r.seq == 0,
            r.txbuf@ == Seq::new(64, |i: int| 0u8),
            r.rxbuf@ == Seq::new(240, |i: int| 0u8),
            r.trace@ == TraceView::empty(),
            r.phase == Phase::Idle,
    {
        let r = Rm {
            tx,
            rx,
            seq: 0,
            txbuf: [0u8;64],
            rxbuf: [0u8;240],
            trace: WaitTrace::default(),
            phase: Phase::Idle,
        };
        proof {
            assert(r.txbuf@ =~= Seq::new(64, |i: int| 0u8));
            assert(r.rxbuf@ =~= Seq::new(240, |i: int| 0u8));
        }
        r
    }

    /// Starts to throw away everything that waits in the receive queue.
    pub fn drain(&mut self) -> (r: Step)
        ensures
            r == Step::Receive,
            final(self).wf(),
            *final(self) == (Rm { phase: Phase::Draining(None, 0), ..*old(self) }),
            final(self).phase == begun(None),
    {
        self.phase = Phase::Draining(None, 0);
        Step::Receive
    }

    /// Starts to take a shared memparcel at a fixed address.
    ///
    /// The queue is emptied first: what is in it is not an answer to this request, and the space
    /// that it takes is where the answer has to land.
    pub fn mem_accept(&mut self, handle: u32, gpa: u64, size: u64) -> (r: Step)
        ensures
            r == Step::Receive,
            final(self).wf(),
            *final(self) == (Rm {
                phase: Phase::Draining(Some(Request { handle, gpa, size }), 0),
                ..*old(self)
            }),
            final(self).phase == begun(Some((handle, gpa, size))),
    {
        self.phase = Phase::Draining(Some(Request { handle, gpa, size }), 0);
        Step::Receive
    }

    /// Writes the request into the transmit buffer.
    fn encode(&mut self, q: Request)
        requires
            old(self).wf(),
        ensures
            final(self).txbuf@ == request_bytes(old(self).seq, q) + old(self).txbuf@.subrange(
                48,
                64,
            ),
            *final(self) == (Rm { txbuf: final(self).txbuf, ..*old(self) }),
    {
        let ghost seq = self.seq;
        proof {
            assert forall|v: nat, n: nat|
                (#[trigger] bytes::le_bytes(v, n)).len() == n by {
                bytes::be_bytes_len(v, n);
            }
        }
        let head: [u8; 2] = [RPC_API, RPC_TYPE_REQUEST];
        let kind: [u8; 4] = [MEM_TYPE_NORMAL, TRANS_TYPE_SHARE, ACCEPT_FLAGS, 0];
        put(&mut self.txbuf, 0, &head);
        put(&mut self.txbuf, 2, &bytes::le16_bytes(self.seq));
        put(&mut self.txbuf, 4, &bytes::le32_bytes(RPC_MEM_ACCEPT));
        put(&mut self.txbuf, 8, &bytes::le32_bytes(q.handle));
        put(&mut self.txbuf, 12, &kind);
        // No label to validate, and an empty access list: the rights are those the host shared.
        put(&mut self.txbuf, 16, &bytes::le32_bytes(0));
        put(&mut self.txbuf, 20, &bytes::le32_bytes(0));
        // One range, mapped to this VM itself.
        put(&mut self.txbuf, 24, &bytes::le16_bytes(1));
        put(&mut self.txbuf, 26, &bytes::le16_bytes(0));
        put(&mut self.txbuf, 28, &bytes::le64_bytes(q.gpa));
        put(&mut self.txbuf, 36, &bytes::le64_bytes(q.size));
        // No memory attributes.
        put(&mut self.txbuf, 44, &bytes::le16_bytes(0));
        put(&mut self.txbuf, 46, &bytes::le16_bytes(0));
        proof {
            assert(head@ =~= seq![RPC_API, RPC_TYPE_REQUEST]);
            assert(kind@ =~= seq![MEM_TYPE_NORMAL, TRANS_TYPE_SHARE, ACCEPT_FLAGS, 0u8]);
            assert(self.txbuf@ =~= request_bytes(seq, q) + old(self).txbuf@.subrange(48, 64));
        }
    }

    /// The receive that was asked for came back with `err` and `got`; a message, if there was
    /// one, is in `rxbuf`.
    pub fn received(&mut self, err: u64, got: u64) -> (r: Step)
        requires
            old(self).wf(),
            old(self).phase is Draining || old(self).phase is Waiting,
        ensures
            final(self).wf(),
            final(self).same_queues(old(self)),
            old(self).phase matches Phase::Draining(q, n) ==> {
                &&& r == drain_step(err, got, q, n).0
                &&& final(self).phase == drain_step(err, got, q, n).1
            },
            match old(self).phase {
                Phase::Draining(then_send, n) => if err == GH_ERROR_OK && got != 0 {
                    r == Step::Receive && *final(self) == (Rm {
                        phase: Phase::Draining(
                            then_send,
                            if n == u32::MAX {
                                0
                            } else {
                                (n + 1) as u32
                            },
                        ),
                        ..*old(self)
                    })
                } else {
                    match then_send {
                        None => r == Step::Drained(n) && *final(self) == (Rm {
                            phase: Phase::Idle,
                            ..*old(self)
                        }),
                        Some(q) => {
                            &&& r == Step::Send(REQUEST_LEN)
                            &&& final(self).phase == Phase::Sending
                            &&& final(self).seq == (if old(self).seq == u16::MAX {
                                0
                            } else {
                                old(self).seq + 1
                            })
                            &&& final(self).txbuf@.subrange(0, 48) == request_bytes(
                                final(self).seq,
                                q,
                            )
                            &&& final(self).txbuf@.subrange(48, 64) == old(self).txbuf@.subrange(
                                48,
                                64,
                            )
                            &&& final(self).trace == old(self).trace
                            &&& final(self).seq == next_seq(old(self).seq)
                        },
                    }
                },
                Phase::Waiting(left) => {
                    let m = old(self).rxbuf@;
                    let seq = old(self).seq;
                    &&& final(self).seq == seq
                    &&& final(self).txbuf == old(self).txbuf
                    &&& final(self).trace@ == traced(
                        old(self).trace@,
                        seq,
                        err,
                        got,
                        m,
                    )
                    &&& answers(seq, err, got, m) ==> r == Step::Finished(
                        outcome(code_of(m)),
                    ) && final(self).phase == Phase::Idle
                    &&& !answers(seq, err, got, m) ==> if left == 1 {
                        r == Step::Finished(Err(Error::Timeout)) && final(self).phase
                            == Phase::Idle
                    } else {
                        r == Step::Receive && final(self).phase == Phase::Waiting((left - 1) as u32)
                    }
                    &&& forall|rest: Seq<Receive>|
                        wait_outcome(
                            seq,
                            left as nat,
                            seq![Receive { err, got, message: m }] + rest,
                        ) == #[trigger] outcome_from(r, final(self).phase, seq, rest)
                },
                _ => true,
            },
    {
        match self.phase {
            Phase::Draining(follow, n) => {
                if err == GH_ERROR_OK && got != 0 {
                    let dropped: u32 = if n == u32::MAX {
                        0
                    } else {
                        n + 1
                    };
                    self.phase = Phase::Draining(follow, dropped);
                    return Step::Receive;
                }
                match follow {
                    None => {
                        self.phase = Phase::Idle;
                        Step::Drained(n)
                    },
                    Some(q) => {
                        self.seq = if self.seq == u16::MAX {
                            0
                        } else {
                            self.seq + 1
                        };
                        self.phase = Phase::Sending;
                        self.encode(q);
                        proof {
                            assert forall|v: nat, k: nat|
                                (#[trigger] bytes::le_bytes(v, k)).len() == k by {
                                bytes::be_bytes_len(v, k);
                            }
                            assert(request_bytes(self.seq, q).len() == 48);
                            assert(self.txbuf@.subrange(0, 48) =~= request_bytes(self.seq, q));
                            assert(self.txbuf@.subrange(48, 64) =~= old(self).txbuf@.subrange(
                                48,
                                64,
                            ));
                        }
                        Step::Send(REQUEST_LEN)
                    },
                }
            },
            Phase::Waiting(left) => {
                proof {
                    let now = Receive { err, got, message: self.rxbuf@ };
                    assert forall|rest: Seq<Receive>| #[trigger]
                        wait_outcome(self.seq, left as nat, seq![now] + rest) == (if now.answers(
                            self.seq,
                        ) {
                            Some(outcome(code_of(now.message)))
                        } else if left == 1 {
                            Some(Err(Error::Timeout))
                        } else {
                            wait_outcome(self.seq, (left - 1) as nat, rest)
                        }) by {
                        one_receive(self.seq, left as nat, now, rest);
                    }
                }
                match self.look(err, got) {
                    Some(done) => {
                        self.phase = Phase::Idle;
                        Step::Finished(done)
                    },
                    None => if left == 1 {
                        self.phase = Phase::Idle;
                        Step::Finished(Err(Error::Timeout))
                    } else {
                        self.phase = Phase::Waiting(left - 1);
                        Step::Receive
                    },
                }
            },
            _ => Step::Receive,
        }
    }

    /// Looks at what one receive brought: the outcome, if it is the answer.
    fn look(&mut self, err: u64, got: u64) -> (r: Option<Result<(), Error>>)
        requires
            old(self).trace.received < REPLY_SPINS,
            old(self).trace.wrong_seq <= old(self).trace.received,
        ensures
            *final(self) == (Rm { trace: final(self).trace, ..*old(self) }),
            final(self).trace@ == traced(
                old(self).trace@,
                old(self).seq,
                err,
                got,
                old(self).rxbuf@,
            ),
            final(self).trace.wrong_seq <= final(self).trace.received,
            r == (if answers(old(self).seq, err, got, old(self).rxbuf@) {
                Some(outcome(code_of(old(self).rxbuf@)))
            } else {
                None
            }),
    {
        self.trace.last_err = err;
        self.trace.last_len = got;
        if err != GH_ERROR_OK || got < 12 {
            assert(self.trace@ =~= traced(old(self).trace@, self.seq, err, got, self.rxbuf@));
            return None;
        }
        self.trace.received = self.trace.received + 1;
        let m = self.rxbuf;
        self.trace.last_hdr = [m[0], m[1], m[2], m[3], m[4], m[5], m[6], m[7]];
        proof {
            assert(self.trace.last_hdr@ =~= m@.subrange(0, 8));
        }
        // Anything but a reply is a notification.
        if m[1] % 4 != RPC_TYPE_REPLY {
            assert(self.trace@ =~= traced(old(self).trace@, self.seq, err, got, self.rxbuf@));
            return None;
        }
        if bytes::get_le32(&m, 4) != RPC_MEM_ACCEPT {
            assert(self.trace@ =~= traced(old(self).trace@, self.seq, err, got, self.rxbuf@));
            return None;
        }
        self.trace.last_seq = bytes::get_le16(&m, 2);
        if self.trace.last_seq != self.seq {
            self.trace.wrong_seq = self.trace.wrong_seq + 1;
            assert(self.trace@ =~= traced(old(self).trace@, self.seq, err, got, self.rxbuf@));
            return None;
        }
        assert(self.trace@ =~= traced(old(self).trace@, self.seq, err, got, self.rxbuf@));
        let code: u32 = bytes::get_le32(&m, 8);
        if code == 0 {
            Some(Ok(()))
        } else {
            Some(Err(Error::Refused(code)))
        }
    }

    /// The send that was asked for came back with `err`.
    pub fn sent(&mut self, err: u64) -> (r: Step)
        requires
            old(self).phase == Phase::Sending,
        ensures
            final(self).wf(),
            final(self).same_queues(old(self)),
            final(self).seq == old(self).seq,
            final(self).txbuf == old(self).txbuf,
            if err != GH_ERROR_OK {
                r == Step::Finished(Err(Error::Send(err))) && final(self).phase == Phase::Idle
                    && final(self).trace == old(self).trace
            } else {
                r == Step::Receive && final(self).phase == Phase::Waiting(REPLY_SPINS)
                    && final(self).trace@ == TraceView::empty()
            },
            r == Step::Receive <==> err == 0,
            r == Step::Receive ==> final(self).phase == Phase::Waiting(200_000_000),
    {
        if err != GH_ERROR_OK {
            self.phase = Phase::Idle;
            return Step::Finished(Err(Error::Send(err)));
        }
        self.trace = WaitTrace::default();
        self.phase = Phase::Waiting(REPLY_SPINS);
        Step::Receive
    }
}

/// Where the fields of an accept request lie, and that they say what was asked.
pub proof fn request_says_what_was_asked(seq: u16, q: Request)
    ensures
        ({
            let m = request_bytes(seq, q);
            &&& m.len() == REQUEST_LEN
            &&& m.len() == 48
            &&& m.subrange(0, 2) == seq![0x21u8, 1u8]
            &&& bytes::le_value(m.subrange(4, 8)) == 0x5100_0011
            &&& m.subrange(12, 16) == seq![0u8, 2u8, 0x90u8, 0u8]
            &&& bytes::le_value(m.subrange(16, 20)) == 0
            &&& bytes::le_value(m.subrange(20, 24)) == 0
            &&& bytes::le_value(m.subrange(26, 28)) == 0
            &&& bytes::le_value(m.subrange(44, 46)) == 0
            &&& bytes::le_value(m.subrange(46, 48)) == 0
            &&& m[0] == RPC_API
            &&& m[1] == RPC_TYPE_REQUEST
            &&& bytes::le_value(m.subrange(2, 4)) == seq
            &&& bytes::le_value(m.subrange(4, 8)) == RPC_MEM_ACCEPT
            &&& bytes::le_value(m.subrange(8, 12)) == q.handle
            &&& bytes::le_value(m.subrange(24, 26)) == 1
            &&& bytes::le_value(m.subrange(28, 36)) == q.gpa
            &&& bytes::le_value(m.subrange(36, 44)) == q.size
        }),
{
    let m = request_bytes(seq, q);
    bytes::byte_pow_values();
    assert forall|v: nat, n: nat| (#[trigger] bytes::le_bytes(v, n)).len() == n by {
        bytes::be_bytes_len(v, n);
    }
    bytes::le_round_trip(seq as nat, 2);
    bytes::le_round_trip(RPC_MEM_ACCEPT as nat, 4);
    bytes::le_round_trip(q.handle as nat, 4);
    bytes::le_round_trip(1, 2);
    bytes::le_round_trip(0, 4);
    bytes::le_round_trip(0, 2);
    assert(m.subrange(0, 2) =~= seq![0x21u8, 1u8]);
    assert(m.subrange(12, 16) =~= seq![0u8, 2u8, 0x90u8, 0u8]);
    assert(m.subrange(16, 20) =~= bytes::le_bytes(0, 4));
    assert(m.subrange(20, 24) =~= bytes::le_bytes(0, 4));
    assert(m.subrange(26, 28) =~= bytes::le_bytes(0, 2));
    assert(m.subrange(44, 46) =~= bytes::le_bytes(0, 2));
    assert(m.subrange(46, 48) =~= bytes::le_bytes(0, 2));
    bytes::le_round_trip(q.gpa as nat, 8);
    bytes::le_round_trip(q.size as nat, 8);
    assert(m.subrange(2, 4) =~= bytes::le_bytes(seq as nat, 2));
    assert(m.subrange(4, 8) =~= bytes::le_bytes(RPC_MEM_ACCEPT as nat, 4));
    assert(m.subrange(8, 12) =~= bytes::le_bytes(q.handle as nat, 4));
    assert(m.subrange(24, 26) =~= bytes::le_bytes(1, 2));
    assert(m.subrange(28, 36) =~= bytes::le_bytes(q.gpa as nat, 8));
    assert(m.subrange(36, 44) =~= bytes::le_bytes(q.size as nat, 8));
}

/// A message answers one request at most: a reply that carries the number of an earlier request
/// is never taken for the answer to a later one with another number.
pub proof fn an_answer_is_to_one_request(seq: u16, other: u16, err: u64, got: u64, m: Seq<u8>)
    requires
        answers(seq, err, got, m),
        seq != other,
    ensures
        !answers(other, err, got, m),
{
}

/// A request that was sent is no answer, so a queue that echoes requests answers nothing.
pub proof fn a_request_answers_nothing(seq: u16, other: u16, q: Request, err: u64, got: u64)
    ensures
        !answers(other, err, got, request_bytes(seq, q)),
{
    assert forall|v: nat, n: nat| (#[trigger] bytes::le_bytes(v, n)).len() == n by {
        bytes::be_bytes_len(v, n);
    }
    assert(request_bytes(seq, q)[1] == RPC_TYPE_REQUEST);
}

/// One receive: the hypercall's error, the size it reported and what was in the buffer.
pub struct Receive {
    pub err: u64,
    pub got: u64,
    pub message: Seq<u8>,
}

impl Receive {
    /// It brought the answer to the request that was numbered `seq`.
    pub open spec fn answers(self, seq: u16) -> bool {
        answers(seq, self.err, self.got, self.message)
    }
}

/// What a wait of at most `left` receives ends with, if the receives go as `rs` says. `None` is
/// a wait that is not over.
pub open spec fn wait_outcome(seq: u16, left: nat, rs: Seq<Receive>) -> Option<Result<(), Error>>
    decreases rs.len(),
{
    if left == 0 {
        Some(Err(Error::Timeout))
    } else if rs.len() == 0 {
        None
    } else if rs[0].answers(seq) {
        Some(outcome(code_of(rs[0].message)))
    } else {
        wait_outcome(seq, (left - 1) as nat, rs.drop_first())
    }
}

/// A receive either decides the wait or leaves one receive fewer.
proof fn one_receive(seq: u16, left: nat, now: Receive, rest: Seq<Receive>)
    requires
        left > 0,
    ensures
        wait_outcome(seq, left, seq![now] + rest) == (if now.answers(seq) {
            Some(outcome(code_of(now.message)))
        } else if left == 1 {
            Some(Err(Error::Timeout))
        } else {
            wait_outcome(seq, (left - 1) as nat, rest)
        }),
{
    assert((seq![now] + rest)[0] == now);
    assert((seq![now] + rest).drop_first() =~= rest);
    reveal_with_fuel(wait_outcome, 2);
}

/// What a call ends with whose last step was `step`, if it waits and the receives to come go as
/// `rest` says.
pub open spec fn outcome_from(step: Step, phase: Phase, seq: u16, rest: Seq<Receive>) -> Option<
    Result<(), Error>,
> {
    match (step, phase) {
        (Step::Finished(done), _) => Some(done),
        (_, Phase::Waiting(left)) => wait_outcome(seq, left as nat, rest),
        _ => None,
    }
}

/// Of the receives that a wait has left, the first that brings an answer decides the call.
pub proof fn the_first_answer_decides(seq: u16, left: nat, rs: Seq<Receive>, i: int)
    requires
        0 <= i < rs.len(),
        i < left,
        rs[i].answers(seq),
        forall|j: int| 0 <= j < i ==> !(#[trigger] rs[j]).answers(seq),
    ensures
        wait_outcome(seq, left, rs) == Some(outcome(code_of(rs[i].message))),
    decreases i,
{
    if i > 0 {
        let rest = rs.drop_first();
        assert forall|j: int| 0 <= j < i - 1 implies !(#[trigger] rest[j]).answers(seq) by {
            assert(rest[j] == rs[j + 1]);
        }
        the_first_answer_decides(seq, (left - 1) as nat, rest, i - 1);
    }
}

/// A wait whose receives bring no answer gives up once none is left, and not before.
pub proof fn silence_is_a_timeout(seq: u16, left: nat, rs: Seq<Receive>)
    requires
        forall|j: int| 0 <= j < rs.len() ==> !(#[trigger] rs[j]).answers(seq),
    ensures
        wait_outcome(seq, left, rs) == (if rs.len() >= left {
            Some(Err::<(), Error>(Error::Timeout))
        } else {
            None
        }),
    decreases rs.len(),
{
    if left > 0 && rs.len() > 0 {
        let rest = rs.drop_first();
        assert forall|j: int| 0 <= j < rest.len() implies !(#[trigger] rest[j]).answers(seq) by {
            assert(rest[j] == rs[j + 1]);
        }
        silence_is_a_timeout(seq, (left - 1) as nat, rest);
    }
}

/// The number of the request after one.
pub open spec fn next_seq(seq: u16) -> u16 {
    if seq == u16::MAX {
        0
    } else {
        (seq + 1) as u16
    }
}

/// Two requests with fewer than a full turn of numbers between them have different numbers.
pub proof fn requests_are_numbered(seq: u16)
    ensures
        (next_seq(seq) - seq - 1) % 0x1_0000 == 0,
        next_seq(seq) != seq,
{
}

/// What a receive means while the queue is emptied: the step that follows, and the phase after it.
pub open spec fn drain_step(err: u64, got: u64, q: Option<Request>, n: u32) -> (Step, Phase) {
    if err == GH_ERROR_OK && got != 0 {
        (
            Step::Receive,
            Phase::Draining(
                q,
                if n == u32::MAX {
                    0
                } else {
                    (n + 1) as u32
                },
            ),
        )
    } else if q is Some {
        (Step::Send(REQUEST_LEN), Phase::Sending)
    } else {
        (Step::Drained(n), Phase::Idle)
    }
}

/// While receives bring something, however short, it is dropped and counted, and the next receive
/// follows; the first that brings nothing ends that, and only then a request goes out, whole.
pub proof fn the_queue_is_emptied_first(err: u64, got: u64, q: Option<Request>, n: u32)
    requires
        n < u32::MAX,
    ensures
        err == 0 && got >= 1 ==> drain_step(err, got, q, n) == (
            Step::Receive,
            Phase::Draining(q, (n + 1) as u32),
        ),
        err != 0 || got == 0 ==> match q {
            None => drain_step(err, got, q, n) == (Step::Drained(n), Phase::Idle),
            Some(_) => drain_step(err, got, q, n) == (Step::Send(48), Phase::Sending),
        },
{
}

/// A reply that carries a request's number in its third and fourth byte, the accept call in the four
/// bytes after those and two in the low bits of its second byte answers that request, and its code is
/// in the four bytes that follow, low byte first: zero is a yes, anything else the reason for a no.
pub proof fn a_reply_is_understood(seq: u16, err: u64, got: u64, m: Seq<u8>)
    requires
        m.len() >= 12,
    ensures
        answers(seq, err, got, m) <==> {
            &&& err == 0
            &&& got >= 12
            &&& m[1] % 4 == 2
            &&& m[2] + m[3] * 0x100 == seq
            &&& m[4] == 0x11 && m[5] == 0 && m[6] == 0 && m[7] == 0x51
        },
        code_of(m) == m[8] + m[9] * 0x100 + m[10] * 0x1_0000 + m[11] * 0x100_0000,
        outcome(code_of(m)) is Ok <==> m[8] == 0 && m[9] == 0 && m[10] == 0 && m[11] == 0,
        outcome(code_of(m)) matches Err(e) ==> e == Error::Refused(code_of(m) as u32),
{
    bytes::be_value_2(m.subrange(2, 4).reverse());
    bytes::be_value_4(m.subrange(4, 8).reverse());
    bytes::be_value_4(m.subrange(8, 12).reverse());
}

/// What a trace tells of one receive: a message counts once, one that answers another request counts
/// as such, and what is told of the last message is of the last one.
pub proof fn traces_tell_what_was_seen(t: TraceView, seq: u16, err: u64, got: u64, m: Seq<u8>)
    requires
        m.len() >= 12,
    ensures
        ({
            let now = traced(t, seq, err, got, m);
            let looked_at = err == 0 && got >= 12;
            &&& now.last_err == err && now.last_len == got
            &&& looked_at ==> now.received == t.received + 1 && now.last_hdr == m.take(8)
            &&& !looked_at ==> now == (TraceView { last_err: err, last_len: got, ..t })
            &&& answers(seq, err, got, m) ==> now.wrong_seq == t.wrong_seq && now.last_seq == seq
            &&& now.wrong_seq == t.wrong_seq + 1 <==> exists|other: u16|
                other != seq && answers(other, err, got, m)
            &&& now.wrong_seq != t.wrong_seq ==> now.wrong_seq == t.wrong_seq + 1 && now.last_seq
                == m[2] + m[3] * 0x100
        }),
{
    bytes::be_value_2(m.subrange(2, 4).reverse());
    assert(m.take(8) =~= m.subrange(0, 8));
    if is_message(err, got) && is_accept_reply(m) {
        assert(0 <= seq_of(m) < 0x1_0000);
        let other = seq_of(m) as u16;
        assert(answers(other, err, got, m));
    }
}

/// The phase that emptying the queue begins with, and with it a request for a parcel, an address and a
/// size, if one follows.
pub open spec fn begun(ask: Option<(u32, u64, u64)>) -> Phase {
    match ask {
        Some((handle, gpa, size)) => Phase::Draining(Some(Request { handle, gpa, size }), 0),
        None => Phase::Draining(None, 0),
    }
}

/// The request that goes out once the queue is empty names the parcel, the address and the size that were
/// asked for, each low byte first; where nothing was asked for, nothing goes out. Nothing was dropped
/// before the first receive.
pub proof fn what_was_asked_goes_out(handle: u32, gpa: u64, size: u64, seq: u16, err: u64)
    requires
        err != 0,
    ensures
        begun(Some((handle, gpa, size))) matches Phase::Draining(Some(q), n) && {
            let m = request_bytes(seq, q);
            &&& n == 0
            &&& drain_step(err, 0, Some(q), n).0 is Send
            &&& bytes::le_value(m.subrange(8, 12)) == handle
            &&& bytes::le_value(m.subrange(28, 36)) == gpa
            &&& bytes::le_value(m.subrange(36, 44)) == size
        },
        begun(None) matches Phase::Draining(q, n) && drain_step(err, 0, q, n) == (
            Step::Drained(0),
            Phase::Idle,
        ),
{
    request_says_what_was_asked(seq, Request { handle, gpa, size });
}

/// The numbers of the calls of the message queue, the flag that pushes a message out, and the size of the
/// longest message, which the buffer of an answer has room for.
pub proof fn queues_are_called_by_number(rm: Rm)
    ensures
        GH_HCALL_MSGQ_SEND == 0xC600_801B,
        GH_HCALL_MSGQ_RECV == GH_HCALL_MSGQ_SEND + 1,
        GH_MSGQ_TX_PUSH == 1,
        rm.rxbuf@.len() == MSGQ_MSG_SIZE,
{
}

} // verus!
