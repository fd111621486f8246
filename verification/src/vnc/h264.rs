//! When frames are encoded as video, and what those who watch are told of it.

use vstd::prelude::*;

verus! {

/// Frames per second that the encoder is told.
pub const ENCODER_FRAME_RATE: i32 = 30;

/// Seconds between the encoder's own key frames.
pub const ENCODER_IFRAME_INTERVAL_SECS: i32 = 2;

pub const OUTPUT_BUFFER_INITIAL: usize = 524288;

/// From here on, a compressed frame is worth a complaint.
pub const OUTPUT_BUFFER_LOUD: usize = 16777216;

/// There is an encoder.
pub const CAPS_AVAILABLE: i32 = 0;

/// There will never be one.
pub const CAPS_UNAVAILABLE: i32 = 1;

/// There is none yet.
pub const CAPS_WARMING: i32 = 2;

/// The bits per second for a screen.
pub open spec fn bitrate_of(width: int, height: int) -> int {
    let bits = width * height * ENCODER_FRAME_RATE / 10;
    if bits < 1_000_000 {
        1_000_000
    } else if bits > 40_000_000 {
        40_000_000
    } else {
        bits
    }
}

/// A bigger screen gets no fewer bits; every screen gets a million, and none more than forty; in
/// between, ten seconds of them are one bit for each pixel of thirty frames in a second.
pub proof fn bits_grow_with_the_screen(width: int, height: int, wider: int, higher: int)
    requires
        0 <= width <= wider,
        0 <= height <= higher,
    ensures
        bitrate_of(width, height) <= bitrate_of(wider, higher),
        1_000_000 <= bitrate_of(width, height) <= 40_000_000,
        1_000_000 < bitrate_of(width, height) < 40_000_000 ==> 10 * bitrate_of(width, height)
            <= width * height * 30 < 10 * bitrate_of(width, height) + 10,
        width * height * 30 <= 10_000_000 ==> bitrate_of(width, height) == 1_000_000,
        width * height * 30 >= 400_000_000 ==> bitrate_of(width, height) == 40_000_000,
{
    assert(width * height <= wider * higher) by (nonlinear_arith)
        requires
            0 <= width <= wider,
            0 <= height <= higher,
    ;
}

/// The bits per second for a screen: a tenth of a bit for each pixel of each frame, within bounds.
pub fn bitrate_for(width: u32, height: u32) -> (r: i32)
    requires
        width * height * ENCODER_FRAME_RATE <= u64::MAX,
    ensures
        r == ({
            let bits = width * height * ENCODER_FRAME_RATE / 10;
            if bits < 1_000_000 {
                1_000_000
            } else if bits > 40_000_000 {
                40_000_000
            } else {
                bits
            }
        }),
        r == bitrate_of(width as int, height as int),
{
    proof {
        assert(0 <= width * height <= width * height * 30) by (nonlinear_arith);
    }
    let bits: u64 = width as u64 * height as u64 * ENCODER_FRAME_RATE as u64 / 10;
    if bits < 1_000_000 {
        1_000_000
    } else if bits > 40_000_000 {
        40_000_000
    } else {
        bits as i32
    }
}

/// What those who watch are told.
pub open spec fn caps_of(encoder_failed: bool, have_encoder: bool) -> i32 {
    if encoder_failed {
        CAPS_UNAVAILABLE
    } else if have_encoder {
        CAPS_AVAILABLE
    } else {
        CAPS_WARMING
    }
}

/// What those who watch are told: that no encoder could be made outranks everything.
pub fn caps_for(encoder_failed: bool, have_encoder: bool) -> (r: i32)
    ensures
        r == caps_of(encoder_failed, have_encoder),
{
    if encoder_failed {
        CAPS_UNAVAILABLE
    } else if have_encoder {
        CAPS_AVAILABLE
    } else {
        CAPS_WARMING
    }
}

/// Only an encoder that could not be made is reported as gone for good.
pub proof fn only_failure_is_permanent(encoder_failed: bool, have_encoder: bool)
    ensures
        (caps_of(encoder_failed, have_encoder) == CAPS_UNAVAILABLE) == encoder_failed,
        caps_of(encoder_failed, have_encoder) == 1 <==> encoder_failed,
        caps_of(encoder_failed, have_encoder) == 0 <==> have_encoder && !encoder_failed,
        caps_of(encoder_failed, have_encoder) == 2 <==> !have_encoder && !encoder_failed,
{
}

/// What came of draining the encoder.
#[derive(Clone, Copy, Debug, PartialEq, Eq, Structural)]
pub enum PollOutput {
    /// A compressed frame of so many bytes.
    Frame(usize),
    /// Nothing was ready.
    Idle,
    /// The frame is bigger than the buffer; it needs so many bytes.
    TooSmall(usize),
    Failed,
}

/// What an answer of the encoder means.
pub open spec fn poll_of(ret: int, size: int) -> PollOutput {
    if ret > 0 {
        PollOutput::Frame(ret as usize)
    } else if ret == 0 {
        PollOutput::Idle
    } else if ret == -1 {
        PollOutput::TooSmall(size as usize)
    } else {
        PollOutput::Failed
    }
}

/// An answer that counts bytes is a frame of so many, and the answer that one does not fit says how
/// much room it needs; without bytes and without that answer there is no frame.
pub proof fn answers_are_told_apart(ret: i32, size: u32)
    ensures
        poll_of(ret as int, size as int) matches PollOutput::Frame(n) ==> n == ret && n > 0,
        poll_of(ret as int, size as int) is Frame <==> ret >= 1,
        poll_of(ret as int, size as int) is Idle <==> ret == 0,
        poll_of(ret as int, size as int) is TooSmall <==> ret == -1,
        poll_of(ret as int, size as int) matches PollOutput::TooSmall(n) ==> n == size,
{
}

/// What the encoder's answer means.
pub fn poll_output(ret: i32, size: u32) -> (r: PollOutput)
    ensures
        r == (if ret > 0 {
            PollOutput::Frame(ret as usize)
        } else if ret == 0 {
            PollOutput::Idle
        } else if ret == -1 {
            PollOutput::TooSmall(size as usize)
        } else {
            PollOutput::Failed
        }),
        r == poll_of(ret as int, size as int),
{
    if ret > 0 {
        PollOutput::Frame(ret as usize)
    } else if ret == 0 {
        PollOutput::Idle
    } else if ret == -1 {
        PollOutput::TooSmall(size as usize)
    } else {
        PollOutput::Failed
    }
}

/// What a compressed unit is: a key frame, and the parameters of the stream.
pub fn unit_kind(flags: u32) -> (r: (bool, bool))
    ensures
        r.0 == (flags % 2 == 1),
        r.1 == (flags / 2 % 2 == 1),
        flags % 4 == (if r.0 {
            1int
        } else {
            0int
        }) + (if r.1 {
            2int
        } else {
            0int
        }),
{
    (flags % 2 == 1, flags / 2 % 2 == 1)
}

/// What is done with a compressed frame that does not fit: room is made for it, and it is worth a
/// complaint if it is very big.
pub fn too_small(needed: usize) -> (r: bool)
    ensures
        r == (needed >= OUTPUT_BUFFER_LOUD),
        r <==> needed / 0x10_0000 >= 16,
        needed < 32 * OUTPUT_BUFFER_INITIAL ==> !r,
        needed >= 32 * OUTPUT_BUFFER_INITIAL ==> r,
{
    needed >= OUTPUT_BUFFER_LOUD
}

/// The parameters of the stream are there, given the size that the encoder says they have.
pub fn codec_config(size: usize) -> (r: bool)
    ensures
        r == (0 < size <= 4096),
        r <==> 1 <= size && size - 1 < 4096,
{
    size != 0 && size <= 4096
}

/// A number is a power of two.
pub open spec fn is_power(n: nat) -> bool
    decreases n,
{
    n == 1 || (n > 0 && n % 2 == 0 && is_power(n / 2))
}

/// Whether a number is a power of two.
fn power_of_two(n: u64) -> (r: bool)
    ensures
        r == is_power(n as nat),
{
    if n == 0 {
        return false;
    }
    let mut m: u64 = n;
    while m % 2 == 0
        invariant
            m > 0,
            is_power(n as nat) == is_power(m as nat),
        decreases m,
    {
        m = m / 2;
    }
    m == 1
}

/// A frame that is offered, as far as it is decided on.
#[derive(Clone, Copy, Debug, PartialEq, Eq, Structural)]
pub struct FrameOffer {
    pub has_pixels: bool,
    pub width: i32,
    pub height: i32,
    /// The frame is also in a form that the encoder can be fed with directly.
    pub has_blit_ctx: bool,
    pub gpu_import_id: i64,
    pub has_cursor: bool,
    pub cursor_visible: bool,
}

/// The size of an encoder.
#[derive(Clone, Copy, Debug, PartialEq, Eq, Structural)]
pub struct EncoderSize {
    pub width: u32,
    pub height: u32,
}

/// What is done with a frame that is offered.
#[derive(Clone, Copy, Debug, PartialEq, Eq, Structural)]
pub enum FrameStep {
    /// The consumer has stopped.
    Stopped,
    /// Nobody wants the stream.
    Paused {
        /// It was wanted up to now: that it is no more is worth a word, with how many offers were
        /// skipped before.
        ended: bool,
        skipped: u64,
    },
    /// The frame cannot be encoded.
    Unusable,
    /// No encoder could be made before, and there is none of this size.
    NoEncoder,
    /// An encoder of this size is made first.
    Build(EncoderSize),
    /// The frame is encoded.
    Encode {
        use_gpu: bool,
        cursor_visible: bool,
    },
}

/// What is done once a frame was encoded, or was not.
#[derive(Clone, Copy, Debug, PartialEq, Eq, Structural)]
pub enum EncodeStep {
    Done,
    /// Feeding the encoder directly failed: from here on every frame is uploaded, and so is this
    /// one.
    RetryOnCpu,
    /// The frame was not encoded; whether that is worth a word, and how many were not.
    Failed { report: bool, errors: u64 },
}

/// What the consumer of frames knows.
pub struct H264Consumer {
    pub stop: bool,
    /// There is somebody to serve the stream to those who watch.
    pub have_broker: bool,
    pub encoder: Option<EncoderSize>,
    pub encoder_failed: bool,
    pub gpu_route_failed: bool,
    pub was_feeding: bool,
    pub paused_offers: u64,
    pub encode_errors: u64,
    pub rfb_joins_answered: u64,
}

/// A count that starts again behind its end.
pub open spec fn counted(n: u64) -> u64 {
    if n == u64::MAX {
        0
    } else {
        (n + 1) as u64
    }
}

impl H264Consumer {
    pub fn start(have_broker: bool) -> (r: Self)
        ensures
            r == (H264Consumer {
                stop: false,
                have_broker,
                encoder: None,
                encoder_failed: false,
                gpu_route_failed: false,
                was_feeding: false,
                paused_offers: 0,
                encode_errors: 0,
                rfb_joins_answered: 0,
            }),
            r == started(have_broker),
    {
        H264Consumer {
            stop: false,
            have_broker,
            encoder: None,
            encoder_failed: false,
            gpu_route_failed: false,
            was_feeding: false,
            paused_offers: 0,
            encode_errors: 0,
            rfb_joins_answered: 0,
        }
    }

    /// Whether the stream needs frames, given how many are on it.
    pub fn wants_frames(&self, clients: i32) -> (r: bool)
        ensures
            r == (self.have_broker && clients > 0),
            r == self.wants(clients),
    {
        self.have_broker && clients > 0
    }

    /// How many have joined the stream.
    pub fn connect_generation(&self, joins: u64) -> (r: u64)
        ensures
            r == (if self.have_broker {
                joins
            } else {
                0
            }),
            r == self.generation(joins),
    {
        if self.have_broker {
            joins
        } else {
            0
        }
    }

    /// The stream needs frames.
    pub open spec fn wants(&self, clients: i32) -> bool {
        self.have_broker && clients > 0
    }

    /// How many have joined the stream, as far as there is one.
    pub open spec fn generation(&self, joins: u64) -> u64 {
        if self.have_broker {
            joins
        } else {
            0
        }
    }

    /// How a frame is encoded: directly, where it is in a form for that and it never failed.
    pub open spec fn route(&self, offer: FrameOffer) -> FrameStep {
        FrameStep::Encode {
            use_gpu: !self.gpu_route_failed && offer.gpu_import_id != 0 && offer.has_blit_ctx,
            cursor_visible: offer.cursor_visible && offer.has_cursor,
        }
    }

    /// What is done with a frame that is offered while so many are on the stream.
    pub open spec fn step(&self, clients: i32, offer: FrameOffer) -> FrameStep {
        if self.stop {
            FrameStep::Stopped
        } else if !(self.have_broker && clients > 0) {
            FrameStep::Paused { ended: self.was_feeding, skipped: self.paused_offers }
        } else if !offer.has_pixels || offer.width <= 0 || offer.height <= 0 {
            FrameStep::Unusable
        } else {
            let size = EncoderSize { width: offer.width as u32, height: offer.height as u32 };
            if self.encoder == Some(size) {
                self.route(offer)
            } else if self.encoder_failed {
                FrameStep::NoEncoder
            } else {
                FrameStep::Build(size)
            }
        }
    }

    /// What is known after a frame was offered while so many were on the stream.
    pub open spec fn after_frame(self, clients: i32) -> H264Consumer {
        if self.stop {
            self
        } else if self.have_broker && clients > 0 {
            H264Consumer { was_feeding: true, ..self }
        } else {
            H264Consumer {
                was_feeding: false,
                paused_offers: counted(self.paused_offers),
                ..self
            }
        }
    }

    /// What is known after an encoder was made, or was not.
    pub open spec fn with_encoder(self, size: EncoderSize, made: bool) -> H264Consumer {
        if made {
            H264Consumer { encoder: Some(size), ..self }
        } else {
            H264Consumer { encoder_failed: true, ..self }
        }
    }

    /// What is done after a frame was encoded or was not, and what is known after that.
    pub open spec fn after_encoding(self, use_gpu: bool, ok: bool) -> (EncodeStep, H264Consumer) {
        if ok {
            (EncodeStep::Done, self)
        } else if use_gpu {
            (EncodeStep::RetryOnCpu, H264Consumer { gpu_route_failed: true, ..self })
        } else {
            let errors = counted(self.encode_errors);
            (
                EncodeStep::Failed {
                    report: self.encode_errors == 0 || is_power(self.encode_errors as nat),
                    errors,
                },
                H264Consumer { encode_errors: errors, ..self },
            )
        }
    }

    /// Whether a key frame is asked for when so many have joined, and what is known after that.
    pub open spec fn after_joins(self, joins: u64) -> (bool, H264Consumer) {
        if self.have_broker {
            (
                self.rfb_joins_answered != joins,
                H264Consumer { rfb_joins_answered: joins, ..self },
            )
        } else {
            (false, self)
        }
    }

    /// Decides on a frame that is offered.
    pub fn on_frame(&mut self, clients: i32, offer: &FrameOffer) -> (r: FrameStep)
        ensures
            r == old(self).step(clients, *offer),
            *final(self) == (match r {
                FrameStep::Stopped => *old(self),
                FrameStep::Paused { .. } => (H264Consumer {
                    was_feeding: false,
                    paused_offers: counted(old(self).paused_offers),
                    ..*old(self)
                }),
                _ => (H264Consumer { was_feeding: true, ..*old(self) }),
            }),
            *final(self) == old(self).after_frame(clients),
    {
        if self.stop {
            return FrameStep::Stopped;
        }
        if !self.wants_frames(clients) {
            let skipped: u64 = self.paused_offers;
            let ended: bool = self.was_feeding;
            self.paused_offers = skipped.wrapping_add(1);
            self.was_feeding = false;
            return FrameStep::Paused { ended, skipped };
        }
        self.was_feeding = true;
        if !offer.has_pixels || offer.width <= 0 || offer.height <= 0 {
            return FrameStep::Unusable;
        }
        let size = EncoderSize { width: offer.width as u32, height: offer.height as u32 };
        match self.encoder {
            Some(e) => {
                if e.width == size.width && e.height == size.height {
                    return self.encode_route(offer);
                }
            },
            None => {},
        }
        if self.encoder_failed {
            return FrameStep::NoEncoder;
        }
        FrameStep::Build(size)
    }

    /// How a frame is encoded.
    fn encode_route(&self, offer: &FrameOffer) -> (r: FrameStep)
        ensures
            r == self.route(*offer),
    {
        FrameStep::Encode {
            use_gpu: !self.gpu_route_failed && offer.gpu_import_id != 0 && offer.has_blit_ctx,
            cursor_visible: offer.cursor_visible && offer.has_cursor,
        }
    }

    /// Takes in whether an encoder of a size could be made. Where it could, the frame that it was
    /// made for is encoded, and those who watch start anew; where it could not, none is made ever
    /// again. What those who watch are told is given with it.
    pub fn encoder_for(&mut self, size: EncoderSize, made: bool, offer: &FrameOffer) -> (r: (
        FrameStep,
        i32,
    ))
        ensures
            r == (if made {
                (old(self).route(*offer), CAPS_AVAILABLE)
            } else {
                (FrameStep::NoEncoder, CAPS_UNAVAILABLE)
            }),
            *final(self) == (if made {
                H264Consumer { encoder: Some(size), ..*old(self) }
            } else {
                H264Consumer { encoder_failed: true, ..*old(self) }
            }),
            *final(self) == old(self).with_encoder(size, made),
            made ==> r.1 == caps_of(false, true),
            !made ==> r.1 == caps_of(true, old(self).encoder is Some),
    {
        if !made {
            self.encoder_failed = true;
            return (FrameStep::NoEncoder, CAPS_UNAVAILABLE);
        }
        self.encoder = Some(size);
        (self.encode_route(offer), CAPS_AVAILABLE)
    }

    /// Takes in whether a frame was encoded.
    pub fn encoded(&mut self, use_gpu: bool, ok: bool) -> (r: EncodeStep)
        ensures
            r == (if ok {
                EncodeStep::Done
            } else if use_gpu {
                EncodeStep::RetryOnCpu
            } else {
                EncodeStep::Failed {
                    report: old(self).encode_errors == 0 || is_power(
                        old(self).encode_errors as nat,
                    ),
                    errors: counted(old(self).encode_errors),
                }
            }),
            *final(self) == (match r {
                EncodeStep::Done => *old(self),
                EncodeStep::RetryOnCpu => (H264Consumer { gpu_route_failed: true, ..*old(self) }),
                EncodeStep::Failed { .. } => (H264Consumer {
                    encode_errors: counted(old(self).encode_errors),
                    ..*old(self)
                }),
            }),
            (r, *final(self)) == old(self).after_encoding(use_gpu, ok),
    {
        if ok {
            return EncodeStep::Done;
        }
        if use_gpu {
            self.gpu_route_failed = true;
            return EncodeStep::RetryOnCpu;
        }
        let count: u64 = self.encode_errors;
        self.encode_errors = count.wrapping_add(1);
        EncodeStep::Failed {
            report: count == 0 || power_of_two(count),
            errors: self.encode_errors,
        }
    }

    /// Whether a key frame is asked for: once for each time that somebody joined.
    pub fn sync_frame_for_rfb_joins(&mut self, joins: u64) -> (r: bool)
        ensures
            r == (old(self).have_broker && joins != old(self).rfb_joins_answered),
            *final(self) == (if old(self).have_broker {
                H264Consumer { rfb_joins_answered: joins, ..*old(self) }
            } else {
                *old(self)
            }),
            (r, *final(self)) == old(self).after_joins(joins),
    {
        if !self.have_broker {
            return false;
        }
        let answered: u64 = self.rfb_joins_answered;
        self.rfb_joins_answered = joins;
        answered != joins
    }

    /// What those who watch are told now.
    pub fn caps(&self) -> (r: i32)
        ensures
            r == caps_of(self.encoder_failed, self.encoder is Some),
    {
        caps_for(self.encoder_failed, self.encoder.is_some())
    }

    /// Stops the consumer.
    pub fn shutdown(&mut self)
        ensures
            *final(self) == (H264Consumer { stop: true, ..*old(self) }),
    {
        self.stop = true;
    }
}

/// Where feeding the encoder directly failed once, it is not tried again.
pub proof fn a_failed_route_is_not_tried_again(c: H264Consumer, clients: i32, offer: FrameOffer)
    requires
        c.gpu_route_failed,
    ensures
        c.step(clients, offer) matches FrameStep::Encode { use_gpu, .. } ==> !use_gpu,
{
}

/// Where an encoder could not be made, none is made again.
pub proof fn a_failed_encoder_is_not_made_again(c: H264Consumer, clients: i32, offer: FrameOffer)
    requires
        c.encoder_failed,
    ensures
        !(c.step(clients, offer) is Build),
{
}

/// A frame is only encoded by an encoder of its size, and only for somebody.
pub proof fn encoders_fit_their_frames(c: H264Consumer, clients: i32, offer: FrameOffer)
    requires
        c.step(clients, offer) is Encode,
    ensures
        c.encoder == Some(
            EncoderSize { width: offer.width as u32, height: offer.height as u32 },
        ),
        clients > 0,
        !c.stop,
{
}

/// A consumer that stopped does nothing.
pub proof fn a_stopped_consumer_does_nothing(c: H264Consumer, clients: i32, offer: FrameOffer)
    requires
        c.stop,
    ensures
        c.step(clients, offer) == FrameStep::Stopped,
{
}

/// Doubling a number a few times.
pub open spec fn doubled(n: nat, times: nat) -> nat
    decreases times,
{
    if times == 0 {
        n
    } else {
        2 * doubled(n, (times - 1) as nat)
    }
}

/// The powers of two are what doubling makes of one.
pub proof fn powers_are_doublings(n: nat, times: nat)
    ensures
        is_power(doubled(1, times)),
        is_power(n) ==> exists|k: nat| n == #[trigger] doubled(1, k),
    decreases n + times,
{
    if times > 0 {
        powers_are_doublings(0, (times - 1) as nat);
        let half = doubled(1, (times - 1) as nat);
        assert((2 * half) / 2 == half);
        assert(half > 0);
    }
    if is_power(n) {
        if n == 1 {
            assert(n == doubled(1, 0));
        } else {
            powers_are_doublings(n / 2, 0);
            let k = choose|k: nat| n / 2 == #[trigger] doubled(1, k);
            assert(n == doubled(1, k + 1));
        }
    }
}

/// A count goes up by one, and from its end to zero.
pub proof fn counts_go_up_by_one(n: u64)
    ensures
        (counted(n) - n - 1) % 0x1_0000_0000_0000_0000 == 0,
{
}

/// Whatever is done with a frame is done for a reason: a frame with pixels that somebody waits for is
/// encoded, where there is an encoder of its size; where there is none, one of its very size is made,
/// unless that failed before. It goes to the encoder directly exactly where it can and that never
/// failed, and its cursor is drawn where there is one to see.
pub proof fn frames_are_encoded_for_those_who_wait(
    c: H264Consumer,
    clients: i32,
    offer: FrameOffer,
)
    requires
        !c.stop,
        c.have_broker,
        clients >= 1,
    ensures
        ({
            let step = c.step(clients, offer);
            let usable = offer.has_pixels && offer.width >= 1 && offer.height >= 1;
            let fits = (c.encoder matches Some(e) && e.width == offer.width && e.height
                == offer.height);
            &&& usable && fits ==> step is Encode
            &&& usable && !fits && c.encoder_failed ==> step is NoEncoder
            &&& usable && !fits && !c.encoder_failed ==> (step matches FrameStep::Build(e)
                && e.width == offer.width && e.height == offer.height)
            &&& !usable ==> step is Unusable
            &&& step matches FrameStep::Encode { use_gpu, cursor_visible } ==> {
                &&& use_gpu ==> offer.has_blit_ctx && offer.gpu_import_id != 0
                &&& !use_gpu ==> c.gpu_route_failed || !offer.has_blit_ctx || offer.gpu_import_id
                    == 0
                &&& cursor_visible <==> offer.has_cursor && offer.cursor_visible
            }
        }),
{
}

/// While nobody waits, offers are counted and nothing is encoded; that the stream ended is told once,
/// with the first offer that nobody waited for.
pub proof fn the_end_of_a_stream_is_told_once(
    c: H264Consumer,
    offer: FrameOffer,
    clients: i32,
    later: i32,
)
    requires
        !c.stop,
        clients <= 0 || !c.have_broker,
        later <= 0 || !c.have_broker,
    ensures
        c.step(clients, offer) == (FrameStep::Paused {
            ended: c.was_feeding,
            skipped: c.paused_offers,
        }),
        c.after_frame(clients).step(later, offer) matches FrameStep::Paused { ended, skipped }
            && !ended && (c.paused_offers < u64::MAX ==> skipped == c.paused_offers + 1),
{
}

/// After a frame that somebody waited for, the next pause is an end.
pub proof fn a_stream_that_was_fed_can_end(c: H264Consumer, offer: FrameOffer, clients: i32)
    requires
        !c.stop,
        c.have_broker,
        clients >= 1,
    ensures
        c.after_frame(clients).step(0, offer) == (FrameStep::Paused {
            ended: true,
            skipped: c.paused_offers,
        }),
{
}

/// The frame that an encoder was made for is encoded by it, and so is the next one of that size.
/// Where it could not be made no frame that has no encoder is encoded again.
pub proof fn an_encoder_is_made_for_its_frame(
    c: H264Consumer,
    clients: i32,
    offer: FrameOffer,
    made: bool,
)
    requires
        c.step(clients, offer) is Build,
    ensures
        made ==> c.with_encoder(c.step(clients, offer)->Build_0, made).step(clients, offer)
            == c.route(offer),
        !made ==> c.with_encoder(c.step(clients, offer)->Build_0, made).step(clients, offer)
            is NoEncoder,
{
}

/// A frame that could not go to the encoder directly is tried once more, by another route; one that
/// then fails is counted, and told of where the count before it is zero or a power of two.
pub proof fn failures_are_counted(c: H264Consumer, clients: i32, offer: FrameOffer, use_gpu: bool)
    ensures
        c.after_encoding(use_gpu, true) == (EncodeStep::Done, c),
        ({
            let (step, after) = c.after_encoding(true, false);
            &&& step is RetryOnCpu
            &&& after.encode_errors == c.encode_errors
            &&& after.step(clients, offer) matches FrameStep::Encode { use_gpu, .. } ==> !use_gpu
        }),
        ({
            let (step, after) = c.after_encoding(false, false);
            &&& step matches EncodeStep::Failed { report, errors }
            &&& errors == after.encode_errors
            &&& c.encode_errors < u64::MAX ==> errors == c.encode_errors + 1
            &&& c.encode_errors <= 2 || c.encode_errors == 4 ==> report
            &&& c.encode_errors % 2 == 1 && c.encode_errors > 1 ==> !report
            &&& after.step(clients, offer) == c.step(clients, offer)
        }),
{
    reveal_with_fuel(is_power, 4);
}

/// A key frame is asked for once for those who joined, and again when more did.
pub proof fn a_join_is_answered_once(c: H264Consumer, joins: u64, later: u64)
    requires
        c.have_broker,
    ensures
        c.after_joins(joins).1.after_joins(later).0 <==> joins != later,
        c.after_joins(joins).0 <==> c.rfb_joins_answered != joins,
        !(H264Consumer { have_broker: false, ..c }).after_joins(joins).0,
{
}

/// Frames are wanted exactly where one that is offered is not paused; nobody joins a stream that there
/// is not.
pub proof fn wanted_frames_are_not_paused(
    c: H264Consumer,
    clients: i32,
    offer: FrameOffer,
    joins: u64,
)
    requires
        !c.stop,
    ensures
        c.wants(clients) <==> !(c.step(clients, offer) is Paused),
        c.wants(clients) ==> clients >= 1 && c.have_broker,
        !c.have_broker ==> c.generation(joins) == 0,
        c.have_broker ==> c.generation(joins) == joins,
{
}

/// What a new consumer knows.
pub open spec fn started(have_broker: bool) -> H264Consumer {
    H264Consumer {
        stop: false,
        have_broker,
        encoder: None,
        encoder_failed: false,
        gpu_route_failed: false,
        was_feeding: false,
        paused_offers: 0,
        encode_errors: 0,
        rfb_joins_answered: 0,
    }
}

/// A new consumer has encoded nothing and failed at nothing: it makes an encoder for the first frame that
/// somebody waits for, feeds it directly where it can, asks for a key frame once somebody joined, and
/// tells of its first failure.
pub proof fn consumers_start_fresh(offer: FrameOffer, clients: i32, joins: u64)
    requires
        offer.has_pixels,
        offer.width >= 1,
        offer.height >= 1,
        clients >= 1,
    ensures
        started(true).step(clients, offer) is Build,
        started(true).step(0, offer) == (FrameStep::Paused { ended: false, skipped: 0 }),
        started(false).step(clients, offer) == (FrameStep::Paused { ended: false, skipped: 0 }),
        started(true).route(offer) matches FrameStep::Encode { use_gpu, .. } && (use_gpu
            <==> offer.gpu_import_id != 0 && offer.has_blit_ctx),
        caps_of(started(true).encoder_failed, started(true).encoder is Some) == 2,
        started(true).after_joins(joins).0 <==> joins != 0,
        started(true).after_encoding(false, false).0 == (EncodeStep::Failed {
            report: true,
            errors: 1,
        }),
{
}

} // verus!
