//! One exchange with the sensor, told as the events on the bus and the two
//! lines beside it: what the driver does, what comes back, and what the
//! driver makes of it.

use crate::codec::{checksum_ieee, crc32_ieee, le_value, read_u32_le};
use crate::error::Error;
use crate::transport::finalised;
use vstd::prelude::*;

verus! {

/// How often the ready line may be found low before a wait gives up.
pub const READY_POLLS: u32 = 500_000;

/// The level of a line.
pub enum Level {
    Low,
    High,
}

/// One thing that the driver did, with what came of it.
pub enum Event<E> {
    /// Chip select was driven to this level.
    ChipSelect(Level),
    /// The reset line was driven to this level.
    ResetLine(Level),
    /// The ready line was sampled and found at this level.
    Ready(Level),
    /// `sent` was handed to the bus, which put `reply` in its place or failed.
    Transfer { sent: Seq<u8>, reply: Result<Seq<u8>, E> },
    /// The caller's delay ran.
    Pause,
    /// The caller's progress callback ran with this count.
    Progress(u32),
}

/// The four bytes that acknowledge a frame.
pub open spec fn ack_magic() -> Seq<u8> {
    seq![0x7Fu8, 0xFFu8, 0x01u8, 0x7Fu8]
}

/// `n` zero bytes: what is clocked out while the sensor talks.
pub open spec fn zeros(n: nat) -> Seq<u8> {
    Seq::new(n, |i: int| 0u8)
}

/// Whether the CRC-32 in the last four bytes of a body is that of the bytes
/// before them.
pub open spec fn crc_ok(body: Seq<u8>) -> bool {
    &&& body.len() >= 4
    &&& crc32_ieee(body.take(body.len() - 4)) == le_value(body.skip(body.len() - 4))
}

/// Whether a body is a frame of its own: its sequence number equals its
/// sequence length.
pub open spec fn single_frame(body: Seq<u8>) -> bool {
    &&& body.len() >= 6
    &&& body[2] == body[4]
    &&& body[3] == body[5]
}

/// The length of the body that a transport header announces: its size field's
/// low byte, and four bytes of CRC.
pub open spec fn body_size(header: Seq<u8>) -> nat {
    (4 + header[2]) as nat
}

/// What the driver makes of the bus's reply to `sent`: the bytes that came
/// back in their place, the bus's error, or a protocol error where fewer or
/// more bytes came back than went out.
pub open spec fn heard<E>(sent: Seq<u8>, reply: Result<Seq<u8>, E>) -> Result<Seq<u8>, Error<E>> {
    match reply {
        Err(e) => Err(Error::HalErr(e)),
        Ok(bytes) => if bytes.len() == sent.len() {
            Ok(bytes)
        } else {
            Err(Error::UnexpectedResponse)
        },
    }
}

/// The events of one transfer: chip select goes low, the bytes are
/// exchanged, and, unless the bus failed, chip select goes high again.
pub open spec fn burst<E>(sent: Seq<u8>, reply: Result<Seq<u8>, E>) -> Seq<Event<E>> {
    if reply is Ok {
        seq![
            Event::ChipSelect(Level::Low),
            Event::Transfer { sent, reply },
            Event::ChipSelect(Level::High),
        ]
    } else {
        seq![Event::ChipSelect(Level::Low), Event::Transfer { sent, reply }]
    }
}

/// The events of one wait for the ready line: `lows` samples that find it
/// low and, unless the wait gave up, the one that finds it high.
pub open spec fn wait<E>(lows: nat) -> Seq<Event<E>> {
    if lows <= READY_POLLS {
        Seq::new(lows, |i: int| Event::Ready(Level::Low)).push(Event::Ready(Level::High))
    } else {
        Seq::new(lows, |i: int| Event::Ready(Level::Low))
    }
}

/// What the outside answered in the course of one exchange, stage by stage.
/// Of an exchange that ended early, the later fields say nothing.
pub struct Transcript<E> {
    /// The bus's reply to the request.
    pub request: Result<Seq<u8>, E>,
    /// How often the ready line was found low before the acknowledgement.
    pub lows_before_ack: nat,
    /// The bus's reply where the acknowledgement is read.
    pub ack: Result<Seq<u8>, E>,
    /// How often the ready line was found low before the header.
    pub lows_before_header: nat,
    /// The bus's reply where the transport header is read.
    pub header: Result<Seq<u8>, E>,
    /// The bus's reply where the body is read.
    pub body: Result<Seq<u8>, E>,
    /// The bus's reply to the closing acknowledgement.
    pub closing: Result<Seq<u8>, E>,
}

/// How far an exchange gets.
pub enum Stage {
    Request,
    AwaitAck,
    Ack,
    AwaitHeader,
    Header,
    Body,
    Closing,
    Done,
}

/// The error, if any, with which an exchange ends at the given stage.
pub open spec fn stage_error<E>(frame: Seq<u8>, x: Transcript<E>, at: Stage) -> Option<Error<E>> {
    match at {
        Stage::Request => match heard(finalised(frame), x.request) {
            Err(e) => Some(e),
            Ok(_) => None,
        },
        Stage::AwaitAck => if x.lows_before_ack > READY_POLLS {
            Some(Error::Timeout)
        } else {
            None
        },
        Stage::Ack => match heard(zeros(4), x.ack) {
            Err(e) => Some(e),
            Ok(ack) => if ack == ack_magic() {
                None
            } else {
                Some(Error::UnexpectedResponse)
            },
        },
        Stage::AwaitHeader => if x.lows_before_header > READY_POLLS {
            Some(Error::Timeout)
        } else {
            None
        },
        Stage::Header => match heard(zeros(4), x.header) {
            Err(e) => Some(e),
            Ok(_) => None,
        },
        Stage::Body => match heard(zeros(body_size(x.header->Ok_0)), x.body) {
            Err(e) => Some(e),
            Ok(body) => if crc_ok(body) {
                None
            } else {
                Some(Error::CRCError)
            },
        },
        Stage::Closing => match heard(ack_magic(), x.closing) {
            Err(e) => Some(e),
            Ok(_) => if single_frame(x.body->Ok_0) {
                None
            } else {
                Some(Error::UnexpectedResponse)
            },
        },
        Stage::Done => None,
    }
}

/// The events of the given stage of an exchange.
pub open spec fn stage_events<E>(frame: Seq<u8>, x: Transcript<E>, at: Stage) -> Seq<Event<E>> {
    match at {
        Stage::Request => burst(finalised(frame), x.request),
        Stage::AwaitAck => wait(x.lows_before_ack),
        Stage::Ack => burst(zeros(4), x.ack),
        Stage::AwaitHeader => wait(x.lows_before_header),
        Stage::Header => burst(zeros(4), x.header),
        Stage::Body => burst(zeros(body_size(x.header->Ok_0)), x.body),
        Stage::Closing => burst(ack_magic(), x.closing),
        Stage::Done => Seq::empty(),
    }
}

/// The stage that follows.
pub open spec fn next_stage(at: Stage) -> Stage {
    match at {
        Stage::Request => Stage::AwaitAck,
        Stage::AwaitAck => Stage::Ack,
        Stage::Ack => Stage::AwaitHeader,
        Stage::AwaitHeader => Stage::Header,
        Stage::Header => Stage::Body,
        Stage::Body => Stage::Closing,
        Stage::Closing => Stage::Done,
        Stage::Done => Stage::Done,
    }
}

/// The stages that are still to come, this one counted.
pub open spec fn stages_left(at: Stage) -> nat {
    match at {
        Stage::Request => 7,
        Stage::AwaitAck => 6,
        Stage::Ack => 5,
        Stage::AwaitHeader => 4,
        Stage::Header => 3,
        Stage::Body => 2,
        Stage::Closing => 1,
        Stage::Done => 0,
    }
}

/// The events of an exchange from the given stage on: those of the stage
/// and, unless it ends the exchange, those of the stages after it.
pub open spec fn events_from<E>(frame: Seq<u8>, x: Transcript<E>, at: Stage) -> Seq<Event<E>>
    decreases stages_left(at),
{
    if at is Done {
        Seq::empty()
    } else if stage_error(frame, x, at) is Some {
        stage_events(frame, x, at)
    } else {
        stage_events(frame, x, at) + events_from(frame, x, next_stage(at))
    }
}

/// The result of an exchange from the given stage on: the error of the first
/// stage that fails, or the application payload of the body.
pub open spec fn result_from<E>(frame: Seq<u8>, x: Transcript<E>, at: Stage) -> Result<
    Seq<u8>,
    Error<E>,
>
    decreases stages_left(at),
{
    if at is Done {
        Ok(x.body->Ok_0.skip(6))
    } else {
        match stage_error(frame, x, at) {
            Some(e) => Err(e),
            None => result_from(frame, x, next_stage(at)),
        }
    }
}

/// Whether `events` and `result` are one exchange that carries `frame`: the
/// frame is finalised and sent, the ready line is awaited, the
/// acknowledgement read and checked, the ready line awaited again, header
/// and body read, the body's CRC checked, the body acknowledged and its
/// sequence fields checked.
#[verifier::opaque]
pub open spec fn is_exchange<E>(
    frame: Seq<u8>,
    events: Seq<Event<E>>,
    result: Result<Seq<u8>, Error<E>>,
) -> bool {
    exists|x: Transcript<E>|
        x.lows_before_ack <= READY_POLLS + 1 && x.lows_before_header <= READY_POLLS + 1
            && #[trigger] events_from(frame, x, Stage::Request) == events && result_from(
            frame,
            x,
            Stage::Request,
        ) == result
}

/// `n` zero bytes.
pub fn zero_bytes(n: usize) -> (buf: Vec<u8>)
    ensures
        buf@ == zeros(n as nat),
{
    let mut buf: Vec<u8> = Vec::with_capacity(n);
    let mut i: usize = 0;
    while i < n
        invariant
            i <= n,
            buf@ == zeros(i as nat),
        decreases n - i,
    {
        buf.push(0);
        assert(buf@ =~= zeros((i + 1) as nat));
        i += 1;
    }
    buf
}

/// The acknowledgement.
pub fn ack_bytes() -> (buf: Vec<u8>)
    ensures
        buf@ == ack_magic(),
{
    let mut buf: Vec<u8> = Vec::with_capacity(4);
    buf.push(0x7f);
    buf.push(0xff);
    buf.push(0x01);
    buf.push(0x7f);
    assert(buf@ =~= ack_magic());
    buf
}

/// Whether four bytes are the acknowledgement.
pub fn is_ack(ack: &[u8]) -> (r: bool)
    ensures
        r == (ack@ == ack_magic()),
{
    let r = ack.len() == 4 && ack[0] == 0x7f && ack[1] == 0xff && ack[2] == 0x01 && ack[3] == 0x7f;
    assert(r == (ack@ =~= ack_magic()));
    r
}

/// The length of the body that a transport header announces.
pub fn body_length(header: &[u8]) -> (n: usize)
    requires
        header@.len() >= 3,
    ensures
        n == body_size(header@),
{
    4 + header[2] as usize
}

/// Whether the CRC-32 at the end of a body is that of the bytes before it.
pub fn crc_verifies(body: &[u8]) -> (r: bool)
    ensures
        r == crc_ok(body@),
{
    let len = body.len();
    if len < 4 {
        return false;
    }
    let crc: u32 = checksum_ieee(&body[0..len - 4]);
    let stored: u32 = read_u32_le(&body[len - 4..len]);
    proof {
        assert(body@.subrange(0, len - 4) =~= body@.take(len - 4));
        assert(body@.subrange(len - 4, len as int).subrange(0, 4) =~= body@.skip(len - 4));
    }
    crc == stored
}

/// The application payload of a body: all that follows its sequence fields,
/// where they say that the body is a frame of its own.
pub fn body_payload<E>(body: Vec<u8>) -> (r: Result<Vec<u8>, Error<E>>)
    ensures
        match r {
            Ok(payload) => single_frame(body@) && payload@ == body@.skip(6),
            Err(e) => !single_frame(body@) && e == Error::<E>::UnexpectedResponse,
        },
{
    let ghost whole = body@;
    let mut body = body;
    if body.len() < 6 {
        return Err(Error::UnexpectedResponse);
    }
    if body[2] != body[4] || body[3] != body[5] {
        return Err(Error::UnexpectedResponse);
    }
    let payload = body.split_off(6);
    assert(payload@ =~= whole.skip(6));
    Ok(payload)
}

} // verus!
