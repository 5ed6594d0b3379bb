//! The driver: four handles, and the commands built on one exchange.

use crate::commands::{
    capture_request, count_request, delete_all_request, enroll_request, extract_request,
    finger_up_request, identify_request, read_code, read_count, read_done, read_identity,
    read_remaining, read_version, save_request, version_request, CMD_CAPTURE, CMD_ENROLL,
    CMD_EXTRACT, CMD_IDENTIFY, CMD_STORAGE_TEMPLATE, CMD_TEMPLATE, CMD_VERSION, CMD_WAIT,
    ENROLL_ADD, ENROLL_BEGIN, ENROLL_DONE,
};
use crate::error::Error;
use crate::script::{
    is_capture, is_delete_all, is_do_enroll, is_do_extract, is_do_identify, is_do_savetemplate,
    is_enroll, is_enroll_round, is_enroll_rounds, is_get_template_count, is_get_version,
    is_identify, is_waitfingerup, next_id, rounds_events, rounds_result, rounds_valid, Round,
    ENROLL_ROUNDS,
};
use crate::exchange::{
    ack_bytes, body_length, body_payload, burst, crc_verifies, events_from, heard, is_ack,
    is_exchange, result_from, wait, zero_bytes, Event, Level, Stage, Transcript, READY_POLLS,
};
use crate::transport::{finalise, fits_one_frame};
use vstd::prelude::*;

verus! {

/// A bus that exchanges bytes in both directions at once.
pub trait ByteExchange {
    /// What the bus reports when an exchange fails.
    type Error;

    /// Sends `words` and puts the bytes that come back in their place.
    fn exchange(&mut self, words: &mut [u8]) -> Result<(), Self::Error>;
}

/// A line that the driver drives.
pub trait DigitalOut {
    fn set_low(&mut self);

    fn set_high(&mut self);
}

/// A line that the driver reads.
pub trait DigitalIn {
    fn is_low(&self) -> bool;

    fn is_high(&self) -> bool;
}

/// The driver. It owns the bus, the chip-select and reset lines and the
/// ready line, and keeps, for its contracts alone, its own record of all it
/// did with them.
pub struct BmLite<SPI: ByteExchange, CS, RST, IRQ> {
    spi: SPI,
    cs: CS,
    rst: RST,
    irq: IRQ,
    log: Ghost<Seq<Event<SPI::Error>>>,
}

/// The id under which a new template is saved when `count` are stored.
pub fn id_after(count: u32) -> (id: u16)
    ensures
        id == next_id(count),
{
    let low: u32 = count & 0xFFFF;
    assert(low == count % 0x1_0000) by (bit_vector)
        requires
            low == count & 0xFFFF,
    ;
    if low == 0xFFFF {
        0
    } else {
        (low + 1) as u16
    }
}

/// A record that goes on from another is that other and what came after.
proof fn lemma_split<E>(before: Seq<Event<E>>, after: Seq<Event<E>>)
    requires
        before.is_prefix_of(after),
    ensures
        after == before + after.skip(before.len() as int),
{
    assert(after =~= before + after.skip(before.len() as int));
}

/// The bus's reply to an exchange: the bytes that stand in the buffer after
/// it, or the bus's error.
pub open spec fn reply_of<E>(r: Result<(), E>, bytes: Seq<u8>) -> Result<Seq<u8>, E> {
    match r {
        Ok(_) => Ok(bytes),
        Err(e) => Err(e),
    }
}

/// A result with the bytes of its value.
pub open spec fn bytes_of<E>(r: Result<Vec<u8>, Error<E>>) -> Result<Seq<u8>, Error<E>> {
    match r {
        Ok(bytes) => Ok(bytes@),
        Err(e) => Err(e),
    }
}

impl<SPI, CS, RST, IRQ, E> BmLite<SPI, CS, RST, IRQ> where
    SPI: ByteExchange<Error = E>,
    CS: DigitalOut,
    RST: DigitalOut,
    IRQ: DigitalIn,
 {
    /// The handles, as `teardown` gives them back.
    pub closed spec fn handles(self) -> (SPI, (CS, RST, IRQ)) {
        (self.spi, (self.cs, self.rst, self.irq))
    }

    /// The driver's own record of what it has done so far, in order. The
    /// driver writes each entry itself, in the function that makes the one
    /// call that the entry stands for: `select`, `deselect`, `assert_reset`,
    /// `release_reset`, `ready_is_low`, `exchange`, `pause` and `progress`.
    /// The record is as true as those functions are; nothing outside the
    /// driver vouches for it.
    pub closed spec fn log(self) -> Seq<Event<E>> {
        self.log@
    }

    /// What the driver has done since it was as `before`.
    pub open spec fn since(self, before: Self) -> Seq<Event<E>> {
        self.log().skip(before.log().len() as int)
    }

    /// Whether the driver has gone on from where it was as `before`.
    pub open spec fn follows(self, before: Self) -> bool {
        before.log().is_prefix_of(self.log())
    }

    /// Makes a driver of a bus, a chip-select line, a reset line and a ready line.
    pub fn new(spi: SPI, cs: CS, rst: RST, irq: IRQ) -> (bm: Self)
        ensures
            bm.handles() == (spi, (cs, rst, irq)),
            bm.log() == Seq::<Event<E>>::empty(),
    {
        BmLite { spi, cs, rst, irq, log: Ghost(Seq::empty()) }
    }

    /// Gives the handles back.
    pub fn teardown(self) -> (r: (SPI, (CS, RST, IRQ)))
        ensures
            r == self.handles(),
    {
        (self.spi, (self.cs, self.rst, self.irq))
    }

    /// Drives chip select low.
    fn select(&mut self)
        ensures
            final(self).log() == old(self).log().push(Event::ChipSelect(Level::Low)),
    {
        self.cs.set_low();
        proof {
            self.log@ = self.log@.push(Event::ChipSelect(Level::Low));
        }
    }

    /// Drives chip select high.
    fn deselect(&mut self)
        ensures
            final(self).log() == old(self).log().push(Event::ChipSelect(Level::High)),
    {
        self.cs.set_high();
        proof {
            self.log@ = self.log@.push(Event::ChipSelect(Level::High));
        }
    }

    /// Drives the reset line low.
    fn assert_reset(&mut self)
        ensures
            final(self).log() == old(self).log().push(Event::ResetLine(Level::Low)),
    {
        self.rst.set_low();
        proof {
            self.log@ = self.log@.push(Event::ResetLine(Level::Low));
        }
    }

    /// Drives the reset line high.
    fn release_reset(&mut self)
        ensures
            final(self).log() == old(self).log().push(Event::ResetLine(Level::High)),
    {
        self.rst.set_high();
        proof {
            self.log@ = self.log@.push(Event::ResetLine(Level::High));
        }
    }

    /// Samples the ready line.
    fn ready_is_low(&mut self) -> (low: bool)
        ensures
            final(self).log() == old(self).log().push(
                Event::Ready(
                    if low {
                        Level::Low
                    } else {
                        Level::High
                    },
                ),
            ),
    {
        let low = self.irq.is_low();
        proof {
            self.log@ = self.log@.push(
                Event::Ready(
                    if low {
                        Level::Low
                    } else {
                        Level::High
                    },
                ),
            );
        }
        low
    }

    /// Hands `buf` to the bus, which puts its reply in the place of the
    /// bytes or fails.
    fn exchange(&mut self, buf: &mut Vec<u8>) -> (r: Result<(), E>)
        ensures
            final(self).log() == old(self).log().push(
                Event::Transfer { sent: old(buf)@, reply: reply_of(r, final(buf)@) },
            ),
    {
        let ghost sent = buf@;
        let r = self.spi.exchange(buf.as_mut_slice());
        proof {
            self.log@ = self.log@.push(Event::Transfer { sent, reply: reply_of(r, buf@) });
        }
        r
    }

    /// Runs the caller's delay.
    fn pause<DelayClass: FnMut()>(&mut self, d: &mut DelayClass)
        requires
            call_requires(*old(d), ()),
        ensures
            final(self).log() == old(self).log().push(Event::Pause),
    {
        d();
        proof {
            self.log@ = self.log@.push(Event::Pause);
        }
    }

    /// Tells the caller's progress callback a count.
    fn progress<F: FnMut(u32)>(&mut self, f: &mut F, count: u32)
        requires
            forall|n: u32| call_requires(*old(f), (n,)),
        ensures
            forall|n: u32| call_requires(*final(f), (n,)),
            final(self).log() == old(self).log().push(Event::Progress(count)),
    {
        f(count);
        proof {
            self.log@ = self.log@.push(Event::Progress(count));
        }
    }

    /// Pulses the reset line: low, the caller's delay, high.
    pub fn reset<DelayClass: FnMut()>(&mut self, d: DelayClass) -> (r: Result<u8, Error<E>>)
        requires
            call_requires(d, ()),
        ensures
            r == Ok::<u8, Error<E>>(0u8),
            final(self).log() == old(self).log() + seq![
                Event::ResetLine(Level::Low),
                Event::Pause,
                Event::ResetLine(Level::High),
            ],
    {
        let mut d = d;
        let ghost start = self.log@;
        self.assert_reset();
        self.pause(&mut d);
        self.release_reset();
        assert(self.log@ =~= start + seq![
            Event::ResetLine(Level::Low),
            Event::Pause,
            Event::ResetLine(Level::High),
        ]);
        Ok(0)
    }

    /// One transfer: chip select low, the bytes exchanged in place, chip
    /// select high. Beside the result stands the bus's reply.
    fn transfer(&mut self, buf: Vec<u8>) -> (r: (Result<Vec<u8>, Error<E>>, Ghost<Result<Seq<u8>, E>>))
        ensures
            final(self).log() == old(self).log() + burst(buf@, r.1@),
            bytes_of(r.0) == heard(buf@, r.1@),
    {
        let ghost start = self.log@;
        let mut buf = buf;
        let ghost sent = buf@;
        let n = buf.len();
        self.select();
        match self.exchange(&mut buf) {
            Err(e) => {
                let ghost reply = Err::<Seq<u8>, E>(e);
                assert(self.log@ =~= start + burst(sent, reply));
                (Err(Error::HalErr(e)), Ghost(reply))
            },
            Ok(()) => {
                self.deselect();
                let ghost reply = Ok::<Seq<u8>, E>(buf@);
                assert(self.log@ =~= start + burst(sent, reply));
                // A bus that answers with another number of bytes than it
                // was given has left the protocol.
                if buf.len() != n {
                    return (Err(Error::UnexpectedResponse), Ghost(reply));
                }
                (Ok(buf), Ghost(reply))
            },
        }
    }

    /// Samples the ready line until it is found high, and gives up when it
    /// was found low more than `READY_POLLS` times. Beside the result stands
    /// the number of times it was found low.
    fn await_ready(&mut self) -> (r: (bool, Ghost<nat>))
        ensures
            r.1@ <= READY_POLLS + 1,
            final(self).log() == old(self).log() + wait::<E>(r.1@),
            r.0 == (r.1@ <= READY_POLLS),
    {
        let mut lows: u32 = 0;
        let ghost start = self.log@;
        assert(self.log@ =~= start + Seq::new(0nat, |i: int| Event::<E>::Ready(Level::Low)));
        loop
            invariant
                lows <= READY_POLLS,
                start == old(self).log(),
                self.log@ == start + Seq::new(lows as nat, |i: int| Event::<E>::Ready(Level::Low)),
            decreases READY_POLLS - lows,
        {
            if !self.ready_is_low() {
                assert(self.log@ =~= start + wait::<E>(lows as nat));
                return (true, Ghost(lows as nat));
            }
            if lows == READY_POLLS {
                assert(self.log@ =~= start + wait::<E>((lows + 1) as nat));
                return (false, Ghost((lows + 1) as nat));
            }
            assert(self.log@ =~= start + Seq::new(
                (lows + 1) as nat,
                |i: int| Event::<E>::Ready(Level::Low),
            ));
            lows += 1;
        }
    }

    /// One exchange: sends the frame and returns the application payload of
    /// the sensor's answer.
    fn link(&mut self, transport: Vec<u8>) -> (r: Result<Vec<u8>, Error<E>>)
        requires
            fits_one_frame(transport@),
        ensures
            final(self).follows(*old(self)),
            is_exchange(transport@, final(self).since(*old(self)), bytes_of(r)),
    {
        let ghost frame = transport@;
        let ghost start = self.log@;
        let ghost none = Ok::<Seq<u8>, E>(Seq::empty());
        let ghost mut x = Transcript::<E> {
            request: none,
            lows_before_ack: 0,
            ack: none,
            lows_before_header: 0,
            header: none,
            body: none,
            closing: none,
        };
        proof {
            reveal(is_exchange);
            reveal_with_fuel(events_from, 8);
            reveal_with_fuel(result_from, 8);
        }
        let wire = finalise(transport);

        let (sent, Ghost(reply)) = self.transfer(wire);
        proof {
            x.request = reply;
        }
        if let Err(e) = sent {
            assert(self.log@.skip(start.len() as int) =~= events_from(frame, x, Stage::Request));
            assert(result_from(frame, x, Stage::Request) == Err::<Seq<u8>, Error<E>>(e));
            return Err(e);
        }
        let (ready, Ghost(lows)) = self.await_ready();
        proof {
            x.lows_before_ack = lows;
        }
        if !ready {
            assert(self.log@.skip(start.len() as int) =~= events_from(frame, x, Stage::Request));
            return Err(Error::Timeout);
        }
        let (ack, Ghost(reply)) = self.transfer(zero_bytes(4));
        proof {
            x.ack = reply;
        }
        let ack = match ack {
            Ok(ack) => ack,
            Err(e) => {
                assert(self.log@.skip(start.len() as int) =~= events_from(frame, x, Stage::Request));
                return Err(e);
            },
        };
        if !is_ack(ack.as_slice()) {
            assert(self.log@.skip(start.len() as int) =~= events_from(frame, x, Stage::Request));
            return Err(Error::UnexpectedResponse);
        }
        let (ready, Ghost(lows)) = self.await_ready();
        proof {
            x.lows_before_header = lows;
        }
        if !ready {
            assert(self.log@.skip(start.len() as int) =~= events_from(frame, x, Stage::Request));
            return Err(Error::Timeout);
        }
        let (header, Ghost(reply)) = self.transfer(zero_bytes(4));
        proof {
            x.header = reply;
        }
        let header = match header {
            Ok(header) => header,
            Err(e) => {
                assert(self.log@.skip(start.len() as int) =~= events_from(frame, x, Stage::Request));
                return Err(e);
            },
        };
        let transportsize: usize = body_length(header.as_slice());
        let (body, Ghost(reply)) = self.transfer(zero_bytes(transportsize));
        proof {
            x.body = reply;
        }
        let body = match body {
            Ok(body) => body,
            Err(e) => {
                assert(self.log@.skip(start.len() as int) =~= events_from(frame, x, Stage::Request));
                return Err(e);
            },
        };
        if !crc_verifies(body.as_slice()) {
            assert(self.log@.skip(start.len() as int) =~= events_from(frame, x, Stage::Request));
            return Err(Error::CRCError);
        }
        let (closing, Ghost(reply)) = self.transfer(ack_bytes());
        proof {
            x.closing = reply;
            assert(self.log@.skip(start.len() as int) =~= events_from(frame, x, Stage::Request));
        }
        if let Err(e) = closing {
            return Err(e);
        }
        body_payload(body)
    }

    /// Asks for the sensor's version text.
    pub fn get_version(&mut self) -> (r: Result<Vec<u8>, Error<E>>)
        ensures
            final(self).follows(*old(self)),
            is_get_version(final(self).since(*old(self)), bytes_of(r)),
    {
        proof {
            reveal(is_get_version);
        }
        let resp = match self.link(version_request()) {
            Ok(resp) => resp,
            Err(e) => { return Err(e); },
        };
        read_version(resp.as_slice(), CMD_VERSION)
    }

    /// Captures an image; a `timeout` of zero milliseconds waits without
    /// limit. Returns the sensor's result code.
    pub fn capture(&mut self, timeout: u32) -> (r: Result<u8, Error<E>>)
        ensures
            final(self).follows(*old(self)),
            is_capture(timeout, final(self).since(*old(self)), r),
    {
        proof {
            reveal(is_capture);
        }
        let resp = match self.link(capture_request(timeout)) {
            Ok(resp) => resp,
            Err(e) => { return Err(e); },
        };
        read_code(resp.as_slice(), CMD_CAPTURE)
    }

    /// Drives the enrolment session to `state`; zero names no stage.
    /// Returns the number of images still wanted.
    pub fn do_enroll(&mut self, state: u16) -> (r: Result<u32, Error<E>>)
        ensures
            final(self).follows(*old(self)),
            is_do_enroll(state, final(self).since(*old(self)), r),
    {
        proof {
            reveal(is_do_enroll);
        }
        let resp = match self.link(enroll_request(state)) {
            Ok(resp) => resp,
            Err(e) => { return Err(e); },
        };
        read_remaining(resp.as_slice(), CMD_ENROLL)
    }

    /// Saves the template just enrolled under `tplid`. Returns zero.
    pub fn do_savetemplate(&mut self, tplid: u16) -> (r: Result<u32, Error<E>>)
        ensures
            final(self).follows(*old(self)),
            is_do_savetemplate(tplid, final(self).since(*old(self)), r),
    {
        proof {
            reveal(is_do_savetemplate);
        }
        let resp = match self.link(save_request(tplid)) {
            Ok(resp) => resp,
            Err(e) => { return Err(e); },
        };
        read_done(resp.as_slice(), CMD_TEMPLATE)
    }

    /// Asks how many templates the sensor stores.
    pub fn get_template_count(&mut self) -> (r: Result<u32, Error<E>>)
        ensures
            final(self).follows(*old(self)),
            is_get_template_count(final(self).since(*old(self)), r),
    {
        proof {
            reveal(is_get_template_count);
        }
        let resp = match self.link(count_request()) {
            Ok(resp) => resp,
            Err(e) => { return Err(e); },
        };
        read_count(resp.as_slice(), CMD_STORAGE_TEMPLATE)
    }

    /// Extracts a template from the captured image. Returns the number of
    /// images still wanted.
    pub fn do_extract(&mut self) -> (r: Result<u32, Error<E>>)
        ensures
            final(self).follows(*old(self)),
            is_do_extract(final(self).since(*old(self)), r),
    {
        proof {
            reveal(is_do_extract);
        }
        let resp = match self.link(extract_request()) {
            Ok(resp) => resp,
            Err(e) => { return Err(e); },
        };
        read_remaining(resp.as_slice(), CMD_EXTRACT)
    }

    /// Matches the extracted template against the stored ones. Returns the
    /// id of the template that matched.
    pub fn do_identify(&mut self) -> (r: Result<u32, Error<E>>)
        ensures
            final(self).follows(*old(self)),
            is_do_identify(final(self).since(*old(self)), r),
    {
        proof {
            reveal(is_do_identify);
        }
        let resp = match self.link(identify_request()) {
            Ok(resp) => resp,
            Err(e) => { return Err(e); },
        };
        read_identity(resp.as_slice(), CMD_IDENTIFY)
    }

    /// Waits until the finger is lifted; a `timeout` of zero milliseconds
    /// waits without limit. Returns the sensor's result code.
    pub fn waitfingerup(&mut self, timeout: u32) -> (r: Result<u8, Error<E>>)
        ensures
            final(self).follows(*old(self)),
            is_waitfingerup(timeout, final(self).since(*old(self)), r),
    {
        proof {
            reveal(is_waitfingerup);
        }
        let resp = match self.link(finger_up_request(timeout)) {
            Ok(resp) => resp,
            Err(e) => { return Err(e); },
        };
        read_code(resp.as_slice(), CMD_WAIT)
    }

    /// Deletes every stored template. Returns the sensor's result code.
    pub fn delete_all(&mut self) -> (r: Result<u8, Error<E>>)
        ensures
            final(self).follows(*old(self)),
            is_delete_all(final(self).since(*old(self)), r),
    {
        proof {
            reveal(is_delete_all);
        }
        let resp = match self.link(delete_all_request()) {
            Ok(resp) => resp,
            Err(e) => { return Err(e); },
        };
        read_code(resp.as_slice(), CMD_STORAGE_TEMPLATE)
    }

    /// Captures an image, extracts a template from it and matches it.
    /// Returns the id of the template that matched.
    pub fn identify(&mut self) -> (r: Result<u32, Error<E>>)
        ensures
            final(self).follows(*old(self)),
            is_identify(final(self).since(*old(self)), r),
    {
        proof {
            reveal(is_identify);
        }
        let ghost l0 = self.log@;
        let r1 = self.capture(0);
        let ghost l1 = self.log@;
        let ghost t1 = l1.skip(l0.len() as int);
        if let Err(e) = r1 {
            return Err(e);
        }
        let r2 = self.do_extract();
        let ghost l2 = self.log@;
        let ghost t2 = l2.skip(l1.len() as int);
        proof {
            assert(l2.skip(l0.len() as int) =~= t1 + t2);
        }
        if let Err(e) = r2 {
            return Err(e);
        }
        let r3 = self.do_identify();
        proof {
            let t3 = self.log@.skip(l2.len() as int);
            assert(self.log@.skip(l0.len() as int) =~= t1 + t2 + t3);
        }
        r3
    }

    /// One round of an enrolment: waits until the finger is lifted, captures
    /// an image and adds it. Returns the number of images still wanted.
    fn enroll_round(&mut self) -> (r: Result<u32, Error<E>>)
        ensures
            final(self).follows(*old(self)),
            is_enroll_round(final(self).since(*old(self)), r),
    {
        proof {
            reveal(is_enroll_round);
        }
        let ghost l0 = self.log@;
        let r1 = self.waitfingerup(0);
        let ghost l1 = self.log@;
        let ghost t1 = l1.skip(l0.len() as int);
        if let Err(e) = r1 {
            return Err(e);
        }
        let r2 = self.capture(0);
        let ghost l2 = self.log@;
        let ghost t2 = l2.skip(l1.len() as int);
        proof {
            assert(l2.skip(l0.len() as int) =~= t1 + t2);
        }
        if let Err(e) = r2 {
            return Err(e);
        }
        let r3 = self.do_enroll(ENROLL_ADD);
        proof {
            let t3 = self.log@.skip(l2.len() as int);
            assert(self.log@.skip(l0.len() as int) =~= t1 + t2 + t3);
        }
        r3
    }

    /// The rounds of an enrolment: takes an image and tells `f` how many are
    /// still wanted, until the sensor wants no more or `ENROLL_ROUNDS`
    /// rounds have passed.
    fn enroll_rounds<F: FnMut(u32)>(&mut self, f: F) -> (r: Result<(), Error<E>>)
        requires
            forall|n: u32| call_requires(f, (n,)),
        ensures
            final(self).follows(*old(self)),
            is_enroll_rounds(final(self).since(*old(self)), r),
    {
        let mut f = f;
        let ghost l0 = self.log@;
        let mut enrolling: u32 = ENROLL_ROUNDS;
        let mut budget: u32 = ENROLL_ROUNDS;
        let mut rounds: Result<(), Error<E>> = Ok(());
        let ghost mut past = Seq::<Round<E>>::empty();
        proof {
            assert(self.log@ =~= l0 + rounds_events(past));
        }
        loop
            invariant_except_break
                rounds == Ok::<(), Error<E>>(()),
                past.len() == 0 ==> enrolling == ENROLL_ROUNDS,
                past.len() > 0 ==> past.last().result == Ok::<u32, Error<E>>(enrolling),
                forall|i: int|
                    0 <= i < past.len() ==> (#[trigger] past[i]).result is Ok && (i < past.len() - 1
                        ==> past[i].result->Ok_0 != 0),
                budget + past.len() == ENROLL_ROUNDS,
            invariant
                past.len() <= ENROLL_ROUNDS,
                self.log@ == l0 + rounds_events(past),
                forall|i: int|
                    0 <= i < past.len() ==> is_enroll_round(
                        (#[trigger] past[i]).events,
                        past[i].result,
                    ),
                forall|n: u32| call_requires(f, (n,)),
            ensures
                rounds_valid(past),
                rounds == rounds_result(past),
            decreases budget,
        {
            if enrolling == 0 {
                break ;
            }
            if budget == 0 {
                rounds = Err(Error::UnexpectedResponse);
                break ;
            }
            let ghost lb = self.log@;
            let round = self.enroll_round();
            let ghost t = self.log@.skip(lb.len() as int);
            let ghost longer = past.push(Round { events: t, result: round });
            proof {
                lemma_split(lb, self.log@);
                assert(longer.drop_last() =~= past);
            }
            match round {
                Err(e) => {
                    proof {
                        assert(self.log@ =~= l0 + rounds_events(longer));
                        past = longer;
                    }
                    rounds = Err(e);
                    break ;
                },
                Ok(next) => {
                    self.progress(&mut f, next);
                    proof {
                        assert(self.log@ =~= l0 + rounds_events(longer));
                        past = longer;
                    }
                    enrolling = next;
                    budget -= 1;
                },
            }
        }
        proof {
            reveal(is_enroll_rounds);
            assert(self.log@.skip(l0.len() as int) =~= rounds_events(past));
        }
        rounds
    }

    /// Enrols a finger: counts the stored templates, begins a session, takes
    /// images until the sensor wants no more, closes the session and saves
    /// the template under the id after the count. `f` is told
    /// `ENROLL_ROUNDS` before the session begins and, after each image, the
    /// number of images that the sensor still wants. Returns zero.
    pub fn enroll<F: FnMut(u32)>(&mut self, f: F) -> (r: Result<u32, Error<E>>)
        requires
            forall|n: u32| call_requires(f, (n,)),
        ensures
            final(self).follows(*old(self)),
            is_enroll(final(self).since(*old(self)), r),
    {
        proof {
            reveal(is_enroll);
        }
        let mut f = f;
        let ghost l0 = self.log@;
        let count = match self.get_template_count() {
            Ok(count) => count,
            Err(e) => { return Err(e); },
        };
        let ghost l1 = self.log@;
        let ghost t1 = l1.skip(l0.len() as int);
        let next_template_id: u16 = id_after(count);
        self.progress(&mut f, ENROLL_ROUNDS);
        let ghost la = self.log@;
        let begun = self.do_enroll(ENROLL_BEGIN);
        let ghost l2 = self.log@;
        let ghost t2 = l2.skip(la.len() as int);
        let ghost head = t1 + seq![Event::<E>::Progress(ENROLL_ROUNDS)] + t2;
        proof {
            lemma_split(l0, l1);
            lemma_split(la, l2);
            assert(l2 =~= l0 + head);
            assert(l2.skip(l0.len() as int) =~= head);
        }
        if let Err(e) = begun {
            return Err(e);
        }
        let rounds = self.enroll_rounds(f);
        let ghost l3 = self.log@;
        let ghost t3 = l3.skip(l2.len() as int);
        proof {
            lemma_split(l2, l3);
            assert(l3 =~= l0 + (head + t3));
            assert(l3.skip(l0.len() as int) =~= head + t3);
        }
        if let Err(e) = rounds {
            return Err(e);
        }
        let closed = self.do_enroll(ENROLL_DONE);
        let ghost l4 = self.log@;
        let ghost t4 = l4.skip(l3.len() as int);
        proof {
            lemma_split(l3, l4);
            assert(l4 =~= l0 + (head + t3 + t4));
            assert(l4.skip(l0.len() as int) =~= head + t3 + t4);
        }
        if let Err(e) = closed {
            return Err(e);
        }
        let saved = self.do_savetemplate(next_template_id);
        proof {
            let t5 = self.log@.skip(l4.len() as int);
            reveal(is_do_savetemplate);
            lemma_split(l4, self.log@);
            assert(self.log@ =~= l0 + (head + t3 + t4 + t5));
            assert(self.log@.skip(l0.len() as int) =~= head + t3 + t4 + t5);
        }
        match saved {
            Ok(_) => Ok(0),
            Err(e) => Err(e),
        }
    }
}

} // verus!
