//! What holds of every frame, every payload and every exchange.

use crate::codec::{crc32_ieee, le16, le32, le_value, lemma_le32_value, u16_le};
use crate::commands::{
    answered, carries, code_reply, count_reply, done_reply, identity_reply, last_number,
    lemma_last_of_carries, numbers, remaining_reply, version_reply,
};
use crate::error::Error;
use crate::exchange::{
    ack_magic, body_size, burst, crc_ok, events_from, heard, is_exchange, result_from, single_frame,
    stage_error, stages_left, wait, zeros, Event, Level, Stage, Transcript, READY_POLLS,
};
use crate::payload::{
    app_payload, args_at, encodable, parse_args, tlv, tlv_bytes, tlvs, Arg, ARG_MATCH, ARG_RESULT,
};
use crate::script::{
    is_capture, is_delete_all, is_do_enroll, is_do_extract, is_do_identify, is_do_savetemplate,
    is_get_template_count, is_get_version, is_waitfingerup,
};
use crate::transport::{finalised, fits_one_frame, request_frame, sized};
use vstd::prelude::*;

verus! {

/// In every frame that goes out, the length at offset 2 is the length at
/// offset 4 and six more, and both have a zero high byte.
pub proof fn law_frame_lengths(buf: Seq<u8>)
    requires
        fits_one_frame(buf),
    ensures
        finalised(buf)[2] == finalised(buf)[4] + 6,
        finalised(buf)[3] == 0,
        finalised(buf)[5] == 0,
        finalised(buf)[4] == buf.len() - 10,
{
}

/// In every frame that goes out, the last four bytes are the CRC-32 of all
/// that stands between offset 4 and them.
pub proof fn law_frame_crc(buf: Seq<u8>)
    requires
        fits_one_frame(buf),
    ensures
        ({
            let wire = finalised(buf);
            crc32_ieee(wire.subrange(4, wire.len() - 4)) == le_value(
                wire.subrange(wire.len() - 4, wire.len() as int),
            )
        }),
{
    let wire = finalised(buf);
    let crc = crc32_ieee(sized(buf).skip(4));
    assert(wire.subrange(4, wire.len() - 4) =~= sized(buf).skip(4));
    assert(wire.subrange(wire.len() - 4, wire.len() as int) =~= le32(crc));
    lemma_le32_value(crc);
}

/// A 16-bit field reads back as the number that was written.
pub proof fn lemma_le16_reads_back(v: u16)
    ensures
        u16_le(le16(v)[1], le16(v)[0]) == v,
{
}

/// The bytes of a run of arguments are a header of four bytes and the value
/// for each.
pub proof fn lemma_tlvs_len(args: Seq<Arg>)
    ensures
        tlvs(args).len() == tlv_bytes(args),
    decreases args.len(),
{
    if args.len() > 0 {
        lemma_tlvs_len(args.skip(1));
    }
}

/// Arguments that stand at an offset of a payload are read from there.
proof fn lemma_args_at_reads(payload: Seq<u8>, at: int, args: Seq<Arg>)
    requires
        0 <= at,
        at + tlvs(args).len() <= payload.len(),
        payload.subrange(at, at + tlvs(args).len()) == tlvs(args),
        forall|i: int| 0 <= i < args.len() ==> (#[trigger] args[i]).value.len() <= 0xFFFF,
    ensures
        args_at(payload, at, args.len()) == Some(args),
    decreases args.len(),
{
    if args.len() == 0 {
        assert(args =~= Seq::<Arg>::empty());
    } else {
        let first = args[0];
        let rest = args.skip(1);
        let len = first.value.len() as int;
        let here = payload.subrange(at, at + tlvs(args).len());
        assert(tlvs(args) == tlv(first) + tlvs(rest));
        assert(tlv(first).len() == 4 + len);
        assert(payload[at] == le16(first.tag)[0]) by {
            assert(here[0] == tlv(first)[0]);
        }
        assert(payload[at + 1] == le16(first.tag)[1]) by {
            assert(here[1] == tlv(first)[1]);
        }
        assert(payload[at + 2] == le16(len as u16)[0]) by {
            assert(here[2] == tlv(first)[2]);
        }
        assert(payload[at + 3] == le16(len as u16)[1]) by {
            assert(here[3] == tlv(first)[3]);
        }
        lemma_le16_reads_back(first.tag);
        lemma_le16_reads_back(len as u16);
        assert(payload.subrange(at + 4, at + 4 + len) =~= first.value) by {
            assert forall|k: int| 0 <= k < len implies payload[at + 4 + k] == first.value[k] by {
                assert(here[4 + k] == tlv(first)[4 + k]);
                assert(tlv(first)[4 + k] == first.value[k]);
            }
        }
        assert(payload.subrange(at + 4 + len, at + 4 + len + tlvs(rest).len()) =~= tlvs(rest)) by {
            assert forall|k: int| 0 <= k < tlvs(rest).len() implies payload[at + 4 + len + k]
                == tlvs(rest)[k] by {
                assert(here[4 + len + k] == tlvs(args)[4 + len + k]);
            }
        }
        assert forall|i: int| 0 <= i < rest.len() implies (#[trigger] rest[i]).value.len()
            <= 0xFFFF by {
            assert(rest[i] == args[i + 1]);
        }
        lemma_args_at_reads(payload, at + 4 + len, rest);
        assert(seq![first] + rest =~= args);
    }
}

/// Arguments that were read from an offset of a payload stand there, within
/// its bounds.
proof fn lemma_args_at_stand(payload: Seq<u8>, at: int, count: nat)
    requires
        0 <= at,
        args_at(payload, at, count) is Some,
    ensures
        ({
            let args = args_at(payload, at, count)->Some_0;
            &&& args.len() == count
            &&& forall|i: int| 0 <= i < args.len() ==> (#[trigger] args[i]).value.len() <= 0xFFFF
            &&& at + tlv_bytes(args) <= payload.len() || count == 0
            &&& count > 0 ==> payload.subrange(at, at + tlv_bytes(args)) == tlvs(args)
            &&& count == 0 ==> tlv_bytes(args) == 0
        }),
    decreases count,
{
    let args = args_at(payload, at, count)->Some_0;
    if count == 0 {
    } else {
        let tag = u16_le(payload[at + 1], payload[at]);
        let len = u16_le(payload[at + 3], payload[at + 2]) as int;
        let first = Arg { tag, value: payload.subrange(at + 4, at + 4 + len) };
        let rest = args_at(payload, at + 4 + len, (count - 1) as nat)->Some_0;
        lemma_args_at_stand(payload, at + 4 + len, (count - 1) as nat);
        assert(args == seq![first] + rest);
        assert(args.skip(1) =~= rest);
        assert(args[0] == first);
        assert forall|i: int| 0 <= i < args.len() implies (#[trigger] args[i]).value.len()
            <= 0xFFFF by {
            if i > 0 {
                assert(args[i] == rest[i - 1]);
            }
        }
        lemma_tlvs_len(rest);
        assert(le16(tag) =~= seq![payload[at], payload[at + 1]]);
        assert(le16(len as u16) =~= seq![payload[at + 2], payload[at + 3]]);
        assert(tlv_bytes(args) == 4 + len + tlv_bytes(rest));
        if count == 1 {
            assert(rest =~= Seq::<Arg>::empty());
            assert(tlvs(rest) =~= Seq::<u8>::empty());
        }
        assert(payload.subrange(at, at + tlv_bytes(args)) =~= tlv(first) + tlvs(rest));
    }
}

/// The arguments that are read from a payload stand at its start, behind the
/// command and their count, and do not reach past its end: the command, the
/// count, and a header of four bytes and the value for each make the bytes
/// that were read.
pub proof fn law_parsed_span(payload: Seq<u8>, cmd: u16)
    requires
        parse_args(payload, cmd) is Some,
    ensures
        ({
            let args = parse_args(payload, cmd)->Some_0;
            &&& encodable(args)
            &&& 4 + tlv_bytes(args) <= payload.len()
            &&& payload.take(4 + tlv_bytes(args) as int) == app_payload(cmd, args)
        }),
{
    let args = parse_args(payload, cmd)->Some_0;
    let count = u16_le(payload[3], payload[2]) as nat;
    lemma_args_at_stand(payload, 4, count);
    lemma_tlvs_len(args);
    assert(le16(cmd) =~= seq![payload[0], payload[1]]);
    assert(le16(count as u16) =~= seq![payload[2], payload[3]]);
    if count == 0 {
        assert(args =~= Seq::<Arg>::empty());
        assert(payload.take(4) =~= app_payload(cmd, args));
    } else {
        assert(payload.take(4 + tlv_bytes(args) as int) =~= le16(cmd) + le16(count as u16)
            + payload.subrange(4, 4 + tlv_bytes(args) as int));
    }
}

/// A payload that was made of a command and arguments, whatever follows it,
/// reads back as those arguments; and where four bytes follow it, as a CRC
/// does, the command, the count, and a header of four bytes and the value
/// for each argument make all of the payload before them.
pub proof fn law_payload_reads_back(cmd: u16, args: Seq<Arg>, tail: Seq<u8>)
    requires
        encodable(args),
        app_payload(cmd, args).len() + tail.len() >= 6,
    ensures
        parse_args(app_payload(cmd, args) + tail, cmd) == Some(args),
        4 + tlv_bytes(args) == (app_payload(cmd, args) + tail).len() - tail.len(),
{
    let payload = app_payload(cmd, args) + tail;
    lemma_tlvs_len(args);
    lemma_le16_reads_back(cmd);
    lemma_le16_reads_back(args.len() as u16);
    assert(payload[0] == le16(cmd)[0] && payload[1] == le16(cmd)[1]);
    assert(payload[2] == le16(args.len() as u16)[0] && payload[3] == le16(args.len() as u16)[1]);
    assert(payload.subrange(4, 4 + tlvs(args).len() as int) =~= tlvs(args));
    lemma_args_at_reads(payload, 4, args);
}

/// A request, read as if it were the sensor's answer, is accepted and gives
/// back its arguments: its CRC is good, it is a frame of its own, and its
/// payload reads back as the arguments it was made of.
pub proof fn law_request_reads_back(cmd: u16, args: Seq<Arg>)
    requires
        encodable(args),
        fits_one_frame(request_frame(cmd, args)),
    ensures
        ({
            let body = finalised(request_frame(cmd, args)).skip(4);
            &&& crc_ok(body)
            &&& single_frame(body)
            &&& parse_args(body.skip(6), cmd) == Some(args)
        }),
{
    let frame = request_frame(cmd, args);
    let wire = finalised(frame);
    let body = wire.skip(4);
    let crc = crc32_ieee(sized(frame).skip(4));
    assert(body.take(body.len() - 4) =~= sized(frame).skip(4));
    assert(body.skip(body.len() - 4) =~= le32(crc));
    lemma_le32_value(crc);
    assert(body.skip(6) =~= app_payload(cmd, args) + le32(crc));
    law_payload_reads_back(cmd, args, le32(crc));
}

/// Every answer that is read with success holds the sensor's verdict, and
/// the walk over its arguments came upon it.
pub proof fn law_success_holds_verdict<E>(payload: Seq<u8>, cmd: u16)
    ensures
        version_reply::<E>(payload, cmd) is Ok ==> answered(payload, cmd),
        code_reply::<E>(payload, cmd) is Ok ==> answered(payload, cmd),
        remaining_reply::<E>(payload, cmd) is Ok ==> answered(payload, cmd),
        count_reply::<E>(payload, cmd) is Ok ==> answered(payload, cmd),
        done_reply::<E>(payload, cmd) is Ok ==> answered(payload, cmd),
        identity_reply::<E>(payload, cmd) is Ok ==> answered(payload, cmd),
{
    if parse_args(payload, cmd) is Some {
        lemma_last_of_carries(parse_args(payload, cmd)->Some_0, ARG_RESULT);
    }
}

/// An identify answer whose last word on the match is a zero is read as
/// `NoMatch`, whatever verdict or id it holds or lacks; so it is never taken
/// for a match without an id, which is a success.
pub proof fn law_no_match<E>(payload: Seq<u8>, cmd: u16)
    requires
        parse_args(payload, cmd) is Some,
        numbers(parse_args(payload, cmd)->Some_0, ARG_MATCH),
        last_number(parse_args(payload, cmd)->Some_0, ARG_MATCH) == Some(0u32),
    ensures
        identity_reply::<E>(payload, cmd) == Err::<u32, Error<E>>(Error::NoMatch),
{
}

/// An identify answer that holds neither the sensor's verdict nor a word on
/// the match is a protocol error, and one that is read as a match holds
/// both, the word on the match not a zero.
pub proof fn law_match_needs_verdict<E>(payload: Seq<u8>, cmd: u16)
    requires
        parse_args(payload, cmd) is Some,
    ensures
        !carries(parse_args(payload, cmd)->Some_0, ARG_RESULT) && !carries(
            parse_args(payload, cmd)->Some_0,
            ARG_MATCH,
        ) ==> identity_reply::<E>(payload, cmd) == Err::<u32, Error<E>>(Error::UnexpectedResponse),
        identity_reply::<E>(payload, cmd) is Ok ==> carries(
            parse_args(payload, cmd)->Some_0,
            ARG_RESULT,
        ) && last_number(parse_args(payload, cmd)->Some_0, ARG_MATCH) is Some && last_number(
            parse_args(payload, cmd)->Some_0,
            ARG_MATCH,
        ) != Some(0u32),
{
    lemma_last_of_carries(parse_args(payload, cmd)->Some_0, ARG_MATCH);
}

/// Whether an exchange gets as far as the given stage: no stage before it
/// ends the exchange.
pub open spec fn reaches<E>(frame: Seq<u8>, x: Transcript<E>, at: Stage) -> bool {
    forall|s: Stage|
        stages_left(s) > stages_left(at) ==> (#[trigger] stage_error(frame, x, s)) is None
}

/// An exchange that gets as far as a stage ends as it ends from there.
pub proof fn lemma_result_from_stage<E>(frame: Seq<u8>, x: Transcript<E>, at: Stage)
    requires
        reaches(frame, x, at),
    ensures
        result_from(frame, x, Stage::Request) == result_from(frame, x, at),
{
    reveal_with_fuel(result_from, 8);
    assert(stage_error(frame, x, Stage::Request) is None || stages_left(at) >= 7);
    assert(stage_error(frame, x, Stage::AwaitAck) is None || stages_left(at) >= 6);
    assert(stage_error(frame, x, Stage::Ack) is None || stages_left(at) >= 5);
    assert(stage_error(frame, x, Stage::AwaitHeader) is None || stages_left(at) >= 4);
    assert(stage_error(frame, x, Stage::Header) is None || stages_left(at) >= 3);
    assert(stage_error(frame, x, Stage::Body) is None || stages_left(at) >= 2);
    assert(stage_error(frame, x, Stage::Closing) is None || stages_left(at) >= 1);
}

/// A ready line that is found low more than `READY_POLLS` times before the
/// acknowledgement ends the exchange with `Timeout`.
pub proof fn law_stuck_ready_line<E>(frame: Seq<u8>, x: Transcript<E>)
    requires
        reaches(frame, x, Stage::AwaitAck),
        x.lows_before_ack > READY_POLLS,
    ensures
        result_from(frame, x, Stage::Request) == Err::<Seq<u8>, Error<E>>(Error::Timeout),
{
    lemma_result_from_stage(frame, x, Stage::AwaitAck);
}

/// Four bytes that are not the acknowledgement, where it is due, end the
/// exchange with `UnexpectedResponse`.
pub proof fn law_missing_ack<E>(frame: Seq<u8>, x: Transcript<E>)
    requires
        reaches(frame, x, Stage::Ack),
        heard(zeros(4), x.ack) is Ok,
        heard(zeros(4), x.ack)->Ok_0 != ack_magic(),
    ensures
        result_from(frame, x, Stage::Request) == Err::<Seq<u8>, Error<E>>(
            Error::UnexpectedResponse,
        ),
{
    lemma_result_from_stage(frame, x, Stage::Ack);
}

/// A body whose last four bytes are not the CRC-32 of the bytes before them
/// ends the exchange with `CRCError`.
pub proof fn law_bad_crc<E>(frame: Seq<u8>, x: Transcript<E>)
    requires
        reaches(frame, x, Stage::Body),
        heard(zeros(body_size(x.header->Ok_0)), x.body) is Ok,
        !crc_ok(x.body->Ok_0),
    ensures
        result_from(frame, x, Stage::Request) == Err::<Seq<u8>, Error<E>>(Error::CRCError),
{
    lemma_result_from_stage(frame, x, Stage::Body);
}

/// A body whose sequence number is not its sequence length, which says that
/// more frames belong to the answer, ends the exchange with
/// `UnexpectedResponse`, once it is acknowledged.
pub proof fn law_multi_frame<E>(frame: Seq<u8>, x: Transcript<E>)
    requires
        reaches(frame, x, Stage::Closing),
        heard(ack_magic(), x.closing) is Ok,
        !single_frame(x.body->Ok_0),
    ensures
        result_from(frame, x, Stage::Request) == Err::<Seq<u8>, Error<E>>(
            Error::UnexpectedResponse,
        ),
{
    lemma_result_from_stage(frame, x, Stage::Closing);
}

/// An exchange in which no stage fails returns all of the body that follows
/// its sequence fields.
pub proof fn law_good_exchange<E>(frame: Seq<u8>, x: Transcript<E>)
    requires
        reaches(frame, x, Stage::Done),
    ensures
        result_from(frame, x, Stage::Request) == Ok::<Seq<u8>, Error<E>>(x.body->Ok_0.skip(6)),
{
    lemma_result_from_stage(frame, x, Stage::Done);
}

/// Told over the events alone: an exchange in which the request went out
/// and the ready line was then found low `READY_POLLS + 1` times in a row
/// ends there with `Timeout`. The request is its one transfer, and chip
/// select was left high.
pub proof fn law_exchange_times_out<E>(
    frame: Seq<u8>,
    events: Seq<Event<E>>,
    result: Result<Seq<u8>, Error<E>>,
)
    requires
        is_exchange(frame, events, result),
        events.len() >= 4 + READY_POLLS,
        forall|i: int| 3 <= i < 4 + READY_POLLS ==> events[i] == Event::<E>::Ready(Level::Low),
    ensures
        result == Err::<Seq<u8>, Error<E>>(Error::Timeout),
        events.len() == 4 + READY_POLLS,
        events[0] == Event::<E>::ChipSelect(Level::Low),
        events[1] is Transfer && events[1]->sent == finalised(frame),
        events[2] == Event::<E>::ChipSelect(Level::High),
{
    reveal(is_exchange);
    reveal_with_fuel(events_from, 8);
    reveal_with_fuel(result_from, 8);
    let x = choose|x: Transcript<E>|
        x.lows_before_ack <= READY_POLLS + 1 && x.lows_before_header <= READY_POLLS + 1
            && #[trigger] events_from(frame, x, Stage::Request) == events && result_from(
            frame,
            x,
            Stage::Request,
        ) == result;
    let sent = burst(finalised(frame), x.request);
    if stage_error(frame, x, Stage::Request) is Some {
        assert(events == sent);
        assert(false);
    }
    let lows = x.lows_before_ack;
    let after = events_from(frame, x, Stage::Ack);
    if lows <= READY_POLLS {
        assert(events == sent + (wait::<E>(lows) + after));
        assert(events[3 + lows as int] == wait::<E>(lows)[lows as int]);
        assert(false);
    }
    assert(events == sent + wait::<E>(lows));
}

/// Told over the events alone: a command in whose exchange the request went
/// out and the ready line was then found low `READY_POLLS + 1` times in a
/// row returns `Timeout`.
pub proof fn law_commands_time_out<E>(
    timeout: u32,
    state: u16,
    tplid: u16,
    events: Seq<Event<E>>,
    text: Result<Seq<u8>, Error<E>>,
    code: Result<u8, Error<E>>,
    count: Result<u32, Error<E>>,
)
    requires
        events.len() >= 4 + READY_POLLS,
        forall|i: int| 3 <= i < 4 + READY_POLLS ==> events[i] == Event::<E>::Ready(Level::Low),
    ensures
        is_get_version(events, text) ==> text == Err::<Seq<u8>, Error<E>>(Error::Timeout),
        is_capture(timeout, events, code) ==> code == Err::<u8, Error<E>>(Error::Timeout),
        is_waitfingerup(timeout, events, code) ==> code == Err::<u8, Error<E>>(Error::Timeout),
        is_delete_all(events, code) ==> code == Err::<u8, Error<E>>(Error::Timeout),
        is_do_enroll(state, events, count) ==> count == Err::<u32, Error<E>>(Error::Timeout),
        is_do_extract(events, count) ==> count == Err::<u32, Error<E>>(Error::Timeout),
        is_do_identify(events, count) ==> count == Err::<u32, Error<E>>(Error::Timeout),
        is_do_savetemplate(tplid, events, count) ==> count == Err::<u32, Error<E>>(Error::Timeout),
        is_get_template_count(events, count) ==> count == Err::<u32, Error<E>>(Error::Timeout),
{
    reveal(is_get_version);
    reveal(is_capture);
    reveal(is_do_enroll);
    reveal(is_do_extract);
    reveal(is_do_identify);
    reveal(is_do_savetemplate);
    reveal(is_get_template_count);
    reveal(is_waitfingerup);
    reveal(is_delete_all);
    assert forall|frame: Seq<u8>, reply: Result<Seq<u8>, Error<E>>| #[trigger]
        is_exchange(frame, events, reply) implies reply == Err::<Seq<u8>, Error<E>>(
        Error::Timeout,
    ) by {
        law_exchange_times_out(frame, events, reply);
    }
}

} // verus!
