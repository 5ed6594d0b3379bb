//! What the events of an operation settle: where it ends, what it returns,
//! and what the progress callback is told.

use crate::commands::{
    capture_frame, code_reply, count_frame, count_reply, delete_all_frame, done_reply, enroll_frame,
    extract_frame, finger_up_frame, identify_frame, identity_reply, last_number, numbers,
    remaining_reply, save_frame, version_frame, version_reply, CMD_CAPTURE, CMD_ENROLL,
    CMD_EXTRACT, CMD_IDENTIFY, CMD_STORAGE_TEMPLATE, CMD_TEMPLATE, CMD_VERSION, CMD_WAIT,
    ENROLL_ADD, ENROLL_BEGIN, ENROLL_DONE,
};
use crate::error::Error;
use crate::exchange::{
    ack_magic, body_size, burst, events_from, is_exchange, next_stage, result_from, stage_error,
    stage_events, stages_left, wait, zeros, Event, Stage, Transcript, READY_POLLS,
};
use crate::laws::law_no_match;
use crate::payload::{parse_args, ARG_MATCH};
use crate::script::{
    enroll_after_begin, enroll_after_count, enroll_after_done, enroll_after_rounds, is_capture,
    is_delete_all, is_do_enroll, is_do_extract, is_do_identify, is_do_savetemplate, is_enroll,
    is_enroll_round, is_enroll_rounds, is_get_template_count, is_get_version, is_identify,
    is_waitfingerup, next_id, progress_told, round_events, rounds_events, rounds_result,
    rounds_valid, Round, ENROLL_ROUNDS,
};
use crate::transport::finalised;
use vstd::prelude::*;

verus! {

/// Whether two transcripts say the same of what the stages from `at` on
/// look back to: the header, from the body on; the body, from its
/// acknowledgement on.
pub open spec fn agree<E>(x: Transcript<E>, y: Transcript<E>, at: Stage) -> bool {
    &&& stages_left(at) <= 2 ==> x.header == y.header
    &&& stages_left(at) <= 1 ==> x.body == y.body
}

/// Two waits with the same events found the line low equally often.
proof fn lemma_wait_determined<E>(a: nat, b: nat, rest_a: Seq<Event<E>>, rest_b: Seq<Event<E>>)
    requires
        a <= READY_POLLS + 1,
        b <= READY_POLLS + 1,
        wait::<E>(a) + rest_a == wait::<E>(b) + rest_b,
    ensures
        a == b,
        rest_a == rest_b,
{
    let ea = wait::<E>(a) + rest_a;
    let eb = wait::<E>(b) + rest_b;
    if a < b {
        assert(ea[a as int] == wait::<E>(a)[a as int]);
        assert(eb[a as int] == wait::<E>(b)[a as int]);
        assert(false);
    }
    if b < a {
        assert(eb[b as int] == wait::<E>(b)[b as int]);
        assert(ea[b as int] == wait::<E>(a)[b as int]);
        assert(false);
    }
    assert(rest_a =~= ea.skip(wait::<E>(a).len() as int));
    assert(rest_b =~= eb.skip(wait::<E>(b).len() as int));
}

/// Two transfers of the same bytes with the same events had the same reply.
proof fn lemma_burst_determined<E>(
    sent: Seq<u8>,
    a: Result<Seq<u8>, E>,
    b: Result<Seq<u8>, E>,
    rest_a: Seq<Event<E>>,
    rest_b: Seq<Event<E>>,
)
    requires
        burst(sent, a) + rest_a == burst(sent, b) + rest_b,
    ensures
        a == b,
        rest_a == rest_b,
{
    let ea = burst(sent, a) + rest_a;
    let eb = burst(sent, b) + rest_b;
    assert(ea[1] == burst(sent, a)[1]);
    assert(eb[1] == burst(sent, b)[1]);
    assert(rest_a =~= ea.skip(burst(sent, a).len() as int));
    assert(rest_b =~= eb.skip(burst(sent, b).len() as int));
}

/// From any stage on, the events of an exchange say where they end and how:
/// where two transcripts, each followed by events of whatever kind, make the
/// same run of events, their own events, their results and what follows
/// them are the same.
proof fn lemma_stages_delimited<E>(
    frame: Seq<u8>,
    x: Transcript<E>,
    y: Transcript<E>,
    at: Stage,
    tail_x: Seq<Event<E>>,
    tail_y: Seq<Event<E>>,
)
    requires
        x.lows_before_ack <= READY_POLLS + 1,
        x.lows_before_header <= READY_POLLS + 1,
        y.lows_before_ack <= READY_POLLS + 1,
        y.lows_before_header <= READY_POLLS + 1,
        agree(x, y, at),
        events_from(frame, x, at) + tail_x == events_from(frame, y, at) + tail_y,
    ensures
        result_from(frame, x, at) == result_from(frame, y, at),
        events_from(frame, x, at) == events_from(frame, y, at),
        tail_x == tail_y,
    decreases stages_left(at),
{
    if at is Done {
        assert(events_from(frame, x, at) + tail_x =~= tail_x);
        assert(events_from(frame, y, at) + tail_y =~= tail_y);
    } else {
        let next = next_stage(at);
        let rest_x = if stage_error(frame, x, at) is Some {
            tail_x
        } else {
            events_from(frame, x, next) + tail_x
        };
        let rest_y = if stage_error(frame, y, at) is Some {
            tail_y
        } else {
            events_from(frame, y, next) + tail_y
        };
        assert(events_from(frame, x, at) + tail_x =~= stage_events(frame, x, at) + rest_x);
        assert(events_from(frame, y, at) + tail_y =~= stage_events(frame, y, at) + rest_y);
        match at {
            Stage::Request => {
                lemma_burst_determined(finalised(frame), x.request, y.request, rest_x, rest_y);
            },
            Stage::AwaitAck => {
                lemma_wait_determined(x.lows_before_ack, y.lows_before_ack, rest_x, rest_y);
            },
            Stage::Ack => {
                lemma_burst_determined(zeros(4), x.ack, y.ack, rest_x, rest_y);
            },
            Stage::AwaitHeader => {
                lemma_wait_determined(x.lows_before_header, y.lows_before_header, rest_x, rest_y);
            },
            Stage::Header => {
                lemma_burst_determined(zeros(4), x.header, y.header, rest_x, rest_y);
            },
            Stage::Body => {
                lemma_burst_determined(
                    zeros(body_size(x.header->Ok_0)),
                    x.body,
                    y.body,
                    rest_x,
                    rest_y,
                );
            },
            Stage::Closing => {
                lemma_burst_determined(ack_magic(), x.closing, y.closing, rest_x, rest_y);
            },
            Stage::Done => {},
        }
        if stage_error(frame, x, at) is None {
            lemma_stages_delimited(frame, x, y, next, tail_x, tail_y);
        }
    }
}

/// The events of an exchange say where they end and how: where two
/// exchanges of the same frame, each followed by events of whatever kind,
/// make the same run of events, the exchanges, their results and what
/// follows them are the same.
pub proof fn law_exchange_is_delimited<E>(
    frame: Seq<u8>,
    e1: Seq<Event<E>>,
    r1: Result<Seq<u8>, Error<E>>,
    tail1: Seq<Event<E>>,
    e2: Seq<Event<E>>,
    r2: Result<Seq<u8>, Error<E>>,
    tail2: Seq<Event<E>>,
)
    requires
        is_exchange(frame, e1, r1),
        is_exchange(frame, e2, r2),
        e1 + tail1 == e2 + tail2,
    ensures
        e1 == e2,
        r1 == r2,
        tail1 == tail2,
{
    reveal(is_exchange);
    let x = choose|x: Transcript<E>|
        x.lows_before_ack <= READY_POLLS + 1 && x.lows_before_header <= READY_POLLS + 1
            && #[trigger] events_from(frame, x, Stage::Request) == e1 && result_from(
            frame,
            x,
            Stage::Request,
        ) == r1;
    let y = choose|y: Transcript<E>|
        y.lows_before_ack <= READY_POLLS + 1 && y.lows_before_header <= READY_POLLS + 1
            && #[trigger] events_from(frame, y, Stage::Request) == e2 && result_from(
            frame,
            y,
            Stage::Request,
        ) == r2;
    lemma_stages_delimited(frame, x, y, Stage::Request, tail1, tail2);
}

/// What an exchange returns is settled by its events: the same events of
/// the same frame never go with two results.
pub proof fn law_exchange_is_determined<E>(
    frame: Seq<u8>,
    events: Seq<Event<E>>,
    r1: Result<Seq<u8>, Error<E>>,
    r2: Result<Seq<u8>, Error<E>>,
)
    requires
        is_exchange(frame, events, r1),
        is_exchange(frame, events, r2),
    ensures
        r1 == r2,
{
    let none = Seq::<Event<E>>::empty();
    law_exchange_is_delimited(frame, events, r1, none, events, r2, none);
}

/// The events of a command say where they end and how: where two runs of
/// the same command, each followed by events of whatever kind, make the
/// same run of events, the commands, their results and what follows them
/// are the same. With nothing following: what a command returns is settled
/// by its events.
pub proof fn law_commands_are_delimited<E>(
    timeout: u32,
    state: u16,
    tplid: u16,
    e1: Seq<Event<E>>,
    tail1: Seq<Event<E>>,
    e2: Seq<Event<E>>,
    tail2: Seq<Event<E>>,
    text: (Result<Seq<u8>, Error<E>>, Result<Seq<u8>, Error<E>>),
    code: (Result<u8, Error<E>>, Result<u8, Error<E>>),
    count: (Result<u32, Error<E>>, Result<u32, Error<E>>),
)
    requires
        e1 + tail1 == e2 + tail2,
    ensures
        is_get_version(e1, text.0) && is_get_version(e2, text.1) ==> e1 == e2 && tail1 == tail2
            && text.0 == text.1,
        is_capture(timeout, e1, code.0) && is_capture(timeout, e2, code.1) ==> e1 == e2 && tail1
            == tail2 && code.0 == code.1,
        is_waitfingerup(timeout, e1, code.0) && is_waitfingerup(timeout, e2, code.1) ==> e1 == e2
            && tail1 == tail2 && code.0 == code.1,
        is_delete_all(e1, code.0) && is_delete_all(e2, code.1) ==> e1 == e2 && tail1 == tail2
            && code.0 == code.1,
        is_do_enroll(state, e1, count.0) && is_do_enroll(state, e2, count.1) ==> e1 == e2 && tail1
            == tail2 && count.0 == count.1,
        is_do_extract(e1, count.0) && is_do_extract(e2, count.1) ==> e1 == e2 && tail1 == tail2
            && count.0 == count.1,
        is_do_identify(e1, count.0) && is_do_identify(e2, count.1) ==> e1 == e2 && tail1 == tail2
            && count.0 == count.1,
        is_do_savetemplate(tplid, e1, count.0) && is_do_savetemplate(tplid, e2, count.1) ==> e1
            == e2 && tail1 == tail2 && count.0 == count.1,
        is_get_template_count(e1, count.0) && is_get_template_count(e2, count.1) ==> e1 == e2
            && tail1 == tail2 && count.0 == count.1,
{
    reveal(is_get_version);
    reveal(is_capture);
    reveal(is_do_enroll);
    reveal(is_do_extract);
    reveal(is_do_identify);
    reveal(is_do_savetemplate);
    reveal(is_get_template_count);
    reveal(is_waitfingerup);
    reveal(is_delete_all);
    assert forall|frame: Seq<u8>, a: Result<Seq<u8>, Error<E>>, b: Result<Seq<u8>, Error<E>>|
        #[trigger] is_exchange(frame, e1, a) && #[trigger] is_exchange(
            frame,
            e2,
            b,
        ) implies e1 == e2 && tail1 == tail2 && a == b by {
        law_exchange_is_delimited(frame, e1, a, tail1, e2, b, tail2);
    }
}

/// What `identify` returns is settled by its events.
pub proof fn law_identify_is_determined<E>(
    events: Seq<Event<E>>,
    r1: Result<u32, Error<E>>,
    r2: Result<u32, Error<E>>,
)
    requires
        is_identify(events, r1),
        is_identify(events, r2),
    ensures
        r1 == r2,
{
    reveal(is_identify);
    let none = Seq::<Event<E>>::empty();
    let text = (Err::<Seq<u8>, Error<E>>(Error::Timeout), Err::<Seq<u8>, Error<E>>(Error::Timeout));
    let (a1, c1) = choose|t1: Seq<Event<E>>, c1: Result<u8, Error<E>>| #[trigger]
        is_capture(0, t1, c1) && match c1 {
            Err(e) => events == t1 && r1 == Err::<u32, Error<E>>(e),
            Ok(_) => exists|t2: Seq<Event<E>>, x2: Result<u32, Error<E>>| #[trigger]
                is_do_extract(t2, x2) && match x2 {
                    Err(e) => events == t1 + t2 && r1 == Err::<u32, Error<E>>(e),
                    Ok(_) => exists|t3: Seq<Event<E>>| #[trigger]
                        is_do_identify(t3, r1) && events == t1 + t2 + t3,
                },
        };
    let (b1, d1) = choose|t1: Seq<Event<E>>, c1: Result<u8, Error<E>>| #[trigger]
        is_capture(0, t1, c1) && match c1 {
            Err(e) => events == t1 && r2 == Err::<u32, Error<E>>(e),
            Ok(_) => exists|t2: Seq<Event<E>>, x2: Result<u32, Error<E>>| #[trigger]
                is_do_extract(t2, x2) && match x2 {
                    Err(e) => events == t1 + t2 && r2 == Err::<u32, Error<E>>(e),
                    Ok(_) => exists|t3: Seq<Event<E>>| #[trigger]
                        is_do_identify(t3, r2) && events == t1 + t2 + t3,
                },
        };
    let rest_a = events.skip(a1.len() as int);
    let rest_b = events.skip(b1.len() as int);
    assert(events =~= a1 + rest_a);
    assert(events =~= b1 + rest_b);
    law_commands_are_delimited(0, 0, 0, a1, rest_a, b1, rest_b, text, (c1, d1), (r1, r2));
    if c1 is Ok {
        let (a2, x2) = choose|t2: Seq<Event<E>>, x2: Result<u32, Error<E>>| #[trigger]
            is_do_extract(t2, x2) && match x2 {
                Err(e) => events == a1 + t2 && r1 == Err::<u32, Error<E>>(e),
                Ok(_) => exists|t3: Seq<Event<E>>| #[trigger]
                    is_do_identify(t3, r1) && events == a1 + t2 + t3,
            };
        let (b2, y2) = choose|t2: Seq<Event<E>>, y2: Result<u32, Error<E>>| #[trigger]
            is_do_extract(t2, y2) && match y2 {
                Err(e) => events == b1 + t2 && r2 == Err::<u32, Error<E>>(e),
                Ok(_) => exists|t3: Seq<Event<E>>| #[trigger]
                    is_do_identify(t3, r2) && events == b1 + t2 + t3,
            };
        let after_a = rest_a.skip(a2.len() as int);
        let after_b = rest_b.skip(b2.len() as int);
        assert(rest_a =~= a2 + after_a);
        assert(rest_b =~= b2 + after_b);
        law_commands_are_delimited(
            0,
            0,
            0,
            a2,
            after_a,
            b2,
            after_b,
            text,
            (c1, d1),
            (x2, y2),
        );
        if x2 is Ok {
            let a3 = choose|t3: Seq<Event<E>>| #[trigger]
                is_do_identify(t3, r1) && events == a1 + a2 + t3;
            let b3 = choose|t3: Seq<Event<E>>| #[trigger]
                is_do_identify(t3, r2) && events == b1 + b2 + t3;
            assert(after_a =~= a3);
            assert(after_b =~= b3);
            law_commands_are_delimited(0, 0, 0, a3, none, b3, none, text, (c1, d1), (r1, r2));
        }
    }
}

/// What a reply makes of a result: the reading of the payload, or the error
/// of the exchange.
pub open spec fn read_with<T, E>(
    reply: Result<Seq<u8>, Error<E>>,
    reading: spec_fn(Seq<u8>) -> Result<T, Error<E>>,
) -> Result<T, Error<E>> {
    match reply {
        Ok(payload) => reading(payload),
        Err(e) => Err(e),
    }
}

/// Each command is one exchange of its frame, and returns what its reading
/// makes of the payload or the error with which the exchange ended.
pub proof fn law_commands_read_their_answers<E>(
    timeout: u32,
    state: u16,
    tplid: u16,
    events: Seq<Event<E>>,
    reply: Result<Seq<u8>, Error<E>>,
)
    ensures
        is_exchange(version_frame(), events, reply) ==> is_get_version(
            events,
            read_with(reply, |p: Seq<u8>| version_reply::<E>(p, CMD_VERSION)),
        ),
        is_exchange(capture_frame(timeout), events, reply) ==> is_capture(
            timeout,
            events,
            read_with(reply, |p: Seq<u8>| code_reply::<E>(p, CMD_CAPTURE)),
        ),
        is_exchange(enroll_frame(state), events, reply) ==> is_do_enroll(
            state,
            events,
            read_with(reply, |p: Seq<u8>| remaining_reply::<E>(p, CMD_ENROLL)),
        ),
        is_exchange(extract_frame(), events, reply) ==> is_do_extract(
            events,
            read_with(reply, |p: Seq<u8>| remaining_reply::<E>(p, CMD_EXTRACT)),
        ),
        is_exchange(identify_frame(), events, reply) ==> is_do_identify(
            events,
            read_with(reply, |p: Seq<u8>| identity_reply::<E>(p, CMD_IDENTIFY)),
        ),
        is_exchange(save_frame(tplid), events, reply) ==> is_do_savetemplate(
            tplid,
            events,
            read_with(reply, |p: Seq<u8>| done_reply::<E>(p, CMD_TEMPLATE)),
        ),
        is_exchange(count_frame(), events, reply) ==> is_get_template_count(
            events,
            read_with(reply, |p: Seq<u8>| count_reply::<E>(p, CMD_STORAGE_TEMPLATE)),
        ),
        is_exchange(finger_up_frame(timeout), events, reply) ==> is_waitfingerup(
            timeout,
            events,
            read_with(reply, |p: Seq<u8>| code_reply::<E>(p, CMD_WAIT)),
        ),
        is_exchange(delete_all_frame(), events, reply) ==> is_delete_all(
            events,
            read_with(reply, |p: Seq<u8>| code_reply::<E>(p, CMD_STORAGE_TEMPLATE)),
        ),
{
    reveal(is_get_version);
    reveal(is_capture);
    reveal(is_do_enroll);
    reveal(is_do_extract);
    reveal(is_do_identify);
    reveal(is_do_savetemplate);
    reveal(is_get_template_count);
    reveal(is_waitfingerup);
    reveal(is_delete_all);
}

/// `identify` is a capture, an extraction and an identification, one after
/// the other, and ends with the first of them that fails.
pub proof fn law_identify_runs<E>(
    t1: Seq<Event<E>>,
    r1: Result<u8, Error<E>>,
    t2: Seq<Event<E>>,
    r2: Result<u32, Error<E>>,
    t3: Seq<Event<E>>,
    r3: Result<u32, Error<E>>,
)
    requires
        is_capture(0, t1, r1),
        r1 is Ok ==> is_do_extract(t2, r2),
        r1 is Ok && r2 is Ok ==> is_do_identify(t3, r3),
    ensures
        r1 matches Err(e) ==> is_identify(t1, Err::<u32, Error<E>>(e)),
        r1 is Ok ==> (r2 matches Err(e) ==> is_identify(t1 + t2, Err::<u32, Error<E>>(e))),
        r1 is Ok && r2 is Ok ==> is_identify(t1 + t2 + t3, r3),
{
    reveal(is_identify);
}

/// Where the capture and the extraction of an `identify` went well and the
/// sensor's last word on the match is a zero, `identify` returns `NoMatch`
/// and nothing else.
pub proof fn law_identify_no_match<E>(
    t1: Seq<Event<E>>,
    r1: Result<u8, Error<E>>,
    t2: Seq<Event<E>>,
    r2: Result<u32, Error<E>>,
    t3: Seq<Event<E>>,
    payload: Seq<u8>,
    result: Result<u32, Error<E>>,
)
    requires
        is_capture(0, t1, r1),
        r1 is Ok,
        is_do_extract(t2, r2),
        r2 is Ok,
        is_exchange(identify_frame(), t3, Ok::<Seq<u8>, Error<E>>(payload)),
        parse_args(payload, CMD_IDENTIFY) is Some,
        numbers(parse_args(payload, CMD_IDENTIFY)->Some_0, ARG_MATCH),
        last_number(parse_args(payload, CMD_IDENTIFY)->Some_0, ARG_MATCH) == Some(0u32),
        is_identify(t1 + t2 + t3, result),
    ensures
        result == Err::<u32, Error<E>>(Error::NoMatch),
{
    let none = Err::<u32, Error<E>>(Error::NoMatch);
    law_no_match::<E>(payload, CMD_IDENTIFY);
    law_commands_read_their_answers(0, 0, 0, t3, Ok::<Seq<u8>, Error<E>>(payload));
    assert(is_do_identify(t3, none));
    law_identify_runs(t1, r1, t2, r2, t3, none);
    law_identify_is_determined(t1 + t2 + t3, result, none);
}

/// A round of an enrolment is a wait for the finger to lift, a capture and
/// the adding of the image, one after the other, and ends with the first of
/// them that fails.
pub proof fn law_enroll_round_runs<E>(
    t1: Seq<Event<E>>,
    r1: Result<u8, Error<E>>,
    t2: Seq<Event<E>>,
    r2: Result<u8, Error<E>>,
    t3: Seq<Event<E>>,
    r3: Result<u32, Error<E>>,
)
    requires
        is_waitfingerup(0, t1, r1),
        r1 is Ok ==> is_capture(0, t2, r2),
        r1 is Ok && r2 is Ok ==> is_do_enroll(ENROLL_ADD, t3, r3),
    ensures
        r1 matches Err(e) ==> is_enroll_round(t1, Err::<u32, Error<E>>(e)),
        r1 is Ok ==> (r2 matches Err(e) ==> is_enroll_round(t1 + t2, Err::<u32, Error<E>>(e))),
        r1 is Ok && r2 is Ok ==> is_enroll_round(t1 + t2 + t3, r3),
{
    reveal(is_enroll_round);
}

/// `enroll` is a count of the templates, the progress callback with
/// `ENROLL_ROUNDS`, the beginning of a session, its rounds, its end and the
/// saving of the template under the id after the count, one after the
/// other, and ends with the first of them that fails.
pub proof fn law_enroll_runs<E>(
    t1: Seq<Event<E>>,
    r1: Result<u32, Error<E>>,
    t2: Seq<Event<E>>,
    r2: Result<u32, Error<E>>,
    rounds: Seq<Round<E>>,
    t4: Seq<Event<E>>,
    r4: Result<u32, Error<E>>,
    t5: Seq<Event<E>>,
    r5: Result<u32, Error<E>>,
)
    requires
        is_get_template_count(t1, r1),
        r1 is Ok ==> is_do_enroll(ENROLL_BEGIN, t2, r2),
        r1 is Ok && r2 is Ok ==> rounds_valid(rounds),
        r1 is Ok && r2 is Ok && rounds_result(rounds) is Ok ==> is_do_enroll(ENROLL_DONE, t4, r4),
        r1 is Ok && r2 is Ok && rounds_result(rounds) is Ok && r4 is Ok ==> is_do_savetemplate(
            next_id(r1->Ok_0),
            t5,
            r5,
        ),
    ensures
        ({
            let told = seq![Event::<E>::Progress(ENROLL_ROUNDS)];
            let t3 = rounds_events(rounds);
            let r3 = rounds_result(rounds);
            &&& r1 matches Err(e) ==> is_enroll(t1, Err::<u32, Error<E>>(e))
            &&& r1 is Ok ==> (r2 matches Err(e) ==> is_enroll(
                t1 + told + t2,
                Err::<u32, Error<E>>(e),
            ))
            &&& r1 is Ok && r2 is Ok ==> (r3 matches Err(e) ==> is_enroll(
                t1 + told + t2 + t3,
                Err::<u32, Error<E>>(e),
            ))
            &&& r1 is Ok && r2 is Ok && r3 is Ok ==> (r4 matches Err(e) ==> is_enroll(
                t1 + told + t2 + t3 + t4,
                Err::<u32, Error<E>>(e),
            ))
            &&& r1 is Ok && r2 is Ok && r3 is Ok && r4 is Ok ==> is_enroll(
                t1 + told + t2 + t3 + t4 + t5,
                r5,
            )
        }),
{
    reveal(is_enroll);
    reveal(is_enroll_rounds);
    if r1 is Ok && r2 is Ok {
        assert(is_enroll_rounds(rounds_events(rounds), rounds_result(rounds)));
    }
}

/// What the callback is told in the course of two runs of events is what it
/// is told in the first and then in the second.
pub proof fn lemma_told_in_turn<E>(a: Seq<Event<E>>, b: Seq<Event<E>>)
    ensures
        progress_told(a + b) == progress_told(a) + progress_told(b),
    decreases b.len(),
{
    if b.len() == 0 {
        assert(a + b =~= a);
        assert(progress_told(a) + progress_told(b) =~= progress_told(a));
    } else {
        lemma_told_in_turn(a, b.drop_last());
        assert((a + b).drop_last() =~= a + b.drop_last());
        assert((a + b).last() == b.last());
        assert(progress_told(a + b) =~= progress_told(a) + progress_told(b));
    }
}

/// Events among which the callback does not stand tell it nothing.
proof fn lemma_told_nothing<E>(events: Seq<Event<E>>)
    requires
        forall|i: int| 0 <= i < events.len() ==> !((#[trigger] events[i]) is Progress),
    ensures
        progress_told(events) == Seq::<u32>::empty(),
    decreases events.len(),
{
    if events.len() > 0 {
        assert(!(events[events.len() - 1] is Progress));
        assert forall|i: int| 0 <= i < events.drop_last().len() implies !((
        #[trigger] events.drop_last()[i]) is Progress) by {
            assert(events.drop_last()[i] == events[i]);
        }
        lemma_told_nothing(events.drop_last());
    }
}

/// The stages of an exchange tell the callback nothing.
proof fn lemma_stages_tell_nothing<E>(frame: Seq<u8>, x: Transcript<E>, at: Stage)
    ensures
        progress_told(events_from(frame, x, at)) == Seq::<u32>::empty(),
    decreases stages_left(at),
{
    if !(at is Done) {
        let here = stage_events(frame, x, at);
        lemma_told_nothing(here);
        if stage_error(frame, x, at) is None {
            lemma_stages_tell_nothing(frame, x, next_stage(at));
            lemma_told_in_turn(here, events_from(frame, x, next_stage(at)));
        }
    }
}

/// An exchange tells the callback nothing.
pub proof fn lemma_exchange_tells_nothing<E>(
    frame: Seq<u8>,
    events: Seq<Event<E>>,
    result: Result<Seq<u8>, Error<E>>,
)
    requires
        is_exchange(frame, events, result),
    ensures
        progress_told(events) == Seq::<u32>::empty(),
{
    reveal(is_exchange);
    let x = choose|x: Transcript<E>|
        x.lows_before_ack <= READY_POLLS + 1 && x.lows_before_header <= READY_POLLS + 1
            && #[trigger] events_from(frame, x, Stage::Request) == events && result_from(
            frame,
            x,
            Stage::Request,
        ) == result;
    lemma_stages_tell_nothing(frame, x, Stage::Request);
}

/// The commands of an enrolment tell the callback nothing.
proof fn lemma_commands_tell_nothing<E>(
    timeout: u32,
    state: u16,
    tplid: u16,
    events: Seq<Event<E>>,
    code: Result<u8, Error<E>>,
    count: Result<u32, Error<E>>,
)
    ensures
        is_capture(timeout, events, code) ==> progress_told(events) == Seq::<u32>::empty(),
        is_waitfingerup(timeout, events, code) ==> progress_told(events) == Seq::<u32>::empty(),
        is_do_enroll(state, events, count) ==> progress_told(events) == Seq::<u32>::empty(),
        is_do_savetemplate(tplid, events, count) ==> progress_told(events) == Seq::<u32>::empty(),
        is_get_template_count(events, count) ==> progress_told(events) == Seq::<u32>::empty(),
{
    reveal(is_capture);
    reveal(is_waitfingerup);
    reveal(is_do_enroll);
    reveal(is_do_savetemplate);
    reveal(is_get_template_count);
    assert forall|frame: Seq<u8>, reply: Result<Seq<u8>, Error<E>>| #[trigger]
        is_exchange(frame, events, reply) implies progress_told(events) == Seq::<u32>::empty() by {
        lemma_exchange_tells_nothing(frame, events, reply);
    }
}

/// A round of an enrolment tells the callback nothing.
proof fn lemma_round_tells_nothing<E>(events: Seq<Event<E>>, result: Result<u32, Error<E>>)
    requires
        is_enroll_round(events, result),
    ensures
        progress_told(events) == Seq::<u32>::empty(),
{
    reveal(is_enroll_round);
    let (t1, r1) = choose|t1: Seq<Event<E>>, r1: Result<u8, Error<E>>| #[trigger]
        is_waitfingerup(0, t1, r1) && match r1 {
            Err(e) => events == t1 && result == Err::<u32, Error<E>>(e),
            Ok(_) => exists|t2: Seq<Event<E>>, r2: Result<u8, Error<E>>| #[trigger]
                is_capture(0, t2, r2) && match r2 {
                    Err(e) => events == t1 + t2 && result == Err::<u32, Error<E>>(e),
                    Ok(_) => exists|t3: Seq<Event<E>>| #[trigger]
                        is_do_enroll(ENROLL_ADD, t3, result) && events == t1 + t2 + t3,
                },
        };
    lemma_commands_tell_nothing(0, 0, 0, t1, r1, result);
    if r1 is Ok {
        let (t2, r2) = choose|t2: Seq<Event<E>>, r2: Result<u8, Error<E>>| #[trigger]
            is_capture(0, t2, r2) && match r2 {
                Err(e) => events == t1 + t2 && result == Err::<u32, Error<E>>(e),
                Ok(_) => exists|t3: Seq<Event<E>>| #[trigger]
                    is_do_enroll(ENROLL_ADD, t3, result) && events == t1 + t2 + t3,
            };
        lemma_commands_tell_nothing(0, 0, 0, t2, r2, result);
        lemma_told_in_turn(t1, t2);
        if r2 is Ok {
            let t3 = choose|t3: Seq<Event<E>>| #[trigger]
                is_do_enroll(ENROLL_ADD, t3, result) && events == t1 + t2 + t3;
            lemma_commands_tell_nothing(0, ENROLL_ADD, 0, t3, r1, result);
            lemma_told_in_turn(t1 + t2, t3);
        }
    }
}

/// The number of rounds that went well: all of them, or all but the last.
pub open spec fn rounds_done<E>(rounds: Seq<Round<E>>) -> nat {
    if rounds.len() > 0 && rounds.last().result is Err {
        (rounds.len() - 1) as nat
    } else {
        rounds.len()
    }
}

/// In the rounds of an enrolment the callback is told, after each round
/// that went well, the number of images that the round left wanted.
proof fn lemma_rounds_tell<E>(rounds: Seq<Round<E>>)
    requires
        forall|i: int|
            0 <= i < rounds.len() ==> is_enroll_round((#[trigger] rounds[i]).events, rounds[i].result),
        forall|i: int| 0 <= i < rounds.len() - 1 ==> (#[trigger] rounds[i]).result is Ok,
    ensures
        progress_told(rounds_events(rounds)) == Seq::new(
            rounds_done(rounds),
            |i: int| rounds[i].result->Ok_0,
        ),
    decreases rounds.len(),
{
    let told = Seq::new(rounds_done(rounds), |i: int| rounds[i].result->Ok_0);
    if rounds.len() == 0 {
        assert(progress_told(rounds_events(rounds)) =~= told);
    } else {
        let before = rounds.drop_last();
        let last = rounds.last();
        assert forall|i: int| 0 <= i < before.len() implies is_enroll_round(
            (#[trigger] before[i]).events,
            before[i].result,
        ) by {
            assert(before[i] == rounds[i]);
        }
        assert forall|i: int| 0 <= i < before.len() implies (#[trigger] before[i]).result is Ok by {
            assert(before[i] == rounds[i]);
        }
        lemma_rounds_tell(before);
        lemma_round_tells_nothing(last.events, last.result);
        lemma_told_in_turn(rounds_events(before), round_events(last));
        if last.result is Ok {
            assert(round_events(last).drop_last() =~= last.events);
        }
        assert(progress_told(rounds_events(rounds)) =~= told);
    }
}

/// In every enrolment that ends well the progress callback is told
/// `ENROLL_ROUNDS` before the session begins and then, after each round, the
/// number of images that the sensor still wants: never zero before the last
/// round, and zero after it. It is told once more than there are rounds, and
/// there are at most `ENROLL_ROUNDS` rounds. The enrolment returns zero.
pub proof fn law_enroll_tells_each_count<E>(events: Seq<Event<E>>, result: Result<u32, Error<E>>)
    requires
        is_enroll(events, result),
        result is Ok,
    ensures
        ({
            let told = progress_told(events);
            &&& 2 <= told.len() <= ENROLL_ROUNDS + 1
            &&& told[0] == ENROLL_ROUNDS
            &&& told.last() == 0
            &&& forall|i: int| 1 <= i < told.len() - 1 ==> told[i] != 0
        }),
        result == Ok::<u32, Error<E>>(0u32),
{
    reveal(is_enroll);
    reveal(is_enroll_rounds);
    reveal(is_do_savetemplate);
    let told_first = seq![Event::<E>::Progress(ENROLL_ROUNDS)];
    let (t1, r1) = choose|t1: Seq<Event<E>>, r1: Result<u32, Error<E>>| #[trigger]
        is_get_template_count(t1, r1) && enroll_after_count(events, result, t1, r1);
    let count = r1->Ok_0;
    let (t2, r2) = choose|t2: Seq<Event<E>>, r2: Result<u32, Error<E>>| #[trigger]
        is_do_enroll(ENROLL_BEGIN, t2, r2) && enroll_after_begin(
            events,
            result,
            count,
            t1 + told_first,
            t2,
            r2,
        );
    let (t3, r3) = choose|t3: Seq<Event<E>>, r3: Result<(), Error<E>>| #[trigger]
        is_enroll_rounds(t3, r3) && enroll_after_rounds(
            events,
            result,
            count,
            t1 + told_first + t2,
            t3,
            r3,
        );
    let (t4, r4) = choose|t4: Seq<Event<E>>, r4: Result<u32, Error<E>>| #[trigger]
        is_do_enroll(ENROLL_DONE, t4, r4) && enroll_after_done(
            events,
            result,
            count,
            t1 + told_first + t2 + t3,
            t4,
            r4,
        );
    let t5 = choose|t5: Seq<Event<E>>| #[trigger]
        is_do_savetemplate(next_id(count), t5, result) && events == t1 + told_first + t2 + t3 + t4
            + t5;
    let rounds = choose|rounds: Seq<Round<E>>| #[trigger]
        rounds_valid(rounds) && t3 == rounds_events(rounds) && r3 == rounds_result(rounds);
    let code = Err::<u8, Error<E>>(Error::Timeout);
    lemma_commands_tell_nothing(0, 0, 0, t1, code, r1);
    lemma_commands_tell_nothing(0, ENROLL_BEGIN, 0, t2, code, r2);
    lemma_commands_tell_nothing(0, ENROLL_DONE, 0, t4, code, r4);
    lemma_commands_tell_nothing(0, 0, next_id(count), t5, code, result);
    lemma_rounds_tell(rounds);
    lemma_told_in_turn(t1, told_first);
    lemma_told_in_turn(t1 + told_first, t2);
    lemma_told_in_turn(t1 + told_first + t2, t3);
    lemma_told_in_turn(t1 + told_first + t2 + t3, t4);
    lemma_told_in_turn(t1 + told_first + t2 + t3 + t4, t5);
    assert(progress_told(told_first) =~= seq![ENROLL_ROUNDS]) by {
        reveal_with_fuel(progress_told, 3);
        assert(told_first.drop_last() =~= Seq::<Event<E>>::empty());
        assert(told_first.last() == Event::<E>::Progress(ENROLL_ROUNDS));
    }
    let after = Seq::new(rounds_done(rounds), |i: int| rounds[i].result->Ok_0);
    assert(progress_told(events) =~= seq![ENROLL_ROUNDS] + after);
    assert(rounds_done(rounds) == rounds.len());
    assert forall|i: int| 1 <= i < progress_told(events).len() - 1 implies progress_told(
        events,
    )[i] != 0 by {
        assert(rounds[i - 1].result->Ok_0 != 0);
    }
}

/// The events of a round of an enrolment say where they end and how.
proof fn lemma_round_delimited<E>(
    e1: Seq<Event<E>>,
    r1: Result<u32, Error<E>>,
    tail1: Seq<Event<E>>,
    e2: Seq<Event<E>>,
    r2: Result<u32, Error<E>>,
    tail2: Seq<Event<E>>,
)
    requires
        is_enroll_round(e1, r1),
        is_enroll_round(e2, r2),
        e1 + tail1 == e2 + tail2,
    ensures
        e1 == e2,
        r1 == r2,
        tail1 == tail2,
{
    reveal(is_enroll_round);
    let whole = e1 + tail1;
    let text = (Err::<Seq<u8>, Error<E>>(Error::Timeout), Err::<Seq<u8>, Error<E>>(Error::Timeout));
    let (a1, c1) = choose|t1: Seq<Event<E>>, c1: Result<u8, Error<E>>| #[trigger]
        is_waitfingerup(0, t1, c1) && match c1 {
            Err(e) => e1 == t1 && r1 == Err::<u32, Error<E>>(e),
            Ok(_) => exists|t2: Seq<Event<E>>, x2: Result<u8, Error<E>>| #[trigger]
                is_capture(0, t2, x2) && match x2 {
                    Err(e) => e1 == t1 + t2 && r1 == Err::<u32, Error<E>>(e),
                    Ok(_) => exists|t3: Seq<Event<E>>| #[trigger]
                        is_do_enroll(ENROLL_ADD, t3, r1) && e1 == t1 + t2 + t3,
                },
        };
    let (b1, d1) = choose|t1: Seq<Event<E>>, c1: Result<u8, Error<E>>| #[trigger]
        is_waitfingerup(0, t1, c1) && match c1 {
            Err(e) => e2 == t1 && r2 == Err::<u32, Error<E>>(e),
            Ok(_) => exists|t2: Seq<Event<E>>, x2: Result<u8, Error<E>>| #[trigger]
                is_capture(0, t2, x2) && match x2 {
                    Err(e) => e2 == t1 + t2 && r2 == Err::<u32, Error<E>>(e),
                    Ok(_) => exists|t3: Seq<Event<E>>| #[trigger]
                        is_do_enroll(ENROLL_ADD, t3, r2) && e2 == t1 + t2 + t3,
                },
        };
    let rest_a = whole.skip(a1.len() as int);
    let rest_b = whole.skip(b1.len() as int);
    assert(whole =~= a1 + rest_a);
    assert(whole =~= b1 + rest_b);
    law_commands_are_delimited(0, 0, 0, a1, rest_a, b1, rest_b, text, (c1, d1), (r1, r2));
    if c1 is Ok {
        let (a2, x2) = choose|t2: Seq<Event<E>>, x2: Result<u8, Error<E>>| #[trigger]
            is_capture(0, t2, x2) && match x2 {
                Err(e) => e1 == a1 + t2 && r1 == Err::<u32, Error<E>>(e),
                Ok(_) => exists|t3: Seq<Event<E>>| #[trigger]
                    is_do_enroll(ENROLL_ADD, t3, r1) && e1 == a1 + t2 + t3,
            };
        let (b2, y2) = choose|t2: Seq<Event<E>>, y2: Result<u8, Error<E>>| #[trigger]
            is_capture(0, t2, y2) && match y2 {
                Err(e) => e2 == b1 + t2 && r2 == Err::<u32, Error<E>>(e),
                Ok(_) => exists|t3: Seq<Event<E>>| #[trigger]
                    is_do_enroll(ENROLL_ADD, t3, r2) && e2 == b1 + t2 + t3,
            };
        let after_a = rest_a.skip(a2.len() as int);
        let after_b = rest_b.skip(b2.len() as int);
        assert(rest_a =~= a2 + after_a);
        assert(rest_b =~= b2 + after_b);
        law_commands_are_delimited(0, 0, 0, a2, after_a, b2, after_b, text, (x2, y2), (r1, r2));
        if x2 is Ok {
            let a3 = choose|t3: Seq<Event<E>>| #[trigger]
                is_do_enroll(ENROLL_ADD, t3, r1) && e1 == a1 + a2 + t3;
            let b3 = choose|t3: Seq<Event<E>>| #[trigger]
                is_do_enroll(ENROLL_ADD, t3, r2) && e2 == b1 + b2 + t3;
            assert(after_a =~= a3 + tail1);
            assert(after_b =~= b3 + tail2);
            law_commands_are_delimited(
                0,
                ENROLL_ADD,
                0,
                a3,
                tail1,
                b3,
                tail2,
                text,
                (c1, d1),
                (r1, r2),
            );
        } else {
            assert(after_a =~= tail1);
            assert(after_b =~= tail2);
        }
    } else {
        assert(rest_a =~= tail1);
        assert(rest_b =~= tail2);
    }
}

/// The events of some rounds and of more rounds are those of all of them.
proof fn lemma_rounds_in_turn<E>(a: Seq<Round<E>>, b: Seq<Round<E>>)
    ensures
        rounds_events(a + b) == rounds_events(a) + rounds_events(b),
    decreases b.len(),
{
    if b.len() == 0 {
        assert(a + b =~= a);
        assert(rounds_events(a) + rounds_events(b) =~= rounds_events(a));
    } else {
        lemma_rounds_in_turn(a, b.drop_last());
        assert((a + b).drop_last() =~= a + b.drop_last());
        assert((a + b).last() == b.last());
        assert(rounds_events(a + b) =~= rounds_events(a) + rounds_events(b));
    }
}

/// Rounds of an enrolment whose events, each followed by events of whatever
/// kind, are the same from round `k` on, and which are the same before it,
/// are the same rounds, with the same events after them.
proof fn lemma_rounds_delimited<E>(
    a: Seq<Round<E>>,
    tail_a: Seq<Event<E>>,
    b: Seq<Round<E>>,
    tail_b: Seq<Event<E>>,
    k: nat,
)
    requires
        rounds_valid(a),
        rounds_valid(b),
        k <= a.len(),
        k <= b.len(),
        a.take(k as int) == b.take(k as int),
        rounds_events(a.skip(k as int)) + tail_a == rounds_events(b.skip(k as int)) + tail_b,
    ensures
        a == b,
        tail_a == tail_b,
    decreases a.len() - k,
{
    let none = Seq::<Round<E>>::empty();
    if k == a.len() || k == b.len() {
        if k < b.len() {
            assert(a[k - 1] == a.take(k as int)[k - 1]);
            assert(b[k - 1] == b.take(k as int)[k - 1]);
            assert(b[k - 1].result is Ok && b[k - 1].result->Ok_0 != 0);
            assert(false);
        }
        if k < a.len() {
            assert(a[k - 1] == a.take(k as int)[k - 1]);
            assert(b[k - 1] == b.take(k as int)[k - 1]);
            assert(a[k - 1].result is Ok && a[k - 1].result->Ok_0 != 0);
            assert(false);
        }
        assert(a =~= a.take(k as int));
        assert(b =~= b.take(k as int));
        assert(a.skip(k as int) =~= none);
        assert(b.skip(k as int) =~= none);
        assert(rounds_events(none) + tail_a =~= tail_a);
        assert(rounds_events(none) + tail_b =~= tail_b);
    } else {
        let ra = a[k as int];
        let rb = b[k as int];
        let more_a = a.skip(k + 1 as int);
        let more_b = b.skip(k + 1 as int);
        assert(a.skip(k as int) =~= seq![ra] + more_a);
        assert(b.skip(k as int) =~= seq![rb] + more_b);
        lemma_rounds_in_turn(seq![ra], more_a);
        lemma_rounds_in_turn(seq![rb], more_b);
        assert(rounds_events(seq![ra]) =~= round_events(ra)) by {
            reveal_with_fuel(rounds_events, 3);
            assert(seq![ra].drop_last() =~= none);
        }
        assert(rounds_events(seq![rb]) =~= round_events(rb)) by {
            reveal_with_fuel(rounds_events, 3);
            assert(seq![rb].drop_last() =~= none);
        }
        let next_a = rounds_events(more_a) + tail_a;
        let next_b = rounds_events(more_b) + tail_b;
        let told_a = round_events(ra).skip(ra.events.len() as int);
        let told_b = round_events(rb).skip(rb.events.len() as int);
        assert(round_events(ra) =~= ra.events + told_a);
        assert(round_events(rb) =~= rb.events + told_b);
        assert(rounds_events(a.skip(k as int)) + tail_a =~= ra.events + (told_a + next_a));
        assert(rounds_events(b.skip(k as int)) + tail_b =~= rb.events + (told_b + next_b));
        lemma_round_delimited(
            ra.events,
            ra.result,
            told_a + next_a,
            rb.events,
            rb.result,
            told_b + next_b,
        );
        assert(ra == rb);
        assert(told_a + next_a =~= told_a + rounds_events(more_a) + tail_a);
        assert(next_a =~= (told_a + next_a).skip(told_a.len() as int));
        assert(next_b =~= (told_b + next_b).skip(told_b.len() as int));
        assert(a.take(k + 1 as int) =~= a.take(k as int).push(ra));
        assert(b.take(k + 1 as int) =~= b.take(k as int).push(rb));
        lemma_rounds_delimited(a, tail_a, b, tail_b, k + 1);
    }
}

/// The events of the rounds of an enrolment say where they end and how.
proof fn lemma_enroll_rounds_delimited<E>(
    e1: Seq<Event<E>>,
    r1: Result<(), Error<E>>,
    tail1: Seq<Event<E>>,
    e2: Seq<Event<E>>,
    r2: Result<(), Error<E>>,
    tail2: Seq<Event<E>>,
)
    requires
        is_enroll_rounds(e1, r1),
        is_enroll_rounds(e2, r2),
        e1 + tail1 == e2 + tail2,
    ensures
        e1 == e2,
        r1 == r2,
        tail1 == tail2,
{
    reveal(is_enroll_rounds);
    let a = choose|rounds: Seq<Round<E>>| #[trigger]
        rounds_valid(rounds) && e1 == rounds_events(rounds) && r1 == rounds_result(rounds);
    let b = choose|rounds: Seq<Round<E>>| #[trigger]
        rounds_valid(rounds) && e2 == rounds_events(rounds) && r2 == rounds_result(rounds);
    assert(a.skip(0) =~= a);
    assert(b.skip(0) =~= b);
    assert(a.take(0) =~= b.take(0));
    lemma_rounds_delimited(a, tail1, b, tail2, 0);
}

/// Once the session of an enrolment is closed, its events settle its result.
proof fn lemma_after_done_determined<E>(
    events: Seq<Event<E>>,
    r1: Result<u32, Error<E>>,
    r2: Result<u32, Error<E>>,
    count: u32,
    head: Seq<Event<E>>,
    a4: Seq<Event<E>>,
    x4: Result<u32, Error<E>>,
    b4: Seq<Event<E>>,
    y4: Result<u32, Error<E>>,
)
    requires
        is_do_enroll(ENROLL_DONE, a4, x4),
        is_do_enroll(ENROLL_DONE, b4, y4),
        enroll_after_done(events, r1, count, head, a4, x4),
        enroll_after_done(events, r2, count, head, b4, y4),
    ensures
        r1 == r2,
{
    let none = Seq::<Event<E>>::empty();
    let text = (Err::<Seq<u8>, Error<E>>(Error::Timeout), Err::<Seq<u8>, Error<E>>(Error::Timeout));
    let code = (Err::<u8, Error<E>>(Error::Timeout), Err::<u8, Error<E>>(Error::Timeout));
    let rest = events.skip(head.len() as int);
    let rest_a = rest.skip(a4.len() as int);
    let rest_b = rest.skip(b4.len() as int);
    lemma_after_done_begins(events, r1, count, head, a4, x4);
    lemma_after_done_begins(events, r2, count, head, b4, y4);
    assert(rest =~= a4 + rest_a);
    assert(rest =~= b4 + rest_b);
    law_commands_are_delimited(0, ENROLL_DONE, 0, a4, rest_a, b4, rest_b, text, code, (x4, y4));
    if x4 is Ok {
        let a5 = choose|t5: Seq<Event<E>>| #[trigger]
            is_do_savetemplate(next_id(count), t5, r1) && events == head + a4 + t5;
        let b5 = choose|t5: Seq<Event<E>>| #[trigger]
            is_do_savetemplate(next_id(count), t5, r2) && events == head + b4 + t5;
        assert(a5 =~= rest_a);
        assert(b5 =~= rest_a);
        law_commands_are_delimited(0, 0, next_id(count), a5, none, b5, none, text, code, (r1, r2));
    }
}

/// Once the rounds of an enrolment are over, its events settle its result.
proof fn lemma_after_rounds_determined<E>(
    events: Seq<Event<E>>,
    r1: Result<u32, Error<E>>,
    r2: Result<u32, Error<E>>,
    count: u32,
    head: Seq<Event<E>>,
    a3: Seq<Event<E>>,
    x3: Result<(), Error<E>>,
    b3: Seq<Event<E>>,
    y3: Result<(), Error<E>>,
)
    requires
        is_enroll_rounds(a3, x3),
        is_enroll_rounds(b3, y3),
        enroll_after_rounds(events, r1, count, head, a3, x3),
        enroll_after_rounds(events, r2, count, head, b3, y3),
    ensures
        r1 == r2,
{
    let rest = events.skip(head.len() as int);
    let rest_a = rest.skip(a3.len() as int);
    let rest_b = rest.skip(b3.len() as int);
    lemma_after_rounds_begins(events, r1, count, head, a3, x3);
    lemma_after_rounds_begins(events, r2, count, head, b3, y3);
    assert(rest =~= a3 + rest_a);
    assert(rest =~= b3 + rest_b);
    lemma_enroll_rounds_delimited(a3, x3, rest_a, b3, y3, rest_b);
    if x3 is Ok {
        let (a4, x4) = choose|t4: Seq<Event<E>>, x4: Result<u32, Error<E>>| #[trigger]
            is_do_enroll(ENROLL_DONE, t4, x4) && enroll_after_done(
                events,
                r1,
                count,
                head + a3,
                t4,
                x4,
            );
        let (b4, y4) = choose|t4: Seq<Event<E>>, y4: Result<u32, Error<E>>| #[trigger]
            is_do_enroll(ENROLL_DONE, t4, y4) && enroll_after_done(
                events,
                r2,
                count,
                head + a3,
                t4,
                y4,
            );
        lemma_after_done_determined(events, r1, r2, count, head + a3, a4, x4, b4, y4);
    }
}

/// A run of events that ends as an enrolment does after some stage begins
/// with what went before that stage.
proof fn lemma_after_done_begins<E>(
    events: Seq<Event<E>>,
    result: Result<u32, Error<E>>,
    count: u32,
    head: Seq<Event<E>>,
    t4: Seq<Event<E>>,
    r4: Result<u32, Error<E>>,
)
    requires
        enroll_after_done(events, result, count, head, t4, r4),
    ensures
        events == head + t4 + events.skip((head.len() + t4.len()) as int),
{
    if r4 is Ok {
        let t5 = choose|t5: Seq<Event<E>>| #[trigger]
            is_do_savetemplate(next_id(count), t5, result) && events == head + t4 + t5;
        assert(events =~= head + t4 + events.skip((head.len() + t4.len()) as int));
    } else {
        assert(events =~= head + t4 + events.skip((head.len() + t4.len()) as int));
    }
}

/// A run of events that ends as an enrolment does after some stage begins
/// with what went before that stage.
proof fn lemma_after_rounds_begins<E>(
    events: Seq<Event<E>>,
    result: Result<u32, Error<E>>,
    count: u32,
    head: Seq<Event<E>>,
    t3: Seq<Event<E>>,
    r3: Result<(), Error<E>>,
)
    requires
        enroll_after_rounds(events, result, count, head, t3, r3),
    ensures
        events == head + t3 + events.skip((head.len() + t3.len()) as int),
{
    if r3 is Ok {
        let (t4, r4) = choose|t4: Seq<Event<E>>, r4: Result<u32, Error<E>>| #[trigger]
            is_do_enroll(ENROLL_DONE, t4, r4) && enroll_after_done(
                events,
                result,
                count,
                head + t3,
                t4,
                r4,
            );
        lemma_after_done_begins(events, result, count, head + t3, t4, r4);
    }
    assert(events =~= head + t3 + events.skip((head.len() + t3.len()) as int));
}

/// A run of events that ends as an enrolment does after some stage begins
/// with what went before that stage.
proof fn lemma_after_begin_begins<E>(
    events: Seq<Event<E>>,
    result: Result<u32, Error<E>>,
    count: u32,
    head: Seq<Event<E>>,
    t2: Seq<Event<E>>,
    r2: Result<u32, Error<E>>,
)
    requires
        enroll_after_begin(events, result, count, head, t2, r2),
    ensures
        events == head + t2 + events.skip((head.len() + t2.len()) as int),
{
    if r2 is Ok {
        let (t3, r3) = choose|t3: Seq<Event<E>>, r3: Result<(), Error<E>>| #[trigger]
            is_enroll_rounds(t3, r3) && enroll_after_rounds(events, result, count, head + t2, t3, r3);
        lemma_after_rounds_begins(events, result, count, head + t2, t3, r3);
    }
    assert(events =~= head + t2 + events.skip((head.len() + t2.len()) as int));
}

/// Once the session of an enrolment has begun, its events settle its result.
proof fn lemma_after_begin_determined<E>(
    events: Seq<Event<E>>,
    r1: Result<u32, Error<E>>,
    r2: Result<u32, Error<E>>,
    count: u32,
    head: Seq<Event<E>>,
    a2: Seq<Event<E>>,
    x2: Result<u32, Error<E>>,
    b2: Seq<Event<E>>,
    y2: Result<u32, Error<E>>,
)
    requires
        is_do_enroll(ENROLL_BEGIN, a2, x2),
        is_do_enroll(ENROLL_BEGIN, b2, y2),
        enroll_after_begin(events, r1, count, head, a2, x2),
        enroll_after_begin(events, r2, count, head, b2, y2),
    ensures
        r1 == r2,
{
    let text = (Err::<Seq<u8>, Error<E>>(Error::Timeout), Err::<Seq<u8>, Error<E>>(Error::Timeout));
    let code = (Err::<u8, Error<E>>(Error::Timeout), Err::<u8, Error<E>>(Error::Timeout));
    let rest = events.skip(head.len() as int);
    let rest_a = rest.skip(a2.len() as int);
    let rest_b = rest.skip(b2.len() as int);
    lemma_after_begin_begins(events, r1, count, head, a2, x2);
    lemma_after_begin_begins(events, r2, count, head, b2, y2);
    assert(rest =~= a2 + rest_a);
    assert(rest =~= b2 + rest_b);
    law_commands_are_delimited(0, ENROLL_BEGIN, 0, a2, rest_a, b2, rest_b, text, code, (x2, y2));
    if x2 is Ok {
        let (a3, x3) = choose|t3: Seq<Event<E>>, x3: Result<(), Error<E>>| #[trigger]
            is_enroll_rounds(t3, x3) && enroll_after_rounds(events, r1, count, head + a2, t3, x3);
        let (b3, y3) = choose|t3: Seq<Event<E>>, y3: Result<(), Error<E>>| #[trigger]
            is_enroll_rounds(t3, y3) && enroll_after_rounds(events, r2, count, head + a2, t3, y3);
        lemma_after_rounds_determined(events, r1, r2, count, head + a2, a3, x3, b3, y3);
    }
}

/// What `enroll` returns is settled by its events.
pub proof fn law_enroll_is_determined<E>(
    events: Seq<Event<E>>,
    r1: Result<u32, Error<E>>,
    r2: Result<u32, Error<E>>,
)
    requires
        is_enroll(events, r1),
        is_enroll(events, r2),
    ensures
        r1 == r2,
{
    reveal(is_enroll);
    let told = seq![Event::<E>::Progress(ENROLL_ROUNDS)];
    let text = (Err::<Seq<u8>, Error<E>>(Error::Timeout), Err::<Seq<u8>, Error<E>>(Error::Timeout));
    let code = (Err::<u8, Error<E>>(Error::Timeout), Err::<u8, Error<E>>(Error::Timeout));
    let (a1, c1) = choose|t1: Seq<Event<E>>, c1: Result<u32, Error<E>>| #[trigger]
        is_get_template_count(t1, c1) && enroll_after_count(events, r1, t1, c1);
    let (b1, d1) = choose|t1: Seq<Event<E>>, c1: Result<u32, Error<E>>| #[trigger]
        is_get_template_count(t1, c1) && enroll_after_count(events, r2, t1, c1);
    let rest_a = events.skip(a1.len() as int);
    let rest_b = events.skip(b1.len() as int);
    if c1 is Ok {
        let (a2, x2) = choose|t2: Seq<Event<E>>, x2: Result<u32, Error<E>>| #[trigger]
            is_do_enroll(ENROLL_BEGIN, t2, x2) && enroll_after_begin(
                events,
                r1,
                c1->Ok_0,
                a1 + told,
                t2,
                x2,
            );
        lemma_after_begin_begins(events, r1, c1->Ok_0, a1 + told, a2, x2);
    }
    if d1 is Ok {
        let (b2, y2) = choose|t2: Seq<Event<E>>, y2: Result<u32, Error<E>>| #[trigger]
            is_do_enroll(ENROLL_BEGIN, t2, y2) && enroll_after_begin(
                events,
                r2,
                d1->Ok_0,
                b1 + told,
                t2,
                y2,
            );
        lemma_after_begin_begins(events, r2, d1->Ok_0, b1 + told, b2, y2);
    }
    assert(events =~= a1 + rest_a);
    assert(events =~= b1 + rest_b);
    law_commands_are_delimited(0, 0, 0, a1, rest_a, b1, rest_b, text, code, (c1, d1));
    if c1 is Ok {
        let count = c1->Ok_0;
        let (a2, x2) = choose|t2: Seq<Event<E>>, x2: Result<u32, Error<E>>| #[trigger]
            is_do_enroll(ENROLL_BEGIN, t2, x2) && enroll_after_begin(
                events,
                r1,
                count,
                a1 + told,
                t2,
                x2,
            );
        let (b2, y2) = choose|t2: Seq<Event<E>>, y2: Result<u32, Error<E>>| #[trigger]
            is_do_enroll(ENROLL_BEGIN, t2, y2) && enroll_after_begin(
                events,
                r2,
                count,
                a1 + told,
                t2,
                y2,
            );
        lemma_after_begin_determined(events, r1, r2, count, a1 + told, a2, x2, b2, y2);
    }
}

} // verus!
