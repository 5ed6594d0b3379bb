//! What each operation of the driver is, told over the events it causes and
//! the result it returns: one exchange for a command, and a fixed order of
//! commands for enrolling and identifying.

use crate::commands::{
    capture_frame, code_reply, count_frame, count_reply, delete_all_frame, done_reply,
    enroll_frame, extract_frame, finger_up_frame, identify_frame, identity_reply,
    remaining_reply, save_frame, version_frame, version_reply, CMD_CAPTURE, CMD_ENROLL,
    CMD_EXTRACT, CMD_IDENTIFY, CMD_STORAGE_TEMPLATE, CMD_TEMPLATE, CMD_VERSION, CMD_WAIT,
    ENROLL_ADD, ENROLL_BEGIN, ENROLL_DONE,
};
use crate::error::Error;
use crate::exchange::{is_exchange, Event};
use vstd::prelude::*;

verus! {

/// The number of images that the progress callback is told before a session
/// begins, and the number of rounds after which an enrolment is given up.
pub const ENROLL_ROUNDS: u32 = 100;

/// The id under which a new template is saved when `count` are stored.
pub open spec fn next_id(count: u32) -> u16 {
    ((count + 1) % 0x1_0000) as u16
}

/// The counts that the progress callback was told in the course of some
/// events, in their order.
pub open spec fn progress_told<E>(events: Seq<Event<E>>) -> Seq<u32>
    decreases events.len(),
{
    if events.len() == 0 {
        Seq::empty()
    } else {
        match events.last() {
            Event::Progress(count) => progress_told(events.drop_last()).push(count),
            _ => progress_told(events.drop_last()),
        }
    }
}

/// `get_version`: one exchange, read as a version answer.
#[verifier::opaque]
pub open spec fn is_get_version<E>(events: Seq<Event<E>>, result: Result<Seq<u8>, Error<E>>) -> bool {
    exists|reply: Result<Seq<u8>, Error<E>>| #[trigger]
        is_exchange(version_frame(), events, reply) && result == match reply {
            Ok(payload) => version_reply(payload, CMD_VERSION),
            Err(e) => Err(e),
        }
}

/// `capture`: one exchange, read for the sensor's verdict.
#[verifier::opaque]
pub open spec fn is_capture<E>(timeout: u32, events: Seq<Event<E>>, result: Result<u8, Error<E>>) -> bool {
    exists|reply: Result<Seq<u8>, Error<E>>| #[trigger]
        is_exchange(capture_frame(timeout), events, reply) && result
            == match reply {
            Ok(payload) => code_reply(payload, CMD_CAPTURE),
            Err(e) => Err(e),
        }
}

/// `do_enroll`: one exchange, read for the images still wanted.
#[verifier::opaque]
pub open spec fn is_do_enroll<E>(state: u16, events: Seq<Event<E>>, result: Result<u32, Error<E>>) -> bool {
    exists|reply: Result<Seq<u8>, Error<E>>| #[trigger]
        is_exchange(enroll_frame(state), events, reply) && result
            == match reply {
            Ok(payload) => remaining_reply(payload, CMD_ENROLL),
            Err(e) => Err(e),
        }
}

/// `do_extract`: one exchange, read for the images still wanted.
#[verifier::opaque]
pub open spec fn is_do_extract<E>(events: Seq<Event<E>>, result: Result<u32, Error<E>>) -> bool {
    exists|reply: Result<Seq<u8>, Error<E>>| #[trigger]
        is_exchange(extract_frame(), events, reply) && result
            == match reply {
            Ok(payload) => remaining_reply(payload, CMD_EXTRACT),
            Err(e) => Err(e),
        }
}

/// `do_identify`: one exchange, read for the matched id.
#[verifier::opaque]
pub open spec fn is_do_identify<E>(events: Seq<Event<E>>, result: Result<u32, Error<E>>) -> bool {
    exists|reply: Result<Seq<u8>, Error<E>>| #[trigger]
        is_exchange(identify_frame(), events, reply) && result
            == match reply {
            Ok(payload) => identity_reply(payload, CMD_IDENTIFY),
            Err(e) => Err(e),
        }
}

/// `do_savetemplate`: one exchange, read for its confirmation.
#[verifier::opaque]
pub open spec fn is_do_savetemplate<E>(
    tplid: u16,
    events: Seq<Event<E>>,
    result: Result<u32, Error<E>>,
) -> bool {
    exists|reply: Result<Seq<u8>, Error<E>>| #[trigger]
        is_exchange(save_frame(tplid), events, reply) && result == match reply {
            Ok(payload) => done_reply(payload, CMD_TEMPLATE),
            Err(e) => Err(e),
        }
}

/// `get_template_count`: one exchange, read for a count.
#[verifier::opaque]
pub open spec fn is_get_template_count<E>(events: Seq<Event<E>>, result: Result<u32, Error<E>>) -> bool {
    exists|reply: Result<Seq<u8>, Error<E>>| #[trigger]
        is_exchange(count_frame(), events, reply)
            && result == match reply {
            Ok(payload) => count_reply(payload, CMD_STORAGE_TEMPLATE),
            Err(e) => Err(e),
        }
}

/// `waitfingerup`: one exchange, read for the sensor's verdict.
#[verifier::opaque]
pub open spec fn is_waitfingerup<E>(timeout: u32, events: Seq<Event<E>>, result: Result<u8, Error<E>>) -> bool {
    exists|reply: Result<Seq<u8>, Error<E>>| #[trigger]
        is_exchange(finger_up_frame(timeout), events, reply)
            && result == match reply {
            Ok(payload) => code_reply(payload, CMD_WAIT),
            Err(e) => Err(e),
        }
}

/// `delete_all`: one exchange, read for the sensor's verdict.
#[verifier::opaque]
pub open spec fn is_delete_all<E>(events: Seq<Event<E>>, result: Result<u8, Error<E>>) -> bool {
    exists|reply: Result<Seq<u8>, Error<E>>| #[trigger]
        is_exchange(delete_all_frame(), events, reply) && result == match reply {
            Ok(payload) => code_reply(payload, CMD_STORAGE_TEMPLATE),
            Err(e) => Err(e),
        }
}

/// `identify`: capture, extract, identify, up to the first that fails.
#[verifier::opaque]
pub open spec fn is_identify<E>(events: Seq<Event<E>>, result: Result<u32, Error<E>>) -> bool {
    exists|t1: Seq<Event<E>>, r1: Result<u8, Error<E>>| #[trigger]
        is_capture(0, t1, r1) && match r1 {
            Err(e) => events == t1 && result == Err::<u32, Error<E>>(e),
            Ok(_) => exists|t2: Seq<Event<E>>, r2: Result<u32, Error<E>>| #[trigger]
                is_do_extract(t2, r2) && match r2 {
                    Err(e) => events == t1 + t2 && result == Err::<u32, Error<E>>(e),
                    Ok(_) => exists|t3: Seq<Event<E>>| #[trigger]
                        is_do_identify(t3, result) && events == t1 + t2 + t3,
                },
        }
}

/// One round of an enrolment: wait until the finger is lifted, capture, add
/// the image, up to the first that fails. The result is the number of images
/// still wanted.
#[verifier::opaque]
pub open spec fn is_enroll_round<E>(events: Seq<Event<E>>, result: Result<u32, Error<E>>) -> bool {
    exists|t1: Seq<Event<E>>, r1: Result<u8, Error<E>>| #[trigger]
        is_waitfingerup(0, t1, r1) && match r1 {
            Err(e) => events == t1 && result == Err::<u32, Error<E>>(e),
            Ok(_) => exists|t2: Seq<Event<E>>, r2: Result<u8, Error<E>>| #[trigger]
                is_capture(0, t2, r2) && match r2 {
                    Err(e) => events == t1 + t2 && result == Err::<u32, Error<E>>(e),
                    Ok(_) => exists|t3: Seq<Event<E>>| #[trigger]
                        is_do_enroll(ENROLL_ADD, t3, result) && events == t1 + t2 + t3,
                },
        }
}

/// One round of an enrolment as it went: its events and its result.
pub struct Round<E> {
    pub events: Seq<Event<E>>,
    pub result: Result<u32, Error<E>>,
}

/// The events of one round of an enrolment as it went: the round and, where
/// it went well, the progress callback with the number of images that it
/// left wanted.
pub open spec fn round_events<E>(round: Round<E>) -> Seq<Event<E>> {
    match round.result {
        Ok(wanted) => round.events.push(Event::Progress(wanted)),
        Err(_) => round.events,
    }
}

/// The events of the rounds of an enrolment, one round after the other.
pub open spec fn rounds_events<E>(rounds: Seq<Round<E>>) -> Seq<Event<E>>
    decreases rounds.len(),
{
    if rounds.len() == 0 {
        Seq::empty()
    } else {
        rounds_events(rounds.drop_last()) + round_events(rounds.last())
    }
}

/// The result of the rounds of an enrolment: that of the last round, where
/// it failed; success, where it left no image wanted; else a protocol error.
pub open spec fn rounds_result<E>(rounds: Seq<Round<E>>) -> Result<(), Error<E>> {
    match rounds.last().result {
        Err(e) => Err(e),
        Ok(wanted) => if wanted == 0 {
            Ok(())
        } else {
            Err(Error::UnexpectedResponse)
        },
    }
}

/// Whether `rounds` are the rounds of an enrolment: there is a first round;
/// each is a round; each but the last went well and left images wanted; and
/// the last one left images wanted only if it was round `ENROLL_ROUNDS`.
pub open spec fn rounds_valid<E>(rounds: Seq<Round<E>>) -> bool {
    &&& 1 <= rounds.len() <= ENROLL_ROUNDS
    &&& forall|i: int|
        0 <= i < rounds.len() ==> is_enroll_round((#[trigger] rounds[i]).events, rounds[i].result)
    &&& forall|i: int|
        0 <= i < rounds.len() - 1 ==> (#[trigger] rounds[i]).result is Ok
            && rounds[i].result->Ok_0 != 0
    &&& (rounds.last().result is Ok && rounds.last().result->Ok_0 != 0) ==> rounds.len()
        == ENROLL_ROUNDS
}

/// The rounds of an enrolment: a round and the progress callback with the
/// number of images that the round left wanted, again and again, until a
/// round fails, the sensor wants no more images, or `ENROLL_ROUNDS` rounds
/// have passed with images still wanted, which is a protocol error.
#[verifier::opaque]
pub open spec fn is_enroll_rounds<E>(events: Seq<Event<E>>, result: Result<(), Error<E>>) -> bool {
    exists|rounds: Seq<Round<E>>| #[trigger]
        rounds_valid(rounds) && events == rounds_events(rounds) && result == rounds_result(rounds)
}

/// How an enrolment ends once its session is closed: with the error of the
/// closing, or with the saving of the template under the id after `count`.
/// `head` is what went before the closing.
pub open spec fn enroll_after_done<E>(
    events: Seq<Event<E>>,
    result: Result<u32, Error<E>>,
    count: u32,
    head: Seq<Event<E>>,
    t4: Seq<Event<E>>,
    r4: Result<u32, Error<E>>,
) -> bool {
    match r4 {
        Err(e) => events == head + t4 && result == Err::<u32, Error<E>>(e),
        Ok(_) => exists|t5: Seq<Event<E>>| #[trigger]
            is_do_savetemplate(next_id(count), t5, result) && events == head + t4 + t5,
    }
}

/// How an enrolment ends once its rounds are over: with their error, or
/// with the closing of the session and what follows it. `head` is what went
/// before the rounds.
pub open spec fn enroll_after_rounds<E>(
    events: Seq<Event<E>>,
    result: Result<u32, Error<E>>,
    count: u32,
    head: Seq<Event<E>>,
    t3: Seq<Event<E>>,
    r3: Result<(), Error<E>>,
) -> bool {
    match r3 {
        Err(e) => events == head + t3 && result == Err::<u32, Error<E>>(e),
        Ok(_) => exists|t4: Seq<Event<E>>, r4: Result<u32, Error<E>>| #[trigger]
            is_do_enroll(ENROLL_DONE, t4, r4) && enroll_after_done(
                events,
                result,
                count,
                head + t3,
                t4,
                r4,
            ),
    }
}

/// How an enrolment ends once its session has begun: with the error of the
/// beginning, or with the rounds and what follows them. `head` is what went
/// before the beginning.
pub open spec fn enroll_after_begin<E>(
    events: Seq<Event<E>>,
    result: Result<u32, Error<E>>,
    count: u32,
    head: Seq<Event<E>>,
    t2: Seq<Event<E>>,
    r2: Result<u32, Error<E>>,
) -> bool {
    match r2 {
        Err(e) => events == head + t2 && result == Err::<u32, Error<E>>(e),
        Ok(_) => exists|t3: Seq<Event<E>>, r3: Result<(), Error<E>>| #[trigger]
            is_enroll_rounds(t3, r3) && enroll_after_rounds(events, result, count, head + t2, t3, r3),
    }
}

/// How an enrolment ends once the templates are counted: with the error of
/// the counting, or with the progress callback told `ENROLL_ROUNDS`, the
/// beginning of a session and what follows it.
pub open spec fn enroll_after_count<E>(
    events: Seq<Event<E>>,
    result: Result<u32, Error<E>>,
    t1: Seq<Event<E>>,
    r1: Result<u32, Error<E>>,
) -> bool {
    match r1 {
        Err(e) => events == t1 && result == Err::<u32, Error<E>>(e),
        Ok(count) => exists|t2: Seq<Event<E>>, r2: Result<u32, Error<E>>| #[trigger]
            is_do_enroll(ENROLL_BEGIN, t2, r2) && enroll_after_begin(
                events,
                result,
                count,
                t1 + seq![Event::Progress(ENROLL_ROUNDS)],
                t2,
                r2,
            ),
    }
}

/// `enroll`: count the stored templates, tell the progress callback
/// `ENROLL_ROUNDS`, begin a session, run its rounds, close it, and save the
/// template under the id after the count; up to the first that fails.
#[verifier::opaque]
pub open spec fn is_enroll<E>(events: Seq<Event<E>>, result: Result<u32, Error<E>>) -> bool {
    exists|t1: Seq<Event<E>>, r1: Result<u32, Error<E>>| #[trigger]
        is_get_template_count(t1, r1) && enroll_after_count(events, result, t1, r1)
}

} // verus!
