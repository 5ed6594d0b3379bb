//! The commands of the sensor: for each, the frame that asks and the reading
//! of the payload that answers.

use crate::codec::{le16, le32, le_value, read_uint_le};
use crate::error::Error;
use crate::payload::{
    parse_args, parse_result, Arg, Argument, ARG_COUNT, ARG_GET, ARG_ID, ARG_MATCH, ARG_RESULT,
    ARG_TIMEOUT, ARG_VERSION,
};
use crate::transport::{
    add_arg, add_arg_u16, add_arg_u32, create_transport_buffer, fits_one_frame, lemma_frame_grows,
    request_frame, set_cmd,
};
use vstd::prelude::*;

verus! {

/// Capture an image of the finger on the sensor.
pub const CMD_CAPTURE: u16 = 0x0001;

/// Drive an enrolment session.
pub const CMD_ENROLL: u16 = 0x0002;

/// Match the extracted template against the stored ones.
pub const CMD_IDENTIFY: u16 = 0x0003;

/// Extract a template from the captured image.
pub const CMD_EXTRACT: u16 = 0x0005;

/// Work on the template that was just made.
pub const CMD_TEMPLATE: u16 = 0x0006;

/// Wait for a finger to come or go.
pub const CMD_WAIT: u16 = 0x0007;

/// Ask for the sensor's version.
pub const CMD_VERSION: u16 = 0x3004;

/// Work on the store of templates.
pub const CMD_STORAGE_TEMPLATE: u16 = 0x4002;

/// Enrolment stage: begin a session.
pub const ENROLL_BEGIN: u16 = 0x0003;

/// Enrolment stage: add the captured image.
pub const ENROLL_ADD: u16 = 0x0004;

/// Enrolment stage: close the session.
pub const ENROLL_DONE: u16 = 0x0005;

/// With `CMD_EXTRACT`: take the captured image.
pub const MARK_IMAGE: u16 = 0x0008;

/// With `CMD_TEMPLATE`: save it under the id that follows.
pub const MARK_SAVE: u16 = 0x1008;

/// With `CMD_STORAGE_TEMPLATE`: delete.
pub const MARK_DELETE: u16 = 0x1009;

/// With `MARK_DELETE`: every template.
pub const MARK_ALL: u16 = 0x0007;

/// With `CMD_WAIT`: until the finger is lifted.
pub const MARK_FINGER_UP: u16 = 0x0002;

/// The id that `read_identity` reports where the sensor matched and named none.
pub const NO_ID: u32 = 0xFFFF_FFFF;

/// An argument that says something by standing there: it has no value.
pub open spec fn mark(tag: u16) -> Arg {
    Arg { tag, value: Seq::empty() }
}

/// The time limit of a command: an argument for a limit, nothing for none.
pub open spec fn limit(timeout: u32) -> Seq<Arg> {
    if timeout != 0 {
        seq![Arg { tag: ARG_TIMEOUT, value: le32(timeout) }]
    } else {
        Seq::empty()
    }
}

/// The stage of an enrolment command: a mark for a stage, nothing for none.
pub open spec fn stage(state: u16) -> Seq<Arg> {
    if state != 0 {
        seq![mark(state)]
    } else {
        Seq::empty()
    }
}

/// The frame that asks for the version, before it is finalised.
pub open spec fn version_frame() -> Seq<u8> {
    request_frame(CMD_VERSION, seq![mark(ARG_GET), mark(ARG_VERSION)])
}

/// The frame that asks for a capture, before it is finalised.
pub open spec fn capture_frame(timeout: u32) -> Seq<u8> {
    request_frame(CMD_CAPTURE, limit(timeout))
}

/// The frame that drives an enrolment session, before it is finalised.
pub open spec fn enroll_frame(state: u16) -> Seq<u8> {
    request_frame(CMD_ENROLL, stage(state))
}

/// The frame that asks for a template of the captured image, before it is
/// finalised.
pub open spec fn extract_frame() -> Seq<u8> {
    request_frame(CMD_EXTRACT, seq![mark(MARK_IMAGE)])
}

/// The frame that asks whom the template matches, before it is finalised.
pub open spec fn identify_frame() -> Seq<u8> {
    request_frame(CMD_IDENTIFY, Seq::empty())
}

/// The frame that asks to save the new template, before it is finalised.
pub open spec fn save_frame(tplid: u16) -> Seq<u8> {
    request_frame(CMD_TEMPLATE, seq![mark(MARK_SAVE), Arg { tag: ARG_ID, value: le16(tplid) }])
}

/// The frame that asks how many templates are stored, before it is finalised.
pub open spec fn count_frame() -> Seq<u8> {
    request_frame(CMD_STORAGE_TEMPLATE, seq![mark(ARG_COUNT)])
}

/// The frame that asks to wait until the finger is lifted, before it is
/// finalised.
pub open spec fn finger_up_frame(timeout: u32) -> Seq<u8> {
    request_frame(CMD_WAIT, limit(timeout).push(mark(MARK_FINGER_UP)))
}

/// The frame that asks to delete every template, before it is finalised.
pub open spec fn delete_all_frame() -> Seq<u8> {
    request_frame(CMD_STORAGE_TEMPLATE, seq![mark(MARK_DELETE), mark(MARK_ALL)])
}

/// Whether an argument with this tag stands among `args`.
pub open spec fn carries(args: Seq<Arg>, tag: u16) -> bool {
    exists|i: int| 0 <= i < args.len() && (#[trigger] args[i]).tag == tag
}

/// The value of the last argument with this tag.
pub open spec fn last_of(args: Seq<Arg>, tag: u16) -> Option<Seq<u8>>
    decreases args.len(),
{
    if args.len() == 0 {
        None
    } else if args.last().tag == tag {
        Some(args.last().value)
    } else {
        last_of(args.drop_last(), tag)
    }
}

/// The values of all arguments with this tag, joined in their order.
pub open spec fn all_of(args: Seq<Arg>, tag: u16) -> Seq<u8>
    decreases args.len(),
{
    if args.len() == 0 {
        Seq::empty()
    } else if args.last().tag == tag {
        all_of(args.drop_last(), tag) + args.last().value
    } else {
        all_of(args.drop_last(), tag)
    }
}

/// A value that can be read as a number: one to eight bytes.
pub open spec fn numeric(value: Seq<u8>) -> bool {
    1 <= value.len() <= 8
}

/// Whether every argument with this tag holds a number.
pub open spec fn numbers(args: Seq<Arg>, tag: u16) -> bool {
    forall|i: int| 0 <= i < args.len() && (#[trigger] args[i]).tag == tag ==> numeric(args[i].value)
}

/// The number in a value: its bytes read low byte first, cut to 32 bits.
pub open spec fn number(value: Seq<u8>) -> u32 {
    (le_value(value) % 0x1_0000_0000) as u32
}

/// The number in the last argument with this tag, if there is one.
pub open spec fn last_number(args: Seq<Arg>, tag: u16) -> Option<u32> {
    match last_of(args, tag) {
        Some(value) => Some(number(value)),
        None => None,
    }
}

/// Reading of a version answer: the sensor's verdict must be there and the
/// version text must not be empty.
pub open spec fn version_verdict<E>(args: Seq<Arg>) -> Result<Seq<u8>, Error<E>> {
    if carries(args, ARG_RESULT) && all_of(args, ARG_VERSION).len() > 0 {
        Ok(all_of(args, ARG_VERSION))
    } else {
        Err(Error::UnexpectedResponse)
    }
}

/// Reading of an answer that is the sensor's verdict alone: its low byte.
pub open spec fn code_verdict<E>(args: Seq<Arg>) -> Result<u8, Error<E>> {
    if !numbers(args, ARG_RESULT) {
        Err(Error::UnexpectedResponse)
    } else {
        match last_number(args, ARG_RESULT) {
            Some(code) => Ok((code % 256) as u8),
            None => Err(Error::UnexpectedResponse),
        }
    }
}

/// Reading of an answer that may say how many images are still wanted: that
/// count, or zero where the answer names none.
pub open spec fn remaining_verdict<E>(args: Seq<Arg>) -> Result<u32, Error<E>> {
    if !numbers(args, ARG_COUNT) || !carries(args, ARG_RESULT) {
        Err(Error::UnexpectedResponse)
    } else {
        match last_number(args, ARG_COUNT) {
            Some(count) => Ok(count),
            None => Ok(0u32),
        }
    }
}

/// Reading of an answer that must give a count.
pub open spec fn count_verdict<E>(args: Seq<Arg>) -> Result<u32, Error<E>> {
    if !numbers(args, ARG_COUNT) || !carries(args, ARG_RESULT) {
        Err(Error::UnexpectedResponse)
    } else {
        match last_number(args, ARG_COUNT) {
            Some(count) => Ok(count),
            None => Err(Error::UnexpectedResponse),
        }
    }
}

/// Reading of an answer that only confirms.
pub open spec fn done_verdict<E>(args: Seq<Arg>) -> Result<u32, Error<E>> {
    if carries(args, ARG_RESULT) {
        Ok(0u32)
    } else {
        Err(Error::UnexpectedResponse)
    }
}

/// Reading of an identify answer. The sensor's word that nothing matched is
/// `NoMatch`, whatever else the answer holds. An answer that says nothing of
/// a match counts as that word where it holds the sensor's verdict, and is a
/// protocol error where it holds neither. A match needs the verdict; its id
/// is the last one that the answer names, or `NO_ID` where it names none.
pub open spec fn identity_verdict<E>(args: Seq<Arg>) -> Result<u32, Error<E>> {
    if !numbers(args, ARG_MATCH) {
        Err(Error::UnexpectedResponse)
    } else {
        match last_number(args, ARG_MATCH) {
            Some(matched) => if matched == 0 {
                Err(Error::NoMatch)
            } else if !carries(args, ARG_RESULT) || !numbers(args, ARG_ID) {
                Err(Error::UnexpectedResponse)
            } else {
                match last_number(args, ARG_ID) {
                    Some(id) => Ok(id),
                    None => Ok(NO_ID),
                }
            },
            None => if carries(args, ARG_RESULT) {
                Err(Error::NoMatch)
            } else {
                Err(Error::UnexpectedResponse)
            },
        }
    }
}

/// Whether a payload answers `cmd` and a walk over its arguments comes upon
/// the sensor's verdict.
pub open spec fn answered(payload: Seq<u8>, cmd: u16) -> bool {
    match parse_args(payload, cmd) {
        Some(args) => carries(args, ARG_RESULT),
        None => false,
    }
}

/// What a version answer says.
pub open spec fn version_reply<E>(payload: Seq<u8>, cmd: u16) -> Result<Seq<u8>, Error<E>> {
    match parse_args(payload, cmd) {
        Some(args) => version_verdict(args),
        None => Err(Error::UnexpectedResponse),
    }
}

/// What an answer says that is the sensor's verdict alone.
pub open spec fn code_reply<E>(payload: Seq<u8>, cmd: u16) -> Result<u8, Error<E>> {
    match parse_args(payload, cmd) {
        Some(args) => code_verdict(args),
        None => Err(Error::UnexpectedResponse),
    }
}

/// What an answer says that may tell how many images are still wanted.
pub open spec fn remaining_reply<E>(payload: Seq<u8>, cmd: u16) -> Result<u32, Error<E>> {
    match parse_args(payload, cmd) {
        Some(args) => remaining_verdict(args),
        None => Err(Error::UnexpectedResponse),
    }
}

/// What an answer says that must give a count.
pub open spec fn count_reply<E>(payload: Seq<u8>, cmd: u16) -> Result<u32, Error<E>> {
    match parse_args(payload, cmd) {
        Some(args) => count_verdict(args),
        None => Err(Error::UnexpectedResponse),
    }
}

/// What an answer says that only confirms.
pub open spec fn done_reply<E>(payload: Seq<u8>, cmd: u16) -> Result<u32, Error<E>> {
    match parse_args(payload, cmd) {
        Some(args) => done_verdict(args),
        None => Err(Error::UnexpectedResponse),
    }
}

/// What an identify answer says.
pub open spec fn identity_reply<E>(payload: Seq<u8>, cmd: u16) -> Result<u32, Error<E>> {
    match parse_args(payload, cmd) {
        Some(args) => identity_verdict(args),
        None => Err(Error::UnexpectedResponse),
    }
}

/// Reads a value as a number, where it holds one.
pub fn value_u32(value: &[u8]) -> (r: Option<u32>)
    ensures
        r == if numeric(value@) {
            Some(number(value@))
        } else {
            None
        },
{
    let len = value.len();
    if len < 1 || len > 8 {
        return None;
    }
    let wide: u64 = read_uint_le(value, len);
    let low: u64 = wide & 0xFFFF_FFFF;
    assert(low == wide % 0x1_0000_0000) by (bit_vector)
        requires
            low == wide & 0xFFFF_FFFF,
    ;
    assert(value@.subrange(0, len as int) =~= value@);
    Some(low as u32)
}

/// Whether an argument with this tag stands among `args`.
pub fn has_arg(args: &Vec<Argument>, tag: u16) -> (r: bool)
    ensures
        r == carries(args.deep_view(), tag),
{
    let mut i: usize = 0;
    while i < args.len()
        invariant
            i <= args.len(),
            forall|j: int| 0 <= j < i ==> (#[trigger] args.deep_view()[j]).tag != tag,
        decreases args.len() - i,
    {
        if args[i].tag == tag {
            assert(args.deep_view()[i as int].tag == tag);
            return true;
        }
        i += 1;
    }
    false
}

/// The values of all arguments with this tag, joined in their order.
pub fn joined(args: &Vec<Argument>, tag: u16) -> (r: Vec<u8>)
    ensures
        r@ == all_of(args.deep_view(), tag),
{
    let ghost all = args.deep_view();
    let mut out: Vec<u8> = Vec::new();
    let mut i: usize = 0;
    while i < args.len()
        invariant
            i <= args.len(),
            all == args.deep_view(),
            out@ == all_of(all.take(i as int), tag),
        decreases args.len() - i,
    {
        proof {
            assert(all.take(i + 1).drop_last() =~= all.take(i as int));
            assert(all.take(i + 1).last() == args[i as int]@);
        }
        if args[i].tag == tag {
            let value = &args[i].value;
            let mut k: usize = 0;
            let ghost before = out@;
            while k < value.len()
                invariant
                    k <= value.len(),
                    out@ == before + value@.take(k as int),
                decreases value.len() - k,
            {
                out.push(value[k]);
                assert(out@ =~= before + value@.take(k + 1));
                k += 1;
            }
            assert(value@.take(k as int) =~= value@);
        }
        i += 1;
    }
    assert(all.take(i as int) =~= all);
    out
}

/// The number in the last argument with this tag, if there is one; the
/// protocol error where an argument with this tag holds no number.
pub fn find_u32<E>(args: &Vec<Argument>, tag: u16) -> (r: Result<Option<u32>, Error<E>>)
    ensures
        r == if numbers(args.deep_view(), tag) {
            Ok::<Option<u32>, Error<E>>(last_number(args.deep_view(), tag))
        } else {
            Err::<Option<u32>, Error<E>>(Error::UnexpectedResponse)
        },
{
    let ghost all = args.deep_view();
    let mut found: Option<u32> = None;
    let mut i: usize = 0;
    while i < args.len()
        invariant
            i <= args.len(),
            all == args.deep_view(),
            numbers(all.take(i as int), tag),
            found == last_number(all.take(i as int), tag),
        decreases args.len() - i,
    {
        proof {
            assert(all.take(i + 1).drop_last() =~= all.take(i as int));
            assert(all.take(i + 1).last() == args[i as int]@);
        }
        if args[i].tag == tag {
            match value_u32(args[i].value.as_slice()) {
                Some(n) => {
                    found = Some(n);
                },
                None => {
                    assert(all[i as int].tag == tag && !numeric(all[i as int].value));
                    return Err(Error::UnexpectedResponse);
                },
            }
        }
        assert forall|j: int| 0 <= j < i + 1 && (#[trigger] all.take(i + 1)[j]).tag == tag implies numeric(
            all.take(i + 1)[j].value,
        ) by {
            if j < i {
                assert(all.take(i as int)[j].tag == tag);
            }
        }
        i += 1;
    }
    assert(all.take(i as int) =~= all);
    Ok(found)
}

/// Reads a version answer.
pub fn read_version<E>(payload: &[u8], cmd: u16) -> (r: Result<Vec<u8>, Error<E>>)
    ensures
        match version_reply::<E>(payload@, cmd) {
            Ok(text) => r matches Ok(version) && version@ == text,
            Err(e) => r == Err::<Vec<u8>, Error<E>>(e),
        },
        r is Ok ==> answered(payload@, cmd),
{
    let args = match parse_result::<E>(payload, cmd) {
        Ok(args) => args,
        Err(e) => { return Err(e); },
    };
    let ok_resp = has_arg(&args, ARG_RESULT);
    let version = joined(&args, ARG_VERSION);
    if ok_resp && version.len() > 0 {
        return Ok(version);
    }
    Err(Error::UnexpectedResponse)
}

/// Reads an answer that is the sensor's verdict alone.
pub fn read_code<E>(payload: &[u8], cmd: u16) -> (r: Result<u8, Error<E>>)
    ensures
        r == code_reply::<E>(payload@, cmd),
        r is Ok ==> answered(payload@, cmd),
{
    let args = match parse_result::<E>(payload, cmd) {
        Ok(args) => args,
        Err(e) => { return Err(e); },
    };
    let code = match find_u32::<E>(&args, ARG_RESULT) {
        Ok(code) => code,
        Err(e) => { return Err(e); },
    };
    match code {
        Some(code) => {
            let low: u32 = code & 0xFF;
            assert(low == code % 256) by (bit_vector)
                requires
                    low == code & 0xFF,
            ;
            proof {
                lemma_last_of_carries(args.deep_view(), ARG_RESULT);
            }
            Ok(low as u8)
        },
        None => Err(Error::UnexpectedResponse),
    }
}

/// Reads an answer that may tell how many images are still wanted.
pub fn read_remaining<E>(payload: &[u8], cmd: u16) -> (r: Result<u32, Error<E>>)
    ensures
        r == remaining_reply::<E>(payload@, cmd),
        r is Ok ==> answered(payload@, cmd),
{
    let args = match parse_result::<E>(payload, cmd) {
        Ok(args) => args,
        Err(e) => { return Err(e); },
    };
    let count = match find_u32::<E>(&args, ARG_COUNT) {
        Ok(count) => count,
        Err(e) => { return Err(e); },
    };
    if !has_arg(&args, ARG_RESULT) {
        return Err(Error::UnexpectedResponse);
    }
    match count {
        Some(count) => Ok(count),
        None => Ok(0),
    }
}

/// Reads an answer that must give a count.
pub fn read_count<E>(payload: &[u8], cmd: u16) -> (r: Result<u32, Error<E>>)
    ensures
        r == count_reply::<E>(payload@, cmd),
        r is Ok ==> answered(payload@, cmd),
{
    let args = match parse_result::<E>(payload, cmd) {
        Ok(args) => args,
        Err(e) => { return Err(e); },
    };
    let count = match find_u32::<E>(&args, ARG_COUNT) {
        Ok(count) => count,
        Err(e) => { return Err(e); },
    };
    if !has_arg(&args, ARG_RESULT) {
        return Err(Error::UnexpectedResponse);
    }
    match count {
        Some(count) => Ok(count),
        None => Err(Error::UnexpectedResponse),
    }
}

/// Reads an answer that only confirms.
pub fn read_done<E>(payload: &[u8], cmd: u16) -> (r: Result<u32, Error<E>>)
    ensures
        r == done_reply::<E>(payload@, cmd),
        r is Ok ==> answered(payload@, cmd),
{
    let args = match parse_result::<E>(payload, cmd) {
        Ok(args) => args,
        Err(e) => { return Err(e); },
    };
    if has_arg(&args, ARG_RESULT) {
        return Ok(0);
    }
    Err(Error::UnexpectedResponse)
}

/// Reads an identify answer.
pub fn read_identity<E>(payload: &[u8], cmd: u16) -> (r: Result<u32, Error<E>>)
    ensures
        r == identity_reply::<E>(payload@, cmd),
        r is Ok ==> answered(payload@, cmd),
{
    let args = match parse_result::<E>(payload, cmd) {
        Ok(args) => args,
        Err(e) => { return Err(e); },
    };
    let matched = match find_u32::<E>(&args, ARG_MATCH) {
        Ok(matched) => matched,
        Err(e) => { return Err(e); },
    };
    let answered = has_arg(&args, ARG_RESULT);
    match matched {
        Some(litematch) => {
            if litematch == 0 {
                return Err(Error::NoMatch);
            }
            if !answered {
                return Err(Error::UnexpectedResponse);
            }
            match find_u32::<E>(&args, ARG_ID) {
                Ok(Some(id)) => Ok(id),
                Ok(None) => Ok(NO_ID),
                Err(e) => Err(e),
            }
        },
        None => {
            if answered {
                Err(Error::NoMatch)
            } else {
                Err(Error::UnexpectedResponse)
            }
        },
    }
}

/// An argument whose value was found was there.
pub proof fn lemma_last_of_carries(args: Seq<Arg>, tag: u16)
    ensures
        last_of(args, tag) is Some <==> carries(args, tag),
    decreases args.len(),
{
    if args.len() > 0 {
        lemma_last_of_carries(args.drop_last(), tag);
        if args.last().tag == tag {
            assert(args[args.len() - 1].tag == tag);
        } else if carries(args, tag) {
            let i = choose|i: int| 0 <= i < args.len() && (#[trigger] args[i]).tag == tag;
            assert(args.drop_last()[i].tag == tag);
        } else if carries(args.drop_last(), tag) {
            let i = choose|i: int|
                0 <= i < args.drop_last().len() && (#[trigger] args.drop_last()[i]).tag == tag;
            assert(args[i].tag == tag);
        }
    }
}

/// The frame that asks for the version.
pub fn version_request() -> (buf: Vec<u8>)
    ensures
        buf@ == version_frame(),
        fits_one_frame(buf@),
{
    let ghost none = Seq::<Arg>::empty();
    proof {
        lemma_frame_grows(CMD_VERSION, none, mark(ARG_GET));
        lemma_frame_grows(CMD_VERSION, none.push(mark(ARG_GET)), mark(ARG_VERSION));
        assert(none.push(mark(ARG_GET)).push(mark(ARG_VERSION)) =~= seq![
            mark(ARG_GET),
            mark(ARG_VERSION),
        ]);
    }
    add_arg(add_arg(set_cmd(create_transport_buffer(), CMD_VERSION), ARG_GET), ARG_VERSION)
}

/// The frame that asks for a capture; a `timeout` of zero waits without limit.
pub fn capture_request(timeout: u32) -> (buf: Vec<u8>)
    ensures
        buf@ == capture_frame(timeout),
        fits_one_frame(buf@),
{
    let ghost none = Seq::<Arg>::empty();
    let mut buf = set_cmd(create_transport_buffer(), CMD_CAPTURE);
    if timeout != 0 {
        proof {
            lemma_frame_grows(CMD_CAPTURE, none, Arg { tag: ARG_TIMEOUT, value: le32(timeout) });
            assert(none.push(Arg { tag: ARG_TIMEOUT, value: le32(timeout) }) =~= limit(timeout));
        }
        buf = add_arg_u32(buf, ARG_TIMEOUT, timeout);
    }
    buf
}

/// The frame that drives an enrolment session to `state`.
pub fn enroll_request(state: u16) -> (buf: Vec<u8>)
    ensures
        buf@ == enroll_frame(state),
        fits_one_frame(buf@),
{
    let ghost none = Seq::<Arg>::empty();
    let mut buf = set_cmd(create_transport_buffer(), CMD_ENROLL);
    if state != 0 {
        proof {
            lemma_frame_grows(CMD_ENROLL, none, mark(state));
            assert(none.push(mark(state)) =~= stage(state));
        }
        buf = add_arg(buf, state);
    }
    buf
}

/// The frame that asks for a template of the captured image.
pub fn extract_request() -> (buf: Vec<u8>)
    ensures
        buf@ == extract_frame(),
        fits_one_frame(buf@),
{
    let ghost none = Seq::<Arg>::empty();
    proof {
        lemma_frame_grows(CMD_EXTRACT, none, mark(MARK_IMAGE));
        assert(none.push(mark(MARK_IMAGE)) =~= seq![mark(MARK_IMAGE)]);
    }
    add_arg(set_cmd(create_transport_buffer(), CMD_EXTRACT), MARK_IMAGE)
}

/// The frame that asks whom the extracted template matches.
pub fn identify_request() -> (buf: Vec<u8>)
    ensures
        buf@ == identify_frame(),
        fits_one_frame(buf@),
{
    set_cmd(create_transport_buffer(), CMD_IDENTIFY)
}

/// The frame that asks to save the new template under `tplid`.
pub fn save_request(tplid: u16) -> (buf: Vec<u8>)
    ensures
        buf@ == save_frame(tplid),
        fits_one_frame(buf@),
{
    let ghost none = Seq::<Arg>::empty();
    let ghost id = Arg { tag: ARG_ID, value: le16(tplid) };
    proof {
        lemma_frame_grows(CMD_TEMPLATE, none, mark(MARK_SAVE));
        lemma_frame_grows(CMD_TEMPLATE, none.push(mark(MARK_SAVE)), id);
        assert(none.push(mark(MARK_SAVE)).push(id) =~= seq![mark(MARK_SAVE), id]);
    }
    add_arg_u16(add_arg(set_cmd(create_transport_buffer(), CMD_TEMPLATE), MARK_SAVE), ARG_ID, tplid)
}

/// The frame that asks how many templates are stored.
pub fn count_request() -> (buf: Vec<u8>)
    ensures
        buf@ == count_frame(),
        fits_one_frame(buf@),
{
    let ghost none = Seq::<Arg>::empty();
    proof {
        lemma_frame_grows(CMD_STORAGE_TEMPLATE, none, mark(ARG_COUNT));
        assert(none.push(mark(ARG_COUNT)) =~= seq![mark(ARG_COUNT)]);
    }
    add_arg(set_cmd(create_transport_buffer(), CMD_STORAGE_TEMPLATE), ARG_COUNT)
}

/// The frame that asks to wait until the finger is lifted; a `timeout` of
/// zero waits without limit.
pub fn finger_up_request(timeout: u32) -> (buf: Vec<u8>)
    ensures
        buf@ == finger_up_frame(timeout),
        fits_one_frame(buf@),
{
    let ghost none = Seq::<Arg>::empty();
    let mut buf = set_cmd(create_transport_buffer(), CMD_WAIT);
    if timeout != 0 {
        proof {
            lemma_frame_grows(CMD_WAIT, none, Arg { tag: ARG_TIMEOUT, value: le32(timeout) });
            assert(none.push(Arg { tag: ARG_TIMEOUT, value: le32(timeout) }) =~= limit(timeout));
        }
        buf = add_arg_u32(buf, ARG_TIMEOUT, timeout);
    }
    proof {
        lemma_frame_grows(CMD_WAIT, limit(timeout), mark(MARK_FINGER_UP));
    }
    add_arg(buf, MARK_FINGER_UP)
}

/// The frame that asks to delete every stored template.
pub fn delete_all_request() -> (buf: Vec<u8>)
    ensures
        buf@ == delete_all_frame(),
        fits_one_frame(buf@),
{
    let ghost none = Seq::<Arg>::empty();
    proof {
        lemma_frame_grows(CMD_STORAGE_TEMPLATE, none, mark(MARK_DELETE));
        lemma_frame_grows(CMD_STORAGE_TEMPLATE, none.push(mark(MARK_DELETE)), mark(MARK_ALL));
        assert(none.push(mark(MARK_DELETE)).push(mark(MARK_ALL)) =~= seq![
            mark(MARK_DELETE),
            mark(MARK_ALL),
        ]);
    }
    add_arg(add_arg(set_cmd(create_transport_buffer(), CMD_STORAGE_TEMPLATE), MARK_DELETE), MARK_ALL)
}

} // verus!
