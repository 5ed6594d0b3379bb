//! The application payload: a command code, an argument count and a run of
//! tagged, length-prefixed arguments.

use crate::codec::{as_u16, le16, u16_le};
use crate::error::Error;
use vstd::prelude::*;
use vstd::slice::slice_to_vec;

verus! {

/// Marks the sensor's verdict on a command; every good answer carries it.
pub const ARG_RESULT: u16 = 0x2001;

/// A count: templates stored, or images still wanted.
pub const ARG_COUNT: u16 = 0x2002;

/// A time limit in milliseconds.
pub const ARG_TIMEOUT: u16 = 0x5001;

/// The version text of the sensor.
pub const ARG_VERSION: u16 = 0x6003;

/// Asks for a value rather than setting one.
pub const ARG_GET: u16 = 0x1004;

/// Whether the captured finger matched a template.
pub const ARG_MATCH: u16 = 0x000A;

/// A template id.
pub const ARG_ID: u16 = 0x0006;

/// An argument as contracts speak of it: its tag and the bytes of its value.
pub struct Arg {
    pub tag: u16,
    pub value: Seq<u8>,
}

/// An argument read from a payload.
#[derive(Debug, PartialEq, Eq)]
pub struct Argument {
    pub tag: u16,
    pub value: Vec<u8>,
}

impl View for Argument {
    type V = Arg;

    open spec fn view(&self) -> Arg {
        Arg { tag: self.tag, value: self.value@ }
    }
}

impl DeepView for Argument {
    type V = Arg;

    open spec fn deep_view(&self) -> Arg {
        self@
    }
}

/// An argument on the wire: tag, length of the value, value.
pub open spec fn tlv(a: Arg) -> Seq<u8> {
    le16(a.tag) + le16(a.value.len() as u16) + a.value
}

/// A run of arguments on the wire, one after the other.
pub open spec fn tlvs(args: Seq<Arg>) -> Seq<u8>
    decreases args.len(),
{
    if args.len() == 0 {
        Seq::empty()
    } else {
        tlv(args[0]) + tlvs(args.skip(1))
    }
}

/// The bytes that the arguments of a payload take on the wire, headers included.
pub open spec fn tlv_bytes(args: Seq<Arg>) -> nat
    decreases args.len(),
{
    if args.len() == 0 {
        0
    } else {
        4 + args[0].value.len() + tlv_bytes(args.skip(1))
    }
}

/// Arguments that a payload can carry: the count and each length fit 16 bits.
pub open spec fn encodable(args: Seq<Arg>) -> bool {
    &&& args.len() <= 0xFFFF
    &&& forall|i: int| 0 <= i < args.len() ==> (#[trigger] args[i]).value.len() <= 0xFFFF
}

/// The application payload of a command and its arguments.
pub open spec fn app_payload(cmd: u16, args: Seq<Arg>) -> Seq<u8> {
    le16(cmd) + le16(args.len() as u16) + tlvs(args)
}

/// The `count` arguments that start at offset `at` of a payload, or `None`
/// where one of them would reach past its end.
pub open spec fn args_at(payload: Seq<u8>, at: int, count: nat) -> Option<Seq<Arg>>
    decreases count,
{
    if count == 0 {
        Some(Seq::empty())
    } else if payload.len() < at + 4 {
        None
    } else {
        let tag = u16_le(payload[at + 1], payload[at]);
        let len = u16_le(payload[at + 3], payload[at + 2]) as int;
        if payload.len() < at + 4 + len {
            None
        } else {
            match args_at(payload, at + 4 + len, (count - 1) as nat) {
                Some(rest) => Some(
                    seq![Arg { tag, value: payload.subrange(at + 4, at + 4 + len) }] + rest,
                ),
                None => None,
            }
        }
    }
}

/// The arguments of a payload that answers command `cmd`: `None` where the
/// payload is shorter than six bytes, echoes another command, or holds fewer
/// arguments than it announces.
pub open spec fn parse_args(payload: Seq<u8>, cmd: u16) -> Option<Seq<Arg>> {
    if payload.len() < 6 || u16_le(payload[1], payload[0]) != cmd {
        None
    } else {
        args_at(payload, 4, u16_le(payload[3], payload[2]) as nat)
    }
}

/// Walks the arguments of a payload that answers command `cmd` and returns
/// them in the order in which they stand.
pub fn parse_result<E>(payload: &[u8], cmd: u16) -> (r: Result<Vec<Argument>, Error<E>>)
    ensures
        match parse_args(payload@, cmd) {
            Some(args) => r matches Ok(found) && found.deep_view() == args,
            None => r matches Err(Error::UnexpectedResponse),
        },
{
    let len = payload.len();
    if len < 6 {
        return Err(Error::UnexpectedResponse);
    }
    if cmd != as_u16(payload[1], payload[0]) {
        return Err(Error::UnexpectedResponse);
    }
    let argc: u16 = as_u16(payload[3], payload[2]);
    let mut current: usize = 4;
    let mut found: Vec<Argument> = Vec::new();
    let mut i: u16 = 0;
    while i < argc
        invariant
            len == payload@.len(),
            i <= argc,
            4 <= current <= len,
            match args_at(payload@, current as int, (argc - i) as nat) {
                Some(rest) => parse_args(payload@, cmd) == Some(found.deep_view() + rest),
                None => parse_args(payload@, cmd) is None,
            },
        decreases argc - i,
    {
        if len - current < 4 {
            return Err(Error::UnexpectedResponse);
        }
        let tag: u16 = as_u16(payload[current + 1], payload[current]);
        let arglen: usize = as_u16(payload[current + 3], payload[current + 2]) as usize;
        current += 4;
        if len - current < arglen {
            return Err(Error::UnexpectedResponse);
        }
        let value = slice_to_vec(&payload[current..current + arglen]);
        let ghost before = found.deep_view();
        let ghost rest = args_at(payload@, current + arglen, (argc - i - 1) as nat);
        found.push(Argument { tag, value });
        proof {
            let one = seq![Arg { tag, value: payload@.subrange(current as int, current + arglen) }];
            assert(found.deep_view() =~= before + one);
            if rest is Some {
                assert(before + (one + rest->0) =~= found.deep_view() + rest->0);
            }
        }
        current += arglen;
        i += 1;
    }
    proof {
        assert(found.deep_view() + Seq::<Arg>::empty() =~= found.deep_view());
    }
    Ok(found)
}

} // verus!
