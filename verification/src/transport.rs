//! The outbound transport frame: a fixed preamble, the application payload,
//! and, once the frame is finalised, its two length fields and a CRC-32.

use crate::codec::{
    checksum_ieee, crc32_ieee, le16, le32, le_value, lemma_le32_value, push_u16, push_u32,
    read_uint_le, u16_le,
};
use crate::payload::{app_payload, tlv, tlvs, Arg};
use vstd::prelude::*;

verus! {

/// The ten bytes that open every outbound frame: channel 1, the two length
/// fields still zero, sequence number 1 and sequence length 1.
pub open spec fn preamble() -> Seq<u8> {
    seq![1u8, 0u8, 0u8, 0u8, 0u8, 0u8, 1u8, 0u8, 1u8, 0u8]
}

/// A frame under construction that carries command `cmd` with `args`.
pub open spec fn request_frame(cmd: u16, args: Seq<Arg>) -> Seq<u8> {
    preamble() + app_payload(cmd, args)
}

/// A frame under construction with its argument count raised by one.
pub open spec fn counted(buf: Seq<u8>) -> Seq<u8> {
    buf.update(12, (buf[12] + 1) as u8)
}

/// A frame whose payload fits a single frame: the payload and the six bytes
/// before it are counted in one byte.
pub open spec fn fits_one_frame(buf: Seq<u8>) -> bool {
    10 <= buf.len() <= 259
}

/// A frame with its two length fields filled in: the payload's length at
/// offset 4, the same plus six at offset 2, both with a zero high byte.
pub open spec fn sized(buf: Seq<u8>) -> Seq<u8> {
    let n = buf.len() - 10;
    buf.update(2, (n + 6) as u8).update(3, 0u8).update(4, n as u8).update(5, 0u8)
}

/// A frame as it goes out: sized, and followed by the CRC-32 of all that
/// stands from offset 4 on.
pub open spec fn finalised(buf: Seq<u8>) -> Seq<u8> {
    sized(buf) + le32(crc32_ieee(sized(buf).skip(4)))
}

/// Starts a frame with the preamble.
pub fn create_transport_buffer() -> (buf: Vec<u8>)
    ensures
        buf@ == preamble(),
{
    let mut buf: Vec<u8> = Vec::with_capacity(256);
    buf.push(1);
    buf.push(0);
    buf.push(0);
    buf.push(0);
    buf.push(0);
    buf.push(0);
    buf.push(1);
    buf.push(0);
    buf.push(1);
    buf.push(0);
    assert(buf@ =~= preamble());
    buf
}

/// Appends the command code and an argument count of zero. The frame must
/// hold the preamble and nothing else.
pub fn set_cmd(buf: Vec<u8>, cmd: u16) -> (r: Vec<u8>)
    requires
        buf@.len() == 10,
    ensures
        r@ == buf@ + le16(cmd) + le16(0),
        buf@ == preamble() ==> r@ == request_frame(cmd, Seq::empty()),
{
    let r = push_u16(push_u16(buf, cmd), 0);
    proof {
        assert(tlvs(Seq::<Arg>::empty()) =~= Seq::<u8>::empty());
        assert(buf@ + le16(cmd) + le16(0) =~= buf@ + app_payload(cmd, Seq::empty()));
    }
    r
}

/// The command code of a frame, where the frame is long enough to hold one.
pub fn get_cmd(buf: &[u8]) -> (r: Option<u16>)
    ensures
        r == if buf@.len() >= 12 {
            Some(u16_le(buf@[11], buf@[10]))
        } else {
            None
        },
{
    if buf.len() >= 12 {
        let field = &buf[10..12];
        let wide: u64 = read_uint_le(field, 2);
        let low: u64 = wide & 0xFFFF;
        proof {
            reveal_with_fuel(le_value, 3);
            assert(field@.subrange(0, 2) =~= field@);
            assert(field@.skip(1).skip(1).len() == 0);
            assert(wide == field@[0] + 256 * field@[1]);
            assert(low == wide) by (bit_vector)
                requires
                    low == wide & 0xFFFF,
                    wide <= 0xFFFF,
            ;
        }
        return Some(low as u16);
    }
    None
}

/// Appends the CRC-32 of all that stands from offset 4 on.
pub fn push_crc(buf: Vec<u8>) -> (r: Vec<u8>)
    requires
        buf@.len() >= 4,
    ensures
        r@ == buf@ + le32(crc32_ieee(buf@.skip(4))),
{
    let crc: u32 = checksum_ieee(&buf.as_slice()[4..buf.len()]);
    assert(buf@.subrange(4, buf@.len() as int) =~= buf@.skip(4));
    push_u32(buf, crc)
}

/// Raises the argument count of a frame that holds a command.
fn count_arg(buf: Vec<u8>) -> (r: Vec<u8>)
    requires
        buf@.len() >= 14,
        buf@[12] < 255,
    ensures
        r@ == counted(buf@),
{
    let mut r = buf;
    let n: u8 = r[12];
    r[12] = n + 1;
    r
}

/// Appends an argument without a value.
pub fn add_arg(buf: Vec<u8>, arg: u16) -> (r: Vec<u8>)
    requires
        buf@.len() >= 14,
        buf@[12] < 255,
    ensures
        r@ == counted(buf@) + tlv(Arg { tag: arg, value: Seq::empty() }),
{
    let r = push_u16(push_u16(count_arg(buf), arg), 0);
    assert(r@ =~= counted(buf@) + tlv(Arg { tag: arg, value: Seq::empty() }));
    r
}

/// Appends an argument whose value is one byte, carried in a 16-bit field.
pub fn add_arg_u8(buf: Vec<u8>, arg: u16, data: u8) -> (r: Vec<u8>)
    requires
        buf@.len() >= 14,
        buf@[12] < 255,
    ensures
        r@ == counted(buf@) + tlv(Arg { tag: arg, value: seq![data, 0u8] }),
{
    let mut r = push_u16(push_u16(count_arg(buf), arg), 2);
    r.push(data);
    r.push(0);
    assert(r@ =~= counted(buf@) + tlv(Arg { tag: arg, value: seq![data, 0u8] }));
    r
}

/// Appends an argument whose value is a 16-bit number.
pub fn add_arg_u16(buf: Vec<u8>, arg: u16, data: u16) -> (r: Vec<u8>)
    requires
        buf@.len() >= 14,
        buf@[12] < 255,
    ensures
        r@ == counted(buf@) + tlv(Arg { tag: arg, value: le16(data) }),
{
    let r = push_u16(push_u16(push_u16(count_arg(buf), arg), 2), data);
    assert(r@ =~= counted(buf@) + tlv(Arg { tag: arg, value: le16(data) }));
    r
}

/// Appends an argument whose value is a 32-bit number.
pub fn add_arg_u32(buf: Vec<u8>, arg: u16, data: u32) -> (r: Vec<u8>)
    requires
        buf@.len() >= 14,
        buf@[12] < 255,
    ensures
        r@ == counted(buf@) + tlv(Arg { tag: arg, value: le32(data) }),
{
    let r = push_u32(push_u16(push_u16(count_arg(buf), arg), 4), data);
    assert(r@ =~= counted(buf@) + tlv(Arg { tag: arg, value: le32(data) }));
    r
}

/// Fills in the two length fields and appends the CRC-32.
pub fn finalise(buf: Vec<u8>) -> (r: Vec<u8>)
    requires
        fits_one_frame(buf@),
    ensures
        r@ == finalised(buf@),
        r@.len() == buf@.len() + 4,
        r@[2] == r@[4] + 6,
        r@[3] == 0 && r@[5] == 0,
        r@[4] == buf@.len() - 10,
        crc32_ieee(r@.subrange(4, r@.len() - 4)) == le_value(r@.subrange(r@.len() - 4, r@.len() as int)),
{
    let mut r = buf;
    let len: usize = r.len() - 10;
    let inner: u8 = (len & 0xFF) as u8;
    assert(len & 0xFF == len) by (bit_vector)
        requires
            len <= 249,
    ;
    r[2] = inner + 6;
    r[3] = 0;
    r[4] = inner;
    r[5] = 0;
    assert(r@ =~= sized(buf@));
    let r = push_crc(r);
    proof {
        let body = sized(buf@);
        let crc = crc32_ieee(body.skip(4));
        assert(r@.subrange(4, r@.len() - 4) =~= body.skip(4));
        assert(r@.subrange(r@.len() - 4, r@.len() as int) =~= le32(crc));
        lemma_le32_value(crc);
    }
    r
}

/// Appending an argument to a run appends its bytes.
pub proof fn lemma_tlvs_push(args: Seq<Arg>, a: Arg)
    ensures
        tlvs(args.push(a)) == tlvs(args) + tlv(a),
    decreases args.len(),
{
    if args.len() == 0 {
        assert(args.push(a).skip(1) =~= args);
        assert(tlvs(args.push(a)) == tlv(a) + tlvs(args));
        assert(tlvs(args.push(a)) =~= tlvs(args) + tlv(a));
    } else {
        lemma_tlvs_push(args.skip(1), a);
        assert(args.push(a).skip(1) =~= args.skip(1).push(a));
        assert(tlvs(args.push(a)) =~= tlvs(args) + tlv(a));
    }
}

/// What the `add_arg` family does to a frame, in terms of the command and the
/// arguments it carries: counting one more argument and appending its bytes
/// gives the frame of the same command with that argument at the end.
pub proof fn lemma_frame_grows(cmd: u16, args: Seq<Arg>, a: Arg)
    requires
        args.len() < 255,
    ensures
        request_frame(cmd, args).len() >= 14,
        request_frame(cmd, args)[12] == args.len(),
        counted(request_frame(cmd, args)) + tlv(a) == request_frame(cmd, args.push(a)),
{
    lemma_tlvs_push(args, a);
    let n = args.len() as u16;
    assert(le16(n) =~= seq![n as u8, 0u8]);
    assert(le16((n + 1) as u16) =~= seq![(n + 1) as u8, 0u8]);
    assert(counted(request_frame(cmd, args)) + tlv(a) =~= request_frame(cmd, args.push(a)));
}

} // verus!
