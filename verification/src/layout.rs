//! The wire form of packets, as functions from values to bytes.

use vstd::prelude::*;
use vstd::utf8::encode_utf8;
use crate::model::{value_tag, Argument, Bundle, EncodeError, Message, Packet, Value};

verus! {

/// `,`, which opens the type tags.
pub const COMMA: u8 = 0x2c;

/// `/`, with which the address of a message starts.
pub const SLASH: u8 = 0x2f;

/// The four bytes of `x`, most significant first.
#[verifier::opaque]
pub open spec fn be32(x: u32) -> Seq<u8> {
    seq![
        (x / 0x100_0000) as u8,
        (x / 0x1_0000 % 0x100) as u8,
        (x / 0x100 % 0x100) as u8,
        (x % 0x100) as u8,
    ]
}

/// The number whose four bytes, most significant first, open `b`.
#[verifier::opaque]
pub open spec fn from_be32(b: Seq<u8>) -> u32
    recommends
        b.len() >= 4,
{
    (b[0] * 0x100_0000 + b[1] * 0x1_0000 + b[2] * 0x100 + b[3]) as u32
}

/// A number is written in four bytes, and read back from them whatever
/// follows.
pub proof fn lemma_be32_round_trip(x: u32, rest: Seq<u8>)
    ensures
        be32(x).len() == 4,
        from_be32(be32(x) + rest) == x,
        (be32(x) + rest).skip(4) == rest,
{
    reveal(be32);
    reveal(from_be32);
    let s = be32(x) + rest;
    assert(s[0] == be32(x)[0] && s[1] == be32(x)[1] && s[2] == be32(x)[2] && s[3] == be32(x)[3]);
    assert(s.skip(4) =~= rest);
}

/// The two's complement bit pattern of `v`.
pub open spec fn int_bits(v: i32) -> u32 {
    if v >= 0 {
        v as u32
    } else {
        (v + 0x1_0000_0000) as u32
    }
}

/// The number that the two's complement bit pattern `bits` stands for.
pub open spec fn bits_int(bits: u32) -> i32 {
    if bits < 0x8000_0000 {
        bits as i32
    } else {
        (bits - 0x1_0000_0000) as i32
    }
}

/// `n` NULs.
pub open spec fn zeros(n: int) -> Seq<u8> {
    Seq::new(n as nat, |i: int| 0u8)
}

/// How many bytes a text of `n` bytes takes with its NUL and its padding.
pub open spec fn text_span(n: int) -> int {
    n + 4 - n % 4
}

/// How many bytes a blob of `n` bytes takes with its padding, without its
/// length prefix.
pub open spec fn blob_span(n: int) -> int {
    n + (4 - n % 4) % 4
}

/// A text on the wire: its bytes, a NUL, and NULs up to a multiple of four.
pub open spec fn text_wire(text: Seq<u8>) -> Seq<u8> {
    text + zeros(4 - text.len() % 4)
}

/// A blob on the wire: its length, its bytes, and NULs up to a multiple of
/// four.
pub open spec fn blob_wire(blob: Seq<u8>) -> Seq<u8> {
    be32(blob.len() as u32) + blob + zeros((4 - blob.len() % 4) % 4)
}

/// The payload of an argument of this value.
pub open spec fn value_wire(value: Value) -> Seq<u8> {
    match value {
        Value::Int(v) => be32(int_bits(v)),
        Value::Float(bits) => be32(bits),
        Value::String(s) => text_wire(encode_utf8(s)),
        Value::Blob(b) => blob_wire(b),
    }
}

/// The type tags of `args`, one byte each, in order.
pub open spec fn tags_of(args: Seq<Argument>) -> Seq<u8> {
    args.map_values(|a: Argument| value_tag(a.value))
}

/// The payloads of `args`, one after the other.
pub open spec fn payloads(args: Seq<Argument>) -> Seq<u8>
    decreases args.len(),
{
    if args.len() == 0 {
        Seq::empty()
    } else {
        value_wire(args[0].value) + payloads(args.skip(1))
    }
}

/// A message on the wire: the address, the type tags behind a comma, and the
/// payloads.
pub open spec fn message_wire(m: Message) -> Seq<u8> {
    text_wire(encode_utf8(m.address)) + text_wire(seq![COMMA] + tags_of(m.args)) + payloads(
        m.args,
    )
}

/// `#bundle` and its NUL.
pub open spec fn bundle_marker() -> Seq<u8> {
    seq![0x23u8, 0x62u8, 0x75u8, 0x6eu8, 0x64u8, 0x6cu8, 0x65u8, 0x00u8]
}

/// A packet behind the 32-bit count of its bytes.
pub open spec fn framed(packet: Seq<u8>) -> Seq<u8> {
    be32(packet.len() as u32) + packet
}

/// The messages of a bundle, each behind its length.
pub open spec fn elements_wire(messages: Seq<Message>) -> Seq<u8>
    decreases messages.len(),
{
    if messages.len() == 0 {
        Seq::empty()
    } else {
        framed(message_wire(messages[0])) + elements_wire(messages.skip(1))
    }
}

/// A bundle on the wire: the marker, the time tag, and the messages.
pub open spec fn bundle_wire(b: Bundle) -> Seq<u8> {
    bundle_marker() + be32(b.time_tag.seconds) + be32(b.time_tag.fractional) + elements_wire(
        b.packets,
    )
}

/// A packet on the wire, unframed.
pub open spec fn packet_wire(p: Packet) -> Seq<u8> {
    match p {
        Packet::Message(m) => message_wire(m),
        Packet::Bundle(b) => bundle_wire(b),
    }
}

/// Whether `text` holds the character NUL, which on the wire would end it.
pub open spec fn has_nul(text: Seq<char>) -> bool {
    text.contains('\0')
}

/// Why `value` has no wire form, if it has none.
pub open spec fn value_fault(value: Value) -> Option<EncodeError> {
    match value {
        Value::String(s) => if has_nul(s) {
            Some(EncodeError::NulInString)
        } else {
            None
        },
        Value::Blob(b) => if b.len() > u32::MAX {
            Some(EncodeError::BlobTooLong)
        } else {
            None
        },
        _ => None,
    }
}

/// The fault of the first of `args` that has one.
pub open spec fn args_fault(args: Seq<Argument>) -> Option<EncodeError>
    decreases args.len(),
{
    if args.len() == 0 {
        None
    } else {
        match value_fault(args[0].value) {
            Some(e) => Some(e),
            None => args_fault(args.skip(1)),
        }
    }
}

/// Why `m` has no wire form, if it has none: a NUL in its address, or else
/// the fault of its first argument that has one.
pub open spec fn message_fault(m: Message) -> Option<EncodeError> {
    if has_nul(m.address) {
        Some(EncodeError::NulInAddress)
    } else {
        args_fault(m.args)
    }
}

/// Why `m` cannot stand in a bundle, if it cannot: its own fault, or else a
/// wire form too long for the length in front of it.
pub open spec fn element_fault(m: Message) -> Option<EncodeError> {
    match message_fault(m) {
        Some(e) => Some(e),
        None => if message_wire(m).len() > u32::MAX {
            Some(EncodeError::MessageTooLong)
        } else {
            None
        },
    }
}

/// The fault of the first of `messages` that has one.
pub open spec fn elements_fault(messages: Seq<Message>) -> Option<EncodeError>
    decreases messages.len(),
{
    if messages.len() == 0 {
        None
    } else {
        match element_fault(messages[0]) {
            Some(e) => Some(e),
            None => elements_fault(messages.skip(1)),
        }
    }
}

/// Why `p` has no wire form, if it has none.
pub open spec fn packet_fault(p: Packet) -> Option<EncodeError> {
    match p {
        Packet::Message(m) => message_fault(m),
        Packet::Bundle(b) => elements_fault(b.packets),
    }
}

} // verus!
