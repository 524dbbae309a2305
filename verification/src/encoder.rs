//! Writing packets in their wire form.

use vstd::prelude::*;
use vstd::utf8::encode_utf8;
use crate::laws::law_alignment;
use crate::layout::{
    args_fault, be32, bundle_marker, bundle_wire, elements_fault, elements_wire, framed,
    int_bits, message_fault, message_wire, packet_fault, packet_wire, payloads, tags_of,
    text_wire, value_fault, value_wire, zeros, COMMA,
};
use crate::model::{
    args_view, messages_view, EncodeError, WasmEncodeOptions, WasmOscBundle, WasmOscMessage,
    WasmOscPacket, WasmOscValue,
};
use crate::text::lemma_nul_bytes;

verus! {

fn push_be32(out: &mut Vec<u8>, x: u32)
    ensures
        final(out)@ == old(out)@ + be32(x),
{
    proof {
        reveal(be32);
    }
    out.push((x / 0x100_0000) as u8);
    out.push((x / 0x1_0000 % 0x100) as u8);
    out.push((x / 0x100 % 0x100) as u8);
    out.push((x % 0x100) as u8);
    assert(out@ =~= old(out)@ + be32(x));
}

fn push_zeros(out: &mut Vec<u8>, n: usize)
    ensures
        final(out)@ == old(out)@ + zeros(n as int),
{
    let mut i: usize = 0;
    while i < n
        invariant
            i <= n,
            out@ == old(out)@ + zeros(i as int),
        decreases n - i,
    {
        out.push(0u8);
        i += 1;
        assert(out@ =~= old(out)@ + zeros(i as int));
    }
}

fn holds_nul(bytes: &[u8]) -> (found: bool)
    ensures
        found == bytes@.contains(0u8),
{
    let mut i: usize = 0;
    while i < bytes.len()
        invariant
            i <= bytes.len(),
            forall|j: int| 0 <= j < i ==> bytes@[j] != 0u8,
        decreases bytes.len() - i,
    {
        if bytes[i] == 0u8 {
            return true;
        }
        i += 1;
    }
    false
}

fn push_text(out: &mut Vec<u8>, text: &[u8])
    ensures
        final(out)@ == old(out)@ + text_wire(text@),
{
    out.extend_from_slice(text);
    push_zeros(out, 4 - text.len() % 4);
    assert(out@ =~= old(out)@ + text_wire(text@));
}

fn bits_of(v: i32) -> (bits: u32)
    ensures
        bits == int_bits(v),
{
    if v >= 0 {
        v as u32
    } else {
        (v as i64 + 0x1_0000_0000) as u32
    }
}

fn push_value(out: &mut Vec<u8>, value: &WasmOscValue) -> (r: Result<(), EncodeError>)
    ensures
        match r {
            Ok(_) => value_fault(value@) is None && final(out)@ == old(out)@ + value_wire(
                value@,
            ),
            Err(e) => value_fault(value@) == Some(e),
        },
{
    match value {
        WasmOscValue::Int(v) => {
            push_be32(out, bits_of(*v));
        },
        WasmOscValue::Float(bits) => {
            push_be32(out, *bits);
        },
        WasmOscValue::String(s) => {
            let text = s.as_str().as_bytes();
            proof {
                lemma_nul_bytes(s@);
            }
            if holds_nul(text) {
                return Err(EncodeError::NulInString);
            }
            push_text(out, text);
        },
        WasmOscValue::Blob(b) => {
            if b.len() as u64 > 0xffff_ffff {
                return Err(EncodeError::BlobTooLong);
            }
            push_be32(out, b.len() as u32);
            out.extend_from_slice(b.as_slice());
            push_zeros(out, (4 - b.len() % 4) % 4);
            assert(out@ =~= old(out)@ + value_wire(value@));
        },
    }
    Ok(())
}

/// Writes a message: its address, the tags of its arguments, and their
/// payloads.  The names that the arguments carry are not looked at.
pub fn encode_message(msg: &WasmOscMessage) -> (r: Result<Vec<u8>, EncodeError>)
    ensures
        match r {
            Ok(bytes) => message_fault(msg@) is None && bytes@ == message_wire(msg@),
            Err(e) => message_fault(msg@) == Some(e),
        },
{
    let address = msg.address.as_str().as_bytes();
    proof {
        lemma_nul_bytes(msg.address@);
    }
    if holds_nul(address) {
        return Err(EncodeError::NulInAddress);
    }
    let n = msg.args.len();
    let ghost args = msg@.args;
    let mut section: Vec<u8> = Vec::new();
    section.push(COMMA);
    let mut i: usize = 0;
    while i < n
        invariant
            i <= n,
            n == msg.args.len(),
            args == args_view(msg.args@),
            section@ == seq![COMMA] + tags_of(args.take(i as int)),
        decreases n - i,
    {
        section.push(msg.args[i].value.type_tag());
        i += 1;
        assert(section@ =~= seq![COMMA] + tags_of(args.take(i as int)));
    }
    assert(args.take(n as int) =~= args);
    let mut out: Vec<u8> = Vec::new();
    push_text(&mut out, address);
    push_text(&mut out, section.as_slice());
    let ghost head = out@;
    assert(head =~= text_wire(encode_utf8(msg@.address)) + text_wire(
        seq![COMMA] + tags_of(args),
    ));
    assert(args.skip(0) =~= args);
    let mut i: usize = 0;
    while i < n
        invariant
            i <= n,
            n == msg.args.len(),
            args == args_view(msg.args@),
            message_fault(msg@) == args_fault(args),
            args_fault(args) == args_fault(args.skip(i as int)),
            out@ + payloads(args.skip(i as int)) == head + payloads(args),
        decreases n - i,
    {
        let ghost before = out@;
        assert(args.skip(i as int).skip(1) =~= args.skip(i + 1));
        assert(args.skip(i as int)[0] == msg.args@[i as int]@);
        match push_value(&mut out, &msg.args[i].value) {
            Err(e) => {
                return Err(e);
            },
            Ok(_) => {},
        }
        assert(out@ + payloads(args.skip(i + 1)) =~= before + payloads(args.skip(i as int)));
        i += 1;
    }
    assert(out@ + payloads(args.skip(n as int)) =~= out@);
    Ok(out)
}

/// Writes a bundle: the marker, the time tag, and each message behind its
/// length.
pub fn encode_bundle(bundle: &WasmOscBundle) -> (r: Result<Vec<u8>, EncodeError>)
    ensures
        match r {
            Ok(bytes) => elements_fault(bundle@.packets) is None && bytes@ == bundle_wire(
                bundle@,
            ),
            Err(e) => elements_fault(bundle@.packets) == Some(e),
        },
{
    let mut out: Vec<u8> = Vec::new();
    out.push(0x23u8);
    out.push(0x62u8);
    out.push(0x75u8);
    out.push(0x6eu8);
    out.push(0x64u8);
    out.push(0x6cu8);
    out.push(0x65u8);
    out.push(0x00u8);
    assert(out@ =~= bundle_marker());
    push_be32(&mut out, bundle.time_tag.seconds);
    push_be32(&mut out, bundle.time_tag.fractional);
    let ghost head = out@;
    let ghost messages = bundle@.packets;
    let n = bundle.packets.len();
    assert(messages.skip(0) =~= messages);
    let mut i: usize = 0;
    while i < n
        invariant
            i <= n,
            n == bundle.packets.len(),
            messages == messages_view(bundle.packets@),
            elements_fault(messages) == elements_fault(messages.skip(i as int)),
            out@ + elements_wire(messages.skip(i as int)) == head + elements_wire(messages),
        decreases n - i,
    {
        let ghost before = out@;
        assert(messages.skip(i as int).skip(1) =~= messages.skip(i + 1));
        assert(messages.skip(i as int)[0] == bundle.packets@[i as int]@);
        match encode_message(&bundle.packets[i]) {
            Err(e) => {
                return Err(e);
            },
            Ok(encoded) => {
                if encoded.len() as u64 > 0xffff_ffff {
                    return Err(EncodeError::MessageTooLong);
                }
                push_be32(&mut out, encoded.len() as u32);
                out.extend_from_slice(encoded.as_slice());
                assert(out@ =~= before + framed(message_wire(messages[i as int])));
            },
        }
        assert(out@ + elements_wire(messages.skip(i + 1)) =~= before + elements_wire(
            messages.skip(i as int),
        ));
        i += 1;
    }
    assert(out@ + elements_wire(messages.skip(n as int)) =~= out@);
    Ok(out)
}

/// Writes one packet, unframed.  The bytes are the same under either
/// protocol: a stream's length prefixes are for its reader to find the
/// packets, and are not part of a packet.
pub fn encode(packet: WasmOscPacket, options: Option<WasmEncodeOptions>) -> (r: Result<
    Vec<u8>,
    EncodeError,
>)
    ensures
        match r {
            Ok(bytes) => packet_fault(packet@) is None && bytes@ == packet_wire(packet@)
                && bytes@.len() % 4 == 0,
            Err(e) => packet_fault(packet@) == Some(e),
        },
{
    proof {
        law_alignment(packet@);
    }
    match packet {
        WasmOscPacket::Message(msg) => encode_message(&msg),
        WasmOscPacket::Bundle(bundle) => encode_bundle(&bundle),
    }
}

} // verus!
