//! Reading packets from their wire form.

use vstd::prelude::*;
use vstd::slice::{slice_subrange, slice_to_vec};
use vstd::utf8::{decode_utf8, valid_utf8};
use crate::grammar::{
    has_bundle_marker, lemma_terminator, parse, parse_addressed, parse_arg, parse_args_from,
    parse_blob, parse_bundle, parse_elements_from, parse_message, parse_packet,
    parse_stream_from, parse_string, parse_text, protocol_of, skipped_payload,
};
use crate::layout::{bits_int, from_be32, SLASH};
use crate::model::{
    args_view, messages_view, packets_view, Argument, Bundle, DecodeError, Message, Packet,
    WasmEncodeOptions, WasmOscArg, WasmOscBundle, WasmOscMessage, WasmOscPacket,
    WasmOscProtocol, WasmOscValue, TAG_BLOB, TAG_FLOAT, TAG_INT, TAG_STRING,
};
use crate::timetag::TimeTag;

verus! {

/// `String::from_utf8`: the text that `bytes` spell where they are UTF-8,
/// and nothing where they are not.
#[verifier::external_body]
fn text_from_utf8(bytes: Vec<u8>) -> (text: Option<String>)
    ensures
        text is Some <==> valid_utf8(bytes@),
        text matches Some(s) ==> s@ == decode_utf8(bytes@),
{
    String::from_utf8(bytes).ok()
}

fn read_be32(input: &[u8]) -> (x: u32)
    requires
        input.len() >= 4,
    ensures
        x == from_be32(input@),
{
    proof {
        reveal(from_be32);
    }
    let b0: u32 = input[0] as u32;
    let b1: u32 = input[1] as u32;
    let b2: u32 = input[2] as u32;
    let b3: u32 = input[3] as u32;
    b0 * 0x100_0000 + b1 * 0x1_0000 + b2 * 0x100 + b3
}

fn int_of(bits: u32) -> (v: i32)
    ensures
        v == bits_int(bits),
{
    if bits < 0x8000_0000 {
        bits as i32
    } else {
        (bits as i64 - 0x1_0000_0000) as i32
    }
}

fn behind<'a>(input: &'a [u8], n: usize) -> (rest: &'a [u8])
    requires
        n <= input.len(),
    ensures
        rest@ == input@.skip(n as int),
{
    slice_subrange(input, n, input.len())
}

fn take_text<'a>(input: &'a [u8]) -> (r: Result<(&'a [u8], &'a [u8]), DecodeError>)
    ensures
        match r {
            Ok((raw, rest)) => parse_text(input@) == Ok::<(Seq<u8>, Seq<u8>), DecodeError>(
                (raw@, rest@),
            ),
            Err(e) => parse_text(input@) == Err::<(Seq<u8>, Seq<u8>), DecodeError>(e),
        },
{
    proof {
        reveal(parse_text);
    }
    let mut n: usize = 0;
    while n < input.len() && input[n] != 0u8
        invariant
            n <= input.len(),
            forall|j: int| 0 <= j < n ==> input@[j] != 0u8,
        decreases input.len() - n,
    {
        n += 1;
    }
    proof {
        lemma_terminator(input@, n as int);
    }
    if n >= input.len() {
        return Err(DecodeError::Truncated);
    }
    let span: usize = 4 - n % 4;
    if input.len() - n < span {
        return Err(DecodeError::MissingPadding);
    }
    Ok((slice_subrange(input, 0, n), behind(input, n + span)))
}

fn take_string<'a>(input: &'a [u8]) -> (r: Result<(String, &'a [u8]), DecodeError>)
    ensures
        match r {
            Ok((text, rest)) => parse_string(input@) == Ok::<(Seq<char>, Seq<u8>), DecodeError>(
                (text@, rest@),
            ),
            Err(e) => parse_string(input@) == Err::<(Seq<char>, Seq<u8>), DecodeError>(e),
        },
{
    proof {
        reveal(parse_string);
    }
    match take_text(input) {
        Err(e) => Err(e),
        Ok((raw, rest)) => match text_from_utf8(slice_to_vec(raw)) {
            None => Err(DecodeError::InvalidUtf8),
            Some(text) => Ok((text, rest)),
        },
    }
}

fn take_blob<'a>(input: &'a [u8]) -> (r: Result<(Vec<u8>, &'a [u8]), DecodeError>)
    ensures
        match r {
            Ok((blob, rest)) => parse_blob(input@) == Ok::<(Seq<u8>, Seq<u8>), DecodeError>(
                (blob@, rest@),
            ),
            Err(e) => parse_blob(input@) == Err::<(Seq<u8>, Seq<u8>), DecodeError>(e),
        },
{
    proof {
        reveal(parse_blob);
    }
    if input.len() < 4 {
        return Err(DecodeError::Truncated);
    }
    let n: u32 = read_be32(input);
    let left: usize = input.len() - 4;
    if n as u64 > left as u64 {
        return Err(DecodeError::LengthOverrun);
    }
    let n: usize = n as usize;
    let pad: usize = (4 - n % 4) % 4;
    if left - n < pad {
        return Err(DecodeError::MissingPadding);
    }
    Ok((slice_to_vec(slice_subrange(input, 4, 4 + n)), behind(input, 4 + n + pad)))
}

fn skipped(tag: u8) -> (n: usize)
    ensures
        n == skipped_payload(tag),
{
    if tag == 0x68 || tag == 0x64 || tag == 0x74 {
        8
    } else if tag == 0x63 || tag == 0x72 || tag == 0x6d {
        4
    } else {
        0
    }
}

fn decode_arg<'a>(tag: u8, input: &'a [u8]) -> (r: Result<(WasmOscArg, &'a [u8]), DecodeError>)
    ensures
        match r {
            Ok((arg, rest)) => parse_arg(tag, input@) == Ok::<_, DecodeError>((arg@, rest@)),
            Err(e) => parse_arg(tag, input@) == Err::<(Argument, Seq<u8>), _>(e),
        },
{
    proof {
        reveal(parse_arg);
    }
    if tag == TAG_INT {
        if input.len() < 4 {
            return Err(DecodeError::Truncated);
        }
        let v: i32 = int_of(read_be32(input));
        Ok((WasmOscArg::new(WasmOscValue::Int(v)), behind(input, 4)))
    } else if tag == TAG_FLOAT {
        if input.len() < 4 {
            return Err(DecodeError::Truncated);
        }
        let bits: u32 = read_be32(input);
        Ok((WasmOscArg::new(WasmOscValue::Float(bits)), behind(input, 4)))
    } else if tag == TAG_STRING {
        match take_string(input) {
            Err(e) => Err(e),
            Ok((text, rest)) => Ok((WasmOscArg::new(WasmOscValue::String(text)), rest)),
        }
    } else if tag == TAG_BLOB {
        match take_blob(input) {
            Err(e) => Err(e),
            Ok((blob, rest)) => Ok((WasmOscArg::new(WasmOscValue::Blob(blob)), rest)),
        }
    } else {
        let n: usize = skipped(tag);
        if input.len() < n {
            return Err(DecodeError::Truncated);
        }
        Ok((WasmOscArg::unknown(), behind(input, n)))
    }
}

/// Reads a message from the start of `input`.  Bytes behind its last payload
/// are left alone.
#[verifier::loop_isolation(false)]
pub fn decode_message(input: &[u8]) -> (r: Result<WasmOscMessage, DecodeError>)
    ensures
        match r {
            Ok(m) => parse_message(input@) == Ok::<_, DecodeError>(m@),
            Err(e) => parse_message(input@) == Err::<Message, _>(e),
        },
{
    proof {
        reveal(parse_message);
    }
    let (address, behind_address) = match take_string(input) {
        Err(e) => {
            return Err(e);
        },
        Ok(found) => found,
    };
    let (section, behind_tags) = match take_text(behind_address) {
        Err(e) => {
            return Err(e);
        },
        Ok(found) => found,
    };
    let tags: &[u8] = if section.len() == 0 {
        section
    } else {
        behind(section, 1)
    };
    let mut args: Vec<WasmOscArg> = Vec::new();
    let mut rest: &[u8] = behind_tags;
    let mut i: usize = 0;
    assert(tags@.skip(0) =~= tags@);
    assert(args_view(args@) =~= Seq::empty());
    while i < tags.len()
        invariant
            i <= tags.len(),
            parse_args_from(tags@.skip(i as int), rest@, args_view(args@)) == parse_args_from(
                tags@,
                behind_tags@,
                Seq::empty(),
            ),
        decreases tags.len() - i,
    {
        assert(tags@.skip(i as int).skip(1) =~= tags@.skip(i + 1));
        let ghost done = args_view(args@);
        match decode_arg(tags[i], rest) {
            Err(e) => {
                return Err(e);
            },
            Ok((arg, next)) => {
                args.push(arg);
                rest = next;
                assert(args_view(args@) =~= done.push(arg@));
            },
        }
        i += 1;
    }
    Ok(WasmOscMessage { address, args })
}

fn starts_with_marker(input: &[u8]) -> (found: bool)
    ensures
        found == has_bundle_marker(input@),
{
    input.len() >= 8 && input[0] == 0x23u8 && input[1] == 0x62u8 && input[2] == 0x75u8
        && input[3] == 0x6eu8 && input[4] == 0x64u8 && input[5] == 0x6cu8 && input[6] == 0x65u8
        && input[7] == 0x00u8
}

fn decode_addressed(input: &[u8]) -> (r: Result<WasmOscMessage, DecodeError>)
    ensures
        match r {
            Ok(m) => parse_addressed(input@) == Ok::<_, DecodeError>(m@),
            Err(e) => parse_addressed(input@) == Err::<Message, _>(e),
        },
{
    proof {
        reveal(parse_addressed);
    }
    if input.len() == 0 {
        Err(DecodeError::Truncated)
    } else if input[0] != SLASH {
        Err(DecodeError::UnrecognizedMarker)
    } else {
        decode_message(input)
    }
}

/// Reads a bundle, which takes all of `bytes`: the marker, the time tag,
/// and elements up to the end.  An element that is itself a bundle is
/// passed over unread.
#[verifier::loop_isolation(false)]
pub fn decode_bundle(bytes: &[u8]) -> (r: Result<WasmOscBundle, DecodeError>)
    ensures
        match r {
            Ok(b) => parse_bundle(bytes@) == Ok::<_, DecodeError>(b@),
            Err(e) => parse_bundle(bytes@) == Err::<Bundle, _>(e),
        },
{
    proof {
        reveal(parse_bundle);
    }
    if !starts_with_marker(bytes) {
        return Err(DecodeError::UnrecognizedMarker);
    }
    let input: &[u8] = behind(bytes, 8);
    if input.len() < 8 {
        return Err(DecodeError::Truncated);
    }
    let seconds: u32 = read_be32(input);
    let fractional: u32 = read_be32(behind(input, 4));
    let elements: &[u8] = behind(input, 8);
    let mut packets: Vec<WasmOscMessage> = Vec::new();
    let mut rest: &[u8] = elements;
    assert(messages_view(packets@) =~= Seq::empty());
    while rest.len() > 0
        invariant
            parse_elements_from(rest@, messages_view(packets@)) == parse_elements_from(
                elements@,
                Seq::empty(),
            ),
        decreases rest.len(),
    {
        if rest.len() < 4 {
            return Err(DecodeError::Truncated);
        }
        let n: u32 = read_be32(rest);
        if n as u64 > (rest.len() - 4) as u64 {
            return Err(DecodeError::LengthOverrun);
        }
        let n: usize = n as usize;
        let element: &[u8] = slice_subrange(rest, 4, 4 + n);
        let ghost done = messages_view(packets@);
        if !starts_with_marker(element) {
            match decode_addressed(element) {
                Err(e) => {
                    return Err(e);
                },
                Ok(m) => {
                    packets.push(m);
                    assert(messages_view(packets@) =~= done.push(m@));
                },
            }
        }
        rest = behind(rest, 4 + n);
    }
    Ok(WasmOscBundle { time_tag: TimeTag { seconds, fractional }, packets })
}

/// Reads one packet from the start of `input`: a bundle, which takes all of
/// `input`, or a message, behind which any bytes may follow.
pub fn decode_packet(input: &[u8]) -> (r: Result<WasmOscPacket, DecodeError>)
    ensures
        match r {
            Ok(p) => parse_packet(input@) == Ok::<_, DecodeError>(p@),
            Err(e) => parse_packet(input@) == Err::<Packet, _>(e),
        },
{
    proof {
        reveal(parse_packet);
    }
    if starts_with_marker(input) {
        match decode_bundle(input) {
            Err(e) => Err(e),
            Ok(b) => Ok(WasmOscPacket::Bundle(b)),
        }
    } else {
        match decode_addressed(input) {
            Err(e) => Err(e),
            Ok(m) => Ok(WasmOscPacket::Message(m)),
        }
    }
}

/// Reads packets behind their lengths up to the end of `input`.  One length
/// that overruns the buffer, or one packet that cannot be read, fails the
/// whole.
pub fn decode_stream(input: &[u8]) -> (r: Result<Vec<WasmOscPacket>, DecodeError>)
    ensures
        match r {
            Ok(packets) => parse_stream_from(input@, Seq::empty()) == Ok::<_, DecodeError>(
                packets_view(packets@),
            ),
            Err(e) => parse_stream_from(input@, Seq::empty()) == Err::<Seq<Packet>, _>(e),
        },
{
    let mut packets: Vec<WasmOscPacket> = Vec::new();
    let mut rest: &[u8] = input;
    assert(packets_view(packets@) =~= Seq::empty());
    while rest.len() > 0
        invariant
            parse_stream_from(rest@, packets_view(packets@)) == parse_stream_from(
                input@,
                Seq::empty(),
            ),
        decreases rest.len(),
    {
        if rest.len() < 4 {
            return Err(DecodeError::Truncated);
        }
        let n: u32 = read_be32(rest);
        if n as u64 > (rest.len() - 4) as u64 {
            return Err(DecodeError::LengthOverrun);
        }
        let n: usize = n as usize;
        let ghost done = packets_view(packets@);
        match decode_packet(slice_subrange(rest, 4, 4 + n)) {
            Err(e) => {
                return Err(e);
            },
            Ok(p) => {
                packets.push(p);
                assert(packets_view(packets@) =~= done.push(p@));
            },
        }
        rest = behind(rest, 4 + n);
    }
    Ok(packets)
}

/// Reads the packets of a buffer: under `UDP`, which is taken where
/// `options` name no protocol, the one packet at its start; under `TCP`, the
/// stream of length-prefixed packets that fills it.
pub fn decode(data: &[u8], options: Option<WasmEncodeOptions>) -> (r: Result<
    Vec<WasmOscPacket>,
    DecodeError,
>)
    ensures
        match r {
            Ok(packets) => parse(data@, protocol_of(options)) == Ok::<_, DecodeError>(
                packets_view(packets@),
            ),
            Err(e) => parse(data@, protocol_of(options)) == Err::<Seq<Packet>, _>(
                e,
            ),
        },
{
    let protocol = match options {
        Some(WasmEncodeOptions { protocol: Some(p) }) => p,
        _ => WasmOscProtocol::UDP,
    };
    match protocol {
        WasmOscProtocol::UDP => match decode_packet(data) {
            Err(e) => Err(e),
            Ok(p) => {
                let mut packets: Vec<WasmOscPacket> = Vec::new();
                packets.push(p);
                assert(packets_view(packets@) =~= seq![p@]);
                Ok(packets)
            },
        },
        WasmOscProtocol::TCP => decode_stream(data),
    }
}

} // verus!
