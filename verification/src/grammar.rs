//! The grammar of the wire form, as functions from bytes to what they hold.
//!
//! Each function takes the bytes that are left and gives what it read with
//! the bytes behind it, or the reason why nothing could be read.

use vstd::prelude::*;
use vstd::utf8::{decode_utf8, valid_utf8};
use crate::layout::{bits_int, blob_span, bundle_marker, from_be32, text_span, SLASH};
use crate::model::{
    argument, placeholder, Argument, Bundle, DecodeError, Message, Packet, Value,
    WasmEncodeOptions, WasmOscProtocol, TAG_BLOB, TAG_FLOAT, TAG_INT, TAG_STRING,
};
use crate::timetag::TimeTag;

verus! {

/// Where the first NUL of `s` stands; the length of `s` where it holds none.
pub open spec fn terminator(s: Seq<u8>) -> int
    decreases s.len(),
{
    if s.len() == 0 || s[0] == 0 {
        0
    } else {
        1 + terminator(s.skip(1))
    }
}

/// The first NUL of `s` stands at `n` where no byte before `n` is NUL and
/// `n` is either a NUL or the end of `s`.
pub proof fn lemma_terminator(s: Seq<u8>, n: int)
    requires
        0 <= n <= s.len(),
        forall|j: int| 0 <= j < n ==> s[j] != 0u8,
        n == s.len() || s[n] == 0u8,
    ensures
        terminator(s) == n,
    decreases n,
{
    if n > 0 {
        lemma_terminator(s.skip(1), n - 1);
    }
}

/// A text: the bytes before the first NUL, which must be there, and be
/// followed by the padding that brings the whole to a multiple of four.
/// What the padding bytes hold is not looked at.
#[verifier::opaque]
pub open spec fn parse_text(s: Seq<u8>) -> Result<(Seq<u8>, Seq<u8>), DecodeError> {
    let n = terminator(s);
    if n >= s.len() {
        Err(DecodeError::Truncated)
    } else if text_span(n) > s.len() {
        Err(DecodeError::MissingPadding)
    } else {
        Ok((s.take(n), s.skip(text_span(n))))
    }
}

/// A text that must be UTF-8.
#[verifier::opaque]
pub open spec fn parse_string(s: Seq<u8>) -> Result<(Seq<char>, Seq<u8>), DecodeError> {
    match parse_text(s) {
        Err(e) => Err(e),
        Ok((raw, rest)) => if valid_utf8(raw) {
            Ok((decode_utf8(raw), rest))
        } else {
            Err(DecodeError::InvalidUtf8)
        },
    }
}

/// A blob: a length, that many bytes, and the padding behind them.
#[verifier::opaque]
pub open spec fn parse_blob(s: Seq<u8>) -> Result<(Seq<u8>, Seq<u8>), DecodeError> {
    if s.len() < 4 {
        Err(DecodeError::Truncated)
    } else {
        let n = from_be32(s) as int;
        if n > s.len() - 4 {
            Err(DecodeError::LengthOverrun)
        } else if blob_span(n) > s.len() - 4 {
            Err(DecodeError::MissingPadding)
        } else {
            Ok((s.subrange(4, 4 + n), s.skip(4 + blob_span(n))))
        }
    }
}

/// Whether `tag` is one of the four kinds that the codec reads.
pub open spec fn is_supported(tag: u8) -> bool {
    tag == TAG_INT || tag == TAG_FLOAT || tag == TAG_STRING || tag == TAG_BLOB
}

/// How many bytes of payload are passed over for a tag that is not read:
/// eight for `h`, `d` and `t`, four for `c`, `r` and `m`, none for any other.
pub open spec fn skipped_payload(tag: u8) -> int {
    if tag == 0x68 || tag == 0x64 || tag == 0x74 {
        8
    } else if tag == 0x63 || tag == 0x72 || tag == 0x6d {
        4
    } else {
        0
    }
}

/// The payload of one argument, by its tag.
#[verifier::opaque]
pub open spec fn parse_arg(tag: u8, s: Seq<u8>) -> Result<(Argument, Seq<u8>), DecodeError> {
    if tag == TAG_INT {
        if s.len() < 4 {
            Err(DecodeError::Truncated)
        } else {
            Ok((argument(Value::Int(bits_int(from_be32(s)))), s.skip(4)))
        }
    } else if tag == TAG_FLOAT {
        if s.len() < 4 {
            Err(DecodeError::Truncated)
        } else {
            Ok((argument(Value::Float(from_be32(s))), s.skip(4)))
        }
    } else if tag == TAG_STRING {
        match parse_string(s) {
            Err(e) => Err(e),
            Ok((text, rest)) => Ok((argument(Value::String(text)), rest)),
        }
    } else if tag == TAG_BLOB {
        match parse_blob(s) {
            Err(e) => Err(e),
            Ok((blob, rest)) => Ok((argument(Value::Blob(blob)), rest)),
        }
    } else if s.len() < skipped_payload(tag) {
        Err(DecodeError::Truncated)
    } else {
        Ok((placeholder(), s.skip(skipped_payload(tag))))
    }
}

/// The payloads for `tags`, read one after the other behind the arguments
/// in `done`.  Bytes behind the last payload are left alone.
pub open spec fn parse_args_from(tags: Seq<u8>, s: Seq<u8>, done: Seq<Argument>) -> Result<
    Seq<Argument>,
    DecodeError,
>
    decreases tags.len(),
{
    if tags.len() == 0 {
        Ok(done)
    } else {
        match parse_arg(tags[0], s) {
            Err(e) => Err(e),
            Ok((arg, rest)) => parse_args_from(tags.skip(1), rest, done.push(arg)),
        }
    }
}

/// The tags of a type-tag text: all its bytes but the first.
pub open spec fn tags_in(section: Seq<u8>) -> Seq<u8> {
    if section.len() == 0 {
        section
    } else {
        section.skip(1)
    }
}

/// A message: the address, the type tags, and one payload for each tag.
#[verifier::opaque]
pub open spec fn parse_message(s: Seq<u8>) -> Result<Message, DecodeError> {
    match parse_string(s) {
        Err(e) => Err(e),
        Ok((address, behind_address)) => match parse_text(behind_address) {
            Err(e) => Err(e),
            Ok((section, behind_tags)) => match parse_args_from(
                tags_in(section),
                behind_tags,
                Seq::empty(),
            ) {
                Err(e) => Err(e),
                Ok(args) => Ok(Message { address, args }),
            },
        },
    }
}

/// A message that must start with `/`.
#[verifier::opaque]
pub open spec fn parse_addressed(s: Seq<u8>) -> Result<Message, DecodeError> {
    if s.len() == 0 {
        Err(DecodeError::Truncated)
    } else if s[0] != SLASH {
        Err(DecodeError::UnrecognizedMarker)
    } else {
        parse_message(s)
    }
}

/// Whether `s` starts with `#bundle` and its NUL.
pub open spec fn has_bundle_marker(s: Seq<u8>) -> bool {
    s.len() >= 8 && s.take(8) =~= bundle_marker()
}

/// The elements of a bundle up to the end of the bytes, behind the messages
/// in `done`: each a length and that many bytes, which hold a message, or a
/// bundle, which is passed over unread.
pub open spec fn parse_elements_from(s: Seq<u8>, done: Seq<Message>) -> Result<
    Seq<Message>,
    DecodeError,
>
    decreases s.len(),
{
    if s.len() == 0 {
        Ok(done)
    } else if s.len() < 4 {
        Err(DecodeError::Truncated)
    } else {
        let n = from_be32(s) as int;
        if n > s.len() - 4 {
            Err(DecodeError::LengthOverrun)
        } else if has_bundle_marker(s.subrange(4, 4 + n)) {
            parse_elements_from(s.skip(4 + n), done)
        } else {
            match parse_addressed(s.subrange(4, 4 + n)) {
                Err(e) => Err(e),
                Ok(m) => parse_elements_from(s.skip(4 + n), done.push(m)),
            }
        }
    }
}

/// What follows the marker of a bundle: the time tag and the elements.
pub open spec fn parse_bundle_body(s: Seq<u8>) -> Result<Bundle, DecodeError> {
    if s.len() < 8 {
        Err(DecodeError::Truncated)
    } else {
        let time_tag = TimeTag { seconds: from_be32(s), fractional: from_be32(s.skip(4)) };
        match parse_elements_from(s.skip(8), Seq::empty()) {
            Err(e) => Err(e),
            Ok(packets) => Ok(Bundle { time_tag, packets }),
        }
    }
}

/// A bundle: the marker, the time tag, and elements up to the end of the
/// bytes.
#[verifier::opaque]
pub open spec fn parse_bundle(s: Seq<u8>) -> Result<Bundle, DecodeError> {
    if has_bundle_marker(s) {
        parse_bundle_body(s.skip(8))
    } else {
        Err(DecodeError::UnrecognizedMarker)
    }
}

/// One packet: a bundle where the bytes start with the bundle marker, a
/// message where they start with `/`.
#[verifier::opaque]
pub open spec fn parse_packet(s: Seq<u8>) -> Result<Packet, DecodeError> {
    if has_bundle_marker(s) {
        match parse_bundle(s) {
            Err(e) => Err(e),
            Ok(b) => Ok(Packet::Bundle(b)),
        }
    } else {
        match parse_addressed(s) {
            Err(e) => Err(e),
            Ok(m) => Ok(Packet::Message(m)),
        }
    }
}

/// Packets behind their lengths up to the end of the bytes, behind the
/// packets in `done`.
pub open spec fn parse_stream_from(s: Seq<u8>, done: Seq<Packet>) -> Result<
    Seq<Packet>,
    DecodeError,
>
    decreases s.len(),
{
    if s.len() == 0 {
        Ok(done)
    } else if s.len() < 4 {
        Err(DecodeError::Truncated)
    } else {
        let n = from_be32(s) as int;
        if n > s.len() - 4 {
            Err(DecodeError::LengthOverrun)
        } else {
            match parse_packet(s.subrange(4, 4 + n)) {
                Err(e) => Err(e),
                Ok(p) => parse_stream_from(s.skip(4 + n), done.push(p)),
            }
        }
    }
}

/// The protocol that `options` ask for: `UDP` where they name none.
pub open spec fn protocol_of(options: Option<WasmEncodeOptions>) -> WasmOscProtocol {
    match options {
        Some(WasmEncodeOptions { protocol: Some(p) }) => p,
        _ => WasmOscProtocol::UDP,
    }
}

/// What a buffer holds under `protocol`: one packet at its start, or a
/// stream of packets that fills it.
pub open spec fn parse(data: Seq<u8>, protocol: WasmOscProtocol) -> Result<
    Seq<Packet>,
    DecodeError,
> {
    match protocol {
        WasmOscProtocol::UDP => match parse_packet(data) {
            Err(e) => Err(e),
            Ok(p) => Ok(seq![p]),
        },
        WasmOscProtocol::TCP => parse_stream_from(data, Seq::empty()),
    }
}

} // verus!
