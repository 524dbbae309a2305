//! What holds of the wire form and of the grammar together.

use vstd::prelude::*;
use vstd::utf8::{encode_utf8, encode_utf8_decode_utf8, encode_utf8_valid_utf8};
use crate::grammar::{
    has_bundle_marker, is_supported, lemma_terminator, parse, parse_addressed, parse_arg,
    parse_args_from, parse_blob, parse_bundle, parse_elements_from, parse_message,
    parse_packet, parse_stream_from, parse_string, parse_text, skipped_payload, tags_in,
};
use crate::layout::{
    args_fault, be32, blob_span, blob_wire, bundle_marker, bundle_wire, elements_fault,
    elements_wire, framed, from_be32, int_bits, lemma_be32_round_trip, message_fault, message_wire,
    packet_fault, packet_wire, payloads, tags_of, text_span, text_wire, value_fault,
    value_wire, zeros, COMMA, SLASH,
};
use crate::model::{
    argument, placeholder, value_tag, Argument, Bundle, DecodeError, Message, Packet, Value,
    WasmOscProtocol,
};
use crate::text::{lemma_first_byte, lemma_nul_bytes};

verus! {

/// Whether each of `args` carries the name of its kind.
pub open spec fn named_by_kind(args: Seq<Argument>) -> bool {
    forall|i: int| 0 <= i < args.len() ==> #[trigger] args[i] == argument(args[i].value)
}

/// Whether `m` is a message that a reader can tell from its wire form: it
/// has one, its address starts with `/`, and its arguments carry the names
/// of their kinds.
pub open spec fn well_formed(m: Message) -> bool {
    &&& message_fault(m) is None
    &&& m.address.len() > 0
    &&& m.address[0] == '/'
    &&& named_by_kind(m.args)
}

/// Whether `p` is a packet that a reader can tell from its wire form: a
/// well-formed message, or a bundle of well-formed messages, none too long
/// for its length prefix.
pub open spec fn well_formed_packet(p: Packet) -> bool {
    match p {
        Packet::Message(m) => well_formed(m),
        Packet::Bundle(b) => {
            &&& elements_fault(b.packets) is None
            &&& forall|i: int| 0 <= i < b.packets.len() ==> well_formed(#[trigger] b.packets[i])
        },
    }
}

/// A text without NUL is read back from its wire form, whatever follows.
pub proof fn lemma_text_round_trip(text: Seq<u8>, rest: Seq<u8>)
    requires
        !text.contains(0u8),
    ensures
        parse_text(text_wire(text) + rest) == Ok::<_, DecodeError>((text, rest)),
{
    reveal(parse_text);
    let s = text_wire(text) + rest;
    let n = text.len() as int;
    assert forall|j: int| 0 <= j < n implies s[j] != 0u8 by {
        assert(s[j] == text[j]);
        assert(text.contains(text[j]));
    }
    assert(s[n] == zeros(4 - n % 4)[0]);
    lemma_terminator(s, n);
    assert(s.take(n) =~= text);
    assert(s.skip(text_span(n)) =~= rest);
}

proof fn lemma_string_round_trip(text: Seq<char>, rest: Seq<u8>)
    requires
        !text.contains('\0'),
    ensures
        parse_string(text_wire(encode_utf8(text)) + rest) == Ok::<_, DecodeError>((text, rest)),
{
    reveal(parse_string);
    lemma_nul_bytes(text);
    lemma_text_round_trip(encode_utf8(text), rest);
    encode_utf8_valid_utf8(text);
    encode_utf8_decode_utf8(text);
}

proof fn lemma_blob_round_trip(blob: Seq<u8>, rest: Seq<u8>)
    requires
        blob.len() <= u32::MAX,
    ensures
        parse_blob(blob_wire(blob) + rest) == Ok::<_, DecodeError>((blob, rest)),
{
    reveal(parse_blob);
    let n = blob.len() as int;
    let s = blob_wire(blob) + rest;
    assert(s =~= be32(n as u32) + (blob + zeros((4 - n % 4) % 4) + rest));
    lemma_be32_round_trip(n as u32, blob + zeros((4 - n % 4) % 4) + rest);
    assert(s.subrange(4, 4 + n) =~= blob);
    assert(s.skip(4 + blob_span(n)) =~= rest);
}

/// A value that has a wire form is read back from it under its own tag,
/// whatever follows.
pub proof fn lemma_value_round_trip(value: Value, rest: Seq<u8>)
    requires
        value_fault(value) is None,
    ensures
        parse_arg(value_tag(value), value_wire(value) + rest) == Ok::<_, DecodeError>(
            (argument(value), rest),
        ),
{
    reveal(parse_arg);
    match value {
        Value::Int(v) => {
            lemma_be32_round_trip(int_bits(v), rest);
        },
        Value::Float(bits) => {
            lemma_be32_round_trip(bits, rest);
        },
        Value::String(s) => {
            lemma_string_round_trip(s, rest);
        },
        Value::Blob(b) => {
            lemma_blob_round_trip(b, rest);
        },
    }
}

proof fn lemma_args_round_trip(
    args: Seq<Argument>,
    more: Seq<u8>,
    rest: Seq<u8>,
    done: Seq<Argument>,
)
    requires
        args_fault(args) is None,
        named_by_kind(args),
    ensures
        parse_args_from(tags_of(args) + more, payloads(args) + rest, done) == parse_args_from(
            more,
            rest,
            done + args,
        ),
    decreases args.len(),
{
    if args.len() == 0 {
        assert(done + args =~= done);
        assert(tags_of(args) + more =~= more);
        assert(payloads(args) + rest =~= rest);
    } else {
        let tail = args.skip(1);
        assert((tags_of(args) + more).skip(1) =~= tags_of(tail) + more);
        assert(payloads(args) + rest =~= value_wire(args[0].value) + (payloads(tail) + rest));
        lemma_value_round_trip(args[0].value, payloads(tail) + rest);
        assert(named_by_kind(tail)) by {
            assert forall|i: int| 0 <= i < tail.len() implies #[trigger] tail[i] == argument(
                tail[i].value,
            ) by {
                assert(tail[i] == args[i + 1]);
            }
        }
        lemma_args_round_trip(tail, more, rest, done.push(args[0]));
        assert(done.push(args[0]) + tail =~= done + args);
    }
}

proof fn lemma_tags_without_nul(args: Seq<Argument>)
    ensures
        !(seq![COMMA] + tags_of(args)).contains(0u8),
{
    let section = seq![COMMA] + tags_of(args);
    if section.contains(0u8) {
        let i = choose|i: int| 0 <= i < section.len() && section[i] == 0u8;
        if i > 0 {
            assert(section[i] == value_tag(args[i - 1].value));
        }
    }
}

/// A well-formed message is read back from its wire form, whatever follows.
pub proof fn lemma_message_round_trip(m: Message, rest: Seq<u8>)
    requires
        message_fault(m) is None,
        named_by_kind(m.args),
    ensures
        parse_message(message_wire(m) + rest) == Ok::<_, DecodeError>(m),
{
    reveal(parse_message);
    let section = seq![COMMA] + tags_of(m.args);
    let behind_tags = payloads(m.args) + rest;
    let behind_address = text_wire(section) + behind_tags;
    assert(message_wire(m) + rest =~= text_wire(encode_utf8(m.address)) + behind_address);
    lemma_string_round_trip(m.address, behind_address);
    lemma_tags_without_nul(m.args);
    lemma_text_round_trip(section, behind_tags);
    assert(tags_in(section) =~= tags_of(m.args));
    lemma_args_round_trip(m.args, Seq::empty(), rest, Seq::empty());
    assert(tags_of(m.args) + Seq::<u8>::empty() =~= tags_of(m.args));
    assert(Seq::<Argument>::empty() + m.args =~= m.args);
}

proof fn lemma_starts_with_slash(m: Message, rest: Seq<u8>)
    requires
        m.address.len() > 0,
        m.address[0] == '/',
    ensures
        (message_wire(m) + rest).len() > 0,
        (message_wire(m) + rest)[0] == SLASH,
        !has_bundle_marker(message_wire(m) + rest),
{
    lemma_first_byte(m.address);
    let s = message_wire(m) + rest;
    assert(s[0] == encode_utf8(m.address)[0]);
    if has_bundle_marker(s) {
        assert(s.take(8)[0] == bundle_marker()[0]);
    }
}

proof fn lemma_message_packet(m: Message, rest: Seq<u8>)
    requires
        well_formed(m),
    ensures
        parse_packet(message_wire(m) + rest) == Ok::<_, DecodeError>(Packet::Message(m)),
{
    reveal(parse_packet);
    reveal(parse_addressed);
    lemma_starts_with_slash(m, rest);
    lemma_message_round_trip(m, rest);
}

/// Decoding what encoding wrote gives the message back, and bytes that
/// follow the message in the buffer do not disturb it.
pub proof fn law_message_round_trip(m: Message, trailing: Seq<u8>)
    requires
        well_formed(m),
    ensures
        parse(message_wire(m) + trailing, WasmOscProtocol::UDP) == Ok::<_, DecodeError>(
            seq![Packet::Message(m)],
        ),
        parse(message_wire(m), WasmOscProtocol::UDP) == Ok::<_, DecodeError>(
            seq![Packet::Message(m)],
        ),
{
    lemma_message_packet(m, trailing);
    lemma_message_packet(m, Seq::empty());
    assert(message_wire(m) + Seq::<u8>::empty() =~= message_wire(m));
}

/// Bytes behind the count of them are found again by that count, whatever
/// follows.
proof fn lemma_framed(w: Seq<u8>, rest: Seq<u8>)
    requires
        w.len() <= u32::MAX,
    ensures
        (framed(w) + rest).len() >= 4 + w.len(),
        from_be32(framed(w) + rest) == w.len(),
        (framed(w) + rest).subrange(4, 4 + w.len() as int) == w,
        (framed(w) + rest).skip(4 + w.len() as int) == rest,
{
    let s = framed(w) + rest;
    assert(s =~= be32(w.len() as u32) + (w + rest));
    lemma_be32_round_trip(w.len() as u32, w + rest);
    assert(s.subrange(4, 4 + w.len() as int) =~= w);
    assert(s.skip(4 + w.len() as int) =~= rest);
}

proof fn lemma_element(m: Message, rest: Seq<u8>, done: Seq<Message>)
    requires
        well_formed(m),
        message_wire(m).len() <= u32::MAX,
    ensures
        parse_elements_from(framed(message_wire(m)) + rest, done) == parse_elements_from(
            rest,
            done.push(m),
        ),
{
    let w = message_wire(m);
    lemma_framed(w, rest);
    assert(!has_bundle_marker(w) && parse_addressed(w) == Ok::<_, DecodeError>(m)) by {
        reveal(parse_addressed);
        assert(w + Seq::<u8>::empty() =~= w);
        lemma_starts_with_slash(m, Seq::empty());
        lemma_message_round_trip(m, Seq::empty());
    }
}

proof fn lemma_elements_round_trip(messages: Seq<Message>, done: Seq<Message>)
    requires
        elements_fault(messages) is None,
        forall|i: int| 0 <= i < messages.len() ==> well_formed(#[trigger] messages[i]),
    ensures
        parse_elements_from(elements_wire(messages), done) == Ok::<_, DecodeError>(
            done + messages,
        ),
    decreases messages.len(),
{
    if messages.len() == 0 {
        assert(done + messages =~= done);
    } else {
        let m = messages[0];
        let tail = messages.skip(1);
        assert(well_formed(m));
        lemma_element(m, elements_wire(tail), done);
        assert forall|i: int| 0 <= i < tail.len() implies well_formed(#[trigger] tail[i]) by {
            assert(tail[i] == messages[i + 1]);
        }
        lemma_elements_round_trip(tail, done.push(m));
        assert(done.push(m) + tail =~= done + messages);
    }
}

/// A bundle inside a bundle gives no message: reading goes on behind it as
/// if it were not there, whatever it holds.
pub proof fn law_nested_bundle_dropped(element: Seq<u8>, rest: Seq<u8>, done: Seq<Message>)
    requires
        has_bundle_marker(element),
        element.len() <= u32::MAX,
    ensures
        parse_elements_from(framed(element) + rest, done) == parse_elements_from(rest, done),
{
    lemma_framed(element, rest);
}

proof fn lemma_bundle_round_trip(b: Bundle)
    requires
        elements_fault(b.packets) is None,
        forall|i: int| 0 <= i < b.packets.len() ==> well_formed(#[trigger] b.packets[i]),
    ensures
        has_bundle_marker(bundle_wire(b)),
        parse_bundle(bundle_wire(b)) == Ok::<_, DecodeError>(b),
{
    reveal(parse_bundle);
    let s = bundle_wire(b);
    let elements = elements_wire(b.packets);
    let behind_seconds = be32(b.time_tag.fractional) + elements;
    let body = be32(b.time_tag.seconds) + behind_seconds;
    lemma_be32_round_trip(b.time_tag.seconds, behind_seconds);
    lemma_be32_round_trip(b.time_tag.fractional, elements);
    assert(s =~= bundle_marker() + body);
    assert(s.take(8) =~= bundle_marker());
    assert(s.skip(8) =~= body);
    assert(body.skip(8) =~= body.skip(4).skip(4));
    lemma_elements_round_trip(b.packets, Seq::empty());
    assert(Seq::<Message>::empty() + b.packets =~= b.packets);
}

/// Decoding what encoding wrote gives the packet back, be it a message or a
/// bundle.
pub proof fn law_round_trip(p: Packet)
    requires
        well_formed_packet(p),
    ensures
        packet_fault(p) is None,
        parse_packet(packet_wire(p)) == Ok::<_, DecodeError>(p),
        parse(packet_wire(p), WasmOscProtocol::UDP) == Ok::<_, DecodeError>(seq![p]),
{
    reveal(parse_packet);
    match p {
        Packet::Message(m) => {
            lemma_message_packet(m, Seq::empty());
            assert(message_wire(m) + Seq::<u8>::empty() =~= message_wire(m));
        },
        Packet::Bundle(b) => {
            lemma_bundle_round_trip(b);
        },
    }
}

/// The arguments of a message come back in the order in which they were
/// written: each stands where it stood.
pub proof fn law_argument_order(m: Message, i: int, j: int)
    requires
        well_formed(m),
        0 <= i < j < m.args.len(),
    ensures
        parse_packet(message_wire(m)) matches Ok(Packet::Message(read)) && read.args.len()
            == m.args.len() && read.args[i] == m.args[i] && read.args[j] == m.args[j],
{
    law_round_trip(Packet::Message(m));
}

proof fn lemma_value_aligned(value: Value)
    ensures
        value_wire(value).len() % 4 == 0,
        value_wire(value).len() >= 4,
{
    lemma_be32_round_trip(0, Seq::empty());
    match value {
        Value::Int(v) => {
            lemma_be32_round_trip(int_bits(v), Seq::empty());
        },
        Value::Float(bits) => {
            lemma_be32_round_trip(bits, Seq::empty());
        },
        Value::String(s) => {},
        Value::Blob(b) => {
            lemma_be32_round_trip(b.len() as u32, Seq::empty());
        },
    }
}

proof fn lemma_payloads_aligned(args: Seq<Argument>)
    ensures
        payloads(args).len() % 4 == 0,
        args.len() > 0 ==> payloads(args).len() >= 4,
    decreases args.len(),
{
    if args.len() > 0 {
        lemma_value_aligned(args[0].value);
        lemma_payloads_aligned(args.skip(1));
    }
}

proof fn lemma_message_aligned(m: Message)
    ensures
        message_wire(m).len() % 4 == 0,
        message_wire(m).len() >= 8,
{
    lemma_payloads_aligned(m.args);
}

proof fn lemma_elements_aligned(messages: Seq<Message>)
    ensures
        elements_wire(messages).len() % 4 == 0,
    decreases messages.len(),
{
    if messages.len() > 0 {
        lemma_message_aligned(messages[0]);
        lemma_be32_round_trip(message_wire(messages[0]).len() as u32, Seq::empty());
        lemma_elements_aligned(messages.skip(1));
    }
}

/// The wire form of every message and of every bundle is a whole number of
/// four-byte words.
pub proof fn law_alignment(p: Packet)
    ensures
        packet_wire(p).len() % 4 == 0,
{
    match p {
        Packet::Message(m) => {
            lemma_message_aligned(m);
        },
        Packet::Bundle(b) => {
            lemma_be32_round_trip(b.time_tag.seconds, Seq::empty());
            lemma_be32_round_trip(b.time_tag.fractional, Seq::empty());
            lemma_elements_aligned(b.packets);
        },
    }
}

proof fn lemma_frame(p: Packet, rest: Seq<u8>, done: Seq<Packet>)
    requires
        well_formed_packet(p),
        packet_wire(p).len() <= u32::MAX,
    ensures
        parse_stream_from(framed(packet_wire(p)) + rest, done) == parse_stream_from(
            rest,
            done.push(p),
        ),
{
    lemma_framed(packet_wire(p), rest);
    law_round_trip(p);
}

/// Two packets written one after the other, each behind the count of its
/// bytes, are read from a stream as those two packets, in that order.
pub proof fn law_stream_framing(first: Packet, second: Packet)
    requires
        well_formed_packet(first),
        well_formed_packet(second),
        packet_wire(first).len() <= u32::MAX,
        packet_wire(second).len() <= u32::MAX,
    ensures
        parse(
            framed(packet_wire(first)) + framed(packet_wire(second)),
            WasmOscProtocol::TCP,
        ) == Ok::<_, DecodeError>(seq![first, second]),
{
    let done = Seq::<Packet>::empty();
    lemma_frame(first, framed(packet_wire(second)), done);
    lemma_frame(second, Seq::empty(), done.push(first));
    assert(framed(packet_wire(second)) + Seq::<u8>::empty() =~= framed(packet_wire(second)));
    assert(done.push(first).push(second) =~= seq![first, second]);
}

/// A tag of a kind that is not read never fails a message whose bytes hold
/// its payload: it gives a placeholder, and reading goes on behind the
/// payload.
pub proof fn law_unsupported_tag(
    tag: u8,
    payload: Seq<u8>,
    tags: Seq<u8>,
    rest: Seq<u8>,
    done: Seq<Argument>,
)
    requires
        !is_supported(tag),
        payload.len() == skipped_payload(tag),
    ensures
        parse_args_from(seq![tag] + tags, payload + rest, done) == parse_args_from(
            tags,
            rest,
            done.push(placeholder()),
        ),
{
    reveal(parse_arg);
    assert((seq![tag] + tags).skip(1) =~= tags);
    assert((payload + rest).skip(skipped_payload(tag)) =~= rest);
}

/// Where arguments are read, there is one for each tag, in the order of the
/// tags: a placeholder for each tag of a kind that is not read, and for each
/// other tag an argument of its kind, under the name of that kind.
pub proof fn law_one_argument_per_tag(tags: Seq<u8>, s: Seq<u8>, done: Seq<Argument>)
    ensures
        parse_args_from(tags, s, done) matches Ok(args) ==> {
            &&& args.len() == done.len() + tags.len()
            &&& forall|k: int| 0 <= k < done.len() ==> args[k] == done[k]
            &&& forall|k: int|
                0 <= k < tags.len() && !is_supported(#[trigger] tags[k]) ==> args[done.len()
                    + k] == placeholder()
            &&& forall|k: int|
                0 <= k < tags.len() && is_supported(#[trigger] tags[k]) ==> {
                    &&& value_tag(args[done.len() + k].value) == tags[k]
                    &&& args[done.len() + k] == argument(args[done.len() + k].value)
                }
        },
    decreases tags.len(),
{
    reveal(parse_arg);
    if tags.len() > 0 {
        match parse_arg(tags[0], s) {
            Err(_) => {},
            Ok((arg, rest)) => {
                let tail = tags.skip(1);
                law_one_argument_per_tag(tail, rest, done.push(arg));
                match parse_args_from(tags, s, done) {
                    Err(_) => {},
                    Ok(args) => {
                        assert(args[done.len() as int] == done.push(arg)[done.len() as int]);
                        assert forall|k: int| 0 <= k < done.len() implies args[k] == done[k] by {
                            assert(args[k] == done.push(arg)[k]);
                        }
                        assert forall|k: int|
                            0 <= k < tags.len() && !is_supported(
                                #[trigger] tags[k],
                            ) implies args[done.len() + k] == placeholder() by {
                            if k > 0 {
                                assert(tail[k - 1] == tags[k]);
                            }
                        }
                        assert forall|k: int|
                            0 <= k < tags.len() && is_supported(#[trigger] tags[k]) implies {
                            &&& value_tag(args[done.len() + k].value) == tags[k]
                            &&& args[done.len() + k] == argument(args[done.len() + k].value)
                        } by {
                            if k > 0 {
                                assert(tail[k - 1] == tags[k]);
                            }
                        }
                    },
                }
            },
        }
    }
}

/// The wire form of `m` with one more tag, of a kind that is not read, put
/// in before the tag of argument `k`, and the payload of that tag put in
/// before the payload of argument `k`.
pub open spec fn wire_with_tag(m: Message, k: int, tag: u8, payload: Seq<u8>) -> Seq<u8> {
    text_wire(encode_utf8(m.address)) + text_wire(
        seq![COMMA] + tags_of(m.args.take(k)) + seq![tag] + tags_of(m.args.skip(k)),
    ) + payloads(m.args.take(k)) + payload + payloads(m.args.skip(k))
}

/// A message that holds, among arguments of the four kinds, one of a kind
/// that is not read is read without error: a placeholder stands where that
/// argument stood, and the others stand around it as they were written.
pub proof fn law_unknown_tag(m: Message, k: int, tag: u8, payload: Seq<u8>, trailing: Seq<u8>)
    requires
        well_formed(m),
        0 <= k <= m.args.len(),
        !is_supported(tag),
        tag != 0,
        payload.len() == skipped_payload(tag),
    ensures
        parse(wire_with_tag(m, k, tag, payload) + trailing, WasmOscProtocol::UDP) == Ok::<
            _,
            DecodeError,
        >(
            seq![
                Packet::Message(
                    Message { address: m.address, args: m.args.insert(k, placeholder()) },
                ),
            ],
        ),
{
    reveal(parse_packet);
    reveal(parse_addressed);
    reveal(parse_message);
    let before = m.args.take(k);
    let after = m.args.skip(k);
    let section = seq![COMMA] + tags_of(before) + seq![tag] + tags_of(after);
    let behind_tags = payloads(before) + payload + payloads(after) + trailing;
    let behind_address = text_wire(section) + behind_tags;
    let s = wire_with_tag(m, k, tag, payload) + trailing;
    assert(s =~= text_wire(encode_utf8(m.address)) + behind_address);
    lemma_first_byte(m.address);
    assert(s[0] == encode_utf8(m.address)[0]);
    if has_bundle_marker(s) {
        assert(s.take(8)[0] == bundle_marker()[0]);
    }
    lemma_string_round_trip(m.address, behind_address);
    assert(!section.contains(0u8)) by {
        if section.contains(0u8) {
            let i = choose|i: int| 0 <= i < section.len() && section[i] == 0u8;
            if 0 < i <= before.len() {
                assert(section[i] == value_tag(before[i - 1].value));
            } else if i > before.len() + 1 {
                assert(section[i] == value_tag(after[i - before.len() - 2].value));
            }
        }
    }
    lemma_text_round_trip(section, behind_tags);
    assert(tags_in(section) =~= tags_of(before) + (seq![tag] + tags_of(after)));
    assert(behind_tags =~= payloads(before) + (payload + (payloads(after) + trailing)));
    lemma_parts_well_formed(m.args, k);
    let none = Seq::<Argument>::empty();
    lemma_args_round_trip(
        before,
        seq![tag] + tags_of(after),
        payload + (payloads(after) + trailing),
        none,
    );
    law_unsupported_tag(tag, payload, tags_of(after), payloads(after) + trailing, none + before);
    lemma_args_round_trip(
        after,
        Seq::empty(),
        trailing,
        (none + before).push(placeholder()),
    );
    assert(tags_of(after) + Seq::<u8>::empty() =~= tags_of(after));
    assert((none + before).push(placeholder()) + after =~= m.args.insert(k, placeholder()));
}

proof fn lemma_parts_well_formed(args: Seq<Argument>, k: int)
    requires
        0 <= k <= args.len(),
        args_fault(args) is None,
        named_by_kind(args),
    ensures
        args_fault(args.take(k)) is None,
        named_by_kind(args.take(k)),
        args_fault(args.skip(k)) is None,
        named_by_kind(args.skip(k)),
    decreases k,
{
    assert forall|i: int| 0 <= i < args.take(k).len() implies #[trigger] args.take(k)[i]
        == argument(args.take(k)[i].value) by {
        assert(args.take(k)[i] == args[i]);
    }
    assert forall|i: int| 0 <= i < args.skip(k).len() implies #[trigger] args.skip(k)[i]
        == argument(args.skip(k)[i].value) by {
        assert(args.skip(k)[i] == args[i + k]);
    }
    if k == 0 {
        assert(args.skip(0) =~= args);
    } else {
        let tail = args.skip(1);
        assert forall|i: int| 0 <= i < tail.len() implies #[trigger] tail[i] == argument(
            tail[i].value,
        ) by {
            assert(tail[i] == args[i + 1]);
        }
        lemma_parts_well_formed(tail, k - 1);
        assert(args.take(k).skip(1) =~= tail.take(k - 1));
        assert(args.skip(k) =~= tail.skip(k - 1));
    }
}

proof fn lemma_text_cut(text: Seq<u8>, n: int)
    requires
        !text.contains(0u8),
        0 <= n < text_wire(text).len(),
    ensures
        parse_text(text_wire(text).take(n)) is Err,
{
    reveal(parse_text);
    let s = text_wire(text).take(n);
    let end = if n <= text.len() {
        n
    } else {
        text.len() as int
    };
    assert forall|j: int| 0 <= j < end implies s[j] != 0u8 by {
        assert(s[j] == text[j]);
        assert(text.contains(text[j]));
    }
    if n > text.len() {
        assert(s[end] == zeros(4 - text.len() % 4)[0]);
    }
    lemma_terminator(s, end);
}

proof fn lemma_value_cut(value: Value, n: int)
    requires
        value_fault(value) is None,
        0 <= n < value_wire(value).len(),
    ensures
        parse_arg(value_tag(value), value_wire(value).take(n)) is Err,
{
    reveal(parse_arg);
    lemma_value_aligned(value);
    match value {
        Value::Int(v) => {
            lemma_be32_round_trip(int_bits(v), Seq::empty());
        },
        Value::Float(bits) => {
            lemma_be32_round_trip(bits, Seq::empty());
        },
        Value::String(text) => {
            reveal(parse_string);
            lemma_nul_bytes(text);
            lemma_text_cut(encode_utf8(text), n);
        },
        Value::Blob(blob) => {
            reveal(parse_blob);
            let len = blob.len() as u32;
            lemma_be32_round_trip(len, Seq::empty());
            if n >= 4 {
                let s = blob_wire(blob).take(n);
                let behind = (blob + zeros((4 - blob.len() % 4) % 4)).take(n - 4);
                assert(s =~= be32(len) + behind);
                lemma_be32_round_trip(len, behind);
            }
        },
    }
}

proof fn lemma_args_cut(args: Seq<Argument>, n: int, done: Seq<Argument>)
    requires
        args_fault(args) is None,
        named_by_kind(args),
        0 <= n < payloads(args).len(),
    ensures
        parse_args_from(tags_of(args), payloads(args).take(n), done) is Err,
    decreases args.len(),
{
    let first = value_wire(args[0].value);
    let tail = args.skip(1);
    if n < first.len() {
        assert(payloads(args).take(n) =~= first.take(n));
        lemma_value_cut(args[0].value, n);
    } else {
        let k = n - first.len();
        assert(payloads(args).take(n) =~= first + payloads(tail).take(k));
        lemma_value_round_trip(args[0].value, payloads(tail).take(k));
        lemma_parts_well_formed(args, 1);
        assert(tags_of(args).skip(1) =~= tags_of(tail));
        lemma_args_cut(tail, k, done.push(args[0]));
    }
}

/// No buffer that ends before the end of a message is read as a message:
/// with its last byte cut off, or any more than that, the wire form of a
/// well-formed message is rejected.
pub proof fn law_truncation(m: Message, n: int)
    requires
        well_formed(m),
        0 <= n < message_wire(m).len(),
    ensures
        parse(message_wire(m).take(n), WasmOscProtocol::UDP) is Err,
        parse(message_wire(m).drop_last(), WasmOscProtocol::UDP) is Err,
{
    lemma_message_cut(m, n);
    lemma_message_cut(m, message_wire(m).len() - 1);
}

proof fn lemma_message_cut(m: Message, n: int)
    requires
        well_formed(m),
        0 <= n < message_wire(m).len(),
    ensures
        parse_packet(message_wire(m).take(n)) is Err,
{
    reveal(parse_packet);
    reveal(parse_addressed);
    reveal(parse_message);
    let address = text_wire(encode_utf8(m.address));
    let section = seq![COMMA] + tags_of(m.args);
    let tags = text_wire(section);
    let w = message_wire(m);
    let s = w.take(n);
    lemma_first_byte(m.address);
    lemma_nul_bytes(m.address);
    if n > 0 {
        assert(s[0] == encode_utf8(m.address)[0]);
        if has_bundle_marker(s) {
            assert(s.take(8)[0] == bundle_marker()[0]);
        }
        if n < address.len() {
            reveal(parse_string);
            assert(s =~= address.take(n));
            lemma_text_cut(encode_utf8(m.address), n);
        } else if n < address.len() + tags.len() {
            let k = n - address.len();
            assert(s =~= address + tags.take(k));
            lemma_string_round_trip(m.address, tags.take(k));
            lemma_tags_without_nul(m.args);
            lemma_text_cut(section, k);
        } else {
            let k = n - address.len() - tags.len();
            assert(s =~= address + (tags + payloads(m.args).take(k)));
            lemma_string_round_trip(m.address, tags + payloads(m.args).take(k));
            lemma_tags_without_nul(m.args);
            lemma_text_round_trip(section, payloads(m.args).take(k));
            assert(tags_in(section) =~= tags_of(m.args));
            lemma_args_cut(m.args, k, Seq::empty());
        }
    }
}

} // verus!
