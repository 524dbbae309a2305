use osc_wasm::{
    decode, decode_bundle, decode_message, decode_packet, decode_stream, encode, encode_bundle,
    encode_message, DecodeError, EncodeError, TimeTag, WasmEncodeOptions, WasmOscArg,
    WasmOscBundle, WasmOscMessage, WasmOscPacket, WasmOscProtocol, WasmOscValue,
};

fn int_arg(v: i32) -> WasmOscArg {
    WasmOscArg { type_: "i".to_string(), value: WasmOscValue::Int(v) }
}

fn float_arg(v: f32) -> WasmOscArg {
    WasmOscArg { type_: "f".to_string(), value: WasmOscValue::Float(v.to_bits()) }
}

fn text_arg(s: &str) -> WasmOscArg {
    WasmOscArg { type_: "s".to_string(), value: WasmOscValue::String(s.to_string()) }
}

fn blob_arg(b: &[u8]) -> WasmOscArg {
    WasmOscArg { type_: "b".to_string(), value: WasmOscValue::Blob(b.to_vec()) }
}

fn message(address: &str, args: Vec<WasmOscArg>) -> WasmOscMessage {
    WasmOscMessage { address: address.to_string(), args }
}

fn tcp() -> Option<WasmEncodeOptions> {
    Some(WasmEncodeOptions { protocol: Some(WasmOscProtocol::TCP) })
}

fn udp() -> Option<WasmEncodeOptions> {
    Some(WasmEncodeOptions { protocol: Some(WasmOscProtocol::UDP) })
}

fn framed(packet: &[u8]) -> Vec<u8> {
    let mut out = (packet.len() as u32).to_be_bytes().to_vec();
    out.extend_from_slice(packet);
    out
}

fn samples() -> Vec<WasmOscMessage> {
    vec![
        message("/", vec![]),
        message("/a", vec![]),
        message("/abc", vec![]),
        message("/test", vec![int_arg(42)]),
        message("/neg", vec![int_arg(-1), int_arg(i32::MIN), int_arg(i32::MAX), int_arg(0)]),
        message(
            "/f",
            vec![float_arg(1.5), float_arg(-0.0), float_arg(f32::NAN), float_arg(f32::INFINITY)],
        ),
        message(
            "/s",
            vec![
                text_arg(""),
                text_arg("a"),
                text_arg("abc"),
                text_arg("abcd"),
                text_arg("héllo wörld ✓"),
            ],
        ),
        message(
            "/b",
            vec![
                blob_arg(&[]),
                blob_arg(&[1]),
                blob_arg(&[1, 2]),
                blob_arg(&[1, 2, 3]),
                blob_arg(&[0, 0, 0, 0]),
                blob_arg(&[9; 5]),
            ],
        ),
        message(
            "/mixed/ünï",
            vec![text_arg("x"), int_arg(7), blob_arg(&[0xff, 0]), float_arg(2.25), text_arg("yz")],
        ),
    ]
}

#[test]
fn message_with_one_int_is_sixteen_bytes() {
    let m = message("/test", vec![int_arg(42)]);
    let bytes = encode(WasmOscPacket::Message(m.clone()), None).unwrap();
    assert_eq!(bytes.len(), 16);
    assert_eq!(&bytes[0..8], b"/test\0\0\0");
    assert_eq!(&bytes[8..12], b",i\0\0");
    assert_eq!(&bytes[12..16], &[0x00, 0x00, 0x00, 0x2a]);
    assert_eq!(decode(&bytes, None).unwrap(), vec![WasmOscPacket::Message(m)]);
}

#[test]
fn bundle_at_one_and_a_half_seconds_comes_back() {
    let tag = TimeTag::from_seconds_bits(1.5f64.to_bits());
    assert_eq!(tag, TimeTag { seconds: 1, fractional: 0x8000_0000 });
    let bundle = WasmOscBundle { time_tag: tag, packets: vec![message("/a", vec![])] };
    let bytes = encode(WasmOscPacket::Bundle(bundle.clone()), None).unwrap();
    let mut expected = b"#bundle\0".to_vec();
    expected.extend_from_slice(&[0, 0, 0, 1, 0x80, 0, 0, 0]);
    expected.extend_from_slice(&[0, 0, 0, 8]);
    expected.extend_from_slice(b"/a\0\0,\0\0\0");
    assert_eq!(bytes, expected);
    let read = decode(&bytes, None).unwrap();
    assert_eq!(read, vec![WasmOscPacket::Bundle(bundle)]);
    match &read[0] {
        WasmOscPacket::Bundle(b) => {
            let back = f64::from_bits(b.time_tag.to_seconds_bits());
            assert!((back - 1.5).abs() <= 1.0 / 4294967296.0);
            assert_eq!(back, 1.5);
            assert_eq!(b.packets.len(), 1);
            assert_eq!(b.packets[0], message("/a", vec![]));
        }
        WasmOscPacket::Message(_) => panic!("a bundle was written"),
    }
    let again = encode(read[0].clone(), None).unwrap();
    assert_eq!(again, bytes);
}

#[test]
fn every_sample_message_comes_back() {
    for m in samples() {
        let bytes = encode(WasmOscPacket::Message(m.clone()), None).unwrap();
        assert_eq!(decode(&bytes, None).unwrap(), vec![WasmOscPacket::Message(m.clone())]);
        assert_eq!(decode(&bytes, udp()).unwrap(), vec![WasmOscPacket::Message(m.clone())]);
        assert_eq!(decode_message(&bytes).unwrap(), m);
    }
}

#[test]
fn bundle_of_all_samples_comes_back() {
    let bundle = WasmOscBundle {
        time_tag: TimeTag { seconds: 0xdead_beef, fractional: 0x0102_0304 },
        packets: samples(),
    };
    let bytes = encode(WasmOscPacket::Bundle(bundle.clone()), None).unwrap();
    assert_eq!(&bytes[8..16], &[0xde, 0xad, 0xbe, 0xef, 1, 2, 3, 4]);
    assert_eq!(decode(&bytes, None).unwrap(), vec![WasmOscPacket::Bundle(bundle.clone())]);
    assert_eq!(encode_bundle(&bundle).unwrap(), bytes);
    assert_eq!(decode_bundle(&bytes).unwrap(), bundle);
    assert_eq!(decode_packet(&bytes).unwrap(), WasmOscPacket::Bundle(bundle));
}

#[test]
fn a_message_is_no_bundle() {
    let bytes = encode_message(&message("/a", vec![])).unwrap();
    assert_eq!(decode_bundle(&bytes), Err(DecodeError::UnrecognizedMarker));
    assert_eq!(decode_bundle(b"#bundle"), Err(DecodeError::UnrecognizedMarker));
    assert_eq!(decode_bundle(b"#bundle\0\0\0\0"), Err(DecodeError::Truncated));
}

#[test]
fn empty_bundle_is_sixteen_bytes() {
    let bundle = WasmOscBundle { time_tag: TimeTag { seconds: 0, fractional: 1 }, packets: vec![] };
    let bytes = encode(WasmOscPacket::Bundle(bundle.clone()), None).unwrap();
    assert_eq!(bytes, b"#bundle\0\0\0\0\0\0\0\0\x01".to_vec());
    assert_eq!(decode(&bytes, None).unwrap(), vec![WasmOscPacket::Bundle(bundle)]);
}

#[test]
fn arguments_keep_their_order() {
    let m = message("/order", vec![int_arg(1), text_arg("two"), int_arg(3), blob_arg(&[4]), float_arg(5.0), int_arg(6)]);
    let bytes = encode(WasmOscPacket::Message(m.clone()), None).unwrap();
    assert_eq!(&bytes[8..16], b",isibfi\0");
    match &decode(&bytes, None).unwrap()[0] {
        WasmOscPacket::Message(read) => {
            assert_eq!(read.args.len(), 6);
            for i in 0..6 {
                assert_eq!(read.args[i], m.args[i]);
            }
        }
        WasmOscPacket::Bundle(_) => panic!("a message was written"),
    }
    let swapped = message("/order", vec![text_arg("two"), int_arg(1), int_arg(3), blob_arg(&[4]), float_arg(5.0), int_arg(6)]);
    assert_ne!(encode(WasmOscPacket::Message(swapped), None).unwrap(), bytes);
}

#[test]
fn wire_length_is_a_multiple_of_four() {
    for m in samples() {
        let bytes = encode_message(&m).unwrap();
        assert_eq!(bytes.len() % 4, 0);
    }
    for n in 0..9 {
        let address = format!("/{}", "a".repeat(n));
        let text = "s".repeat(n);
        let data = vec![7u8; n];
        let m = message(&address, vec![text_arg(&text), blob_arg(&data)]);
        let bytes = encode_message(&m).unwrap();
        assert_eq!(bytes.len() % 4, 0);
        let bundle = WasmOscBundle {
            time_tag: TimeTag { seconds: 1, fractional: 2 },
            packets: vec![m.clone(), m],
        };
        assert_eq!(encode_bundle(&bundle).unwrap().len() % 4, 0);
    }
}

#[test]
fn text_and_blob_payloads_are_padded_as_laid_down() {
    assert_eq!(encode_message(&message("/abc", vec![])).unwrap(), b"/abc\0\0\0\0,\0\0\0".to_vec());
    assert_eq!(
        encode_message(&message("/a", vec![text_arg("abc")])).unwrap(),
        b"/a\0\0,s\0\0abc\0".to_vec()
    );
    assert_eq!(
        encode_message(&message("/a", vec![text_arg("abcd")])).unwrap(),
        b"/a\0\0,s\0\0abcd\0\0\0\0".to_vec()
    );
    assert_eq!(
        encode_message(&message("/a", vec![blob_arg(&[1, 2, 3, 4, 5])])).unwrap(),
        b"/a\0\0,b\0\0\0\0\0\x05\x01\x02\x03\x04\x05\0\0\0".to_vec()
    );
    assert_eq!(
        encode_message(&message("/a", vec![blob_arg(&[1, 2, 3, 4])])).unwrap(),
        b"/a\0\0,b\0\0\0\0\0\x04\x01\x02\x03\x04".to_vec()
    );
    assert_eq!(
        encode_message(&message("/a", vec![blob_arg(&[])])).unwrap(),
        b"/a\0\0,b\0\0\0\0\0\0".to_vec()
    );
    assert_eq!(
        encode_message(&message("/a", vec![int_arg(-2)])).unwrap(),
        b"/a\0\0,i\0\0\xff\xff\xff\xfe".to_vec()
    );
    assert_eq!(
        encode_message(&message("/a", vec![float_arg(1.0)])).unwrap(),
        b"/a\0\0,f\0\0\x3f\x80\0\0".to_vec()
    );
    assert_eq!(
        encode_message(&message("/a", vec![int_arg(1), int_arg(2), int_arg(3)])).unwrap(),
        b"/a\0\0,iii\0\0\0\0\0\0\0\x01\0\0\0\x02\0\0\0\x03".to_vec()
    );
}

#[test]
fn the_name_of_an_argument_is_not_written() {
    let odd = WasmOscArg { type_: "whatever".to_string(), value: WasmOscValue::Int(5) };
    let bytes = encode_message(&message("/a", vec![odd])).unwrap();
    assert_eq!(bytes, encode_message(&message("/a", vec![int_arg(5)])).unwrap());
    assert_eq!(decode_message(&bytes).unwrap(), message("/a", vec![int_arg(5)]));
}

#[test]
fn two_framed_messages_are_read_from_a_stream() {
    let m1 = message("/one", vec![int_arg(1), text_arg("first")]);
    let m2 = message("/two", vec![blob_arg(&[2, 2])]);
    let b1 = encode(WasmOscPacket::Message(m1.clone()), tcp()).unwrap();
    let b2 = encode(WasmOscPacket::Message(m2.clone()), tcp()).unwrap();
    let mut stream = framed(&b1);
    stream.extend_from_slice(&framed(&b2));
    assert_eq!(
        decode(&stream, tcp()).unwrap(),
        vec![WasmOscPacket::Message(m1.clone()), WasmOscPacket::Message(m2.clone())]
    );
    assert_eq!(
        decode_stream(&stream).unwrap(),
        vec![WasmOscPacket::Message(m1), WasmOscPacket::Message(m2)]
    );
}

#[test]
fn a_stream_may_hold_bundles_and_messages() {
    let m = message("/m", vec![float_arg(0.5)]);
    let bundle = WasmOscBundle {
        time_tag: TimeTag { seconds: 3, fractional: 4 },
        packets: vec![m.clone(), message("/n", vec![])],
    };
    let mut stream = framed(&encode(WasmOscPacket::Bundle(bundle.clone()), None).unwrap());
    stream.extend_from_slice(&framed(&encode_message(&m).unwrap()));
    stream.extend_from_slice(&framed(&encode_bundle(&bundle).unwrap()));
    assert_eq!(
        decode(&stream, tcp()).unwrap(),
        vec![
            WasmOscPacket::Bundle(bundle.clone()),
            WasmOscPacket::Message(m),
            WasmOscPacket::Bundle(bundle)
        ]
    );
}

#[test]
fn an_empty_stream_holds_no_packet() {
    assert_eq!(decode(&[], tcp()).unwrap(), vec![]);
}

#[test]
fn an_empty_datagram_is_truncated() {
    assert_eq!(decode(&[], None), Err(DecodeError::Truncated));
    assert_eq!(decode(&[], udp()), Err(DecodeError::Truncated));
}

#[test]
fn a_stream_fails_as_a_whole() {
    let m = message("/ok", vec![int_arg(1)]);
    let good = framed(&encode_message(&m).unwrap());
    let mut overrun = good.clone();
    overrun.extend_from_slice(&[0, 0, 0, 9, b'/', b'a', 0, 0]);
    assert_eq!(decode(&overrun, tcp()), Err(DecodeError::LengthOverrun));
    let mut short_length = good.clone();
    short_length.extend_from_slice(&[0, 0]);
    assert_eq!(decode(&short_length, tcp()), Err(DecodeError::Truncated));
    let mut bad_packet = good.clone();
    bad_packet.extend_from_slice(&framed(b"abcd"));
    assert_eq!(decode(&bad_packet, tcp()), Err(DecodeError::UnrecognizedMarker));
    let mut empty_frame = good.clone();
    empty_frame.extend_from_slice(&[0, 0, 0, 0]);
    assert_eq!(decode(&empty_frame, tcp()), Err(DecodeError::Truncated));
    let mut one_too_many = (good.len() as u32 - 4 + 1).to_be_bytes().to_vec();
    one_too_many.extend_from_slice(&good[4..]);
    assert_eq!(decode(&one_too_many, tcp()), Err(DecodeError::LengthOverrun));
}

#[test]
fn a_frame_ends_where_its_length_says() {
    let m = message("/m", vec![int_arg(1)]);
    let bytes = encode_message(&m).unwrap();
    let mut inner = bytes.clone();
    inner.extend_from_slice(&[0xaa, 0xbb, 0xcc]);
    let mut stream = framed(&inner);
    stream.extend_from_slice(&framed(&bytes));
    assert_eq!(
        decode(&stream, tcp()).unwrap(),
        vec![WasmOscPacket::Message(m.clone()), WasmOscPacket::Message(m)]
    );
}

#[test]
fn bytes_behind_a_message_are_ignored() {
    for m in samples() {
        let mut bytes = encode_message(&m).unwrap();
        bytes.extend_from_slice(&[0xde, 0xad, 0xbe, 0xef, 0x00, 0x2f, 0x23]);
        assert_eq!(decode(&bytes, None).unwrap(), vec![WasmOscPacket::Message(m)]);
    }
}

#[test]
fn bytes_behind_a_bundle_are_read_as_elements() {
    let bundle = WasmOscBundle {
        time_tag: TimeTag { seconds: 1, fractional: 0 },
        packets: vec![message("/a", vec![])],
    };
    let mut bytes = encode_bundle(&bundle).unwrap();
    bytes.extend_from_slice(&[0xde, 0xad]);
    assert_eq!(decode(&bytes, None), Err(DecodeError::Truncated));
    bytes.extend_from_slice(&[0xbe, 0xef]);
    assert_eq!(decode(&bytes, None), Err(DecodeError::LengthOverrun));
}

#[test]
fn a_tag_that_is_not_read_gives_a_placeholder() {
    let mut bytes = b"/x\0\0,iTi\0\0\0\0".to_vec();
    bytes.extend_from_slice(&[0, 0, 0, 1, 0, 0, 0, 2]);
    let read = decode(&bytes, None).unwrap();
    let placeholder =
        WasmOscArg { type_: "unknown".to_string(), value: WasmOscValue::String(String::new()) };
    assert_eq!(
        read,
        vec![WasmOscPacket::Message(message("/x", vec![int_arg(1), placeholder.clone(), int_arg(2)]))]
    );
    assert_eq!(WasmOscArg::unknown(), placeholder);
}

#[test]
fn the_payload_of_a_tag_that_is_not_read_is_passed_over() {
    // h, d, t take eight bytes; c, r, m take four; T, F, N, I and any other take none.
    let mut bytes = b"/x\0\0,hdtcrmTFNI[]Xi\0".to_vec();
    bytes.extend_from_slice(&[1; 8]);
    bytes.extend_from_slice(&[2; 8]);
    bytes.extend_from_slice(&[3; 8]);
    bytes.extend_from_slice(&[4; 4]);
    bytes.extend_from_slice(&[5; 4]);
    bytes.extend_from_slice(&[6; 4]);
    bytes.extend_from_slice(&[0, 0, 0, 77]);
    let read = decode_message(&bytes).unwrap();
    assert_eq!(read.address, "/x");
    assert_eq!(read.args.len(), 14);
    for i in 0..13 {
        assert_eq!(read.args[i], WasmOscArg::unknown());
    }
    assert_eq!(read.args[13], int_arg(77));
    let cut = &bytes[..bytes.len() - 5];
    assert_eq!(decode_message(cut), Err(DecodeError::Truncated));
}

#[test]
fn a_message_without_its_last_byte_is_rejected() {
    for m in samples() {
        let bytes = encode_message(&m).unwrap();
        let cut = &bytes[..bytes.len() - 1];
        assert!(decode(cut, None).is_err());
        assert!(decode_message(cut).is_err());
    }
    let bytes = encode_message(&message("/test", vec![int_arg(42)])).unwrap();
    assert_eq!(decode(&bytes[..15], None), Err(DecodeError::Truncated));
}

#[test]
fn no_proper_prefix_of_a_message_is_read() {
    for m in samples() {
        let bytes = encode_message(&m).unwrap();
        for n in 0..bytes.len() {
            assert!(decode(&bytes[..n], None).is_err());
        }
    }
}

#[test]
fn each_way_of_being_malformed_has_its_error() {
    assert_eq!(decode(b"/abc", None), Err(DecodeError::Truncated));
    assert_eq!(decode(b"/ab\0", None), Err(DecodeError::Truncated));
    assert_eq!(decode(b"/a\0", None), Err(DecodeError::MissingPadding));
    assert_eq!(decode(b"/a\0\0,i\0", None), Err(DecodeError::MissingPadding));
    assert_eq!(decode(b"/a\0\0,i\0\0\0\0\0", None), Err(DecodeError::Truncated));
    assert_eq!(decode(b"/a\0\0,f\0\0", None), Err(DecodeError::Truncated));
    assert_eq!(decode(b"/a\0\0,s\0\0abc", None), Err(DecodeError::Truncated));
    assert_eq!(decode(b"/a\0\0,s\0\0ab\0", None), Err(DecodeError::MissingPadding));
    assert_eq!(decode(b"/a\0\0,b\0\0\0\0", None), Err(DecodeError::Truncated));
    assert_eq!(decode(b"/a\0\0,b\0\0\0\0\0\x05abcd", None), Err(DecodeError::LengthOverrun));
    assert_eq!(decode(b"/a\0\0,b\0\0\0\0\0\x05abcde\0\0", None), Err(DecodeError::MissingPadding));
    assert_eq!(decode(b"/\xff\0\0,\0\0\0", None), Err(DecodeError::InvalidUtf8));
    assert_eq!(decode(b"/a\0\0,s\0\0\xc3\x28\0\0", None), Err(DecodeError::InvalidUtf8));
    assert_eq!(decode(b"abc\0,\0\0\0", None), Err(DecodeError::UnrecognizedMarker));
    assert_eq!(decode(b"#bundlX\0\0\0\0\0\0\0\0\0", None), Err(DecodeError::UnrecognizedMarker));
    assert_eq!(decode(b"\0\0\0\0", None), Err(DecodeError::UnrecognizedMarker));
    assert_eq!(decode(b"#bundle\0\0\0\0\0\0\0\0", None), Err(DecodeError::Truncated));
    assert_eq!(decode(b"#bundle\0", None), Err(DecodeError::Truncated));
}

#[test]
fn a_bundle_fails_on_an_element_that_overruns_it() {
    let mut bytes = b"#bundle\0\0\0\0\0\0\0\0\x01".to_vec();
    bytes.extend_from_slice(&framed(b"/a\0\0,\0\0\0"));
    bytes.extend_from_slice(&[0, 0, 0, 12]);
    bytes.extend_from_slice(b"/b\0\0,\0\0\0");
    assert_eq!(decode(&bytes, None), Err(DecodeError::LengthOverrun));
    let mut bad_element = b"#bundle\0\0\0\0\0\0\0\0\x01".to_vec();
    bad_element.extend_from_slice(&framed(b"/a\0\0,i\0\0"));
    assert_eq!(decode(&bad_element, None), Err(DecodeError::Truncated));
    let mut no_address = b"#bundle\0\0\0\0\0\0\0\0\x01".to_vec();
    no_address.extend_from_slice(&framed(b"a\0\0\0,\0\0\0"));
    assert_eq!(decode(&no_address, None), Err(DecodeError::UnrecognizedMarker));
    let mut empty_element = b"#bundle\0\0\0\0\0\0\0\0\x01".to_vec();
    empty_element.extend_from_slice(&[0, 0, 0, 0]);
    assert_eq!(decode(&empty_element, None), Err(DecodeError::Truncated));
}

#[test]
fn a_bundle_inside_a_bundle_is_dropped() {
    let inner = encode_bundle(&WasmOscBundle {
        time_tag: TimeTag { seconds: 9, fractional: 9 },
        packets: vec![message("/inner", vec![int_arg(1)])],
    })
    .unwrap();
    let mut bytes = b"#bundle\0\0\0\0\x07\0\0\0\x08".to_vec();
    bytes.extend_from_slice(&framed(&encode_message(&message("/first", vec![])).unwrap()));
    bytes.extend_from_slice(&framed(&inner));
    bytes.extend_from_slice(&framed(b"#bundle\0garbage that is never read"));
    bytes.extend_from_slice(&framed(&encode_message(&message("/last", vec![int_arg(2)])).unwrap()));
    let read = decode(&bytes, None).unwrap();
    assert_eq!(
        read,
        vec![WasmOscPacket::Bundle(WasmOscBundle {
            time_tag: TimeTag { seconds: 7, fractional: 8 },
            packets: vec![message("/first", vec![]), message("/last", vec![int_arg(2)])],
        })]
    );
}

#[test]
fn encoding_does_not_depend_on_the_protocol() {
    for m in samples() {
        let plain = encode(WasmOscPacket::Message(m.clone()), None).unwrap();
        assert_eq!(encode(WasmOscPacket::Message(m.clone()), udp()).unwrap(), plain);
        assert_eq!(encode(WasmOscPacket::Message(m.clone()), tcp()).unwrap(), plain);
        assert_eq!(
            encode(WasmOscPacket::Message(m), Some(WasmEncodeOptions::default())).unwrap(),
            plain
        );
    }
}

#[test]
fn options_without_a_protocol_mean_a_datagram() {
    assert_eq!(WasmEncodeOptions::default(), WasmEncodeOptions { protocol: None });
    let bytes = encode_message(&message("/a", vec![])).unwrap();
    assert_eq!(
        decode(&bytes, Some(WasmEncodeOptions::default())).unwrap(),
        vec![WasmOscPacket::Message(message("/a", vec![]))]
    );
    assert_eq!(decode(&bytes, tcp()), Err(DecodeError::LengthOverrun));
}

#[test]
fn a_nul_in_a_text_cannot_be_written() {
    assert_eq!(
        encode(WasmOscPacket::Message(message("/a\0b", vec![])), None),
        Err(EncodeError::NulInAddress)
    );
    assert_eq!(
        encode(WasmOscPacket::Message(message("/a", vec![int_arg(1), text_arg("x\0")])), None),
        Err(EncodeError::NulInString)
    );
    assert_eq!(
        encode(WasmOscPacket::Message(message("\0", vec![text_arg("\0")])), None),
        Err(EncodeError::NulInAddress)
    );
    let bundle = WasmOscBundle {
        time_tag: TimeTag { seconds: 0, fractional: 0 },
        packets: vec![message("/fine", vec![]), message("/a", vec![text_arg("\0")]), message("\0", vec![])],
    };
    assert_eq!(encode(WasmOscPacket::Bundle(bundle), None), Err(EncodeError::NulInString));
}

#[test]
fn an_address_without_a_slash_is_written_but_not_read() {
    let bytes = encode_message(&message("abc", vec![])).unwrap();
    assert_eq!(bytes, b"abc\0,\0\0\0".to_vec());
    assert_eq!(decode(&bytes, None), Err(DecodeError::UnrecognizedMarker));
    assert_eq!(decode_message(&bytes).unwrap(), message("abc", vec![]));
}

#[test]
fn the_first_byte_of_the_type_tags_is_passed_over() {
    assert_eq!(
        decode(b"/a\0\0Xi\0\0\0\0\0\x07", None).unwrap(),
        vec![WasmOscPacket::Message(message("/a", vec![int_arg(7)]))]
    );
    assert_eq!(
        decode(b"/a\0\0\0\0\0\0", None).unwrap(),
        vec![WasmOscPacket::Message(message("/a", vec![]))]
    );
}

#[test]
fn padding_bytes_are_not_looked_at() {
    assert_eq!(
        decode(b"/a\0\x01,s\0\x02ab\0\x03", None).unwrap(),
        vec![WasmOscPacket::Message(message("/a", vec![text_arg("ab")]))]
    );
}

#[test]
fn values_know_their_tags_and_names() {
    assert_eq!(WasmOscValue::Int(1).type_tag(), b'i');
    assert_eq!(WasmOscValue::Float(0).type_tag(), b'f');
    assert_eq!(WasmOscValue::String(String::new()).type_tag(), b's');
    assert_eq!(WasmOscValue::Blob(vec![]).type_tag(), b'b');
    assert_eq!(WasmOscArg::new(WasmOscValue::Int(1)), int_arg(1));
    assert_eq!(WasmOscArg::new(WasmOscValue::Float(1.5f32.to_bits())), float_arg(1.5));
    assert_eq!(WasmOscArg::new(WasmOscValue::String("x".to_string())), text_arg("x"));
    assert_eq!(WasmOscArg::new(WasmOscValue::Blob(vec![1])), blob_arg(&[1]));
    assert_eq!(WasmOscArg::unknown().type_, "unknown");
    assert_eq!(WasmOscArg::unknown().value, WasmOscValue::String(String::new()));
}

#[test]
fn errors_say_what_went_wrong() {
    assert_eq!(EncodeError::NulInAddress.message(), "the address holds a NUL");
    assert_eq!(EncodeError::NulInString.message(), "a string argument holds a NUL");
    assert_eq!(EncodeError::BlobTooLong.message(), "a blob is too long for a 32-bit length");
    assert_eq!(
        EncodeError::MessageTooLong.message(),
        "a message of the bundle is too long for a 32-bit length"
    );
    assert_eq!(DecodeError::Truncated.message(), "the buffer ends inside a field");
    assert_eq!(
        DecodeError::MissingPadding.message(),
        "the padding behind a text or blob is missing"
    );
    assert_eq!(
        DecodeError::LengthOverrun.message(),
        "a length prefix exceeds the bytes that are left"
    );
    assert_eq!(DecodeError::InvalidUtf8.message(), "a text is not UTF-8");
    assert_eq!(
        DecodeError::UnrecognizedMarker.message(),
        "the packet starts neither with / nor with #bundle"
    );
}
