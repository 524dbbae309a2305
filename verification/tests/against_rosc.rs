use osc_wasm::{
    decode, encode, TimeTag, WasmOscArg, WasmOscBundle, WasmOscMessage, WasmOscPacket,
    WasmOscValue,
};
use rosc::{OscBundle, OscColor, OscMessage, OscMidiMessage, OscPacket, OscTime, OscType};

fn to_rosc_arg(arg: &WasmOscArg) -> OscType {
    match &arg.value {
        WasmOscValue::Int(v) => OscType::Int(*v),
        WasmOscValue::Float(bits) => OscType::Float(f32::from_bits(*bits)),
        WasmOscValue::String(s) => OscType::String(s.clone()),
        WasmOscValue::Blob(b) => OscType::Blob(b.clone()),
    }
}

fn to_rosc_message(m: &WasmOscMessage) -> OscPacket {
    OscPacket::Message(OscMessage {
        addr: m.address.clone(),
        args: m.args.iter().map(to_rosc_arg).collect(),
    })
}

fn to_rosc(p: &WasmOscPacket) -> OscPacket {
    match p {
        WasmOscPacket::Message(m) => to_rosc_message(m),
        WasmOscPacket::Bundle(b) => OscPacket::Bundle(OscBundle {
            timetag: OscTime { seconds: b.time_tag.seconds, fractional: b.time_tag.fractional },
            content: b.packets.iter().map(to_rosc_message).collect(),
        }),
    }
}

fn arg(value: WasmOscValue) -> WasmOscArg {
    WasmOscArg::new(value)
}

fn packets() -> Vec<WasmOscPacket> {
    let plain = WasmOscMessage { address: "/plain".to_string(), args: vec![] };
    let full = WasmOscMessage {
        address: "/synth/1/freq".to_string(),
        args: vec![
            arg(WasmOscValue::Int(-123456)),
            arg(WasmOscValue::Float(440.0f32.to_bits())),
            arg(WasmOscValue::String("sine wave ♪".to_string())),
            arg(WasmOscValue::Blob(vec![1, 2, 3, 4, 5, 6, 7])),
            arg(WasmOscValue::String(String::new())),
            arg(WasmOscValue::Blob(vec![])),
            arg(WasmOscValue::Float(0x7fc0_0001)),
        ],
    };
    vec![
        WasmOscPacket::Message(plain.clone()),
        WasmOscPacket::Message(full.clone()),
        WasmOscPacket::Bundle(WasmOscBundle {
            time_tag: TimeTag { seconds: 3_900_000_000, fractional: 0x4000_0000 },
            packets: vec![],
        }),
        WasmOscPacket::Bundle(WasmOscBundle {
            time_tag: TimeTag { seconds: 1, fractional: u32::MAX },
            packets: vec![full, plain],
        }),
    ]
}

#[test]
fn writes_the_bytes_that_rosc_writes() {
    for p in packets() {
        let ours = encode(p.clone(), None).unwrap();
        let theirs = rosc::encoder::encode(&to_rosc(&p)).unwrap();
        assert_eq!(ours, theirs);
    }
}

#[test]
fn reads_what_rosc_wrote() {
    for p in packets() {
        let theirs = rosc::encoder::encode(&to_rosc(&p)).unwrap();
        assert_eq!(decode(&theirs, None).unwrap(), vec![p]);
    }
}

#[test]
fn rosc_reads_what_was_written() {
    for p in packets() {
        let ours = encode(p.clone(), None).unwrap();
        let (rest, read) = rosc::decoder::decode_udp(&ours).unwrap();
        assert!(rest.is_empty());
        assert_eq!(encode_again(&read), ours);
    }
}

fn encode_again(p: &OscPacket) -> Vec<u8> {
    rosc::encoder::encode(p).unwrap()
}

#[test]
fn kinds_that_are_not_read_become_placeholders() {
    let theirs = rosc::encoder::encode(&OscPacket::Message(OscMessage {
        addr: "/all".to_string(),
        args: vec![
            OscType::Int(1),
            OscType::Long(-2),
            OscType::Double(3.5),
            OscType::Time(OscTime { seconds: 4, fractional: 5 }),
            OscType::Char('c'),
            OscType::Color(OscColor { red: 1, green: 2, blue: 3, alpha: 4 }),
            OscType::Midi(OscMidiMessage { port: 1, status: 2, data1: 3, data2: 4 }),
            OscType::Bool(true),
            OscType::Bool(false),
            OscType::Nil,
            OscType::Inf,
            OscType::String("after".to_string()),
            OscType::Blob(vec![9, 9, 9]),
            OscType::Float(2.5),
        ],
    }))
    .unwrap();
    let read = decode(&theirs, None).unwrap();
    let unknown = WasmOscArg::unknown();
    let expected = WasmOscMessage {
        address: "/all".to_string(),
        args: vec![
            arg(WasmOscValue::Int(1)),
            unknown.clone(),
            unknown.clone(),
            unknown.clone(),
            unknown.clone(),
            unknown.clone(),
            unknown.clone(),
            unknown.clone(),
            unknown.clone(),
            unknown.clone(),
            unknown.clone(),
            arg(WasmOscValue::String("after".to_string())),
            arg(WasmOscValue::Blob(vec![9, 9, 9])),
            arg(WasmOscValue::Float(2.5f32.to_bits())),
        ],
    };
    assert_eq!(read, vec![WasmOscPacket::Message(expected)]);
}

#[test]
fn a_nested_bundle_written_by_rosc_is_dropped() {
    let message = |addr: &str| {
        OscPacket::Message(OscMessage { addr: addr.to_string(), args: vec![OscType::Int(1)] })
    };
    let theirs = rosc::encoder::encode(&OscPacket::Bundle(OscBundle {
        timetag: OscTime { seconds: 10, fractional: 20 },
        content: vec![
            message("/a"),
            OscPacket::Bundle(OscBundle {
                timetag: OscTime { seconds: 30, fractional: 40 },
                content: vec![message("/nested")],
            }),
            message("/b"),
        ],
    }))
    .unwrap();
    let ours = WasmOscMessage { address: String::new(), args: vec![arg(WasmOscValue::Int(1))] };
    assert_eq!(
        decode(&theirs, None).unwrap(),
        vec![WasmOscPacket::Bundle(WasmOscBundle {
            time_tag: TimeTag { seconds: 10, fractional: 20 },
            packets: vec![
                WasmOscMessage { address: "/a".to_string(), ..ours.clone() },
                WasmOscMessage { address: "/b".to_string(), ..ours },
            ],
        })]
    );
}
