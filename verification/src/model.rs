//! The packets that the codec reads and writes, and their mathematical views.
//!
//! Each type that holds a packet or a part of one has a view that holds the
//! same in sequences: `Value` for `WasmOscValue`, `Argument` for
//! `WasmOscArg`, `Message` for `WasmOscMessage`, `Bundle` for
//! `WasmOscBundle` and `Packet` for `WasmOscPacket`.  The wire form and the
//! grammar are stated over the views.

use vstd::prelude::*;
use crate::timetag::TimeTag;

verus! {

/// The tag of a 32-bit integer: `i`.
pub const TAG_INT: u8 = 0x69;

/// The tag of a 32-bit float: `f`.
pub const TAG_FLOAT: u8 = 0x66;

/// The tag of a string: `s`.
pub const TAG_STRING: u8 = 0x73;

/// The tag of a blob: `b`.
pub const TAG_BLOB: u8 = 0x62;

/// The value of one argument.  A 32-bit float is held by its IEEE-754 bit
/// pattern, which is what travels on the wire.
#[derive(Clone, Debug, PartialEq, Eq)]
pub enum WasmOscValue {
    Int(i32),
    Float(u32),
    String(String),
    Blob(Vec<u8>),
}

/// One argument of a message: a value and the name of its kind.
///
/// The name is `"i"`, `"f"`, `"s"` or `"b"` for the four kinds, and
/// `"unknown"` on the placeholder that stands for an argument of a kind the
/// codec does not read.  Encoding goes by the value alone.
#[derive(Clone, Debug, PartialEq, Eq)]
pub struct WasmOscArg {
    pub type_: String,
    pub value: WasmOscValue,
}

/// An address and its arguments, in order.
#[derive(Clone, Debug, PartialEq, Eq)]
pub struct WasmOscMessage {
    pub address: String,
    pub args: Vec<WasmOscArg>,
}

/// A time tag and the messages to be applied at that time, in order.
#[derive(Clone, Debug, PartialEq, Eq)]
pub struct WasmOscBundle {
    pub time_tag: TimeTag,
    pub packets: Vec<WasmOscMessage>,
}

/// A message or a bundle.
#[derive(Clone, Debug, PartialEq, Eq)]
pub enum WasmOscPacket {
    Message(WasmOscMessage),
    Bundle(WasmOscBundle),
}

/// How packets are framed in a buffer: `UDP` is one packet per buffer, `TCP`
/// a sequence of packets, each behind a 32-bit length.
#[derive(Clone, Copy, Debug, PartialEq, Eq, Structural)]
pub enum WasmOscProtocol {
    UDP,
    TCP,
}

/// What a caller may ask of the codec: the protocol, `UDP` where none is
/// named.
#[derive(Clone, Copy, Debug, PartialEq, Eq)]
pub struct WasmEncodeOptions {
    pub protocol: Option<WasmOscProtocol>,
}

/// Why a packet has no wire form.
#[derive(Clone, Copy, Debug, PartialEq, Eq, Structural)]
pub enum EncodeError {
    /// The address holds a NUL, which would end it early.
    NulInAddress,
    /// A string argument holds a NUL.
    NulInString,
    /// A blob is longer than a 32-bit length can say.
    BlobTooLong,
    /// A message of a bundle is longer than a 32-bit length can say.
    MessageTooLong,
}

/// Why a buffer is not the wire form of a packet.
#[derive(Clone, Copy, Debug, PartialEq, Eq, Structural)]
pub enum DecodeError {
    /// The buffer ends inside a field: a text without its NUL, a number or a
    /// length cut short, or nothing at all where a packet should start.
    Truncated,
    /// A text or blob is not followed by the bytes that pad it to a multiple
    /// of four.
    MissingPadding,
    /// A length prefix asks for more bytes than are left.
    LengthOverrun,
    /// An address or a string argument is not UTF-8.
    InvalidUtf8,
    /// The packet starts neither with `/` nor with the bundle marker.
    UnrecognizedMarker,
}

/// What a `WasmOscValue` holds.
pub enum Value {
    Int(i32),
    Float(u32),
    String(Seq<char>),
    Blob(Seq<u8>),
}

/// What a `WasmOscArg` holds.
pub struct Argument {
    pub type_: Seq<char>,
    pub value: Value,
}

/// What a `WasmOscMessage` holds.
pub struct Message {
    pub address: Seq<char>,
    pub args: Seq<Argument>,
}

/// What a `WasmOscBundle` holds.
pub struct Bundle {
    pub time_tag: TimeTag,
    pub packets: Seq<Message>,
}

/// What a `WasmOscPacket` holds.
pub enum Packet {
    Message(Message),
    Bundle(Bundle),
}

impl View for WasmOscValue {
    type V = Value;

    open spec fn view(&self) -> Value {
        match *self {
            WasmOscValue::Int(v) => Value::Int(v),
            WasmOscValue::Float(bits) => Value::Float(bits),
            WasmOscValue::String(s) => Value::String(s@),
            WasmOscValue::Blob(b) => Value::Blob(b@),
        }
    }
}

impl View for WasmOscArg {
    type V = Argument;

    open spec fn view(&self) -> Argument {
        Argument { type_: self.type_@, value: self.value@ }
    }
}

impl View for WasmOscMessage {
    type V = Message;

    open spec fn view(&self) -> Message {
        Message { address: self.address@, args: args_view(self.args@) }
    }
}

impl View for WasmOscBundle {
    type V = Bundle;

    open spec fn view(&self) -> Bundle {
        Bundle { time_tag: self.time_tag, packets: messages_view(self.packets@) }
    }
}

impl View for WasmOscPacket {
    type V = Packet;

    open spec fn view(&self) -> Packet {
        match *self {
            WasmOscPacket::Message(m) => Packet::Message(m@),
            WasmOscPacket::Bundle(b) => Packet::Bundle(b@),
        }
    }
}

/// The views of `args`, in order.
pub open spec fn args_view(args: Seq<WasmOscArg>) -> Seq<Argument> {
    args.map_values(|a: WasmOscArg| a@)
}

/// The views of `messages`, in order.
pub open spec fn messages_view(messages: Seq<WasmOscMessage>) -> Seq<Message> {
    messages.map_values(|m: WasmOscMessage| m@)
}

/// The views of `packets`, in order.
pub open spec fn packets_view(packets: Seq<WasmOscPacket>) -> Seq<Packet> {
    packets.map_values(|p: WasmOscPacket| p@)
}

/// The byte that stands for the kind of `value` among the type tags of a
/// message.
pub open spec fn value_tag(value: Value) -> u8 {
    match value {
        Value::Int(_) => TAG_INT,
        Value::Float(_) => TAG_FLOAT,
        Value::String(_) => TAG_STRING,
        Value::Blob(_) => TAG_BLOB,
    }
}

/// The name that an argument of this value carries.
pub open spec fn kind_name(value: Value) -> Seq<char> {
    match value {
        Value::Int(_) => "i"@,
        Value::Float(_) => "f"@,
        Value::String(_) => "s"@,
        Value::Blob(_) => "b"@,
    }
}

/// The argument that carries `value` under the name of its kind.
pub open spec fn argument(value: Value) -> Argument {
    Argument { type_: kind_name(value), value }
}

/// What stands for an argument of a kind that the codec does not read: the
/// name `unknown` and an empty string.
pub open spec fn placeholder() -> Argument {
    Argument { type_: "unknown"@, value: Value::String(Seq::empty()) }
}

impl WasmOscValue {
    /// The byte that stands for the kind of this value among the type tags
    /// of a message: `i`, `f`, `s` or `b`.
    pub fn type_tag(&self) -> (tag: u8)
        ensures
            tag == value_tag(self@),
    {
        match self {
            WasmOscValue::Int(_) => TAG_INT,
            WasmOscValue::Float(_) => TAG_FLOAT,
            WasmOscValue::String(_) => TAG_STRING,
            WasmOscValue::Blob(_) => TAG_BLOB,
        }
    }
}

impl WasmOscArg {
    /// The argument that carries `value` under the name of its kind.
    pub fn new(value: WasmOscValue) -> (arg: WasmOscArg)
        ensures
            arg@ == argument(value@),
    {
        let name = match &value {
            WasmOscValue::Int(_) => "i",
            WasmOscValue::Float(_) => "f",
            WasmOscValue::String(_) => "s",
            WasmOscValue::Blob(_) => "b",
        };
        WasmOscArg { type_: name.to_owned(), value }
    }

    /// The placeholder for an argument of a kind that the codec does not
    /// read.
    pub fn unknown() -> (arg: WasmOscArg)
        ensures
            arg@ == placeholder(),
    {
        WasmOscArg { type_: "unknown".to_owned(), value: WasmOscValue::String(String::new()) }
    }
}

impl Default for WasmEncodeOptions {
    fn default() -> (options: WasmEncodeOptions)
        ensures
            options.protocol is None,
    {
        WasmEncodeOptions { protocol: None }
    }
}

impl EncodeError {
    /// The words of `message`.
    pub open spec fn description(self) -> Seq<char> {
        match self {
            EncodeError::NulInAddress => "the address holds a NUL"@,
            EncodeError::NulInString => "a string argument holds a NUL"@,
            EncodeError::BlobTooLong => "a blob is too long for a 32-bit length"@,
            EncodeError::MessageTooLong => {
                "a message of the bundle is too long for a 32-bit length"@
            },
        }
    }

    /// What went wrong, in words.
    pub fn message(&self) -> (text: String)
        ensures
            text@ == self.description(),
    {
        match self {
            EncodeError::NulInAddress => "the address holds a NUL".to_owned(),
            EncodeError::NulInString => "a string argument holds a NUL".to_owned(),
            EncodeError::BlobTooLong => "a blob is too long for a 32-bit length".to_owned(),
            EncodeError::MessageTooLong => {
                "a message of the bundle is too long for a 32-bit length".to_owned()
            },
        }
    }
}

impl DecodeError {
    /// The words of `message`.
    pub open spec fn description(self) -> Seq<char> {
        match self {
            DecodeError::Truncated => "the buffer ends inside a field"@,
            DecodeError::MissingPadding => "the padding behind a text or blob is missing"@,
            DecodeError::LengthOverrun => "a length prefix exceeds the bytes that are left"@,
            DecodeError::InvalidUtf8 => "a text is not UTF-8"@,
            DecodeError::UnrecognizedMarker => "the packet starts neither with / nor with #bundle"@,
        }
    }

    /// What went wrong, in words.
    pub fn message(&self) -> (text: String)
        ensures
            text@ == self.description(),
    {
        match self {
            DecodeError::Truncated => "the buffer ends inside a field".to_owned(),
            DecodeError::MissingPadding => {
                "the padding behind a text or blob is missing".to_owned()
            },
            DecodeError::LengthOverrun => {
                "a length prefix exceeds the bytes that are left".to_owned()
            },
            DecodeError::InvalidUtf8 => "a text is not UTF-8".to_owned(),
            DecodeError::UnrecognizedMarker => {
                "the packet starts neither with / nor with #bundle".to_owned()
            },
        }
    }
}

} // verus!
