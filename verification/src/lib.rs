//! A codec for Open Sound Control packets.
//!
//! Messages and bundles are turned into their padded, big-endian wire form by
//! [`encode`] and read back by [`decode`], either as one datagram or as a
//! stream of length-prefixed packets.  The wire form is defined in
//! [`layout`], the grammar that reads it in [`grammar`], and what holds of
//! the two together is proved in [`laws`].  [`timetag`] turns seconds into
//! time tags and back.

pub mod model;
pub mod layout;
pub mod text;
pub mod timetag;
pub mod grammar;
pub mod encoder;
pub mod decoder;
pub mod laws;

pub use decoder::{decode, decode_bundle, decode_message, decode_packet, decode_stream};
pub use encoder::{encode, encode_bundle, encode_message};
pub use model::{
    DecodeError, EncodeError, WasmEncodeOptions, WasmOscArg, WasmOscBundle, WasmOscMessage,
    WasmOscPacket, WasmOscProtocol, WasmOscValue,
};
pub use timetag::TimeTag;
