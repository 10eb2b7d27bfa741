//! Encoder and decoder: pure state machines without I/O.
pub mod decoder;
pub mod encoder;
pub mod erasures;
pub mod laws;
pub mod streams;

pub use decoder::{Decoder, DecoderEvent, DefaultDecoder};
pub use encoder::{DefaultEncoder, Encoder, EncoderOutput};
