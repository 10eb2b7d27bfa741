//! Forward error correction for lossy networks.
//!
//! A sender combines source packets into coded packets over a sliding window, with
//! arithmetic in GF(2^4) or GF(2^8).  A receiver reconstructs lost packets by solving
//! a linear system over the same field.  The window adapts to the receiver's feedback.
//!
//! | Module      | Contents                                                   |
//! |-------------|------------------------------------------------------------|
//! | `config`    | configurations of encoder and decoder                      |
//! | `error`     | every failure                                              |
//! | `gf`        | the fields, their tables, and bulk arithmetic              |
//! | `wire`      | the packets: source, coded, feedback, encoding vectors     |
//! | `policy`    | pluggable strategies, with defaults                        |
//! | `codec`     | encoder and decoder as pure state machines, and their laws |
//! | `transport` | datagrams in and out, without the socket                   |
//! | `cli`       | the logic of the command-line tool                         |
pub mod buffers;
pub mod cli;
pub mod codec;
pub mod config;
pub mod error;
pub mod gf;
pub mod loss;
pub mod ordered;
pub mod policy;
pub mod transport;
pub mod wire;

pub use codec::{Decoder, DecoderEvent, DefaultDecoder, DefaultEncoder, Encoder, EncoderOutput};
pub use config::{BackpressureMode, DecoderConfig, EncoderConfig, Field, MatrixStrategy};
pub use error::{DelpError, Result};
pub use loss::LossRate;
pub use policy::defaults::{
    AllAckPolicy, AnyAckPolicy, ConstantFecRate, ConstantFeedbackPolicy, ImmediateFeedbackPolicy,
    NoCongestionControl, QuorumAckPolicy,
};
pub use policy::{
    CodedSymbolId, CongestionControl, FecRateController, FeedbackPolicy, ReceiverAckState,
    ReceiverId, SourceSymbolId, WindowPolicy,
};
