//! Sessions: a sender and a receiver for the same peer.
use vstd::prelude::*;

use crate::codec::decoder::model::DecoderModel;
use crate::codec::encoder::model::EncoderModel;
use crate::codec::{Decoder, DefaultDecoder, DefaultEncoder, Encoder};
use crate::config::{
    BackpressureMode, DecoderConfig, DecoderParams, EncoderConfig, EncoderParams, Field,
    MatrixStrategy,
};
use crate::error::Result;
use crate::policy::defaults::{
    AnyAckPolicy, ConstantFecRate, ConstantFeedbackPolicy, NoCongestionControl,
};
use crate::policy::{
    CongestionControl, FecRateController, FeedbackPolicy, ReceiverId, WindowPolicy,
};
use crate::transport::receiver::FecReceiver;
use crate::transport::sender::FecSender;

verus! {

/// A sender and a receiver for the same peer.
pub struct DelpSession<W, C, F, P> where
    W: WindowPolicy,
    C: CongestionControl,
    F: FecRateController,
    P: FeedbackPolicy,
 {
    sender: FecSender<W, C, F>,
    receiver: FecReceiver<P>,
}

impl<W, C, F, P> DelpSession<W, C, F, P> where
    W: WindowPolicy,
    C: CongestionControl,
    F: FecRateController,
    P: FeedbackPolicy,
 {
    /// The sending half.
    pub closed spec fn outgoing(&self) -> FecSender<W, C, F> {
        self.sender
    }

    /// The receiving half.
    pub closed spec fn incoming(&self) -> FecReceiver<P> {
        self.receiver
    }

    /// A session from an encoder and a decoder.
    pub fn new(encoder: Encoder<W, C, F>, decoder: Decoder<P>, peer: ReceiverId) -> (r: Self)
        ensures
            r.outgoing().inner() == encoder,
            r.outgoing().peer() == peer,
            r.incoming().inner() == decoder,
            r.incoming().queue() == Seq::<(u32, Seq<u8>)>::empty(),
    {
        Self { sender: FecSender::new(encoder, peer), receiver: FecReceiver::new(decoder) }
    }

    /// Both halves, to be driven independently.
    pub fn split(self) -> (r: (FecSender<W, C, F>, FecReceiver<P>))
        ensures
            r.0 == self.outgoing(),
            r.1 == self.incoming(),
    {
        (self.sender, self.receiver)
    }

    /// The sending half.
    pub fn sender(&self) -> (r: &FecSender<W, C, F>)
        ensures
            *r == self.outgoing(),
    {
        &self.sender
    }

    /// The sending half.
    pub fn sender_mut(&mut self) -> (r: &mut FecSender<W, C, F>)
        ensures
            *r == old(self).outgoing(),
            final(self).outgoing() == *final(r),
            final(self).incoming() == old(self).incoming(),
    {
        &mut self.sender
    }

    /// The receiving half.
    pub fn receiver(&self) -> (r: &FecReceiver<P>)
        ensures
            *r == self.incoming(),
    {
        &self.receiver
    }

    /// The receiving half.
    pub fn receiver_mut(&mut self) -> (r: &mut FecReceiver<P>)
        ensures
            *r == old(self).incoming(),
            final(self).incoming() == *final(r),
            final(self).outgoing() == old(self).outgoing(),
    {
        &mut self.receiver
    }
}

/// What a [`SessionBuilder`] holds.
pub struct SessionParams {
    pub symbol_size: usize,
    pub window_capacity: usize,
    pub fec_numer: usize,
    pub fec_denom: usize,
    pub field: Field,
    pub strategy: MatrixStrategy,
    pub backpressure: BackpressureMode,
    pub feedback_every: u32,
}

impl SessionParams {
    /// What a new builder holds.
    pub open spec fn initial() -> Self {
        SessionParams {
            symbol_size: 1024,
            window_capacity: 32,
            fec_numer: 1,
            fec_denom: 4,
            field: Field::Gf2_8,
            strategy: MatrixStrategy::Vandermonde,
            backpressure: BackpressureMode::Reject,
            feedback_every: 8,
        }
    }

    /// The parameters of the encoder.
    pub open spec fn encoder(self) -> EncoderParams {
        EncoderParams {
            symbol_size: self.symbol_size,
            window_capacity: self.window_capacity,
            field: self.field,
            fec_numer: self.fec_numer,
            fec_denom: self.fec_denom,
            backpressure: self.backpressure,
            matrix_strategy: self.strategy,
        }
    }

    /// The parameters of the decoder.
    pub open spec fn decoder(self) -> DecoderParams {
        DecoderParams {
            symbol_size: self.symbol_size,
            field: self.field,
            max_matrix_rows: 512,
            feedback_every: self.feedback_every,
        }
    }
}

/// Builds sessions with the default strategies.
#[derive(Debug)]
pub struct SessionBuilder {
    symbol_size: usize,
    window_capacity: usize,
    fec_numer: usize,
    fec_denom: usize,
    field: Field,
    strategy: MatrixStrategy,
    backpressure: BackpressureMode,
    feedback_every: u32,
}

impl View for SessionBuilder {
    type V = SessionParams;

    closed spec fn view(&self) -> SessionParams {
        SessionParams {
            symbol_size: self.symbol_size,
            window_capacity: self.window_capacity,
            fec_numer: self.fec_numer,
            fec_denom: self.fec_denom,
            field: self.field,
            strategy: self.strategy,
            backpressure: self.backpressure,
            feedback_every: self.feedback_every,
        }
    }
}

impl Default for SessionBuilder {
    fn default() -> (r: Self)
        ensures
            r@ == SessionParams::initial(),
    {
        Self {
            symbol_size: 1024,
            window_capacity: 32,
            fec_numer: 1,
            fec_denom: 4,
            field: Field::Gf2_8,
            strategy: MatrixStrategy::Vandermonde,
            backpressure: BackpressureMode::Reject,
            feedback_every: 8,
        }
    }
}

impl SessionBuilder {
    /// A builder with the default settings.
    pub fn new() -> (r: Self)
        ensures
            r@ == SessionParams::initial(),
    {
        Self::default()
    }

    /// Sets the length of every symbol in bytes.
    pub fn symbol_size(self, v: usize) -> (r: Self)
        ensures
            r@ == (SessionParams { symbol_size: v, ..self@ }),
    {
        SessionBuilder { symbol_size: v, ..self }
    }

    /// Sets the largest number of symbols in the window.
    pub fn window_capacity(self, v: usize) -> (r: Self)
        ensures
            r@ == (SessionParams { window_capacity: v, ..self@ }),
    {
        SessionBuilder { window_capacity: v, ..self }
    }

    /// Sets the number of coded packets, `numer` per `denom` source packets.
    pub fn fec_rate(self, numer: usize, denom: usize) -> (r: Self)
        ensures
            r@ == (SessionParams { fec_numer: numer, fec_denom: denom, ..self@ }),
    {
        SessionBuilder { fec_numer: numer, fec_denom: denom, ..self }
    }

    /// Sets the field.
    pub fn field(self, f: Field) -> (r: Self)
        ensures
            r@ == (SessionParams { field: f, ..self@ }),
    {
        SessionBuilder { field: f, ..self }
    }

    /// Sets the matrix strategy.
    pub fn strategy(self, s: MatrixStrategy) -> (r: Self)
        ensures
            r@ == (SessionParams { strategy: s, ..self@ }),
    {
        SessionBuilder { strategy: s, ..self }
    }

    /// Sets the number of packets between two feedback packets.
    pub fn feedback_every(self, n: u32) -> (r: Self)
        ensures
            r@ == (SessionParams { feedback_every: n, ..self@ }),
    {
        SessionBuilder { feedback_every: n, ..self }
    }

    /// Builds a session with the peer `peer`.
    pub fn build(self, peer: ReceiverId) -> (r: Result<
        DelpSession<AnyAckPolicy, NoCongestionControl, ConstantFecRate, ConstantFeedbackPolicy>,
    >)
        ensures
            match r {
                Ok(s) => {
                    &&& self@.encoder().rejection() is None
                    &&& s.outgoing().peer() == peer
                    &&& s.outgoing().inner().wf()
                    &&& s.outgoing().inner()@ == EncoderModel::initial(self@.encoder())
                    &&& s.outgoing().inner().rate().rate_numer() == self@.fec_numer
                    &&& s.outgoing().inner().rate().rate_denom() == self@.fec_denom
                    &&& s.outgoing().inner().rate().accumulated() == 0
                    &&& s.incoming().inner().wf()
                    &&& s.incoming().inner()@ == DecoderModel::initial(self@.decoder())
                    &&& s.incoming().inner().policy().every() == (if self@.feedback_every == 0 {
                        16
                    } else {
                        self@.feedback_every as nat
                    })
                    &&& s.incoming().inner().policy().since() == 0
                    &&& s.incoming().queue() == Seq::<(u32, Seq<u8>)>::empty()
                },
                Err(e) => self@.encoder().rejection() == Some(e),
            },
    {
        let enc_cfg = match EncoderConfig::builder(self.symbol_size).window_capacity(
            self.window_capacity,
        ).fec_rate(self.fec_numer, self.fec_denom).field(self.field).matrix_strategy(
            self.strategy,
        ).backpressure(self.backpressure).build() {
            Ok(c) => c,
            Err(e) => return Err(e),
        };
        let dec_cfg = match DecoderConfig::builder(self.symbol_size).field(
            self.field,
        ).feedback_every(self.feedback_every).build() {
            Ok(c) => c,
            Err(e) => return Err(e),
        };
        let encoder = DefaultEncoder::with_defaults(enc_cfg);
        let decoder = DefaultDecoder::with_defaults(dec_cfg);
        Ok(DelpSession::new(encoder, decoder, peer))
    }
}

} // verus!
