//! Pluggable strategies of encoder and decoder.
//!
//! Every strategy trait has spec functions beside its methods.  They relate the
//! state before a call, its arguments, its result and the state after it, so that
//! encoder and decoder can say what they hand to a strategy and what they do with
//! the answer.  An implementation defines them for its own behaviour; those that it
//! does not define allow everything.
use vstd::prelude::*;

use crate::loss::LossRate;
use crate::wire::source;

pub mod acks;
pub mod defaults;
pub mod laws;

pub use acks::ReceiverAckState;
pub use defaults::{
    AllAckPolicy, AnyAckPolicy, ConstantFecRate, ConstantFeedbackPolicy, NoCongestionControl,
};

use acks::Acks;

verus! {

/// The id of a source symbol.
pub type SourceSymbolId = u32;

/// The id of a coded packet.
pub type CodedSymbolId = u32;

/// The id of a receiver.
pub type ReceiverId = u64;

/// What a strategy sees of an encoder.
#[derive(Debug, Clone, Copy)]
pub struct EncoderState<'a> {
    pub window_size: usize,
    pub window_capacity: usize,
    pub next_source_id: SourceSymbolId,
    pub next_coded_id: CodedSymbolId,
    /// The last measured loss rate.
    pub loss_rate: LossRate,
    /// Source ids in the encoding window.
    pub window_ids: &'a [SourceSymbolId],
}

/// What an [`EncoderState`] says.
#[verifier::ext_equal]
pub struct EncoderSnapshot {
    pub window_size: nat,
    pub window_capacity: nat,
    pub next_source_id: u32,
    pub next_coded_id: u32,
    pub loss_rate: LossRate,
    pub window_ids: Seq<u32>,
}

impl<'a> View for EncoderState<'a> {
    type V = EncoderSnapshot;

    open spec fn view(&self) -> EncoderSnapshot {
        EncoderSnapshot {
            window_size: self.window_size as nat,
            window_capacity: self.window_capacity as nat,
            next_source_id: self.next_source_id,
            next_coded_id: self.next_coded_id,
            loss_rate: self.loss_rate,
            window_ids: self.window_ids@,
        }
    }
}

/// What a strategy sees of a decoder.
#[derive(Debug, Clone, Copy, PartialEq, Eq, Structural)]
pub struct DecoderState {
    pub next_delivery_id: SourceSymbolId,
    pub packets_received: u64,
    pub loss_rate: LossRate,
    pub nb_missing_src: u32,
    pub nb_not_used_coded: u32,
}

/// Decides which source symbols may leave the encoding window after a receiver
/// has acknowledged some.
pub trait WindowPolicy: Send + 'static + Sized {
    /// Asked about `ids` under the acknowledgements `acks`, the policy may answer
    /// `out` and become `after`.
    open spec fn may_remove(&self, acks: Acks, ids: Seq<u32>, out: Seq<u32>, after: Self) -> bool {
        true
    }

    /// The ids that may leave the window.
    fn symbols_to_remove(
        &mut self,
        ack_state: &ReceiverAckState,
        window_ids: &[SourceSymbolId],
    ) -> (r: Vec<SourceSymbolId>)
        ensures
            old(self).may_remove(ack_state@, window_ids@, r@, *final(self)),
    ;
}

/// Congestion control.
///
/// The encoder calls these methods on every send and feedback event.
pub trait CongestionControl: Send + 'static + Sized {
    /// The next packet may carry the CCI bytes `cci`.
    open spec fn may_emit(&self, cci: Seq<u8>) -> bool {
        true
    }

    /// Given received CCI bytes, the controller may become `after`.
    open spec fn may_process(&self, cci: Seq<u8>, after: Self) -> bool {
        true
    }

    /// Given feedback, the controller may become `after`.
    open spec fn may_adapt(
        &self,
        state: EncoderSnapshot,
        loss_rate: LossRate,
        nb_missing: u32,
        nb_unused_coded: u32,
        after: Self,
    ) -> bool {
        true
    }

    /// Sending may be permitted or not.
    open spec fn may_permit(&self, r: bool) -> bool {
        true
    }

    /// Told of a packet of `size` bytes, the controller may become `after`.
    open spec fn may_note(&self, size: nat, after: Self) -> bool {
        true
    }

    /// The CCI bytes for the next packet: 0, 4, 8 or 12 of them.
    fn generate_cci(&self) -> (r: &[u8])
        ensures
            self.may_emit(r@),
            source::valid_cci(r@),
    ;

    /// Takes in the CCI bytes of a feedback packet.
    fn process_cci(&mut self, cci: &[u8])
        ensures
            old(self).may_process(cci@, *final(self)),
    ;

    /// Takes in the loss statistics of a feedback packet.
    fn on_feedback(
        &mut self,
        state: EncoderState<'_>,
        loss_rate: LossRate,
        nb_missing: u32,
        nb_unused_coded: u32,
    )
        ensures
            old(self).may_adapt(state@, loss_rate, nb_missing, nb_unused_coded, *final(self)),
    ;

    /// Whether a packet may be sent now.
    fn can_send(&self) -> (r: bool)
        ensures
            self.may_permit(r),
    ;

    /// Tells that a packet of `size` bytes has been sent.
    fn on_send(&mut self, size: usize)
        ensures
            old(self).may_note(size as nat, *final(self)),
    ;
}

/// Decides how many coded packets follow each source symbol.
pub trait FecRateController: Send + 'static + Sized {
    /// After a source symbol, the controller may ask for `n` coded packets and
    /// become `after`.
    open spec fn may_request(&self, state: EncoderSnapshot, n: nat, after: Self) -> bool {
        true
    }

    /// Given feedback, the controller may become `after`.
    open spec fn may_adapt(
        &self,
        state: EncoderSnapshot,
        loss_rate: LossRate,
        nb_missing: u32,
        nb_unused: u32,
        after: Self,
    ) -> bool {
        true
    }

    /// The number of coded packets to generate after a source symbol.
    fn coded_packets_to_generate(&mut self, state: EncoderState<'_>) -> (n: usize)
        ensures
            old(self).may_request(state@, n as nat, *final(self)),
    ;

    /// Takes in the statistics of a feedback packet.
    fn on_feedback(
        &mut self,
        state: EncoderState<'_>,
        loss_rate: LossRate,
        nb_missing: u32,
        nb_unused: u32,
    )
        ensures
            old(self).may_adapt(state@, loss_rate, nb_missing, nb_unused, *final(self)),
    ;
}

/// Decides when the decoder sends a feedback packet.
pub trait FeedbackPolicy: Send + 'static + Sized {
    /// After a packet, the policy may answer `r` and become `after`.
    open spec fn may_decide(&self, state: DecoderState, r: bool, after: Self) -> bool {
        true
    }

    /// Whether a feedback packet is due; asked after every received packet.
    fn should_send_feedback(&mut self, state: DecoderState) -> (r: bool)
        ensures
            old(self).may_decide(state, r, *final(self)),
    ;
}

} // verus!
