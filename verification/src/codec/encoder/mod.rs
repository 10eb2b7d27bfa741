//! The encoder state machine.
use vstd::prelude::*;

use bytes::Bytes;

use crate::buffers;
use crate::buffers::{bytes_as_slice, bytes_clone, CoefList, IdList};
use crate::config::{
    BackpressureMode, EncoderConfig, EncoderParams, Field, MatrixStrategy,
};
use crate::error::{DelpError, Result};
use crate::gf::algebra;
use crate::gf::kernel::mul_acc;
use crate::loss::LossRate;
use crate::policy::acks;
use crate::policy::defaults::{AnyAckPolicy, ConstantFecRate, NoCongestionControl};
use crate::policy::{
    CongestionControl, EncoderState, FecRateController, ReceiverAckState, ReceiverId,
    SourceSymbolId, WindowPolicy,
};
use crate::wire::coded::{window_lag, CodedPacket};
use crate::wire::ev::coef_gen;
use crate::wire::ev::coef_gen::{cauchy_batch_gf2_4, cauchy_batch_gf2_8, vandermonde_batch};
use crate::wire::ev::id_storage;
use crate::wire::ev::EncodingVector;

use crate::wire::feedback::{FeedbackModel, FeedbackPacket};
use crate::wire::source;
use crate::wire::source::SourcePacket;

pub mod laws;
pub mod model;
pub mod window;

use model::{EncoderModel, OutputModel};
use window::{EncodingWindow, SymbolModel};

verus! {

/// A packet, ready to be sent.
#[derive(Debug)]
pub enum EncoderOutput {
    /// A source packet.
    Source(Vec<u8>),
    /// A coded packet.
    Coded(Vec<u8>),
}

impl View for EncoderOutput {
    type V = OutputModel;

    open spec fn view(&self) -> OutputModel {
        match self {
            EncoderOutput::Source(b) => OutputModel::Source(b@),
            EncoderOutput::Coded(b) => OutputModel::Coded(b@),
        }
    }
}

impl Clone for EncoderOutput {
    fn clone(&self) -> (r: Self)
        ensures
            r@ == self@,
    {
        match self {
            EncoderOutput::Source(b) => EncoderOutput::Source(
                vstd::slice::slice_to_vec(b.as_slice()),
            ),
            EncoderOutput::Coded(b) => EncoderOutput::Coded(
                vstd::slice::slice_to_vec(b.as_slice()),
            ),
        }
    }
}

/// What a list of packets holds.
pub open spec fn outputs(v: Seq<EncoderOutput>) -> Seq<OutputModel> {
    v.map_values(|o: EncoderOutput| o@)
}

/// The encoder: a pure state machine over three strategies.
///
/// - `W` decides which symbols leave the window after acknowledgements,
/// - `C` provides CCI bytes and is told of every packet,
/// - `F` decides how many coded packets follow a source symbol.
pub struct Encoder<W, C, F> where W: WindowPolicy, C: CongestionControl, F: FecRateController {
    config: EncoderConfig,
    window: EncodingWindow,
    next_coded_id: u32,
    coded_ids_used: u64,
    generation: u8,
    ack_state: ReceiverAckState,
    loss: LossRate,
    window_policy: W,
    cc: C,
    fec: F,
}

/// The combination of the symbols of `cover` with the coefficients `coefs`.
fn combine(
    window: &EncodingWindow,
    field: Field,
    size: usize,
    cover: &[u32],
    coefs: &[u8],
    Ghost(next_id): Ghost<u32>,
    Ghost(p): Ghost<EncoderParams>,
) -> (r: Vec<u8>)
    requires
        window.wf(),
        model::window_ok(window@, next_id, p),
        p.symbol_size == size,
        cover@.len() == coefs@.len(),
        forall|i: int| 0 <= i < cover@.len() ==> window::ids_of(window@).contains(
            #[trigger] cover@[i],
        ),
        forall|i: int| 0 <= i < coefs@.len() ==> algebra::in_field(field, #[trigger] coefs@[i]),
    ensures
        r@ == model::mixture(field, window@, cover@, coefs@, size as nat),
{
    let mut payload: Vec<u8> = vec![0u8; size];
    let mut i: usize = 0;
    while i < cover.len()
        invariant
            i <= cover@.len(),
            window.wf(),
            model::window_ok(window@, next_id, p),
            p.symbol_size == size,
            cover@.len() == coefs@.len(),
            forall|i: int| 0 <= i < cover@.len() ==> window::ids_of(window@).contains(
                #[trigger] cover@[i],
            ),
            forall|i: int| 0 <= i < coefs@.len() ==> algebra::in_field(field, #[trigger] coefs@[i]),
            payload@.len() == size,
            forall|k: int|
                0 <= k < size ==> #[trigger] payload@[k] == model::mixed(
                    field,
                    window@,
                    cover@,
                    coefs@,
                    k,
                    i as nat,
                ),
        decreases cover@.len() - i,
    {
        let id: u32 = cover[i];
        let c: u8 = coefs[i];
        let ghost before = payload@;
        assert(window::ids_of(window@).contains(cover@[i as int]));
        assert(algebra::in_field(field, coefs@[i as int]));
        if let Some(data) = window.get(id) {
            proof {
                let j = choose|j: int| #[trigger]
                    window::first_at(window@, id, j) && buffers::bytes_view(*data) == window@[j].1;
                model::lemma_symbol_of(window@, id, j);
            }
            mul_acc(field, payload.as_mut_slice(), bytes_as_slice(data), c);
        }
        i += 1;
        assert forall|k: int| 0 <= k < size implies #[trigger] payload@[k] == model::mixed(
            field,
            window@,
            cover@,
            coefs@,
            k,
            i as nat,
        ) by {
            assert(before[k] == model::mixed(field, window@, cover@, coefs@, k, (i - 1) as nat));
        }
    }
    assert(payload@ =~= model::mixture(field, window@, cover@, coefs@, size as nat));
    payload
}

impl<W, C, F> Encoder<W, C, F> where W: WindowPolicy, C: CongestionControl, F: FecRateController {
    /// What the encoder holds.
    pub closed spec fn view(&self) -> EncoderModel {
        EncoderModel {
            params: self.config@,
            window: self.window@,
            next_id: self.window.upcoming(),
            next_coded_id: self.next_coded_id,
            used: self.coded_ids_used,
            generation: self.generation,
            acks: self.ack_state@,
            loss: self.loss,
        }
    }

    /// The window policy.
    pub closed spec fn policy(&self) -> W {
        self.window_policy
    }

    /// The congestion control.
    pub closed spec fn control(&self) -> C {
        self.cc
    }

    /// The FEC rate controller.
    pub closed spec fn rate(&self) -> F {
        self.fec
    }

    /// The invariant of the encoder.
    pub closed spec fn wf(&self) -> bool {
        &&& self@.wf()
        &&& self.window.wf()
        &&& self.window.limit() == self.config@.window_capacity
    }

    /// What a well-formed encoder guarantees.
    pub proof fn lemma_wf(&self)
        requires
            self.wf(),
        ensures
            self@.wf(),
    {
    }

    /// A new encoder.
    pub fn new(config: EncoderConfig, window_policy: W, cc: C, fec: F) -> (r: Self)
        ensures
            r.wf(),
            r@ == EncoderModel::initial(config@),
            r.policy() == window_policy,
            r.control() == cc,
            r.rate() == fec,
    {
        let capacity: usize = config.window_capacity();
        let first_id: u32 = match config.matrix_strategy() {
            MatrixStrategy::Cauchy => 0,
            MatrixStrategy::Vandermonde => 1,
        };
        let r = Self {
            config,
            window: EncodingWindow::new(capacity),
            next_coded_id: first_id,
            coded_ids_used: 0,
            generation: 0,
            ack_state: ReceiverAckState::default(),
            loss: LossRate::zero(),
            window_policy,
            cc,
            fec,
        };
        assert(r@ =~= EncoderModel::initial(config@));
        r
    }

    /// `r` and `post` are what the symbol `data` leads to.
    pub open spec fn submitted(
        pre: Self,
        data: Seq<u8>,
        r: Result<Vec<EncoderOutput>>,
        post: Self,
    ) -> bool {
        &&& post.policy() == pre.policy()
        &&& match r {
            Ok(out) => {
                let m = pre@.after_push(data);
                &&& pre@.refusal(data) is None
                &&& out@.len() >= 1
                &&& pre.rate().may_request(m.snapshot(), (out@.len() - 1) as nat, post.rate())
                &&& post@ == m.after_coded_n((out@.len() - 1) as nat)
                &&& exists|ccs: Seq<C>| #[trigger]
                    model::submit_output(m, outputs(out@), ccs) && ccs[0] == pre.control()
                        && ccs.last() == post.control()
            },
            Err(e) => {
                &&& pre@.refusal(data) == Some(e)
                &&& post@ == pre@
                &&& post.control() == pre.control()
                &&& post.rate() == pre.rate()
            },
        }
    }

    /// Submits one source symbol.
    ///
    /// Returns the source packet, followed by as many coded packets over the whole
    /// window as the FEC rate controller asks for.
    pub fn submit_source(&mut self, data: Bytes) -> (r: Result<Vec<EncoderOutput>>)
        requires
            old(self).wf(),
        ensures
            final(self).wf(),
            Self::submitted(*old(self), buffers::bytes_view(data), r, *final(self)),
    {
        let ghost bytes = buffers::bytes_view(data);
        let ghost m0 = self@;
        let size: usize = self.config.symbol_size();
        let payload: &[u8] = bytes_as_slice(&data);
        if payload.len() != size {
            return Err(
                DelpError::SymbolSizeMismatch { expected: size, actual: payload.len() },
            );
        }
        if self.window.next_id() == u32::MAX {
            return Err(DelpError::SourceIdExhausted);
        }
        if self.window.is_full() {
            match self.config.backpressure() {
                BackpressureMode::Reject => {
                    return Err(
                        DelpError::WindowFull { capacity: self.config.window_capacity() },
                    );
                },
                BackpressureMode::EvictOldest => {
                    self.window.evict_oldest();
                },
            }
        }
        let source_id: u32 = self.window.push(bytes_clone(&data));
        let ghost m = m0.after_push(bytes);
        proof {
            id_storage::lemma_next_id(source_id);
            assert(self@ =~= m);
            model::lemma_after_push_wf(m0, bytes);
        }
        let ghost cc0 = self.cc;
        let (src_pkt, Ghost(cci)) = {
            let cci = self.cc.generate_cci();
            (SourcePacket::serialise(source_id, payload, cci, None), Ghost(cci@))
        };
        self.cc.on_send(src_pkt.len());

        let window_ids = self.window.id_slice();
        let state = EncoderState {
            window_size: self.window.len(),
            window_capacity: self.config.window_capacity(),
            next_source_id: self.window.next_id(),
            next_coded_id: self.next_coded_id,
            loss_rate: self.loss,
            window_ids: window_ids.as_slice(),
        };
        assert(state@ =~= m.snapshot());
        let n_coded: usize = self.fec.coded_packets_to_generate(state);
        let ghost rate1 = self.fec;

        let mut out: Vec<EncoderOutput> = Vec::new();
        out.push(EncoderOutput::Source(src_pkt));
        let ghost mut ccs: Seq<C> = seq![cc0, self.cc];
        proof {
            assert(outputs(out@)[0] == OutputModel::Source(src_pkt@));
            assert(src_pkt@ == m.source_packet(cci));
            assert(model::sends(cc0, cci, m.source_packet(cci), self.cc));
            assert(self@ =~= m);
        }
        let mut k: usize = 0;
        while k < n_coded
            invariant
                k <= n_coded,
                self.wf(),
                self.policy() == old(self).policy(),
                self.fec == rate1,
                m.window.len() > 0,
                self@ == m.after_coded_n(k as nat),
                self@.window == m.window,
                out@.len() == k + 1,
                ccs.len() == k + 2,
                ccs[0] == cc0,
                ccs.last() == self.cc,
                model::submit_output(m, outputs(out@), ccs),
            decreases n_coded - k,
        {
            let ghost prev = out@;
            let cover = self.cover_all();
            let coded = self.generate_coded_inner(cover);
            out.push(coded);
            proof {
                let nccs = ccs.push(self.cc);
                let nout = outputs(out@);
                assert(nout =~= outputs(prev).push(coded@));
                assert forall|i: int| 1 <= i < nout.len() implies model::coded_output(
                    m.after_coded_n((i - 1) as nat),
                    m.ids(),
                    nccs[i],
                    #[trigger] nout[i],
                    nccs[i + 1],
                ) by {
                    if i < nout.len() - 1 {
                        assert(outputs(prev)[i] == nout[i]);
                    }
                }
                assert(nout[0] == outputs(prev)[0]);
                ccs = nccs;
                assert(model::submit_output(m, nout, ccs));
            }
            k += 1;
        }
        Ok(out)
    }

    /// The number of coded ids in one cycle.
    ///
    /// | Strategy    | Field   | Cycle |
    /// |-------------|---------|-------|
    /// | Vandermonde | GF(2^8) |  254  |
    /// | Vandermonde | GF(2^4) |   14  |
    /// | Cauchy      | GF(2^8) |  128  |
    /// | Cauchy      | GF(2^4) |    7  |
    pub fn coded_id_cycle(&self) -> (r: u32)
        ensures
            r == model::cycle_of(self@.params),
    {
        match self.config.matrix_strategy() {
            MatrixStrategy::Cauchy => match self.config.field() {
                Field::Gf2_8 => 128,
                Field::Gf2_4 => 7,
            },
            MatrixStrategy::Vandermonde => match self.config.field() {
                Field::Gf2_8 => 254,
                Field::Gf2_4 => 14,
            },
        }
    }

    /// Another name of [`coded_id_cycle`](Self::coded_id_cycle).
    pub fn coded_id_limit(&self) -> (r: u32)
        ensures
            r == model::cycle_of(self@.params),
    {
        self.coded_id_cycle()
    }

    /// The number of coded packets so far.
    pub fn coded_ids_used(&self) -> (r: u64)
        ensures
            r == self@.used,
    {
        self.coded_ids_used
    }

    /// The generation of the next coded packet.
    pub fn generation(&self) -> (r: u8)
        ensures
            r == self@.generation,
    {
        self.generation
    }

    /// Coded ids never run out: they start anew with every cycle.
    pub fn coded_id_exhausted(&self) -> (r: bool)
        ensures
            !r,
    {
        false
    }

    /// All ids in the window.
    fn cover_all(&self) -> (r: IdList)
        ensures
            r@ == self@.ids(),
    {
        IdList::from_slice(self.window.id_slice().as_slice())
    }

    /// Generates one coded packet over the whole window, or none if it is empty.
    ///
    /// The wire format counts the ids in one byte: a packet over more than 255 of
    /// them is not read back as it was made.
    pub fn generate_coded(&mut self) -> (r: Result<Option<EncoderOutput>>)
        requires
            old(self).wf(),
        ensures
            final(self).wf(),
            Self::generated(*old(self), old(self)@.ids(), r, *final(self)),
    {
        let cover = self.cover_all();
        self.generate_over(cover)
    }

    /// Generates one coded packet over the given symbols.
    ///
    /// Ids that are not in the window are left out, and the order in which the ids
    /// are given does not matter.  Where none remains, there is nothing to generate.
    ///
    /// The wire format counts the ids in one byte: a packet over more than 255 of
    /// them is not read back as it was made.
    pub fn generate_coded_targeted(&mut self, cover_ids: &[SourceSymbolId]) -> (r: Result<
        Option<EncoderOutput>,
    >)
        requires
            old(self).wf(),
        ensures
            final(self).wf(),
            Self::generated(*old(self), old(self)@.present(cover_ids@), r, *final(self)),
    {
        let ids = self.window.id_slice();
        let wanted = window::to_set(cover_ids);
        let ghost keep = |id: u32| cover_ids@.contains(id);
        let mut cover = IdList::new();
        let mut i: usize = 0;
        broadcast use vstd::std_specs::hash::group_hash_axioms;

        assert(ids@.take(0).filter(keep) =~= Seq::<u32>::empty()) by {
            reveal(Seq::filter);
        }
        while i < ids.len()
            invariant
                i <= ids@.len(),
                ids@ == self@.ids(),
                keep == (|id: u32| cover_ids@.contains(id)),
                forall|id: u32| #[trigger] wanted@.contains(id) <==> cover_ids@.contains(id),
                cover@ == ids@.take(i as int).filter(keep),
            decreases ids@.len() - i,
        {
            let id: u32 = ids[i];
            proof {
                lemma_filter_ids_step(ids@, i as int, keep);
            }
            if wanted.contains(&id) {
                cover.push(id);
            }
            i += 1;
        }
        assert(ids@.take(ids@.len() as int) =~= ids@);
        proof {
            let listed = cover_ids@;
            assert(keep =~= (|id: u32| listed.contains(id)));
            lemma_filter_ids_members(ids@, keep);
        }
        self.generate_over(cover)
    }

    /// Generates one coded packet over the `n` newest symbols.
    ///
    /// The wire format counts the ids in one byte: a packet over more than 255 of
    /// them is not read back as it was made.
    pub fn generate_coded_recent(&mut self, n: usize) -> (r: Result<Option<EncoderOutput>>)
        requires
            old(self).wf(),
        ensures
            final(self).wf(),
            Self::generated(*old(self), old(self)@.recent(n as nat), r, *final(self)),
    {
        let ids = self.window.id_slice();
        let take: usize = if n < ids.len() {
            n
        } else {
            ids.len()
        };
        let start: usize = ids.len() - take;
        let cover = IdList::from_slice(
            vstd::slice::slice_subrange(ids.as_slice(), start, ids.len()),
        );
        proof {
            assert(cover@ =~= self@.recent(n as nat));
            assert forall|i: int| 0 <= i < cover@.len() implies self@.ids().contains(
                #[trigger] cover@[i],
            ) by {
                assert(self@.ids()[start + i] == cover@[i]);
            }
        }
        self.generate_over(cover)
    }

    /// Generates one coded packet over the symbols that the receiver has not
    /// acknowledged; over the whole window for a receiver that has sent nothing.
    ///
    /// The wire format counts the ids in one byte: a packet over more than 255 of
    /// them is not read back as it was made.
    pub fn generate_coded_for_receiver(&mut self, receiver_id: ReceiverId) -> (r: Result<
        Option<EncoderOutput>,
    >)
        requires
            old(self).wf(),
        ensures
            final(self).wf(),
            Self::generated(*old(self), old(self)@.unacked(receiver_id), r, *final(self)),
    {
        let ids = self.window.id_slice();
        let ghost keep = |id: u32| !acks::acked_by(self@.acks, receiver_id, id);
        let mut cover = IdList::new();
        let mut i: usize = 0;
        assert(ids@.take(0).filter(keep) =~= Seq::<u32>::empty()) by {
            reveal(Seq::filter);
        }
        while i < ids.len()
            invariant
                i <= ids@.len(),
                ids@ == self@.ids(),
                keep == (|id: u32| !acks::acked_by(self@.acks, receiver_id, id)),
                cover@ == ids@.take(i as int).filter(keep),
            decreases ids@.len() - i,
        {
            let id: u32 = ids[i];
            proof {
                lemma_filter_ids_step(ids@, i as int, keep);
            }
            if !self.ack_state.is_acked(receiver_id, id) {
                cover.push(id);
            }
            i += 1;
        }
        assert(ids@.take(ids@.len() as int) =~= ids@);
        proof {
            let acks = self@.acks;
            assert(keep =~= (|id: u32| !acks::acked_by(acks, receiver_id, id)));
            lemma_filter_ids_members(ids@, keep);
        }
        self.generate_over(cover)
    }

    /// `r` is the next coded packet over `cover`, or nothing where there is nothing
    /// to cover, and `post` is the encoder after it.
    pub open spec fn generated(
        pre: Self,
        cover: Seq<u32>,
        r: Result<Option<EncoderOutput>>,
        post: Self,
    ) -> bool {
        &&& post.policy() == pre.policy()
        &&& post.rate() == pre.rate()
        &&& match r {
            Ok(Some(out)) => {
                &&& cover.len() > 0
                &&& model::coded_output(pre@, cover, pre.control(), out@, post.control())
                &&& post@ == pre@.after_coded()
            },
            Ok(None) => cover.len() == 0 && post@ == pre@ && post.control() == pre.control(),
            Err(_) => false,
        }
    }

    fn generate_over(&mut self, cover: IdList) -> (r: Result<Option<EncoderOutput>>)
        requires
            old(self).wf(),
            forall|i: int| 0 <= i < cover@.len() ==> old(self)@.ids().contains(
                #[trigger] cover@[i],
            ),
        ensures
            final(self).wf(),
            Self::generated(*old(self), cover@, r, *final(self)),
    {
        if cover.is_empty() {
            return Ok(None);
        }
        Ok(Some(self.generate_coded_inner(cover)))
    }

    /// Generates one coded packet over `cover`, which is not empty and part of the
    /// window.
    fn generate_coded_inner(&mut self, cover: IdList) -> (out: EncoderOutput)
        requires
            old(self).wf(),
            cover@.len() > 0,
            forall|i: int| 0 <= i < cover@.len() ==> old(self)@.ids().contains(
                #[trigger] cover@[i],
            ),
        ensures
            final(self).wf(),
            final(self).policy() == old(self).policy(),
            final(self).rate() == old(self).rate(),
            final(self)@ == old(self)@.after_coded(),
            model::coded_output(
                old(self)@,
                cover@,
                old(self).control(),
                out@,
                final(self).control(),
            ),
    {
        let ghost m = self@;
        let ghost ids = cover@;
        let coded_id: u32 = self.next_coded_id;
        let generation: u8 = self.generation;
        let field = self.config.field();
        let strategy = self.config.matrix_strategy();
        let size: usize = self.config.symbol_size();
        assert(m.ids().contains(ids[0]));
        let start: u32 = match self.window.first_id() {
            Some(id) => id,
            None => 0,
        };
        let lag: u8 = window_lag(cover.as_slice()[0], start);
        assert(lag == m.lag(ids));
        self.advance_coded_id();

        let coefs: CoefList = match strategy {
            MatrixStrategy::Vandermonde => vandermonde_batch(field, cover.as_slice(), coded_id),
            MatrixStrategy::Cauchy => match field {
                Field::Gf2_8 => cauchy_batch_gf2_8(cover.as_slice(), coded_id, generation),
                Field::Gf2_4 => cauchy_batch_gf2_4(cover.as_slice(), coded_id, generation),
            },
        };
        proof {
            assert(coefs@ =~= m.coefs(ids));
            assert forall|i: int| 0 <= i < coefs@.len() implies algebra::in_field(
                field,
                #[trigger] coefs@[i],
            ) by {
                match strategy {
                    MatrixStrategy::Vandermonde => {
                        algebra::lemma_alpha_pow_range(field, ids[i] as nat * coded_id as nat);
                    },
                    MatrixStrategy::Cauchy => {
                        coef_gen::lemma_cauchy_coef(field, ids[i], coded_id, generation);
                    },
                }
            }
        }
        let payload = combine(
            &self.window,
            field,
            size,
            cover.as_slice(),
            coefs.as_slice(),
            Ghost(m.next_id),
            Ghost(m.params),
        );
        let ev = match strategy {
            MatrixStrategy::Vandermonde => EncodingVector::vandermonde(field, coded_id, cover),
            MatrixStrategy::Cauchy => EncodingVector::explicit(
                field,
                coded_id,
                cover,
                coefs,
            ).with_generation(generation),
        };
        assert(ev@ =~= m.vector(ids));
        let ghost cc0 = self.cc;
        let (pkt, Ghost(cci)) = {
            let cci = self.cc.generate_cci();
            (
                CodedPacket::serialise_behind(
                    coded_id,
                    &ev,
                    payload.as_slice(),
                    cci,
                    None,
                    lag,
                ),
                Ghost(cci@),
            )
        };
        self.cc.on_send(pkt.len());
        proof {
            assert(pkt@ == m.coded_packet(ids, cci));
            assert(model::sends(cc0, cci, m.coded_packet(ids, cci), self.cc));
            assert(self@ =~= m.after_coded());
        }
        EncoderOutput::Coded(pkt)
    }

    /// Moves on to the next coded id, and at the end of a Cauchy cycle to the next
    /// generation.
    fn advance_coded_id(&mut self)
        requires
            old(self).wf(),
        ensures
            final(self).wf(),
            final(self)@ == old(self)@.after_coded(),
            final(self).window == old(self).window,
            final(self).config == old(self).config,
            final(self).policy() == old(self).policy(),
            final(self).rate() == old(self).rate(),
            final(self).cc == old(self).cc,
    {
        let cycle: u32 = self.coded_id_cycle();
        let strategy = self.config.matrix_strategy();
        let first: u32 = match strategy {
            MatrixStrategy::Cauchy => 0,
            MatrixStrategy::Vandermonde => 1,
        };
        self.next_coded_id = self.next_coded_id + 1;
        self.coded_ids_used = self.coded_ids_used.wrapping_add(1);
        if self.next_coded_id >= first + cycle {
            self.next_coded_id = first;
            if strategy == MatrixStrategy::Cauchy {
                self.generation = self.generation.wrapping_add(1);
            }
        }
        assert(self@ =~= old(self)@.after_coded());
    }

    /// `post` is the encoder after the feedback `pkt` of a receiver, upon which the
    /// window policy removed `removed`.
    pub open spec fn adapted(
        pre: Self,
        receiver_id: ReceiverId,
        pkt: FeedbackModel,
        removed: Seq<u32>,
        post: Self,
    ) -> bool {
        let acks = acks::acks_updated(pre@.acks, receiver_id, pkt);
        let loss = LossRate { lost: pkt.plr_raw as u64, expected: 256 };
        &&& pre.policy().may_remove(acks, pre@.ids(), removed, post.policy())
        &&& post@ == (EncoderModel { acks, loss, ..pre@ }).without(removed)
        &&& pre.rate().may_adapt(
            post@.snapshot(),
            loss,
            pkt.nb_missing_src,
            pkt.nb_not_used_coded,
            post.rate(),
        )
        &&& pre.control().may_adapt(
            post@.snapshot(),
            loss,
            pkt.nb_missing_src,
            pkt.nb_not_used_coded,
            post.control(),
        )
    }

    /// Takes in a feedback packet from a receiver.
    ///
    /// The acknowledgements are noted, the window policy decides which symbols
    /// leave the window, and then both controllers learn of the statistics.
    pub fn handle_feedback(&mut self, receiver_id: ReceiverId, pkt: &FeedbackPacket)
        requires
            old(self).wf(),
        ensures
            final(self).wf(),
            exists|removed: Seq<u32>|
                #[trigger] Self::adapted(*old(self), receiver_id, pkt@, removed, *final(self)),
    {
        let ghost m = self@;
        self.ack_state.update(receiver_id, pkt);
        let ids = self.window.id_slice();
        let to_remove = self.window_policy.symbols_to_remove(&self.ack_state, ids.as_slice());
        self.window.remove_ids(to_remove.as_slice());
        let loss = FeedbackPacket::decode_plr(pkt.plr_raw);
        self.loss = loss;
        proof {
            model::lemma_filter_window_ok(
                m.window,
                m.next_id,
                m.params,
                |p: SymbolModel| !to_remove@.contains(p.0),
            );
            assert(self@ =~= (EncoderModel {
                acks: acks::acks_updated(m.acks, receiver_id, pkt@),
                loss,
                ..m
            }).without(to_remove@));
        }
        let ghost m1 = self@;
        let left = self.window.id_slice();
        let state = EncoderState {
            window_size: self.window.len(),
            window_capacity: self.config.window_capacity(),
            next_source_id: self.window.next_id(),
            next_coded_id: self.next_coded_id,
            loss_rate: loss,
            window_ids: left.as_slice(),
        };
        assert(state@ =~= m1.snapshot());
        self.fec.on_feedback(state, loss, pkt.nb_missing_src, pkt.nb_not_used_coded);
        self.cc.on_feedback(state, loss, pkt.nb_missing_src, pkt.nb_not_used_coded);
        proof {
            assert(self@ =~= m1);
            assert(Self::adapted(*old(self), receiver_id, pkt@, to_remove@, *self));
        }
    }

    /// The number of symbols in the window.
    pub fn window_size(&self) -> (r: usize)
        ensures
            r == self@.window.len(),
    {
        self.window.len()
    }

    /// The largest number of symbols in the window.
    pub fn window_capacity(&self) -> (r: usize)
        ensures
            r == self@.params.window_capacity,
    {
        self.config.window_capacity()
    }

    /// The id of the next source symbol.
    pub fn next_source_id(&self) -> (r: u32)
        ensures
            r == self@.next_id,
    {
        self.window.next_id()
    }

    /// The configuration.
    pub fn config(&self) -> (r: &EncoderConfig)
        ensures
            r@ == self@.params,
    {
        &self.config
    }
}

proof fn lemma_filter_ids_step(s: Seq<u32>, i: int, keep: spec_fn(u32) -> bool)
    requires
        0 <= i < s.len(),
    ensures
        s.take(i + 1).filter(keep) == (if keep(s[i]) {
            s.take(i).filter(keep).push(s[i])
        } else {
            s.take(i).filter(keep)
        }),
{
    reveal(Seq::filter);
    assert(s.take(i + 1).drop_last() =~= s.take(i));
    assert(s.take(i + 1).last() == s[i]);
}

/// What a filter lets through is in the list and meets the condition.
proof fn lemma_filter_ids_members(s: Seq<u32>, keep: spec_fn(u32) -> bool)
    ensures
        forall|i: int|
            0 <= i < s.filter(keep).len() ==> keep(#[trigger] s.filter(keep)[i]) && s.contains(
                s.filter(keep)[i],
            ),
    decreases s.len(),
{
    reveal(Seq::filter);
    if s.len() > 0 {
        let v = s.drop_last();
        lemma_filter_ids_members(v, keep);
        assert forall|i: int| 0 <= i < s.filter(keep).len() implies keep(
            #[trigger] s.filter(keep)[i],
        ) && s.contains(s.filter(keep)[i]) by {
            if i < v.filter(keep).len() {
                let x = v.filter(keep)[i];
                assert(v.contains(x));
                let j = v.index_of(x);
                assert(s[j] == x);
            } else {
                assert(s[s.len() - 1] == s.last());
            }
        }
    }
}

/// An encoder with the default strategies: symbols leave the window on the first
/// acknowledgement, there is no congestion control, and the FEC rate is the
/// constant one of the configuration.
pub type DefaultEncoder = Encoder<AnyAckPolicy, NoCongestionControl, ConstantFecRate>;

impl DefaultEncoder {
    /// An encoder with the default strategies.
    pub fn with_defaults(config: EncoderConfig) -> (r: Self)
        ensures
            r.wf(),
            r@ == EncoderModel::initial(config@),
            r.rate().rate_numer() == config@.fec_numer,
            r.rate().rate_denom() == config@.fec_denom,
            r.rate().accumulated() == 0,
    {
        let fec = ConstantFecRate::new(config.fec_numer(), config.fec_denom());
        Encoder::new(config, AnyAckPolicy, NoCongestionControl, fec)
    }
}

} // verus!
