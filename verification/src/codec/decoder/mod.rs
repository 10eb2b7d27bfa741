//! The decoder state machine.
use std::collections::BTreeMap;
use vstd::prelude::*;

use bytes::Bytes;

use crate::buffers;
use crate::buffers::{bytes_clone, bytes_copy_from_slice};
use crate::config::DecoderConfig;
use crate::error::{DelpError, Result};
use crate::loss::LossRate;
use crate::policy::defaults::ConstantFeedbackPolicy;
use crate::policy::{DecoderState, FeedbackPolicy, SourceSymbolId};
use crate::wire::coded::{CodedModel, CodedPacket};
use crate::wire::feedback::FeedbackPacket;
use crate::wire::source::{SourceModel, SourcePacket};

pub mod buffer;
pub mod dense;
pub mod elimination;
pub mod laws;
pub mod linear;
pub mod matrix;
pub mod measure;
pub mod model;
pub mod recovery;
pub mod system;

use buffer::SymbolBuffer;
use matrix::DecodingMatrix;
use model::{DecoderModel, EventModel, LossModel};

verus! {

broadcast use {
    vstd::std_specs::btree::group_btree_axioms,
    vstd::laws_cmp::group_laws_cmp,
};

/// What a decoder tells after a packet.
#[derive(Debug)]
pub enum DecoderEvent {
    /// A source symbol is ready.  The ids come in ascending order.
    SourceReady { id: SourceSymbolId, data: Bytes },
    /// A feedback packet should be sent to the encoder.
    SendFeedback(Vec<u8>),
    /// The encoder's window has moved past symbols that are missing: they cannot be
    /// recovered any more.
    UnrecoverableGap { first_missing: SourceSymbolId, count: u32 },
}

impl View for DecoderEvent {
    type V = EventModel;

    open spec fn view(&self) -> EventModel {
        match self {
            DecoderEvent::SourceReady { id, data } => EventModel::SourceReady {
                id: *id,
                data: buffers::bytes_view(*data),
            },
            DecoderEvent::SendFeedback(b) => EventModel::SendFeedback(b@),
            DecoderEvent::UnrecoverableGap { first_missing, count } => {
                EventModel::UnrecoverableGap { first_missing: *first_missing, count: *count }
            },
        }
    }
}

impl Clone for DecoderEvent {
    fn clone(&self) -> (r: Self)
        ensures
            r@ == self@,
    {
        match self {
            DecoderEvent::SourceReady { id, data } => DecoderEvent::SourceReady {
                id: *id,
                data: bytes_clone(data),
            },
            DecoderEvent::SendFeedback(b) => DecoderEvent::SendFeedback(
                vstd::slice::slice_to_vec(b.as_slice()),
            ),
            DecoderEvent::UnrecoverableGap { first_missing, count } => {
                DecoderEvent::UnrecoverableGap { first_missing: *first_missing, count: *count }
            },
        }
    }
}

/// What a list of events says.
pub open spec fn events_of(v: Seq<DecoderEvent>) -> Seq<EventModel> {
    v.map_values(|e: DecoderEvent| e@)
}

/// Counts packets.
#[derive(Debug)]
struct LossTracker {
    received: u64,
    expected: u64,
    last_seen: u32,
}

impl LossTracker {
    spec fn view(&self) -> LossModel {
        LossModel {
            received: self.received,
            expected: self.expected,
            last_seen: self.last_seen,
        }
    }

    fn new() -> (r: Self)
        ensures
            r@ == LossModel::initial(),
    {
        Self { received: 0, expected: 0, last_seen: 0 }
    }

    fn on_source(&mut self, id: u32)
        ensures
            final(self)@ == old(self)@.after_source(id),
    {
        self.received = self.received.wrapping_add(1);
        let distance: u32 = id.wrapping_sub(self.last_seen);
        let gap: u64 = if distance < 1000 {
            distance as u64
        } else {
            1000
        };
        self.expected = self.expected.wrapping_add(gap);
        self.last_seen = id;
    }

    fn on_coded(&mut self)
        ensures
            final(self)@ == old(self)@.after_coded(),
    {
        self.received = self.received.wrapping_add(1);
        self.expected = self.expected.wrapping_add(1);
    }

    fn loss_rate(&self) -> (r: LossRate)
        ensures
            r == self@.rate(),
    {
        LossRate { lost: self.expected.saturating_sub(self.received), expected: self.expected }
    }
}

/// The decoder: a pure state machine over a feedback policy.
///
/// Packets may come out of order and with gaps.  Every one of them yields events.
pub struct Decoder<P: FeedbackPolicy> {
    config: DecoderConfig,
    buffer: SymbolBuffer,
    matrix: DecodingMatrix,
    known: BTreeMap<SourceSymbolId, Bytes>,
    encoder_win_min: SourceSymbolId,
    loss: LossTracker,
    feedback_policy: P,
    packets_received: u64,
}

impl<P: FeedbackPolicy> Decoder<P> {
    /// What the decoder holds.
    pub closed spec fn view(&self) -> DecoderModel {
        DecoderModel {
            params: self.config@,
            buffer: self.buffer@,
            rows: self.matrix.rows(),
            known: matrix::values_of(self.known@),
            win_min: self.encoder_win_min,
            loss: self.loss@,
            packets: self.packets_received,
        }
    }

    /// The feedback policy.
    pub closed spec fn policy(&self) -> P {
        self.feedback_policy
    }

    /// The invariant of the decoder.
    pub closed spec fn wf(&self) -> bool {
        &&& self@.wf()
        &&& self.fits()
    }

    spec fn fits(&self) -> bool {
        &&& self.matrix.wf()
        &&& self.matrix.kind() == self.config@.field
        &&& self.matrix.size() == self.config@.symbol_size
        &&& self.matrix.limit() == self.config@.max_matrix_rows
    }

    /// What a well-formed decoder guarantees.
    pub proof fn lemma_wf(&self)
        requires
            self.wf(),
        ensures
            self@.wf(),
    {
    }

    /// A new decoder.
    pub fn new(config: DecoderConfig, feedback_policy: P) -> (r: Self)
        ensures
            r.wf(),
            r@ == DecoderModel::initial(config@),
            r.policy() == feedback_policy,
    {
        let matrix = DecodingMatrix::new(
            config.field(),
            config.symbol_size(),
            config.max_matrix_rows(),
        );
        proof {
            matrix.lemma_wf();
        }
        let r = Self {
            config,
            buffer: SymbolBuffer::new(0),
            matrix,
            known: BTreeMap::new(),
            encoder_win_min: 0,
            loss: LossTracker::new(),
            feedback_policy,
            packets_received: 0,
        };
        assert(r@ =~= DecoderModel::initial(config@));
        r
    }

    /// `r` and `post` are what the source packet `pkt` leads to: its payload must
    /// have the size of a symbol.
    pub open spec fn source_handled(
        pre: Self,
        pkt: SourceModel,
        r: Result<Vec<DecoderEvent>>,
        post: Self,
    ) -> bool {
        match r {
            Ok(events) => {
                &&& pkt.payload.len() == pre@.params.symbol_size
                &&& model::tells(
                    pre@.source_taken(pkt.id, pkt.payload),
                    pre.policy(),
                    events_of(events@),
                    post@,
                    post.policy(),
                )
            },
            Err(e) => {
                &&& pkt.payload.len() != pre@.params.symbol_size
                &&& e == (DelpError::SymbolSizeMismatch {
                    expected: pre@.params.symbol_size,
                    actual: pkt.payload.len() as usize,
                })
                &&& post@ == pre@
                &&& post.policy() == pre.policy()
            },
        }
    }

    /// `r` and `post` are what the coded packet `pkt` leads to: its payload must
    /// have the size of a symbol.
    pub open spec fn coded_handled(
        pre: Self,
        pkt: CodedModel,
        r: Result<Vec<DecoderEvent>>,
        post: Self,
    ) -> bool {
        match r {
            Ok(events) => {
                &&& pkt.payload.len() == pre@.params.symbol_size
                &&& model::tells(
                    pre@.coded_taken(pkt.ev, pkt.payload, pkt.start()),
                    pre.policy(),
                    events_of(events@),
                    post@,
                    post.policy(),
                )
            },
            Err(e) => {
                &&& pkt.payload.len() != pre@.params.symbol_size
                &&& e == (DelpError::SymbolSizeMismatch {
                    expected: pre@.params.symbol_size,
                    actual: pkt.payload.len() as usize,
                })
                &&& post@ == pre@
                &&& post.policy() == pre.policy()
            },
        }
    }

    /// Takes in a source packet.
    pub fn handle_source(&mut self, pkt: &SourcePacket<'_>) -> (r: Result<Vec<DecoderEvent>>)
        requires
            old(self).wf(),
        ensures
            final(self).wf(),
            Self::source_handled(*old(self), pkt@, r, *final(self)),
    {
        let ghost m = self@;
        let size: usize = self.config.symbol_size();
        if pkt.payload.len() != size {
            return Err(
                DelpError::SymbolSizeMismatch { expected: size, actual: pkt.payload.len() },
            );
        }
        let id: u32 = pkt.source_symbol_id;
        self.loss.on_source(id);
        self.packets_received = self.packets_received.wrapping_add(1);
        let data = bytes_copy_from_slice(pkt.payload);
        let ghost value = buffers::bytes_view(data);
        let ghost m1 = self@;

        self.learn(id, bytes_clone(&data));
        let ghost rows = m.rows_with_source(id, value);
        let recovered = match self.matrix.add_known_source(id, data, &self.known) {
            Ok(v) => v,
            Err(e) => {
                assert(false);
                return Err(e);
            },
        };
        proof {
            self.matrix.lemma_wf();
            system::lemma_after_source_reduced(
                m.params.field,
                m.rows,
                id,
                value,
                m.params.symbol_size as nat,
            );
            laws::lemma_solved_sized(m.params.field, rows, m.params.symbol_size as nat);
        }
        let ghost m3 = self@;
        self.absorb_recovered(recovered, Ghost(system::solved_part(rows)));
        proof {
            lemma_learned_frame(m1, m3, Map::empty().insert(id, value), system::unsolved_part(rows));
            assert(self@ =~= m.source_taken(id, value));
            laws::lemma_source_taken_wf(m, id, value);
        }
        Ok(self.tell())
    }

    /// Takes in a coded packet.
    pub fn handle_coded(&mut self, pkt: &CodedPacket<'_>) -> (r: Result<Vec<DecoderEvent>>)
        requires
            old(self).wf(),
            pkt@.ev.complete(),
        ensures
            final(self).wf(),
            Self::coded_handled(*old(self), pkt@, r, *final(self)),
    {
        let ghost m = self@;
        let size: usize = self.config.symbol_size();
        if pkt.payload.len() != size {
            return Err(
                DelpError::SymbolSizeMismatch { expected: size, actual: pkt.payload.len() },
            );
        }
        self.loss.on_coded();
        self.packets_received = self.packets_received.wrapping_add(1);
        if let Some(start) = pkt.window_start() {
            if start > self.encoder_win_min {
                self.encoder_win_min = start;
            }
        }
        let ghost m1 = self@;
        assert(m1 =~= m.coded_noted(pkt@.start()));
        let ghost rows = m.rows_with_coded(pkt@.ev, pkt@.payload);
        let recovered = match self.matrix.add_coded(&pkt.ev, pkt.payload, &self.known) {
            Ok(v) => v,
            Err(e) => {
                assert(false);
                return Err(e);
            },
        };
        proof {
            self.matrix.lemma_wf();
            matrix::lemma_ev_equation_wf(m.params.field, pkt@.ev, pkt@.payload);
            system::lemma_after_coded_reduced(
                m.params.field,
                m.rows,
                matrix::ev_equation(m.params.field, pkt@.ev, pkt@.payload),
                m.known,
                m.params.max_matrix_rows as nat,
                m.params.symbol_size as nat,
            );
            laws::lemma_solved_sized(m.params.field, rows, m.params.symbol_size as nat);
        }
        self.absorb_recovered(recovered, Ghost(system::solved_part(rows)));
        proof {
            assert(self@ =~= m.coded_taken(pkt@.ev, pkt@.payload, pkt@.start()));
            laws::lemma_coded_taken_wf(m, pkt@.ev, pkt@.payload, pkt@.start());
        }
        Ok(self.tell())
    }

    /// The id that is delivered next.
    pub fn next_delivery_id(&self) -> (r: SourceSymbolId)
        ensures
            r == self@.buffer.next,
    {
        self.buffer.next_delivery_id()
    }

    /// The loss rate so far.
    pub fn loss_rate(&self) -> (r: LossRate)
        ensures
            r == self@.loss.rate(),
    {
        self.loss.loss_rate()
    }

    /// The number of packets so far.
    pub fn packets_received(&self) -> (r: u64)
        ensures
            r == self@.packets,
    {
        self.packets_received
    }

    /// Notes a symbol, unless it is known already, and keeps it for delivery.
    fn learn(&mut self, id: SourceSymbolId, data: Bytes)
        requires
            old(self).fits(),
            old(self)@.symbols_ok(),
            buffers::bytes_view(data).len() == old(self)@.params.symbol_size,
        ensures
            final(self).fits(),
            final(self)@.symbols_ok(),
            final(self).matrix == old(self).matrix,
            final(self).policy() == old(self).policy(),
            final(self)@ == old(self)@.learned(
                Map::empty().insert(id, buffers::bytes_view(data)),
            ),
    {
        let ghost new = Map::empty().insert(id, buffers::bytes_view(data));
        let ghost m = self@;
        if !self.known.contains_key(&id) {
            self.known.insert(id, bytes_clone(&data));
        }
        self.buffer.insert(id, data);
        proof {
            assert(self@.known =~= m.learned(new).known);
            assert(self@.buffer.symbols =~= m.learned(new).buffer.symbols);
            assert(self@ =~= m.learned(new));
        }
    }

    /// Notes the symbols that the matrix has determined.
    fn absorb_recovered(
        &mut self,
        recovered: Vec<(SourceSymbolId, Bytes)>,
        Ghost(new): Ghost<Map<u32, Seq<u8>>>,
    )
        requires
            old(self).fits(),
            old(self)@.symbols_ok(),
            matrix::lists_symbols(recovered@, new),
            system::sized(new, old(self)@.params.symbol_size as nat),
        ensures
            final(self).fits(),
            final(self).policy() == old(self).policy(),
            final(self)@ == old(self)@.learned(new),
    {
        let ghost m = self@;
        let mut i: usize = 0;
        let ghost mut part: Map<u32, Seq<u8>> = Map::empty();
        assert(m.learned(part) =~= m) by {
            assert(m.learned(part).known =~= m.known);
            assert(m.learned(part).buffer.symbols =~= m.buffer.symbols);
        }
        while i < recovered.len()
            invariant
                i <= recovered@.len(),
                self.fits(),
                self@.symbols_ok(),
                self.policy() == old(self).policy(),
                matrix::lists_symbols(recovered@, new),
                system::sized(new, m.params.symbol_size as nat),
                self@ == m.learned(part),
                forall|id: u32| #[trigger]
                    part.contains_key(id) <==> exists|j: int|
                        0 <= j < i && (#[trigger] recovered@[j]).0 == id,
                forall|id: u32| #[trigger] part.contains_key(id) ==> part[id] == new[id],
            decreases recovered@.len() - i,
        {
            let id: u32 = recovered[i].0;
            let data = bytes_clone(&recovered[i].1);
            let ghost before = self@;
            assert(new.contains_key(recovered@[i as int].0));
            self.learn(id, data);
            i += 1;
            proof {
                let old_part = part;
                let one = Map::empty().insert(id, buffers::bytes_view(data));
                part = part.insert(id, buffers::bytes_view(data));
                assert forall|x: u32| #[trigger] part.contains_key(x) <==> exists|j: int|
                    0 <= j < i && (#[trigger] recovered@[j]).0 == x by {
                    if x == id {
                        assert(recovered@[i - 1].0 == x);
                    } else if old_part.contains_key(x) {
                        let j = choose|j: int| 0 <= j < i - 1 && (#[trigger] recovered@[j]).0 == x;
                        assert(recovered@[j].0 == x);
                    }
                }
                assert(before.learned(one).known =~= m.learned(part).known);
                assert(before.learned(one).buffer.symbols =~= m.learned(part).buffer.symbols);
                assert(before.learned(one) =~= m.learned(part));
            }
        }
        proof {
            assert(part =~= new);
        }
    }

    /// Delivers, asks for feedback, and looks for a gap.
    fn tell(&mut self) -> (events: Vec<DecoderEvent>)
        requires
            old(self).wf(),
        ensures
            final(self).wf(),
            model::tells(
                old(self)@,
                old(self).policy(),
                events_of(events@),
                final(self)@,
                final(self).policy(),
            ),
    {
        let ghost m = self@;
        let mut events: Vec<DecoderEvent> = Vec::new();
        self.drain_to_events(&mut events);
        let ghost d = self@;
        let Ghost(due) = self.maybe_send_feedback(&mut events);
        self.check_gap(&mut events);
        proof {
            assert(d == m.drained());
            assert(events_of(events@) =~= m.events(due));
        }
        events
    }

    fn drain_to_events(&mut self, events: &mut Vec<DecoderEvent>)
        requires
            old(self).wf(),
        ensures
            final(self).wf(),
            final(self).policy() == old(self).policy(),
            final(self)@ == old(self)@.drained(),
            events_of(final(events)@) == events_of(old(events)@) + old(self)@.deliveries(),
    {
        let ghost m = self@;
        let out = self.buffer.drain_deliverable();
        let ghost start = events@;
        let ghost list = m.deliveries();
        let mut i: usize = 0;
        proof {
            assert(self@ =~= m.drained());
            assert(list.len() == out@.len());
            assert forall|j: int| 0 <= j < out@.len() implies #[trigger] list[j]
                == (EventModel::SourceReady {
                id: out@[j].0,
                data: buffers::bytes_view(out@[j].1),
            }) by {
                assert(buffer::delivered(out@)[j] == m.buffer.deliverable()[j]);
            }
            assert(events_of(events@) =~= events_of(start) + list.take(0));
        }
        while i < out.len()
            invariant
                i <= out@.len(),
                list.len() == out@.len(),
                forall|j: int|
                    0 <= j < out@.len() ==> #[trigger] list[j] == (EventModel::SourceReady {
                        id: out@[j].0,
                        data: buffers::bytes_view(out@[j].1),
                    }),
                events_of(events@) == events_of(start) + list.take(i as int),
            decreases out@.len() - i,
        {
            let ghost before = events@;
            events.push(
                DecoderEvent::SourceReady { id: out[i].0, data: bytes_clone(&out[i].1) },
            );
            i += 1;
            assert(events_of(events@) =~= events_of(before).push(list[i - 1]));
            assert(list.take(i as int) =~= list.take(i - 1).push(list[i - 1]));
            assert(events_of(events@) =~= events_of(start) + list.take(i as int));
        }
        assert(list.take(list.len() as int) =~= list);
    }

    /// Adds a feedback packet to the events if the policy asks for one.
    fn maybe_send_feedback(&mut self, events: &mut Vec<DecoderEvent>) -> (due: Ghost<
        Option<Seq<u8>>,
    >)
        requires
            old(self).wf(),
        ensures
            final(self).wf(),
            final(self)@ == old(self)@,
            old(self).policy().may_decide(old(self)@.state(), due@ is Some, final(self).policy()),
            due@ is Some ==> old(self)@.is_feedback(due@->0),
            events_of(final(events)@) == match due@ {
                Some(pkt) => events_of(old(events)@).push(EventModel::SendFeedback(pkt)),
                None => events_of(old(events)@),
            },
    {
        let ghost m = self@;
        let state = self.make_state();
        if !self.feedback_policy.should_send_feedback(state) {
            assert(self@ =~= m);
            return Ghost(None);
        }
        let next: u32 = self.buffer.next_delivery_id();
        let ids = self.buffer.ids_from(next);
        let n: usize = if ids.len() < 256 {
            ids.len()
        } else {
            256
        };
        let acked: &[u32] = vstd::slice::slice_subrange(ids.as_slice(), 0, n);
        let pkt = FeedbackPacket::build(
            next,
            state.nb_missing_src,
            state.nb_not_used_coded,
            state.loss_rate,
            acked,
        );
        let bytes = pkt.serialise();
        proof {
            assert(acked@ =~= ids@.take(n as int));
            assert(m.acknowledges(ids@, pkt@.sack));
            assert(pkt@ =~= m.feedback(ids@, pkt@.sack));
            assert(m.is_feedback(bytes@));
            assert(self@ =~= m);
        }
        let ghost sent = bytes@;
        events.push(DecoderEvent::SendFeedback(bytes));
        assert(events_of(events@) =~= events_of(old(events)@).push(
            EventModel::SendFeedback(sent),
        ));
        Ghost(Some(sent))
    }

    /// Passes the symbols that the encoder's window has left behind.
    fn check_gap(&mut self, events: &mut Vec<DecoderEvent>)
        requires
            old(self).wf(),
        ensures
            final(self).wf(),
            final(self).policy() == old(self).policy(),
            final(self)@ == old(self)@.gap_passed(),
            events_of(final(events)@) == events_of(old(events)@) + old(self)@.gap(),
    {
        let ghost m = self@;
        let next: u32 = self.buffer.next_delivery_id();
        if self.encoder_win_min > next {
            let count: u32 = self.encoder_win_min - next;
            events.push(DecoderEvent::UnrecoverableGap { first_missing: next, count });
            self.buffer.prune_below(self.encoder_win_min);
            assert(self@ =~= m.gap_passed());
        }
        assert(events_of(events@) =~= events_of(old(events)@) + m.gap());
    }

    fn make_state(&self) -> (r: DecoderState)
        requires
            self.wf(),
        ensures
            r == self@.state(),
    {
        let rows: u64 = self.matrix.row_count() as u64;
        DecoderState {
            next_delivery_id: self.buffer.next_delivery_id(),
            packets_received: self.packets_received,
            loss_rate: self.loss.loss_rate(),
            nb_missing_src: self.buffer.count_missing(),
            nb_not_used_coded: (rows % 0x1_0000_0000u64) as u32,
        }
    }
}

/// What the matrix holds does not matter for what is learned.
proof fn lemma_learned_frame(
    m1: DecoderModel,
    m3: DecoderModel,
    new: Map<u32, Seq<u8>>,
    rows: system::Rows,
)
    requires
        m3 == (DecoderModel { rows, ..m1.learned(new) }),
    ensures
        m3 == (DecoderModel { rows, ..m1 }).learned(new),
{
}

/// A decoder with the default feedback policy.
pub type DefaultDecoder = Decoder<ConstantFeedbackPolicy>;

impl DefaultDecoder {
    /// A decoder that asks for feedback after every `feedback_every` packets of its
    /// configuration; after every 16 packets where that is zero.
    pub fn with_defaults(config: DecoderConfig) -> (r: Self)
        ensures
            r.wf(),
            r@ == DecoderModel::initial(config@),
            r.policy().every() == (if config@.feedback_every == 0 {
                16
            } else {
                config@.feedback_every as nat
            }),
            r.policy().since() == 0,
    {
        let every: u32 = config.feedback_every();
        let period: u32 = if every == 0 {
            16
        } else {
            every
        };
        Decoder::new(config, ConstantFeedbackPolicy::new(period))
    }
}

} // verus!
