//! What a decoder holds and tells, as mathematics.
use vstd::prelude::*;

use crate::codec::decoder::buffer::BufferModel;
use crate::codec::decoder::linear::Symbols;
use crate::codec::decoder::matrix;
use crate::codec::decoder::system;
use crate::codec::decoder::system::Rows;
use crate::config::DecoderParams;
use crate::loss::LossRate;
use crate::ordered;
use crate::policy::{DecoderState, FeedbackPolicy};
use crate::wire::ev::EvModel;
use crate::wire::feedback;
use crate::wire::feedback::FeedbackModel;

verus! {

/// What has been counted of the packets so far.
#[verifier::ext_equal]
pub struct LossModel {
    /// The number of packets.
    pub received: u64,
    /// The number of packets that should have arrived.
    pub expected: u64,
    /// The id of the last source packet.
    pub last_seen: u32,
}

/// `a + b`, wrapped around.
pub open spec fn sum64(a: u64, b: int) -> u64 {
    ((a + b) % 0x1_0000_0000_0000_0000) as u64
}

impl LossModel {
    /// Nothing has been counted.
    pub open spec fn initial() -> Self {
        LossModel { received: 0, expected: 0, last_seen: 0 }
    }

    /// The distance from the last source packet, at most 1000.
    pub open spec fn gap(self, id: u32) -> int {
        let d = (id - self.last_seen) % 0x1_0000_0000;
        if d < 1000 {
            d
        } else {
            1000
        }
    }

    /// After a source packet.
    pub open spec fn after_source(self, id: u32) -> Self {
        LossModel {
            received: sum64(self.received, 1),
            expected: sum64(self.expected, self.gap(id)),
            last_seen: id,
        }
    }

    /// After a coded packet.
    pub open spec fn after_coded(self) -> Self {
        LossModel {
            received: sum64(self.received, 1),
            expected: sum64(self.expected, 1),
            last_seen: self.last_seen,
        }
    }

    /// The loss rate.
    pub open spec fn rate(self) -> LossRate {
        LossRate {
            lost: if self.expected >= self.received {
                (self.expected - self.received) as u64
            } else {
                0
            },
            expected: self.expected,
        }
    }
}

/// What an event says.
pub enum EventModel {
    SourceReady { id: u32, data: Seq<u8> },
    SendFeedback(Seq<u8>),
    UnrecoverableGap { first_missing: u32, count: u32 },
}

/// What a decoder holds.
#[verifier::ext_equal]
pub struct DecoderModel {
    pub params: DecoderParams,
    /// The symbols that wait for delivery.
    pub buffer: BufferModel,
    /// The equations that determine no symbol yet.
    pub rows: Rows,
    /// Every symbol received or recovered so far.
    pub known: Map<u32, Seq<u8>>,
    /// The lowest id that the encoder may still have in its window.
    pub win_min: u32,
    pub loss: LossModel,
    pub packets: u64,
}

impl DecoderModel {
    /// A new decoder.
    pub open spec fn initial(params: DecoderParams) -> Self {
        DecoderModel {
            params,
            buffer: BufferModel { symbols: Map::empty(), next: 0 },
            rows: Map::empty(),
            known: Map::empty(),
            win_min: 0,
            loss: LossModel::initial(),
            packets: 0,
        }
    }

    /// The symbols have the right size, and none waits that should have been
    /// delivered.
    pub open spec fn symbols_ok(self) -> bool {
        let size = self.params.symbol_size as nat;
        &&& self.params.rejection() is None
        &&& self.buffer.wf()
        &&& system::sized(self.known, size)
        &&& system::sized(self.buffer.symbols, size)
    }

    /// The invariant of a decoder: the rows are in reduced row-echelon form,
    /// determine no symbol, and mention none that is known.
    pub open spec fn wf(self) -> bool {
        &&& self.symbols_ok()
        &&& system::reduced(self.params.field, self.rows, self.params.symbol_size as nat)
        &&& system::unsolved(self.rows)
        &&& system::clear_of(self.rows, self.known)
    }

    /// Everything that the decoder holds is true of the symbols `s`.
    pub open spec fn consistent(self, s: Symbols) -> bool {
        &&& system::agrees(s, self.known)
        &&& system::agrees(s, self.buffer.symbols)
        &&& system::rows_hold(self.params.field, self.rows, s)
    }

    /// With further symbols.  What is known already is kept.
    pub open spec fn learned(self, new: Map<u32, Seq<u8>>) -> Self {
        DecoderModel {
            known: new.union_prefer_right(self.known),
            buffer: self.buffer.inserted_all(new),
            ..self
        }
    }

    /// The rows after a source symbol, those that determine a symbol included.
    pub open spec fn rows_with_source(self, id: u32, data: Seq<u8>) -> Rows {
        system::after_source(self.params.field, self.rows, id, data)
    }

    /// After a source packet has been taken in.
    pub open spec fn source_taken(self, id: u32, data: Seq<u8>) -> Self {
        let rows = self.rows_with_source(id, data);
        DecoderModel {
            loss: self.loss.after_source(id),
            packets: sum64(self.packets, 1),
            rows: system::unsolved_part(rows),
            ..self
        }.learned(Map::empty().insert(id, data)).learned(system::solved_part(rows))
    }

    /// After a coded packet has been counted, which tells that the encoder's window
    /// starts at `start`.
    pub open spec fn coded_noted(self, start: Option<u32>) -> Self {
        DecoderModel {
            loss: self.loss.after_coded(),
            packets: sum64(self.packets, 1),
            win_min: match start {
                Some(x) => if x > self.win_min {
                    x
                } else {
                    self.win_min
                },
                None => self.win_min,
            },
            ..self
        }
    }

    /// The rows after a coded packet, those that determine a symbol included.
    pub open spec fn rows_with_coded(self, ev: EvModel, payload: Seq<u8>) -> Rows {
        system::after_coded(
            self.params.field,
            self.rows,
            matrix::ev_equation(self.params.field, ev, payload),
            self.known,
            self.params.max_matrix_rows as nat,
        )
    }

    /// After a coded packet has been taken in, which tells that the encoder's window
    /// starts at `start`.
    pub open spec fn coded_taken(self, ev: EvModel, payload: Seq<u8>, start: Option<u32>) -> Self {
        let rows = self.rows_with_coded(ev, payload);
        DecoderModel {
            rows: system::unsolved_part(rows),
            ..self.coded_noted(start)
        }.learned(system::solved_part(rows))
    }

    /// The symbols that can be delivered, as events.
    pub open spec fn deliveries(self) -> Seq<EventModel> {
        self.buffer.deliverable().map_values(
            |p: (u32, Seq<u8>)| EventModel::SourceReady { id: p.0, data: p.1 },
        )
    }

    /// After delivery.
    pub open spec fn drained(self) -> Self {
        DecoderModel { buffer: self.buffer.drained(), ..self }
    }

    /// What the feedback policy sees.
    pub open spec fn state(self) -> DecoderState {
        DecoderState {
            next_delivery_id: self.buffer.next,
            packets_received: self.packets,
            loss_rate: self.loss.rate(),
            nb_missing_src: self.buffer.missing().len() as u32,
            nb_not_used_coded: self.waiting(),
        }
    }

    /// The number of equations that wait in the matrix.
    pub open spec fn waiting(self) -> u32 {
        (self.rows.len() % 0x1_0000_0000) as u32
    }

    /// A feedback packet for what has been delivered and what waits: of the ids
    /// that wait, `ids`, the lowest 256 are acknowledged.
    pub open spec fn feedback(self, ids: Seq<u32>, sack: Seq<u8>) -> FeedbackModel {
        FeedbackModel {
            tsi: None,
            nb_missing_src: self.buffer.missing().len() as u32,
            nb_not_used_coded: self.waiting(),
            first_src_id: self.buffer.next,
            plr_raw: feedback::plr_of(self.loss.rate()),
            sack,
        }
    }

    /// `pkt` are the bytes of the feedback packet that is due.
    pub open spec fn is_feedback(self, pkt: Seq<u8>) -> bool {
        exists|ids: Seq<u32>, sack: Seq<u8>| #[trigger]
            self.acknowledges(ids, sack) && pkt == feedback::feedback_bytes(
                self.feedback(ids, sack),
            )
    }

    /// `ids` are the ids that wait, and `sack` acknowledges the lowest 256.
    pub open spec fn acknowledges(self, ids: Seq<u32>, sack: Seq<u8>) -> bool {
        &&& ordered::lists_keys(ids, self.buffer.symbols)
        &&& feedback::is_sack(
            sack,
            self.buffer.next,
            ids.take(if ids.len() < 256 { ids.len() as int } else { 256 }),
        )
    }

    /// The symbols before the encoder's window are lost.
    pub open spec fn gap(self) -> Seq<EventModel> {
        if self.win_min > self.buffer.next {
            seq![
                EventModel::UnrecoverableGap {
                    first_missing: self.buffer.next,
                    count: (self.win_min - self.buffer.next) as u32,
                },
            ]
        } else {
            Seq::empty()
        }
    }

    /// Delivery goes on behind the gap.
    pub open spec fn gap_passed(self) -> Self {
        if self.win_min > self.buffer.next {
            DecoderModel { buffer: self.buffer.pruned(self.win_min), ..self }
        } else {
            self
        }
    }

    /// The events after a packet has been taken in: deliveries, feedback if it is
    /// due, and a gap if there is one.
    pub open spec fn events(self, due: Option<Seq<u8>>) -> Seq<EventModel> {
        let fb = match due {
            Some(pkt) => seq![EventModel::SendFeedback(pkt)],
            None => Seq::empty(),
        };
        self.deliveries() + fb + self.drained().gap()
    }
}

/// From `m`, which has taken in a packet, the decoder tells `events` and becomes
/// `post`, while the feedback policy goes from `policy` to `after`.
pub open spec fn tells<P: FeedbackPolicy>(
    m: DecoderModel,
    policy: P,
    events: Seq<EventModel>,
    post: DecoderModel,
    after: P,
) -> bool {
    exists|due: Option<Seq<u8>>|
        {
            &&& events == #[trigger] m.events(due)
            &&& policy.may_decide(m.drained().state(), due is Some, after)
            &&& due is Some ==> m.drained().is_feedback(due->0)
            &&& post == m.drained().gap_passed()
        }
}

} // verus!
