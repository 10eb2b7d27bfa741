//! What an encoder holds and sends, as mathematics.
use vstd::prelude::*;

use crate::codec::encoder::window;
use crate::codec::encoder::window::SymbolModel;
use crate::config::{BackpressureMode, EncoderParams, Field, MatrixStrategy};
use crate::error::DelpError;
use crate::gf::algebra;
use crate::loss::LossRate;
use crate::policy::acks;
use crate::policy::acks::Acks;
use crate::policy::{CongestionControl, EncoderSnapshot};
use crate::wire::coded;
use crate::wire::ev::coef_gen;
use crate::wire::ev::id_storage;
use crate::wire::ev::id_storage::IdStorageFormat;
use crate::wire::ev::EvModel;
use crate::wire::source;

verus! {

/// What an encoder holds.
#[verifier::ext_equal]
pub struct EncoderModel {
    pub params: EncoderParams,
    /// The symbols in the window, the oldest one first.
    pub window: Seq<SymbolModel>,
    /// The id of the next source symbol.
    pub next_id: u32,
    /// The id of the next coded packet.
    pub next_coded_id: u32,
    /// The number of coded packets so far.
    pub used: u64,
    /// The generation of the next coded packet.
    pub generation: u8,
    /// What the receivers have acknowledged.
    pub acks: Acks,
    /// The last loss rate that was reported.
    pub loss: LossRate,
}

/// The number of coded ids in one cycle.
pub open spec fn cycle_of(p: EncoderParams) -> nat {
    match p.matrix_strategy {
        MatrixStrategy::Cauchy => coef_gen::cauchy_cycle(p.field),
        MatrixStrategy::Vandermonde => (algebra::group_order(p.field) - 1) as nat,
    }
}

/// The first coded id: zero would make every Vandermonde coefficient one.
pub open spec fn first_coded_id(p: EncoderParams) -> u32 {
    match p.matrix_strategy {
        MatrixStrategy::Cauchy => 0,
        MatrixStrategy::Vandermonde => 1,
    }
}

/// The coefficients of a coded packet over `cover`.
pub open spec fn coefs_for(p: EncoderParams, cover: Seq<u32>, coded_id: u32, generation: u8) -> Seq<
    u8,
> {
    match p.matrix_strategy {
        MatrixStrategy::Vandermonde => Seq::new(
            cover.len(),
            |i: int| coef_gen::vandermonde(p.field, cover[i], coded_id),
        ),
        MatrixStrategy::Cauchy => Seq::new(
            cover.len(),
            |i: int| coef_gen::cauchy(p.field, cover[i], coded_id, generation),
        ),
    }
}

/// The encoding vector of a coded packet over `cover`: implicit for Vandermonde,
/// explicit for Cauchy.
pub open spec fn vector_for(
    p: EncoderParams,
    cover: Seq<u32>,
    coded_id: u32,
    generation: u8,
) -> EvModel {
    let cauchy = p.matrix_strategy == MatrixStrategy::Cauchy;
    EvModel {
        field: p.field,
        coded_id,
        generation: if cauchy { generation } else { 0 },
        format: IdStorageFormat::chosen(cover),
        ids: cover,
        coefs: if cauchy {
            coefs_for(p, cover, coded_id, generation)
        } else {
            Seq::empty()
        },
    }
}

/// The symbol `id` in a window.
pub open spec fn symbol_of(w: Seq<SymbolModel>, id: u32) -> Seq<u8> {
    w[choose|i: int| window::first_at(w, id, i)].1
}

/// Byte `k` of the combination of the first `n` symbols of `cover`.
pub open spec fn mixed(
    f: Field,
    w: Seq<SymbolModel>,
    cover: Seq<u32>,
    coefs: Seq<u8>,
    k: int,
    n: nat,
) -> u8
    decreases n,
{
    if n == 0 {
        0
    } else {
        mixed(f, w, cover, coefs, k, (n - 1) as nat) ^ algebra::scale_byte(
            f,
            coefs[n - 1],
            symbol_of(w, cover[n - 1])[k],
        )
    }
}

/// The combination of the symbols of `cover`.
pub open spec fn mixture(
    f: Field,
    w: Seq<SymbolModel>,
    cover: Seq<u32>,
    coefs: Seq<u8>,
    size: nat,
) -> Seq<u8> {
    Seq::new(size, |k: int| mixed(f, w, cover, coefs, k, cover.len()))
}

/// The ids in the window are ascending and below the next one, there are not too
/// many of them, and every symbol has the right size.
pub open spec fn window_ok(w: Seq<SymbolModel>, next_id: u32, p: EncoderParams) -> bool {
    &&& w.len() <= p.window_capacity
    &&& forall|i: int, j: int| 0 <= i < j < w.len() ==> (#[trigger] w[i]).0 < (#[trigger] w[j]).0
    &&& forall|i: int|
        0 <= i < w.len() ==> (#[trigger] w[i]).0 < next_id && w[i].1.len() == p.symbol_size
}

impl EncoderModel {
    /// A new encoder.
    pub open spec fn initial(params: EncoderParams) -> Self {
        EncoderModel {
            params,
            window: Seq::empty(),
            next_id: 0,
            next_coded_id: first_coded_id(params),
            used: 0,
            generation: 0,
            acks: Map::empty(),
            loss: LossRate { lost: 0, expected: 0 },
        }
    }

    /// The invariant of an encoder.
    pub open spec fn wf(self) -> bool {
        &&& self.params.rejection() is None
        &&& window_ok(self.window, self.next_id, self.params)
        &&& first_coded_id(self.params) <= self.next_coded_id < first_coded_id(self.params)
            + cycle_of(self.params)
        &&& self.params.matrix_strategy == MatrixStrategy::Vandermonde ==> self.generation == 0
    }

    /// The ids in the window, the oldest one first.
    pub open spec fn ids(self) -> Seq<u32> {
        window::ids_of(self.window)
    }

    /// What the strategies see.
    pub open spec fn snapshot(self) -> EncoderSnapshot {
        EncoderSnapshot {
            window_size: self.window.len(),
            window_capacity: self.params.window_capacity as nat,
            next_source_id: self.next_id,
            next_coded_id: self.next_coded_id,
            loss_rate: self.loss,
            window_ids: self.ids(),
        }
    }

    /// The coefficients of the next coded packet over `cover`.
    pub open spec fn coefs(self, cover: Seq<u32>) -> Seq<u8> {
        coefs_for(self.params, cover, self.next_coded_id, self.generation)
    }

    /// The encoding vector of the next coded packet over `cover`.
    pub open spec fn vector(self, cover: Seq<u32>) -> EvModel {
        vector_for(self.params, cover, self.next_coded_id, self.generation)
    }

    /// The payload of the next coded packet over `cover`.
    pub open spec fn payload(self, cover: Seq<u32>) -> Seq<u8> {
        mixture(
            self.params.field,
            self.window,
            cover,
            self.coefs(cover),
            self.params.symbol_size as nat,
        )
    }

    /// The source packet of the newest symbol, with the CCI bytes `cci`.
    pub open spec fn source_packet(self, cci: Seq<u8>) -> Seq<u8> {
        source::source_bytes(self.window.last().0, self.window.last().1, cci, None)
    }

    /// The distance from the start of the window to the first id of `cover`.
    pub open spec fn lag(self, cover: Seq<u32>) -> u8 {
        coded::lag_of(cover[0], self.window[0].0)
    }

    /// What a packet over `cover` tells of the start of the window.
    pub open spec fn told(self, cover: Seq<u32>) -> Option<u32> {
        coded::start_told(cover, self.lag(cover))
    }

    /// The next coded packet over `cover`, with the CCI bytes `cci`.
    pub open spec fn coded_packet(self, cover: Seq<u32>, cci: Seq<u8>) -> Seq<u8> {
        coded::coded_bytes(
            self.next_coded_id,
            self.vector(cover),
            self.payload(cover),
            cci,
            None,
            self.lag(cover),
        )
    }

    /// The encoder after a coded packet: the coded id moves on, and at the end of a
    /// cycle starts anew.  A Cauchy encoder then enters the next generation.
    pub open spec fn after_coded(self) -> Self {
        let wraps = self.next_coded_id + 1 == first_coded_id(self.params) + cycle_of(self.params);
        EncoderModel {
            next_coded_id: if wraps {
                first_coded_id(self.params)
            } else {
                (self.next_coded_id + 1) as u32
            },
            generation: if wraps && self.params.matrix_strategy == MatrixStrategy::Cauchy {
                ((self.generation + 1) % 256) as u8
            } else {
                self.generation
            },
            used: ((self.used + 1) % 0x1_0000_0000_0000_0000) as u64,
            ..self
        }
    }

    /// The encoder after `n` coded packets.
    pub open spec fn after_coded_n(self, n: nat) -> Self
        decreases n,
    {
        if n == 0 {
            self
        } else {
            self.after_coded_n((n - 1) as nat).after_coded()
        }
    }

    /// Why a new symbol is refused, if it is.
    pub open spec fn refusal(self, data: Seq<u8>) -> Option<DelpError> {
        if data.len() != self.params.symbol_size {
            Some(
                DelpError::SymbolSizeMismatch {
                    expected: self.params.symbol_size,
                    actual: data.len() as usize,
                },
            )
        } else if self.next_id == u32::MAX {
            Some(DelpError::SourceIdExhausted)
        } else if self.window.len() >= self.params.window_capacity && self.params.backpressure
            == BackpressureMode::Reject {
            Some(DelpError::WindowFull { capacity: self.params.window_capacity })
        } else {
            None
        }
    }

    /// The encoder after a new symbol has entered the window.  A full window drops
    /// its oldest symbol first.
    pub open spec fn after_push(self, data: Seq<u8>) -> Self {
        let kept = if self.window.len() >= self.params.window_capacity {
            self.window.drop_first()
        } else {
            self.window
        };
        EncoderModel {
            window: kept.push((self.next_id, data)),
            next_id: (self.next_id + 1) as u32,
            ..self
        }
    }

    /// The ids of the `n` newest symbols.
    pub open spec fn recent(self, n: nat) -> Seq<u32> {
        let ids = self.ids();
        if n >= ids.len() {
            ids
        } else {
            ids.skip(ids.len() - n)
        }
    }

    /// The ids that the receiver has not acknowledged.
    pub open spec fn unacked(self, rid: u64) -> Seq<u32> {
        let acks = self.acks;
        self.ids().filter(|id: u32| !acks::acked_by(acks, rid, id))
    }

    /// The ids in the window that `wanted` lists, the oldest one first.
    pub open spec fn present(self, wanted: Seq<u32>) -> Seq<u32> {
        self.ids().filter(|id: u32| wanted.contains(id))
    }

    /// The encoder after `removed` has left the window.
    pub open spec fn without(self, removed: Seq<u32>) -> Self {
        EncoderModel {
            window: self.window.filter(|p: SymbolModel| !removed.contains(p.0)),
            ..self
        }
    }
}

/// A packet as the encoder hands it out.
pub enum OutputModel {
    Source(Seq<u8>),
    Coded(Seq<u8>),
}

impl OutputModel {
    /// The bytes of the packet.
    pub open spec fn bytes(self) -> Seq<u8> {
        match self {
            OutputModel::Source(b) => b,
            OutputModel::Coded(b) => b,
        }
    }
}

/// The congestion control `cc` lets the packet `pkt` go out with the CCI bytes
/// `cci`, is told of it, and becomes `after`.
pub open spec fn sends<C: CongestionControl>(
    cc: C,
    cci: Seq<u8>,
    pkt: Seq<u8>,
    after: C,
) -> bool {
    &&& source::valid_cci(cci)
    &&& cc.may_emit(cci)
    &&& cc.may_note(pkt.len(), after)
}

/// `out` is the next coded packet of `m` over `cover`.
pub open spec fn coded_output<C: CongestionControl>(
    m: EncoderModel,
    cover: Seq<u32>,
    cc: C,
    out: OutputModel,
    after: C,
) -> bool {
    exists|cci: Seq<u8>|
        {
            &&& #[trigger] sends(cc, cci, m.coded_packet(cover, cci), after)
            &&& out == OutputModel::Coded(m.coded_packet(cover, cci))
        }
}

/// `out` is the source packet of the newest symbol in `m`.
pub open spec fn source_output<C: CongestionControl>(
    m: EncoderModel,
    cc: C,
    out: OutputModel,
    after: C,
) -> bool {
    exists|cci: Seq<u8>|
        {
            &&& #[trigger] sends(cc, cci, m.source_packet(cci), after)
            &&& out == OutputModel::Source(m.source_packet(cci))
        }
}

/// `out` is the source packet of the newest symbol in `m`, followed by coded
/// packets over the whole window; `ccs` are the states of the congestion control
/// before each of them, and after the last.
pub open spec fn submit_output<C: CongestionControl>(
    m: EncoderModel,
    out: Seq<OutputModel>,
    ccs: Seq<C>,
) -> bool {
    &&& out.len() >= 1
    &&& ccs.len() == out.len() + 1
    &&& source_output(m, ccs[0], out[0], ccs[1])
    &&& forall|i: int|
        1 <= i < out.len() ==> coded_output(
            m.after_coded_n((i - 1) as nat),
            m.ids(),
            ccs[i],
            #[trigger] out[i],
            ccs[i + 1],
        )
}

// ── Facts about windows ──────────────────────────────────────────────────

/// A symbol that is in the window is found where it is.
pub proof fn lemma_symbol_of(w: Seq<SymbolModel>, id: u32, i: int)
    requires
        window::first_at(w, id, i),
    ensures
        symbol_of(w, id) == w[i].1,
{
    let j = choose|j: int| window::first_at(w, id, j);
    assert(window::first_at(w, id, j));
    if i < j {
        assert(w[i].0 != id);
    }
    if j < i {
        assert(w[j].0 != id);
    }
}

/// In a window with ascending ids every symbol is found.
pub proof fn lemma_symbol_at(w: Seq<SymbolModel>, next_id: u32, p: EncoderParams, i: int)
    requires
        window_ok(w, next_id, p),
        0 <= i < w.len(),
    ensures
        symbol_of(w, w[i].0) == w[i].1,
        window::ids_of(w).contains(w[i].0),
{
    assert forall|j: int| 0 <= j < i implies (#[trigger] w[j]).0 != w[i].0 by {}
    lemma_symbol_of(w, w[i].0, i);
    assert(window::ids_of(w)[i] == w[i].0);
}

/// Leaving symbols out keeps a window in order.
pub proof fn lemma_filter_window_ok(
    w: Seq<SymbolModel>,
    next_id: u32,
    p: EncoderParams,
    keep: spec_fn(SymbolModel) -> bool,
)
    requires
        window_ok(w, next_id, p),
    ensures
        window_ok(w.filter(keep), next_id, p),
        forall|i: int|
            0 <= i < w.filter(keep).len() ==> w.contains(#[trigger] w.filter(keep)[i]),
    decreases w.len(),
{
    reveal(Seq::filter);
    if w.len() > 0 {
        let v = w.drop_last();
        let last = w.last();
        assert(window_ok(v, next_id, p));
        lemma_filter_window_ok(v, next_id, p, keep);
        let fv = v.filter(keep);
        let fw = w.filter(keep);
        assert forall|i: int| 0 <= i < fv.len() implies (#[trigger] fv[i]).0 < last.0 && w.contains(
            fv[i],
        ) by {
            assert(v.contains(fv[i]));
            let j = v.index_of(fv[i]);
            assert(w[j] == fv[i]);
            assert(w[j].0 < w[w.len() - 1].0);
        }
        assert(w[w.len() - 1] == last);
    }
}

/// A new symbol that is not refused keeps the invariant.
pub proof fn lemma_after_push_wf(m: EncoderModel, data: Seq<u8>)
    requires
        m.wf(),
        m.refusal(data) is None,
    ensures
        m.after_push(data).wf(),
        m.after_push(data).window.len() > 0,
{
    let p = m.after_push(data);
    assert forall|i: int| 0 <= i < p.window.len() implies (#[trigger] p.window[i]).0 < p.next_id
        && p.window[i].1.len() == p.params.symbol_size by {
        if i < p.window.len() - 1 {
            if m.window.len() >= m.params.window_capacity {
                assert(p.window[i] == m.window[i + 1]);
            } else {
                assert(p.window[i] == m.window[i]);
            }
        }
    }
    assert forall|i: int, j: int| 0 <= i < j < p.window.len() implies (#[trigger] p.window[i]).0 < (
    #[trigger] p.window[j]).0 by {
        if m.window.len() >= m.params.window_capacity {
            assert(p.window[i] == m.window[i + 1]);
            if j < p.window.len() - 1 {
                assert(p.window[j] == m.window[j + 1]);
            }
        } else {
            assert(p.window[i] == m.window[i]);
            if j < p.window.len() - 1 {
                assert(p.window[j] == m.window[j]);
            }
        }
    }
}

} // verus!
