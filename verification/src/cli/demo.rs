//! The demos: what targeted packets save, and sessions beyond one cycle of coded
//! ids.
use vstd::prelude::*;

use bytes::Bytes;

use crate::buffers;
use crate::buffers::bytes_from_vec;
use crate::cli::bench;
use crate::cli::bench::count_ready;
use crate::cli::send;
use crate::codec::decoder;
use crate::codec::decoder::buffer;
use crate::codec::decoder::linear;
use crate::codec::decoder::matrix;
use crate::codec::decoder::model as decoder_model;
use crate::codec::decoder::model::{DecoderModel, EventModel};
use crate::codec::decoder::system;
use crate::codec::encoder;
use crate::codec::encoder::model;
use crate::codec::encoder::model::{EncoderModel, OutputModel};
use crate::codec::laws;
use crate::codec::{DefaultDecoder, DefaultEncoder, EncoderOutput};
use crate::config::{
    BackpressureMode, DecoderConfig, EncoderConfig, EncoderParams, Field, MatrixStrategy,
};
use crate::error::{DelpError, Result};
use crate::gf::algebra;
use crate::policy::FeedbackPolicy;
use crate::transport::receiver;
use crate::wire::coded;
use crate::wire::coded::CodedPacket;
use crate::wire::ev;
use crate::wire::ev::EvModel;
use crate::wire::source::SourcePacket;

verus! {

/// The encoder after `n` symbols, the `i`-th of which is `data(i)`, without coded
/// packets.
pub open spec fn filled(p: EncoderParams, data: spec_fn(nat) -> Seq<u8>, n: nat) -> EncoderModel
    decreases n,
{
    if n == 0 {
        EncoderModel::initial(p)
    } else {
        filled(p, data, (n - 1) as nat).after_push(data((n - 1) as nat))
    }
}

/// An encoder that is filled up to its capacity holds all symbols.
pub proof fn lemma_filled(p: EncoderParams, data: spec_fn(nat) -> Seq<u8>, n: nat)
    requires
        p.rejection() is None,
        n <= p.window_capacity,
        n <= u32::MAX,
        forall|i: nat| #[trigger] data(i).len() == p.symbol_size,
    ensures
        filled(p, data, n).wf(),
        filled(p, data, n).params == p,
        filled(p, data, n).next_id == n,
        filled(p, data, n).next_coded_id == model::first_coded_id(p),
        filled(p, data, n).generation == 0,
        filled(p, data, n).used == 0,
        filled(p, data, n).window.len() == n,
        forall|i: int|
            0 <= i < n ==> #[trigger] filled(p, data, n).window[i] == (i as u32, data(i as nat)),
        n < p.window_capacity && n < u32::MAX ==> filled(p, data, n).refusal(data(n)) is None,
    decreases n,
{
    if n > 0 {
        let k = (n - 1) as nat;
        lemma_filled(p, data, k);
        model::lemma_after_push_wf(filled(p, data, k), data(k));
    }
}

// ── Targeted packets ─────────────────────────────────────────────────────

/// How large a packet over the whole window is, and one over the newest symbols.
#[derive(Debug, Clone, Copy, PartialEq, Eq, Structural)]
pub struct CoverReport {
    /// The number of ids in the packet over the whole window.
    pub full_ids: usize,
    /// The length of that packet.
    pub full_len: usize,
    /// The number of ids in the targeted packet.
    pub recent_ids: usize,
    /// The length of that packet.
    pub recent_len: usize,
}

/// The smaller number.
pub open spec fn least(a: usize, b: usize) -> usize {
    if a < b {
        a
    } else {
        b
    }
}

/// The number of symbols in the window.
pub open spec fn altc_window(window: usize, strategy: MatrixStrategy) -> usize {
    match strategy {
        MatrixStrategy::Cauchy => least(window, 128),
        MatrixStrategy::Vandermonde => window,
    }
}

/// The parameters of the encoder.
pub open spec fn altc_params(
    window: usize,
    symbol_size: usize,
    strategy: MatrixStrategy,
) -> EncoderParams {
    EncoderParams {
        symbol_size,
        window_capacity: altc_window(window, strategy),
        field: Field::Gf2_8,
        fec_numer: 0,
        fec_denom: 1,
        backpressure: BackpressureMode::Reject,
        matrix_strategy: strategy,
    }
}

/// Every symbol of the demo.
pub open spec fn altc_symbol(symbol_size: usize) -> spec_fn(nat) -> Seq<u8> {
    |i: nat| Seq::new(symbol_size as nat, |k: int| 0xABu8)
}

/// The full packet and the targeted one.
pub open spec fn altc_packets(
    window: usize,
    symbol_size: usize,
    cover: usize,
    strategy: MatrixStrategy,
) -> (Seq<u8>, Seq<u8>) {
    let n = altc_window(window, strategy);
    let m = filled(
        altc_params(window, symbol_size, strategy),
        altc_symbol(symbol_size),
        n as nat,
    );
    let m1 = m.after_coded();
    (
        m.coded_packet(m.ids(), Seq::empty()),
        m1.coded_packet(m1.recent(least(cover, n) as nat), Seq::empty()),
    )
}

/// What the demo reports.
pub open spec fn altc_report(
    window: usize,
    symbol_size: usize,
    cover: usize,
    strategy: MatrixStrategy,
) -> Result<CoverReport> {
    let p = altc_params(window, symbol_size, strategy);
    let (full, recent) = altc_packets(window, symbol_size, cover, strategy);
    match p.rejection() {
        Some(e) => Err(e),
        None => if altc_window(window, strategy) > u32::MAX {
            Err(DelpError::SourceIdExhausted)
        } else {
            match (coded::coded_from(full), coded::coded_from(recent)) {
                (Err(e), _) => Err(e),
                (_, Err(e)) => Err(e),
                (Ok(f), Ok(r)) => Ok(
                    CoverReport {
                        full_ids: f.ev.ids.len() as usize,
                        full_len: full.len() as usize,
                        recent_ids: r.ev.ids.len() as usize,
                        recent_len: recent.len() as usize,
                    },
                ),
            }
        },
    }
}

/// Submits a symbol to an encoder that generates no coded packets.
fn submit_plain(enc: &mut DefaultEncoder, data: Bytes) -> (r: Result<Vec<EncoderOutput>>)
    requires
        old(enc).wf(),
        old(enc).rate().rate_numer() == 0,
        old(enc).rate().rate_denom() == 1,
        old(enc).rate().accumulated() == 0,
    ensures
        final(enc).wf(),
        final(enc).rate().rate_numer() == 0,
        final(enc).rate().rate_denom() == 1,
        final(enc).rate().accumulated() == 0,
        match r {
            Ok(out) => {
                let m = old(enc)@.after_push(buffers::bytes_view(data));
                &&& old(enc)@.refusal(buffers::bytes_view(data)) is None
                &&& final(enc)@ == m
                &&& encoder::outputs(out@) == seq![
                    OutputModel::Source(m.source_packet(Seq::empty())),
                ]
            },
            Err(e) => {
                &&& old(enc)@.refusal(buffers::bytes_view(data)) == Some(e)
                &&& final(enc)@ == old(enc)@
            },
        },
{
    let ghost cc = enc.control();
    let r = enc.submit_source(data);
    proof {
        if r is Ok {
            let out = r->Ok_0;
            let m = old(enc)@.after_push(buffers::bytes_view(data));
            assert(out@.len() == 1);
            let ccs = choose|ccs: Seq<crate::policy::defaults::NoCongestionControl>| #[trigger]
                model::submit_output(m, encoder::outputs(out@), ccs) && ccs[0] == cc && ccs.last()
                    == enc.control();
            let cci = choose|cci: Seq<u8>|
                {
                    &&& #[trigger] model::sends(ccs[0], cci, m.source_packet(cci), ccs[1])
                    &&& encoder::outputs(out@)[0] == OutputModel::Source(m.source_packet(cci))
                };
            assert(model::source_output(m, ccs[0], encoder::outputs(out@)[0], ccs[1]));
            assert(cci =~= Seq::empty());
            assert(encoder::outputs(out@) =~= seq![
                OutputModel::Source(m.source_packet(Seq::empty())),
            ]);
        }
    }
    r
}

/// Compares a packet over the whole window with one over its newest symbols.
pub fn altc(window: usize, symbol_size: usize, cover: usize, strategy: MatrixStrategy) -> (r: Result<
    CoverReport,
>)
    requires
        cover > 0,
    ensures
        r == altc_report(window, symbol_size, cover, strategy),
{
    let n: usize = match strategy {
        MatrixStrategy::Cauchy => if window < 128 {
            window
        } else {
            128
        },
        MatrixStrategy::Vandermonde => window,
    };
    let cover: usize = if cover < n {
        cover
    } else {
        n
    };
    let ghost p = altc_params(window, symbol_size, strategy);
    let ghost data = altc_symbol(symbol_size);
    let config = match EncoderConfig::builder(symbol_size).window_capacity(n).fec_rate(
        0,
        1,
    ).matrix_strategy(strategy).build() {
        Ok(c) => c,
        Err(e) => return Err(e),
    };
    let mut enc = DefaultEncoder::with_defaults(config);
    let mut i: usize = 0;
    while i < n
        invariant
            i <= n,
            i <= u32::MAX,
            n == altc_window(window, strategy),
            p == altc_params(window, symbol_size, strategy),
            data == altc_symbol(symbol_size),
            p.rejection() is None,
            enc.wf(),
            enc@ == filled(p, data, i as nat),
            enc.rate().rate_numer() == 0,
            enc.rate().rate_denom() == 1,
            enc.rate().accumulated() == 0,
        decreases n - i,
    {
        let symbol: Vec<u8> = vec![0xABu8; symbol_size];
        proof {
            lemma_filled(p, data, i as nat);
            assert(symbol@ =~= data(i as nat));
        }
        match submit_plain(&mut enc, bytes_from_vec(symbol)) {
            Ok(_) => {},
            Err(e) => return Err(e),
        }
        i += 1;
    }
    proof {
        lemma_filled(p, data, n as nat);
    }
    let ghost m = enc@;
    let ghost cc = enc.control();
    let full = match enc.generate_coded() {
        Ok(Some(EncoderOutput::Coded(b))) => {
            proof {
                send::lemma_no_control(m, m.ids(), cc, OutputModel::Coded(b@), enc.control());
            }
            b
        },
        _ => {
            assert(false);
            Vec::new()
        },
    };
    let ghost m1 = enc@;
    let ghost cc1 = enc.control();
    let recent = match enc.generate_coded_recent(cover) {
        Ok(Some(EncoderOutput::Coded(b))) => {
            proof {
                send::lemma_no_control(
                    m1,
                    m1.recent(cover as nat),
                    cc1,
                    OutputModel::Coded(b@),
                    enc.control(),
                );
            }
            b
        },
        _ => {
            assert(false);
            Vec::new()
        },
    };
    let f = match CodedPacket::parse(full.as_slice()) {
        Ok(p) => p,
        Err(e) => return Err(e),
    };
    let t = match CodedPacket::parse(recent.as_slice()) {
        Ok(p) => p,
        Err(e) => return Err(e),
    };
    Ok(
        CoverReport {
            full_ids: f.ev.source_ids.len(),
            full_len: full.len(),
            recent_ids: t.ev.source_ids.len(),
            recent_len: recent.len(),
        },
    )
}

// ── Sessions beyond one cycle ────────────────────────────────────────────

/// The length of the symbols of the demo.
pub const DEMO_SYMBOL: usize = 64;

/// What became of a long session.
#[derive(Debug, Clone, Copy, PartialEq, Eq, Structural)]
pub struct RotationReport {
    /// The generation of the encoder afterwards.
    pub generation: u8,
    /// The number of coded packets.
    pub coded_ids_used: u64,
    /// The highest generation on the wire.
    pub max_generation: u8,
    /// The number of symbols that the coded packets delivered.
    pub delivered: u64,
    /// The id that the decoder delivers next.
    pub next_delivery_id: u32,
}

/// The parameters of the encoder.
pub open spec fn rotation_params(n_symbols: usize) -> EncoderParams {
    EncoderParams {
        symbol_size: DEMO_SYMBOL,
        window_capacity: if n_symbols == 0 {
            1
        } else {
            n_symbols
        },
        field: Field::Gf2_8,
        fec_numer: 0,
        fec_denom: 1,
        backpressure: BackpressureMode::Reject,
        matrix_strategy: MatrixStrategy::Cauchy,
    }
}

/// Symbol `i` of the demo.
pub open spec fn rotation_symbol() -> spec_fn(nat) -> Seq<u8> {
    |i: nat| Seq::new(DEMO_SYMBOL as nat, |j: int| ((i * 31 + j * 7) % 256) as u8)
}

/// The encoder before the first coded packet.
pub open spec fn rotation_start(n_symbols: usize) -> EncoderModel {
    filled(rotation_params(n_symbols), rotation_symbol(), n_symbols as nat)
}

/// The highest generation among the first `n` coded packets.
pub open spec fn highest_generation(m: EncoderModel, n: nat) -> u8
    decreases n,
{
    if n == 0 {
        0
    } else {
        let rest = highest_generation(m, (n - 1) as nat);
        let g = m.after_coded_n((n - 1) as nat).generation;
        if g > rest {
            g
        } else {
            rest
        }
    }
}

/// A decoder that has received and delivered the first `n` symbols directly.
pub open spec fn complete(d: DecoderModel, n: nat) -> bool {
    &&& d.params == bench::decoder_params(DEMO_SYMBOL)
    &&& d.rows == Map::<u32, linear::Equation>::empty()
    &&& forall|id: u32| #[trigger] d.known.contains_key(id) <==> id < n
    &&& d.buffer.symbols == Map::<u32, Seq<u8>>::empty()
    &&& d.buffer.next == n
    &&& d.win_min == 0
}

/// The next symbol in order is delivered at once.
proof fn lemma_next_in_order<P: FeedbackPolicy>(
    d: DecoderModel,
    n: nat,
    data: Seq<u8>,
    policy: P,
    events: Seq<EventModel>,
    post: DecoderModel,
    after: P,
)
    requires
        d.wf(),
        complete(d, n),
        n < u32::MAX,
        data.len() == DEMO_SYMBOL,
        decoder_model::tells(d.source_taken(n as u32, data), policy, events, post, after),
    ensures
        complete(post, n + 1),
{
    let id = n as u32;
    let rows = d.rows_with_source(id, data);
    let t = d.source_taken(id, data);
    assert(rows =~= Map::<u32, linear::Equation>::empty());
    assert(system::unsolved_part(rows) =~= rows);
    assert(system::solved_part(rows) =~= Map::<u32, Seq<u8>>::empty());
    assert(t.buffer.symbols =~= Map::<u32, Seq<u8>>::empty().insert(id, data));
    assert(t.buffer.end() == n + 1) by {
        reveal_with_fuel(buffer::run_end, 3);
    }
    assert(t.drained().buffer.symbols =~= Map::<u32, Seq<u8>>::empty());
}

/// A coded packet over symbols that are all known changes nothing.
proof fn lemma_nothing_new<P: FeedbackPolicy>(
    d: DecoderModel,
    n: nat,
    v: EvModel,
    payload: Seq<u8>,
    start: Option<u32>,
    policy: P,
    events: Seq<EventModel>,
    post: DecoderModel,
    after: P,
)
    requires
        d.wf(),
        complete(d, n),
        payload.len() == DEMO_SYMBOL,
        v.ids.len() > 0,
        start matches Some(x) ==> x == 0,
        forall|i: int| 0 <= i < v.ids.len() ==> #[trigger] v.ids[i] < n,
        decoder_model::tells(d.coded_taken(v, payload, start), policy, events, post, after),
    ensures
        complete(post, n),
        receiver::ready_among(events).len() == 0,
{
    let f = d.params.field;
    let size = d.params.symbol_size as nat;
    let total = linear::id_count();
    let eq = matrix::ev_equation(f, v, payload);
    let e0 = system::known_put_in(f, eq, d.known, total);
    let rows = d.rows_with_coded(v, payload);
    let t = d.coded_taken(v, payload, start);
    matrix::lemma_ev_equation_wf(f, v, payload);
    system::lemma_known_put_in(f, eq, d.known, total, size);
    system::lemma_eliminated_gap(f, e0, d.rows, 0, total);
    assert forall|id: u32| #[trigger] e0.at(id) == 0 by {
        if !d.known.contains_key(id) {
            assert forall|i: int| 0 <= i < v.ids.len() implies #[trigger] v.ids[i] != id by {}
            laws::lemma_ev_coefs_absent(f, v, v.ids.len(), id);
            assert(eq.at(id) == 0);
        }
    }
    assert(rows == d.rows);
    assert(system::unsolved_part(rows) =~= rows);
    assert(system::solved_part(rows) =~= Map::<u32, Seq<u8>>::empty());
    assert(t.known =~= d.known);
    assert(t.buffer.symbols =~= d.buffer.symbols);
    assert(t.buffer == d.buffer);
    assert(t.buffer.end() == n);
    assert(t.drained().buffer.symbols =~= d.buffer.symbols);
    let due = choose|due: Option<Seq<u8>>|
        {
            &&& events == #[trigger] t.events(due)
            &&& policy.may_decide(t.drained().state(), due is Some, after)
            &&& due is Some ==> t.drained().is_feedback(due->0)
            &&& post == t.drained().gap_passed()
        };
    assert(t.deliveries().len() == 0);
    reveal_with_fuel(receiver::ready_among, 3);
    if events.len() > 0 {
        assert(events.drop_last().len() == 0);
    }
}

/// Runs a Cauchy session over several cycles of coded ids.  Returns nothing if there
/// is no symbol to cover.
pub fn generation(n_symbols: usize, n_coded: u32) -> (r: Result<Option<RotationReport>>)
    ensures
        match rotation_params(n_symbols).rejection() {
            Some(e) => r == Err::<Option<RotationReport>, DelpError>(e),
            None => {
                let m = rotation_start(n_symbols);
                let a = m.after_coded_n(n_coded as nat);
                r == Ok::<Option<RotationReport>, DelpError>(
                    if n_symbols == 0 && n_coded > 0 {
                        None
                    } else {
                        Some(
                            RotationReport {
                                generation: a.generation,
                                coded_ids_used: a.used,
                                max_generation: highest_generation(m, n_coded as nat),
                                delivered: 0,
                                next_delivery_id: n_symbols as u32,
                            },
                        )
                    },
                )
            },
        },
{
    let ghost p = rotation_params(n_symbols);
    let ghost data = rotation_symbol();
    let capacity: usize = if n_symbols == 0 {
        1
    } else {
        n_symbols
    };
    let config = match EncoderConfig::builder(DEMO_SYMBOL).matrix_strategy(
        MatrixStrategy::Cauchy,
    ).window_capacity(capacity).fec_rate(0, 1).build() {
        Ok(c) => c,
        Err(e) => return Err(e),
    };
    let mut enc = DefaultEncoder::with_defaults(config);
    let dec_cfg = match DecoderConfig::builder(DEMO_SYMBOL).feedback_every(u32::MAX).build() {
        Ok(c) => c,
        Err(e) => return Err(e),
    };
    let mut dec = DefaultDecoder::with_defaults(dec_cfg);
    let mut i: usize = 0;
    while i < n_symbols
        invariant
            i <= n_symbols <= 128,
            p == rotation_params(n_symbols),
            data == rotation_symbol(),
            p.rejection() is None,
            enc.wf(),
            enc@ == filled(p, data, i as nat),
            enc.rate().rate_numer() == 0,
            enc.rate().rate_denom() == 1,
            enc.rate().accumulated() == 0,
            dec.wf(),
            complete(dec@, i as nat),
        decreases n_symbols - i,
    {
        let symbol = rotation_payload(i);
        proof {
            lemma_filled(p, data, i as nat);
            lemma_filled(p, data, (i + 1) as nat);
        }
        let ghost m = enc@;
        match submit_plain(&mut enc, bytes_from_vec(symbol)) {
            Ok(out) => {
                assert(encoder::outputs(out@).len() == 1);
                assert(encoder::outputs(out@)[0] == out@[0]@);
                if let EncoderOutput::Source(raw) = &out[0] {
                    proof {
                        laws::lemma_source_packet_read(enc@, Seq::empty());
                    }
                    deliver_next(&mut dec, raw.as_slice(), Ghost(i as nat), Ghost(data(i as nat)));
                }
            },
            Err(e) => return Err(e),
        }
        i += 1;
    }
    proof {
        lemma_filled(p, data, n_symbols as nat);
    }
    let ghost m = enc@;
    let mut max_generation: u8 = 0;
    let mut delivered: u64 = 0;
    let mut k: u32 = 0;
    while k < n_coded
        invariant
            k <= n_coded,
            n_symbols <= 128,
            p == rotation_params(n_symbols),
            data == rotation_symbol(),
            p.rejection() is None,
            m == rotation_start(n_symbols),
            m == filled(p, data, n_symbols as nat),
            enc.wf(),
            enc@ == m.after_coded_n(k as nat),
            k > 0 ==> n_symbols > 0,
            dec.wf(),
            complete(dec@, n_symbols as nat),
            max_generation == highest_generation(m, k as nat),
            delivered == 0,
        decreases n_coded - k,
    {
        proof {
            lemma_filled(p, data, n_symbols as nat);
            laws::lemma_after_coded_n(m, k as nat);
        }
        let ghost cc = enc.control();
        let raw = match enc.generate_coded() {
            Ok(Some(EncoderOutput::Coded(raw))) => raw,
            Ok(None) => {
                assert(m.ids().len() == 0);
                return Ok(None);
            },
            _ => {
                assert(false);
                return Ok(None);
            },
        };
        proof {
            send::lemma_no_control(
                m.after_coded_n(k as nat),
                m.ids(),
                cc,
                OutputModel::Coded(raw@),
                enc.control(),
            );
        }
        let (generation, ready) = absorb_coded(
            &mut dec,
            raw.as_slice(),
            Ghost(m.after_coded_n(k as nat)),
            Ghost(n_symbols as nat),
        );
        if generation > max_generation {
            max_generation = generation;
        }
        delivered = delivered + ready as u64;
        k += 1;
    }
    Ok(
        Some(
            RotationReport {
                generation: enc.generation(),
                coded_ids_used: enc.coded_ids_used(),
                max_generation,
                delivered,
                next_delivery_id: dec.next_delivery_id(),
            },
        ),
    )
}

/// Symbol `i` of the demo.
fn rotation_payload(i: usize) -> (r: Vec<u8>)
    requires
        i < 128,
    ensures
        r@ == rotation_symbol()(i as nat),
{
    let mut out: Vec<u8> = Vec::new();
    let mut j: usize = 0;
    while j < DEMO_SYMBOL
        invariant
            i < 128,
            j <= DEMO_SYMBOL,
            out@.len() == j,
            forall|q: int| 0 <= q < j ==> #[trigger] out@[q] == rotation_symbol()(i as nat)[q],
        decreases DEMO_SYMBOL - j,
    {
        out.push(((i * 31 + j * 7) % 256) as u8);
        j += 1;
    }
    assert(out@ =~= rotation_symbol()(i as nat));
    out
}

/// Hands the next source packet in order to the decoder.
fn deliver_next(
    dec: &mut DefaultDecoder,
    raw: &[u8],
    Ghost(n): Ghost<nat>,
    Ghost(data): Ghost<Seq<u8>>,
)
    requires
        old(dec).wf(),
        complete(old(dec)@, n),
        n < u32::MAX,
        data.len() == DEMO_SYMBOL,
        crate::wire::source::source_from(raw@) matches Ok(p) && p.id == n && p.payload == data,
    ensures
        final(dec).wf(),
        complete(final(dec)@, n + 1),
{
    if let Ok(pkt) = SourcePacket::parse(raw) {
        proof {
            dec.lemma_wf();
        }
        let ghost policy = dec.policy();
        match dec.handle_source(&pkt) {
            Ok(events) => {
                proof {
                    lemma_next_in_order(
                        old(dec)@,
                        n,
                        data,
                        policy,
                        decoder::events_of(events@),
                        dec@,
                        dec.policy(),
                    );
                }
            },
            Err(_) => {
                assert(false);
            },
        }
    }
}

/// Hands a coded packet over known symbols to the decoder.  Returns its generation,
/// and how many symbols it delivered.
fn absorb_coded(
    dec: &mut DefaultDecoder,
    raw: &[u8],
    Ghost(m): Ghost<EncoderModel>,
    Ghost(n): Ghost<nat>,
) -> (r: (u8, usize))
    requires
        old(dec).wf(),
        complete(old(dec)@, n),
        0 < n <= 128,
        m.wf(),
        m.params.matrix_strategy == MatrixStrategy::Cauchy,
        m.params.symbol_size == DEMO_SYMBOL,
        m.window.len() == n,
        forall|i: int| 0 <= i < n ==> (#[trigger] m.window[i]).0 == i,
        raw@ == m.coded_packet(m.ids(), Seq::empty()),
    ensures
        final(dec).wf(),
        complete(final(dec)@, n),
        r.0 == m.generation,
        r.1 == 0,
{
    let ghost ids = m.ids();
    let ghost v = m.vector(ids);
    proof {
        assert forall|i: int| 0 <= i < ids.len() implies #[trigger] ids[i] == i by {
            assert(m.window[i].0 == i);
        }
        assert forall|i: int| 0 <= i < v.coefs.len() implies algebra::in_field(
            v.field,
            #[trigger] v.coefs[i],
        ) by {
            laws::lemma_vector_coefs(m, ids, i);
        }
        ev::lemma_fits_wire(v);
        laws::lemma_coded_packet_read(m, ids, Seq::empty());
        dec.lemma_wf();
    }
    let ghost policy = dec.policy();
    match CodedPacket::parse(raw) {
        Ok(pkt) => {
            let generation: u8 = pkt.ev.generation;
            match dec.handle_coded(&pkt) {
                Ok(events) => {
                    proof {
                        lemma_nothing_new(
                            old(dec)@,
                            n,
                            v,
                            m.payload(ids),
                            m.told(ids),
                            policy,
                            decoder::events_of(events@),
                            dec@,
                            dec.policy(),
                        );
                    }
                    (generation, count_ready(&events))
                },
                Err(_) => {
                    assert(false);
                    (generation, 0)
                },
            }
        },
        Err(_) => {
            assert(false);
            (0, 0)
        },
    }
}

/// The generation that `n_coded` packets reach at least, where there are 128 to a
/// cycle.
pub fn expected_generation(n_coded: u32) -> (r: u32)
    ensures
        r == (if n_coded / 128 == 0 { 0 } else { n_coded / 128 - 1 }),
{
    (n_coded / 128).saturating_sub(1)
}

} // verus!
