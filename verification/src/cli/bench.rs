//! The benchmark: one pass of the encoder, one pass of the decoder.
use vstd::prelude::*;

use crate::buffers;
use crate::buffers::bytes_copy_from_slice;
use crate::cli::prng;
use crate::cli::prng::{Xorshift, DEFAULT_SEED};
use crate::cli::send;
use crate::cli::transfer;
use crate::cli::Strategy;
use crate::codec::decoder;
use crate::codec::decoder::buffer;
use crate::codec::decoder::laws;
use crate::codec::decoder::linear::Symbols;
use crate::codec::decoder::model::{DecoderModel, EventModel};
use crate::codec::encoder;
use crate::codec::encoder::model as sending;
use crate::codec::encoder::model::EncoderModel;
use crate::codec::laws as session;
use crate::codec::streams;
use crate::codec::{
    Decoder, DecoderEvent, DefaultDecoder, DefaultEncoder, Encoder, EncoderOutput,
};
use crate::config::{
    BackpressureMode, DecoderConfig, DecoderParams, EncoderConfig, EncoderParams, Field,
};
use crate::error::{DelpError, Result};
use crate::policy::defaults::NoCongestionControl;
use crate::transport::receiver;
use crate::transport::receiver::packets_of;
use crate::transport::sender;
use crate::wire::coded;
use crate::wire::coded::CodedPacket;
use crate::wire::source;
use crate::wire::source::SourcePacket;

verus! {

/// The payload of the benchmark: pseudo-random bytes, the same in every run.
pub fn payload(symbol_size: usize) -> (r: Vec<u8>)
    ensures
        r@ == Seq::new(
            symbol_size as nat,
            |i: int| prng::byte_of(prng::stepped_n(DEFAULT_SEED, (i + 1) as nat)),
        ),
{
    let mut rng = Xorshift::new(DEFAULT_SEED);
    let mut out: Vec<u8> = Vec::new();
    while out.len() < symbol_size
        invariant
            out@.len() <= symbol_size,
            rng.state == prng::stepped_n(DEFAULT_SEED, out@.len()),
            forall|i: int|
                0 <= i < out@.len() ==> #[trigger] out@[i] == prng::byte_of(
                    prng::stepped_n(DEFAULT_SEED, (i + 1) as nat),
                ),
        decreases symbol_size - out@.len(),
    {
        let b: u8 = rng.next_byte();
        out.push(b);
    }
    assert(out@ =~= Seq::new(
        symbol_size as nat,
        |i: int| prng::byte_of(prng::stepped_n(DEFAULT_SEED, (i + 1) as nat)),
    ));
    out
}

/// The parameters of the encoder: one coded packet per source packet, and a window
/// that slides without feedback.
pub open spec fn encoder_params(
    symbol_size: usize,
    window: usize,
    strategy: Strategy,
) -> EncoderParams {
    EncoderParams {
        symbol_size,
        window_capacity: window,
        field: Field::Gf2_8,
        fec_numer: 1,
        fec_denom: 1,
        backpressure: BackpressureMode::EvictOldest,
        matrix_strategy: strategy.matrix(),
    }
}

/// The parameters of the decoder: no feedback.
pub open spec fn decoder_params(symbol_size: usize) -> DecoderParams {
    DecoderParams { feedback_every: u32::MAX, ..DecoderParams::initial(symbol_size) }
}

/// An encoder and a decoder for the benchmark.
pub fn codec(symbol_size: usize, window: usize, strategy: Strategy) -> (r: Result<
    (DefaultEncoder, DefaultDecoder),
>)
    ensures
        match r {
            Ok(c) => {
                &&& encoder_params(symbol_size, window, strategy).rejection() is None
                &&& c.0.wf()
                &&& c.0@ == EncoderModel::initial(encoder_params(symbol_size, window, strategy))
                &&& c.0.rate().rate_numer() == 1
                &&& c.0.rate().rate_denom() == 1
                &&& c.0.rate().accumulated() == 0
                &&& c.1.wf()
                &&& c.1@ == DecoderModel::initial(decoder_params(symbol_size))
                &&& c.1.policy().every() == u32::MAX
                &&& c.1.policy().since() == 0
            },
            Err(e) => encoder_params(symbol_size, window, strategy).rejection() == Some(e),
        },
{
    let enc_cfg = match EncoderConfig::builder(symbol_size).window_capacity(window).fec_rate(
        1,
        1,
    ).matrix_strategy(strategy.into_delp()).backpressure(BackpressureMode::EvictOldest).build() {
        Ok(c) => c,
        Err(e) => return Err(e),
    };
    let dec_cfg = match DecoderConfig::builder(symbol_size).feedback_every(u32::MAX).build() {
        Ok(c) => c,
        Err(e) => return Err(e),
    };
    Ok((DefaultEncoder::with_defaults(enc_cfg), DefaultDecoder::with_defaults(dec_cfg)))
}

// ── Encoding ─────────────────────────────────────────────────────────────

/// The encoder goes through `encs` while the symbol `data` is submitted again and
/// again, each time with the packets in `outs`.
pub open spec fn encodes(
    encs: Seq<DefaultEncoder>,
    data: Seq<u8>,
    outs: Seq<Vec<EncoderOutput>>,
) -> bool {
    &&& encs.len() == outs.len() + 1
    &&& forall|i: int|
        0 <= i < outs.len() ==> Encoder::submitted(
            encs[i],
            data,
            Ok(#[trigger] outs[i]),
            encs[i + 1],
        )
}

/// All datagrams of `outs`, in order.
pub open spec fn all_datagrams(outs: Seq<Vec<EncoderOutput>>) -> Seq<Seq<u8>>
    decreases outs.len(),
{
    if outs.len() == 0 {
        Seq::empty()
    } else {
        all_datagrams(outs.drop_last()) + sender::datagrams(encoder::outputs(outs.last()@))
    }
}

/// `r` and `post` are what it leads to that the symbol `data` is encoded `n` times.
pub open spec fn encoded(
    pre: DefaultEncoder,
    data: Seq<u8>,
    n: nat,
    r: Result<Vec<Vec<u8>>>,
    post: DefaultEncoder,
) -> bool {
    exists|encs: Seq<DefaultEncoder>, outs: Seq<Vec<EncoderOutput>>|
        {
            &&& #[trigger] encodes(encs, data, outs)
            &&& encs[0] == pre
            &&& match r {
                Ok(wire) => {
                    &&& outs.len() == n
                    &&& encs.last() == post
                    &&& packets_of(wire@) == all_datagrams(outs)
                },
                Err(e) => {
                    &&& outs.len() < n
                    &&& Encoder::submitted(encs.last(), data, Err(e), post)
                },
            }
        }
}

/// Encodes the same symbol `n` times.  Returns the datagrams.
pub fn encode_pass(enc: &mut DefaultEncoder, payload: &[u8], n: usize) -> (r: Result<Vec<Vec<u8>>>)
    requires
        old(enc).wf(),
    ensures
        final(enc).wf(),
        encoded(*old(enc), payload@, n as nat, r, *final(enc)),
{
    let mut wire: Vec<Vec<u8>> = Vec::new();
    let ghost mut encs: Seq<DefaultEncoder> = seq![*enc];
    let ghost mut outs: Seq<Vec<EncoderOutput>> = Seq::empty();
    let mut i: usize = 0;
    assert(packets_of(wire@) =~= all_datagrams(outs));
    while i < n
        invariant
            i <= n,
            enc.wf(),
            outs.len() == i,
            encodes(encs, payload@, outs),
            encs[0] == *old(enc),
            encs.last() == *enc,
            packets_of(wire@) == all_datagrams(outs),
        decreases n - i,
    {
        let out = match enc.submit_source(bytes_copy_from_slice(payload)) {
            Ok(out) => out,
            Err(e) => {
                assert(encodes(encs, payload@, outs));
                return Err(e);
            },
        };
        let ghost sent = out;
        let ghost more = sender::datagrams(encoder::outputs(out@));
        append_raw(&mut wire, out);
        proof {
            let nouts = outs.push(sent);
            let nencs = encs.push(*enc);
            assert forall|j: int| 0 <= j < nouts.len() implies Encoder::submitted(
                nencs[j],
                payload@,
                Ok(#[trigger] nouts[j]),
                nencs[j + 1],
            ) by {
                if j < outs.len() {
                    assert(nouts[j] == outs[j]);
                }
            }
            assert(nouts.drop_last() =~= outs);
            outs = nouts;
            encs = nencs;
        }
        i += 1;
    }
    assert(encodes(encs, payload@, outs));
    Ok(wire)
}

/// Appends the datagrams of an encoder's output.
fn append_raw(wire: &mut Vec<Vec<u8>>, out: Vec<EncoderOutput>)
    ensures
        packets_of(final(wire)@) == packets_of(old(wire)@) + sender::datagrams(
            encoder::outputs(out@),
        ),
{
    let ghost all = sender::datagrams(encoder::outputs(out@));
    let ghost start = packets_of(wire@);
    let mut i: usize = 0;
    assert(packets_of(wire@) =~= start + all.take(0));
    while i < out.len()
        invariant
            i <= out@.len(),
            all == sender::datagrams(encoder::outputs(out@)),
            packets_of(wire@) == start + all.take(i as int),
        decreases out@.len() - i,
    {
        let ghost before = wire@;
        let raw = match &out[i] {
            EncoderOutput::Source(b) => vstd::slice::slice_to_vec(b.as_slice()),
            EncoderOutput::Coded(b) => vstd::slice::slice_to_vec(b.as_slice()),
        };
        wire.push(raw);
        i += 1;
        assert(all[i - 1] == raw@);
        assert(packets_of(wire@) =~= packets_of(before).push(raw@));
        assert(all.take(i as int) =~= all.take(i - 1).push(all[i - 1]));
        assert(packets_of(wire@) =~= start + all.take(i as int));
    }
    assert(all.take(all.len() as int) =~= all);
}

// ── Decoding ─────────────────────────────────────────────────────────────

/// `r` and `post` are what a packet leads to.  Byte 3 tells source packets from
/// coded ones, and a packet that cannot be parsed is an error.
pub open spec fn packet_handled(
    pre: DefaultDecoder,
    raw: Seq<u8>,
    r: Result<Vec<DecoderEvent>>,
    post: DefaultDecoder,
) -> bool {
    if raw[3] == 0 {
        match source::source_from(raw) {
            Ok(p) => Decoder::source_handled(pre, p, r, post),
            Err(e) => r == Err::<Vec<DecoderEvent>, DelpError>(e) && post == pre,
        }
    } else {
        match coded::coded_from(raw) {
            Ok(p) => Decoder::coded_handled(pre, p, r, post),
            Err(e) => r == Err::<Vec<DecoderEvent>, DelpError>(e) && post == pre,
        }
    }
}

/// Hands a packet to a decoder.
pub fn handle_packet(dec: &mut DefaultDecoder, raw: &[u8]) -> (r: Result<Vec<DecoderEvent>>)
    requires
        old(dec).wf(),
        raw@.len() >= 4,
    ensures
        final(dec).wf(),
        packet_handled(*old(dec), raw@, r, *final(dec)),
{
    if raw[3] == 0x00 {
        match SourcePacket::parse(raw) {
            Ok(p) => dec.handle_source(&p),
            Err(e) => Err(e),
        }
    } else {
        match CodedPacket::parse(raw) {
            Ok(p) => dec.handle_coded(&p),
            Err(e) => Err(e),
        }
    }
}

/// The number of symbols among events.
pub fn count_ready(events: &Vec<DecoderEvent>) -> (r: usize)
    ensures
        r == receiver::ready_among(decoder::events_of(events@)).len(),
        r <= events@.len(),
{
    let ghost told = decoder::events_of(events@);
    let mut n: usize = 0;
    let mut i: usize = 0;
    assert(told.take(0) =~= Seq::<EventModel>::empty());
    while i < events.len()
        invariant
            i <= events@.len(),
            n <= i,
            told == decoder::events_of(events@),
            n == receiver::ready_among(told.take(i as int)).len(),
        decreases events@.len() - i,
    {
        assert(told.take(i + 1).drop_last() =~= told.take(i as int));
        assert(told.take(i + 1).last() == events@[i as int]@);
        if let DecoderEvent::SourceReady { .. } = &events[i] {
            n += 1;
        }
        i += 1;
    }
    assert(told.take(told.len() as int) =~= told);
    n
}

/// The decoder goes through `decs` while it takes in the packets, each with the
/// events in `told`.
pub open spec fn decodes(
    decs: Seq<DefaultDecoder>,
    wire: Seq<Seq<u8>>,
    told: Seq<Vec<DecoderEvent>>,
) -> bool {
    &&& decs.len() == told.len() + 1
    &&& told.len() <= wire.len()
    &&& forall|i: int|
        0 <= i < told.len() ==> packet_handled(
            decs[i],
            wire[i],
            Ok(#[trigger] told[i]),
            decs[i + 1],
        )
}

/// The number of symbols among all events.
pub open spec fn ready_count(told: Seq<Vec<DecoderEvent>>) -> nat
    decreases told.len(),
{
    if told.len() == 0 {
        0
    } else {
        ready_count(told.drop_last()) + receiver::ready_among(
            decoder::events_of(told.last()@),
        ).len()
    }
}

/// `r` and `post` are what it leads to that the packets are decoded.
pub open spec fn decoded(
    pre: DefaultDecoder,
    wire: Seq<Seq<u8>>,
    r: Result<u128>,
    post: DefaultDecoder,
) -> bool {
    exists|decs: Seq<DefaultDecoder>, told: Seq<Vec<DecoderEvent>>|
        {
            &&& #[trigger] decodes(decs, wire, told)
            &&& decs[0] == pre
            &&& match r {
                Ok(n) => {
                    &&& told.len() == wire.len()
                    &&& decs.last() == post
                    &&& n == ready_count(told)
                },
                Err(e) => {
                    &&& told.len() < wire.len()
                    &&& packet_handled(decs.last(), wire[told.len() as int], Err(e), post)
                },
            }
        }
}

/// Decodes packets.  Returns the number of symbols that were delivered.
pub fn decode_pass(dec: &mut DefaultDecoder, wire: &Vec<Vec<u8>>) -> (r: Result<u128>)
    requires
        old(dec).wf(),
        forall|i: int| 0 <= i < wire@.len() ==> (#[trigger] wire@[i])@.len() >= 4,
    ensures
        final(dec).wf(),
        decoded(*old(dec), packets_of(wire@), r, *final(dec)),
{
    let ghost all = packets_of(wire@);
    let mut n: u128 = 0;
    let ghost mut decs: Seq<DefaultDecoder> = seq![*dec];
    let ghost mut told: Seq<Vec<DecoderEvent>> = Seq::empty();
    let mut i: usize = 0;
    while i < wire.len()
        invariant
            i <= wire@.len(),
            all == packets_of(wire@),
            forall|i: int| 0 <= i < wire@.len() ==> (#[trigger] wire@[i])@.len() >= 4,
            dec.wf(),
            told.len() == i,
            decodes(decs, all, told),
            decs[0] == *old(dec),
            decs.last() == *dec,
            n == ready_count(told),
            n <= i * 0xffff_ffff_ffff_ffff,
        decreases wire@.len() - i,
    {
        assert(wire@[i as int]@.len() >= 4);
        assert(all[i as int] == wire@[i as int]@);
        let events = match handle_packet(dec, wire[i].as_slice()) {
            Ok(events) => events,
            Err(e) => {
                assert(decodes(decs, all, told));
                return Err(e);
            },
        };
        let ready: usize = count_ready(&events);
        proof {
            let ntold = told.push(events);
            let ndecs = decs.push(*dec);
            assert forall|j: int| 0 <= j < ntold.len() implies packet_handled(
                ndecs[j],
                all[j],
                Ok(#[trigger] ntold[j]),
                ndecs[j + 1],
            ) by {
                if j < told.len() {
                    assert(ntold[j] == told[j]);
                }
            }
            assert(ntold.drop_last() =~= told);
            told = ntold;
            decs = ndecs;
        }
        n = n + ready as u128;
        i += 1;
    }
    assert(decodes(decs, all, told));
    Ok(n)
}

// ── Laws ─────────────────────────────────────────────────────────────────

/// The symbols of the benchmark: the same one again and again.
pub open spec fn repeated(data: Seq<u8>) -> Symbols {
    |id: u32| data
}

/// Encoding succeeds as long as there are ids left.
pub proof fn lemma_encode_succeeds(
    params: EncoderParams,
    pre: DefaultEncoder,
    data: Seq<u8>,
    n: nat,
    r: Result<Vec<Vec<u8>>>,
    post: DefaultEncoder,
)
    requires
        pre@ == EncoderModel::initial(params),
        params.rejection() is None,
        params.backpressure == BackpressureMode::EvictOldest,
        data.len() == params.symbol_size,
        n <= u32::MAX,
        encoded(pre, data, n, r, post),
    ensures
        r is Ok,
{
    let (encs, outs) = choose|encs: Seq<DefaultEncoder>, outs: Seq<Vec<EncoderOutput>>|
        {
            &&& #[trigger] encodes(encs, data, outs)
            &&& encs[0] == pre
            &&& match r {
                Ok(wire) => {
                    &&& outs.len() == n
                    &&& encs.last() == post
                    &&& packets_of(wire@) == all_datagrams(outs)
                },
                Err(e) => {
                    &&& outs.len() < n
                    &&& Encoder::submitted(encs.last(), data, Err(e), post)
                },
            }
        };
    assert(encodes(encs, data, outs));
    lemma_encoder_at(params, encs, data, outs, outs.len());
}

/// The encoder after `i` symbols.
proof fn lemma_encoder_at(
    params: EncoderParams,
    encs: Seq<DefaultEncoder>,
    data: Seq<u8>,
    outs: Seq<Vec<EncoderOutput>>,
    i: nat,
)
    requires
        encodes(encs, data, outs),
        encs[0]@ == EncoderModel::initial(params),
        params.rejection() is None,
        i <= outs.len() <= u32::MAX,
    ensures
        encs[i as int]@.wf(),
        encs[i as int]@.params == params,
        encs[i as int]@.next_id == i,
        transfer::undisturbed(encs[i as int]@),
    decreases i,
{
    if i > 0 {
        let j = i - 1;
        lemma_encoder_at(params, encs, data, outs, j as nat);
        let e = encs[j]@;
        let out = outs[j];
        assert(Encoder::submitted(encs[j], data, Ok(outs[j]), encs[j + 1]));
        let p = e.after_push(data);
        sending::lemma_after_push_wf(e, data);
        transfer::lemma_undisturbed(e, data, 0);
        session::lemma_after_coded_n(p, (out@.len() - 1) as nat);
        transfer::lemma_undisturbed(p, data, (out@.len() - 1) as nat);
    }
}

/// The encoder behind the packet number `j` of a symbol.
spec fn behind(e: EncoderModel, data: Seq<u8>, j: nat) -> EncoderModel {
    if j == 0 {
        e
    } else {
        e.after_push(data).after_coded_n((j - 1) as nat)
    }
}

/// `raw` is the packet number `j` of a symbol.
spec fn is_packet(e: EncoderModel, data: Seq<u8>, j: nat, raw: Seq<u8>) -> bool {
    let p = e.after_push(data);
    if j == 0 {
        raw == p.source_packet(Seq::empty())
    } else {
        raw == behind(e, data, j).coded_packet(p.ids(), Seq::empty())
    }
}

/// A decoder that keeps up takes in a packet without an error.  The source packet
/// makes one symbol ready, and the others none.
proof fn lemma_packet_taken(
    e: EncoderModel,
    data: Seq<u8>,
    j: nat,
    pre: DefaultDecoder,
    raw: Seq<u8>,
    r: Result<Vec<DecoderEvent>>,
    post: DefaultDecoder,
)
    requires
        streams::keeps_up(behind(e, data, j), pre@, repeated(data)),
        e.wf(),
        transfer::undisturbed(e),
        e.params.window_capacity <= 255,
        e.refusal(data) is None,
        is_packet(e, data, j, raw),
        packet_handled(pre, raw, r, post),
    ensures
        raw.len() >= 4,
        r is Ok,
        receiver::ready_among(decoder::events_of(r->Ok_0@)).len() == if j == 0 {
            1int
        } else {
            0
        },
        streams::keeps_up(behind(e, data, j + 1), post@, repeated(data)),
{
    let s = repeated(data);
    let p = e.after_push(data);
    let d = pre@;
    sending::lemma_after_push_wf(e, data);
    transfer::lemma_undisturbed(e, data, 0);
    if j > 0 {
        session::lemma_after_coded_n(p, (j - 1) as nat);
    }
    assert(laws::all_sized(s, d.params.symbol_size as nat));
    if j == 0 {
        let id = e.next_id;
        session::lemma_source_packet_read(p, Seq::empty());
        let pkt = source::source_from(raw)->Ok_0;
        assert(raw[3] == 0);
        let events = r->Ok_0;
        let t = d.source_taken(id, data);
        streams::lemma_source_arrives(e, d, s);
        buffer::lemma_run_end(t.buffer.symbols, t.buffer.next);
        assert(t.deliveries().len() == 1);
        transfer::lemma_told(
            t,
            pre.policy(),
            decoder::events_of(events@),
            post@,
            post.policy(),
        );
        assert(behind(e, data, 1) == p);
    } else {
        let q = behind(e, data, j);
        let cover = q.ids();
        transfer::lemma_undisturbed(p, data, (j - 1) as nat);
        assert(transfer::newest_from(q, 0) =~= cover);
        transfer::lemma_newest_fit(q, 0);
        session::lemma_coded_packet_read(q, cover, Seq::empty());
        let pkt = coded::coded_from(raw)->Ok_0;
        assert(raw[3] == 1);
        let events = r->Ok_0;
        let t = streams::heard(q, d, cover);
        streams::lemma_coded_idle(q, d, s, cover);
        buffer::lemma_run_end(t.buffer.symbols, t.buffer.next);
        transfer::lemma_told(
            t,
            pre.policy(),
            decoder::events_of(events@),
            post@,
            post.policy(),
        );
        assert(behind(e, data, j + 1) == q.after_coded());
    }
}

/// The packets of a symbol are what the encoder sends for it.
proof fn lemma_packets_of_symbol(
    pre: DefaultEncoder,
    data: Seq<u8>,
    out: Vec<EncoderOutput>,
    post: DefaultEncoder,
    j: nat,
)
    requires
        Encoder::submitted(pre, data, Ok(out), post),
        j < out@.len(),
    ensures
        is_packet(pre@, data, j, sender::datagrams(encoder::outputs(out@))[j as int]),
        post@ == behind(pre@, data, out@.len()),
        pre@.refusal(data) is None,
{
    let p = pre@.after_push(data);
    let plain = encoder::outputs(out@);
    let ccs = choose|ccs: Seq<NoCongestionControl>| #[trigger]
        sending::submit_output(p, plain, ccs) && ccs[0] == pre.control() && ccs.last()
            == post.control();
    assert(sending::submit_output(p, plain, ccs));
    if j == 0 {
        transfer::lemma_no_control_source(p, ccs[0], plain[0], ccs[1]);
    } else {
        send::lemma_no_control(
            p.after_coded_n((j - 1) as nat),
            p.ids(),
            ccs[j as int],
            plain[j as int],
            ccs[j as int + 1],
        );
    }
}

/// Where the packets of symbol `i` start.
spec fn offset(outs: Seq<Vec<EncoderOutput>>, i: nat) -> nat {
    all_datagrams(outs.take(i as int)).len()
}

/// The packets of symbol `i` stand behind those of the symbols before it.
proof fn lemma_offset(outs: Seq<Vec<EncoderOutput>>, i: nat)
    requires
        i <= outs.len(),
    ensures
        offset(outs, 0) == 0,
        offset(outs, outs.len()) == all_datagrams(outs).len(),
        offset(outs, i) <= all_datagrams(outs).len(),
        i < outs.len() ==> {
            let packets = sender::datagrams(encoder::outputs(outs[i as int]@));
            &&& offset(outs, i + 1) == offset(outs, i) + packets.len()
            &&& packets.len() == outs[i as int]@.len()
            &&& forall|j: int|
                0 <= j < packets.len() ==> #[trigger] packets[j] == all_datagrams(
                    outs,
                )[offset(outs, i) + j]
        },
    decreases outs.len(),
{
    assert(outs.take(0) =~= Seq::<Vec<EncoderOutput>>::empty());
    assert(outs.take(outs.len() as int) =~= outs);
    if outs.len() > 0 {
        let rest = outs.drop_last();
        let all = all_datagrams(outs);
        assert(outs.take(outs.len() - 1) =~= rest);
        if i < rest.len() {
            lemma_offset(rest, i);
            assert(rest.take(i as int) =~= outs.take(i as int));
            assert(rest.take(i as int + 1) =~= outs.take(i as int + 1));
            let packets = sender::datagrams(encoder::outputs(outs[i as int]@));
            lemma_offset(rest, i + 1);
            assert forall|j: int| 0 <= j < packets.len() implies #[trigger] packets[j] == all[offset(
                outs,
                i,
            ) + j] by {
                assert(packets[j] == all_datagrams(rest)[offset(rest, i) + j]);
            }
        }
    }
}

/// The number of ready symbols goes on with every packet.
proof fn lemma_ready_step(told: Seq<Vec<DecoderEvent>>, k: int)
    requires
        0 <= k < told.len(),
    ensures
        ready_count(told.take(k + 1)) == ready_count(told.take(k)) + receiver::ready_among(
            decoder::events_of(told[k]@),
        ).len(),
{
    assert(told.take(k + 1).drop_last() =~= told.take(k));
    assert(told.take(k + 1).last() == told[k]);
}

/// The decoder keeps up with the encoder, packet for packet.
proof fn lemma_decoder_at(
    params: EncoderParams,
    encs: Seq<DefaultEncoder>,
    data: Seq<u8>,
    outs: Seq<Vec<EncoderOutput>>,
    decs: Seq<DefaultDecoder>,
    told: Seq<Vec<DecoderEvent>>,
    i: nat,
    j: nat,
)
    requires
        encodes(encs, data, outs),
        encs[0]@ == EncoderModel::initial(params),
        params.rejection() is None,
        params.window_capacity <= 255,
        outs.len() <= u32::MAX,
        decodes(decs, all_datagrams(outs), told),
        streams::keeps_up(encs[0]@, decs[0]@, repeated(data)),
        i < outs.len() && j <= outs[i as int]@.len() || i == outs.len() && j == 0,
        offset(outs, i) + j <= told.len(),
    ensures
        streams::keeps_up(
            behind(encs[i as int]@, data, j),
            decs[offset(outs, i) + j as int]@,
            repeated(data),
        ),
        ready_count(told.take(offset(outs, i) + j as int)) == i + if j == 0 {
            0int
        } else {
            1
        },
    decreases i, j,
{
    lemma_offset(outs, i);
    if j > 0 {
        let k = (j - 1) as nat;
        let at: int = offset(outs, i) + k as int;
        let e = encs[i as int]@;
        lemma_decoder_at(params, encs, data, outs, decs, told, i, k);
        lemma_encoder_at(params, encs, data, outs, i);
        assert(Encoder::submitted(encs[i as int], data, Ok(outs[i as int]), encs[i as int + 1]));
        lemma_packets_of_symbol(encs[i as int], data, outs[i as int], encs[i as int + 1], k);
        let packets = sender::datagrams(encoder::outputs(outs[i as int]@));
        assert(packets[k as int] == all_datagrams(outs)[at]);
        assert(packet_handled(decs[at], all_datagrams(outs)[at], Ok(told[at]), decs[at + 1]));
        lemma_packet_taken(
            e,
            data,
            k,
            decs[at],
            all_datagrams(outs)[at],
            Ok(told[at]),
            decs[at + 1],
        );
        lemma_ready_step(told, at);
    } else if i > 0 {
        let h = (i - 1) as nat;
        lemma_offset(outs, h);
        let m = outs[h as int]@.len();
        assert(Encoder::submitted(encs[h as int], data, Ok(outs[h as int]), encs[h as int + 1]));
        lemma_packets_of_symbol(encs[h as int], data, outs[h as int], encs[h as int + 1], 0);
        lemma_decoder_at(params, encs, data, outs, decs, told, h, m);
    } else {
        assert(told.take(0) =~= Seq::<Vec<DecoderEvent>>::empty());
    }
}

/// Every packet is one of a symbol.
proof fn lemma_locate(outs: Seq<Vec<EncoderOutput>>, k: nat, i: nat) -> (at: (nat, nat))
    requires
        i <= outs.len(),
        k < offset(outs, i),
    ensures
        at.0 < outs.len(),
        at.1 < outs[at.0 as int]@.len(),
        k == offset(outs, at.0) + at.1,
    decreases i,
{
    lemma_offset(outs, 0);
    let h = (i - 1) as nat;
    lemma_offset(outs, h);
    if k >= offset(outs, h) {
        (h, (k - offset(outs, h)) as nat)
    } else {
        lemma_locate(outs, k, h)
    }
}

/// Every datagram that [`encode_pass`] makes is long enough for [`decode_pass`].
pub proof fn lemma_datagram_lengths(
    enc: DefaultEncoder,
    data: Seq<u8>,
    n: nat,
    wire: Vec<Vec<u8>>,
    enc_after: DefaultEncoder,
)
    requires
        encoded(enc, data, n, Ok(wire), enc_after),
    ensures
        forall|i: int| 0 <= i < wire@.len() ==> (#[trigger] wire@[i])@.len() >= 4,
{
    let (encs, outs) = choose|encs: Seq<DefaultEncoder>, outs: Seq<Vec<EncoderOutput>>|
        {
            &&& #[trigger] encodes(encs, data, outs)
            &&& encs[0] == enc
            &&& outs.len() == n
            &&& encs.last() == enc_after
            &&& packets_of(wire@) == all_datagrams(outs)
        };
    assert(encodes(encs, data, outs));
    lemma_offset(outs, outs.len());
    assert forall|i: int| 0 <= i < wire@.len() implies (#[trigger] wire@[i])@.len() >= 4 by {
        let all = all_datagrams(outs);
        assert(packets_of(wire@)[i] == wire@[i]@);
        let at = lemma_locate(outs, i as nat, outs.len());
        let h = at.0 as int;
        lemma_offset(outs, at.0);
        assert(Encoder::submitted(encs[h], data, Ok(outs[h]), encs[h + 1]));
        lemma_packets_of_symbol(encs[h], data, outs[h], encs[h + 1], at.1);
        let packets = sender::datagrams(encoder::outputs(outs[h]@));
        assert(packets[at.1 as int] == all[i]);
    }
}

/// The benchmark delivers every symbol: what [`encode_pass`] makes of `n` symbols,
/// [`decode_pass`] takes in without an error, and `n` symbols are ready.
///
/// Wider windows do not fit the wire format.
pub proof fn lemma_bench_delivers(
    params: EncoderParams,
    dec_params: DecoderParams,
    enc: DefaultEncoder,
    data: Seq<u8>,
    n: nat,
    wire: Vec<Vec<u8>>,
    enc_after: DefaultEncoder,
    dec: DefaultDecoder,
    r: Result<u128>,
    dec_after: DefaultDecoder,
)
    requires
        enc@ == EncoderModel::initial(params),
        dec@ == DecoderModel::initial(dec_params),
        params.rejection() is None,
        dec_params.rejection() is None,
        params.field == dec_params.field,
        params.symbol_size == dec_params.symbol_size,
        params.window_capacity <= 255,
        data.len() == params.symbol_size,
        n <= u32::MAX,
        encoded(enc, data, n, Ok(wire), enc_after),
        decoded(dec, packets_of(wire@), r, dec_after),
    ensures
        r matches Ok(k) && k == n,
{
    let (encs, outs) = choose|encs: Seq<DefaultEncoder>, outs: Seq<Vec<EncoderOutput>>|
        {
            &&& #[trigger] encodes(encs, data, outs)
            &&& encs[0] == enc
            &&& outs.len() == n
            &&& encs.last() == enc_after
            &&& packets_of(wire@) == all_datagrams(outs)
        };
    assert(encodes(encs, data, outs));
    let all = all_datagrams(outs);
    let (decs, told) = choose|decs: Seq<DefaultDecoder>, told: Seq<Vec<DecoderEvent>>|
        {
            &&& #[trigger] decodes(decs, all, told)
            &&& decs[0] == dec
            &&& match r {
                Ok(n) => {
                    &&& told.len() == all.len()
                    &&& decs.last() == dec_after
                    &&& n == ready_count(told)
                },
                Err(e) => {
                    &&& told.len() < all.len()
                    &&& packet_handled(decs.last(), all[told.len() as int], Err(e), dec_after)
                },
            }
        };
    assert(decodes(decs, all, told));
    streams::lemma_new_pair(params, dec_params, repeated(data));
    lemma_offset(outs, outs.len());
    match r {
        Ok(k) => {
            lemma_decoder_at(params, encs, data, outs, decs, told, n, 0);
            assert(told.take(told.len() as int) =~= told);
        },
        Err(_) => {
            let at = lemma_locate(outs, told.len(), outs.len());
            let e = encs[at.0 as int];
            lemma_decoder_at(params, encs, data, outs, decs, told, at.0, at.1);
            lemma_encoder_at(params, encs, data, outs, at.0);
            lemma_offset(outs, at.0);
            assert(Encoder::submitted(e, data, Ok(outs[at.0 as int]), encs[at.0 as int + 1]));
            lemma_packets_of_symbol(e, data, outs[at.0 as int], encs[at.0 as int + 1], at.1);
            let packets = sender::datagrams(encoder::outputs(outs[at.0 as int]@));
            assert(packets[at.1 as int] == all[told.len() as int]);
            lemma_packet_taken(
                e@,
                data,
                at.1,
                decs.last(),
                all[told.len() as int],
                Err(r->Err_0),
                dec_after,
            );
        },
    }
}

} // verus!
