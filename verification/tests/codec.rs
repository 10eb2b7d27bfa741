//! The codec's parts and the codec as a whole.
use std::collections::BTreeMap;

use bytes::Bytes;

use delp::buffers::{CoefList, IdList};
use delp::codec::decoder::buffer::SymbolBuffer;
use delp::codec::decoder::matrix::DecodingMatrix;
use delp::codec::encoder::window::EncodingWindow;
use delp::config::{DecoderConfig, EncoderConfig, Field, MatrixStrategy};
use delp::gf::simd::ops::{mul_acc_gf2_4, mul_acc_gf2_8};
use delp::wire::coded::CodedPacket;
use delp::wire::ev::coef_gen::vandermonde_coef;
use delp::wire::ev::EncodingVector;
use delp::wire::feedback::FeedbackPacket;
use delp::wire::source::SourcePacket;
use delp::{
    AnyAckPolicy, BackpressureMode, ConstantFecRate, DecoderEvent, DefaultDecoder, DefaultEncoder,
    DelpError, Encoder, EncoderOutput, LossRate, NoCongestionControl, SourceSymbolId,
};

// ── Symbol buffer ────────────────────────────────────────────────────────

fn bytes(v: u8) -> Bytes {
    Bytes::from(vec![v; 4])
}

#[test]
fn in_order_delivery() {
    let mut buf = SymbolBuffer::new(0);
    buf.insert(0, bytes(0));
    buf.insert(1, bytes(1));
    buf.insert(2, bytes(2));
    let delivered = buf.drain_deliverable();
    assert_eq!(delivered.len(), 3);
    assert_eq!(delivered[0].0, 0);
    assert_eq!(delivered[2].0, 2);
    assert_eq!(buf.next_delivery_id(), 3);
}

#[test]
fn out_of_order_held_until_gap_filled() {
    let mut buf = SymbolBuffer::new(0);
    buf.insert(0, bytes(0));
    buf.insert(2, bytes(2)); // gap at 1
    let d1 = buf.drain_deliverable();
    assert_eq!(d1.len(), 1); // only 0 delivered
    buf.insert(1, bytes(1)); // fill gap
    let d2 = buf.drain_deliverable();
    assert_eq!(d2.len(), 2); // 1 and 2 now delivered
}

#[test]
fn prune_below_advances_delivery_ptr() {
    let mut buf = SymbolBuffer::new(0);
    buf.insert(5, bytes(5));
    buf.prune_below(5);
    assert_eq!(buf.next_delivery_id(), 5);
    let d = buf.drain_deliverable();
    assert_eq!(d.len(), 1);
    assert_eq!(d[0].0, 5);
}

#[test]
fn duplicate_insert_ignored() {
    let mut buf = SymbolBuffer::new(0);
    buf.insert(0, bytes(0xAA));
    buf.insert(0, bytes(0xBB)); // duplicate
    let d = buf.drain_deliverable();
    assert_eq!(d[0].1[0], 0xAA); // first insert wins
}

// ── Encoding window ──────────────────────────────────────────────────────

fn make_bytes(v: u8) -> Bytes { Bytes::from(vec![v; 8]) }

#[test]
fn push_and_get() {
    let mut w = EncodingWindow::new(8);
    let id0 = w.push(make_bytes(0));
    let id1 = w.push(make_bytes(1));
    assert_eq!(id0, 0);
    assert_eq!(id1, 1);
    assert_eq!(w.get(0).unwrap()[0], 0);
    assert_eq!(w.get(1).unwrap()[0], 1);
}

#[test]
fn contiguous_flag_cleared_on_mid_removal() {
    let mut w = EncodingWindow::new(8);
    for i in 0..6u8 { w.push(make_bytes(i)); }
    assert!(w.is_contiguous);
    w.remove_ids(&[2, 4]);
    assert!(!w.is_contiguous);
}

#[test]
fn evict_oldest_maintains_contiguity() {
    let mut w = EncodingWindow::new(4);
    for i in 0..4u8 { w.push(make_bytes(i)); }
    w.evict_oldest();
    assert!(w.is_contiguous);
    assert_eq!(w.first_id(), Some(1));
}

#[test]
fn capacity_enforcement() {
    let mut w = EncodingWindow::new(3);
    for i in 0..3u8 { w.push(make_bytes(i)); }
    assert!(w.is_full());
}

// ── Decoding matrix ──────────────────────────────────────────────────────

fn make_ev(field: Field, source_ids: &[u32], coded_id: u32) -> EncodingVector {
    EncodingVector::vandermonde(field, coded_id, IdList::from_slice(source_ids))
}

fn compute_coded_payload(field: Field, sources: &[(u32, Vec<u8>)], coded_id: u32) -> Vec<u8> {
    let sym_size = sources[0].1.len();
    let mut payload = vec![0u8; sym_size];
    for (src_id, data) in sources {
        let c = vandermonde_coef(field, *src_id, coded_id);
        match field {
            Field::Gf2_8 => mul_acc_gf2_8(&mut payload, data, c),
            Field::Gf2_4 => mul_acc_gf2_4(&mut payload, data, c),
        }
    }
    payload
}

#[test]
fn single_erasure_recovery_gf2_8() {
    let field     = Field::Gf2_8;
    let sym_size  = 64;
    let src0      = vec![0xAAu8; sym_size];
    let src1      = vec![0xBBu8; sym_size];
    let src2      = vec![0xCCu8; sym_size];
    let sources   = vec![(0u32, src0.clone()), (1u32, src1.clone()), (2u32, src2.clone())];

    // Simulate: src1 is lost; src0, src2 received; coded_1 received
    let coded_payload = compute_coded_payload(field, &sources, 1);
    let ev = make_ev(field, &[0, 1, 2], 1);

    let mut known: BTreeMap<u32, Bytes> = BTreeMap::new();
    known.insert(0, Bytes::from(src0.clone()));
    known.insert(2, Bytes::from(src2.clone()));

    let mut matrix = DecodingMatrix::new(field, sym_size, 256);
    let recovered = matrix.add_coded(&ev, &coded_payload, &known).unwrap();

    assert_eq!(recovered.len(), 1);
    let (rid, rdata) = &recovered[0];
    assert_eq!(*rid, 1);
    assert_eq!(rdata.as_ref(), src1.as_slice());
}

#[test]
fn two_erasure_recovery_requires_two_coded() {
    let field    = Field::Gf2_8;
    let sym_size = 32;
    let src0     = (0..32u8).collect::<Vec<_>>();
    let src1     = (0..32u8).map(|x| x ^ 0xFF).collect::<Vec<_>>();
    let src2     = vec![0x55u8; 32];
    let sources  = vec![(0u32, src0.clone()), (1u32, src1.clone()), (2u32, src2.clone())];

    let c1 = compute_coded_payload(field, &sources, 1);
    let c2 = compute_coded_payload(field, &sources, 2);

    let mut known: BTreeMap<u32, Bytes> = BTreeMap::new();
    known.insert(2, Bytes::from(src2.clone()));

    let mut matrix = DecodingMatrix::new(field, sym_size, 256);
    let ev1 = make_ev(field, &[0, 1, 2], 1);
    let ev2 = make_ev(field, &[0, 1, 2], 2);

    let r1 = matrix.add_coded(&ev1, &c1, &known).unwrap();
    assert!(r1.is_empty(), "need second coded packet first");

    let r2 = matrix.add_coded(&ev2, &c2, &known).unwrap();
    assert_eq!(r2.len(), 2, "both erasures should be recovered");

    let recovered_map: BTreeMap<u32, Vec<u8>> =
        r2.into_iter().map(|(id, d)| (id, d.to_vec())).collect();
    assert_eq!(recovered_map[&0], src0);
    assert_eq!(recovered_map[&1], src1);
}

/// Full encoder→decoder round-trip with random packet loss.
///
/// Sends N source symbols + FEC coded packets through a simulated channel
/// that drops packets at a given loss rate.  Verifies that all source
/// symbols are recovered when the redundancy is sufficient.
fn round_trip_with_loss(
    field:     Field,
    n_src:     usize,
    sym_size:  usize,
    fec_rate:  f64, // e.g. 0.5 = one coded per two source
    loss_rate: f64, // e.g. 0.25 = 25 % drop
    seed:      u64,
) {

    // ── Generate source symbols ──────────────────────────────────────
    let mut rng_state = seed;
    let mut lcg = move || -> u8 {
        rng_state = rng_state.wrapping_mul(6364136223846793005)
                              .wrapping_add(1442695040888963407);
        (rng_state >> 33) as u8
    };

    let sources: Vec<Vec<u8>> = (0..n_src)
        .map(|_| (0..sym_size).map(|_| lcg()).collect())
        .collect();

    // ── Compute coded payloads (Vandermonde) ─────────────────────────
    let n_coded = (n_src as f64 * fec_rate).ceil() as usize;
    let coded_payloads: Vec<(u32, Vec<u8>)> = (1..=n_coded as u32)
        .map(|coded_id| {
            let mut payload = vec![0u8; sym_size];
            for (src_id, data) in sources.iter().enumerate() {
                let c = vandermonde_coef(field, src_id as u32, coded_id);
                match field {
                    Field::Gf2_8 => mul_acc_gf2_8(&mut payload, data, c),
                    Field::Gf2_4 => mul_acc_gf2_4(&mut payload, data, c),
                }
            }
            (coded_id, payload)
        })
        .collect();

    // ── Simulate channel: drop packets at loss_rate ───────────────────
    let mut drop_state = seed ^ 0xDEADBEEF;
    let mut should_drop = move || -> bool {
        drop_state = drop_state.wrapping_mul(2862933555777941757)
                                .wrapping_add(3037000499);
        let r = (drop_state >> 33) as f64 / u32::MAX as f64;
        r < loss_rate
    };

    let mut known: BTreeMap<u32, Bytes> = BTreeMap::new();
    let mut matrix = DecodingMatrix::new(field, sym_size, n_src + n_coded);

    // Deliver source packets (some dropped)
    for (src_id, data) in sources.iter().enumerate() {
        if !should_drop() {
            known.insert(src_id as u32, Bytes::from(data.clone()));
        }
    }

    // Deliver coded packets (some dropped)
    for (coded_id, payload) in &coded_payloads {
        if should_drop() { continue; }
        let ev = make_ev(field, &(0..n_src as u32).collect::<Vec<_>>(), *coded_id);
        let recovered = matrix.add_coded(&ev, payload, &known).unwrap();
        for (id, data) in recovered {
            known.insert(id, data);
        }
    }

    // ── Verify all source symbols are known ───────────────────────────
    for (src_id, orig) in sources.iter().enumerate() {
        let pct = (loss_rate * 100.0) as u32;
        let recovered = known.get(&(src_id as u32))
            .unwrap_or_else(|| panic!(
                "source {src_id} not recovered (loss={pct}%, seed={seed})"
            ));
        assert_eq!(recovered.as_ref(), orig.as_slice(),
            "source {src_id} data mismatch");
    }
}

#[test]
fn round_trip_no_loss_gf2_8() {
    round_trip_with_loss(Field::Gf2_8, 8, 64, 0.5, 0.0, 42);
}

/// Controlled loss: exactly 2 of 8 sources dropped, 4 coded packets all delivered.
/// With 4 coded = 4 equations and 2 unknowns, recovery is guaranteed.
#[test]
fn round_trip_2_erasures_guaranteed_recovery() {
    let field    = Field::Gf2_8;
    let n_src    = 8usize;
    let sym_size = 48usize;

    let sources: Vec<Vec<u8>> = (0..n_src)
        .map(|i| (0..sym_size).map(|j| ((i * 17 + j) as u8)).collect())
        .collect();

    // All 4 coded packets
    let coded: Vec<(u32, Vec<u8>)> = (1..=4u32).map(|cid| {
        let mut p = vec![0u8; sym_size];
        for (sid, data) in sources.iter().enumerate() {
            let c = vandermonde_coef(field, sid as u32, cid);
            mul_acc_gf2_8(&mut p, data, c);
        }
        (cid, p)
    }).collect();

    // Drop sources 3 and 5 exactly
    let mut known: BTreeMap<u32, Bytes> = BTreeMap::new();
    for i in 0..n_src {
        if i == 3 || i == 5 { continue; }
        known.insert(i as u32, Bytes::from(sources[i].clone()));
    }

    let mut matrix = DecodingMatrix::new(field, sym_size, 64);
    for (cid, payload) in &coded {
        let ev = make_ev(field, &(0..n_src as u32).collect::<Vec<_>>(), *cid);
        let rec = matrix.add_coded(&ev, payload, &known).unwrap();
        for (id, data) in rec { known.insert(id, data); }
    }

    assert_eq!(known.get(&3).map(|b| b.as_ref()), Some(sources[3].as_slice()),
        "source 3 not recovered");
    assert_eq!(known.get(&5).map(|b| b.as_ref()), Some(sources[5].as_slice()),
        "source 5 not recovered");
}

#[test]
fn round_trip_burst_loss_gf2_8() {
    // Simulate all first 4 of 8 sources dropped — FEC must recover them
    let field     = Field::Gf2_8;
    let n_src     = 8usize;
    let sym_size  = 32usize;

    let sources: Vec<Vec<u8>> = (0..n_src)
        .map(|i| vec![(i as u8).wrapping_mul(17); sym_size])
        .collect();

    // Coded payloads
    let coded: Vec<(u32, Vec<u8>)> = (1..=4u32).map(|cid| {
        let mut p = vec![0u8; sym_size];
        for (sid, data) in sources.iter().enumerate() {
            let c = vandermonde_coef(field, sid as u32, cid);
            mul_acc_gf2_8(&mut p, data, c);
        }
        (cid, p)
    }).collect();

    // Only last 4 sources received
    let mut known: BTreeMap<u32, Bytes> = BTreeMap::new();
    for i in 4..n_src {
        known.insert(i as u32, Bytes::from(sources[i].clone()));
    }

    let mut matrix = DecodingMatrix::new(field, sym_size, 64);
    for (cid, payload) in &coded {
        let ev = make_ev(field, &(0..n_src as u32).collect::<Vec<_>>(), *cid);
        let rec = matrix.add_coded(&ev, payload, &known).unwrap();
        for (id, data) in rec { known.insert(id, data); }
    }

    for (sid, orig) in sources.iter().enumerate() {
        let got = known.get(&(sid as u32))
            .unwrap_or_else(|| panic!("source {sid} not recovered"));
        assert_eq!(got.as_ref(), orig.as_slice());
    }
}

#[test]
fn redundant_equation_silently_discarded() {
    let field    = Field::Gf2_8;
    let sym_size = 16;
    let src0     = vec![1u8; 16];
    let sources  = vec![(0u32, src0.clone())];

    let c1 = compute_coded_payload(field, &sources, 1);
    let ev = make_ev(field, &[0], 1);
    let mut known: BTreeMap<u32, Bytes> = BTreeMap::new();

    let mut matrix = DecodingMatrix::new(field, sym_size, 256);
    let r1 = matrix.add_coded(&ev, &c1, &known).unwrap();
    assert_eq!(r1.len(), 1);

    // Submit same equation again → redundant
    known.insert(0, r1[0].1.clone());
    let r2 = matrix.add_coded(&ev, &c1, &known).unwrap();
    assert!(r2.is_empty());
}

// ── Encoder ──────────────────────────────────────────────────────────────

fn make_encoder(sym_size: usize, fec_numer: usize, fec_denom: usize) -> DefaultEncoder {
    let cfg = EncoderConfig::builder(sym_size)
        .window_capacity(32)
        .fec_rate(fec_numer, fec_denom)
        .build()
        .unwrap();
    DefaultEncoder::with_defaults(cfg)
}

#[test]
fn submit_returns_source_packet() {
    let mut enc = make_encoder(64, 0, 1); // FEC disabled
    let data = Bytes::from(vec![0xABu8; 64]);
    let out = enc.submit_source(data).unwrap();
    assert_eq!(out.len(), 1);
    assert!(matches!(out[0], EncoderOutput::Source(_)));
}

#[test]
fn submit_returns_coded_packet_at_rate() {
    // Build encoder explicitly with 1:1 FEC rate (not using DefaultEncoder::with_defaults)
    let cfg = EncoderConfig::builder(64)
        .window_capacity(32)
        .fec_rate(1, 1)
        .build()
        .unwrap();
    let mut enc = Encoder::new(
        cfg,
        AnyAckPolicy,
        NoCongestionControl,
        ConstantFecRate::new(1, 1),
    );
    let data = Bytes::from(vec![0u8; 64]);
    let out = enc.submit_source(data).unwrap();
    assert_eq!(out.len(), 2);
    assert!(matches!(out[0], EncoderOutput::Source(_)));
    assert!(matches!(out[1], EncoderOutput::Coded(_)));
}

#[test]
fn symbol_size_mismatch_error() {
    let mut enc = make_encoder(64, 0, 1);
    let result = enc.submit_source(Bytes::from(vec![0u8; 32]));
    assert!(matches!(result, Err(DelpError::SymbolSizeMismatch { .. })));
}

#[test]
fn window_full_reject() {
    let cfg = EncoderConfig::builder(8)
        .window_capacity(2)
        .fec_rate(0, 1)
        .build()
        .unwrap();
    let mut enc = DefaultEncoder::with_defaults(cfg);
    enc.submit_source(Bytes::from(vec![1u8; 8])).unwrap();
    enc.submit_source(Bytes::from(vec![2u8; 8])).unwrap();
    let result = enc.submit_source(Bytes::from(vec![3u8; 8]));
    assert!(matches!(result, Err(DelpError::WindowFull { .. })));
}

#[test]
fn coded_payload_length_matches_symbol_size() {
    let mut enc = make_encoder(128, 1, 1);
    for _ in 0..4 {
        enc.submit_source(Bytes::from(vec![0xFFu8; 128])).unwrap();
    }
    if let Ok(Some(EncoderOutput::Coded(pkt))) = enc.generate_coded() {
        assert!(!pkt.is_empty());
    }
}

/// Vandermonde wraps coded_id beyond the per-cycle limit without
/// erroring — sliding-window operation keeps wrapped IDs distinct.
#[test]
fn vandermonde_wraps_past_cycle_without_error() {
    let cfg = EncoderConfig::builder(8)
        .window_capacity(32)
        .fec_rate(0, 1)
        .build()
        .unwrap();
    let mut enc = DefaultEncoder::with_defaults(cfg);
    enc.submit_source(Bytes::from(vec![0xABu8; 8])).unwrap();

    let cycle = enc.coded_id_cycle();
    // Generate 3× the cycle — every call must succeed.
    for i in 0..(cycle * 3) {
        enc.generate_coded()
            .unwrap_or_else(|e| panic!("packet {i} failed: {e:?}"))
            .expect("window should be non-empty");
    }
    assert_eq!(enc.coded_ids_used(), (cycle * 3) as u64);
    // Vandermonde never advances the generation counter.
    assert_eq!(enc.generation(), 0);
}

/// Cauchy advances the generation counter when coded_id wraps,
/// rotating the y-point set so the session can run indefinitely.
#[test]
fn cauchy_generation_rotates_on_wrap() {
    let cfg = EncoderConfig::builder(8)
        .window_capacity(32)
        .matrix_strategy(MatrixStrategy::Cauchy)
        .fec_rate(0, 1)
        .build()
        .unwrap();
    let mut enc = DefaultEncoder::with_defaults(cfg);
    enc.submit_source(Bytes::from(vec![0x42u8; 8])).unwrap();

    // 127 packets — still generation 0 (next_coded_id 0..127 used).
    for _ in 0..127u32 {
        enc.generate_coded().unwrap().unwrap();
    }
    assert_eq!(
        enc.generation(),
        0,
        "first cycle should keep generation at 0"
    );

    // 128th packet uses coded_id=127, then wraps and bumps generation.
    enc.generate_coded().unwrap().unwrap();
    assert_eq!(
        enc.generation(),
        1,
        "wrap after one full cycle should bump generation to 1"
    );

    // Six more full cycles → generation reaches 7.
    for _ in 0..(128u32 * 6) {
        enc.generate_coded().unwrap().unwrap();
    }
    assert_eq!(enc.generation(), 7);
    assert_eq!(enc.coded_ids_used(), 128u64 * 7);
}

/// Wire-format round-trip: a Cauchy coded packet generated after
/// generation rotation must serialise / parse cleanly with the
/// generation byte preserved.
#[test]
fn cauchy_generation_survives_wire_round_trip() {
    let cfg = EncoderConfig::builder(8)
        .window_capacity(32)
        .matrix_strategy(MatrixStrategy::Cauchy)
        .fec_rate(0, 1)
        .build()
        .unwrap();
    let mut enc = DefaultEncoder::with_defaults(cfg);
    enc.submit_source(Bytes::from(vec![0x55u8; 8])).unwrap();

    // Burn through one cycle to roll generation to 1.
    for _ in 0..128u32 {
        enc.generate_coded().unwrap().unwrap();
    }
    assert_eq!(enc.generation(), 1);

    // Next coded packet carries generation=1.
    if let Some(EncoderOutput::Coded(raw)) = enc.generate_coded().unwrap() {
        let parsed = CodedPacket::parse(&raw).unwrap();
        assert_eq!(parsed.ev.generation, 1, "parsed EV must carry generation=1");
        assert!(parsed.ev.has_explicit_coefs());
    } else {
        panic!("expected Coded output");
    }
}

// ── Decoder ──────────────────────────────────────────────────────────────

fn run_round_trip(
    sym_size: usize,
    n_symbols: usize,
    field: Field,
    fec_numer: usize,
    fec_denom: usize,
    drop_indices: &[usize],
) -> Vec<(SourceSymbolId, Bytes)> {
    let enc_cfg = EncoderConfig::builder(sym_size)
        .field(field)
        .window_capacity(64)
        .fec_rate(fec_numer, fec_denom)
        .build()
        .unwrap();
    let dec_cfg = DecoderConfig::builder(sym_size)
        .field(field)
        .feedback_every(1000) // suppress feedback in tests
        .build()
        .unwrap();

    let mut enc = DefaultEncoder::with_defaults(enc_cfg);
    let mut dec = DefaultDecoder::with_defaults(dec_cfg);

    let payloads: Vec<Vec<u8>> = (0..n_symbols)
        .map(|i| vec![(i & 0xFF) as u8; sym_size])
        .collect();

    let mut all_pkts: Vec<Vec<u8>> = Vec::new();
    for payload in &payloads {
        let out = enc.submit_source(Bytes::copy_from_slice(payload)).unwrap();
        for item in out {
            match item {
                EncoderOutput::Source(b) | EncoderOutput::Coded(b) => all_pkts.push(b),
            }
        }
    }

    let mut delivered: Vec<(SourceSymbolId, Bytes)> = Vec::new();
    for (i, pkt) in all_pkts.iter().enumerate() {
        if drop_indices.contains(&i) { continue; }
        // Determine type from header byte 3
        let pkt_type = pkt[3];
        let events = if pkt_type == 0x00 {
            let sp = SourcePacket::parse(pkt).unwrap();
            dec.handle_source(&sp).unwrap()
        } else {
            let cp = CodedPacket::parse(pkt).unwrap();
            dec.handle_coded(&cp).unwrap()
        };
        for ev in events {
            if let DecoderEvent::SourceReady { id, data } = ev {
                delivered.push((id, data));
            }
        }
    }
    delivered.sort_by_key(|(id, _)| *id);
    delivered
}

#[test]
fn no_loss_full_delivery() {
    let delivered = run_round_trip(64, 8, Field::Gf2_8, 0, 1, &[]);
    assert_eq!(delivered.len(), 8);
    for (i, (id, data)) in delivered.iter().enumerate() {
        assert_eq!(*id, i as u32);
        assert_eq!(data[0], (i & 0xFF) as u8);
    }
}

#[test]
fn single_erasure_recovered_with_fec() {
    // Drop the 3rd source packet (index 2*2=4 with 1:1 FEC→ alternate src/coded)
    // With 1:1 FEC we have pkts: [src0, cod0, src1, cod1, src2, cod2, ...]
    // Drop src1 (index 2) — cod1 recovers it
    let delivered = run_round_trip(64, 4, Field::Gf2_8, 1, 1, &[2]);
    // All 4 source symbols should be delivered
    assert_eq!(delivered.len(), 4, "single erasure should be recovered");
}

#[test]
fn gf2_4_no_loss() {
    let delivered = run_round_trip(64, 6, Field::Gf2_4, 0, 1, &[]);
    assert_eq!(delivered.len(), 6);
}

#[test]
fn source_size_mismatch_rejected() {
    let cfg = DecoderConfig::builder(64).build().unwrap();
    let mut dec = DefaultDecoder::with_defaults(cfg);
    // Craft a source packet with wrong payload size
    let raw = SourcePacket::serialise(0, &vec![0u8; 32], &[], None);
    let sp  = SourcePacket::parse(&raw).unwrap();
    let err = dec.handle_source(&sp);
    assert!(matches!(err, Err(DelpError::SymbolSizeMismatch { .. })));
}

// ── Edges ────────────────────────────────────────────────────────────────

fn raw_of(out: EncoderOutput) -> Vec<u8> {
    match out {
        EncoderOutput::Source(b) | EncoderOutput::Coded(b) => b,
    }
}

#[test]
fn symbols_are_looked_up() {
    let mut buf = SymbolBuffer::new(3);
    assert!(buf.is_empty());
    assert_eq!(buf.highest_id(), None);
    buf.insert(7, bytes(7));
    buf.insert(5, bytes(5));
    buf.insert(2, bytes(2)); // below the delivery point
    assert_eq!(buf.len(), 2);
    assert!(buf.contains(5));
    assert!(!buf.contains(2));
    assert_eq!(buf.get(7).unwrap()[0], 7);
    assert_eq!(buf.highest_id(), Some(7));
    assert_eq!(buf.ids_from(5), vec![5, 7]);
    assert_eq!(buf.ids_from(6), vec![7]);
}

#[test]
fn removal_keeps_the_rest_in_order() {
    let mut w = EncodingWindow::new(8);
    for i in 0..5u8 {
        w.push(make_bytes(i));
    }
    w.remove_ids(&[0, 1]);
    assert!(w.is_contiguous);
    assert_eq!(w.id_slice(), vec![2, 3, 4]);
    w.remove_ids(&[3]);
    assert_eq!(w.id_slice(), vec![2, 4]);
    assert_eq!((w.first_id(), w.last_id()), (Some(2), Some(4)));
    assert!(w.get(3).is_none());
    assert_eq!(w.push(make_bytes(9)), 5);
    assert_eq!(w.next_id(), 6);
}

#[test]
fn a_known_source_completes_rows() {
    let sources = vec![(0u32, vec![1u8; 8]), (1u32, vec![2u8; 8]), (2u32, vec![3u8; 8])];
    let mut matrix = DecodingMatrix::new(Field::Gf2_8, 8, 16);
    let known: BTreeMap<u32, Bytes> = BTreeMap::new();
    for coded_id in 1..=2u32 {
        let payload = compute_coded_payload(Field::Gf2_8, &sources, coded_id);
        let ev = make_ev(Field::Gf2_8, &[0, 1, 2], coded_id);
        assert!(matrix.add_coded(&ev, &payload, &known).unwrap().is_empty());
    }
    assert_eq!(matrix.row_count(), 2);
    let got = matrix.add_known_source(1, Bytes::from(vec![2u8; 8]), &known).unwrap();
    let ids: Vec<u32> = got.iter().map(|p| p.0).collect();
    assert_eq!(ids, vec![0, 2]);
    assert_eq!(got[0].1.as_ref(), &[1u8; 8]);
    assert_eq!(got[1].1.as_ref(), &[3u8; 8]);
    assert_eq!(matrix.row_count(), 0);
}

#[test]
fn the_last_id_is_solved() {
    let ev = EncodingVector::explicit(
        Field::Gf2_8,
        0,
        IdList::from_slice(&[u32::MAX]),
        CoefList::from_slice(&[1]),
    );
    let known: BTreeMap<u32, Bytes> = BTreeMap::new();
    let mut matrix = DecodingMatrix::new(Field::Gf2_8, 8, 16);
    let got = matrix.add_coded(&ev, &[7u8; 8], &known).unwrap();
    assert_eq!(got.len(), 1);
    assert_eq!(got[0].0, u32::MAX);
    assert_eq!(got[0].1.as_ref(), &[7u8; 8]);

    // together with its neighbour, which becomes known afterwards
    let pair = EncodingVector::explicit(
        Field::Gf2_8,
        1,
        IdList::from_slice(&[u32::MAX - 1, u32::MAX]),
        CoefList::from_slice(&[1, 2]),
    );
    assert!(matrix.add_coded(&pair, &[0u8; 8], &known).unwrap().is_empty());
    assert_eq!(matrix.row_count(), 1);
    let got = matrix.add_known_source(u32::MAX - 1, Bytes::from(vec![6u8; 8]), &known).unwrap();
    assert_eq!(got.len(), 1);
    assert_eq!(got[0].0, u32::MAX);
    assert_eq!(got[0].1.as_ref(), &[3u8; 8]);

    let raw = CodedPacket::serialise(0, &ev, &[7u8; 8], &[], None);
    let pkt = CodedPacket::parse(&raw).unwrap();
    let mut dec = DefaultDecoder::with_defaults(DecoderConfig::builder(8).build().unwrap());
    assert!(dec.handle_coded(&pkt).is_ok());
    assert_eq!(dec.packets_received(), 1);
}

#[test]
fn the_contiguity_mark_follows_the_window() {
    let mut w = EncodingWindow::new(8);
    for i in 0..4u8 {
        w.push(make_bytes(i));
    }
    w.remove_ids(&[1]);
    assert!(!w.is_contiguous);
    w.evict_oldest();
    assert_eq!(w.id_slice(), vec![2, 3]);
    assert!(w.is_contiguous);
    assert!(w.is_contiguous());
}

#[test]
fn targeted_packets_list_the_window_in_order() {
    let mut enc = make_encoder(4, 0, 1);
    for i in 0..10u8 {
        enc.submit_source(Bytes::from(vec![i; 4])).unwrap();
    }
    for (wanted, listed) in [
        (vec![8u32, 5], vec![5u32, 8]),
        (vec![5, 5], vec![5]),
        (vec![99, 7, 3, 7], vec![3, 7]),
    ] {
        let raw = raw_of(enc.generate_coded_targeted(&wanted).unwrap().unwrap());
        let pkt = CodedPacket::parse(&raw).unwrap();
        assert_eq!(pkt.ev.source_ids.as_slice(), listed.as_slice());
        assert_eq!(pkt.window_start(), Some(0));
    }
    assert!(enc.generate_coded_targeted(&[99]).unwrap().is_none());
}

#[test]
fn all_coded_packets_are_targeted_ones() {
    let filled = || {
        let mut enc = make_encoder(4, 0, 1);
        for i in 0..6u8 {
            enc.submit_source(Bytes::from(vec![i; 4])).unwrap();
        }
        enc
    };
    let (mut a, mut b) = (filled(), filled());
    let plain = raw_of(a.generate_coded().unwrap().unwrap());
    let same = raw_of(b.generate_coded_targeted(&[5, 0, 1, 2, 3, 4]).unwrap().unwrap());
    assert_eq!(plain, same);
    let recent = raw_of(a.generate_coded_recent(2).unwrap().unwrap());
    let same = raw_of(b.generate_coded_targeted(&[4, 5]).unwrap().unwrap());
    assert_eq!(recent, same);
    let unacked = raw_of(a.generate_coded_for_receiver(9).unwrap().unwrap());
    let same = raw_of(b.generate_coded_targeted(&[0, 1, 2, 3, 4, 5]).unwrap().unwrap());
    assert_eq!(unacked, same);
}

#[test]
fn generations_count_the_cycles() {
    let cfg = EncoderConfig::builder(4)
        .field(Field::Gf2_4)
        .matrix_strategy(MatrixStrategy::Cauchy)
        .window_capacity(4)
        .build()
        .unwrap();
    let mut enc = DefaultEncoder::with_defaults(cfg);
    enc.submit_source(Bytes::from(vec![1u8; 4])).unwrap();
    for n in 0..2000u32 {
        assert_eq!(enc.generation() as u32, n / 7 % 256);
        let raw = raw_of(enc.generate_coded().unwrap().unwrap());
        let pkt = CodedPacket::parse(&raw).unwrap();
        assert_eq!(pkt.coded_symbol_id, n % 7);
    }
}

#[test]
fn gaps_are_those_of_the_window() {
    let cfg = EncoderConfig::builder(4)
        .window_capacity(4)
        .fec_rate(0, 1)
        .backpressure(BackpressureMode::EvictOldest)
        .build()
        .unwrap();
    let mut enc = DefaultEncoder::with_defaults(cfg);
    let mut dec = DefaultDecoder::with_defaults(
        DecoderConfig::builder(4).feedback_every(1000).build().unwrap(),
    );
    for i in 0..4u8 {
        enc.submit_source(Bytes::from(vec![i; 4])).unwrap();
    }
    // the window still starts at 0
    let raw = raw_of(enc.generate_coded_recent(2).unwrap().unwrap());
    let pkt = CodedPacket::parse(&raw).unwrap();
    assert_eq!(pkt.ev.source_ids.as_slice(), &[2, 3]);
    assert_eq!(pkt.window_start(), Some(0));
    assert!(dec.handle_coded(&pkt).unwrap().is_empty());
    assert_eq!(dec.next_delivery_id(), 0);
    // now it starts at 2
    for i in 4..6u8 {
        enc.submit_source(Bytes::from(vec![i; 4])).unwrap();
    }
    let raw = raw_of(enc.generate_coded_recent(1).unwrap().unwrap());
    let pkt = CodedPacket::parse(&raw).unwrap();
    assert_eq!(pkt.ev.source_ids.as_slice(), &[5]);
    assert_eq!(pkt.window_start(), Some(2));
    let events = dec.handle_coded(&pkt).unwrap();
    assert!(matches!(
        events[..],
        [DecoderEvent::UnrecoverableGap { first_missing: 0, count: 2 }]
    ));
    assert_eq!(dec.next_delivery_id(), 2);
}

#[test]
fn coded_payloads_are_mixtures() {
    let mut enc = make_encoder(2, 0, 1);
    enc.submit_source(Bytes::from(vec![1u8, 2])).unwrap();
    enc.submit_source(Bytes::from(vec![4u8, 8])).unwrap();
    let raw = raw_of(enc.generate_coded().unwrap().unwrap());
    let pkt = CodedPacket::parse(&raw).unwrap();
    assert_eq!(pkt.coded_symbol_id, 1);
    assert_eq!(pkt.ev.source_ids.as_slice(), &[0, 1]);
    // 1 * 1 + 2 * 4 and 1 * 2 + 2 * 8
    assert_eq!(pkt.payload, &[9, 18]);
}

#[test]
fn an_empty_window_has_no_coded_packet() {
    let mut enc = make_encoder(4, 0, 1);
    assert!(enc.generate_coded().unwrap().is_none());
    assert!(enc.generate_coded_recent(3).unwrap().is_none());
    assert!(enc.generate_coded_for_receiver(1).unwrap().is_none());
    assert_eq!(enc.coded_ids_used(), 0);
}

#[test]
fn eviction_slides_the_window() {
    let cfg = EncoderConfig::builder(4)
        .window_capacity(2)
        .fec_rate(0, 1)
        .backpressure(BackpressureMode::EvictOldest)
        .build()
        .unwrap();
    let mut enc = DefaultEncoder::with_defaults(cfg);
    for i in 0..5u8 {
        enc.submit_source(Bytes::from(vec![i; 4])).unwrap();
    }
    assert_eq!(enc.window_size(), 2);
    assert_eq!(enc.next_source_id(), 5);
    let raw = raw_of(enc.generate_coded().unwrap().unwrap());
    assert_eq!(CodedPacket::parse(&raw).unwrap().ev.source_ids.as_slice(), &[3, 4]);
}

#[test]
fn feedback_empties_the_window() {
    let mut enc = make_encoder(4, 0, 1);
    for i in 0..4u8 {
        enc.submit_source(Bytes::from(vec![i; 4])).unwrap();
    }
    enc.handle_feedback(9, &FeedbackPacket::build(2, 0, 0, LossRate::zero(), &[3]));
    // 0 and 1 lie below the first id, 3 is acknowledged
    assert_eq!(enc.window_size(), 1);
    let raw = raw_of(enc.generate_coded().unwrap().unwrap());
    assert_eq!(CodedPacket::parse(&raw).unwrap().ev.source_ids.as_slice(), &[2]);
}

#[test]
fn coded_ids_cycle() {
    for (field, strategy, cycle) in [
        (Field::Gf2_8, MatrixStrategy::Vandermonde, 254u32),
        (Field::Gf2_4, MatrixStrategy::Vandermonde, 14),
        (Field::Gf2_8, MatrixStrategy::Cauchy, 128),
        (Field::Gf2_4, MatrixStrategy::Cauchy, 7),
    ] {
        let cfg = EncoderConfig::builder(4)
            .field(field)
            .matrix_strategy(strategy)
            .window_capacity(4)
            .build()
            .unwrap();
        let mut enc = DefaultEncoder::with_defaults(cfg);
        assert_eq!(enc.coded_id_cycle(), cycle);
        assert_eq!(enc.coded_id_limit(), cycle);
        enc.submit_source(Bytes::from(vec![1u8; 4])).unwrap();
        let mut seen = Vec::new();
        for _ in 0..cycle {
            let raw = raw_of(enc.generate_coded().unwrap().unwrap());
            seen.push(CodedPacket::parse(&raw).unwrap().coded_symbol_id);
        }
        let mut distinct = seen.clone();
        distinct.sort();
        distinct.dedup();
        assert_eq!(distinct.len(), cycle as usize);
        let raw = raw_of(enc.generate_coded().unwrap().unwrap());
        assert_eq!(CodedPacket::parse(&raw).unwrap().coded_symbol_id, seen[0]);
        assert!(!enc.coded_id_exhausted());
    }
}

#[test]
fn feedback_tells_what_is_missing() {
    let cfg = DecoderConfig::builder(4).feedback_every(2).build().unwrap();
    let mut dec = DefaultDecoder::with_defaults(cfg);
    let first = SourcePacket::serialise(0, &[1; 4], &[], None);
    let third = SourcePacket::serialise(2, &[3; 4], &[], None);
    let events = dec.handle_source(&SourcePacket::parse(&first).unwrap()).unwrap();
    assert_eq!(events.len(), 1);
    let events = dec.handle_source(&SourcePacket::parse(&third).unwrap()).unwrap();
    assert_eq!(events.len(), 1);
    let raw = match &events[0] {
        DecoderEvent::SendFeedback(raw) => raw.clone(),
        _ => panic!("expected feedback"),
    };
    let pkt = FeedbackPacket::parse(&raw).unwrap();
    assert_eq!(pkt.first_src_id, 1);
    assert_eq!(pkt.nb_missing_src, 1);
    assert_eq!(pkt.acked_ids(), vec![2]);
    assert_eq!(dec.next_delivery_id(), 1);
    assert_eq!(dec.packets_received(), 2);
    assert_eq!(dec.loss_rate(), LossRate::new(0, 2));
    let later = SourcePacket::serialise(9, &[9; 4], &[], None);
    dec.handle_source(&SourcePacket::parse(&later).unwrap()).unwrap();
    assert_eq!(dec.loss_rate(), LossRate::new(6, 9));
}

#[test]
fn acknowledged_symbols_need_no_cover() {
    let mut enc = make_encoder(4, 0, 1);
    let cfg = DecoderConfig::builder(4).feedback_every(1).build().unwrap();
    let mut dec = DefaultDecoder::with_defaults(cfg);
    for i in 0..3u8 {
        for out in enc.submit_source(Bytes::from(vec![i; 4])).unwrap() {
            let raw = raw_of(out);
            for event in dec.handle_source(&SourcePacket::parse(&raw).unwrap()).unwrap() {
                if let DecoderEvent::SendFeedback(raw) = event {
                    enc.handle_feedback(1, &FeedbackPacket::parse(&raw).unwrap());
                }
            }
        }
    }
    assert_eq!(dec.next_delivery_id(), 3);
    assert_eq!(enc.window_size(), 0);
}

#[test]
fn feedback_is_due_after_the_period() {
    for (every, period) in [(1u32, 1usize), (3, 3), (16, 16), (0, 16)] {
        let cfg = DecoderConfig::builder(4).feedback_every(every).build().unwrap();
        let mut dec = DefaultDecoder::with_defaults(cfg);
        for n in 1..=2 * period {
            let raw = SourcePacket::serialise(n as u32, &[1; 4], &[], None);
            let events = dec.handle_source(&SourcePacket::parse(&raw).unwrap()).unwrap();
            assert_eq!(!events.is_empty(), n % period == 0);
        }
    }
}
