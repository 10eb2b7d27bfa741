//! What holds of every session, on many pseudo-random ones.
use bytes::Bytes;

use delp::codec::decoder::DefaultDecoder;
use delp::codec::encoder::{DefaultEncoder, EncoderOutput};
use delp::codec::DecoderEvent;
use delp::config::{BackpressureMode, DecoderConfig, EncoderConfig, Field, MatrixStrategy};
use delp::gf::simd::ops::{mul_acc_gf2_4, mul_acc_gf2_8, mul_scale_gf2_4, mul_scale_gf2_8};
use delp::gf::simd::{
    mul_acc_gf2_4_reference, mul_acc_gf2_8_reference, mul_scale_gf2_8_reference,
};
use delp::wire::{coded::CodedPacket, source::SourcePacket};

struct Lcg {
    state: u64,
}

impl Lcg {
    fn new(seed: u64) -> Self {
        Self { state: seed | 1 }
    }

    fn next_u32(&mut self) -> u32 {
        self.state =
            self.state.wrapping_mul(6364136223846793005).wrapping_add(1442695040888963407);
        (self.state >> 33) as u32
    }

    /// A number from `low` to `high`, both of them included.
    fn pick(&mut self, low: u32, high: u32) -> u32 {
        low + self.next_u32() % (high - low + 1)
    }

    fn bytes(&mut self, len: usize) -> Vec<u8> {
        (0..len).map(|_| self.next_u32() as u8).collect()
    }
}

fn run_pipeline(
    field: Field,
    strategy: MatrixStrategy,
    sym_size: usize,
    n_symbols: usize,
    fec: (usize, usize),
    drop_pct: u32,
    seed: u64,
) -> (Vec<(u32, Bytes)>, Vec<Vec<u8>>) {
    let enc_cfg = EncoderConfig::builder(sym_size)
        .field(field)
        .matrix_strategy(strategy)
        .window_capacity(n_symbols.max(1))
        .fec_rate(fec.0, fec.1)
        .build()
        .unwrap();
    let dec_cfg =
        DecoderConfig::builder(sym_size).field(field).feedback_every(u32::MAX).build().unwrap();
    let mut enc = DefaultEncoder::with_defaults(enc_cfg);
    let mut dec = DefaultDecoder::with_defaults(dec_cfg);

    let payloads: Vec<Vec<u8>> = (0..n_symbols)
        .map(|i| {
            (0..sym_size)
                .map(|j| ((i.wrapping_mul(31) + j.wrapping_mul(7)) & 0xFF) as u8)
                .collect()
        })
        .collect();
    let mut wire = Vec::new();
    for p in &payloads {
        for out in enc.submit_source(Bytes::copy_from_slice(p)).unwrap() {
            wire.push(match out {
                EncoderOutput::Source(b) | EncoderOutput::Coded(b) => b,
            });
        }
    }

    let mut rng = Lcg::new(seed);
    let mut delivered = Vec::new();
    for pkt in &wire {
        if rng.next_u32() % 100 < drop_pct {
            continue;
        }
        let events = if pkt[3] == 0x00 {
            let sp = SourcePacket::parse(pkt).unwrap();
            dec.handle_source(&sp).unwrap()
        } else {
            let cp = CodedPacket::parse(pkt).unwrap();
            dec.handle_coded(&cp).unwrap()
        };
        for ev in events {
            if let DecoderEvent::SourceReady { id, data } = ev {
                delivered.push((id, data));
            }
        }
    }
    (delivered, payloads)
}

fn assert_true_and_ordered(delivered: &[(u32, Bytes)], expected: &[Vec<u8>]) {
    for w in delivered.windows(2) {
        assert!(w[0].0 < w[1].0, "out-of-order delivery: {} before {}", w[0].0, w[1].0);
    }
    for (id, data) in delivered {
        assert_eq!(
            data.as_ref(),
            expected[*id as usize].as_slice(),
            "corrupt payload at id={}",
            id
        );
    }
}

#[test]
fn lossless_round_trip_delivers_all() {
    let mut rng = Lcg::new(11);
    for _ in 0..80 {
        let n = rng.pick(1, 32) as usize;
        let (delivered, expected) = run_pipeline(
            Field::Gf2_8,
            MatrixStrategy::Vandermonde,
            rng.pick(16, 512) as usize,
            n,
            (rng.pick(0, 2) as usize, rng.pick(1, 4) as usize),
            0,
            0,
        );
        assert_eq!(delivered.len(), n);
        assert_true_and_ordered(&delivered, &expected);
    }
}

#[test]
fn pure_fec_recovery_with_1to1() {
    let mut rng = Lcg::new(12);
    for _ in 0..80 {
        let sym_size = rng.pick(16, 256) as usize;
        let n = rng.pick(1, 24) as usize;
        let enc_cfg = EncoderConfig::builder(sym_size)
            .matrix_strategy(MatrixStrategy::Vandermonde)
            .window_capacity(n)
            .fec_rate(1, 1)
            .build()
            .unwrap();
        let dec_cfg =
            DecoderConfig::builder(sym_size).feedback_every(u32::MAX).build().unwrap();
        let mut enc = DefaultEncoder::with_defaults(enc_cfg);
        let mut dec = DefaultDecoder::with_defaults(dec_cfg);
        let payloads: Vec<Vec<u8>> = (0..n).map(|_| rng.bytes(sym_size)).collect();
        let mut delivered = Vec::new();
        for p in &payloads {
            for out in enc.submit_source(Bytes::copy_from_slice(p)).unwrap() {
                if let EncoderOutput::Coded(raw) = out {
                    let cp = CodedPacket::parse(&raw).unwrap();
                    for ev in dec.handle_coded(&cp).unwrap() {
                        if let DecoderEvent::SourceReady { id, data } = ev {
                            delivered.push((id, data));
                        }
                    }
                }
            }
        }
        assert_eq!(delivered.len(), n);
        assert_true_and_ordered(&delivered, &payloads);
    }
}

/// Whatever source packets are lost, the coded packet behind each makes up for it.
#[test]
fn every_symbol_arrives_at_once() {
    let mut rng = Lcg::new(18);
    for strategy in [MatrixStrategy::Vandermonde, MatrixStrategy::Cauchy] {
        let cfg = EncoderConfig::builder(20)
            .matrix_strategy(strategy)
            .window_capacity(9)
            .fec_rate(1, 1)
            .backpressure(BackpressureMode::EvictOldest)
            .build()
            .unwrap();
        let mut enc = DefaultEncoder::with_defaults(cfg);
        let dec_cfg = DecoderConfig::builder(20).feedback_every(u32::MAX).build().unwrap();
        let mut dec = DefaultDecoder::with_defaults(dec_cfg);
        for id in 0..300u32 {
            let data = rng.bytes(20);
            let mut delivered = Vec::new();
            let lost = rng.pick(0, 1) == 1;
            for out in enc.submit_source(Bytes::copy_from_slice(&data)).unwrap() {
                let events = match out {
                    EncoderOutput::Source(_) if lost => Vec::new(),
                    EncoderOutput::Source(raw) => {
                        dec.handle_source(&SourcePacket::parse(&raw).unwrap()).unwrap()
                    }
                    EncoderOutput::Coded(raw) => {
                        dec.handle_coded(&CodedPacket::parse(&raw).unwrap()).unwrap()
                    }
                };
                for ev in events {
                    if let DecoderEvent::SourceReady { id, data } = ev {
                        delivered.push((id, data.to_vec()));
                    }
                }
            }
            assert_eq!(delivered, vec![(id, data)]);
        }
    }
}

#[test]
fn never_corrupt_under_random_loss() {
    let mut rng = Lcg::new(13);
    for _ in 0..80 {
        let (delivered, expected) = run_pipeline(
            Field::Gf2_8,
            MatrixStrategy::Vandermonde,
            rng.pick(16, 256) as usize,
            rng.pick(1, 20) as usize,
            (1, 1),
            rng.pick(0, 80),
            rng.next_u32() as u64,
        );
        assert_true_and_ordered(&delivered, &expected);
    }
}

#[test]
fn cauchy_never_corrupt_under_random_loss() {
    let mut rng = Lcg::new(14);
    for _ in 0..80 {
        let (delivered, expected) = run_pipeline(
            Field::Gf2_8,
            MatrixStrategy::Cauchy,
            rng.pick(16, 256) as usize,
            rng.pick(1, 8) as usize,
            (1, 1),
            rng.pick(0, 70),
            rng.next_u32() as u64,
        );
        assert_true_and_ordered(&delivered, &expected);
    }
}

#[test]
fn gf2_4_never_corrupt() {
    let mut rng = Lcg::new(15);
    for _ in 0..80 {
        let (delivered, expected) = run_pipeline(
            Field::Gf2_4,
            MatrixStrategy::Vandermonde,
            rng.pick(16, 128) as usize,
            rng.pick(1, 8) as usize,
            (1, 1),
            rng.pick(0, 60),
            rng.next_u32() as u64,
        );
        assert_true_and_ordered(&delivered, &expected);
    }
}

/// Any number of losses is made up for by as many coded packets of one cycle.
#[test]
fn cauchy_makes_up_for_every_loss() {
    let mut rng = Lcg::new(16);
    for field in [Field::Gf2_8, Field::Gf2_4] {
        let n: usize = if field == Field::Gf2_8 { 20 } else { 7 };
        for _ in 0..40 {
            let cfg = EncoderConfig::builder(24)
                .field(field)
                .matrix_strategy(MatrixStrategy::Cauchy)
                .window_capacity(n)
                .fec_rate(0, 1)
                .build()
                .unwrap();
            let mut enc = DefaultEncoder::with_defaults(cfg);
            let dec_cfg =
                DecoderConfig::builder(24).field(field).feedback_every(u32::MAX).build().unwrap();
            let mut dec = DefaultDecoder::with_defaults(dec_cfg);
            let payloads: Vec<Vec<u8>> = (0..n).map(|_| rng.bytes(24)).collect();
            let mut delivered = Vec::new();
            let mut lost = 0;
            for p in &payloads {
                for out in enc.submit_source(Bytes::copy_from_slice(p)).unwrap() {
                    if rng.pick(0, 1) == 0 {
                        lost += 1;
                        continue;
                    }
                    if let EncoderOutput::Source(raw) = out {
                        let sp = SourcePacket::parse(&raw).unwrap();
                        for ev in dec.handle_source(&sp).unwrap() {
                            if let DecoderEvent::SourceReady { id, data } = ev {
                                delivered.push((id, data));
                            }
                        }
                    }
                }
            }
            for _ in 0..lost {
                if let Some(EncoderOutput::Coded(raw)) = enc.generate_coded().unwrap() {
                    let cp = CodedPacket::parse(&raw).unwrap();
                    for ev in dec.handle_coded(&cp).unwrap() {
                        if let DecoderEvent::SourceReady { id, data } = ev {
                            delivered.push((id, data));
                        }
                    }
                }
            }
            assert_eq!(delivered.len(), n);
            assert_true_and_ordered(&delivered, &payloads);
        }
    }
}

/// The symbols that are delivered where `lost` is lost and the coded packets of
/// `rounds` arrive.
fn vandermonde_session(
    field: Field,
    n: u32,
    lost: &[u32],
    rounds: &[u32],
    rng: &mut Lcg,
) -> usize {
    let cfg = EncoderConfig::builder(12)
        .field(field)
        .window_capacity(n as usize)
        .fec_rate(0, 1)
        .build()
        .unwrap();
    let mut enc = DefaultEncoder::with_defaults(cfg);
    let dec_cfg =
        DecoderConfig::builder(12).field(field).feedback_every(u32::MAX).build().unwrap();
    let mut dec = DefaultDecoder::with_defaults(dec_cfg);
    let payloads: Vec<Vec<u8>> = (0..n).map(|_| rng.bytes(12)).collect();
    let mut delivered = Vec::new();
    for id in 0..n {
        for out in enc.submit_source(Bytes::copy_from_slice(&payloads[id as usize])).unwrap() {
            if let EncoderOutput::Source(raw) = out {
                if !lost.contains(&id) {
                    let sp = SourcePacket::parse(&raw).unwrap();
                    for ev in dec.handle_source(&sp).unwrap() {
                        if let DecoderEvent::SourceReady { id, data } = ev {
                            delivered.push((id, data));
                        }
                    }
                }
            }
        }
    }
    let last = *rounds.iter().max().unwrap();
    for round in 0..=last {
        if let Some(EncoderOutput::Coded(raw)) = enc.generate_coded().unwrap() {
            if rounds.contains(&round) {
                let cp = CodedPacket::parse(&raw).unwrap();
                for ev in dec.handle_coded(&cp).unwrap() {
                    if let DecoderEvent::SourceReady { id, data } = ev {
                        delivered.push((id, data));
                    }
                }
            }
        }
    }
    assert_true_and_ordered(&delivered, &payloads);
    delivered.len()
}

/// Consecutive coded packets make up for as many losses, whichever these are.
#[test]
fn consecutive_packets_make_up_for_every_loss() {
    let mut rng = Lcg::new(19);
    for _ in 0..60 {
        let lost: Vec<u32> = (0..30).filter(|_| rng.pick(0, 2) == 0).collect();
        let start = rng.pick(0, 100);
        let rounds: Vec<u32> = (start..start + lost.len().max(1) as u32).collect();
        assert_eq!(vandermonde_session(Field::Gf2_8, 30, &lost, &rounds, &mut rng), 30);
    }
    for _ in 0..60 {
        let lost: Vec<u32> = (0..12).filter(|_| rng.pick(0, 2) == 0).collect();
        let rounds: Vec<u32> = (0..lost.len().max(1) as u32).collect();
        assert_eq!(vandermonde_session(Field::Gf2_4, 12, &lost, &rounds, &mut rng), 12);
    }
}

/// Any coded packets of a cycle make up for a burst of as many losses.
#[test]
fn any_packets_make_up_for_a_burst() {
    let mut rng = Lcg::new(20);
    for _ in 0..60 {
        let len = rng.pick(1, 15);
        let start = rng.pick(0, 30 - len);
        let lost: Vec<u32> = (start..start + len).collect();
        let mut rounds: Vec<u32> = Vec::new();
        while rounds.len() < len as usize {
            let round = rng.pick(0, 253);
            if !rounds.contains(&round) {
                rounds.push(round);
            }
        }
        assert_eq!(vandermonde_session(Field::Gf2_8, 30, &lost, &rounds, &mut rng), 30);
    }
}

#[test]
fn kernels_match_their_references() {
    let mut rng = Lcg::new(17);
    for _ in 0..256 {
        let coef = rng.next_u32() as u8;
        let len = rng.pick(0, 200) as usize;
        let data = rng.bytes(len);

        let mut fast = vec![0u8; len];
        let mut slow = vec![0u8; len];
        mul_acc_gf2_8(&mut fast, &data, coef);
        mul_acc_gf2_8_reference(&mut slow, &data, coef);
        assert_eq!(fast, slow);

        let mut fast = data.clone();
        let mut slow = data.clone();
        mul_scale_gf2_8(&mut fast, coef);
        mul_scale_gf2_8_reference(&mut slow, coef);
        assert_eq!(fast, slow);

        let nibble = coef & 0x0F;
        let mut fast = vec![0u8; len];
        let mut slow = vec![0u8; len];
        mul_acc_gf2_4(&mut fast, &data, nibble);
        mul_acc_gf2_4_reference(&mut slow, &data, nibble);
        assert_eq!(fast, slow);

        let mut scaled = data.clone();
        mul_scale_gf2_4(&mut scaled, nibble);
        assert_eq!(scaled, fast);

        let mut same = vec![0u8; len];
        mul_acc_gf2_8(&mut same, &data, 1);
        assert_eq!(same, data);
        mul_acc_gf2_8(&mut same, &data, 0);
        assert_eq!(same, data);
        mul_scale_gf2_8(&mut same, 0);
        assert!(same.iter().all(|&b| b == 0));
    }
}
