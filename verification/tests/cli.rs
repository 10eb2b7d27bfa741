use std::collections::BTreeMap;

use bytes::Bytes;

use delp::cli::bench::{codec, count_ready, decode_pass, encode_pass, handle_packet, payload};
use delp::cli::demo::{altc, expected_generation, generation};
use delp::cli::digest::{file_digest, same_digest};
use delp::cli::file::{chunk, stitch, symbol_count};
use delp::cli::frames::{
    build_end_frame, build_start_frame, is_start, parse_start, StartError, CTRL_END, CTRL_START,
};
use delp::cli::prng::{LossSimulator, Xorshift};
use delp::cli::ratio::{parse_fec_ratio, RatioError};
use delp::cli::recv::FileReceiver;
use delp::cli::send::{FileSender, SendSettings};
use delp::cli::{AltcMode, Strategy};
use delp::{DelpError, EncoderOutput, MatrixStrategy};

#[test]
fn ratios_are_read() {
    assert_eq!(parse_fec_ratio("1:4"), Ok((1, 4)));
    assert_eq!(parse_fec_ratio(" 12 : 7 "), Ok((12, 7)));
    assert_eq!(parse_fec_ratio("+3:+2"), Ok((3, 2)));
    assert_eq!(parse_fec_ratio("0:1"), Ok((0, 1)));
    assert_eq!(parse_fec_ratio("3"), Err(RatioError::MissingDenominator));
    assert_eq!(parse_fec_ratio("x:4"), Err(RatioError::InvalidNumerator));
    assert_eq!(parse_fec_ratio("1:y"), Err(RatioError::InvalidDenominator));
    assert_eq!(parse_fec_ratio("1:0"), Err(RatioError::ZeroDenominator));
    assert_eq!(parse_fec_ratio("1:2:3"), Err(RatioError::InvalidDenominator));
    assert_eq!(parse_fec_ratio(""), Err(RatioError::InvalidNumerator));
    assert_eq!(
        parse_fec_ratio("99999999999999999999:1"),
        Err(RatioError::InvalidNumerator)
    );
}

#[test]
fn digests_are_sha256() {
    let empty = file_digest(&[]);
    assert_eq!(&empty[..8], &[0xe3, 0xb0, 0xc4, 0x42, 0x98, 0xfc, 0x1c, 0x14]);
    let abc = file_digest(b"abc");
    assert_eq!(&abc[..8], &[0xba, 0x78, 0x16, 0xbf, 0x8f, 0x01, 0xcf, 0xea]);
    assert_eq!(&abc[24..], &[0xb4, 0x10, 0xff, 0x61, 0xf2, 0x00, 0x15, 0xad]);
    assert!(same_digest(&abc, &file_digest(b"abc")));
    assert!(!same_digest(&abc, &empty));
}

#[test]
fn start_frames_round_trip() {
    let digest = file_digest(b"abc");
    let frame = build_start_frame(1400, 77, 0x0102_0304_0506_0708, &digest);
    assert_eq!(frame.len(), 52);
    assert_eq!(frame[3], CTRL_START);
    assert!(is_start(&frame));
    let info = parse_start(&frame).unwrap();
    assert_eq!(info.file_size, 0x0102_0304_0506_0708);
    assert_eq!(info.symbol_size, 1400);
    assert_eq!(info.n_symbols, 77);
    assert!(same_digest(&info.sha256, &digest));
    assert_eq!(build_end_frame()[3], CTRL_END);
    assert!(!is_start(&build_end_frame()));
}

#[test]
fn broken_start_frames_are_refused() {
    let frame = build_start_frame(5, 2, 10, &[0u8; 32]);
    assert!(matches!(parse_start(&frame[..51]), Err(StartError::TooShort(51))));
    let mut wrong = frame.clone();
    wrong[0] = b'x';
    assert!(matches!(parse_start(&wrong), Err(StartError::MissingMagic)));
    let mut wrong = frame.clone();
    wrong[3] = CTRL_END;
    assert!(matches!(parse_start(&wrong), Err(StartError::MalformedHeader)));
    let mut wrong = frame;
    wrong[4] = 2;
    assert!(matches!(parse_start(&wrong), Err(StartError::UnsupportedVersion(2))));
}

#[test]
fn files_are_cut_and_stitched() {
    assert_eq!(symbol_count(0, 4), 0);
    assert_eq!(symbol_count(8, 4), 2);
    assert_eq!(symbol_count(9, 4), 3);
    let data: Vec<u8> = (0..10).collect();
    let mut symbols: BTreeMap<u32, Bytes> = BTreeMap::new();
    for i in 0..3usize {
        symbols.insert(i as u32, chunk(&data, 4, i));
    }
    assert_eq!(symbols[&2].as_ref(), &[8, 9, 0, 0]);
    assert_eq!(stitch(&symbols, 3, 10).unwrap(), data);
    symbols.remove(&1);
    assert_eq!(stitch(&symbols, 3, 10).unwrap_err(), 1);
}

#[test]
fn the_generator_is_reproducible() {
    let mut a = Xorshift::new(42);
    let mut b = Xorshift::new(42);
    let first: Vec<u8> = (0..32).map(|_| a.next_byte()).collect();
    let second: Vec<u8> = (0..32).map(|_| b.next_byte()).collect();
    assert_eq!(first, second);
    assert!(first.iter().any(|&x| x != first[0]));
    let mut never = LossSimulator::new(1, 0);
    let mut always = LossSimulator::new(1, 100);
    for _ in 0..100 {
        assert!(!never.should_drop());
        assert!(always.should_drop());
    }
}

fn settings(altc: AltcMode, loss_percent: u32) -> SendSettings {
    SendSettings {
        symbol_size: 16,
        window: 32,
        fec_n: 1,
        fec_d: 1,
        strategy: Strategy::Vandermonde,
        altc,
        altc_recent: 4,
        receiver: 1,
        loss_percent,
    }
}

fn transfer(data: &[u8], settings: SendSettings, seed: u64) -> (FileReceiver, usize) {
    let mut tx = FileSender::new(data.to_vec(), settings, seed).unwrap();
    let start = parse_start(&tx.start_frame()).unwrap();
    let mut rx = FileReceiver::new(start).unwrap();
    let mut dropped = 0;
    loop {
        let batch = match tx.next_batch().unwrap() {
            Some(b) => b,
            None => break,
        };
        dropped += batch.dropped;
        for out in batch.packets {
            match out {
                EncoderOutput::Source(raw) | EncoderOutput::Coded(raw) => rx.on_datagram(&raw),
            }
        }
    }
    for out in tx.flush().packets {
        match out {
            EncoderOutput::Source(raw) | EncoderOutput::Coded(raw) => rx.on_datagram(&raw),
        }
    }
    (rx, dropped)
}

#[test]
fn files_arrive() {
    let data: Vec<u8> = (0..1000usize).map(|i| (i * 7) as u8).collect();
    for mode in [AltcMode::Off, AltcMode::Recent, AltcMode::PerReceiver] {
        let (mut rx, dropped) = transfer(&data, settings(mode, 0), 3);
        assert_eq!(dropped, 0);
        assert!(rx.has_all());
        assert_eq!(rx.symbols_received(), 63);
        assert!(!rx.has_ended());
        rx.on_datagram(&build_end_frame());
        assert!(rx.has_ended());
        let file = rx.finish().unwrap();
        assert_eq!(file.data, data);
        assert!(file.verified);
    }
}

#[test]
fn files_survive_losses() {
    let data: Vec<u8> = (0..500usize).map(|i| (i * 13) as u8).collect();
    let (rx, dropped) = transfer(&data, settings(AltcMode::Off, 10), 5);
    assert!(dropped > 0);
    let file = rx.finish().unwrap();
    assert_eq!(file.data, data);
    assert!(file.verified);
}

#[test]
fn files_survive_duplicates_and_swaps() {
    let data: Vec<u8> = (0..300usize).map(|i| (i * 11) as u8).collect();
    let mut tx = FileSender::new(data.clone(), settings(AltcMode::Recent, 0), 5).unwrap();
    let mut rx = FileReceiver::new(parse_start(&tx.start_frame()).unwrap()).unwrap();
    while let Some(batch) = tx.next_batch().unwrap() {
        for out in batch.packets.into_iter().rev() {
            match out {
                EncoderOutput::Source(raw) | EncoderOutput::Coded(raw) => {
                    rx.on_datagram(&raw);
                    rx.on_datagram(&raw);
                }
            }
        }
    }
    let file = rx.finish().unwrap();
    assert_eq!(file.data, data);
    assert!(file.verified);
}

#[test]
fn missing_symbols_are_named() {
    let data = vec![9u8; 64];
    let (rx, _) = transfer(&data, settings(AltcMode::Off, 100), 5);
    assert!(!rx.has_all());
    assert_eq!(rx.finish().unwrap_err(), 0);
}

#[test]
fn a_wrong_digest_is_noticed() {
    let data = b"hello".to_vec();
    let mut start = parse_start(&build_start_frame(8, 1, 5, &file_digest(b"other"))).unwrap();
    start.n_symbols = 1;
    let mut rx = FileReceiver::new(start).unwrap();
    let mut tx = FileSender::new(data.clone(), SendSettings { symbol_size: 8, ..settings(AltcMode::Off, 0) }, 1)
        .unwrap();
    for out in tx.next_batch().unwrap().unwrap().packets {
        match out {
            EncoderOutput::Source(raw) | EncoderOutput::Coded(raw) => rx.on_datagram(&raw),
        }
    }
    let file = rx.finish().unwrap();
    assert_eq!(file.data, data);
    assert!(!file.verified);
}

#[test]
fn bad_settings_are_refused() {
    let mut s = settings(AltcMode::Off, 0);
    s.symbol_size = 0;
    assert!(matches!(
        FileSender::new(vec![1], s, 1),
        Err(DelpError::InvalidSymbolSize(0))
    ));
}

#[test]
fn benchmarks_count_symbols() {
    let data = payload(64);
    assert_eq!(data.len(), 64);
    let (mut enc, mut dec) = codec(64, 16, Strategy::Cauchy).unwrap();
    let wire = encode_pass(&mut enc, &data, 40).unwrap();
    assert_eq!(decode_pass(&mut dec, &wire).unwrap(), 40);
    let (_, mut fresh) = codec(64, 16, Strategy::Cauchy).unwrap();
    let events = handle_packet(&mut fresh, &wire[0]).unwrap();
    assert_eq!(count_ready(&events), 1);
}

#[test]
fn targeted_packets_are_smaller() {
    let report = altc(32, 64, 8, MatrixStrategy::Cauchy).unwrap();
    assert_eq!((report.full_ids, report.recent_ids), (32, 8));
    assert!(report.recent_len < report.full_len);
    assert_eq!(report.full_len - report.recent_len, 24);
}

#[test]
fn long_sessions_rotate() {
    let report = generation(8, 1200).unwrap().unwrap();
    assert_eq!(report.coded_ids_used, 1200);
    assert_eq!(report.generation, 9);
    assert_eq!(report.max_generation, 9);
    assert_eq!(report.delivered, 0);
    assert_eq!(report.next_delivery_id, 8);
    assert_eq!(expected_generation(1200), 8);
}
