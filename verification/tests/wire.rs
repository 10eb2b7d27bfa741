use delp::buffers::{CoefList, IdList};
use delp::config::Field;
use delp::gf::{Field as GfField, Gf2_4};
use delp::wire::coded::{window_lag, CodedPacket};
use delp::wire::common::{CciLength, CommonHeader, PacketType};
use delp::wire::ev::coef_gen::{
    cauchy_batch_gf2_4, cauchy_batch_gf2_8, cauchy_coef_gf2_4, cauchy_coef_gf2_8,
    vandermonde_batch, vandermonde_coef, verify_cauchy_2x2_nonsingular,
    verify_cauchy_gf2_4_2x2_nonsingular, VandermondeRow,
};
use delp::wire::ev::id_storage::{decode, encode, IdStorageFormat};
use delp::wire::ev::{pack_nibbles, unpack_nibbles, EncodingVector};
use delp::wire::feedback::FeedbackPacket;
use delp::wire::source::SourcePacket;
use delp::wire::DelpPacket;
use delp::{DelpError, LossRate};

// ── Common header ────────────────────────────────────────────────────────

#[test]
fn round_trip_source() {
    let hdr = CommonHeader::new(PacketType::Source, CciLength::Zero, false, 1);
    let bytes = hdr.to_bytes();
    let parsed = CommonHeader::parse(&bytes).unwrap();
    assert_eq!(parsed.version(), 1);
    assert_eq!(parsed.packet_type().unwrap(), PacketType::Source);
    assert_eq!(parsed.cci_words(), 0);
    assert_eq!(parsed.has_tsi(), false);
    assert_eq!(parsed.hdr_len_words, 1);
}

#[test]
fn round_trip_with_cci_and_tsi() {
    let hdr = CommonHeader::new(PacketType::Coded, CciLength::Two, true, 5);
    let bytes = hdr.to_bytes();
    let mut buf = bytes.to_vec();
    buf.extend_from_slice(&[0u8; 20]);
    let parsed = CommonHeader::parse(&buf).unwrap();
    assert_eq!(parsed.cci_words(), 2);
    assert!(parsed.has_tsi());
    // 4 (common) + 8 (2 CCI words) + 4 (TSI) = 16
    assert_eq!(parsed.body_offset(), 16);
}

#[test]
fn rejects_wrong_version() {
    let mut bytes = CommonHeader::new(PacketType::Source, CciLength::Zero, false, 1).to_bytes();
    bytes[0] = 0x20;
    assert!(matches!(CommonHeader::parse(&bytes), Err(DelpError::UnsupportedVersion(2))));
}

#[test]
fn rejects_short_buf() {
    assert!(matches!(
        CommonHeader::parse(&[0x10, 0x00]),
        Err(DelpError::BufferTooShort { .. })
    ));
}

#[test]
fn zerocopy_ref_from_bytes() {
    let hdr = CommonHeader::new(PacketType::Feedback, CciLength::One, false, 2);
    let raw = hdr.to_bytes();
    let hdr2 = CommonHeader::ref_from_bytes(&raw).unwrap();
    assert_eq!(hdr2.version(), hdr.version());
    assert_eq!(hdr2.cci_words(), hdr.cci_words());
}

#[test]
fn header_has_exact_bytes() {
    let hdr = CommonHeader::new(PacketType::Coded, CciLength::Three, true, 6);
    let raw = hdr.to_bytes();
    assert_eq!(raw[2], 6);
    assert_eq!(raw[3], 1);
    assert_eq!(CommonHeader::ref_from_bytes(&raw[..3]).is_none(), true);
    assert!(matches!(
        CommonHeader::parse(&raw),
        Err(DelpError::InvalidHeaderLength { hdr_len_words: 6, packet_len: 4 })
    ));
}

#[test]
fn unknown_type_is_refused() {
    let mut raw = CommonHeader::new(PacketType::Source, CciLength::Zero, false, 1).to_bytes();
    raw[3] = 9;
    assert!(matches!(DelpPacket::parse(&raw), Err(DelpError::UnknownPacketType(9))));
    assert!(matches!(PacketType::from_u8(3), Err(DelpError::UnknownPacketType(3))));
}

// ── Source packets ───────────────────────────────────────────────────────

#[test]
fn round_trip_no_cci_no_tsi() {
    let payload = b"hello delp world!";
    let raw = SourcePacket::serialise(42, payload, &[], None);
    let pkt = SourcePacket::parse(&raw).unwrap();
    assert_eq!(pkt.source_symbol_id, 42);
    assert_eq!(pkt.payload, payload);
    assert_eq!(pkt.tsi, None);
    assert_eq!(pkt.cci.len(), 0);
}

#[test]
fn round_trip_with_tsi() {
    let payload = vec![0xABu8; 32];
    let raw = SourcePacket::serialise(0xDEAD_BEEF, &payload, &[], Some(99));
    let pkt = SourcePacket::parse(&raw).unwrap();
    assert_eq!(pkt.source_symbol_id, 0xDEAD_BEEF);
    assert_eq!(pkt.tsi, Some(99));
    assert_eq!(pkt.payload, payload.as_slice());
}

#[test]
fn round_trip_with_cci() {
    let cci = [0x01u8, 0x02, 0x03, 0x04, 0x05, 0x06, 0x07, 0x08];
    let payload = b"data";
    let raw = SourcePacket::serialise(7, payload, &cci, None);
    let pkt = SourcePacket::parse(&raw).unwrap();
    assert_eq!(pkt.cci, &cci);
    assert_eq!(pkt.payload, payload);
}

#[test]
fn source_packet_has_exact_bytes() {
    let raw = SourcePacket::serialise(0x0102_0304, &[0xEE, 0xFF], &[], None);
    assert_eq!(raw, vec![0x10, 0x00, 0x02, 0x00, 0x01, 0x02, 0x03, 0x04, 0xEE, 0xFF]);
}

#[test]
fn source_parse_refuses_other_packets() {
    let raw = SourcePacket::serialise(1, &[0u8; 4], &[], None);
    assert!(matches!(CodedPacket::parse(&raw), Err(DelpError::UnknownPacketType(0))));
    assert!(matches!(
        SourcePacket::parse(&[0x10, 0, 1, 0]),
        Err(DelpError::BufferTooShort { needed: 8, available: 4 })
    ));
}

// ── Coded packets ────────────────────────────────────────────────────────

fn make_ev(source_ids: &[u32], coded_id: u32) -> EncodingVector {
    EncodingVector::vandermonde(Field::Gf2_8, coded_id, IdList::from_slice(source_ids))
}

#[test]
fn round_trip_simple() {
    let ev = make_ev(&[0, 1, 2, 3], 1);
    let payload = vec![0xAAu8; 128];
    let raw = CodedPacket::serialise(1, &ev, &payload, &[], None);
    let pkt = CodedPacket::parse(&raw).unwrap();
    assert_eq!(pkt.coded_symbol_id, 1);
    assert_eq!(pkt.payload, payload.as_slice());
    assert_eq!(pkt.ev.source_ids.as_slice(), &[0, 1, 2, 3]);
}

#[test]
fn round_trip_with_tsi_and_cci() {
    let ev = make_ev(&(10..18).collect::<Vec<_>>(), 5);
    let payload = vec![0xBBu8; 64];
    let cci = [0x01u8; 4];
    let raw = CodedPacket::serialise(5, &ev, &payload, &cci, Some(42));
    let pkt = CodedPacket::parse(&raw).unwrap();
    assert_eq!(pkt.tsi, Some(42));
    assert_eq!(pkt.cci, &cci);
    assert_eq!(pkt.coded_symbol_id, 5);
    assert_eq!(pkt.payload.len(), 64);
}

#[test]
fn non_contiguous_source_ids() {
    let ids = vec![1u32, 3, 5, 7];
    let ev = make_ev(&ids, 2);
    let raw = CodedPacket::serialise(2, &ev, &[0u8; 32], &[], None);
    let pkt = CodedPacket::parse(&raw).unwrap();
    assert_eq!(pkt.ev.source_ids.as_slice(), ids.as_slice());
}

#[test]
fn truncated_coded_packets_are_refused() {
    let ev = make_ev(&[1, 3, 5], 2);
    let raw = CodedPacket::serialise(2, &ev, &[], &[], None);
    for len in 0..raw.len() {
        assert!(CodedPacket::parse(&raw[..len]).is_err(), "len={len}");
    }
    assert!(CodedPacket::parse(&raw).is_ok());
}

#[test]
fn any_packet_is_recognised() {
    let source = SourcePacket::serialise(3, &[1, 2], &[], None);
    assert!(matches!(DelpPacket::parse(&source), Ok(DelpPacket::Source(_))));
    let coded = CodedPacket::serialise(1, &make_ev(&[0, 1], 1), &[9], &[], None);
    assert!(matches!(DelpPacket::parse(&coded), Ok(DelpPacket::Coded(_))));
    let mut feedback = FeedbackPacket::build(0, 0, 0, LossRate::zero(), &[1]).serialise();
    assert!(matches!(DelpPacket::parse(&feedback), Ok(DelpPacket::Feedback(_))));
    feedback.push(0);
    assert!(matches!(
        DelpPacket::parse(&feedback),
        Err(DelpError::InvalidHeaderLength { .. })
    ));
}

// ── Encoding vectors ─────────────────────────────────────────────────────

fn contiguous_ids(start: u32, count: u32) -> IdList {
    IdList::from_slice(&(start..start + count).collect::<Vec<_>>())
}

#[test]
fn vandermonde_round_trip_gf2_8() {
    let ids = contiguous_ids(10, 8);
    let ev = EncodingVector::vandermonde(Field::Gf2_8, 3, ids.clone());
    let bytes = ev.serialise();
    let (parsed, consumed) = EncodingVector::parse(&bytes, 3).unwrap();
    assert_eq!(consumed, bytes.len());
    assert_eq!(parsed.source_ids.as_slice(), ids.as_slice());
    assert!(!parsed.has_explicit_coefs());
    assert_eq!(parsed.field, Field::Gf2_8);
}

#[test]
fn explicit_coefs_round_trip_gf2_8() {
    let ids = IdList::from_slice(&[0, 1, 2, 3]);
    let coefs = CoefList::from_slice(&[0x01, 0x02, 0x04, 0x08]);
    let ev = EncodingVector::explicit(Field::Gf2_8, 1, ids.clone(), coefs.clone());
    let bytes = ev.serialise();
    let (parsed, _) = EncodingVector::parse(&bytes, 1).unwrap();
    assert_eq!(parsed.source_ids.as_slice(), ids.as_slice());
    assert_eq!(parsed.coefficients.as_slice(), coefs.as_slice());
}

#[test]
fn nibble_pack_unpack_roundtrip() {
    let coefs: Vec<u8> = (1..=6).collect();
    let packed = pack_nibbles(&coefs);
    let unpacked = unpack_nibbles(&packed, coefs.len());
    assert_eq!(unpacked.as_slice(), coefs.as_slice());
}

#[test]
fn nibbles_have_exact_bytes() {
    assert_eq!(pack_nibbles(&[0x1, 0x2, 0x3]), vec![0x12, 0x30]);
    assert_eq!(unpack_nibbles(&[0x12, 0x30], 3).as_slice(), &[1, 2, 3]);
}

#[test]
fn generation_is_carried() {
    for field in [Field::Gf2_8, Field::Gf2_4] {
        let ids = IdList::from_slice(&[4, 5, 9]);
        let coefs = CoefList::from_slice(&[1, 2, 3]);
        let plain = EncodingVector::explicit(field, 1, ids.clone(), coefs.clone());
        let rotated = EncodingVector::explicit(field, 1, ids, coefs).with_generation(7);
        let short = plain.serialise();
        let long = rotated.serialise();
        assert_eq!(long.len(), short.len() + 4);
        let (parsed, used) = EncodingVector::parse(&long, 1).unwrap();
        assert_eq!(used, long.len());
        assert_eq!(parsed.generation, 7);
        assert_eq!(parsed.coefficients.as_slice(), &[1, 2, 3]);
        assert_eq!(EncodingVector::parse(&short, 1).unwrap().0.generation, 0);
    }
}

#[test]
fn malformed_encoding_vectors_are_refused() {
    let bytes = make_ev(&[1, 3, 5], 2).serialise();
    let mut short = bytes.clone();
    short[0] = 1;
    assert!(matches!(
        EncodingVector::parse(&short, 2),
        Err(DelpError::MalformedEncodingVector { .. })
    ));
    let mut long = bytes.clone();
    long[0] = 200;
    assert!(matches!(
        EncodingVector::parse(&long, 2),
        Err(DelpError::EncodingVectorOverflow { ev_len_words: 200 })
    ));
    let mut inconsistent = bytes;
    inconsistent[3] = 3;
    assert!(matches!(
        EncodingVector::parse(&inconsistent, 2),
        Err(DelpError::CoefficientFieldInconsistency)
    ));
}

// ── Id storage ───────────────────────────────────────────────────────────

fn round_trip(ids: &[u32], format: IdStorageFormat) {
    let encoded = encode(ids, format);
    let (decoded, _) = decode(&encoded, ids.len(), ids[0], format).unwrap();
    assert_eq!(decoded, ids, "round-trip failed for {format:?}");
}

#[test]
fn none_format() {
    let ids: Vec<u32> = (5..15).collect();
    round_trip(&ids, IdStorageFormat::Contiguous);
}

#[test]
fn compressed_list_non_contiguous() {
    let ids = vec![1u32, 3, 7, 8, 15, 100];
    round_trip(&ids, IdStorageFormat::CompressedList);
}

#[test]
fn uncompressed_edges() {
    let ids = vec![1u32, 2, 3, 10, 11, 20];
    round_trip(&ids, IdStorageFormat::UncompressedEdges);
}

#[test]
fn compressed_edges() {
    let ids = vec![0u32, 1, 2, 5, 6, 7, 20];
    round_trip(&ids, IdStorageFormat::CompressedEdges);
}

#[test]
fn best_for_contiguous() {
    let ids: Vec<u32> = (10..20).collect();
    assert_eq!(IdStorageFormat::best_for(&ids), IdStorageFormat::Contiguous);
}

#[test]
fn best_for_non_contiguous() {
    let ids = vec![1u32, 3, 5];
    assert_ne!(IdStorageFormat::best_for(&ids), IdStorageFormat::Contiguous);
}

#[test]
fn the_shortest_format_is_chosen() {
    let cases: [(Vec<u32>, IdStorageFormat, usize); 5] = [
        (vec![1, 3, 5], IdStorageFormat::CompressedList, 4),
        (vec![0, 1, 2, 3, 4, 6], IdStorageFormat::CompressedEdges, 8),
        ((0..10).chain(20..30).collect(), IdStorageFormat::CompressedEdges, 8),
        (vec![0, 1_000_000], IdStorageFormat::UncompressedEdges, 16),
        (vec![u32::MAX - 2, u32::MAX], IdStorageFormat::CompressedList, 2),
    ];
    for (ids, format, len) in cases {
        assert_eq!(IdStorageFormat::best_for(&ids), format);
        let stored = encode(&ids, format);
        assert_eq!(stored.len(), len);
        assert_eq!(decode(&stored, ids.len(), ids[0], format).unwrap(), (ids.clone(), len));
    }
    // a run that is too long for 16 bits
    let ids: Vec<u32> = (0..70_000).chain(70_001..70_002).collect();
    assert_eq!(IdStorageFormat::best_for(&ids), IdStorageFormat::UncompressedEdges);
    // many ids in short runs
    let ids: Vec<u32> = (0..140_000).filter(|i| i % 3 != 2).collect();
    let stored = encode(&ids, IdStorageFormat::CompressedEdges);
    let (read, used) = decode(&stored, ids.len(), ids[0], IdStorageFormat::CompressedEdges).unwrap();
    assert_eq!(read, ids);
    assert_eq!(used, stored.len());
}

#[test]
fn feedback_is_told_apart_by_its_type() {
    let mut raw = FeedbackPacket::build(3, 0, 0, LossRate::zero(), &[]).serialise();
    assert!(matches!(DelpPacket::parse(&raw), Ok(DelpPacket::Feedback(_))));
    // the body alone does not tell
    raw[3] = 7;
    assert_eq!(FeedbackPacket::parse(&raw).unwrap().first_src_id, 3);
    assert!(matches!(DelpPacket::parse(&raw), Err(DelpError::UnknownPacketType(7))));
}

#[test]
fn coded_packets_tell_the_start_of_the_window() {
    let ev = EncodingVector::vandermonde(Field::Gf2_8, 1, IdList::from_slice(&[300, 301]));
    for (lag, start) in [(0u8, Some(300)), (7, Some(293)), (254, Some(46)), (255, None)] {
        let raw = CodedPacket::serialise_behind(1, &ev, &[1, 2], &[], None, lag);
        let pkt = CodedPacket::parse(&raw).unwrap();
        assert_eq!(pkt.window_start(), start);
        assert_eq!(raw[1], lag);
    }
    assert_eq!(
        CodedPacket::serialise(1, &ev, &[1, 2], &[], None),
        CodedPacket::serialise_behind(1, &ev, &[1, 2], &[], None, 0)
    );
    assert_eq!(window_lag(10, 10), 0);
    assert_eq!(window_lag(264, 10), 254);
    assert_eq!(window_lag(265, 10), 255);
    assert_eq!(window_lag(9, 10), 255);
}

#[test]
fn compressed_list_has_exact_bytes() {
    assert_eq!(encode(&[1, 3, 259], IdStorageFormat::CompressedList), vec![0, 2, 1, 0]);
    assert_eq!(encode(&[1, 2, 3], IdStorageFormat::Contiguous), Vec::<u8>::new());
}

#[test]
fn edges_have_exact_bytes() {
    assert_eq!(
        encode(&[0, 1, 2, 5, 6, 7, 20], IdStorageFormat::CompressedEdges),
        vec![0, 0, 0, 3, 0, 2, 0, 3, 0, 12, 0, 1]
    );
    assert_eq!(
        encode(&[1, 2, 3, 10], IdStorageFormat::UncompressedEdges),
        vec![0, 0, 0, 0, 0, 0, 0, 3, 0, 0, 0, 9, 0, 0, 0, 10]
    );
}

#[test]
fn truncated_id_fields_are_refused() {
    assert!(matches!(
        decode(&[0, 1, 0], 3, 0, IdStorageFormat::CompressedList),
        Err(DelpError::MalformedEncodingVector { reason: "CompressedList buffer too short" })
    ));
    assert!(matches!(
        decode(&[0; 7], 1, 0, IdStorageFormat::UncompressedEdges),
        Err(DelpError::MalformedEncodingVector { reason: "UncompressedEdges truncated" })
    ));
    assert!(matches!(
        decode(&[0; 3], 1, 0, IdStorageFormat::CompressedEdges),
        Err(DelpError::MalformedEncodingVector { reason: "CompressedEdges truncated" })
    ));
    assert_eq!(
        decode(&[0, 1, 0, 2, 9, 9], 3, 7, IdStorageFormat::CompressedList).unwrap(),
        (vec![7, 8, 10], 4)
    );
    assert_eq!(
        decode(&[0, 1, 0, 2, 9, 9], 2, 7, IdStorageFormat::CompressedEdges).unwrap(),
        (vec![8, 9], 4)
    );
}

// ── Coefficients ─────────────────────────────────────────────────────────

#[test]
fn gf2_8_known_values() {
    assert_eq!(vandermonde_coef(Field::Gf2_8, 0, 1), 1);
    assert_eq!(vandermonde_coef(Field::Gf2_8, 1, 1), 2);
}

#[test]
fn cauchy_coef_never_zero() {
    for gen in 0u8..=8 {
        for src in 0u32..128 {
            for coded in 0u32..128 {
                let c = cauchy_coef_gf2_8(src, coded, gen);
                assert_ne!(c, 0, "cauchy_coef_gf2_8({src},{coded},gen={gen}) == 0");
            }
        }
    }
}

#[test]
fn cauchy_gf2_4_coef_never_zero_with_generation() {
    for gen in 0u8..=8 {
        for src in 0u32..7 {
            for coded in 0u32..7 {
                let c = cauchy_coef_gf2_4(src, coded, gen);
                assert_ne!(c, 0, "cauchy_coef_gf2_4({src},{coded},gen={gen}) == 0");
            }
        }
    }
}

#[test]
fn cauchy_generations_produce_distinct_rows() {
    for coded in 0u32..128 {
        let row0: Vec<u8> = (0..128u32).map(|s| cauchy_coef_gf2_8(s, coded, 0)).collect();
        let row1: Vec<u8> = (0..128u32).map(|s| cauchy_coef_gf2_8(s, coded, 1)).collect();
        assert_ne!(row0, row1, "gen 0 and gen 1 produced identical row at coded={coded}");
    }
}

#[test]
fn cauchy_2x2_nonsingular_exhaustive() {
    for s0 in 0u32..16 {
        for s1 in (s0 + 1)..16 {
            for c0 in 0u32..16 {
                for c1 in (c0 + 1)..16 {
                    assert!(
                        verify_cauchy_2x2_nonsingular(s0, s1, c0, c1),
                        "Cauchy 2×2 singular at s=({s0},{s1}) c=({c0},{c1})"
                    );
                }
            }
        }
    }
}

#[test]
fn cauchy_batch_matches_scalar() {
    let ids: Vec<u32> = (0..16).collect();
    for coded in 0u32..8 {
        for gen in 0u8..=4 {
            let batch = cauchy_batch_gf2_8(&ids, coded, gen);
            for (i, &sid) in ids.iter().enumerate() {
                assert_eq!(
                    batch.as_slice()[i],
                    cauchy_coef_gf2_8(sid, coded, gen),
                    "batch mismatch at src={sid} coded={coded} gen={gen}"
                );
            }
        }
    }
}

#[test]
fn cauchy_coef_defined_on_diagonal() {
    for i in 0u32..128 {
        let c = cauchy_coef_gf2_8(i, i, 0);
        assert_ne!(c, 0, "cauchy diagonal({i}) == 0");
    }
}

#[test]
fn cauchy_gf2_4_coef_never_zero() {
    for src in 0u32..7 {
        for coded in 0u32..7 {
            let c = cauchy_coef_gf2_4(src, coded, 0);
            assert_ne!(c, 0, "cauchy_gf2_4({src},{coded}) == 0 — impossible by construction");
        }
    }
}

#[test]
fn cauchy_gf2_4_2x2_nonsingular_exhaustive() {
    for s0 in 0u32..7 {
        for s1 in (s0 + 1)..7 {
            for c0 in 0u32..7 {
                for c1 in (c0 + 1)..7 {
                    assert!(
                        verify_cauchy_gf2_4_2x2_nonsingular(s0, s1, c0, c1),
                        "GF(2^4) Cauchy 2×2 singular at s=({s0},{s1}) c=({c0},{c1})"
                    );
                }
            }
        }
    }
}

#[test]
fn cauchy_gf2_4_batch_matches_scalar() {
    let ids: Vec<u32> = (0..6).collect();
    for coded in 0u32..6 {
        for gen in 0u8..=4 {
            let batch = cauchy_batch_gf2_4(&ids, coded, gen);
            for (i, &sid) in ids.iter().enumerate() {
                assert_eq!(
                    batch.as_slice()[i],
                    cauchy_coef_gf2_4(sid, coded, gen),
                    "gf2_4 batch mismatch src={sid} coded={coded} gen={gen}"
                );
            }
        }
    }
}

#[test]
fn batch_matches_scalar() {
    let ids: Vec<u32> = (0..16).collect();
    for coded_id in 1..=4u32 {
        let batch = vandermonde_batch(Field::Gf2_8, &ids, coded_id);
        for (i, &sid) in ids.iter().enumerate() {
            assert_eq!(batch.as_slice()[i], vandermonde_coef(Field::Gf2_8, sid, coded_id));
        }
    }
}

#[test]
fn gf2_4_batch_one_byte_per_source() {
    let ids: Vec<u32> = (0..8).collect();
    let batch = vandermonde_batch(Field::Gf2_4, &ids, 1);
    assert_eq!(batch.len(), ids.len());
    for (i, &sid) in ids.iter().enumerate() {
        let expected = Gf2_4::vandermonde(sid, 1).to_u8() & 0x0F;
        let got = batch.as_slice()[i];
        assert_eq!(got, expected, "batch[{i}]: expected 4-bit coef {expected}, got {got}");
        assert_eq!(got & 0xF0, 0, "batch[{i}] high nibble must be 0");
    }
}

#[test]
fn vandermonde_row_matches_scalar() {
    let row = VandermondeRow::new(Field::Gf2_8, 3);
    assert_eq!(row.coef(2), vandermonde_coef(Field::Gf2_8, 2, 3));
    // alpha^255 is one again
    assert_eq!(vandermonde_coef(Field::Gf2_8, 85, 3), 1);
}

#[test]
fn equal_points_are_singular() {
    assert!(!verify_cauchy_2x2_nonsingular(1, 129, 0, 1));
    assert!(!verify_cauchy_2x2_nonsingular(1, 2, 5, 5));
    assert!(!verify_cauchy_gf2_4_2x2_nonsingular(0, 7, 0, 1));
}

// ── Feedback packets ─────────────────────────────────────────────────────

#[test]
fn sack_round_trip() {
    let acked: Vec<u32> = vec![10, 11, 13, 15];
    let pkt = FeedbackPacket::build(10, 2, 0, LossRate::new(1, 10), &acked);
    assert!(pkt.is_acked(10));
    assert!(pkt.is_acked(11));
    assert!(!pkt.is_acked(12));
    assert!(pkt.is_acked(13));
    assert!(!pkt.is_acked(14));
    assert!(pkt.is_acked(15));

    let collected: Vec<u32> = pkt.acked_ids();
    assert_eq!(collected, vec![10, 11, 13, 15]);
}

#[test]
fn serialise_parse_round_trip() {
    let acked: Vec<u32> = (0..24).filter(|i| i % 3 != 0).collect();
    let original = FeedbackPacket::build(0, 5, 2, LossRate::new(1, 20), &acked);
    let bytes = original.serialise();
    let parsed = FeedbackPacket::parse(&bytes).unwrap();

    assert_eq!(parsed.first_src_id, original.first_src_id);
    assert_eq!(parsed.nb_missing_src, original.nb_missing_src);
    assert_eq!(parsed.nb_not_used_coded, original.nb_not_used_coded);
    assert_eq!(parsed.plr_raw, original.plr_raw);
    assert_eq!(parsed.sack, original.sack);
}

#[test]
fn plr_encoding() {
    assert_eq!(FeedbackPacket::encode_plr(LossRate::new(0, 1)), 0);
    assert_eq!(FeedbackPacket::encode_plr(LossRate::new(1, 1)), 255);
    let v = FeedbackPacket::encode_plr(LossRate::new(1, 10));
    let r = FeedbackPacket::decode_plr(v);
    let rate = r.lost as f64 / r.expected as f64;
    assert!((rate - 0.1).abs() < 0.01);
}

#[test]
fn loss_rates_have_exact_values() {
    assert_eq!(FeedbackPacket::encode_plr(LossRate::new(1, 10)), 25);
    assert_eq!(FeedbackPacket::encode_plr(LossRate::zero()), 0);
    assert_eq!(FeedbackPacket::encode_plr(LossRate::new(7, 3)), 255);
    assert_eq!(FeedbackPacket::decode_plr(64), LossRate::new(64, 256));
}

#[test]
fn feedback_has_exact_bytes() {
    let raw = FeedbackPacket::build(8, 1, 2, LossRate::new(1, 2), &[8, 15, 16]).serialise();
    assert_eq!(&raw[4..8], &[0, 0, 0, 1]);
    assert_eq!(&raw[8..12], &[0, 0, 0, 2]);
    assert_eq!(&raw[12..16], &[0, 0, 0, 8]);
    assert_eq!(&raw[16..20], &[128, 2, 0, 0]);
    assert_eq!(&raw[20..], &[0x81, 0x80, 0, 0]);
}
