use bytes::Bytes;

use delp::codec::{DefaultDecoder, DefaultEncoder};
use delp::config::{BackpressureMode, DecoderConfig, EncoderConfig, Field, MatrixStrategy};
use delp::transport::receiver::FecReceiver;
use delp::transport::sender::{FecSender, SinkSender, MAX_PENDING};
use delp::transport::session::{DelpSession, SessionBuilder};
use delp::wire::feedback::FeedbackPacket;
use delp::{DelpError, LossRate};

fn encoder(size: usize, numer: usize, denom: usize) -> DefaultEncoder {
    let cfg = EncoderConfig::builder(size)
        .window_capacity(16)
        .fec_rate(numer, denom)
        .backpressure(BackpressureMode::EvictOldest)
        .build()
        .unwrap();
    DefaultEncoder::with_defaults(cfg)
}

fn decoder(size: usize, every: u32) -> DefaultDecoder {
    let cfg = DecoderConfig::builder(size).feedback_every(every).build().unwrap();
    DefaultDecoder::with_defaults(cfg)
}

#[test]
fn datagrams_carry_symbols() {
    let mut tx = FecSender::new(encoder(8, 1, 1), 5);
    let mut rx = FecReceiver::new(decoder(8, 1000));
    assert_eq!(tx.receiver_id(), 5);
    for i in 0..4u8 {
        let packets = tx.send_source(Bytes::from(vec![i; 8])).unwrap();
        assert_eq!(packets.len(), 2);
        // the source packet is lost
        rx.dispatch_datagram(&packets[1]).unwrap();
    }
    assert_eq!(rx.ready_count(), 4);
    for i in 0..4u8 {
        let (id, data) = rx.try_recv_source().unwrap();
        assert_eq!(id, i as u32);
        assert_eq!(data.as_ref(), &[i; 8]);
    }
    assert!(rx.try_recv_source().is_none());
}

#[test]
fn feedback_goes_back() {
    let mut tx = FecSender::new(encoder(8, 0, 1), 1);
    let mut rx = FecReceiver::new(decoder(8, 1));
    let packets = tx.send_source(Bytes::from(vec![1u8; 8])).unwrap();
    let got = rx.dispatch_datagram(&packets[0]).unwrap();
    assert!(got.became_ready);
    assert_eq!(got.feedback.len(), 1);
    assert_eq!(tx.encoder().window_size(), 1);
    assert!(tx.recv_feedback(1, &got.feedback[0]));
    assert_eq!(tx.encoder().window_size(), 0);
    assert!(!tx.recv_feedback(1, &packets[0]));
    assert!(tx.send_coded().unwrap().is_none());
}

#[test]
fn other_packets_are_no_feedback() {
    let mut tx = FecSender::new(encoder(64, 1, 1), 1);
    let packets = tx.send_source(Bytes::from(vec![255u8; 64])).unwrap();
    for raw in &packets {
        assert!(!tx.recv_feedback(1, raw));
    }
    assert_eq!(tx.encoder().window_size(), 1);
}

#[test]
fn strange_datagrams_are_ignored() {
    let mut rx = FecReceiver::new(decoder(8, 1));
    let feedback = FeedbackPacket::build(0, 0, 0, LossRate::zero(), &[]).serialise();
    for raw in [&[][..], &[1, 2, 3][..], &[0x10, 0, 1, 9][..], feedback.as_slice()] {
        let got = rx.dispatch_datagram(raw).unwrap();
        assert!(!got.became_ready);
        assert!(got.feedback.is_empty());
    }
    assert_eq!(rx.decoder().packets_received(), 0);
}

#[test]
fn wrong_sizes_are_reported() {
    let mut tx = FecSender::new(encoder(8, 0, 1), 1);
    assert!(matches!(
        tx.send_source(Bytes::from(vec![0u8; 3])),
        Err(DelpError::SymbolSizeMismatch { expected: 8, actual: 3 })
    ));
    let mut rx = FecReceiver::new(decoder(4, 1000));
    let packets = tx.send_source(Bytes::from(vec![0u8; 8])).unwrap();
    assert!(matches!(
        rx.dispatch_datagram(&packets[0]),
        Err(DelpError::SymbolSizeMismatch { expected: 4, actual: 8 })
    ));
}

#[test]
fn the_sink_queues_packets() {
    let mut sink = SinkSender::new(encoder(8, 1, 1), 1);
    assert!(sink.next_pending().is_none());
    let mut n = 0;
    while sink.poll_ready() {
        sink.start_send(Bytes::from(vec![7u8; 8])).unwrap();
        n += 2;
    }
    assert_eq!(n, MAX_PENDING);
    let first = sink.next_pending().unwrap().to_vec();
    assert_eq!(first[3], 0);
    sink.mark_sent();
    assert!(sink.poll_ready());
    assert_eq!(sink.next_pending().unwrap()[3], 1);
    let sender = sink.into_inner();
    assert_eq!(sender.encoder().next_source_id(), 256);
}

#[test]
fn sessions_are_built() {
    let mut session = SessionBuilder::new()
        .symbol_size(256)
        .window_capacity(16)
        .fec_rate(1, 2)
        .field(Field::Gf2_8)
        .strategy(MatrixStrategy::Vandermonde)
        .feedback_every(8)
        .build(77)
        .unwrap();
    assert_eq!(session.sender().receiver_id(), 77);
    assert_eq!(session.sender().encoder().window_capacity(), 16);
    let packets = session.sender_mut().send_source(Bytes::from(vec![1u8; 256])).unwrap();
    session.receiver_mut().dispatch_datagram(&packets[0]).unwrap();
    assert_eq!(session.receiver().ready_count(), 1);
    let (tx, rx) = session.split();
    assert_eq!(tx.encoder().next_source_id(), 1);
    assert_eq!(rx.ready_count(), 1);
    assert!(matches!(
        SessionBuilder::new().symbol_size(0).build(1),
        Err(DelpError::InvalidSymbolSize(0))
    ));
    let parts = DelpSession::new(encoder(8, 0, 1), decoder(8, 1), 3);
    assert_eq!(parts.sender().receiver_id(), 3);
}
