use bytes::Bytes;

use delp::config::EncoderConfig;
use delp::policy::EncoderState;
use delp::wire::coded::CodedPacket;
use delp::wire::feedback::FeedbackPacket;
use delp::wire::source::SourcePacket;
use delp::{
    AllAckPolicy, AnyAckPolicy, CongestionControl, ConstantFecRate, ConstantFeedbackPolicy,
    Encoder, EncoderOutput, FecRateController, FeedbackPolicy, ImmediateFeedbackPolicy, LossRate, NoCongestionControl,
    QuorumAckPolicy, ReceiverAckState, WindowPolicy,
};

fn dummy_state() -> EncoderState<'static> {
    EncoderState {
        window_size: 4,
        window_capacity: 256,
        next_source_id: 10,
        next_coded_id: 3,
        loss_rate: LossRate::zero(),
        window_ids: &[],
    }
}

#[test]
fn constant_fec_rate_one_to_one() {
    let mut ctrl = ConstantFecRate::one_to_one();
    for _ in 0..8 {
        assert_eq!(ctrl.coded_packets_to_generate(dummy_state()), 1);
    }
}

#[test]
fn constant_fec_rate_one_in_four() {
    let mut ctrl = ConstantFecRate::new(1, 4);
    let counts: Vec<usize> =
        (0..8).map(|_| ctrl.coded_packets_to_generate(dummy_state())).collect();
    assert_eq!(counts.iter().sum::<usize>(), 2);
}

#[test]
fn any_ack_policy_removes_on_first_ack() {
    let mut state = ReceiverAckState::default();
    let acked = vec![10u32, 11, 12];
    let pkt = FeedbackPacket::build(10, 0, 0, LossRate::zero(), &acked);
    state.update(1, &pkt);
    let mut policy = AnyAckPolicy;
    let window: Vec<u32> = (10..15).collect();
    let to_remove = policy.symbols_to_remove(&state, &window);
    assert!(to_remove.contains(&10));
    assert!(to_remove.contains(&11));
    assert!(to_remove.contains(&12));
    assert!(!to_remove.contains(&13));
}

#[test]
fn all_ack_policy_requires_all_receivers() {
    let mut state = ReceiverAckState::default();
    let pkt1 = FeedbackPacket::build(10, 0, 0, LossRate::zero(), &[10, 11]);
    let pkt2 = FeedbackPacket::build(10, 0, 0, LossRate::zero(), &[10]);
    state.update(1, &pkt1);
    state.update(2, &pkt2);
    let mut policy = AllAckPolicy;
    let window: Vec<u32> = (10..13).collect();
    let to_remove = policy.symbols_to_remove(&state, &window);
    assert!(to_remove.contains(&10));
    assert!(!to_remove.contains(&11));
    assert!(!to_remove.contains(&12));
}

#[test]
fn quorum_counts_receivers() {
    let mut state = ReceiverAckState::default();
    for rid in 0..3u64 {
        let ids: Vec<u32> = (0..=rid as u32).collect();
        state.update(rid, &FeedbackPacket::build(0, 0, 0, LossRate::zero(), &ids));
    }
    assert_eq!(state.num_receivers(), 3);
    let mut policy = QuorumAckPolicy::new(2);
    let mut removed = policy.symbols_to_remove(&state, &[0, 1, 2]);
    removed.sort();
    assert_eq!(removed, vec![0, 1]);
}

#[test]
fn acknowledgements_accumulate() {
    let mut state = ReceiverAckState::default();
    state.update(5, &FeedbackPacket::build(3, 0, 0, LossRate::zero(), &[5]));
    assert!(state.is_acked(5, 2));
    assert!(!state.is_acked(5, 3));
    assert!(state.is_acked(5, 5));
    state.update(5, &FeedbackPacket::build(0, 0, 0, LossRate::zero(), &[]));
    assert!(state.is_acked(5, 2));
    assert!(state.is_acked(5, 5));
    assert!(!state.is_acked(6, 2));
    assert_eq!(state.receiver_ids(), vec![5]);
}

#[test]
fn disabled_rate_requests_nothing() {
    let mut ctrl = ConstantFecRate::disabled();
    for _ in 0..4 {
        assert_eq!(ctrl.coded_packets_to_generate(dummy_state()), 0);
    }
    let mut burst = ConstantFecRate::new(5, 2);
    let counts: Vec<usize> =
        (0..4).map(|_| burst.coded_packets_to_generate(dummy_state())).collect();
    assert_eq!(counts, vec![2, 3, 2, 3]);
}

#[test]
fn feedback_policies_count_packets() {
    let state = delp::policy::DecoderState {
        next_delivery_id: 0,
        packets_received: 0,
        loss_rate: LossRate::zero(),
        nb_missing_src: 0,
        nb_not_used_coded: 0,
    };
    let mut policy = ConstantFeedbackPolicy::new(3);
    let answers: Vec<bool> = (0..6).map(|_| policy.should_send_feedback(state)).collect();
    assert_eq!(answers, vec![false, false, true, false, false, true]);
    let mut always = ImmediateFeedbackPolicy;
    assert!(always.should_send_feedback(state));
}

#[test]
fn no_congestion_control_lets_everything_pass() {
    let cc = NoCongestionControl;
    assert!(cc.can_send());
    assert!(cc.generate_cci().is_empty());
}

/// Sends the number of packets so far as CCI.
struct Counting {
    cci: [u8; 4],
}

impl CongestionControl for Counting {
    fn generate_cci(&self) -> &[u8] {
        &self.cci
    }
    fn process_cci(&mut self, _cci: &[u8]) {}
    fn on_feedback(&mut self, _: EncoderState<'_>, _: LossRate, _: u32, _: u32) {}
    fn can_send(&self) -> bool {
        true
    }
    fn on_send(&mut self, _size: usize) {
        self.cci[3] += 1;
    }
}

/// Asks for as many coded packets as there are symbols in the window.
struct Generous;

impl FecRateController for Generous {
    fn coded_packets_to_generate(&mut self, state: EncoderState<'_>) -> usize {
        assert_eq!(state.window_size, state.window_ids.len());
        state.window_size
    }
    fn on_feedback(&mut self, _: EncoderState<'_>, _: LossRate, _: u32, _: u32) {}
}

#[test]
fn strategies_can_be_replaced() {
    let cfg = EncoderConfig::builder(4).window_capacity(8).build().unwrap();
    let mut enc = Encoder::new(cfg, AnyAckPolicy, Counting { cci: [0; 4] }, Generous);
    enc.submit_source(Bytes::from(vec![1u8; 4])).unwrap();
    let out = enc.submit_source(Bytes::from(vec![2u8; 4])).unwrap();
    assert_eq!(out.len(), 3);
    match &out[0] {
        EncoderOutput::Source(raw) => {
            let pkt = SourcePacket::parse(raw).unwrap();
            assert_eq!(pkt.cci, &[0, 0, 0, 2]);
            assert_eq!(pkt.payload, &[2; 4]);
        }
        EncoderOutput::Coded(_) => panic!("expected a source packet"),
    }
    match &out[2] {
        EncoderOutput::Coded(raw) => {
            let pkt = CodedPacket::parse(raw).unwrap();
            assert_eq!(pkt.cci, &[0, 0, 0, 4]);
            assert_eq!(pkt.coded_symbol_id, 3);
        }
        EncoderOutput::Source(_) => panic!("expected a coded packet"),
    }
}
