//! The sending side: symbols in, datagrams out, feedback in.
use std::collections::VecDeque;
use vstd::prelude::*;

use bytes::Bytes;

use crate::buffers;
use crate::codec::encoder;
use crate::codec::encoder::model;
use crate::codec::encoder::model::OutputModel;
use crate::codec::encoder::{Encoder, EncoderOutput};
use crate::error::Result;
use crate::policy::{CongestionControl, FecRateController, ReceiverId, WindowPolicy};
use crate::transport::receiver;
use crate::wire::common::PacketType;
use crate::wire::feedback;
use crate::wire::feedback::FeedbackPacket;

verus! {

/// The datagrams of an encoder's output.
pub open spec fn datagrams(out: Seq<OutputModel>) -> Seq<Seq<u8>> {
    out.map_values(|o: OutputModel| o.bytes())
}

/// The bytes of an encoder's output.
fn into_raw(out: Vec<EncoderOutput>) -> (r: Vec<Vec<u8>>)
    ensures
        receiver::packets_of(r@) == datagrams(encoder::outputs(out@)),
{
    let ghost all = datagrams(encoder::outputs(out@));
    let mut r: Vec<Vec<u8>> = Vec::new();
    let mut i: usize = 0;
    assert(receiver::packets_of(r@) =~= all.take(0));
    while i < out.len()
        invariant
            i <= out@.len(),
            all == datagrams(encoder::outputs(out@)),
            receiver::packets_of(r@) == all.take(i as int),
        decreases out@.len() - i,
    {
        let ghost before = r@;
        let raw = match &out[i] {
            EncoderOutput::Source(b) => vstd::slice::slice_to_vec(b.as_slice()),
            EncoderOutput::Coded(b) => vstd::slice::slice_to_vec(b.as_slice()),
        };
        r.push(raw);
        i += 1;
        assert(all[i - 1] == raw@);
        assert(receiver::packets_of(r@) =~= receiver::packets_of(before).push(raw@));
        assert(all.take(i as int) =~= all.take(i - 1).push(all[i - 1]));
    }
    assert(all.take(all.len() as int) =~= all);
    r
}

/// An encoder together with the receiver that it sends to.
pub struct FecSender<W, C, F> where W: WindowPolicy, C: CongestionControl, F: FecRateController {
    encoder: Encoder<W, C, F>,
    receiver_id: ReceiverId,
}

impl<W, C, F> FecSender<W, C, F> where W: WindowPolicy, C: CongestionControl, F: FecRateController {
    /// The encoder.
    pub closed spec fn inner(&self) -> Encoder<W, C, F> {
        self.encoder
    }

    /// The receiver.
    pub closed spec fn peer(&self) -> u64 {
        self.receiver_id
    }

    /// A sender around `encoder`.
    pub fn new(encoder: Encoder<W, C, F>, receiver_id: ReceiverId) -> (r: Self)
        ensures
            r.inner() == encoder,
            r.peer() == receiver_id,
    {
        Self { encoder, receiver_id }
    }

    /// Encodes one source symbol.  Returns the datagrams to send: the source packet,
    /// and the coded packets that the rate controller asks for.
    pub fn send_source(&mut self, data: Bytes) -> (r: Result<Vec<Vec<u8>>>)
        requires
            old(self).inner().wf(),
        ensures
            final(self).inner().wf(),
            final(self).peer() == old(self).peer(),
            match r {
                Ok(raw) => exists|out: Vec<EncoderOutput>|
                    {
                        &&& #[trigger] Encoder::submitted(
                            old(self).inner(),
                            buffers::bytes_view(data),
                            Ok(out),
                            final(self).inner(),
                        )
                        &&& receiver::packets_of(raw@) == datagrams(encoder::outputs(out@))
                    },
                Err(e) => Encoder::submitted(
                    old(self).inner(),
                    buffers::bytes_view(data),
                    Err(e),
                    final(self).inner(),
                ),
            },
    {
        match self.encoder.submit_source(data) {
            Ok(out) => {
                let raw = into_raw(out);
                assert(Encoder::submitted(
                    old(self).inner(),
                    buffers::bytes_view(data),
                    Ok(out),
                    self.inner(),
                ));
                Ok(raw)
            },
            Err(e) => Err(e),
        }
    }

    /// Generates one more coded packet, unless the window is empty.
    pub fn send_coded(&mut self) -> (r: Result<Option<Vec<u8>>>)
        requires
            old(self).inner().wf(),
        ensures
            final(self).inner().wf(),
            final(self).peer() == old(self).peer(),
            match r {
                Ok(Some(raw)) => {
                    &&& old(self).inner()@.window.len() > 0
                    &&& model::coded_output(
                        old(self).inner()@,
                        old(self).inner()@.ids(),
                        old(self).inner().control(),
                        OutputModel::Coded(raw@),
                        final(self).inner().control(),
                    )
                    &&& final(self).inner()@ == old(self).inner()@.after_coded()
                    &&& final(self).inner().policy() == old(self).inner().policy()
                    &&& final(self).inner().rate() == old(self).inner().rate()
                },
                Ok(None) => {
                    &&& old(self).inner()@.window.len() == 0
                    &&& final(self).inner()@ == old(self).inner()@
                    &&& final(self).inner().policy() == old(self).inner().policy()
                    &&& final(self).inner().control() == old(self).inner().control()
                    &&& final(self).inner().rate() == old(self).inner().rate()
                },
                Err(_) => false,
            },
    {
        match self.encoder.generate_coded() {
            Err(e) => Err(e),
            Ok(None) => Ok(None),
            Ok(Some(EncoderOutput::Coded(raw))) => Ok(Some(raw)),
            Ok(Some(EncoderOutput::Source(raw))) => Ok(Some(raw)),
        }
    }

    /// Takes in a datagram from the receiver `from`.  Returns whether it was
    /// feedback; anything else, packets of other types included, is dropped silently.
    pub fn recv_feedback(&mut self, from: ReceiverId, raw: &[u8]) -> (r: bool)
        requires
            old(self).inner().wf(),
        ensures
            final(self).inner().wf(),
            final(self).peer() == old(self).peer(),
            r == (feedback::feedback_from(raw@) is Ok && raw@[3] == PacketType::Feedback.number()),
            if r {
                exists|removed: Seq<u32>| #[trigger]
                    Encoder::adapted(
                        old(self).inner(),
                        from,
                        feedback::feedback_from(raw@)->Ok_0,
                        removed,
                        final(self).inner(),
                    )
            } else {
                final(self).inner() == old(self).inner()
            },
    {
        match FeedbackPacket::parse(raw) {
            Ok(pkt) => {
                if raw[3] != PacketType::Feedback.to_u8() {
                    return false;
                }
                self.encoder.handle_feedback(from, &pkt);
                proof {
                    let removed = choose|removed: Seq<u32>| #[trigger]
                        Encoder::adapted(old(self).encoder, from, pkt@, removed, self.encoder);
                    assert(feedback::feedback_from(raw@)->Ok_0 == pkt@);
                    assert(Encoder::adapted(
                        old(self).inner(),
                        from,
                        feedback::feedback_from(raw@)->Ok_0,
                        removed,
                        self.inner(),
                    ));
                }
                true
            },
            Err(_) => false,
        }
    }

    /// The encoder.
    pub fn encoder(&self) -> (r: &Encoder<W, C, F>)
        ensures
            *r == self.inner(),
    {
        &self.encoder
    }

    /// The encoder.
    pub fn encoder_mut(&mut self) -> (r: &mut Encoder<W, C, F>)
        ensures
            *r == old(self).inner(),
            final(self).inner() == *final(r),
            final(self).peer() == old(self).peer(),
    {
        &mut self.encoder
    }

    /// The receiver.
    pub fn receiver_id(&self) -> (r: ReceiverId)
        ensures
            r == self.peer(),
    {
        self.receiver_id
    }
}

/// The number of datagrams beyond which no more symbols are accepted.
pub const MAX_PENDING: usize = 512;

/// A sender with a queue of datagrams that wait for the socket.
pub struct SinkSender<W, C, F> where W: WindowPolicy, C: CongestionControl, F: FecRateController {
    inner: FecSender<W, C, F>,
    pending: VecDeque<Vec<u8>>,
}

impl<W, C, F> SinkSender<W, C, F> where
    W: WindowPolicy,
    C: CongestionControl,
    F: FecRateController,
 {
    /// The sender.
    pub closed spec fn sender(&self) -> FecSender<W, C, F> {
        self.inner
    }

    /// The datagrams that wait, the first one first.
    pub closed spec fn queue(&self) -> Seq<Seq<u8>> {
        receiver::packets_of(self.pending@)
    }

    /// A sender with an empty queue.
    pub fn new(encoder: Encoder<W, C, F>, receiver_id: ReceiverId) -> (r: Self)
        ensures
            r.sender().inner() == encoder,
            r.sender().peer() == receiver_id,
            r.queue() == Seq::<Seq<u8>>::empty(),
    {
        let r = Self { inner: FecSender::new(encoder, receiver_id), pending: VecDeque::new() };
        assert(r.queue() =~= Seq::<Seq<u8>>::empty());
        r
    }

    /// Whether a symbol is accepted now.
    pub fn poll_ready(&self) -> (r: bool)
        ensures
            r == (self.queue().len() < MAX_PENDING),
    {
        self.pending.len() < MAX_PENDING
    }

    /// Encodes one source symbol and queues its datagrams.
    pub fn start_send(&mut self, data: Bytes) -> (r: Result<()>)
        requires
            old(self).sender().inner().wf(),
        ensures
            final(self).sender().inner().wf(),
            final(self).sender().peer() == old(self).sender().peer(),
            match r {
                Ok(_) => exists|out: Vec<EncoderOutput>|
                    {
                        &&& #[trigger] Encoder::submitted(
                            old(self).sender().inner(),
                            buffers::bytes_view(data),
                            Ok(out),
                            final(self).sender().inner(),
                        )
                        &&& final(self).queue() == old(self).queue() + datagrams(
                            encoder::outputs(out@),
                        )
                    },
                Err(e) => {
                    &&& Encoder::submitted(
                        old(self).sender().inner(),
                        buffers::bytes_view(data),
                        Err(e),
                        final(self).sender().inner(),
                    )
                    &&& final(self).queue() == old(self).queue()
                },
            },
    {
        let ghost before = self.queue();
        let raw = match self.inner.send_source(data) {
            Ok(raw) => raw,
            Err(e) => return Err(e),
        };
        let ghost all = receiver::packets_of(raw@);
        let ghost out = choose|out: Vec<EncoderOutput>| #[trigger]
            Encoder::submitted(
                old(self).inner.encoder,
                buffers::bytes_view(data),
                Ok(out),
                self.inner.encoder,
            ) && all == datagrams(encoder::outputs(out@));
        let mut i: usize = 0;
        assert(self.queue() =~= before + all.take(0));
        while i < raw.len()
            invariant
                i <= raw@.len(),
                all == receiver::packets_of(raw@),
                self.queue() == before + all.take(i as int),
                self.inner.encoder.wf(),
                self.inner.receiver_id == old(self).inner.receiver_id,
                Encoder::submitted(
                    old(self).inner.encoder,
                    buffers::bytes_view(data),
                    Ok(out),
                    self.inner.encoder,
                ),
                all == datagrams(encoder::outputs(out@)),
            decreases raw@.len() - i,
        {
            let ghost queued = self.pending@;
            self.pending.push_back(vstd::slice::slice_to_vec(raw[i].as_slice()));
            i += 1;
            assert(receiver::packets_of(self.pending@) =~= receiver::packets_of(queued).push(
                all[i - 1],
            ));
            assert(all.take(i as int) =~= all.take(i - 1).push(all[i - 1]));
            assert(self.queue() =~= before + all.take(i as int));
        }
        assert(all.take(all.len() as int) =~= all);
        assert(Encoder::submitted(
            old(self).sender().inner(),
            buffers::bytes_view(data),
            Ok(out),
            self.sender().inner(),
        ));
        Ok(())
    }

    /// The datagram that is sent next.
    pub fn next_pending(&self) -> (r: Option<&[u8]>)
        ensures
            match r {
                Some(raw) => self.queue().len() > 0 && raw@ == self.queue()[0],
                None => self.queue().len() == 0,
            },
    {
        if self.pending.len() == 0 {
            None
        } else {
            Some(self.pending[0].as_slice())
        }
    }

    /// Drops the datagram that has just been sent.
    pub fn mark_sent(&mut self)
        ensures
            final(self).sender() == old(self).sender(),
            final(self).queue() == (if old(self).queue().len() > 0 {
                old(self).queue().drop_first()
            } else {
                old(self).queue()
            }),
    {
        let _sent = self.pending.pop_front();
        assert(old(self).pending@.len() > 0 ==> self.queue() =~= old(self).queue().drop_first());
    }

    /// The sender.
    pub fn into_inner(self) -> (r: FecSender<W, C, F>)
        ensures
            r == self.sender(),
    {
        self.inner
    }
}

} // verus!
