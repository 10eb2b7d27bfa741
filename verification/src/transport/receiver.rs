//! The receiving side: datagrams in, symbols in order out.
use std::collections::VecDeque;
use vstd::prelude::*;

use bytes::Bytes;

use crate::buffers;
use crate::buffers::bytes_clone;
use crate::codec::decoder;
use crate::codec::decoder::model::EventModel;
use crate::codec::decoder::{Decoder, DecoderEvent};
use crate::error::Result;
use crate::policy::{FeedbackPolicy, SourceSymbolId};
use crate::wire::coded;
use crate::wire::coded::{CodedModel, CodedPacket};
use crate::wire::common::{CommonHeader, PacketType};
use crate::wire::source;
use crate::wire::source::{SourceModel, SourcePacket};

verus! {

/// What a datagram is to a receiver.
pub enum DatagramModel {
    Source(SourceModel),
    Coded(CodedModel),
    /// Malformed, of an unknown type, or feedback.
    Ignored,
}

/// What a datagram is to a receiver.
pub open spec fn datagram_of(raw: Seq<u8>) -> DatagramModel {
    match (source::source_from(raw), coded::coded_from(raw)) {
        (Ok(p), _) => DatagramModel::Source(p),
        (_, Ok(p)) => DatagramModel::Coded(p),
        _ => DatagramModel::Ignored,
    }
}

/// `r` and `post` are what a datagram leads to.  An ignored one leads to nothing.
pub open spec fn datagram_handled<P: FeedbackPolicy>(
    pre: Decoder<P>,
    raw: Seq<u8>,
    r: Option<Result<Vec<DecoderEvent>>>,
    post: Decoder<P>,
) -> bool {
    match (datagram_of(raw), r) {
        (DatagramModel::Source(p), Some(res)) => Decoder::source_handled(pre, p, res, post),
        (DatagramModel::Coded(p), Some(res)) => Decoder::coded_handled(pre, p, res, post),
        (DatagramModel::Ignored, None) => post@ == pre@ && post.policy() == pre.policy(),
        _ => false,
    }
}

/// Hands a datagram to a decoder.
///
/// Malformed datagrams are dropped silently, and so is feedback, which is
/// unexpected here but harmless.
pub fn handle_datagram<P: FeedbackPolicy>(decoder: &mut Decoder<P>, raw: &[u8]) -> (r: Option<
    Result<Vec<DecoderEvent>>,
>)
    requires
        old(decoder).wf(),
    ensures
        final(decoder).wf(),
        datagram_handled(*old(decoder), raw@, r, *final(decoder)),
{
    let header = match CommonHeader::parse(raw) {
        Ok(h) => h,
        Err(_) => return None,
    };
    let kind = match header.packet_type() {
        Ok(t) => t,
        Err(_) => return None,
    };
    match kind {
        PacketType::Source => match SourcePacket::parse(raw) {
            Ok(p) => Some(decoder.handle_source(&p)),
            Err(_) => None,
        },
        PacketType::Coded => match CodedPacket::parse(raw) {
            Ok(p) => Some(decoder.handle_coded(&p)),
            Err(_) => None,
        },
        PacketType::Feedback => None,
    }
}

/// The symbols among events.
pub open spec fn ready_among(events: Seq<EventModel>) -> Seq<(u32, Seq<u8>)>
    decreases events.len(),
{
    if events.len() == 0 {
        Seq::empty()
    } else {
        let rest = ready_among(events.drop_last());
        match events.last() {
            EventModel::SourceReady { id, data } => rest.push((id, data)),
            _ => rest,
        }
    }
}

/// The feedback packets among events.
pub open spec fn feedback_among(events: Seq<EventModel>) -> Seq<Seq<u8>>
    decreases events.len(),
{
    if events.len() == 0 {
        Seq::empty()
    } else {
        let rest = feedback_among(events.drop_last());
        match events.last() {
            EventModel::SendFeedback(b) => rest.push(b),
            _ => rest,
        }
    }
}

/// What a list of symbols says.
pub open spec fn symbols_of(v: Seq<(u32, Bytes)>) -> Seq<(u32, Seq<u8>)> {
    v.map_values(|p: (u32, Bytes)| (p.0, buffers::bytes_view(p.1)))
}

/// What a list of packets says.
pub open spec fn packets_of(v: Seq<Vec<u8>>) -> Seq<Seq<u8>> {
    v.map_values(|p: Vec<u8>| p@)
}

/// What came of one datagram.
#[derive(Debug)]
pub struct Dispatched {
    /// At least one symbol became ready.
    pub became_ready: bool,
    /// Feedback packets, to be sent to the encoder.
    pub feedback: Vec<Vec<u8>>,
}

/// A decoder together with the symbols that wait to be fetched.
pub struct FecReceiver<P: FeedbackPolicy> {
    decoder: Decoder<P>,
    ready: VecDeque<(SourceSymbolId, Bytes)>,
}

impl<P: FeedbackPolicy> FecReceiver<P> {
    /// The decoder.
    pub closed spec fn inner(&self) -> Decoder<P> {
        self.decoder
    }

    /// The symbols that wait to be fetched, the first one first.
    pub closed spec fn queue(&self) -> Seq<(u32, Seq<u8>)> {
        symbols_of(self.ready@)
    }

    /// A receiver around `decoder`.
    pub fn new(decoder: Decoder<P>) -> (r: Self)
        ensures
            r.inner() == decoder,
            r.queue() == Seq::<(u32, Seq<u8>)>::empty(),
    {
        let r = Self { decoder, ready: VecDeque::new() };
        assert(r.queue() =~= Seq::<(u32, Seq<u8>)>::empty());
        r
    }

    /// `r` and `post` are what a datagram leads to: symbols are queued, feedback is
    /// handed out, gaps are passed over.
    pub open spec fn dispatched(pre: Self, raw: Seq<u8>, r: Result<Dispatched>, post: Self) -> bool {
        match r {
            Err(e) => {
                &&& datagram_handled(pre.inner(), raw, Some(Err(e)), post.inner())
                &&& post.queue() == pre.queue()
            },
            Ok(d) => {
                ||| {
                    &&& datagram_handled(pre.inner(), raw, None, post.inner())
                    &&& !d.became_ready
                    &&& d.feedback@.len() == 0
                    &&& post.queue() == pre.queue()
                }
                ||| exists|events: Vec<DecoderEvent>|
                    {
                        let told = decoder::events_of(events@);
                        &&& #[trigger] datagram_handled(
                            pre.inner(),
                            raw,
                            Some(Ok(events)),
                            post.inner(),
                        )
                        &&& post.queue() == pre.queue() + ready_among(told)
                        &&& packets_of(d.feedback@) == feedback_among(told)
                        &&& d.became_ready == (ready_among(told).len() > 0)
                    }
            },
        }
    }

    /// Takes in a datagram.
    pub fn dispatch_datagram(&mut self, raw: &[u8]) -> (r: Result<Dispatched>)
        requires
            old(self).inner().wf(),
        ensures
            final(self).inner().wf(),
            Self::dispatched(*old(self), raw@, r, *final(self)),
    {
        let ghost before = self.queue();
        let events = match handle_datagram(&mut self.decoder, raw) {
            None => return Ok(Dispatched { became_ready: false, feedback: Vec::new() }),
            Some(Err(e)) => return Err(e),
            Some(Ok(events)) => events,
        };
        let ghost told = decoder::events_of(events@);
        let mut became_ready: bool = false;
        let mut feedback: Vec<Vec<u8>> = Vec::new();
        let mut i: usize = 0;
        proof {
            assert(told.take(0) =~= Seq::<EventModel>::empty());
            assert(packets_of(feedback@) =~= Seq::<Seq<u8>>::empty());
            assert(self.queue() =~= before + Seq::<(u32, Seq<u8>)>::empty());
        }
        while i < events.len()
            invariant
                i <= events@.len(),
                told == decoder::events_of(events@),
                self.decoder.wf(),
                datagram_handled(old(self).decoder, raw@, Some(Ok(events)), self.decoder),
                self.queue() == before + ready_among(told.take(i as int)),
                packets_of(feedback@) == feedback_among(told.take(i as int)),
                became_ready == (ready_among(told.take(i as int)).len() > 0),
            decreases events@.len() - i,
        {
            let ghost queued = self.ready@;
            let ghost listed = feedback@;
            assert(told.take(i + 1).drop_last() =~= told.take(i as int));
            assert(told.take(i + 1).last() == events@[i as int]@);
            match &events[i] {
                DecoderEvent::SourceReady { id, data } => {
                    let copy = bytes_clone(data);
                    self.ready.push_back((*id, copy));
                    became_ready = true;
                    assert(symbols_of(self.ready@) =~= symbols_of(queued).push(
                        (*id, buffers::bytes_view(*data)),
                    ));
                    assert(self.queue() =~= before + ready_among(told.take(i + 1)));
                },
                DecoderEvent::SendFeedback(b) => {
                    feedback.push(vstd::slice::slice_to_vec(b.as_slice()));
                    assert(packets_of(feedback@) =~= packets_of(listed).push(b@));
                },
                DecoderEvent::UnrecoverableGap { .. } => {},
            }
            i += 1;
        }
        proof {
            assert(told.take(told.len() as int) =~= told);
            assert(datagram_handled(old(self).inner(), raw@, Some(Ok(events)), self.inner()));
            assert(self.queue() == old(self).queue() + ready_among(told));
        }
        Ok(Dispatched { became_ready, feedback })
    }

    /// The next symbol, if there is one.
    pub fn try_recv_source(&mut self) -> (r: Option<(SourceSymbolId, Bytes)>)
        ensures
            final(self).inner() == old(self).inner(),
            match r {
                Some(p) => {
                    &&& old(self).queue().len() > 0
                    &&& old(self).queue()[0] == (p.0, buffers::bytes_view(p.1))
                    &&& final(self).queue() == old(self).queue().drop_first()
                },
                None => old(self).queue().len() == 0 && final(self).queue() == old(self).queue(),
            },
    {
        let r = self.ready.pop_front();
        assert(old(self).ready@.len() > 0 ==> self.queue() =~= old(self).queue().drop_first());
        r
    }

    /// The number of symbols that wait.
    pub fn ready_count(&self) -> (r: usize)
        ensures
            r == self.queue().len(),
    {
        self.ready.len()
    }

    /// The decoder.
    pub fn decoder(&self) -> (r: &Decoder<P>)
        ensures
            *r == self.inner(),
    {
        &self.decoder
    }

    /// The decoder.
    pub fn decoder_mut(&mut self) -> (r: &mut Decoder<P>)
        ensures
            *r == old(self).inner(),
            final(self).inner() == *final(r),
            final(self).queue() == old(self).queue(),
    {
        &mut self.decoder
    }
}

} // verus!
