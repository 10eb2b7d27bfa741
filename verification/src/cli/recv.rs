//! Receiving a file: what becomes of the datagrams.
use std::collections::BTreeMap;
use vstd::prelude::*;

use bytes::Bytes;

use crate::buffers;
use crate::buffers::bytes_clone;
use crate::cli::digest;
use crate::cli::digest::{file_digest, same_digest};
use crate::cli::file;
use crate::cli::file::stitch;
use crate::cli::frames;
use crate::cli::frames::{StartInfo, StartModel};
use crate::codec::decoder;
use crate::codec::decoder::matrix;
use crate::codec::decoder::model::{DecoderModel, EventModel};
use crate::codec::{Decoder, DecoderEvent, DefaultDecoder};
use crate::config::{DecoderConfig, DecoderParams};
use crate::error::Result;
use crate::policy::defaults::ConstantFeedbackPolicy;
use crate::transport::receiver;
use crate::transport::receiver::handle_datagram;

verus! {

broadcast use {
    vstd::std_specs::btree::group_btree_axioms,
    vstd::laws_cmp::group_laws_cmp,
};

/// The symbols with those in `list` added.
pub open spec fn stored(m: Map<u32, Seq<u8>>, list: Seq<(u32, Seq<u8>)>) -> Map<u32, Seq<u8>>
    decreases list.len(),
{
    if list.len() == 0 {
        m
    } else {
        stored(m, list.drop_last()).insert(list.last().0, list.last().1)
    }
}

/// A file that has been put together.
#[derive(Debug)]
pub struct ReceivedFile {
    /// The contents.
    pub data: Vec<u8>,
    /// The digest is the one that was announced.
    pub verified: bool,
}

/// A file on its way in.
pub struct FileReceiver {
    start: StartInfo,
    decoder: DefaultDecoder,
    symbols: BTreeMap<u32, Bytes>,
    ended: bool,
}

impl FileReceiver {
    /// What the START frame said.
    pub closed spec fn announced(&self) -> StartModel {
        self.start@
    }

    /// The decoder.
    pub closed spec fn inner(&self) -> DefaultDecoder {
        self.decoder
    }

    /// The symbols that have been delivered.
    pub closed spec fn delivered(&self) -> Map<u32, Seq<u8>> {
        matrix::values_of(self.symbols@)
    }

    /// The END frame has arrived.
    pub closed spec fn over(&self) -> bool {
        self.ended
    }

    /// Waits for the file that a START frame announces.
    pub fn new(start: StartInfo) -> (r: Result<Self>)
        ensures
            ({
                let params = DecoderParams::initial(start.symbol_size as usize);
                match r {
                    Ok(f) => {
                        &&& params.rejection() is None
                        &&& f.announced() == start@
                        &&& f.inner().wf()
                        &&& f.inner()@ == DecoderModel::initial(params)
                        &&& f.inner().policy().every() == 8
                        &&& f.inner().policy().since() == 0
                        &&& f.delivered() == Map::<u32, Seq<u8>>::empty()
                        &&& !f.over()
                    },
                    Err(e) => params.rejection() == Some(e),
                }
            }),
    {
        let config = match DecoderConfig::builder(start.symbol_size as usize).build() {
            Ok(c) => c,
            Err(e) => return Err(e),
        };
        let r = Self {
            start,
            decoder: Decoder::new(config, ConstantFeedbackPolicy::new(8)),
            symbols: BTreeMap::new(),
            ended: false,
        };
        assert(r.delivered() =~= Map::<u32, Seq<u8>>::empty());
        Ok(r)
    }

    /// `post` is the receiver after a datagram: an END frame ends the file, packets
    /// go to the decoder, and everything else is ignored.
    pub open spec fn received(pre: Self, raw: Seq<u8>, post: Self) -> bool {
        &&& post.announced() == pre.announced()
        &&& if raw.len() >= 4 && raw[3] == frames::CTRL_END {
            &&& post.over()
            &&& post.inner() == pre.inner()
            &&& post.delivered() == pre.delivered()
        } else {
            &&& post.over() == pre.over()
            &&& exists|r: Option<Result<Vec<DecoderEvent>>>|
                {
                    &&& #[trigger] receiver::datagram_handled(pre.inner(), raw, r, post.inner())
                    &&& post.delivered() == match r {
                        Some(Ok(events)) => stored(
                            pre.delivered(),
                            receiver::ready_among(decoder::events_of(events@)),
                        ),
                        _ => pre.delivered(),
                    }
                }
        }
    }

    /// Takes in a datagram.
    pub fn on_datagram(&mut self, raw: &[u8])
        requires
            old(self).inner().wf(),
        ensures
            final(self).inner().wf(),
            Self::received(*old(self), raw@, *final(self)),
    {
        if raw.len() >= 4 && raw[3] == frames::CTRL_END {
            self.ended = true;
            return ;
        }
        let ghost m = self.delivered();
        let handled = handle_datagram(&mut self.decoder, raw);
        let ghost res = handled;
        if let Some(Ok(events)) = handled {
            let ghost told = decoder::events_of(events@);
            let mut i: usize = 0;
            assert(told.take(0) =~= Seq::<EventModel>::empty());
            while i < events.len()
                invariant
                    i <= events@.len(),
                    told == decoder::events_of(events@),
                    self.decoder.wf(),
                    self.start == old(self).start,
                    self.ended == old(self).ended,
                    res == Some(Ok::<Vec<DecoderEvent>, crate::error::DelpError>(events)),
                    receiver::datagram_handled(old(self).decoder, raw@, res, self.decoder),
                    self.delivered() == stored(m, receiver::ready_among(told.take(i as int))),
                decreases events@.len() - i,
            {
                let ghost before = self.symbols@;
                let ghost part = receiver::ready_among(told.take(i as int));
                assert(told.take(i + 1).drop_last() =~= told.take(i as int));
                assert(told.take(i + 1).last() == events@[i as int]@);
                if let DecoderEvent::SourceReady { id, data } = &events[i] {
                    self.symbols.insert(*id, bytes_clone(data));
                    let ghost p = (*id, buffers::bytes_view(*data));
                    assert(matrix::values_of(self.symbols@) =~= matrix::values_of(before).insert(
                        p.0,
                        p.1,
                    ));
                    assert(part.push(p).drop_last() =~= part);
                }
                i += 1;
            }
            assert(told.take(told.len() as int) =~= told);
        }
        assert(receiver::datagram_handled(old(self).inner(), raw@, res, self.inner()));
    }

    /// Whether the END frame has arrived.
    pub fn has_ended(&self) -> (r: bool)
        ensures
            r == self.over(),
    {
        self.ended
    }

    /// Whether all symbols have been delivered.
    pub fn has_all(&self) -> (r: bool)
        ensures
            r == (self.delivered().len() >= self.announced().n_symbols),
    {
        assert(self.delivered().dom() =~= self.symbols@.dom());
        self.symbols.len() as u64 >= self.start.n_symbols as u64
    }

    /// The number of symbols that have been delivered.
    pub fn symbols_received(&self) -> (r: usize)
        ensures
            r == self.delivered().len(),
    {
        assert(self.delivered().dom() =~= self.symbols@.dom());
        self.symbols.len()
    }

    /// `r` is what the symbols that were delivered make: the file, or the first symbol
    /// that is missing.
    pub open spec fn finished(&self, r: core::result::Result<ReceivedFile, u32>) -> bool {
        match r {
            Ok(f) => {
                &&& forall|id: u32|
                    id < self.announced().n_symbols ==> #[trigger] self.delivered().contains_key(
                        id,
                    )
                &&& f.data@ == file::cut(
                    file::joined(self.delivered(), self.announced().n_symbols as nat),
                    self.announced().file_size as nat,
                )
                &&& f.verified == (digest::sha256(f.data@) == self.announced().sha256)
            },
            Err(id) => {
                &&& id < self.announced().n_symbols
                &&& !self.delivered().contains_key(id)
                &&& forall|j: u32| j < id ==> #[trigger] self.delivered().contains_key(j)
            },
        }
    }

    /// Puts the file together and checks its digest; fails with the first symbol
    /// that is missing.
    pub fn finish(&self) -> (r: core::result::Result<ReceivedFile, u32>)
        ensures
            self.finished(r),
    {
        match stitch(&self.symbols, self.start.n_symbols, self.start.file_size) {
            Ok(data) => {
                proof {
                    assert forall|id: u32| id < self.announced().n_symbols implies
                        #[trigger] self.delivered().contains_key(id) by {
                        assert(self.symbols@.contains_key(id));
                    }
                }
                let verified: bool = same_digest(
                    &file_digest(data.as_slice()),
                    &self.start.sha256,
                );
                Ok(ReceivedFile { data, verified })
            },
            Err(id) => {
                proof {
                    assert forall|j: u32| j < id implies #[trigger] self.delivered().contains_key(
                        j,
                    ) by {
                        assert(self.symbols@.contains_key(j));
                    }
                }
                Err(id)
            },
        }
    }
}

} // verus!
