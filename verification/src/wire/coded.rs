//! Coded packets.
//!
//! ```text
//! [CommonHeader][CCI?][TSI?][coded_symbol_id: u32][EncodingVector][payload]
//! ```
//!
//! The reserved byte of the header tells the start of the encoder's window: it is
//! the distance from there to the first id of the encoding vector.
use vstd::prelude::*;

use crate::error::{DelpError, Result};
use crate::wire::be;
use crate::wire::be::{push_u32, read_u32};
use crate::wire::common;
use crate::wire::common::{CciLength, CommonHeader, PacketType};
use crate::wire::ev;
use crate::wire::ev::id_storage::IdStorageFormat;
use crate::wire::ev::{EncodingVector, EvModel};
use crate::wire::source;
use crate::wire::source::{push_extensions, read_extensions};

verus! {

/// The distance that tells nothing of the encoder's window.
pub const UNTOLD: u8 = 255;

/// The distance from the start of the window to the first covered id, as far as the
/// byte holds it.
pub open spec fn lag_of(first: u32, start: u32) -> u8 {
    if start <= first && first - start < UNTOLD {
        (first - start) as u8
    } else {
        UNTOLD
    }
}

/// The distance from the start of the window to the first covered id.
pub fn window_lag(first: u32, start: u32) -> (r: u8)
    ensures
        r == lag_of(first, start),
{
    if start <= first && first - start < UNTOLD as u32 {
        (first - start) as u8
    } else {
        UNTOLD
    }
}

/// The start of the encoder's window, as far as a packet over `ids` tells it.
pub open spec fn start_told(ids: Seq<u32>, lag: u8) -> Option<u32> {
    if ids.len() == 0 || lag == UNTOLD || ids[0] < lag {
        None
    } else {
        Some((ids[0] - lag) as u32)
    }
}

/// A packet tells the start of the window, or nothing.
pub proof fn lemma_start_told(ids: Seq<u32>, start: u32)
    requires
        ids.len() > 0,
    ensures
        start_told(ids, lag_of(ids[0], start)) matches Some(x) ==> x == start,
        start <= ids[0] < start + 255 ==> start_told(ids, lag_of(ids[0], start)) == Some(start),
{
}

/// A coded packet; CCI and payload are slices of the buffer it was read from.
#[derive(Debug)]
pub struct CodedPacket<'a> {
    /// The common header.
    pub header: CommonHeader,
    /// The CCI bytes: 0, 4, 8 or 12 of them.
    pub cci: &'a [u8],
    /// The session identifier, where the header says that there is one.
    pub tsi: Option<u32>,
    /// The id of the coded packet.
    pub coded_symbol_id: u32,
    /// What the payload is a combination of.
    pub ev: EncodingVector,
    /// The combination.
    pub payload: &'a [u8],
}

/// What a coded packet says.
#[verifier::ext_equal]
pub struct CodedModel {
    pub header: CommonHeader,
    pub cci: Seq<u8>,
    pub tsi: Option<u32>,
    pub id: u32,
    pub ev: EvModel,
    pub payload: Seq<u8>,
}

impl CodedModel {
    /// The start of the encoder's window, as far as the packet tells it.
    pub open spec fn start(self) -> Option<u32> {
        start_told(self.ev.ids, self.header.reserved)
    }
}

impl<'a> View for CodedPacket<'a> {
    type V = CodedModel;

    open spec fn view(&self) -> CodedModel {
        CodedModel {
            header: self.header,
            cci: self.cci@,
            tsi: self.tsi,
            id: self.coded_symbol_id,
            ev: self.ev@,
            payload: self.payload@,
        }
    }
}

impl<'a> Clone for CodedPacket<'a> {
    fn clone(&self) -> (r: Self)
        ensures
            r@ == self@,
    {
        CodedPacket {
            header: self.header,
            cci: self.cci,
            tsi: self.tsi,
            coded_symbol_id: self.coded_symbol_id,
            ev: self.ev.clone(),
            payload: self.payload,
        }
    }
}

/// What a buffer says as a coded packet, or why it is refused.
pub open spec fn coded_from(buf: Seq<u8>) -> core::result::Result<CodedModel, DelpError> {
    match common::header_from(buf) {
        Err(e) => Err(e),
        Ok(h) => match common::type_from(h.pkt_type) {
            Err(e) => Err(e),
            Ok(t) => {
                let start = h.body_start() + 4;
                if t != PacketType::Coded {
                    Err(DelpError::UnknownPacketType(buf[3]))
                } else if buf.len() < start {
                    Err(
                        DelpError::BufferTooShort {
                            needed: start as usize,
                            available: buf.len() as usize,
                        },
                    )
                } else if buf.len() == start {
                    Err(
                        DelpError::BufferTooShort {
                            needed: (start + 1) as usize,
                            available: buf.len() as usize,
                        },
                    )
                } else {
                    let id = be::u32_at(buf, h.body_start() as int);
                    match ev::ev_from(buf.skip(start as int), id) {
                        Err(e) => Err(e),
                        Ok((v, used)) => Ok(
                            CodedModel {
                                header: h,
                                cci: source::cci_of(buf, h),
                                tsi: source::tsi_of(buf, h),
                                id,
                                ev: v,
                                payload: buf.skip((start + used) as int),
                            },
                        ),
                    }
                }
            },
        },
    }
}

/// The header of a coded packet.
pub open spec fn coded_header(v: EvModel, cci: Seq<u8>, tsi: Option<u32>, lag: u8) -> CommonHeader {
    let words = cci.len() / 4;
    CommonHeader {
        reserved: lag,
        ..common::header_of(
            PacketType::Coded,
            common::cci_of_words(words),
            tsi is Some,
            ((2 + words + (if tsi is Some { 1nat } else { 0 }) + ev::word_count(v)) % 256) as u8,
        )
    }
}

/// The bytes of a coded packet.
pub open spec fn coded_bytes(
    id: u32,
    v: EvModel,
    payload: Seq<u8>,
    cci: Seq<u8>,
    tsi: Option<u32>,
    lag: u8,
) -> Seq<u8> {
    coded_header(v, cci, tsi, lag).bytes() + cci + source::tsi_bytes(tsi) + be::be32(id) + ev::ev_bytes(
        v,
    ) + payload
}

impl<'a> CodedPacket<'a> {
    /// Reads a coded packet.
    pub fn parse(buf: &'a [u8]) -> (r: Result<Self>)
        ensures
            match r {
                Ok(p) => coded_from(buf@) == Ok::<CodedModel, DelpError>(p@) && p@.ev.wf(),
                Err(e) => coded_from(buf@) == Err::<CodedModel, DelpError>(e),
            },
    {
        let header = match CommonHeader::parse(buf) {
            Ok(h) => h,
            Err(e) => return Err(e),
        };
        match header.packet_type() {
            Ok(t) => {
                if t != PacketType::Coded {
                    return Err(DelpError::UnknownPacketType(buf[3]));
                }
            },
            Err(e) => return Err(e),
        }
        let id_off: usize = header.body_offset();
        let ev_start: usize = id_off + 4;
        if buf.len() < ev_start {
            return Err(DelpError::BufferTooShort { needed: ev_start, available: buf.len() });
        }
        if buf.len() <= ev_start {
            return Err(DelpError::BufferTooShort { needed: ev_start + 1, available: buf.len() });
        }
        let (cci, tsi) = read_extensions(buf, header);
        let coded_symbol_id: u32 = read_u32(buf, id_off);
        let rest = vstd::slice::slice_subrange(buf, ev_start, buf.len());
        assert(rest@ =~= buf@.skip(ev_start as int));
        let (vector, used) = match EncodingVector::parse(rest, coded_symbol_id) {
            Ok(p) => p,
            Err(e) => return Err(e),
        };
        let payload = vstd::slice::slice_subrange(buf, ev_start + used, buf.len());
        assert(payload@ =~= buf@.skip(ev_start + used));
        Ok(Self { header, cci, tsi, coded_symbol_id, ev: vector, payload })
    }

    /// The start of the encoder's window, as far as the packet tells it.
    pub fn window_start(&self) -> (r: Option<u32>)
        ensures
            r == self@.start(),
    {
        let ids: &[u32] = self.ev.source_ids.as_slice();
        let lag: u8 = self.header.reserved;
        if ids.len() == 0 || lag == UNTOLD || ids[0] < lag as u32 {
            None
        } else {
            Some(ids[0] - lag as u32)
        }
    }

    /// The bytes of a coded packet whose first id is the first of the window.
    ///
    /// `cci_bytes` must be 0, 4, 8 or 12 bytes.
    pub fn serialise(
        coded_symbol_id: u32,
        vector: &EncodingVector,
        payload: &[u8],
        cci_bytes: &[u8],
        tsi: Option<u32>,
    ) -> (r: Vec<u8>)
        requires
            source::valid_cci(cci_bytes@),
            vector@.format == IdStorageFormat::Contiguous || vector@.ids.len() > 0,
        ensures
            r@ == coded_bytes(coded_symbol_id, vector@, payload@, cci_bytes@, tsi, 0),
    {
        Self::serialise_behind(coded_symbol_id, vector, payload, cci_bytes, tsi, 0)
    }

    /// The bytes of a coded packet whose first id lies `lag` behind the first of the
    /// window.
    ///
    /// `cci_bytes` must be 0, 4, 8 or 12 bytes.
    pub fn serialise_behind(
        coded_symbol_id: u32,
        vector: &EncodingVector,
        payload: &[u8],
        cci_bytes: &[u8],
        tsi: Option<u32>,
        lag: u8,
    ) -> (r: Vec<u8>)
        requires
            source::valid_cci(cci_bytes@),
            vector@.format == IdStorageFormat::Contiguous || vector@.ids.len() > 0,
        ensures
            r@ == coded_bytes(coded_symbol_id, vector@, payload@, cci_bytes@, tsi, lag),
    {
        let cci_words: usize = cci_bytes.len() / 4;
        let tsi_words: usize = if tsi.is_some() {
            1
        } else {
            0
        };
        let ev_bytes = vector.serialise();
        proof {
            ev::lemma_word_count(vector@);
        }
        let ev_words: usize = ev_bytes.len() / 4;
        let cci_length = CciLength::from_words(cci_words as u8);
        assert(cci_length == common::cci_of_words(cci_bytes@.len() / 4));
        let words: usize = (2 + cci_words + tsi_words + ev_words) % 256;
        let mut hdr = CommonHeader::new(PacketType::Coded, cci_length, tsi.is_some(), words as u8);
        hdr.reserved = lag;
        assert(hdr == coded_header(vector@, cci_bytes@, tsi, lag));
        let mut out: Vec<u8> = Vec::new();
        out.extend_from_slice(hdr.to_bytes().as_slice());
        assert(out@ =~= hdr.bytes());
        push_extensions(&mut out, cci_bytes, tsi);
        push_u32(&mut out, coded_symbol_id);
        out.extend_from_slice(ev_bytes.as_slice());
        out.extend_from_slice(payload);
        out
    }
}

/// The parts of a coded packet stand where they are read.
proof fn lemma_coded_layout(
    h: CommonHeader,
    id: u32,
    vb: Seq<u8>,
    payload: Seq<u8>,
    cci: Seq<u8>,
    tsi: Option<u32>,
)
    requires
        source::valid_cci(cci),
        h.cci_count() == cci.len() / 4,
        h.tsi_flag() == (tsi is Some),
    ensures
        ({
            let buf = h.bytes() + cci + source::tsi_bytes(tsi) + be::be32(id) + vb + payload;
            let start = h.body_start() + 4;
            &&& source::cci_of(buf, h) == cci
            &&& source::tsi_of(buf, h) == tsi
            &&& be::u32_at(buf, h.body_start() as int) == id
            &&& buf.len() == start + vb.len() + payload.len()
            &&& buf.skip(start as int) == vb + payload
            &&& buf.skip((start + vb.len()) as int) == payload
            &&& buf == h.bytes() + (cci + source::tsi_bytes(tsi) + be::be32(id) + vb + payload)
        }),
{
    let pre = h.bytes() + cci + source::tsi_bytes(tsi);
    let rest = be::be32(id) + vb + payload;
    let buf = pre + be::be32(id) + vb + payload;
    be::lemma_be32(id);
    if let Some(t) = tsi {
        be::lemma_be32(t);
    }
    assert(buf =~= pre + rest);
    source::lemma_extensions(h, cci, tsi, rest);
    assert(buf =~= pre + be::be32(id) + (vb + payload));
    be::lemma_u32_at_append(pre, id, vb + payload);
    let start = h.body_start() + 4;
    assert(buf.skip(start as int) =~= vb + payload);
    assert(buf.skip((start + vb.len()) as int) =~= payload);
    assert(buf =~= h.bytes() + (cci + source::tsi_bytes(tsi) + be::be32(id) + vb + payload));
}

/// Parsing gives back what was serialised.
pub proof fn lemma_coded_round_trip(
    id: u32,
    v: EvModel,
    payload: Seq<u8>,
    cci: Seq<u8>,
    tsi: Option<u32>,
    lag: u8,
)
    requires
        source::valid_cci(cci),
        ev::fits_wire(v),
    ensures
        coded_from(coded_bytes(id, v, payload, cci, tsi, lag)) == Ok::<CodedModel, DelpError>(
            CodedModel {
                header: coded_header(v, cci, tsi, lag),
                cci,
                tsi,
                id,
                ev: EvModel { coded_id: id, ..v },
                payload,
            },
        ),
{
    let h = coded_header(v, cci, tsi, lag);
    let w = EvModel { coded_id: id, ..v };
    let vb = ev::ev_bytes(v);
    common::lemma_cci_of_words(cci.len() / 4);
    ev::lemma_coded_id_not_stored(v, id);
    ev::lemma_ev_round_trip(w, payload);
    let n = ev::word_count(v);
    assert(vb.len() == 4 * n);
    be::lemma_be32(id);
    if let Some(t) = tsi {
        be::lemma_be32(t);
    }
    let tail = cci + source::tsi_bytes(tsi) + be::be32(id) + vb + payload;
    common::lemma_header_round_trip(
        PacketType::Coded,
        common::cci_of_words(cci.len() / 4),
        tsi is Some,
        h.hdr_len_words,
        lag,
        tail,
    );
    lemma_coded_layout(h, id, vb, payload, cci, tsi);
    ev::lemma_word_count(v);
    let buf = coded_bytes(id, v, payload, cci, tsi, lag);
    assert(buf == h.bytes() + tail);
    assert(common::header_from(buf) == Ok::<CommonHeader, DelpError>(h));
    assert(ev::ev_from(buf.skip((h.body_start() + 4) as int), id) == Ok::<
        (EvModel, nat),
        DelpError,
    >((w, vb.len())));
}

} // verus!
