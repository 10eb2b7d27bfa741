//! Source packets.
//!
//! ```text
//! [CommonHeader][CCI?][TSI?][source_symbol_id: u32][payload]
//! ```
use vstd::prelude::*;

use crate::error::{DelpError, Result};
use crate::wire::be;
use crate::wire::be::{push_u32, read_u32};
use crate::wire::common;
use crate::wire::common::{CciLength, CommonHeader, PacketType};

verus! {

/// A source packet; CCI and payload are slices of the buffer it was read from.
#[derive(Debug, Clone, Copy)]
pub struct SourcePacket<'a> {
    /// The common header.
    pub header: CommonHeader,
    /// The CCI bytes: 0, 4, 8 or 12 of them.
    pub cci: &'a [u8],
    /// The session identifier, where the header says that there is one.
    pub tsi: Option<u32>,
    /// The id of the source symbol.
    pub source_symbol_id: u32,
    /// The source symbol.
    pub payload: &'a [u8],
}

/// What a source packet says.
#[verifier::ext_equal]
pub struct SourceModel {
    pub header: CommonHeader,
    pub cci: Seq<u8>,
    pub tsi: Option<u32>,
    pub id: u32,
    pub payload: Seq<u8>,
}

impl<'a> View for SourcePacket<'a> {
    type V = SourceModel;

    open spec fn view(&self) -> SourceModel {
        SourceModel {
            header: self.header,
            cci: self.cci@,
            tsi: self.tsi,
            id: self.source_symbol_id,
            payload: self.payload@,
        }
    }
}

/// The CCI bytes behind a header.
pub open spec fn cci_of(buf: Seq<u8>, h: CommonHeader) -> Seq<u8> {
    buf.subrange(4, 4 + 4 * h.cci_count() as int)
}

/// The session identifier behind a header, if there is one.
pub open spec fn tsi_of(buf: Seq<u8>, h: CommonHeader) -> Option<u32> {
    if h.tsi_flag() {
        Some(be::u32_at(buf, 4 + 4 * h.cci_count() as int))
    } else {
        None
    }
}

/// The session identifier on the wire.
pub open spec fn tsi_bytes(tsi: Option<u32>) -> Seq<u8> {
    match tsi {
        Some(t) => be::be32(t),
        None => Seq::empty(),
    }
}

/// What a buffer says as a source packet, or why it is refused.
pub open spec fn source_from(buf: Seq<u8>) -> core::result::Result<SourceModel, DelpError> {
    match common::header_from(buf) {
        Err(e) => Err(e),
        Ok(h) => match common::type_from(h.pkt_type) {
            Err(e) => Err(e),
            Ok(t) => if t != PacketType::Source {
                Err(DelpError::UnknownPacketType(buf[3]))
            } else if buf.len() < h.body_start() + 4 {
                Err(
                    DelpError::BufferTooShort {
                        needed: (h.body_start() + 4) as usize,
                        available: buf.len() as usize,
                    },
                )
            } else {
                Ok(
                    SourceModel {
                        header: h,
                        cci: cci_of(buf, h),
                        tsi: tsi_of(buf, h),
                        id: be::u32_at(buf, h.body_start() as int),
                        payload: buf.skip((h.body_start() + 4) as int),
                    },
                )
            },
        },
    }
}

/// The header of a source packet.
pub open spec fn source_header(cci: Seq<u8>, tsi: Option<u32>) -> CommonHeader {
    let words = cci.len() / 4;
    common::header_of(
        PacketType::Source,
        common::cci_of_words(words),
        tsi is Some,
        (2 + words + (if tsi is Some { 1nat } else { 0 })) as u8,
    )
}

/// The bytes of a source packet.
pub open spec fn source_bytes(id: u32, payload: Seq<u8>, cci: Seq<u8>, tsi: Option<u32>) -> Seq<
    u8,
> {
    source_header(cci, tsi).bytes() + cci + tsi_bytes(tsi) + be::be32(id) + payload
}

/// CCI bytes are 0, 4, 8 or 12.
pub open spec fn valid_cci(cci: Seq<u8>) -> bool {
    cci.len() % 4 == 0 && cci.len() <= 12
}

/// Reads CCI and session identifier behind a header.
pub(crate) fn read_extensions<'a>(buf: &'a [u8], header: CommonHeader) -> (r: (
    &'a [u8],
    Option<u32>,
))
    requires
        buf@.len() >= header.body_start(),
    ensures
        r.0@ == cci_of(buf@, header),
        r.1 == tsi_of(buf@, header),
{
    let cci_end: usize = CommonHeader::SIZE + header.cci_words() as usize * 4;
    let cci = vstd::slice::slice_subrange(buf, CommonHeader::SIZE, cci_end);
    let tsi = if header.has_tsi() {
        Some(read_u32(buf, cci_end))
    } else {
        None
    };
    (cci, tsi)
}

/// Appends CCI and session identifier.
pub(crate) fn push_extensions(out: &mut Vec<u8>, cci: &[u8], tsi: Option<u32>)
    ensures
        final(out)@ == old(out)@ + cci@ + tsi_bytes(tsi),
{
    out.extend_from_slice(cci);
    if let Some(t) = tsi {
        push_u32(out, t);
    }
    assert(out@ =~= old(out)@ + cci@ + tsi_bytes(tsi));
}

impl<'a> SourcePacket<'a> {
    /// Reads a source packet.
    pub fn parse(buf: &'a [u8]) -> (r: Result<Self>)
        ensures
            match r {
                Ok(p) => source_from(buf@) == Ok::<SourceModel, DelpError>(p@),
                Err(e) => source_from(buf@) == Err::<SourceModel, DelpError>(e),
            },
    {
        let header = match CommonHeader::parse(buf) {
            Ok(h) => h,
            Err(e) => return Err(e),
        };
        match header.packet_type() {
            Ok(t) => {
                if t != PacketType::Source {
                    return Err(DelpError::UnknownPacketType(buf[3]));
                }
            },
            Err(e) => return Err(e),
        }
        let body_off: usize = header.body_offset();
        if buf.len() < body_off + 4 {
            return Err(
                DelpError::BufferTooShort { needed: body_off + 4, available: buf.len() },
            );
        }
        let (cci, tsi) = read_extensions(buf, header);
        let source_symbol_id: u32 = read_u32(buf, body_off);
        let payload = vstd::slice::slice_subrange(buf, body_off + 4, buf.len());
        assert(payload@ =~= buf@.skip(body_off + 4));
        Ok(Self { header, cci, tsi, source_symbol_id, payload })
    }

    /// The bytes of a source packet.
    ///
    /// `cci_bytes` must be 0, 4, 8 or 12 bytes.
    pub fn serialise(
        source_symbol_id: u32,
        payload: &[u8],
        cci_bytes: &[u8],
        tsi: Option<u32>,
    ) -> (r: Vec<u8>)
        requires
            valid_cci(cci_bytes@),
        ensures
            r@ == source_bytes(source_symbol_id, payload@, cci_bytes@, tsi),
    {
        let cci_words: u8 = (cci_bytes.len() / 4) as u8;
        let tsi_words: u8 = if tsi.is_some() {
            1
        } else {
            0
        };
        let cci_length = CciLength::from_words(cci_words);
        let hdr = CommonHeader::new(
            PacketType::Source,
            cci_length,
            tsi.is_some(),
            1 + cci_words + tsi_words + 1,
        );
        assert(cci_length == common::cci_of_words(cci_bytes@.len() / 4));
        let mut out: Vec<u8> = Vec::new();
        out.extend_from_slice(hdr.to_bytes().as_slice());
        assert(out@ =~= hdr.bytes());
        push_extensions(&mut out, cci_bytes, tsi);
        push_u32(&mut out, source_symbol_id);
        out.extend_from_slice(payload);
        assert(out@ =~= source_bytes(source_symbol_id, payload@, cci_bytes@, tsi));
        out
    }
}

/// CCI and session identifier are read back.
pub proof fn lemma_extensions(h: CommonHeader, cci: Seq<u8>, tsi: Option<u32>, rest: Seq<u8>)
    requires
        valid_cci(cci),
        h.cci_count() == cci.len() / 4,
        h.tsi_flag() == (tsi is Some),
    ensures
        ({
            let buf = h.bytes() + cci + tsi_bytes(tsi) + rest;
            &&& cci_of(buf, h) == cci
            &&& tsi_of(buf, h) == tsi
            &&& buf.len() == h.body_start() + rest.len()
            &&& buf.skip(h.body_start() as int) == rest
        }),
{
    let buf = h.bytes() + cci + tsi_bytes(tsi) + rest;
    assert(cci_of(buf, h) =~= cci);
    if let Some(t) = tsi {
        be::lemma_be32(t);
        be::lemma_u32_at_append(h.bytes() + cci, t, rest);
    }
    assert(buf.skip(h.body_start() as int) =~= rest);
}

/// Parsing gives back what was serialised.
pub proof fn lemma_source_round_trip(id: u32, payload: Seq<u8>, cci: Seq<u8>, tsi: Option<u32>)
    requires
        valid_cci(cci),
    ensures
        source_from(source_bytes(id, payload, cci, tsi)) == Ok::<SourceModel, DelpError>(
            SourceModel { header: source_header(cci, tsi), cci, tsi, id, payload },
        ),
{
    let h = source_header(cci, tsi);
    let buf = source_bytes(id, payload, cci, tsi);
    let words = cci.len() / 4;
    common::lemma_cci_of_words(words);
    be::lemma_be32(id);
    let rest = be::be32(id) + payload;
    let tail = cci + tsi_bytes(tsi) + rest;
    if let Some(t) = tsi {
        be::lemma_be32(t);
    }
    assert(buf =~= h.bytes() + tail);
    assert(buf =~= h.bytes() + cci + tsi_bytes(tsi) + rest);
    common::lemma_header_round_trip(
        PacketType::Source,
        common::cci_of_words(words),
        tsi is Some,
        h.hdr_len_words,
        0,
        tail,
    );
    lemma_extensions(h, cci, tsi, rest);
    be::lemma_u32_at_append(h.bytes() + cci + tsi_bytes(tsi), id, payload);
    assert(buf =~= h.bytes() + cci + tsi_bytes(tsi) + be::be32(id) + payload);
    assert(buf.skip((h.body_start() + 4) as int) =~= payload);
}

} // verus!
