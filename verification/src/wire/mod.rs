//! The binary packet format.
use vstd::prelude::*;

pub mod be;
pub mod coded;
pub mod common;
pub mod ev;
pub mod feedback;
pub mod laws;
pub mod source;

pub use coded::CodedPacket;
pub use common::{CciLength, CommonHeader, PacketType};
pub use ev::EncodingVector;
pub use feedback::FeedbackPacket;
pub use source::SourcePacket;

use crate::error::{DelpError, Result};
use coded::CodedModel;
use feedback::FeedbackModel;
use source::SourceModel;

verus! {

/// A packet of any type.
#[derive(Debug)]
pub enum DelpPacket<'a> {
    Source(SourcePacket<'a>),
    Coded(CodedPacket<'a>),
    Feedback(FeedbackPacket),
}

/// What a packet of any type says.
pub enum PacketModel {
    Source(SourceModel),
    Coded(CodedModel),
    Feedback(FeedbackModel),
}

impl<'a> View for DelpPacket<'a> {
    type V = PacketModel;

    open spec fn view(&self) -> PacketModel {
        match self {
            DelpPacket::Source(p) => PacketModel::Source(p@),
            DelpPacket::Coded(p) => PacketModel::Coded(p@),
            DelpPacket::Feedback(p) => PacketModel::Feedback(p@),
        }
    }
}

/// The length of a feedback packet with its padding.
pub open spec fn feedback_end(h: CommonHeader, m: FeedbackModel) -> nat {
    h.body_start() + 16 + ev::pad32_len(m.sack.len())
}

/// What a buffer says as a packet, or why it is refused.
///
/// The payload of a source or coded packet reaches to the end of the buffer.
/// Behind a feedback packet nothing may follow.
pub open spec fn packet_from(buf: Seq<u8>) -> core::result::Result<PacketModel, DelpError> {
    match common::header_from(buf) {
        Err(e) => Err(e),
        Ok(h) => match common::type_from(h.pkt_type) {
            Err(e) => Err(e),
            Ok(PacketType::Source) => match source::source_from(buf) {
                Ok(m) => Ok(PacketModel::Source(m)),
                Err(e) => Err(e),
            },
            Ok(PacketType::Coded) => match coded::coded_from(buf) {
                Ok(m) => Ok(PacketModel::Coded(m)),
                Err(e) => Err(e),
            },
            Ok(PacketType::Feedback) => match feedback::feedback_from(buf) {
                Ok(m) => if buf.len() > feedback_end(h, m) {
                    Err(
                        DelpError::InvalidHeaderLength {
                            hdr_len_words: h.hdr_len_words,
                            packet_len: buf.len() as usize,
                        },
                    )
                } else {
                    Ok(PacketModel::Feedback(m))
                },
                Err(e) => Err(e),
            },
        },
    }
}

impl<'a> DelpPacket<'a> {
    /// Reads one packet.
    ///
    /// The slice must hold exactly one packet; trailing bytes are an error.  The
    /// payload refers into `buf`.
    pub fn parse(buf: &'a [u8]) -> (r: Result<Self>)
        ensures
            match r {
                Ok(p) => packet_from(buf@) == Ok::<PacketModel, DelpError>(p@),
                Err(e) => packet_from(buf@) == Err::<PacketModel, DelpError>(e),
            },
            r matches Ok(DelpPacket::Coded(p)) ==> p@.ev.wf(),
    {
        let hdr = match CommonHeader::parse(buf) {
            Ok(h) => h,
            Err(e) => return Err(e),
        };
        let kind = match hdr.packet_type() {
            Ok(t) => t,
            Err(e) => return Err(e),
        };
        match kind {
            PacketType::Source => match SourcePacket::parse(buf) {
                Ok(p) => Ok(DelpPacket::Source(p)),
                Err(e) => Err(e),
            },
            PacketType::Coded => match CodedPacket::parse(buf) {
                Ok(p) => Ok(DelpPacket::Coded(p)),
                Err(e) => Err(e),
            },
            PacketType::Feedback => match FeedbackPacket::parse(buf) {
                Ok(p) => {
                    let end: usize = hdr.body_offset() + 16 + ev::pad32(p.sack.len());
                    if buf.len() > end {
                        Err(
                            DelpError::InvalidHeaderLength {
                                hdr_len_words: hdr.hdr_len_words,
                                packet_len: buf.len(),
                            },
                        )
                    } else {
                        Ok(DelpPacket::Feedback(p))
                    }
                },
                Err(e) => Err(e),
            },
        }
    }
}

} // verus!
