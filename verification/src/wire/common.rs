//! The header that every packet starts with.
//!
//! ```text
//! Byte 0: [V:4][C:2][S:1][Rsvd:1]
//! Byte 1: [Rsvd:8], in coded packets the distance from the start of the window
//! Byte 2: [HDR_LEN:8], the header length in 32-bit words
//! Byte 3: [PKT_TYPE:8]
//! ```
use vstd::prelude::*;

use crate::error::{DelpError, Result};

verus! {

/// The common header: 4 bytes.
#[derive(Debug, Clone, Copy, PartialEq, Eq, Structural)]
pub struct CommonHeader {
    /// `[V:4][C:2][S:1][Rsvd:1]`
    pub flags: u8,
    /// Not used but in coded packets.
    pub reserved: u8,
    /// The header length in 32-bit words.
    pub hdr_len_words: u8,
    /// The number of the packet type.
    pub pkt_type: u8,
}

/// The header that the bytes at the start of `buf` hold, or why they are refused.
pub open spec fn header_from(buf: Seq<u8>) -> core::result::Result<CommonHeader, DelpError> {
    if buf.len() < 4 {
        Err(DelpError::BufferTooShort { needed: 4, available: buf.len() as usize })
    } else if buf[0] / 16 != 1 {
        Err(DelpError::UnsupportedVersion(buf[0] / 16))
    } else if 4 * buf[2] > buf.len() {
        Err(
            DelpError::InvalidHeaderLength {
                hdr_len_words: buf[2],
                packet_len: buf.len() as usize,
            },
        )
    } else {
        Ok(header_at(buf))
    }
}

/// The first four bytes as a header.
pub open spec fn header_at(buf: Seq<u8>) -> CommonHeader {
    CommonHeader { flags: buf[0], reserved: buf[1], hdr_len_words: buf[2], pkt_type: buf[3] }
}

/// The header of a packet.
pub open spec fn header_of(
    pkt_type: PacketType,
    cci: CciLength,
    has_tsi: bool,
    hdr_len_words: u8,
) -> CommonHeader {
    CommonHeader {
        flags: (16 + 4 * cci.count() + (if has_tsi { 2int } else { 0 })) as u8,
        reserved: 0,
        hdr_len_words,
        pkt_type: pkt_type.number(),
    }
}

impl CommonHeader {
    /// The length of the header in bytes.
    pub const SIZE: usize = 4;

    /// The version of the protocol.
    pub const VERSION: u8 = 1;

    /// The bytes of the header.
    pub open spec fn bytes(self) -> Seq<u8> {
        seq![self.flags, self.reserved, self.hdr_len_words, self.pkt_type]
    }

    /// The number of CCI words.
    pub open spec fn cci_count(self) -> nat {
        (self.flags / 4 % 4) as nat
    }

    /// The session identifier is present.
    pub open spec fn tsi_flag(self) -> bool {
        self.flags / 2 % 2 == 1
    }

    /// Where the body of the packet starts.
    pub open spec fn body_start(self) -> nat {
        4 + 4 * self.cci_count() + (if self.tsi_flag() { 4nat } else { 0 })
    }

    /// A header of the current version.
    pub fn new(pkt_type: PacketType, cci: CciLength, has_tsi: bool, hdr_len_words: u8) -> (r: Self)
        ensures
            r == header_of(pkt_type, cci, has_tsi, hdr_len_words),
    {
        let tsi_bit: u8 = if has_tsi {
            2
        } else {
            0
        };
        let flags: u8 = Self::VERSION * 16 + cci.words() * 4 + tsi_bit;
        Self { flags, reserved: 0, hdr_len_words, pkt_type: pkt_type.to_u8() }
    }

    /// The bytes of the header.
    pub fn to_bytes(self) -> (r: [u8; 4])
        ensures
            r@ == self.bytes(),
    {
        let r = [self.flags, self.reserved, self.hdr_len_words, self.pkt_type];
        assert(r@ =~= self.bytes());
        r
    }

    /// Reads four bytes as a header, without looking at what they say.
    pub fn ref_from_bytes(bytes: &[u8]) -> (r: Option<Self>)
        ensures
            r == (if bytes@.len() == 4 {
                Some(header_at(bytes@))
            } else {
                None
            }),
    {
        if bytes.len() == Self::SIZE {
            Some(
                Self {
                    flags: bytes[0],
                    reserved: bytes[1],
                    hdr_len_words: bytes[2],
                    pkt_type: bytes[3],
                },
            )
        } else {
            None
        }
    }

    /// Reads the header at the start of `buf`.
    pub fn parse(buf: &[u8]) -> (r: Result<Self>)
        ensures
            r == header_from(buf@),
    {
        if buf.len() < Self::SIZE {
            return Err(DelpError::BufferTooShort { needed: Self::SIZE, available: buf.len() });
        }
        let hdr = Self {
            flags: buf[0],
            reserved: buf[1],
            hdr_len_words: buf[2],
            pkt_type: buf[3],
        };
        let ver: u8 = hdr.version();
        if ver != Self::VERSION {
            return Err(DelpError::UnsupportedVersion(ver));
        }
        if hdr.hdr_len_bytes() > buf.len() {
            return Err(
                DelpError::InvalidHeaderLength {
                    hdr_len_words: hdr.hdr_len_words,
                    packet_len: buf.len(),
                },
            );
        }
        Ok(hdr)
    }

    /// The version field.
    pub fn version(self) -> (r: u8)
        ensures
            r == self.flags / 16,
    {
        self.flags / 16
    }

    /// The number of CCI words.
    pub fn cci_words(self) -> (r: u8)
        ensures
            r == self.cci_count(),
            r < 4,
    {
        self.flags / 4 % 4
    }

    /// Whether the session identifier is present.
    pub fn has_tsi(self) -> (r: bool)
        ensures
            r == self.tsi_flag(),
    {
        self.flags / 2 % 2 == 1
    }

    /// The header length in bytes.
    pub fn hdr_len_bytes(self) -> (r: usize)
        ensures
            r == 4 * self.hdr_len_words,
    {
        self.hdr_len_words as usize * 4
    }

    /// The type of the packet.
    pub fn packet_type(self) -> (r: Result<PacketType>)
        ensures
            r == type_from(self.pkt_type),
    {
        PacketType::from_u8(self.pkt_type)
    }

    /// The number of CCI words.
    pub fn cci_length(self) -> (r: CciLength)
        ensures
            r.count() == self.cci_count(),
    {
        CciLength::from_words(self.cci_words())
    }

    /// Where the body starts, behind CCI and session identifier.
    pub fn body_offset(self) -> (r: usize)
        ensures
            r == self.body_start(),
            r <= 20,
    {
        let tsi: usize = if self.has_tsi() {
            4
        } else {
            0
        };
        Self::SIZE + self.cci_words() as usize * 4 + tsi
    }
}

/// The type of a packet.
#[derive(Debug, Clone, Copy, PartialEq, Eq, Structural)]
pub enum PacketType {
    /// A source symbol.
    Source,
    /// A combination of source symbols.
    Coded,
    /// A window update.
    Feedback,
}

/// The packet type with the number `v`.
pub open spec fn type_from(v: u8) -> core::result::Result<PacketType, DelpError> {
    if v == 0 {
        Ok(PacketType::Source)
    } else if v == 1 {
        Ok(PacketType::Coded)
    } else if v == 2 {
        Ok(PacketType::Feedback)
    } else {
        Err(DelpError::UnknownPacketType(v))
    }
}

impl PacketType {
    /// The number of the type.
    pub open spec fn number(self) -> u8 {
        match self {
            Self::Source => 0,
            Self::Coded => 1,
            Self::Feedback => 2,
        }
    }

    /// The type with the number `v`.
    pub fn from_u8(v: u8) -> (r: Result<Self>)
        ensures
            r == type_from(v),
    {
        match v {
            0x00 => Ok(Self::Source),
            0x01 => Ok(Self::Coded),
            0x02 => Ok(Self::Feedback),
            _ => Err(DelpError::UnknownPacketType(v)),
        }
    }

    /// The number of the type.
    pub fn to_u8(self) -> (r: u8)
        ensures
            r == self.number(),
    {
        match self {
            Self::Source => 0x00,
            Self::Coded => 0x01,
            Self::Feedback => 0x02,
        }
    }
}

/// The number of 32-bit CCI words behind the common header.
#[derive(Debug, Clone, Copy, PartialEq, Eq, Structural, Default)]
pub enum CciLength {
    #[default]
    Zero,
    One,
    Two,
    Three,
}

impl CciLength {
    /// The number of words.
    pub open spec fn count(self) -> nat {
        match self {
            Self::Zero => 0,
            Self::One => 1,
            Self::Two => 2,
            Self::Three => 3,
        }
    }

    /// The length whose number of words is in the low two bits of `w`.
    pub fn from_words(w: u8) -> (r: Self)
        ensures
            r.count() == w % 4,
    {
        let low: u8 = w % 4;
        if low == 0 {
            Self::Zero
        } else if low == 1 {
            Self::One
        } else if low == 2 {
            Self::Two
        } else {
            Self::Three
        }
    }

    /// The number of words.
    pub fn words(self) -> (r: u8)
        ensures
            r == self.count(),
            r < 4,
    {
        match self {
            Self::Zero => 0,
            Self::One => 1,
            Self::Two => 2,
            Self::Three => 3,
        }
    }

    /// The number of bytes.
    pub fn bytes(self) -> (r: usize)
        ensures
            r == 4 * self.count(),
    {
        self.words() as usize * 4
    }
}

/// The length of `n` words.
pub open spec fn cci_of_words(n: nat) -> CciLength {
    if n % 4 == 0 {
        CciLength::Zero
    } else if n % 4 == 1 {
        CciLength::One
    } else if n % 4 == 2 {
        CciLength::Two
    } else {
        CciLength::Three
    }
}

/// A number of words is read back.
pub proof fn lemma_cci_of_words(n: nat)
    requires
        n < 4,
    ensures
        cci_of_words(n).count() == n,
{
}

/// Parsing gives back the header that was made, as long as the packet is as long
/// as its header says.
pub proof fn lemma_header_round_trip(
    pkt_type: PacketType,
    cci: CciLength,
    has_tsi: bool,
    hdr_len_words: u8,
    reserved: u8,
    tail: Seq<u8>,
)
    requires
        4 * hdr_len_words <= 4 + tail.len(),
    ensures
        ({
            let h = CommonHeader {
                reserved,
                ..header_of(pkt_type, cci, has_tsi, hdr_len_words)
            };
            &&& header_from(h.bytes() + tail) == Ok::<CommonHeader, DelpError>(h)
            &&& type_from(h.pkt_type) == Ok::<PacketType, DelpError>(pkt_type)
            &&& h.cci_count() == cci.count()
            &&& h.tsi_flag() == has_tsi
        }),
{
    let h = CommonHeader { reserved, ..header_of(pkt_type, cci, has_tsi, hdr_len_words) };
    let buf = h.bytes() + tail;
    assert(buf[0] == h.flags && buf[1] == reserved && buf[2] == hdr_len_words && buf[3] == h.pkt_type);
}

} // verus!
