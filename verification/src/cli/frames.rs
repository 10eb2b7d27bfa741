//! Control frames of a file transfer.
//!
//! ```text
//! START  ['D']['E']['L'][0xFF][version: u8][0: u8][symbol_size: u16]
//!        [n_symbols: u32][file_size: u64][sha256: 32 bytes]
//! END    ['D']['E']['L'][0xFE]
//! ```
//!
//! Byte 3 of a packet is its type.  Control frames have values there that no
//! packet has.
use vstd::prelude::*;

use crate::transport::receiver;
use crate::wire::be;
use crate::wire::be::{push_u16, push_u32, read_u16, read_u32};

verus! {

/// Byte 3 of a START frame.
pub const CTRL_START: u8 = 0xFF;

/// Byte 3 of an END frame.
pub const CTRL_END: u8 = 0xFE;

/// The version of the START frame.
pub const PROTO_VERSION: u8 = 1;

/// The length of a START frame.
pub const START_LEN: usize = 52;

/// The letters at the beginning of a control frame.
pub open spec fn magic() -> Seq<u8> {
    seq![0x44u8, 0x45u8, 0x4cu8]
}

/// What a START frame says.
#[derive(Debug, Clone, Copy)]
pub struct StartInfo {
    /// The length of every symbol.
    pub symbol_size: u16,
    /// The number of symbols.
    pub n_symbols: u32,
    /// The length of the file.
    pub file_size: u64,
    /// The digest of the file.
    pub sha256: [u8; 32],
}

/// What a START frame says.
#[verifier::ext_equal]
pub struct StartModel {
    pub symbol_size: u16,
    pub n_symbols: u32,
    pub file_size: u64,
    pub sha256: Seq<u8>,
}

impl View for StartInfo {
    type V = StartModel;

    open spec fn view(&self) -> StartModel {
        StartModel {
            symbol_size: self.symbol_size,
            n_symbols: self.n_symbols,
            file_size: self.file_size,
            sha256: self.sha256@,
        }
    }
}

/// Why a frame is no START frame.
#[derive(Debug, Clone, Copy, PartialEq, Eq, Structural)]
pub enum StartError {
    /// The frame has only this many bytes.
    TooShort(usize),
    /// The frame does not begin like a control frame.
    MissingMagic,
    /// The frame is no START frame.
    MalformedHeader,
    /// The version is unknown.
    UnsupportedVersion(u8),
}

/// The eight bytes of `v`, the highest one first.
pub open spec fn be64(v: u64) -> Seq<u8> {
    be::be32((v / 0x1_0000_0000) as u32) + be::be32((v % 0x1_0000_0000) as u32)
}

/// The bytes of a START frame.
pub open spec fn start_bytes(m: StartModel) -> Seq<u8> {
    magic() + seq![CTRL_START, PROTO_VERSION, 0u8] + be::be16(m.symbol_size) + be::be32(m.n_symbols)
        + be64(m.file_size) + m.sha256
}

/// The bytes of an END frame.
pub open spec fn end_bytes() -> Seq<u8> {
    magic() + seq![CTRL_END]
}

/// What the bytes of a START frame say.
pub open spec fn start_from(buf: Seq<u8>) -> core::result::Result<StartModel, StartError> {
    if buf.len() < START_LEN {
        Err(StartError::TooShort(buf.len() as usize))
    } else if buf[0] != magic()[0] || buf[1] != magic()[1] {
        Err(StartError::MissingMagic)
    } else if buf[2] != magic()[2] || buf[3] != CTRL_START {
        Err(StartError::MalformedHeader)
    } else if buf[4] != PROTO_VERSION {
        Err(StartError::UnsupportedVersion(buf[4]))
    } else {
        Ok(
            StartModel {
                symbol_size: be::u16_at(buf, 6),
                n_symbols: be::u32_at(buf, 8),
                file_size: (be::u32_at(buf, 12) * 0x1_0000_0000 + be::u32_at(buf, 16)) as u64,
                sha256: buf.subrange(20, 52),
            },
        )
    }
}

fn push_magic(buf: &mut Vec<u8>)
    ensures
        final(buf)@ == old(buf)@ + magic(),
{
    buf.push(0x44);
    buf.push(0x45);
    buf.push(0x4c);
    assert(buf@ =~= old(buf)@ + magic());
}

/// The bytes of a START frame.
pub fn build_start_frame(
    symbol_size: u16,
    n_symbols: u32,
    file_size: u64,
    sha256: &[u8; 32],
) -> (r: Vec<u8>)
    ensures
        r@ == start_bytes(StartModel { symbol_size, n_symbols, file_size, sha256: sha256@ }),
{
    let mut buf: Vec<u8> = Vec::new();
    push_magic(&mut buf);
    buf.push(CTRL_START);
    buf.push(PROTO_VERSION);
    buf.push(0);
    push_u16(&mut buf, symbol_size);
    push_u32(&mut buf, n_symbols);
    push_u32(&mut buf, (file_size / 0x1_0000_0000) as u32);
    push_u32(&mut buf, (file_size % 0x1_0000_0000) as u32);
    let ghost head = buf@;
    let mut i: usize = 0;
    assert(buf@ =~= head + sha256@.take(0));
    while i < 32
        invariant
            i <= 32,
            buf@ == head + sha256@.take(i as int),
        decreases 32 - i,
    {
        buf.push(sha256[i]);
        i += 1;
        assert(sha256@.take(i as int) =~= sha256@.take(i - 1).push(sha256@[i - 1]));
        assert(buf@ =~= head + sha256@.take(i as int));
    }
    assert(sha256@.take(32) =~= sha256@);
    assert(buf@ =~= start_bytes(
        StartModel { symbol_size, n_symbols, file_size, sha256: sha256@ },
    ));
    buf
}

/// The bytes of an END frame.
pub fn build_end_frame() -> (r: Vec<u8>)
    ensures
        r@ == end_bytes(),
{
    let mut buf: Vec<u8> = Vec::new();
    push_magic(&mut buf);
    buf.push(CTRL_END);
    assert(buf@ =~= end_bytes());
    buf
}

/// Reads a START frame.
pub fn parse_start(buf: &[u8]) -> (r: core::result::Result<StartInfo, StartError>)
    ensures
        match r {
            Ok(s) => start_from(buf@) == Ok::<StartModel, StartError>(s@),
            Err(e) => start_from(buf@) == Err::<StartModel, StartError>(e),
        },
{
    if buf.len() < START_LEN {
        return Err(StartError::TooShort(buf.len()));
    }
    if buf[0] != 0x44 || buf[1] != 0x45 {
        return Err(StartError::MissingMagic);
    }
    if buf[2] != 0x4c || buf[3] != CTRL_START {
        return Err(StartError::MalformedHeader);
    }
    if buf[4] != PROTO_VERSION {
        return Err(StartError::UnsupportedVersion(buf[4]));
    }
    let mut sha256: [u8; 32] = [0u8; 32];
    let mut i: usize = 0;
    while i < 32
        invariant
            i <= 32,
            buf@.len() >= 52,
            forall|j: int| 0 <= j < i ==> #[trigger] sha256@[j] == buf@[20 + j],
        decreases 32 - i,
    {
        sha256[i] = buf[20 + i];
        i += 1;
    }
    assert(sha256@ =~= buf@.subrange(20, 52));
    Ok(
        StartInfo {
            symbol_size: read_u16(buf, 6),
            n_symbols: read_u32(buf, 8),
            file_size: read_u32(buf, 12) as u64 * 0x1_0000_0000 + read_u32(buf, 16) as u64,
            sha256,
        },
    )
}

/// Whether a datagram is meant as a START frame.
pub fn is_start(raw: &[u8]) -> (r: bool)
    ensures
        r == (raw@.len() >= 4 && raw@[3] == CTRL_START),
{
    raw.len() >= 4 && raw[3] == CTRL_START
}

// ── Laws ─────────────────────────────────────────────────────────────────

/// Reading a START frame gives back what was written.
pub proof fn lemma_start_round_trip(m: StartModel)
    requires
        m.sha256.len() == 32,
    ensures
        start_from(start_bytes(m)) == Ok::<StartModel, StartError>(m),
{
    let buf = start_bytes(m);
    let hi = (m.file_size / 0x1_0000_0000) as u32;
    let lo = (m.file_size % 0x1_0000_0000) as u32;
    be::lemma_be16(m.symbol_size);
    be::lemma_be32(m.n_symbols);
    be::lemma_be32(hi);
    be::lemma_be32(lo);
    let head = magic() + seq![CTRL_START, PROTO_VERSION, 0u8];
    assert(head.len() == 6);
    assert(buf[6] == be::be16(m.symbol_size)[0] && buf[7] == be::be16(m.symbol_size)[1]);
    be::lemma_u16_at_sub(buf, be::be16(m.symbol_size), 6, 0);
    let a = head + be::be16(m.symbol_size);
    assert(buf =~= a + be::be32(m.n_symbols) + (be64(m.file_size) + m.sha256));
    be::lemma_u32_at_append(a, m.n_symbols, be64(m.file_size) + m.sha256);
    let b = a + be::be32(m.n_symbols);
    assert(buf =~= b + be::be32(hi) + (be::be32(lo) + m.sha256));
    be::lemma_u32_at_append(b, hi, be::be32(lo) + m.sha256);
    let c = b + be::be32(hi);
    assert(buf =~= c + be::be32(lo) + m.sha256);
    be::lemma_u32_at_append(c, lo, m.sha256);
    assert(buf.subrange(20, 52) =~= m.sha256);
    assert(hi * 0x1_0000_0000 + lo == m.file_size);
}

/// Control frames are no packets: a decoder ignores them.
pub proof fn lemma_control_frames_ignored(m: StartModel)
    ensures
        receiver::datagram_of(start_bytes(m)) is Ignored,
        receiver::datagram_of(end_bytes()) is Ignored,
        start_bytes(m)[3] == CTRL_START,
        end_bytes()[3] == CTRL_END,
{
    assert(start_bytes(m)[0] == 0x44);
    assert(end_bytes()[0] == 0x44);
}

} // verus!
