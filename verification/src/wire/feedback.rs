//! Window update (feedback) packets.
//!
//! ```text
//! [CommonHeader][CCI?][TSI?]
//! [nb_missing_src: u32][nb_not_used_coded: u32]
//! [first_src_id: u32][plr: u8][sack_size: u8][pad: u16]
//! [sack_vector: sack_size bytes, padded to 32 bits]
//! ```
//!
//! In the SACK vector the most significant bit comes first: bit `i` stands for
//! the source symbol `first_src_id + i`, and is set where it is acknowledged.
use vstd::prelude::*;

use crate::error::{DelpError, Result};
use crate::loss::LossRate;
use crate::wire::be;
use crate::wire::be::{push_u32, read_u32};
use crate::wire::common;
use crate::wire::common::{CciLength, CommonHeader, PacketType};
use crate::wire::ev;
use crate::wire::source;
use crate::wire::source::{push_extensions, read_extensions};

verus! {

/// A feedback packet.
#[derive(Debug)]
pub struct FeedbackPacket {
    /// The session identifier.
    pub tsi: Option<u32>,
    /// The number of source symbols that are missing.
    pub nb_missing_src: u32,
    /// The number of coded packets that wait in the decoding matrix.
    pub nb_not_used_coded: u32,
    /// The first source id of the SACK vector; all before it are acknowledged.
    pub first_src_id: u32,
    /// The packet loss rate in 256ths, at most 255.
    pub plr_raw: u8,
    /// The SACK vector, one bit per source id.
    pub sack: Vec<u8>,
}

/// What a feedback packet says.
#[verifier::ext_equal]
pub struct FeedbackModel {
    pub tsi: Option<u32>,
    pub nb_missing_src: u32,
    pub nb_not_used_coded: u32,
    pub first_src_id: u32,
    pub plr_raw: u8,
    pub sack: Seq<u8>,
}

impl View for FeedbackPacket {
    type V = FeedbackModel;

    open spec fn view(&self) -> FeedbackModel {
        FeedbackModel {
            tsi: self.tsi,
            nb_missing_src: self.nb_missing_src,
            nb_not_used_coded: self.nb_not_used_coded,
            first_src_id: self.first_src_id,
            plr_raw: self.plr_raw,
            sack: self.sack@,
        }
    }
}

impl Clone for FeedbackPacket {
    fn clone(&self) -> (r: Self)
        ensures
            r@ == self@,
    {
        FeedbackPacket {
            tsi: self.tsi,
            nb_missing_src: self.nb_missing_src,
            nb_not_used_coded: self.nb_not_used_coded,
            first_src_id: self.first_src_id,
            plr_raw: self.plr_raw,
            sack: vstd::slice::slice_to_vec(self.sack.as_slice()),
        }
    }
}

// ── Loss rates ───────────────────────────────────────────────────────────

/// A loss rate in 256ths, rounded down, at most 255.  A rate above one counts as
/// one, and no packets at all as no loss.
pub open spec fn plr_of(loss: LossRate) -> u8 {
    if loss.expected == 0 {
        0
    } else if loss.lost >= loss.expected {
        255
    } else {
        (loss.lost * 256 / loss.expected as int) as u8
    }
}

// ── SACK vectors ─────────────────────────────────────────────────────────

/// Bit `j` of `b`, counted from the least significant one.
pub open spec fn bit_of(b: u8, j: u8) -> bool {
    (b >> j) & 1 == 1
}

/// Bit `k` of a SACK vector.
pub open spec fn sack_bit(sack: Seq<u8>, k: int) -> bool {
    &&& 0 <= k < 8 * sack.len()
    &&& bit_of(sack[k / 8], (7 - k % 8) as u8)
}

impl FeedbackModel {
    /// The packet acknowledges the source symbol `id` in its SACK vector.
    pub open spec fn acks(self, id: u32) -> bool {
        sack_bit(self.sack, id - self.first_src_id)
    }
}

/// The length of the SACK vector from `first` for the ids in `ids`.
pub open spec fn sack_len(first: u32, ids: Seq<u32>) -> nat
    decreases ids.len(),
{
    if ids.len() == 0 {
        0
    } else {
        let n = sack_len(first, ids.drop_last());
        let id = ids.last();
        if id >= first && n < (id - first) / 8 + 1 {
            ((id - first) / 8 + 1) as nat
        } else {
            n
        }
    }
}

/// `sack` acknowledges the ids in `ids` that are not below `first`, and no
/// others, and is no longer than that takes.
pub open spec fn is_sack(sack: Seq<u8>, first: u32, ids: Seq<u32>) -> bool {
    &&& sack.len() == sack_len(first, ids)
    &&& forall|id: u32| id >= first ==> (sack_bit(sack, id - first) <==> #[trigger] ids.contains(id))
    &&& forall|k: int| k > u32::MAX - first ==> !#[trigger] sack_bit(sack, k)
}

/// Setting a bit sets that bit and no other.
proof fn lemma_set_bit(b: u8, i: u8, j: u8)
    requires
        i < 8,
        j < 8,
    ensures
        bit_of(b | (1u8 << i), j) <==> i == j || bit_of(b, j),
        !bit_of(0, j),
{
    assert((((b | (1u8 << i)) >> j) & 1 == 1) <==> (i == j || (b >> j) & 1 == 1)) by (bit_vector)
        requires
            i < 8,
            j < 8,
    ;
    assert((0u8 >> j) & 1 == 0) by (bit_vector);
}

/// The length of a SACK vector covers every id.
proof fn lemma_sack_len(first: u32, ids: Seq<u32>, i: int)
    requires
        0 <= i < ids.len(),
        ids[i] >= first,
    ensures
        (ids[i] - first) / 8 < sack_len(first, ids),
    decreases ids.len(),
{
    if i < ids.len() - 1 {
        lemma_sack_len(first, ids.drop_last(), i);
    }
}

/// Builds the SACK vector from `first_src_id` for a list of ids.
fn build_sack(first_src_id: u32, acked_ids: &[u32]) -> (sack: Vec<u8>)
    ensures
        is_sack(sack@, first_src_id, acked_ids@),
{
    let mut len: usize = 0;
    let mut i: usize = 0;
    while i < acked_ids.len()
        invariant
            i <= acked_ids@.len(),
            len == sack_len(first_src_id, acked_ids@.take(i as int)),
            len <= 0x2000_0000,
        decreases acked_ids@.len() - i,
    {
        let id: u32 = acked_ids[i];
        if id >= first_src_id {
            let n: usize = ((id - first_src_id) / 8) as usize + 1;
            if len < n {
                len = n;
            }
        }
        i += 1;
        assert(acked_ids@.take(i as int).drop_last() =~= acked_ids@.take(i - 1));
        assert(acked_ids@.take(i as int).last() == id);
    }
    assert(acked_ids@.take(acked_ids@.len() as int) =~= acked_ids@);

    let mut sack: Vec<u8> = vec![0u8; len];
    let ghost first = first_src_id;
    proof {
        assert forall|k: int| !#[trigger] sack_bit(sack@, k) by {
            if 0 <= k < 8 * sack@.len() {
                lemma_set_bit(0, 0, (7 - k % 8) as u8);
            }
        }
    }
    let mut i: usize = 0;
    while i < acked_ids.len()
        invariant
            i <= acked_ids@.len(),
            first == first_src_id,
            len == sack_len(first, acked_ids@),
            sack@.len() == len,
            forall|k: int| #[trigger]
                sack_bit(sack@, k) <==> 0 <= k && exists|j: int|
                    0 <= j < i && #[trigger] acked_ids@[j] == first + k,
        decreases acked_ids@.len() - i,
    {
        let id: u32 = acked_ids[i];
        let ghost before = sack@;
        if id >= first_src_id {
            proof {
                lemma_sack_len(first, acked_ids@, i as int);
            }
            let offset: u32 = id - first_src_id;
            let byte: usize = (offset / 8) as usize;
            let bit: u8 = 7 - (offset % 8) as u8;
            let b: u8 = sack[byte];
            sack.set(byte, b | (1u8 << bit));
            proof {
                assert forall|k: int| #[trigger] sack_bit(sack@, k) <==> sack_bit(before, k) || k
                    == offset by {
                    if 0 <= k < 8 * sack@.len() {
                        lemma_set_bit(b, bit, (7 - k % 8) as u8);
                    }
                }
            }
        }
        proof {
            assert forall|k: int| #[trigger] sack_bit(sack@, k) <==> 0 <= k && exists|j: int|
                0 <= j < i + 1 && #[trigger] acked_ids@[j] == first + k by {
                if sack_bit(sack@, k) {
                    if sack_bit(before, k) {
                        let j = choose|j: int| 0 <= j < i && #[trigger] acked_ids@[j] == first + k;
                        assert(acked_ids@[j] == first + k);
                    } else {
                        assert(acked_ids@[i as int] == first + k);
                    }
                }
                if 0 <= k && exists|j: int|
                    0 <= j < i + 1 && #[trigger] acked_ids@[j] == first + k {
                    let j = choose|j: int| 0 <= j < i + 1 && #[trigger] acked_ids@[j] == first + k;
                    if j < i {
                        assert(sack_bit(before, k));
                    }
                }
            }
        }
        i += 1;
    }
    proof {
        assert forall|id: u32| id >= first implies (sack_bit(sack@, id - first)
            <==> #[trigger] acked_ids@.contains(id)) by {
            let k = id - first;
            if sack_bit(sack@, k) {
                let j = choose|j: int|
                    0 <= j < acked_ids@.len() && #[trigger] acked_ids@[j] == first + k;
                assert(acked_ids@[j] == id);
            }
            if acked_ids@.contains(id) {
                let j = acked_ids@.index_of(id);
                assert(acked_ids@[j] == first + k);
            }
        }
    }
    sack
}

// ── The wire format ──────────────────────────────────────────────────────

/// The header of a feedback packet.
pub open spec fn feedback_header(m: FeedbackModel) -> CommonHeader {
    common::header_of(
        PacketType::Feedback,
        CciLength::Zero,
        m.tsi is Some,
        if m.tsi is Some { 5 } else { 4 },
    )
}

/// What follows header and session identifier.
pub open spec fn feedback_body(m: FeedbackModel) -> Seq<u8> {
    be::be32(m.nb_missing_src) + be::be32(m.nb_not_used_coded) + be::be32(m.first_src_id) + seq![
        m.plr_raw,
        (m.sack.len() % 256) as u8,
        0u8,
        0u8,
    ] + ev::padded(m.sack)
}

/// The bytes of a feedback packet.
pub open spec fn feedback_bytes(m: FeedbackModel) -> Seq<u8> {
    feedback_header(m).bytes() + Seq::<u8>::empty() + source::tsi_bytes(m.tsi) + feedback_body(m)
}

/// What a buffer says as a feedback packet, or why it is refused.
pub open spec fn feedback_from(buf: Seq<u8>) -> core::result::Result<FeedbackModel, DelpError> {
    match common::header_from(buf) {
        Err(e) => Err(e),
        Ok(h) => {
            let off = h.body_start() as int;
            if buf.len() < off + 16 {
                Err(
                    DelpError::BufferTooShort {
                        needed: (off + 16) as usize,
                        available: buf.len() as usize,
                    },
                )
            } else if buf.len() < off + 16 + buf[off + 13] {
                Err(
                    DelpError::BufferTooShort {
                        needed: (off + 16 + buf[off + 13]) as usize,
                        available: buf.len() as usize,
                    },
                )
            } else {
                Ok(
                    FeedbackModel {
                        tsi: source::tsi_of(buf, h),
                        nb_missing_src: be::u32_at(buf, off),
                        nb_not_used_coded: be::u32_at(buf, off + 4),
                        first_src_id: be::u32_at(buf, off + 8),
                        plr_raw: buf[off + 12],
                        sack: buf.subrange(off + 16, off + 16 + buf[off + 13]),
                    },
                )
            }
        },
    }
}

impl FeedbackPacket {
    /// A loss rate as the wire holds it.
    pub fn encode_plr(loss: LossRate) -> (r: u8)
        ensures
            r == plr_of(loss),
    {
        if loss.expected == 0 {
            return 0;
        }
        if loss.lost >= loss.expected {
            return 255;
        }
        let scaled: u128 = loss.lost as u128 * 256;
        let q: u128 = scaled / loss.expected as u128;
        assert(q < 256) by (nonlinear_arith)
            requires
                scaled == loss.lost * 256,
                loss.lost < loss.expected,
                q == scaled / loss.expected as u128,
        ;
        q as u8
    }

    /// The loss rate that the wire holds.
    pub fn decode_plr(raw: u8) -> (r: LossRate)
        ensures
            r == (LossRate { lost: raw as u64, expected: 256 }),
    {
        LossRate { lost: raw as u64, expected: 256 }
    }

    /// Builds a feedback packet that acknowledges `acked_ids`.
    ///
    /// Ids below `first_src_id` are acknowledged by it already.
    pub fn build(
        first_src_id: u32,
        nb_missing_src: u32,
        nb_not_used_coded: u32,
        loss_rate: LossRate,
        acked_ids: &[u32],
    ) -> (r: Self)
        ensures
            r@ == (FeedbackModel {
                tsi: None,
                nb_missing_src,
                nb_not_used_coded,
                first_src_id,
                plr_raw: plr_of(loss_rate),
                sack: r@.sack,
            }),
            is_sack(r@.sack, first_src_id, acked_ids@),
    {
        let sack = build_sack(first_src_id, acked_ids);
        Self {
            tsi: None,
            nb_missing_src,
            nb_not_used_coded,
            first_src_id,
            plr_raw: Self::encode_plr(loss_rate),
            sack,
        }
    }

    /// The bytes of the packet.
    pub fn serialise(&self) -> (r: Vec<u8>)
        ensures
            r@ == feedback_bytes(self@),
    {
        let hdr_words: u8 = if self.tsi.is_some() {
            5
        } else {
            4
        };
        let hdr = CommonHeader::new(
            PacketType::Feedback,
            CciLength::Zero,
            self.tsi.is_some(),
            hdr_words,
        );
        let mut out: Vec<u8> = Vec::new();
        out.extend_from_slice(hdr.to_bytes().as_slice());
        let none: [u8; 0] = [];
        push_extensions(&mut out, none.as_slice(), self.tsi);
        let ghost pre = out@;
        assert(pre =~= feedback_header(self@).bytes() + Seq::<u8>::empty() + source::tsi_bytes(
            self.tsi,
        ));
        push_u32(&mut out, self.nb_missing_src);
        push_u32(&mut out, self.nb_not_used_coded);
        push_u32(&mut out, self.first_src_id);
        out.push(self.plr_raw);
        out.push((self.sack.len() % 256) as u8);
        out.push(0);
        out.push(0);
        let mut sack = vstd::slice::slice_to_vec(self.sack.as_slice());
        ev::pad_to_word(&mut sack);
        out.extend_from_slice(sack.as_slice());
        assert(out@ =~= pre + feedback_body(self@));
        out
    }

    /// Reads a feedback packet.  Whether its type says so is for the caller to see.
    pub fn parse(buf: &[u8]) -> (r: Result<Self>)
        ensures
            match r {
                Ok(p) => feedback_from(buf@) == Ok::<FeedbackModel, DelpError>(p@),
                Err(e) => feedback_from(buf@) == Err::<FeedbackModel, DelpError>(e),
            },
    {
        let header = match CommonHeader::parse(buf) {
            Ok(h) => h,
            Err(e) => return Err(e),
        };
        let off: usize = header.body_offset();
        if buf.len() < off + 16 {
            return Err(DelpError::BufferTooShort { needed: off + 16, available: buf.len() });
        }
        let (_cci, tsi) = read_extensions(buf, header);
        let nb_missing_src: u32 = read_u32(buf, off);
        let nb_not_used_coded: u32 = read_u32(buf, off + 4);
        let first_src_id: u32 = read_u32(buf, off + 8);
        let plr_raw: u8 = buf[off + 12];
        let sack_size: usize = buf[off + 13] as usize;
        let sack_start: usize = off + 16;
        if buf.len() < sack_start + sack_size {
            return Err(
                DelpError::BufferTooShort {
                    needed: sack_start + sack_size,
                    available: buf.len(),
                },
            );
        }
        let sack = vstd::slice::slice_to_vec(
            vstd::slice::slice_subrange(buf, sack_start, sack_start + sack_size),
        );
        Ok(Self { tsi, nb_missing_src, nb_not_used_coded, first_src_id, plr_raw, sack })
    }

    /// Whether the source symbol `id` is acknowledged in the SACK vector.
    pub fn is_acked(&self, id: u32) -> (r: bool)
        ensures
            r == self@.acks(id),
    {
        if id < self.first_src_id {
            return false;
        }
        let offset: u32 = id - self.first_src_id;
        let byte: usize = (offset / 8) as usize;
        let bit: u8 = 7 - (offset % 8) as u8;
        if byte >= self.sack.len() {
            return false;
        }
        (self.sack[byte] >> bit) & 1 == 1
    }

    /// The source symbols that are acknowledged in the SACK vector, in ascending
    /// order.
    pub fn acked_ids(&self) -> (r: Vec<u32>)
        ensures
            forall|i: int, j: int| 0 <= i < j < r@.len() ==> r@[i] < r@[j],
            forall|id: u32| #[trigger] r@.contains(id) <==> self@.acks(id),
    {
        let mut out: Vec<u32> = Vec::new();
        let room: u32 = u32::MAX - self.first_src_id;
        let mut k: u32 = 0;
        let mut more: bool = true;
        while more && ((k / 8) as usize) < self.sack.len()
            invariant
                room == u32::MAX - self.first_src_id,
                k <= room,
                forall|i: int, j: int| 0 <= i < j < out@.len() ==> out@[i] < out@[j],
                forall|i: int|
                    0 <= i < out@.len() ==> self@.acks(#[trigger] out@[i]) && (out@[i]
                        < self.first_src_id + k || !more),
                forall|id: u32|
                    #[trigger] self@.acks(id) && id < self.first_src_id + k ==> out@.contains(id),
                !more ==> k == room && (self@.acks(u32::MAX) ==> out@.contains(u32::MAX)),
            decreases room - k + (if more { 1int } else { 0 }),
        {
            let id: u32 = self.first_src_id + k;
            let ghost before = out@;
            if self.is_acked(id) {
                out.push(id);
                proof {
                    assert(out@ == before.push(id));
                    assert(out@[before.len() as int] == id);
                    assert forall|x: u32| before.contains(x) implies out@.contains(x) by {
                        let i = before.index_of(x);
                        assert(out@[i] == x);
                    }
                }
            }
            if k < room {
                k += 1;
            } else {
                more = false;
            }
        }
        proof {
            assert forall|id: u32| #[trigger] out@.contains(id) <==> self@.acks(id) by {
                if out@.contains(id) {
                    let i = out@.index_of(id);
                    assert(self@.acks(out@[i]));
                }
            }
        }
        out
    }
}

// ── Laws ─────────────────────────────────────────────────────────────────

/// Parsing gives back what was serialised, as long as the SACK vector fits its
/// length field.
pub proof fn lemma_feedback_round_trip(m: FeedbackModel)
    requires
        m.sack.len() <= 255,
    ensures
        feedback_from(feedback_bytes(m)) == Ok::<FeedbackModel, DelpError>(m),
{
    let h = feedback_header(m);
    let none = Seq::<u8>::empty();
    let body = feedback_body(m);
    let buf = feedback_bytes(m);
    let sack = ev::padded(m.sack);
    be::lemma_be32(m.nb_missing_src);
    be::lemma_be32(m.nb_not_used_coded);
    be::lemma_be32(m.first_src_id);
    if let Some(t) = m.tsi {
        be::lemma_be32(t);
    }
    assert(body.len() == 16 + sack.len());
    assert(buf =~= h.bytes() + (none + source::tsi_bytes(m.tsi) + body));
    common::lemma_header_round_trip(
        PacketType::Feedback,
        CciLength::Zero,
        m.tsi is Some,
        h.hdr_len_words,
        0,
        none + source::tsi_bytes(m.tsi) + body,
    );
    source::lemma_extensions(h, none, m.tsi, body);
    let off = h.body_start() as int;
    assert forall|i: int| 0 <= i < body.len() implies #[trigger] buf[off + i] == body[i] by {
        assert(buf.skip(off)[i] == buf[off + i]);
    }
    assert forall|k: int| 0 <= k < 4 implies #[trigger] buf[off + k] == be::be32(
        m.nb_missing_src,
    )[0 + k] by {}
    be::lemma_u32_at_sub(buf, be::be32(m.nb_missing_src), off, 0);
    assert forall|k: int| 0 <= k < 4 implies #[trigger] buf[off + 4 + k] == be::be32(
        m.nb_not_used_coded,
    )[0 + k] by {
        assert(buf[off + (4 + k)] == body[4 + k]);
    }
    be::lemma_u32_at_sub(buf, be::be32(m.nb_not_used_coded), off + 4, 0);
    assert forall|k: int| 0 <= k < 4 implies #[trigger] buf[off + 8 + k] == be::be32(
        m.first_src_id,
    )[0 + k] by {
        assert(buf[off + (8 + k)] == body[8 + k]);
    }
    be::lemma_u32_at_sub(buf, be::be32(m.first_src_id), off + 8, 0);
    assert(buf[off + 12] == m.plr_raw);
    assert(buf[off + 13] == m.sack.len());
    let got = buf.subrange(off + 16, off + 16 + m.sack.len());
    assert forall|i: int| 0 <= i < m.sack.len() implies #[trigger] got[i] == m.sack[i] by {
        assert(buf[off + (16 + i)] == body[16 + i]);
    }
    assert(got =~= m.sack);
}

/// A packet that is built for a list of ids acknowledges those of them that are
/// not below its first id, and no others.
pub proof fn lemma_built_sack_acks(m: FeedbackModel, ids: Seq<u32>, id: u32)
    requires
        is_sack(m.sack, m.first_src_id, ids),
    ensures
        m.acks(id) <==> id >= m.first_src_id && ids.contains(id),
{
}

} // verus!
