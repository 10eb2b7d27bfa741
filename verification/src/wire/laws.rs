//! The wire format, byte by byte.
//!
//! ```text
//!  0                   1                   2                   3
//!  0 1 2 3 4 5 6 7 8 9 0 1 2 3 4 5 6 7 8 9 0 1 2 3 4 5 6 7 8 9 0 1
//! +-------+---+-+-+---------------+---------------+---------------+
//! | V = 1 |CCI|T|0|      lag      | header words  |     type      |
//! +-------+---+-+-+---------------+---------------+---------------+
//! ```
use vstd::prelude::*;

use crate::config::Field;
use crate::error::DelpError;
use crate::loss::LossRate;
use crate::wire::be;
use crate::wire::coded;
use crate::wire::common;
use crate::wire::ev;
use crate::wire::ev::EvModel;
use crate::wire::feedback;
use crate::wire::feedback::FeedbackModel;
use crate::wire::source;
use crate::wire::{CciLength, PacketType};

verus! {

/// The number that four bytes spell, the most significant one first.
pub open spec fn spelled(s: Seq<u8>, i: int) -> int {
    s[i] * 16777216 + s[i + 1] * 65536 + s[i + 2] * 256 + s[i + 3]
}

/// A number is written and read in four bytes, the most significant one first.
pub proof fn lemma_spelled(v: u32, s: Seq<u8>, i: int)
    ensures
        be::be32(v).len() == 4,
        spelled(be::be32(v), 0) == v,
        be::u32_at(s, i) == spelled(s, i),
{
    reveal(be::be32);
    reveal(be::u32_at);
    let n: int = spelled(s, i);
    assert(0 <= n < 0x1_0000_0000);
}

/// And in two bytes.
pub proof fn lemma_spelled_short(v: u16, s: Seq<u8>, i: int)
    ensures
        be::be16(v).len() == 2,
        be::be16(v)[0] * 256 + be::be16(v)[1] == v,
        be::u16_at(s, i) == s[i] * 256 + s[i + 1],
{
    reveal(be::be16);
    reveal(be::u16_at);
    let n: int = s[i] * 256 + s[i + 1];
    assert(0 <= n < 0x1_0000);
}

/// The length of everything before the body: the first word, the CCI bytes and the
/// session id.
pub open spec fn lead(cci: Seq<u8>, tsi: Option<u32>) -> int {
    4 + cci.len() as int + (if tsi is Some { 4int } else { 0 })
}

/// The first word, the CCI bytes and the session id of a packet.
pub open spec fn leads(
    pkt: Seq<u8>,
    cci: Seq<u8>,
    tsi: Option<u32>,
    second: u8,
    words: int,
    kind: u8,
) -> bool {
    &&& pkt.len() >= lead(cci, tsi)
    &&& pkt[0] == 16 + cci.len() + (if tsi is Some { 2int } else { 0 })
    &&& pkt[1] == second
    &&& pkt[2] == words % 256
    &&& pkt[3] == kind
    &&& pkt.subrange(4, 4 + cci.len() as int) == cci
    &&& tsi matches Some(t) ==> spelled(pkt, 4 + cci.len() as int) == t
}

/// A source packet: type 0, then the id of the symbol, then the symbol.
pub proof fn lemma_source_layout(id: u32, payload: Seq<u8>, cci: Seq<u8>, tsi: Option<u32>)
    requires
        source::valid_cci(cci),
    ensures
        ({
            let pkt = source::source_bytes(id, payload, cci, tsi);
            let at = lead(cci, tsi);
            &&& leads(pkt, cci, tsi, 0, at / 4 + 1, 0)
            &&& spelled(pkt, at) == id
            &&& pkt.skip(at + 4) == payload
            &&& pkt.len() == at + 4 + payload.len()
        }),
{
    let pkt = source::source_bytes(id, payload, cci, tsi);
    let at = lead(cci, tsi);
    lemma_words(cci);
    lemma_spelled(id, pkt, at);
    if let Some(t) = tsi {
        lemma_spelled(t, pkt, 4);
        assert(be::be32(t)[0] == pkt[4 + cci.len() as int + 0]);
        assert(be::be32(t)[1] == pkt[4 + cci.len() as int + 1]);
        assert(be::be32(t)[2] == pkt[4 + cci.len() as int + 2]);
        assert(be::be32(t)[3] == pkt[4 + cci.len() as int + 3]);
    }
    assert(be::be32(id)[0] == pkt[at + 0]);
    assert(be::be32(id)[1] == pkt[at + 1]);
    assert(be::be32(id)[2] == pkt[at + 2]);
    assert(be::be32(id)[3] == pkt[at + 3]);
    assert(pkt.skip(at + 4) =~= payload);
    assert(pkt.subrange(4, 4 + cci.len() as int) =~= cci);
}

/// The number of whole words of CCI bytes.
proof fn lemma_words(cci: Seq<u8>)
    requires
        source::valid_cci(cci),
    ensures
        cci.len() == 0 || cci.len() == 4 || cci.len() == 8 || cci.len() == 12,
        4 * common::cci_of_words(cci.len() / 4).count() == cci.len(),
{
}

/// A coded packet: type 1, the lag in the second byte, then the coded id, then the
/// encoding vector, then the payload.
pub proof fn lemma_coded_layout(
    id: u32,
    v: EvModel,
    payload: Seq<u8>,
    cci: Seq<u8>,
    tsi: Option<u32>,
    lag: u8,
)
    requires
        source::valid_cci(cci),
    ensures
        ({
            let pkt = coded::coded_bytes(id, v, payload, cci, tsi, lag);
            let at = lead(cci, tsi);
            let vec = ev::ev_bytes(v);
            &&& leads(pkt, cci, tsi, lag, at / 4 + 1 + vec.len() / 4, 1)
            &&& spelled(pkt, at) == id
            &&& pkt.subrange(at + 4, at + 4 + vec.len()) == vec
            &&& pkt.skip(at + 4 + vec.len()) == payload
            &&& pkt.len() == at + 4 + vec.len() + payload.len()
        }),
{
    let pkt = coded::coded_bytes(id, v, payload, cci, tsi, lag);
    let at = lead(cci, tsi);
    let vec = ev::ev_bytes(v);
    lemma_words(cci);
    lemma_spelled(id, pkt, at);
    if let Some(t) = tsi {
        lemma_spelled(t, pkt, 4);
        assert(be::be32(t)[0] == pkt[4 + cci.len() as int + 0]);
        assert(be::be32(t)[1] == pkt[4 + cci.len() as int + 1]);
        assert(be::be32(t)[2] == pkt[4 + cci.len() as int + 2]);
        assert(be::be32(t)[3] == pkt[4 + cci.len() as int + 3]);
    }
    assert(be::be32(id)[0] == pkt[at + 0]);
    assert(be::be32(id)[1] == pkt[at + 1]);
    assert(be::be32(id)[2] == pkt[at + 2]);
    assert(be::be32(id)[3] == pkt[at + 3]);
    assert(pkt.subrange(4, 4 + cci.len() as int) =~= cci);
    assert(pkt.subrange(at + 4, at + 4 + vec.len()) =~= vec);
    assert(pkt.skip(at + 4 + vec.len()) =~= payload);
    assert(vec.len() / 4 == ev::word_count(v)) by {
        reveal(ev::ev_bytes);
        reveal(ev::word_count);
        lemma_spelled(ev::first_id(v), pkt, at);
    }
}

/// A feedback packet: type 2, then how many symbols are missing, how many equations
/// wait, the first id that has not been delivered, the loss rate, the length of the
/// SACK vector, two zero bytes, and the SACK vector filled up with zeros.
pub proof fn lemma_feedback_layout(m: FeedbackModel)
    ensures
        ({
            let pkt = feedback::feedback_bytes(m);
            let at = lead(Seq::empty(), m.tsi);
            &&& leads(pkt, Seq::empty(), m.tsi, 0, at / 4 + 3, 2)
            &&& spelled(pkt, at) == m.nb_missing_src
            &&& spelled(pkt, at + 4) == m.nb_not_used_coded
            &&& spelled(pkt, at + 8) == m.first_src_id
            &&& pkt[at + 12] == m.plr_raw
            &&& pkt[at + 13] == m.sack.len() % 256
            &&& pkt[at + 14] == 0
            &&& pkt[at + 15] == 0
            &&& pkt.subrange(at + 16, at + 16 + m.sack.len()) == m.sack
            &&& pkt.len() % 4 == 0
            &&& at + 16 + m.sack.len() <= pkt.len() < at + 20 + m.sack.len()
            &&& forall|i: int| at + 16 + m.sack.len() <= i < pkt.len() ==> #[trigger] pkt[i] == 0
        }),
{
    let pkt = feedback::feedback_bytes(m);
    let at = lead(Seq::empty(), m.tsi);
    lemma_padded(m.sack);
    lemma_spelled(m.nb_missing_src, pkt, at);
    lemma_spelled(m.nb_not_used_coded, pkt, at);
    lemma_spelled(m.first_src_id, pkt, at);
    if let Some(t) = m.tsi {
        lemma_spelled(t, pkt, 4);
        assert(be::be32(t)[0] == pkt[4]);
        assert(be::be32(t)[1] == pkt[5]);
        assert(be::be32(t)[2] == pkt[6]);
        assert(be::be32(t)[3] == pkt[7]);
    }
    let body = feedback::feedback_body(m);
    assert(pkt.skip(at) =~= body);
    assert forall|k: int| 0 <= k < body.len() implies #[trigger] body[k] == pkt[at + k] by {
        assert(pkt.skip(at)[k] == pkt[at + k]);
    }
    assert(body.take(4) =~= be::be32(m.nb_missing_src));
    assert(body.subrange(4, 8) =~= be::be32(m.nb_not_used_coded));
    assert(body.subrange(8, 12) =~= be::be32(m.first_src_id));
    assert(body.skip(16) =~= ev::padded(m.sack));
    lemma_spelled_part(body, 0, be::be32(m.nb_missing_src), pkt, at);
    lemma_spelled_part(body, 4, be::be32(m.nb_not_used_coded), pkt, at);
    lemma_spelled_part(body, 8, be::be32(m.first_src_id), pkt, at);
    assert(body[12] == pkt[at + 12] && body[13] == pkt[at + 13]);
    assert(body[14] == pkt[at + 14] && body[15] == pkt[at + 15]);
    assert(pkt.subrange(4, 4) =~= Seq::<u8>::empty());
    assert forall|i: int| at + 16 <= i < pkt.len() implies #[trigger] pkt[i] == ev::padded(
        m.sack,
    )[i - at - 16] by {
        assert(body[i - at] == pkt[at + (i - at)]);
        assert(body.skip(16)[i - at - 16] == body[i - at]);
    }
    assert(pkt.subrange(at + 16, at + 16 + m.sack.len()) =~= m.sack);
}

/// Four bytes that stand in two places spell the same number.
proof fn lemma_spelled_part(body: Seq<u8>, j: int, part: Seq<u8>, pkt: Seq<u8>, at: int)
    requires
        part.len() == 4,
        0 <= j <= body.len() - 4,
        body.subrange(j, j + 4) == part,
        forall|k: int| 0 <= k < body.len() ==> #[trigger] body[k] == pkt[at + k],
    ensures
        spelled(pkt, at + j) == spelled(part, 0),
{
    assert(part[0] == body[j + 0]);
    assert(part[1] == body[j + 1]);
    assert(part[2] == body[j + 2]);
    assert(part[3] == body[j + 3]);
}

/// Padding goes to the next whole word, with zeros.
pub proof fn lemma_padded(s: Seq<u8>)
    ensures
        ev::padded(s).len() == ev::pad32_len(s.len()),
        ev::padded(s).len() % 4 == 0,
        s.len() <= ev::padded(s).len() < s.len() + 4,
        ev::padded(s).take(s.len() as int) == s,
        forall|i: int| s.len() <= i < ev::padded(s).len() ==> #[trigger] ev::padded(s)[i] == 0,
{
    assert(ev::padded(s).take(s.len() as int) =~= s);
}

/// An encoding vector: its length in words, the flags, the numbers of ids and
/// coefficients, the first id, then the other ids, the coefficients and the generation,
/// each in whole words.
///
/// The flags say the field in the high half, how the ids are stored in two bits below,
/// and whether there are coefficients in the next one.  Coefficients of the small field
/// stand two to a byte, the first one in the high half.  The generation has no word
/// where it is zero.
pub proof fn lemma_vector_layout(v: EvModel)
    requires
        v.wf(),
    ensures
        ({
            let b = ev::ev_bytes(v);
            let ids = ev::padded(ev::id_storage::stored(v.ids, v.format));
            let n = v.coefs.len();
            let bytes = if v.field == Field::Gf2_8 { n } else { (n + 1) / 2 };
            let coefs = ev::pad32_len(bytes);
            let at = 8 + ids.len();
            &&& b.len() == at + coefs + (if v.generation == 0 { 0int } else { 4 })
            &&& b.len() % 4 == 0
            &&& b[0] == b.len() / 4 % 256
            &&& b[1] / 16 == (if v.field == Field::Gf2_8 { 1int } else { 0 })
            &&& b[1] / 4 % 4 == v.format.number()
            &&& b[1] / 2 % 2 == (if n > 0 { 1int } else { 0 })
            &&& b[1] % 2 == 0
            &&& b[2] == v.ids.len() % 256
            &&& b[3] == n % 256
            &&& v.ids.len() > 0 ==> spelled(b, 4) == v.ids[0]
            &&& b.subrange(8, at as int) == ids
            &&& v.field == Field::Gf2_8 ==> b.subrange(at as int, (at + n) as int) == v.coefs
            &&& v.generation != 0 ==> b[(at + coefs) as int] == v.generation
        }),
{
    reveal(ev::ev_bytes);
    reveal(ev::word_count);
    let b = ev::ev_bytes(v);
    let stored = ev::id_storage::stored(v.ids, v.format);
    let ids = ev::padded(stored);
    lemma_padded(stored);
    let n = v.coefs.len();
    let at = 8 + ids.len();
    let first = ev::first_id(v);
    lemma_spelled(first, b, 4);
    assert(be::be32(first)[0] == b[4]);
    assert(be::be32(first)[1] == b[5]);
    assert(be::be32(first)[2] == b[6]);
    assert(be::be32(first)[3] == b[7]);
    if v.field == Field::Gf2_8 {
        lemma_padded(v.coefs);
    } else {
        lemma_padded(ev::packed_nibbles(v.coefs));
    }
    let cb = ev::coef_bytes(v);
    assert(cb.len() == ev::pad32_len(if v.field == Field::Gf2_8 { n } else { (n + 1) / 2 }));
    assert(b.skip(8) =~= ids + cb + ev::generation_bytes(v));
    assert(b.subrange(8, at as int) =~= ids);
    if v.field == Field::Gf2_8 {
        assert(b.subrange(at as int, (at + n) as int) =~= v.coefs) by {
            assert forall|i: int| 0 <= i < n implies b[at + i] == #[trigger] v.coefs[i] by {
                assert(b.skip(8)[ids.len() + i] == cb[i]);
                assert(ev::padded(v.coefs)[i] == v.coefs[i]);
            }
        }
    }
    if v.generation != 0 {
        assert(b.skip(8)[(ids.len() + cb.len()) as int] == v.generation);
    }
}

/// Coefficients of the small field stand two to a byte, the first one in the high
/// half.
pub proof fn lemma_nibble_layout(coefs: Seq<u8>, i: int)
    requires
        0 <= i < coefs.len(),
        coefs[i] < 16,
    ensures
        ev::packed_nibbles(coefs).len() == (coefs.len() + 1) / 2,
        i % 2 == 0 ==> ev::packed_nibbles(coefs)[i / 2] / 16 == coefs[i],
        i % 2 == 1 ==> ev::packed_nibbles(coefs)[i / 2] % 16 == coefs[i],
        coefs.len() % 2 == 1 ==> ev::packed_nibbles(coefs).last() % 16 == 0,
{
    let k = i / 2;
    let c = coefs[i];
    let other = if 2 * k + 1 < coefs.len() {
        coefs[2 * k + 1]
    } else {
        0u8
    };
    let first = coefs[2 * k];
    let last = coefs.last();
    assert((((first & 0x0fu8) << 4u8) | (other & 0x0fu8)) / 16 == first % 16 && ((((first & 0x0fu8)
        << 4u8) | (other & 0x0fu8)) % 16 == other % 16)) by (bit_vector);
    assert((((last & 0x0fu8) << 4u8) | 0u8) % 16 == 0) by (bit_vector);
    assert(0u8 & 0x0fu8 == 0u8) by (bit_vector);
}

// ── Reading ──────────────────────────────────────────────────────────────

/// Where the body of a packet starts, by its first byte.
pub open spec fn body_at(buf: Seq<u8>) -> int {
    4 + 4 * (buf[0] as int / 4 % 4) + (if buf[0] as int / 2 % 2 == 1 { 4int } else { 0 })
}

/// The first word of a packet is acceptable: there is one, the version is 1, and the
/// header is no longer than the packet.
pub open spec fn acceptable(buf: Seq<u8>) -> bool {
    &&& buf.len() >= 4
    &&& buf[0] as int / 16 == 1
    &&& 4 * buf[2] <= buf.len()
}

/// A buffer is read as a source packet exactly where its first word is acceptable, its
/// type is 0 and there is room for an id.  What stands at each place is read from
/// there, and the payload reaches to the end.
pub proof fn lemma_source_read(buf: Seq<u8>)
    ensures
        source::source_from(buf) is Ok <==> acceptable(buf) && buf[3] == 0 && buf.len() >= body_at(
            buf,
        ) + 4,
        source::source_from(buf) matches Ok(p) ==> p.id == spelled(buf, body_at(buf)) && p.payload
            == buf.skip(body_at(buf) + 4) && p.cci == buf.subrange(
            4,
            4 + 4 * (buf[0] as int / 4 % 4),
        ) && (buf[0] as int / 2 % 2 == 1 ==> p.tsi is Some && p.tsi->0 == spelled(
            buf,
            body_at(buf) - 4,
        )) && (buf[0] as int / 2 % 2 == 0 ==> p.tsi is None),
{
    lemma_spelled(0, buf, body_at(buf));
    lemma_spelled(0, buf, body_at(buf) - 4);
}

/// A buffer is read as feedback exactly where its first word is acceptable and the
/// fixed part and the SACK vector are there.
pub proof fn lemma_feedback_read(buf: Seq<u8>)
    ensures
        feedback::feedback_from(buf) is Ok <==> acceptable(buf) && buf.len() >= body_at(buf) + 16
            && buf.len() >= body_at(buf) + 16 + buf[body_at(buf) + 13],
        feedback::feedback_from(buf) matches Ok(m) ==> m.nb_missing_src == spelled(
            buf,
            body_at(buf),
        ) && m.nb_not_used_coded == spelled(buf, body_at(buf) + 4) && m.first_src_id == spelled(
            buf,
            body_at(buf) + 8,
        ) && m.plr_raw == buf[body_at(buf) + 12] && m.sack == buf.subrange(
            body_at(buf) + 16,
            body_at(buf) + 16 + buf[body_at(buf) + 13],
        ) && (m.tsi is Some <==> buf[0] as int / 2 % 2 == 1) && (m.tsi matches Some(t) ==> t
            == spelled(buf, body_at(buf) - 4)),
{
    lemma_spelled(0, buf, body_at(buf));
    lemma_spelled(0, buf, body_at(buf) + 4);
    lemma_spelled(0, buf, body_at(buf) + 8);
    lemma_spelled(0, buf, body_at(buf) - 4);
}

/// A buffer is read as a coded packet only where its first word is acceptable, its
/// type is 1, and a coded id and an encoding vector are there.  The payload reaches
/// from the end of the encoding vector to the end.
pub proof fn lemma_coded_read(buf: Seq<u8>)
    ensures
        coded::coded_from(buf) is Ok ==> acceptable(buf) && buf[3] == 1 && buf.len() >= body_at(buf)
            + 12,
        coded::coded_from(buf) matches Ok(p) ==> ({
            let at = body_at(buf) + 4;
            &&& p.id == spelled(buf, at - 4)
            &&& p.ev.coded_id == p.id
            &&& p.payload == buf.skip(at + 4 * buf[at])
            &&& p.header.reserved == buf[1]
            &&& buf[at + 1] as int / 16 == (if p.ev.field == Field::Gf2_8 { 1int } else { 0 })
            &&& buf[at + 1] as int / 4 % 4 == 0 ==> p.ev.ids.len() == buf[at + 2] && forall|j: int|
                0 <= j < p.ev.ids.len() ==> #[trigger] p.ev.ids[j] == (spelled(buf, at + 4) + j)
                    % 0x1_0000_0000
            &&& p.ev.coefs.len() > 0 ==> buf[at + 1] as int / 2 % 2 == 1 && buf[at + 3] == buf[at
                + 2]
            &&& p.ev.coefs.len() == buf[at + 3]
        }),
{
    let at = body_at(buf) + 4;
    lemma_spelled(0, buf, body_at(buf));
    lemma_spelled(0, buf.skip(at), 4);
    reveal(ev::ev_from);
    reveal(ev::id_storage::wrap);
}

/// The type decides how a buffer is read, and behind feedback nothing may follow.
pub proof fn lemma_packet_read(buf: Seq<u8>)
    ensures
        crate::wire::packet_from(buf) is Ok ==> acceptable(buf) && buf[3] <= 2,
        acceptable(buf) && buf[3] == 0 ==> (crate::wire::packet_from(buf) is Ok
            <==> source::source_from(buf) is Ok) && (crate::wire::packet_from(buf) matches Ok(p)
            ==> p == crate::wire::PacketModel::Source(source::source_from(buf)->Ok_0)),
        acceptable(buf) && buf[3] == 1 ==> (crate::wire::packet_from(buf) is Ok
            <==> coded::coded_from(buf) is Ok) && (crate::wire::packet_from(buf) matches Ok(p)
            ==> p == crate::wire::PacketModel::Coded(coded::coded_from(buf)->Ok_0)),
        acceptable(buf) && buf[3] == 2 ==> (crate::wire::packet_from(buf) is Ok
            <==> feedback::feedback_from(buf) is Ok && buf.len() <= body_at(buf) + 16
            + ev::padded(feedback::feedback_from(buf)->Ok_0.sack).len()) && (
        crate::wire::packet_from(buf) matches Ok(p) ==> p == crate::wire::PacketModel::Feedback(
            feedback::feedback_from(buf)->Ok_0,
        )),
{
}

// ── Loss rates ───────────────────────────────────────────────────────────

/// The loss rate on the wire is the rate in 256ths, rounded down: it never says more
/// than was lost, and less by under one 256th.  A rate of one or more is 255.
pub proof fn lemma_plr(loss: LossRate)
    ensures
        loss.expected == 0 ==> feedback::plr_of(loss) == 0,
        0 < loss.expected <= loss.lost ==> feedback::plr_of(loss) == 255,
        loss.lost < loss.expected ==> feedback::plr_of(loss) * loss.expected <= 256 * loss.lost
            < (feedback::plr_of(loss) + 1) * loss.expected,
{
    if loss.lost < loss.expected {
        let e: int = loss.expected as int;
        let n: int = loss.lost * 256;
        let q: int = n / e;
        vstd::arithmetic::div_mod::lemma_fundamental_div_mod(n, e);
        vstd::arithmetic::div_mod::lemma_mod_bound(n, e);
        assert(0 <= q < 256) by (nonlinear_arith)
            requires
                n == e * q + n % e,
                0 <= n % e < e,
                0 <= n < 256 * e,
        ;
        assert(q * e <= n < (q + 1) * e) by (nonlinear_arith)
            requires
                n == e * q + n % e,
                0 <= n % e < e,
        ;
    }
}

// ── SACK vectors ─────────────────────────────────────────────────────────

/// Bit `8 q + r` of a SACK vector stands in byte `q`, the first one with the weight
/// 128 and each next one with half of it.
pub proof fn lemma_sack_weights(sack: Seq<u8>, q: int, r: int)
    requires
        0 <= q < sack.len(),
        0 <= r < 8,
    ensures
        feedback::sack_bit(sack, 8 * q + r) <==> (sack[q] as int / (if r == 0 {
            128int
        } else if r == 1 {
            64
        } else if r == 2 {
            32
        } else if r == 3 {
            16
        } else if r == 4 {
            8
        } else if r == 5 {
            4
        } else if r == 6 {
            2
        } else {
            1
        })) % 2 == 1,
{
    let b = sack[q];
    assert((8 * q + r) / 8 == q && (8 * q + r) % 8 == r);
    assert(((b >> 7u8) & 1 == 1 <==> (b / 128) % 2 == 1) && ((b >> 6u8) & 1 == 1 <==> (b / 64) % 2
        == 1) && ((b >> 5u8) & 1 == 1 <==> (b / 32) % 2 == 1) && ((b >> 4u8) & 1 == 1 <==> (b / 16)
        % 2 == 1) && ((b >> 3u8) & 1 == 1 <==> (b / 8) % 2 == 1) && ((b >> 2u8) & 1 == 1 <==> (b
        / 4) % 2 == 1) && ((b >> 1u8) & 1 == 1 <==> (b / 2) % 2 == 1) && ((b >> 0u8) & 1 == 1 <==> b
        % 2 == 1)) by (bit_vector);
    assert((7 - r) as u8 == 7 - r);
}

/// A SACK vector reaches as far as the highest id that it acknowledges, and no
/// further.
pub proof fn lemma_sack_reach(sack: Seq<u8>, first: u32, ids: Seq<u32>)
    requires
        feedback::is_sack(sack, first, ids),
    ensures
        forall|i: int|
            0 <= i < ids.len() && ids[i] >= first ==> (#[trigger] ids[i] - first) / 8 < sack.len(),
        sack.len() > 0 ==> exists|i: int|
            0 <= i < ids.len() && #[trigger] ids[i] >= first && (ids[i] - first) / 8 == sack.len()
                - 1,
{
    lemma_sack_len(first, ids);
}

proof fn lemma_sack_len(first: u32, ids: Seq<u32>)
    ensures
        forall|i: int|
            0 <= i < ids.len() && ids[i] >= first ==> (#[trigger] ids[i] - first) / 8
                < feedback::sack_len(first, ids),
        feedback::sack_len(first, ids) > 0 ==> exists|i: int|
            0 <= i < ids.len() && #[trigger] ids[i] >= first && (ids[i] - first) / 8
                == feedback::sack_len(first, ids) - 1,
    decreases ids.len(),
{
    if ids.len() > 0 {
        let v = ids.drop_last();
        lemma_sack_len(first, v);
        let last = ids.len() - 1;
        let n = feedback::sack_len(first, v);
        assert forall|i: int| 0 <= i < ids.len() && ids[i] >= first implies (#[trigger] ids[i]
            - first) / 8 < feedback::sack_len(first, ids) by {
            if i < last {
                assert(v[i] == ids[i]);
            }
        }
        if feedback::sack_len(first, ids) > 0 {
            if feedback::sack_len(first, ids) == n {
                let i = choose|i: int|
                    0 <= i < v.len() && #[trigger] v[i] >= first && (v[i] - first) / 8 == n - 1;
                assert(ids[i] == v[i]);
            } else {
                assert(ids[last] >= first);
            }
        }
    }
}

// ── Refusals ─────────────────────────────────────────────────────────────

/// Why the first word of a packet is refused, in this order: it is not all there, the
/// version is not 1, or the header is longer than the packet.
pub proof fn lemma_header_refused(buf: Seq<u8>)
    ensures
        common::header_from(buf) is Ok <==> acceptable(buf),
        common::header_from(buf) matches Ok(h) ==> h.flags == buf[0] && h.reserved == buf[1]
            && h.hdr_len_words == buf[2] && h.pkt_type == buf[3],
        common::header_from(buf) matches Err(e) ==> match e {
            DelpError::BufferTooShort { needed, available } => buf.len() < 4 && needed == 4
                && available == buf.len() as usize,
            DelpError::UnsupportedVersion(v) => buf.len() >= 4 && v == buf[0] / 16 && v != 1,
            DelpError::InvalidHeaderLength { hdr_len_words, packet_len } => buf.len() >= 4
                && buf[0] / 16 == 1 && 4 * buf[2] > buf.len() && hdr_len_words == buf[2]
                && packet_len == buf.len() as usize,
            _ => false,
        },
{
}

/// Why a source packet is refused once its first word is acceptable: its type is
/// another one, or the id is not all there.
pub proof fn lemma_source_refused(buf: Seq<u8>)
    requires
        acceptable(buf),
    ensures
        source::source_from(buf) matches Err(e) ==> match e {
            DelpError::UnknownPacketType(t) => t == buf[3] && t != 0,
            DelpError::BufferTooShort { needed, available } => buf[3] == 0 && buf.len() < body_at(
                buf,
            ) + 4 && needed == body_at(buf) + 4 && available == buf.len() as usize,
            _ => false,
        },
{
}

/// Why feedback is refused once its first word is acceptable: the fixed part or the
/// SACK vector is not all there.
pub proof fn lemma_feedback_refused(buf: Seq<u8>)
    requires
        acceptable(buf),
    ensures
        feedback::feedback_from(buf) matches Err(e) ==> ({
            let at = body_at(buf);
            let fixed = buf.len() >= at + 16;
            e == (DelpError::BufferTooShort {
                needed: (if fixed { at + 16 + buf[at + 13] } else { at + 16 }) as usize,
                available: buf.len() as usize,
            })
        }),
{
}

/// What an encoding vector needs before its ids are read: eight bytes, all of its
/// words, a field that is known, and as many coefficients as ids or none.
pub open spec fn vector_starts(buf: Seq<u8>) -> bool {
    &&& buf.len() >= 8
    &&& buf.len() >= 4 * buf[0]
    &&& buf[0] >= 2
    &&& buf[1] as int / 16 <= 1
    &&& buf[3] == (if buf[1] as int / 2 % 2 == 1 { buf[2] } else { 0 })
}

/// An encoding vector over ids without a gap is read exactly where it starts well and
/// its coefficients are all there; its ids count up from the first one, and it takes
/// the words that it says.  No other encoding vector is read that does not start well.
pub proof fn lemma_vector_read(buf: Seq<u8>, coded_id: u32)
    ensures
        ev::ev_from(buf, coded_id) is Ok ==> vector_starts(buf),
        ev::ev_from(buf, coded_id) matches Ok(r) ==> r.1 == 4 * buf[0] && r.0.coded_id == coded_id
            && r.0.coefs.len() == buf[3] && r.0.field == (if buf[1] as int / 16 == 1 {
            Field::Gf2_8
        } else {
            Field::Gf2_4
        }),
        buf.len() >= 8 && buf[1] as int / 4 % 4 == 0 ==> (ev::ev_from(buf, coded_id) is Ok
            <==> vector_starts(buf) && buf.len() >= 8 + (if buf[1] as int / 16 == 1 {
            buf[3] as int
        } else {
            (buf[3] + 1) / 2
        })),
        buf.len() >= 8 && buf[1] as int / 4 % 4 == 0 ==> (ev::ev_from(buf, coded_id) matches Ok(r)
            ==> r.0.ids.len() == buf[2] && (forall|i: int|
            0 <= i < buf[2] ==> #[trigger] r.0.ids[i] == (spelled(buf, 4) + i) % 0x1_0000_0000)
            && (buf[1] as int / 16 == 1 ==> forall|i: int|
            0 <= i < buf[3] ==> #[trigger] r.0.coefs[i] == buf[8 + i]) && (buf[1] as int / 16 == 0
            ==> forall|i: int|
            0 <= i < buf[3] ==> #[trigger] r.0.coefs[i] == (if i % 2 == 0 {
                buf[8 + i / 2] as int / 16
            } else {
                buf[8 + i / 2] as int % 16
            }))),
        ev::ev_from(buf, coded_id) matches Err(e) ==> (e is BufferTooShort && buf.len() < 8) || (
        buf.len() >= 8 && match e {
            DelpError::EncodingVectorOverflow { ev_len_words } => buf.len() < 4 * buf[0]
                && ev_len_words == buf[0],
            DelpError::CoefficientFieldInconsistency => buf[3] != (if buf[1] as int / 2 % 2 == 1 {
                buf[2]
            } else {
                0
            }),
            DelpError::MalformedEncodingVector { .. } => buf[1] as int / 16 > 1 || buf[0] < 2
                || buf[1] as int / 4 % 4 != 0,
            DelpError::BufferTooShort { .. } => vector_starts(buf),
            _ => false,
        }),
{
    reveal(ev::ev_from);
    reveal(ev::id_storage::wrap);
    lemma_spelled(0, buf, 4);
    if buf.len() >= 8 {
        assert forall|i: int| 0 <= i < buf.len() - 8 implies crate::gf::algebra::hi_nibble(
            #[trigger] buf[8 + i],
        ) == buf[8 + i] / 16 && crate::gf::algebra::lo_nibble(buf[8 + i]) == buf[8 + i] % 16 by {
            crate::gf::laws::lemma_halves(0, 0, buf[8 + i]);
        }
    }
}

/// A header says its version, the number of CCI words, whether there is a session id,
/// its length and its type, each in its place.
pub proof fn lemma_header_fields(t: PacketType, cci: CciLength, has_tsi: bool, words: u8)
    ensures
        ({
            let h = common::header_of(t, cci, has_tsi, words);
            &&& h.bytes() == seq![h.flags, h.reserved, h.hdr_len_words, h.pkt_type]
            &&& h.flags / 16 == 1
            &&& h.flags as int / 4 % 4 == cci.count()
            &&& h.flags as int / 2 % 2 == (if has_tsi { 1int } else { 0 })
            &&& h.flags as int % 2 == 0
            &&& h.reserved == 0
            &&& h.hdr_len_words == words
            &&& h.pkt_type == (match t {
                PacketType::Source => 0u8,
                PacketType::Coded => 1u8,
                PacketType::Feedback => 2u8,
            })
            &&& h.body_start() == 4 + 4 * cci.count() + (if has_tsi { 4int } else { 0 })
        }),
{
}

/// The number of a packet type and of a CCI length.
pub proof fn lemma_type_numbers(v: u8)
    ensures
        common::type_from(v) is Ok <==> v <= 2,
        common::type_from(v) matches Ok(t) ==> t.number() == v,
        common::type_from(v) matches Err(e) ==> e == DelpError::UnknownPacketType(v),
        CciLength::Zero.count() == 0,
        CciLength::One.count() == 1,
        CciLength::Two.count() == 2,
        CciLength::Three.count() == 3,
{
}

/// Coefficients of the small field are taken from the high half of a byte first.
pub proof fn lemma_unpacked(bytes: Seq<u8>, n: nat, i: int)
    requires
        0 <= i < n <= 2 * bytes.len(),
    ensures
        ev::unpacked_nibbles(bytes, n).len() == n,
        i % 2 == 0 ==> ev::unpacked_nibbles(bytes, n)[i] == bytes[i / 2] / 16,
        i % 2 == 1 ==> ev::unpacked_nibbles(bytes, n)[i] == bytes[i / 2] % 16,
{
    crate::gf::laws::lemma_halves(0, 0, bytes[i / 2]);
}

/// What a coded packet tells of the start of the window: exactly the start, where it
/// lies fewer than 255 ids before the first id of the packet, and otherwise nothing.
pub proof fn lemma_start(ids: Seq<u32>, start: u32)
    requires
        ids.len() > 0,
    ensures
        start <= ids[0] && ids[0] - start < 255 ==> coded::start_told(
            ids,
            coded::lag_of(ids[0], start),
        ) == Some(start),
        start > ids[0] || ids[0] - start >= 255 ==> coded::start_told(
            ids,
            coded::lag_of(ids[0], start),
        ) is None,
{
}

} // verus!
