//! Encoding vectors: which source symbols a coded packet combines, and how.
//!
//! ```text
//! Byte 0:    EV_LEN, the length in 32-bit words
//! Byte 1:    [CCGI:4][I:2][C:1][V:1]
//! Byte 2:    NB_IDS
//! Byte 3:    NB_COEFS
//! Byte 4..7: FIRST_SOURCE_ID
//! then the source ids in the format I, padded to 32 bits,
//! then the coefficients where C is set, padded to 32 bits,
//! then, where it is not zero, a word that starts with the generation
//! ```
//!
//! V is always 0.  CCGI is 0 for GF(2^4) and 1 for GF(2^8).
use vstd::prelude::*;

use crate::buffers::{CoefList, IdList};
use crate::config::Field;
use crate::error::{DelpError, Result};
use crate::gf::algebra;
use crate::wire::be;
use crate::wire::be::{push_u32, read_u32};

mod bits;
pub mod coef_gen;
pub mod id_storage;
pub mod laws;

use id_storage::IdStorageFormat;

verus! {

/// What an encoding vector says.
#[verifier::ext_equal]
pub struct EvModel {
    pub field: Field,
    pub coded_id: u32,
    pub generation: u8,
    pub format: IdStorageFormat,
    pub ids: Seq<u32>,
    pub coefs: Seq<u8>,
}

impl EvModel {
    /// The coefficients are either implicit or one per source id.
    pub open spec fn wf(self) -> bool {
        self.coefs.len() == 0 || self.coefs.len() == self.ids.len()
    }

    /// Every source id has a coefficient.
    pub open spec fn complete(self) -> bool {
        self.coefs.len() == 0 || self.coefs.len() >= self.ids.len()
    }

    /// The coefficient of the source id at position `i`.
    pub open spec fn coef(self, i: int) -> u8 {
        if self.coefs.len() > 0 {
            self.coefs[i]
        } else {
            coef_gen::vandermonde(self.field, self.ids[i], self.coded_id)
        }
    }
}

/// The encoding vector of a coded packet.
#[derive(Debug)]
pub struct EncodingVector {
    /// The field of the coefficients.
    pub field: Field,
    /// The id of the coded packet.
    pub coded_id: u32,
    /// The generation of the coded id.
    pub generation: u8,
    /// How the source ids are stored on the wire.
    pub id_format: IdStorageFormat,
    /// The source symbols that are combined.
    pub source_ids: IdList,
    /// Explicit coefficients, one per source id; empty where they are the
    /// Vandermonde coefficients of `coded_id`.
    pub coefficients: CoefList,
}

impl View for EncodingVector {
    type V = EvModel;

    open spec fn view(&self) -> EvModel {
        EvModel {
            field: self.field,
            coded_id: self.coded_id,
            generation: self.generation,
            format: self.id_format,
            ids: self.source_ids@,
            coefs: self.coefficients@,
        }
    }
}

impl Clone for EncodingVector {
    fn clone(&self) -> (r: Self)
        ensures
            r@ == self@,
    {
        EncodingVector {
            field: self.field,
            coded_id: self.coded_id,
            generation: self.generation,
            id_format: self.id_format,
            source_ids: self.source_ids.clone(),
            coefficients: self.coefficients.clone(),
        }
    }
}

// ── Padding and packing ──────────────────────────────────────────────────

/// The next multiple of four.
pub open spec fn pad32_len(n: nat) -> nat {
    (n + 3) / 4 * 4
}

/// `s` with zeros up to the next multiple of four bytes.
pub open spec fn padded(s: Seq<u8>) -> Seq<u8> {
    s + Seq::new((pad32_len(s.len()) - s.len()) as nat, |i: int| 0u8)
}

/// Rounds up to the next multiple of four.
pub(crate) fn pad32(len: usize) -> (r: usize)
    requires
        len <= usize::MAX - 3,
    ensures
        r == pad32_len(len as nat),
{
    (len + 3) / 4 * 4
}

/// Appends zeros up to the next multiple of four bytes.
pub(crate) fn pad_to_word(v: &mut Vec<u8>)
    ensures
        final(v)@ == padded(old(v)@),
{
    let ghost n = v@.len();
    while v.len() % 4 != 0
        invariant
            old(v)@.len() == n,
            n <= v@.len() <= pad32_len(n),
            v@ == old(v)@ + Seq::new((v@.len() - n) as nat, |i: int| 0u8),
        decreases pad32_len(n) - v@.len(),
    {
        v.push(0);
        assert(v@ =~= old(v)@ + Seq::new((v@.len() - n) as nat, |i: int| 0u8));
    }
}

/// Two coefficients per byte, the first one in the high nibble.
pub open spec fn packed_nibbles(coefs: Seq<u8>) -> Seq<u8> {
    Seq::new(
        (coefs.len() + 1) / 2,
        |i: int|
            algebra::pack(
                algebra::lo_nibble(coefs[2 * i]),
                if 2 * i + 1 < coefs.len() {
                    algebra::lo_nibble(coefs[2 * i + 1])
                } else {
                    0
                },
            ),
    )
}

/// The first `n` nibbles, the high one of each byte first.
pub open spec fn unpacked_nibbles(bytes: Seq<u8>, n: nat) -> Seq<u8> {
    Seq::new(
        n,
        |i: int|
            if i % 2 == 0 {
                algebra::hi_nibble(bytes[i / 2])
            } else {
                algebra::lo_nibble(bytes[i / 2])
            },
    )
}

/// Packs GF(2^4) coefficients, two per byte.
pub fn pack_nibbles(coefs: &[u8]) -> (r: Vec<u8>)
    ensures
        r@ == packed_nibbles(coefs@),
{
    let mut out: Vec<u8> = Vec::new();
    let mut i: usize = 0;
    let n: usize = coefs.len();
    while i < n
        invariant
            n == coefs@.len(),
            i % 2 == 0,
            i <= n + 1,
            out@.len() == (i + 1) / 2,
            forall|k: int| 0 <= k < out@.len() ==> #[trigger] out@[k] == packed_nibbles(coefs@)[k],
        decreases n + 1 - i,
    {
        let hi: u8 = coefs[i] & 0x0F;
        let lo: u8 = if n - i > 1 {
            coefs[i + 1] & 0x0F
        } else {
            0
        };
        out.push((hi << 4) | lo);
        if n - i > 1 {
            i += 2;
        } else {
            assert(out@ =~= packed_nibbles(coefs@));
            return out;
        }
    }
    assert(out@ =~= packed_nibbles(coefs@));
    out
}

/// Unpacks `count` GF(2^4) coefficients, or as many as there are.
pub fn unpack_nibbles(bytes: &[u8], count: usize) -> (r: CoefList)
    ensures
        r@ == unpacked_nibbles(
            bytes@,
            if count <= 2 * bytes@.len() {
                count as nat
            } else {
                2 * bytes@.len()
            },
        ),
{
    let mut out = CoefList::new();
    let mut i: usize = 0;
    while i < count && i / 2 < bytes.len()
        invariant
            i <= count,
            i <= 2 * bytes@.len(),
            out@ == unpacked_nibbles(bytes@, i as nat),
        decreases count - i,
    {
        let byte: u8 = bytes[i / 2];
        if i % 2 == 0 {
            out.push(byte >> 4);
        } else {
            out.push(byte & 0x0F);
        }
        i += 1;
        assert(out@ =~= unpacked_nibbles(bytes@, i as nat));
    }
    out
}

/// Unpacking gives back what was packed.
pub proof fn lemma_nibble_round_trip(coefs: Seq<u8>)
    requires
        forall|i: int| 0 <= i < coefs.len() ==> #[trigger] coefs[i] < 16,
    ensures
        unpacked_nibbles(packed_nibbles(coefs), coefs.len()) == coefs,
{
    let p = packed_nibbles(coefs);
    let u = unpacked_nibbles(p, coefs.len());
    assert forall|i: int| 0 <= i < coefs.len() implies #[trigger] u[i] == coefs[i] by {
        let j = i / 2;
        let hi = coefs[2 * j];
        let lo: u8 = if 2 * j + 1 < coefs.len() { coefs[2 * j + 1] } else { 0 };
        algebra::lemma_small_byte(hi);
        algebra::lemma_small_byte(lo);
        algebra::lemma_nibbles(0, 0, hi, lo, 0, 0);
        assert(p[j] == algebra::pack(hi, lo));
    }
    assert(u =~= coefs);
}

// ── The wire format ──────────────────────────────────────────────────────

/// The coefficients on the wire.
pub open spec fn coef_bytes(ev: EvModel) -> Seq<u8> {
    if ev.coefs.len() == 0 {
        Seq::empty()
    } else {
        match ev.field {
            Field::Gf2_8 => padded(ev.coefs),
            Field::Gf2_4 => padded(packed_nibbles(ev.coefs)),
        }
    }
}

/// The generation on the wire.
pub open spec fn generation_bytes(ev: EvModel) -> Seq<u8> {
    if ev.generation == 0 {
        Seq::empty()
    } else {
        seq![ev.generation, 0, 0, 0]
    }
}

/// What follows the fixed part.
pub open spec fn body_bytes(ev: EvModel) -> Seq<u8> {
    padded(id_storage::stored(ev.ids, ev.format)) + coef_bytes(ev) + generation_bytes(ev)
}

/// The flag byte.
pub open spec fn flag_byte(ev: EvModel) -> u8 {
    ((if ev.field == Field::Gf2_8 { 16int } else { 0 }) + 4 * ev.format.number() + (
    if ev.coefs.len() > 0 { 2int } else { 0 })) as u8
}

/// The first source id, or zero.
pub open spec fn first_id(ev: EvModel) -> u32 {
    if ev.ids.len() > 0 { ev.ids[0] } else { 0 }
}

/// The length of the encoding vector in words.
#[verifier::opaque]
pub open spec fn word_count(ev: EvModel) -> nat {
    (8 + body_bytes(ev).len()) / 4
}

/// The bytes of an encoding vector.
#[verifier::opaque]
pub open spec fn ev_bytes(ev: EvModel) -> Seq<u8> {
    seq![
        (word_count(ev) % 256) as u8,
        flag_byte(ev),
        (ev.ids.len() % 256) as u8,
        (ev.coefs.len() % 256) as u8,
    ] + be::be32(first_id(ev)) + body_bytes(ev)
}

/// The bytes that `n` coefficients take.
pub open spec fn coef_len(field: Field, n: nat) -> nat {
    match field {
        Field::Gf2_8 => n,
        Field::Gf2_4 => (n + 1) / 2,
    }
}

/// What the bytes of an encoding vector say after the flags have been checked.
pub open spec fn ev_body_from(buf: Seq<u8>, coded_id: u32, field: Field) -> core::result::Result<
    (EvModel, nat),
    DelpError,
> {
    let len = 4 * buf[0] as nat;
    let nb_ids = buf[2] as nat;
    let explicit = buf[1] / 2 % 2 == 1;
    let format = format_of(buf[1] / 4 % 4);
    match id_storage::loaded(buf.subrange(8, len as int), nb_ids, be::u32_at(buf, 4), format) {
        Err(e) => Err(e),
        Ok((ids, used)) => {
            let off = 8 + pad32_len(used);
            let n = if explicit { coef_len(field, nb_ids) } else { 0 };
            let end = off + pad32_len(n);
            if buf.len() < off + n {
                Err(
                    DelpError::BufferTooShort {
                        needed: (off + n) as usize,
                        available: buf.len() as usize,
                    },
                )
            } else {
                let raw = buf.subrange(off as int, (off + n) as int);
                let coefs = if !explicit {
                    Seq::empty()
                } else {
                    match field {
                        Field::Gf2_8 => raw,
                        Field::Gf2_4 => unpacked_nibbles(raw, nb_ids),
                    }
                };
                let generation: u8 = if end + 4 <= len { buf[end as int] } else { 0 };
                Ok((EvModel { field, coded_id, generation, format, ids, coefs }, len))
            }
        },
    }
}

/// The format with the number `v`.
pub open spec fn format_of(v: u8) -> IdStorageFormat {
    if v == 0 {
        IdStorageFormat::Contiguous
    } else if v == 1 {
        IdStorageFormat::UncompressedEdges
    } else if v == 2 {
        IdStorageFormat::CompressedList
    } else {
        IdStorageFormat::CompressedEdges
    }
}

/// What the bytes at the start of `buf` say as an encoding vector, and how many
/// bytes it takes, or why they are refused.
#[verifier::opaque]
pub open spec fn ev_from(buf: Seq<u8>, coded_id: u32) -> core::result::Result<
    (EvModel, nat),
    DelpError,
> {
    if buf.len() < 8 {
        Err(DelpError::BufferTooShort { needed: 8, available: buf.len() as usize })
    } else if buf.len() < 4 * buf[0] {
        Err(DelpError::EncodingVectorOverflow { ev_len_words: buf[0] })
    } else if buf[1] / 16 > 1 {
        Err(DelpError::MalformedEncodingVector { reason: "invalid CCGI" })
    } else if buf[3] != (if buf[1] / 2 % 2 == 1 { buf[2] } else { 0 }) {
        Err(DelpError::CoefficientFieldInconsistency)
    } else if buf[0] < 2 {
        Err(DelpError::MalformedEncodingVector { reason: "EV_LEN too short" })
    } else {
        ev_body_from(
            buf,
            coded_id,
            if buf[1] / 16 == 1 { Field::Gf2_8 } else { Field::Gf2_4 },
        )
    }
}

/// What a result of [`EncodingVector::parse`] holds.
pub open spec fn ev_result(r: Result<(EncodingVector, usize)>) -> core::result::Result<
    (EvModel, nat),
    DelpError,
> {
    match r {
        Ok(p) => Ok((p.0@, p.1 as nat)),
        Err(e) => Err(e),
    }
}

impl EncodingVector {
    /// An encoding vector with implicit Vandermonde coefficients.
    pub fn vandermonde(field: Field, coded_id: u32, source_ids: IdList) -> (r: Self)
        ensures
            r@ == (EvModel {
                field,
                coded_id,
                generation: 0,
                format: IdStorageFormat::chosen(source_ids@),
                ids: source_ids@,
                coefs: Seq::empty(),
            }),
    {
        let id_format = IdStorageFormat::best_for(source_ids.as_slice());
        Self {
            field,
            coded_id,
            generation: 0,
            id_format,
            source_ids,
            coefficients: CoefList::new(),
        }
    }

    /// An encoding vector with one explicit coefficient per source id.
    pub fn explicit(
        field: Field,
        coded_id: u32,
        source_ids: IdList,
        coefficients: CoefList,
    ) -> (r: Self)
        requires
            source_ids@.len() == coefficients@.len(),
        ensures
            r@ == (EvModel {
                field,
                coded_id,
                generation: 0,
                format: IdStorageFormat::chosen(source_ids@),
                ids: source_ids@,
                coefs: coefficients@,
            }),
    {
        let id_format = IdStorageFormat::best_for(source_ids.as_slice());
        Self { field, coded_id, generation: 0, id_format, source_ids, coefficients }
    }

    /// The same encoding vector in another generation.
    pub fn with_generation(self, generation: u8) -> (r: Self)
        ensures
            r@ == (EvModel { generation, ..self@ }),
    {
        let mut ev = self;
        ev.generation = generation;
        ev
    }

    /// Whether the coefficients are stated.
    pub fn has_explicit_coefs(&self) -> (r: bool)
        ensures
            r == (self@.coefs.len() > 0),
    {
        !self.coefficients.is_empty()
    }

    /// The number of source ids, as the wire holds it.
    pub fn nb_ids(&self) -> (r: u8)
        ensures
            r == self@.ids.len() % 256,
    {
        (self.source_ids.len() % 256) as u8
    }

    /// The number of explicit coefficients, as the wire holds it.
    pub fn nb_coefs(&self) -> (r: u8)
        ensures
            r == self@.coefs.len() % 256,
    {
        (self.coefficients.len() % 256) as u8
    }

    /// What follows the fixed part.
    fn serialise_body(&self) -> (body: Vec<u8>)
        requires
            self@.format == IdStorageFormat::Contiguous || self@.ids.len() > 0,
        ensures
            body@ == body_bytes(self@),
    {
        let ghost ev = self@;
        let mut body: Vec<u8> = id_storage::encode(self.source_ids.as_slice(), self.id_format);
        pad_to_word(&mut body);
        let ghost ids = body@;
        if self.has_explicit_coefs() {
            let mut coefs: Vec<u8> = match self.field {
                Field::Gf2_8 => vstd::slice::slice_to_vec(self.coefficients.as_slice()),
                Field::Gf2_4 => pack_nibbles(self.coefficients.as_slice()),
            };
            pad_to_word(&mut coefs);
            body.extend_from_slice(coefs.as_slice());
        }
        assert(body@ =~= ids + coef_bytes(ev));
        if self.generation != 0 {
            body.push(self.generation);
            body.push(0);
            body.push(0);
            body.push(0);
        }
        assert(body@ =~= ids + coef_bytes(ev) + generation_bytes(ev));
        body
    }

    /// The bytes of the encoding vector.
    pub fn serialise(&self) -> (r: Vec<u8>)
        requires
            self@.format == IdStorageFormat::Contiguous || self@.ids.len() > 0,
        ensures
            r@ == ev_bytes(self@),
    {
        reveal(ev_bytes);
        reveal(word_count);
        let ghost ev = self@;
        let body = self.serialise_body();
        let words: usize = body.len() / 4;
        proof {
            lemma_body_len(ev);
        }
        let ccgi: u8 = match self.field {
            Field::Gf2_4 => 0,
            Field::Gf2_8 => 16,
        };
        let c: u8 = if self.has_explicit_coefs() {
            2
        } else {
            0
        };
        let ids: &[u32] = self.source_ids.as_slice();
        let first: u32 = if ids.len() > 0 {
            ids[0]
        } else {
            0
        };
        assert(word_count(ev) == words + 2);
        let len_byte: u8 = ((words % 256 + 2) % 256) as u8;
        let flags: u8 = ccgi + 4 * self.id_format.wire_value() + c;
        assert(flags == flag_byte(ev));
        assert(len_byte == (word_count(ev) % 256) as u8);
        assemble(len_byte, flags, self.nb_ids(), self.nb_coefs(), first, body.as_slice())
    }

    /// Reads an encoding vector from the start of `buf`.
    ///
    /// Returns it and the number of bytes it takes.
    pub fn parse(buf: &[u8], coded_id: u32) -> (r: Result<(Self, usize)>)
        ensures
            ev_result(r) == ev_from(buf@, coded_id),
            r matches Ok(p) ==> p.0@.wf() && 8 <= p.1 <= buf@.len(),
    {
        reveal(ev_from);
        if buf.len() < 8 {
            return Err(DelpError::BufferTooShort { needed: 8, available: buf.len() });
        }
        let words: u8 = buf[0];
        let len: usize = words as usize * 4;
        if buf.len() < len {
            return Err(DelpError::EncodingVectorOverflow { ev_len_words: words });
        }
        let flags: u8 = buf[1];
        let ccgi: u8 = flags / 16;
        let i_bits: u8 = flags / 4 % 4;
        let explicit: bool = flags / 2 % 2 == 1;
        let field = if ccgi == 0 {
            Field::Gf2_4
        } else if ccgi == 1 {
            Field::Gf2_8
        } else {
            return Err(DelpError::MalformedEncodingVector { reason: "invalid CCGI" });
        };
        let nb_ids: usize = buf[2] as usize;
        let nb_coefs: usize = buf[3] as usize;
        if !explicit && nb_coefs != 0 {
            return Err(DelpError::CoefficientFieldInconsistency);
        }
        if explicit && nb_coefs != nb_ids {
            return Err(DelpError::CoefficientFieldInconsistency);
        }
        if words < 2 {
            return Err(DelpError::MalformedEncodingVector { reason: "EV_LEN too short" });
        }
        let first: u32 = read_u32(buf, 4);
        let id_format = IdStorageFormat::from_wire(i_bits)?;
        assert(id_format == format_of(i_bits));
        let stored = vstd::slice::slice_subrange(buf, 8, len);
        let (ids, used) = match id_storage::decode(stored, nb_ids, first, id_format) {
            Ok(p) => p,
            Err(e) => return Err(e),
        };
        let off: usize = 8 + pad32(used);
        let n: usize = if !explicit {
            0
        } else {
            match field {
                Field::Gf2_8 => nb_coefs,
                Field::Gf2_4 => (nb_coefs + 1) / 2,
            }
        };
        if buf.len() < off + n {
            return Err(DelpError::BufferTooShort { needed: off + n, available: buf.len() });
        }
        let raw = vstd::slice::slice_subrange(buf, off, off + n);
        let coefficients = if !explicit {
            CoefList::new()
        } else {
            match field {
                Field::Gf2_8 => CoefList::from_slice(raw),
                Field::Gf2_4 => unpack_nibbles(raw, nb_coefs),
            }
        };
        let end: usize = off + pad32(n);
        let generation: u8 = if end + 4 <= len {
            buf[end]
        } else {
            0
        };
        let ev = Self {
            field,
            coded_id,
            generation,
            id_format,
            source_ids: IdList::from_slice(ids.as_slice()),
            coefficients,
        };
        Ok((ev, len))
    }
}

/// Puts the fixed part before the rest.
fn assemble(len_byte: u8, flags: u8, nb_ids: u8, nb_coefs: u8, first: u32, body: &[u8]) -> (out:
    Vec<u8>)
    ensures
        out@ == seq![len_byte, flags, nb_ids, nb_coefs] + be::be32(first) + body@,
{
    let mut out: Vec<u8> = Vec::new();
    out.push(len_byte);
    out.push(flags);
    out.push(nb_ids);
    out.push(nb_coefs);
    assert(out@ =~= seq![len_byte, flags, nb_ids, nb_coefs]);
    push_u32(&mut out, first);
    out.extend_from_slice(body);
    assert(out@ =~= seq![len_byte, flags, nb_ids, nb_coefs] + be::be32(first) + body@);
    out
}

/// Padding fills up to whole words.
proof fn lemma_padded(s: Seq<u8>)
    ensures
        padded(s).len() == pad32_len(s.len()),
        pad32_len(s.len()) % 4 == 0,
        s.len() <= pad32_len(s.len()) <= s.len() + 3,
{
}

/// The parts of an encoding vector are whole words.
pub proof fn lemma_body_len(ev: EvModel)
    ensures
        body_bytes(ev).len() % 4 == 0,
        coef_bytes(ev).len() % 4 == 0,
        padded(id_storage::stored(ev.ids, ev.format)).len() == pad32_len(
            id_storage::stored(ev.ids, ev.format).len(),
        ),
{
    lemma_padded(id_storage::stored(ev.ids, ev.format));
    lemma_padded(ev.coefs);
    lemma_padded(packed_nibbles(ev.coefs));
}

/// The bytes and the length of an encoding vector do not depend on the coded id.
pub proof fn lemma_coded_id_not_stored(ev: EvModel, coded_id: u32)
    ensures
        ev_bytes(EvModel { coded_id, ..ev }) == ev_bytes(ev),
        word_count(EvModel { coded_id, ..ev }) == word_count(ev),
{
    reveal(ev_bytes);
    reveal(word_count);
}

/// The length in words is the length in bytes.
pub proof fn lemma_word_count(ev: EvModel)
    ensures
        ev_bytes(ev).len() == 4 * word_count(ev),
        word_count(ev) >= 2,
{
    reveal(ev_bytes);
    reveal(word_count);
    lemma_body_len(ev);
    be::lemma_be32(first_id(ev));
}

/// An encoding vector fits its length fields: there are at most 255 ids and 255
/// words, the ids can be stored in the format, and the coefficients are elements
/// of the field.
pub open spec fn fits_wire(ev: EvModel) -> bool {
    &&& ev.wf()
    &&& 0 < ev.ids.len() <= 255
    &&& id_storage::storable(ev.ids, ev.format)
    &&& word_count(ev) <= 255
    &&& forall|i: int| 0 <= i < ev.coefs.len() ==> algebra::in_field(ev.field, #[trigger] ev.coefs[i])
}

/// The fixed part of an encoding vector is read back.
proof fn lemma_ev_fixed_part(ev: EvModel, tail: Seq<u8>)
    requires
        fits_wire(ev),
    ensures
        ({
            let buf = ev_bytes(ev) + tail;
            let len = ev_bytes(ev).len();
            &&& len == 4 * word_count(ev)
            &&& len == 8 + body_bytes(ev).len()
            &&& buf[0] == word_count(ev)
            &&& buf[1] == flag_byte(ev)
            &&& buf[2] == ev.ids.len()
            &&& buf[3] == ev.coefs.len()
            &&& be::u32_at(buf, 4) == ev.ids[0]
            &&& buf.subrange(8, len as int) == body_bytes(ev)
        }),
{
    reveal(ev_bytes);
    reveal(word_count);
    let bytes = ev_bytes(ev);
    let buf = bytes + tail;
    let body = body_bytes(ev);
    lemma_body_len(ev);
    let first = first_id(ev);
    be::lemma_be32(first);
    let head = seq![
        (word_count(ev) % 256) as u8,
        flag_byte(ev),
        (ev.ids.len() % 256) as u8,
        (ev.coefs.len() % 256) as u8,
    ];
    assert(buf =~= head + be::be32(first) + (body + tail));
    be::lemma_u32_at_append(head, first, body + tail);
    assert(buf.subrange(8, bytes.len() as int) =~= body);
}

/// The flag byte is read back.
proof fn lemma_flag_byte(ev: EvModel)
    ensures
        flag_byte(ev) / 16 == (if ev.field == Field::Gf2_8 { 1int } else { 0 }),
        format_of(flag_byte(ev) / 4 % 4) == ev.format,
        flag_byte(ev) / 2 % 2 == 1 <==> ev.coefs.len() > 0,
{
}

/// What follows the fixed part is read back.
proof fn lemma_ev_body(ev: EvModel, buf: Seq<u8>)
    requires
        fits_wire(ev),
        buf.len() >= 8 + body_bytes(ev).len(),
        8 + body_bytes(ev).len() == 4 * word_count(ev),
        buf[0] == word_count(ev),
        buf[1] == flag_byte(ev),
        buf[2] == ev.ids.len(),
        be::u32_at(buf, 4) == ev.ids[0],
        buf.subrange(8, 4 * word_count(ev) as int) == body_bytes(ev),
    ensures
        ev_body_from(buf, ev.coded_id, ev.field) == Ok::<(EvModel, nat), DelpError>(
            (ev, 4 * word_count(ev)),
        ),
{
    let body = body_bytes(ev);
    let len = 4 * word_count(ev);
    let ids = id_storage::stored(ev.ids, ev.format);
    lemma_body_len(ev);
    lemma_flag_byte(ev);
    assert forall|i: int| 8 <= i < len implies buf[i] == #[trigger] body[i - 8] by {
        assert(buf.subrange(8, len as int)[i - 8] == buf[i]);
    }
    let rest = body.subrange(ids.len() as int, body.len() as int);
    assert(body =~= ids + rest);
    id_storage::lemma_storage_round_trip(ev.ids, ev.format, rest);
    let off = 8 + pad32_len(ids.len());
    let n = if ev.coefs.len() > 0 { coef_len(ev.field, ev.ids.len()) } else { 0 };
    let end = off + pad32_len(n);
    assert(coef_bytes(ev).len() == pad32_len(n));
    let raw = buf.subrange(off as int, (off + n) as int);
    assert forall|i: int| 0 <= i < n implies #[trigger] raw[i] == coef_bytes(ev)[i] by {
        assert(buf[off + i] == body[off + i - 8]);
    }
    if ev.coefs.len() > 0 {
        match ev.field {
            Field::Gf2_8 => {
                assert(raw =~= ev.coefs);
            },
            Field::Gf2_4 => {
                assert(raw =~= packed_nibbles(ev.coefs));
                lemma_nibble_round_trip(ev.coefs);
            },
        }
    }
    if ev.generation != 0 {
        assert(end + 4 == len);
        assert(buf[end as int] == body[end - 8]);
    } else {
        assert(end == len);
    }
    let got = ev_body_from(buf, ev.coded_id, ev.field);
    assert(got is Ok);
    assert(got->Ok_0.0.coefs =~= ev.coefs);
    assert(got->Ok_0.0 =~= ev);
}

/// Parsing gives back what was serialised, whatever follows, and takes exactly
/// its bytes.
pub proof fn lemma_ev_round_trip(ev: EvModel, tail: Seq<u8>)
    requires
        fits_wire(ev),
    ensures
        ev_from(ev_bytes(ev) + tail, ev.coded_id) == Ok::<(EvModel, nat), DelpError>(
            (ev, ev_bytes(ev).len()),
        ),
        ev_bytes(ev).len() == 4 * word_count(ev),
{
    reveal(ev_from);
    lemma_ev_fixed_part(ev, tail);
    lemma_flag_byte(ev);
    lemma_ev_body(ev, ev_bytes(ev) + tail);
}

/// An encoding vector of at most 255 ascending ids whose gaps fit 16 bits fits the
/// wire in the chosen format.
pub proof fn lemma_fits_wire(ev: EvModel)
    requires
        ev.wf(),
        0 < ev.ids.len() <= 255,
        forall|i: int|
            0 < i < ev.ids.len() ==> ev.ids[i - 1] < #[trigger] ev.ids[i] && ev.ids[i] - ev.ids[i - 1]
                < 0x1_0000,
        ev.format == IdStorageFormat::chosen(ev.ids),
        forall|i: int|
            0 <= i < ev.coefs.len() ==> algebra::in_field(ev.field, #[trigger] ev.coefs[i]),
    ensures
        fits_wire(ev),
{
    reveal(word_count);
    id_storage::lemma_chosen_format(ev.ids);
    let n = id_storage::stored(ev.ids, ev.format).len();
    lemma_padded(id_storage::stored(ev.ids, ev.format));
    lemma_padded(ev.coefs);
    lemma_padded(packed_nibbles(ev.coefs));
    assert(coef_bytes(ev).len() <= 258);
    assert(generation_bytes(ev).len() <= 4);
}

} // verus!
