//! The byte buffers and the inline vectors that packets are made of.
//!
//! Symbol payloads are [`bytes::Bytes`].  The lists in an encoding vector are
//! held inline up to 64 entries, in a [`smallvec::SmallVec`].
use vstd::prelude::*;

use bytes::Bytes;
use smallvec::SmallVec;

verus! {

// ── Symbol payloads ──────────────────────────────────────────────────────

/// The reference-counted byte buffer of the `bytes` crate.
#[verifier::external_type_specification]
#[verifier::external_body]
pub struct ExBytes(bytes::Bytes);

/// The bytes that a buffer holds.
pub uninterp spec fn bytes_view(b: Bytes) -> Seq<u8>;

/// `Bytes::from` on a `Vec<u8>`: the buffer holds the bytes of the vector.
#[verifier::external_body]
pub(crate) fn bytes_from_vec(v: Vec<u8>) -> (b: Bytes)
    ensures
        bytes_view(b) == v@,
{
    Bytes::from(v)
}

/// `Bytes::copy_from_slice`: the buffer holds a copy of the slice.
#[verifier::external_body]
pub(crate) fn bytes_copy_from_slice(s: &[u8]) -> (b: Bytes)
    ensures
        bytes_view(b) == s@,
{
    Bytes::copy_from_slice(s)
}

/// `Bytes::clone`: the clone holds the same bytes.
#[verifier::external_body]
pub(crate) fn bytes_clone(b: &Bytes) -> (c: Bytes)
    ensures
        bytes_view(c) == bytes_view(*b),
{
    b.clone()
}

/// `Bytes::as_ref`: the bytes of the buffer as a slice.
#[verifier::external_body]
pub(crate) fn bytes_as_slice(b: &Bytes) -> (s: &[u8])
    ensures
        s@ == bytes_view(*b),
{
    b.as_ref()
}

// ── Source ids of an encoding vector ─────────────────────────────────────

/// A list of source symbol ids, inline up to 64 of them.
#[verifier::external_body]
#[derive(Debug)]
pub struct IdList(SmallVec<[u32; 64]>);

/// The ids in a list, in order.
pub uninterp spec fn id_list_view(l: IdList) -> Seq<u32>;

impl View for IdList {
    type V = Seq<u32>;

    open spec fn view(&self) -> Seq<u32> {
        id_list_view(*self)
    }
}

/// `SmallVec::new`: an empty list.
#[verifier::external_body]
fn id_list_new() -> (l: IdList)
    ensures
        id_list_view(l) == Seq::<u32>::empty(),
{
    IdList(SmallVec::new())
}

/// `SmallVec::push`: appends one id.
#[verifier::external_body]
fn id_list_push(l: &mut IdList, id: u32)
    ensures
        id_list_view(*final(l)) == id_list_view(*old(l)).push(id),
{
    l.0.push(id)
}

/// `SmallVec::as_slice`: the ids as a slice.
#[verifier::external_body]
fn id_list_as_slice(l: &IdList) -> (s: &[u32])
    ensures
        s@ == id_list_view(*l),
{
    l.0.as_slice()
}

impl IdList {
    /// An empty list.
    pub fn new() -> (l: Self)
        ensures
            l@ == Seq::<u32>::empty(),
    {
        id_list_new()
    }

    /// Appends one id.
    pub fn push(&mut self, id: u32)
        ensures
            final(self)@ == old(self)@.push(id),
    {
        id_list_push(self, id)
    }

    /// The ids as a slice.
    pub fn as_slice(&self) -> (s: &[u32])
        ensures
            s@ == self@,
    {
        id_list_as_slice(self)
    }

    /// A list with the ids of a slice.
    pub fn from_slice(ids: &[u32]) -> (l: Self)
        ensures
            l@ == ids@,
    {
        let mut l = Self::new();
        let mut i: usize = 0;
        while i < ids.len()
            invariant
                i <= ids@.len(),
                l@ == ids@.take(i as int),
            decreases ids@.len() - i,
        {
            l.push(ids[i]);
            i += 1;
            assert(ids@.take(i as int) =~= ids@.take(i - 1).push(ids@[i - 1]));
        }
        assert(ids@.take(ids@.len() as int) =~= ids@);
        l
    }

    /// The number of ids.
    pub fn len(&self) -> (n: usize)
        ensures
            n == self@.len(),
    {
        self.as_slice().len()
    }

    /// Whether the list holds no id.
    pub fn is_empty(&self) -> (b: bool)
        ensures
            b == (self@.len() == 0),
    {
        self.as_slice().len() == 0
    }
}

impl Clone for IdList {
    fn clone(&self) -> (l: Self)
        ensures
            l@ == self@,
    {
        Self::from_slice(self.as_slice())
    }
}

// ── Coefficients of an encoding vector ───────────────────────────────────

/// A list of coefficients, inline up to 64 of them.
#[verifier::external_body]
#[derive(Debug)]
pub struct CoefList(SmallVec<[u8; 64]>);

/// The coefficients in a list, in order.
pub uninterp spec fn coef_list_view(l: CoefList) -> Seq<u8>;

impl View for CoefList {
    type V = Seq<u8>;

    open spec fn view(&self) -> Seq<u8> {
        coef_list_view(*self)
    }
}

/// `SmallVec::new`: an empty list.
#[verifier::external_body]
fn coef_list_new() -> (l: CoefList)
    ensures
        coef_list_view(l) == Seq::<u8>::empty(),
{
    CoefList(SmallVec::new())
}

/// `SmallVec::push`: appends one coefficient.
#[verifier::external_body]
fn coef_list_push(l: &mut CoefList, c: u8)
    ensures
        coef_list_view(*final(l)) == coef_list_view(*old(l)).push(c),
{
    l.0.push(c)
}

/// `SmallVec::as_slice`: the coefficients as a slice.
#[verifier::external_body]
fn coef_list_as_slice(l: &CoefList) -> (s: &[u8])
    ensures
        s@ == coef_list_view(*l),
{
    l.0.as_slice()
}

impl CoefList {
    /// An empty list.
    pub fn new() -> (l: Self)
        ensures
            l@ == Seq::<u8>::empty(),
    {
        coef_list_new()
    }

    /// Appends one coefficient.
    pub fn push(&mut self, c: u8)
        ensures
            final(self)@ == old(self)@.push(c),
    {
        coef_list_push(self, c)
    }

    /// The coefficients as a slice.
    pub fn as_slice(&self) -> (s: &[u8])
        ensures
            s@ == self@,
    {
        coef_list_as_slice(self)
    }

    /// A list with the coefficients of a slice.
    pub fn from_slice(coefs: &[u8]) -> (l: Self)
        ensures
            l@ == coefs@,
    {
        let mut l = Self::new();
        let mut i: usize = 0;
        while i < coefs.len()
            invariant
                i <= coefs@.len(),
                l@ == coefs@.take(i as int),
            decreases coefs@.len() - i,
        {
            l.push(coefs[i]);
            i += 1;
            assert(coefs@.take(i as int) =~= coefs@.take(i - 1).push(coefs@[i - 1]));
        }
        assert(coefs@.take(coefs@.len() as int) =~= coefs@);
        l
    }

    /// The number of coefficients.
    pub fn len(&self) -> (n: usize)
        ensures
            n == self@.len(),
    {
        self.as_slice().len()
    }

    /// Whether the list holds no coefficient.
    pub fn is_empty(&self) -> (b: bool)
        ensures
            b == (self@.len() == 0),
    {
        self.as_slice().len() == 0
    }
}

impl Clone for CoefList {
    fn clone(&self) -> (l: Self)
        ensures
            l@ == self@,
    {
        Self::from_slice(self.as_slice())
    }
}

} // verus!
