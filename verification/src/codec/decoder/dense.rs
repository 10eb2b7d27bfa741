//! Dense coefficient rows.
use std::collections::BTreeMap;
use vstd::prelude::*;

use crate::codec::decoder::linear;
use crate::codec::decoder::linear::Equation;
use crate::config::Field;
use crate::error::{DelpError, Result};
use crate::gf::algebra;
use crate::gf::kernel::{gf_inv, gf_mul, mul_acc, mul_scale};
use crate::ordered;
use crate::ordered::sorted_keys;

verus! {

broadcast use {
    vstd::std_specs::btree::group_btree_axioms,
    vstd::laws_cmp::group_laws_cmp,
};

/// The coefficients of an equation over a range of source ids.
///
/// Ids outside the range have the coefficient zero.
#[derive(Debug)]
pub(crate) struct DenseCoefs {
    /// The first id of the range.
    pub(crate) base_id: u32,
    /// `coefs[i]` is the coefficient of `base_id + i`.
    pub(crate) coefs: Vec<u8>,
    /// The coefficient of the last id, which stands outside of the range.
    pub(crate) last: u8,
}

impl DenseCoefs {
    /// The range ends before the last id, so that its length fits every machine.
    pub(crate) open spec fn wf(self) -> bool {
        self.base_id + self.coefs@.len() <= u32::MAX
    }

    /// The coefficient of `id`.
    pub(crate) open spec fn at(self, id: u32) -> u8 {
        if id == u32::MAX {
            self.last
        } else if self.base_id <= id < self.base_id + self.coefs@.len() {
            self.coefs@[id - self.base_id]
        } else {
            0
        }
    }

    /// All coefficients are elements of `f`.
    pub(crate) open spec fn in_field(self, f: Field) -> bool {
        forall|id: u32| algebra::in_field(f, #[trigger] self.at(id))
    }

    /// A row of `len` zeros from `base_id`.
    fn new(base_id: u32, len: usize) -> (r: Self)
        requires
            base_id + len <= u32::MAX,
        ensures
            r.wf(),
            r.base_id == base_id,
            r.coefs@.len() == len,
            forall|id: u32| #[trigger] r.at(id) == 0,
    {
        Self { base_id, coefs: vec![0u8; len], last: 0 }
    }

    /// The row with the coefficients of a map.
    pub(crate) fn from_map(map: &BTreeMap<u32, u8>) -> (r: Self)
        ensures
            r.wf(),
            forall|id: u32|
                #[trigger] r.at(id) == (if map@.contains_key(id) { map@[id] } else { 0 }),
    {
        let ks = sorted_keys(map);
        let mut n: usize = ks.len();
        let mut last: u8 = 0;
        if n > 0 && ks[n - 1] == u32::MAX {
            n = n - 1;
            assert(ks@.contains(u32::MAX)) by {
                assert(ks@[n as int] == u32::MAX);
            }
            last = match map.get(&u32::MAX) {
                Some(v) => *v,
                None => 0,
            };
        }
        proof {
            assert forall|j: int| 0 <= j < n implies #[trigger] ks@[j] < u32::MAX by {
                if n < ks@.len() {
                    assert(ks@[j] < ks@[n as int]);
                } else if j < n - 1 {
                    assert(ks@[j] < ks@[n - 1]);
                }
            }
            assert(last == (if map@.contains_key(u32::MAX) { map@[u32::MAX] } else { 0 })) by {
                if map@.contains_key(u32::MAX) {
                    assert(ks@.contains(u32::MAX));
                    let j = ks@.index_of(u32::MAX);
                    if j < ks@.len() - 1 {
                        assert(ks@[j] < ks@[ks@.len() - 1]);
                    }
                }
            }
        }
        if n == 0 {
            let r = Self { base_id: 0, coefs: Vec::new(), last };
            proof {
                assert forall|id: u32| #[trigger] r.at(id) == (if map@.contains_key(id) {
                    map@[id]
                } else {
                    0
                }) by {
                    if id < u32::MAX && map@.contains_key(id) {
                        assert(ks@.contains(id));
                    }
                }
            }
            return r;
        }
        let min: u32 = ks[0];
        let max: u32 = ks[n - 1];
        assert(min <= max) by {
            if n > 1 {
                assert(ks@[0] < ks@[n - 1]);
            }
        }
        let len: usize = (max - min) as usize + 1;
        let mut c = Self::new(min, len);
        let ghost zeros = c;
        c.last = last;
        proof {
            assert forall|id: u32| id < u32::MAX implies #[trigger] c.at(id) == 0 by {
                assert(zeros.at(id) == 0);
            }
        }
        let mut i: usize = 0;
        while i < n
            invariant
                i <= n <= ks@.len(),
                n > 0,
                ordered::lists_keys(ks@, map@),
                min == ks@[0],
                max == ks@[n - 1],
                max < u32::MAX,
                c.base_id == min,
                c.coefs@.len() == max - min + 1,
                c.wf(),
                c.last == last,
                forall|j: int| 0 <= j < n ==> #[trigger] ks@[j] < u32::MAX,
                forall|j: int| 0 <= j < i ==> c.at(#[trigger] ks@[j]) == map@[ks@[j]],
                forall|id: u32|
                    id < u32::MAX && (forall|j: int| 0 <= j < i ==> ks@[j] != id)
                        ==> #[trigger] c.at(id) == 0,
            decreases n - i,
        {
            let id: u32 = ks[i];
            assert(ks@.contains(id));
            assert(min <= id <= max) by {
                if i > 0 {
                    assert(ks@[0] < ks@[i as int]);
                }
                if i < n - 1 {
                    assert(ks@[i as int] < ks@[n - 1]);
                }
            }
            let coef: u8 = match map.get(&id) {
                Some(v) => *v,
                None => 0,
            };
            let ghost before = c;
            c.coefs.set((id - min) as usize, coef);
            proof {
                assert forall|j: int| 0 <= j < i + 1 implies c.at(#[trigger] ks@[j])
                    == map@[ks@[j]] by {
                    if j < i {
                        assert(ks@[j] < ks@[i as int]);
                        assert(before.at(ks@[j]) == map@[ks@[j]]);
                    }
                }
                assert forall|x: u32|
                    x < u32::MAX && (forall|j: int|
                        0 <= j < i + 1 ==> ks@[j] != x) implies #[trigger] c.at(x) == 0 by {
                    assert(ks@[i as int] != x);
                    assert(before.at(x) == 0);
                }
            }
            i += 1;
        }
        proof {
            assert forall|id: u32| #[trigger] c.at(id) == (if map@.contains_key(id) {
                map@[id]
            } else {
                0
            }) by {
                if id < u32::MAX {
                    if map@.contains_key(id) {
                        assert(ks@.contains(id));
                        let j = ks@.index_of(id);
                        assert(c.at(ks@[j]) == map@[ks@[j]]);
                    } else {
                        assert(!ks@.contains(id));
                        assert forall|j: int| 0 <= j < n implies ks@[j] != id by {
                            assert(ks@.contains(ks@[j]));
                        }
                    }
                }
            }
        }
        c
    }

    /// The coefficient of `id`.
    pub(crate) fn get(&self, id: u32) -> (r: u8)
        ensures
            r == self.at(id),
    {
        if id == u32::MAX {
            return self.last;
        }
        if id < self.base_id {
            return 0;
        }
        let idx: usize = (id - self.base_id) as usize;
        if idx < self.coefs.len() {
            self.coefs[idx]
        } else {
            0
        }
    }

    /// Extends the range so that it holds `id`.
    fn ensure_covers(&mut self, id: u32)
        requires
            old(self).wf(),
            id < u32::MAX,
        ensures
            final(self).wf(),
            forall|x: u32| #[trigger] final(self).at(x) == old(self).at(x),
            final(self).base_id <= id < final(self).base_id + final(self).coefs@.len(),
            old(self).coefs@.len() > 0 ==> {
                &&& final(self).base_id <= old(self).base_id
                &&& final(self).base_id + final(self).coefs@.len() >= old(self).base_id + old(
                    self).coefs@.len()
            },
    {
        if self.coefs.len() == 0 {
            self.base_id = id;
            self.coefs.push(0);
            return ;
        }
        if id < self.base_id {
            let prepend: usize = (self.base_id - id) as usize;
            let mut grown: Vec<u8> = vec![0u8; prepend];
            grown.extend_from_slice(self.coefs.as_slice());
            self.coefs = grown;
            self.base_id = id;
        } else {
            let needed: usize = (id - self.base_id) as usize + 1;
            if needed > self.coefs.len() {
                self.coefs.resize(needed, 0);
            }
        }
    }

    /// Adds `factor * other`.
    pub(crate) fn subtract_scaled(&mut self, other: &DenseCoefs, factor: u8, field: Field)
        requires
            old(self).wf(),
            other.wf(),
            other.in_field(field),
            algebra::in_field(field, factor),
        ensures
            final(self).wf(),
            forall|id: u32|
                #[trigger] final(self).at(id) == old(self).at(id) ^ algebra::fmul(
                    field,
                    factor,
                    other.at(id),
                ),
    {
        proof {
            assert forall|id: u32| #![trigger other.at(id)]
                algebra::fmul(field, factor, 0) == 0 && algebra::fmul(field, 0, other.at(id)) == 0
                    && self.at(id) ^ 0 == self.at(id) by {
                assert(algebra::in_field(field, other.at(id)));
                algebra::lemma_fmul_units(field, factor);
                algebra::lemma_fmul_units(field, other.at(id));
                algebra::lemma_xor(self.at(id), 0, 0, 0);
            }
        }
        if factor == 0 {
            return ;
        }
        proof {
            assert(algebra::in_field(field, other.at(u32::MAX)));
            algebra::lemma_reduce(field, factor);
            algebra::lemma_reduce(field, other.last);
        }
        self.last = self.last ^ gf_mul(factor, other.last, field);
        if other.coefs.len() == 0 {
            return ;
        }
        let ghost start = *self;
        let len: usize = other.coefs.len();
        let last: u32 = (other.base_id as usize + (len - 1)) as u32;
        self.ensure_covers(other.base_id);
        self.ensure_covers(last);
        let ghost mid = *self;
        let off: usize = (other.base_id - self.base_id) as usize;
        let (_head, tail) = self.coefs.as_mut_slice().split_at_mut(off);
        let (dst, _rest) = tail.split_at_mut(len);
        mul_acc(field, dst, other.coefs.as_slice(), factor);
        proof {
            assert forall|id: u32|
                #[trigger] self.at(id) == old(self).at(id) ^ algebra::fmul(
                    field,
                    factor,
                    other.at(id),
                ) by {
                assert(mid.at(id) == start.at(id));
                assert(algebra::in_field(field, other.at(id)));
                if id < u32::MAX && other.base_id <= id < other.base_id + len {
                    linear::lemma_scale_element(field, factor, other.at(id));
                }
            }
        }
    }

    /// Multiplies every coefficient by `factor`.
    pub(crate) fn scale(&mut self, factor: u8, field: Field)
        requires
            old(self).wf(),
            old(self).in_field(field),
            algebra::in_field(field, factor),
        ensures
            final(self).wf(),
            forall|id: u32|
                #[trigger] final(self).at(id) == algebra::fmul(field, factor, old(self).at(id)),
    {
        proof {
            assert(algebra::in_field(field, self.at(u32::MAX)));
            algebra::lemma_reduce(field, factor);
            algebra::lemma_reduce(field, self.last);
        }
        self.last = gf_mul(factor, self.last, field);
        mul_scale(field, self.coefs.as_mut_slice(), factor);
        proof {
            assert forall|id: u32|
                #[trigger] self.at(id) == algebra::fmul(field, factor, old(self).at(id)) by {
                assert(algebra::in_field(field, old(self).at(id)));
                linear::lemma_scale_element(field, factor, old(self).at(id));
                algebra::lemma_fmul_units(field, factor);
            }
        }
    }

    /// The one id with a non-zero coefficient, if there is exactly one.
    pub(crate) fn is_solved(&self) -> (r: Option<u32>)
        requires
            self.wf(),
        ensures
            match r {
                Some(p) => self.at(p) != 0 && forall|id: u32|
                    id != p ==> #[trigger] self.at(id) == 0,
                None => forall|p: u32|
                    #[trigger] self.at(p) != 0 ==> exists|id: u32|
                        id != p && #[trigger] self.at(id) != 0,
            },
    {
        let mut found: Option<u32> = None;
        let mut i: usize = 0;
        while i < self.coefs.len()
            invariant
                self.wf(),
                i <= self.coefs@.len(),
                match found {
                    Some(p) => self.base_id <= p < self.base_id + i && self.at(p) != 0 && forall|
                        id: u32,
                    |
                        id != p && id < self.base_id + i ==> #[trigger] self.at(id) == 0,
                    None => forall|id: u32| id < self.base_id + i ==> #[trigger] self.at(id) == 0,
                },
            decreases self.coefs@.len() - i,
        {
            let c: u8 = self.coefs[i];
            let id: u32 = (self.base_id as usize + i) as u32;
            assert(c == self.at(id));
            if c != 0 {
                if let Some(p) = found {
                    proof {
                        assert forall|q: u32| #[trigger] self.at(q) != 0 implies exists|x: u32|
                            x != q && #[trigger] self.at(x) != 0 by {
                            if q == p {
                                assert(self.at(id) != 0);
                            } else {
                                assert(self.at(p) != 0);
                            }
                        }
                    }
                    return None;
                }
                found = Some(id);
            }
            i += 1;
        }
        let ghost end = self.base_id + self.coefs@.len();
        proof {
            assert forall|id: u32| end <= id < u32::MAX implies #[trigger] self.at(id) == 0 by {}
        }
        if self.last != 0 {
            assert(self.at(u32::MAX) != 0);
            if let Some(p) = found {
                proof {
                    assert forall|q: u32| #[trigger] self.at(q) != 0 implies exists|x: u32|
                        x != q && #[trigger] self.at(x) != 0 by {
                        if q == p {
                            assert(self.at(u32::MAX) != 0);
                        } else {
                            assert(self.at(p) != 0);
                        }
                    }
                }
                return None;
            }
            found = Some(u32::MAX);
        }
        found
    }

    /// The smallest id with a non-zero coefficient.
    pub(crate) fn pivot_id(&self) -> (r: Option<u32>)
        requires
            self.wf(),
        ensures
            match r {
                Some(p) => self.at(p) != 0 && forall|id: u32| id < p ==> #[trigger] self.at(id) == 0,
                None => forall|id: u32| #[trigger] self.at(id) == 0,
            },
    {
        let mut i: usize = 0;
        while i < self.coefs.len()
            invariant
                self.wf(),
                i <= self.coefs@.len(),
                forall|id: u32| id < self.base_id + i ==> #[trigger] self.at(id) == 0,
            decreases self.coefs@.len() - i,
        {
            let c: u8 = self.coefs[i];
            let id: u32 = (self.base_id as usize + i) as u32;
            assert(c == self.at(id));
            if c != 0 {
                return Some(id);
            }
            i += 1;
        }
        if self.last != 0 {
            assert(self.at(u32::MAX) != 0);
            return Some(u32::MAX);
        }
        None
    }

    /// Sets the coefficient of `id` to zero.
    pub(crate) fn remove(&mut self, id: u32)
        requires
            old(self).wf(),
        ensures
            final(self).wf(),
            forall|x: u32|
                #[trigger] final(self).at(x) == (if x == id { 0 } else { old(self).at(x) }),
    {
        if id == u32::MAX {
            self.last = 0;
            return ;
        }
        if id < self.base_id {
            return ;
        }
        let idx: usize = (id - self.base_id) as usize;
        if idx < self.coefs.len() {
            self.coefs.set(idx, 0);
        }
    }

    /// Whether no coefficient is left.
    pub(crate) fn is_zero(&self) -> (r: bool)
        requires
            self.wf(),
        ensures
            r == (forall|id: u32| #[trigger] self.at(id) == 0),
    {
        match self.pivot_id() {
            Some(_) => false,
            None => true,
        }
    }
}

/// One equation of the decoding matrix.
#[derive(Debug)]
pub(crate) struct MatrixRow {
    pub(crate) coefs: DenseCoefs,
    pub(crate) payload: Vec<u8>,
}

impl MatrixRow {
    /// The row as an equation.
    pub(crate) open spec fn view(&self) -> Equation {
        Equation { coef: |id: u32| self.coefs.at(id), payload: self.payload@ }
    }

    /// The row is well-formed as an equation of payloads of `size` bytes over `f`.
    pub(crate) open spec fn wf(self, f: Field, size: nat) -> bool {
        self.coefs.wf() && self@.wf(f, size)
    }

    proof fn lemma_coefs_in_field(self, f: Field, size: nat)
        requires
            self.wf(f, size),
        ensures
            self.coefs.in_field(f),
    {
        assert forall|id: u32| algebra::in_field(f, #[trigger] self.coefs.at(id)) by {
            assert(algebra::in_field(f, self@.at(id)));
        }
    }

    /// Adds `factor * other`.
    pub(crate) fn subtract_scaled(
        &mut self,
        other: &MatrixRow,
        factor: u8,
        field: Field,
        Ghost(size): Ghost<nat>,
    )
        requires
            old(self).wf(field, size),
            other.wf(field, size),
            algebra::in_field(field, factor),
        ensures
            final(self).wf(field, size),
            final(self)@ == old(self)@.plus_scaled(field, factor, other@),
    {
        proof {
            other.lemma_coefs_in_field(field, size);
        }
        self.coefs.subtract_scaled(&other.coefs, factor, field);
        mul_acc(field, self.payload.as_mut_slice(), other.payload.as_slice(), factor);
        proof {
            let want = old(self)@.plus_scaled(field, factor, other@);
            assert forall|id: u32| #[trigger] (self@.coef)(id) == (want.coef)(id) by {
                assert(self.coefs.at(id) == old(self).coefs.at(id) ^ algebra::fmul(
                    field,
                    factor,
                    other.coefs.at(id),
                ));
            }
            assert(self@.coef =~= want.coef);
            assert(self@.payload =~= want.payload);
            linear::lemma_plus_scaled_wf(field, old(self)@, factor, other@, size);
        }
    }

    /// Puts in the value `data` of the symbol `id`.
    pub(crate) fn substitute(
        &mut self,
        id: u32,
        data: &[u8],
        field: Field,
        Ghost(size): Ghost<nat>,
    )
        requires
            old(self).wf(field, size),
            data@.len() == size,
        ensures
            final(self).wf(field, size),
            final(self)@ == old(self)@.substituted(field, id, data@),
    {
        let c: u8 = self.coefs.get(id);
        assert(c == self@.at(id));
        if c == 0 {
            proof {
                linear::lemma_substituted_absent(field, self@, id, data@);
            }
            return ;
        }
        self.coefs.remove(id);
        mul_acc(field, self.payload.as_mut_slice(), data, c);
        proof {
            let want = old(self)@.substituted(field, id, data@);
            assert(self@.coef =~= want.coef);
            assert(self@.payload =~= want.payload);
            linear::lemma_substituted_wf(field, old(self)@, id, data@, size);
        }
    }

    /// Makes the coefficient of the pivot one.
    pub(crate) fn normalize(&mut self, field: Field, Ghost(size): Ghost<nat>) -> (r: Result<()>)
        requires
            old(self).wf(field, size),
        ensures
            final(self).wf(field, size),
            match r {
                Ok(_) => !old(self)@.is_zero() && final(self)@ == old(self)@.normalized(field),
                Err(e) => old(self)@.is_zero() && e == (DelpError::MalformedEncodingVector {
                    reason: "zero pivot",
                }) && final(self)@ == old(self)@,
            },
    {
        let pivot_c: u8 = match self.coefs.pivot_id() {
            Some(p) => {
                proof {
                    assert forall|id: u32| id < p implies #[trigger] self@.at(id) == 0 by {
                        assert(self.coefs.at(id) == 0);
                    }
                    assert(self@.at(p) != 0);
                    assert(self@.is_pivot(p));
                    linear::lemma_pivot_unique(self@, p, p);
                    assert(algebra::in_field(field, self@.at(p)));
                }
                self.coefs.get(p)
            },
            None => {
                proof {
                    assert forall|id: u32| #[trigger] self@.at(id) == 0 by {
                        assert(self.coefs.at(id) == 0);
                    }
                }
                return Err(DelpError::MalformedEncodingVector { reason: "zero pivot" });
            },
        };
        proof {
            self.lemma_coefs_in_field(field, size);
        }
        if pivot_c == 1 {
            proof {
                linear::lemma_normalized_one(field, self@, size);
            }
            return Ok(());
        }
        let inv: u8 = gf_inv(pivot_c, field)?;
        self.coefs.scale(inv, field);
        mul_scale(field, self.payload.as_mut_slice(), inv);
        proof {
            let want = old(self)@.normalized(field);
            assert forall|id: u32| #[trigger] (self@.coef)(id) == (want.coef)(id) by {
                assert(self.coefs.at(id) == algebra::fmul(field, inv, old(self).coefs.at(id)));
            }
            assert(self@.coef =~= want.coef);
            assert(self@.payload =~= want.payload);
            linear::lemma_scaled_holds(field, old(self)@, inv, |id: u32| Seq::empty(), size);
        }
        Ok(())
    }
}

} // verus!
