//! Files as symbols.
//!
//! The last symbol of a file is filled up with zeros.  The length of the file tells
//! how many bytes to keep.
use std::collections::BTreeMap;
use vstd::prelude::*;

use bytes::Bytes;

use crate::buffers;
use crate::buffers::{bytes_as_slice, bytes_from_vec};
use crate::codec::decoder::matrix;

verus! {

broadcast use {
    vstd::std_specs::btree::group_btree_axioms,
    vstd::laws_cmp::group_laws_cmp,
};

/// The number of symbols of a file.
pub open spec fn count_of(len: nat, size: nat) -> nat {
    if len % size == 0 {
        len / size
    } else {
        len / size + 1
    }
}

/// Symbol `i` of a file.
pub open spec fn chunk_of(data: Seq<u8>, size: nat, i: nat) -> Seq<u8> {
    Seq::new(
        size,
        |k: int|
            if i * size + k < data.len() {
                data[i * size + k]
            } else {
                0
            },
    )
}

/// The first `n` symbols, one after the other.
pub open spec fn joined(m: Map<u32, Seq<u8>>, n: nat) -> Seq<u8>
    decreases n,
{
    if n == 0 {
        Seq::empty()
    } else {
        joined(m, (n - 1) as nat) + m[(n - 1) as u32]
    }
}

/// At most the first `len` bytes.
pub open spec fn cut(s: Seq<u8>, len: nat) -> Seq<u8> {
    if s.len() <= len {
        s
    } else {
        s.take(len as int)
    }
}

/// The number of symbols of a file of `len` bytes.
pub fn symbol_count(len: usize, size: usize) -> (r: usize)
    requires
        size > 0,
    ensures
        r == count_of(len as nat, size as nat),
{
    if len % size == 0 {
        len / size
    } else {
        proof {
            lemma_count(len as nat, size as nat);
            vstd::arithmetic::div_mod::lemma_fundamental_div_mod(len as int, size as int);
            assert(len / size < len) by (nonlinear_arith)
                requires
                    len == size * (len / size) + len % size,
                    len % size > 0,
                    size > 0,
            ;
        }
        len / size + 1
    }
}

/// All bytes of a file are in its symbols, and no symbol lies behind its end.
pub proof fn lemma_count(len: nat, size: nat)
    requires
        size > 0,
    ensures
        len <= count_of(len, size) * size < len + size,
{
    vstd::arithmetic::div_mod::lemma_fundamental_div_mod(len as int, size as int);
    let q = len / size;
    assert(q * size == size * q && (q + 1) * size == size * q + size) by (nonlinear_arith);
}

/// Symbol `i` of a file.
pub fn chunk(data: &[u8], size: usize, i: usize) -> (r: Bytes)
    requires
        size > 0,
        i < count_of(data@.len(), size as nat),
    ensures
        buffers::bytes_view(r) == chunk_of(data@, size as nat, i as nat),
{
    let ghost n = count_of(data@.len(), size as nat);
    proof {
        lemma_count(data@.len(), size as nat);
        assert((i + 1) * size <= n * size && (i + 1) * size == i * size + size) by (nonlinear_arith)
            requires
                i + 1 <= n,
        ;
    }
    let len: usize = data.len();
    assert(0 <= i * size < len) by {
        assert(0 <= i * size) by (nonlinear_arith);
    }
    let start: usize = i * size;
    let mut out: Vec<u8> = Vec::new();
    let mut k: usize = 0;
    while k < size
        invariant
            k <= size,
            start == i * size,
            len == data@.len(),
            start < len,
            out@.len() == k,
            forall|j: int|
                0 <= j < k ==> #[trigger] out@[j] == chunk_of(data@, size as nat, i as nat)[j],
        decreases size - k,
    {
        let left: usize = len - start;
        if k < left {
            out.push(data[start + k]);
        } else {
            out.push(0);
        }
        k += 1;
    }
    assert(out@ =~= chunk_of(data@, size as nat, i as nat));
    bytes_from_vec(out)
}

/// Puts a file together from its symbols; fails with the first one that is missing.
pub fn stitch(symbols: &BTreeMap<u32, Bytes>, n_symbols: u32, file_size: u64) -> (r:
    core::result::Result<Vec<u8>, u32>)
    ensures
        match r {
            Ok(data) => {
                &&& forall|id: u32| id < n_symbols ==> #[trigger] symbols@.contains_key(id)
                &&& data@ == cut(
                    joined(matrix::values_of(symbols@), n_symbols as nat),
                    file_size as nat,
                )
            },
            Err(id) => {
                &&& id < n_symbols
                &&& !symbols@.contains_key(id)
                &&& forall|j: u32| j < id ==> #[trigger] symbols@.contains_key(j)
            },
        },
{
    let ghost m = matrix::values_of(symbols@);
    let mut out: Vec<u8> = Vec::new();
    let mut id: u32 = 0;
    while id < n_symbols
        invariant
            id <= n_symbols,
            m == matrix::values_of(symbols@),
            forall|j: u32| j < id ==> #[trigger] symbols@.contains_key(j),
            out@ == joined(m, id as nat),
        decreases n_symbols - id,
    {
        match symbols.get(&id) {
            Some(data) => {
                let ghost before = out@;
                let part: &[u8] = bytes_as_slice(data);
                let mut k: usize = 0;
                assert(out@ =~= before + part@.take(0));
                while k < part.len()
                    invariant
                        k <= part@.len(),
                        out@ == before + part@.take(k as int),
                    decreases part@.len() - k,
                {
                    out.push(part[k]);
                    k += 1;
                    assert(part@.take(k as int) =~= part@.take(k - 1).push(part@[k - 1]));
                    assert(out@ =~= before + part@.take(k as int));
                }
                assert(part@.take(part@.len() as int) =~= part@);
                assert(m[id] == part@);
                assert((id as nat + 1 - 1) as u32 == id);
            },
            None => {
                return Err(id);
            },
        }
        id += 1;
    }
    if (out.len() as u64) > file_size {
        out.truncate(file_size as usize);
    }
    assert(out@ =~= cut(joined(m, n_symbols as nat), file_size as nat));
    Ok(out)
}

/// The symbols of a file, one after the other, are the file and zeros.
proof fn lemma_joined(data: Seq<u8>, size: nat, m: Map<u32, Seq<u8>>, n: nat)
    requires
        size > 0,
        n <= count_of(data.len(), size),
        n <= u32::MAX,
        forall|i: u32| i < n ==> #[trigger] m[i] == chunk_of(data, size, i as nat),
    ensures
        joined(m, n).len() == n * size,
        forall|k: int|
            0 <= k < n * size ==> #[trigger] joined(m, n)[k] == if k < data.len() {
                data[k]
            } else {
                0
            },
    decreases n,
{
    if n > 0 {
        let p = (n - 1) as nat;
        lemma_joined(data, size, m, p);
        assert(n * size == p * size + size) by (nonlinear_arith)
            requires
                n == p + 1,
        ;
        assert(m[p as u32] == chunk_of(data, size, p));
    }
}

/// A file that is taken apart and put together again is the same file.
pub proof fn lemma_file_round_trip(data: Seq<u8>, size: nat, m: Map<u32, Seq<u8>>)
    requires
        size > 0,
        count_of(data.len(), size) <= u32::MAX,
        forall|i: u32|
            i < count_of(data.len(), size) ==> #[trigger] m[i] == chunk_of(data, size, i as nat),
    ensures
        cut(joined(m, count_of(data.len(), size)), data.len()) == data,
{
    let n = count_of(data.len(), size);
    lemma_count(data.len(), size);
    lemma_joined(data, size, m, n);
    assert(cut(joined(m, n), data.len()) =~= data);
}

} // verus!
