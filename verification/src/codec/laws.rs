//! What holds of an encoder and a decoder together.
//!
//! The symbols of a session are a family `s`: the symbol with the id `id` is
//! `s(id)`.  An encoder whose window holds these symbols sends nothing but true
//! equations about them.  A decoder that gets enough of these recovers the
//! symbols.
use vstd::prelude::*;

use crate::codec::decoder::buffer;
use crate::codec::decoder::linear;
use crate::codec::decoder::linear::Symbols;
use crate::codec::decoder::matrix;
use crate::codec::decoder::model as decoder_model;
use crate::codec::decoder::model::{DecoderModel, EventModel};
use crate::codec::decoder::system;
use crate::codec::encoder::model;
use crate::codec::encoder::model::EncoderModel;
use crate::codec::encoder::window::SymbolModel;
use crate::config::{Field, MatrixStrategy};
use crate::gf::algebra;
use crate::policy::acks;
use crate::policy::acks::Acks;
use crate::policy::FeedbackPolicy;
use crate::wire::be;
use crate::wire::coded;
use crate::wire::ev;
use crate::wire::ev::coef_gen;
use crate::wire::ev::id_storage;
use crate::wire::ev::EvModel;
use crate::wire::feedback;
use crate::wire::source;

verus! {

/// The window holds nothing but symbols of `s`.
pub open spec fn window_true(m: EncoderModel, s: Symbols) -> bool {
    forall|i: int| 0 <= i < m.window.len() ==> s((#[trigger] m.window[i]).0) == m.window[i].1
}

/// `cover` lists different ids of the window.
pub open spec fn covers(m: EncoderModel, cover: Seq<u32>) -> bool {
    &&& cover.no_duplicates()
    &&& forall|i: int| 0 <= i < cover.len() ==> m.ids().contains(#[trigger] cover[i])
}

/// Byte `k` of the combination of the first `n` symbols of an encoding vector.
pub open spec fn listed_sum(f: Field, v: EvModel, s: Symbols, k: int, n: nat) -> u8
    decreases n,
{
    if n == 0 {
        0
    } else {
        listed_sum(f, v, s, k, (n - 1) as nat) ^ algebra::scale_byte(
            f,
            algebra::reduce(f, v.coef(n - 1)),
            s(v.ids[n - 1])[k],
        )
    }
}

pub proof fn lemma_ev_coefs_absent(f: Field, v: EvModel, n: nat, id: u32)
    requires
        n <= v.ids.len(),
        forall|i: int| 0 <= i < n ==> #[trigger] v.ids[i] != id,
    ensures
        matrix::ev_coefs(f, v, n)(id) == 0,
    decreases n,
{
    if n > 0 {
        lemma_ev_coefs_absent(f, v, (n - 1) as nat, id);
        assert(v.ids[n - 1] != id);
    }
}

/// The sum of an equation over all ids is the sum over the ids of its encoding
/// vector, where these differ.
pub proof fn lemma_listed_sum(f: Field, v: EvModel, s: Symbols, k: int, n: nat)
    requires
        v.ids.no_duplicates(),
        n <= v.ids.len(),
    ensures
        linear::sum_upto(f, matrix::ev_coefs(f, v, n), s, k, linear::id_count()) == listed_sum(
            f,
            v,
            s,
            k,
            n,
        ),
    decreases n,
{
    let total = linear::id_count();
    if n == 0 {
        linear::lemma_sum_zero(f, matrix::ev_coefs(f, v, 0), s, k, total);
    } else {
        let m = (n - 1) as nat;
        let g0 = matrix::ev_coefs(f, v, m);
        let g1 = matrix::ev_coefs(f, v, n);
        let p = v.ids[n - 1];
        let c = algebra::reduce(f, v.coef(n - 1));
        lemma_listed_sum(f, v, s, k, m);
        algebra::lemma_reduce(f, v.coef(n - 1));
        algebra::lemma_scale_byte(f, c, c, s(p)[k], 0);
        let before = linear::sum_upto(f, g0, s, k, total);
        if c == 0 {
            algebra::lemma_xor(before, 0, 0, 0);
        } else {
            lemma_ev_coefs_absent(f, v, m, p);
            let eq = linear::Equation { coef: g1, payload: Seq::empty() };
            assert forall|id: u32| algebra::in_field(f, #[trigger] eq.at(id)) by {
                matrix::lemma_ev_coefs(f, v, n, id);
            }
            linear::lemma_sum_substituted(f, eq, p, Seq::empty(), s, k, total);
            let sub = eq.substituted(f, p, Seq::empty());
            assert forall|id: u32| #[trigger] (sub.coef)(id) == g0(id) by {}
            assert(sub.coef =~= g0);
            let after = linear::sum_upto(f, g1, s, k, total);
            let x = algebra::scale_byte(f, c, s(p)[k]);
            algebra::lemma_xor(after, x, 0, 0);
            assert((after ^ x) ^ x == after);
        }
    }
}

// ── The encoder sends true equations ─────────────────────────────────────

/// The vector of a coded packet states the coefficients that were used.
pub proof fn lemma_vector_coefs(m: EncoderModel, cover: Seq<u32>, i: int)
    requires
        m.wf(),
        0 <= i < cover.len(),
    ensures
        m.vector(cover).coef(i) == m.coefs(cover)[i],
        algebra::in_field(m.params.field, m.coefs(cover)[i]),
        m.coefs(cover)[i] != 0,
{
    let f = m.params.field;
    match m.params.matrix_strategy {
        MatrixStrategy::Vandermonde => {
            algebra::lemma_alpha_pow_range(f, cover[i] as nat * m.next_coded_id as nat);
        },
        MatrixStrategy::Cauchy => {
            coef_gen::lemma_cauchy_coef(f, cover[i], m.next_coded_id, m.generation);
        },
    }
}

proof fn lemma_mixed_listed(m: EncoderModel, cover: Seq<u32>, s: Symbols, k: int, n: nat)
    requires
        m.wf(),
        window_true(m, s),
        covers(m, cover),
        n <= cover.len(),
    ensures
        model::mixed(m.params.field, m.window, cover, m.coefs(cover), k, n) == listed_sum(
            m.params.field,
            m.vector(cover),
            s,
            k,
            n,
        ),
    decreases n,
{
    if n > 0 {
        lemma_mixed_listed(m, cover, s, k, (n - 1) as nat);
        lemma_vector_coefs(m, cover, n - 1);
        algebra::lemma_reduce(m.params.field, m.coefs(cover)[n - 1]);
        let id = cover[n - 1];
        assert(m.ids().contains(id));
        let j = m.ids().index_of(id);
        assert(m.window[j].0 == id);
        model::lemma_symbol_at(m.window, m.next_id, m.params, j);
        assert(s(m.window[j].0) == m.window[j].1);
    }
}

/// The equation of a coded packet mentions every id that the packet covers.
pub proof fn lemma_ev_coefs_present(f: Field, m: EncoderModel, cover: Seq<u32>, n: nat, i: int)
    requires
        m.wf(),
        f == m.params.field,
        cover.no_duplicates(),
        0 <= i < n <= cover.len(),
    ensures
        matrix::ev_coefs(f, m.vector(cover), n)(cover[i]) != 0,
    decreases n,
{
    lemma_vector_coefs(m, cover, n - 1);
    algebra::lemma_reduce(f, m.coefs(cover)[n - 1]);
    if i < n - 1 {
        lemma_ev_coefs_present(f, m, cover, (n - 1) as nat, i);
        assert(cover[i] != cover[n - 1]);
    }
}

/// Every coded packet over different symbols of the window states a true equation
/// about the symbols.
pub proof fn lemma_coded_packet_true(m: EncoderModel, cover: Seq<u32>, s: Symbols)
    requires
        m.wf(),
        window_true(m, s),
        covers(m, cover),
    ensures
        m.payload(cover).len() == m.params.symbol_size,
        matrix::ev_equation(m.params.field, m.vector(cover), m.payload(cover)).holds(
            m.params.field,
            s,
        ),
{
    let f = m.params.field;
    let v = m.vector(cover);
    let eq = matrix::ev_equation(f, v, m.payload(cover));
    assert forall|k: int| 0 <= k < eq.payload.len() implies #[trigger] linear::sum_upto(
        f,
        eq.coef,
        s,
        k,
        linear::id_count(),
    ) == eq.payload[k] by {
        lemma_mixed_listed(m, cover, s, k, cover.len());
        lemma_listed_sum(f, v, s, k, cover.len());
    }
}

/// The window stays true: a new symbol enters under the next id, and symbols leave.
pub proof fn lemma_window_stays_true(m: EncoderModel, s: Symbols, removed: Seq<u32>)
    requires
        m.wf(),
        window_true(m, s),
    ensures
        m.refusal(s(m.next_id)) is None ==> window_true(m.after_push(s(m.next_id)), s),
        window_true(m.after_coded(), s),
        window_true(m.without(removed), s),
{
    let data = s(m.next_id);
    if m.refusal(data) is None {
        let p = m.after_push(data);
        assert forall|i: int| 0 <= i < p.window.len() implies s((#[trigger] p.window[i]).0)
            == p.window[i].1 by {
            if i < p.window.len() - 1 {
                if m.window.len() >= m.params.window_capacity {
                    assert(p.window[i] == m.window[i + 1]);
                } else {
                    assert(p.window[i] == m.window[i]);
                }
            }
        }
    }
    let keep = |x: SymbolModel| !removed.contains(x.0);
    model::lemma_filter_window_ok(m.window, m.next_id, m.params, keep);
    let w = m.without(removed);
    assert forall|i: int| 0 <= i < w.window.len() implies s((#[trigger] w.window[i]).0)
        == w.window[i].1 by {
        assert(m.window.contains(w.window[i]));
        let j = m.window.index_of(w.window[i]);
        assert(s(m.window[j].0) == m.window[j].1);
    }
}

/// The ids that the targeted, recent and per-receiver packets cover are different
/// ids of the window.
pub proof fn lemma_covers(m: EncoderModel, n: nat, rid: u64, ids: Seq<u32>)
    requires
        m.wf(),
    ensures
        covers(m, m.ids()),
        covers(m, m.recent(n)),
        covers(m, m.unacked(rid)),
        covers(m, m.present(ids)),
{
    let all = m.ids();
    assert(all.no_duplicates()) by {
        assert forall|i: int, j: int| 0 <= i < all.len() && 0 <= j < all.len() && i
            != j implies all[i] != all[j] by {
            if i < j {
                assert(m.window[i].0 < m.window[j].0);
            } else {
                assert(m.window[j].0 < m.window[i].0);
            }
        }
    }
    assert forall|i: int| 0 <= i < all.len() implies m.ids().contains(#[trigger] all[i]) by {}
    let r = m.recent(n);
    assert forall|i: int| 0 <= i < r.len() implies m.ids().contains(#[trigger] r[i]) by {
        if n < all.len() {
            assert(r[i] == all[all.len() - n + i]);
        }
    }
    let seen = m.acks;
    lemma_filter_covers(all, |id: u32| !acks::acked_by(seen, rid, id));
    lemma_filter_covers(all, |id: u32| ids.contains(id));
}

/// A filter lets through different members of the list that meet the condition.
pub proof fn lemma_filter_covers(ids: Seq<u32>, keep: spec_fn(u32) -> bool)
    requires
        ids.no_duplicates(),
    ensures
        ids.filter(keep).no_duplicates(),
        forall|i: int|
            0 <= i < ids.filter(keep).len() ==> keep(#[trigger] ids.filter(keep)[i])
                && ids.contains(ids.filter(keep)[i]),
    decreases ids.len(),
{
    reveal(Seq::filter);
    if ids.len() > 0 {
        let v = ids.drop_last();
        lemma_filter_covers(v, keep);
        let fv = v.filter(keep);
        let fi = ids.filter(keep);
        assert forall|i: int| 0 <= i < fv.len() implies ids.contains(#[trigger] fv[i]) && fv[i]
            != ids.last() by {
            assert(v.contains(fv[i]));
            let j = v.index_of(fv[i]);
            assert(ids[j] == fv[i]);
        }
        assert(ids[ids.len() - 1] == ids.last());
        assert forall|i: int| 0 <= i < fi.len() implies keep(#[trigger] fi[i]) && ids.contains(
            fi[i],
        ) by {
            if i < fv.len() {
                assert(fi[i] == fv[i]);
            }
        }
    }
}

/// Filters that agree on the list let through the same.
proof fn lemma_filter_agree(ids: Seq<u32>, a: spec_fn(u32) -> bool, b: spec_fn(u32) -> bool)
    requires
        forall|i: int| 0 <= i < ids.len() ==> a(#[trigger] ids[i]) == b(ids[i]),
    ensures
        ids.filter(a) == ids.filter(b),
    decreases ids.len(),
{
    reveal(Seq::filter);
    if ids.len() > 0 {
        let v = ids.drop_last();
        assert forall|i: int| 0 <= i < v.len() implies a(#[trigger] v[i]) == b(v[i]) by {
            assert(v[i] == ids[i]);
        }
        lemma_filter_agree(v, a, b);
        assert(a(ids[ids.len() - 1]) == b(ids[ids.len() - 1]));
    }
}

/// A filter that holds from position `k` on lets through what stands there.
proof fn lemma_filter_skip(ids: Seq<u32>, k: int, keep: spec_fn(u32) -> bool)
    requires
        0 <= k <= ids.len(),
        forall|i: int| 0 <= i < ids.len() ==> keep(#[trigger] ids[i]) == (i >= k),
    ensures
        ids.filter(keep) == ids.skip(k),
    decreases ids.len(),
{
    reveal(Seq::filter);
    if ids.len() > 0 {
        let v = ids.drop_last();
        let last = ids[ids.len() - 1];
        if k < ids.len() {
            assert forall|i: int| 0 <= i < v.len() implies keep(#[trigger] v[i]) == (i >= k) by {
                assert(v[i] == ids[i]);
            }
            lemma_filter_skip(v, k, keep);
            assert(keep(last));
            assert(ids.skip(k) =~= v.skip(k).push(last));
        } else {
            assert forall|i: int| 0 <= i < v.len() implies keep(#[trigger] v[i]) == (i
                >= v.len()) by {
                assert(v[i] == ids[i]);
            }
            lemma_filter_skip(v, v.len() as int, keep);
            assert(!keep(last));
            assert(ids.skip(k) =~= v.skip(v.len() as int));
        }
    } else {
        assert(ids.skip(k) =~= ids);
    }
}

/// The other ways to generate a coded packet are targeted ones: over the whole
/// window, over the newest symbols, and over those that a receiver has not
/// acknowledged.  And a targeted packet covers exactly the wanted ids of the window.
pub proof fn lemma_targeted(m: EncoderModel, n: nat, rid: u64, wanted: Seq<u32>, id: u32)
    requires
        m.wf(),
    ensures
        m.present(m.ids()) == m.ids(),
        m.present(m.recent(n)) == m.recent(n),
        m.present(m.unacked(rid)) == m.unacked(rid),
        m.present(wanted).contains(id) <==> m.ids().contains(id) && wanted.contains(id),
{
    let ids = m.ids();
    lemma_covers(m, n, rid, wanted);
    lemma_filter_skip(ids, 0, |x: u32| ids.contains(x));
    assert(ids.skip(0) =~= ids);
    let r = m.recent(n);
    let k = if n >= ids.len() {
        0int
    } else {
        ids.len() - n
    };
    assert(r =~= ids.skip(k));
    assert forall|i: int| 0 <= i < ids.len() implies r.contains(#[trigger] ids[i]) == (i >= k) by {
        if i >= k {
            assert(r[i - k] == ids[i]);
        } else if r.contains(ids[i]) {
            let j = r.index_of(ids[i]);
            assert(ids[j + k] == ids[i]);
        }
    }
    lemma_filter_skip(ids, k, |x: u32| r.contains(x));
    let seen = m.acks;
    let due = |x: u32| !acks::acked_by(seen, rid, x);
    let u = m.unacked(rid);
    lemma_filter_covers(ids, due);
    assert(u == ids.filter(due));
    assert forall|i: int| 0 <= i < ids.len() implies u.contains(#[trigger] ids[i]) == due(ids[i])
        by {
        lemma_filter_has(ids, due, ids[i]);
    }
    lemma_filter_agree(ids, |x: u32| u.contains(x), due);
    lemma_filter_has(ids, |x: u32| wanted.contains(x), id);
}

/// What a filter lets through.
proof fn lemma_filter_has(ids: Seq<u32>, keep: spec_fn(u32) -> bool, id: u32)
    ensures
        ids.filter(keep).contains(id) <==> ids.contains(id) && keep(id),
    decreases ids.len(),
{
    reveal(Seq::filter);
    if ids.len() > 0 {
        let v = ids.drop_last();
        let last = ids[ids.len() - 1];
        lemma_filter_has(v, keep, id);
        assert(ids =~= v.push(last));
        let fv = v.filter(keep);
        if v.contains(id) {
            assert(ids[v.index_of(id)] == id);
        }
        if ids.contains(id) && id != last {
            assert(v[ids.index_of(id)] == id);
        }
        if keep(last) {
            let fi = fv.push(last);
            assert(fi[fv.len() as int] == last);
            if fv.contains(id) {
                assert(fi[fv.index_of(id)] == id);
            }
            if fi.contains(id) && id != last {
                assert(fv[fi.index_of(id)] == id);
            }
        }
    }
}

// ── What is sent is what is read ─────────────────────────────────────────

/// Parsing a source packet of the encoder gives back the symbol and its id.
pub proof fn lemma_source_packet_read(m: EncoderModel, cci: Seq<u8>)
    requires
        source::valid_cci(cci),
    ensures
        source::source_from(m.source_packet(cci)) matches Ok(p) && p.id == m.window.last().0
            && p.payload == m.window.last().1 && p.cci == cci,
{
    source::lemma_source_round_trip(m.window.last().0, m.window.last().1, cci, None);
}

/// Parsing a coded packet of the encoder gives back its encoding vector and its
/// payload, where the encoding vector fits the fields of the wire format.
pub proof fn lemma_coded_packet_read(m: EncoderModel, cover: Seq<u32>, cci: Seq<u8>)
    requires
        source::valid_cci(cci),
        ev::fits_wire(m.vector(cover)),
    ensures
        coded::coded_from(m.coded_packet(cover, cci)) matches Ok(p) && p.id == m.next_coded_id
            && p.ev == m.vector(cover) && p.payload == m.payload(cover) && p.cci == cci
            && p.start() == m.told(cover),
{
    coded::lemma_coded_round_trip(
        m.next_coded_id,
        m.vector(cover),
        m.payload(cover),
        cci,
        None,
        m.lag(cover),
    );
    assert((EvModel { coded_id: m.next_coded_id, ..m.vector(cover) }) == m.vector(cover));
}

/// A Cauchy packet over ids without a gap carries one coefficient per id, in whole
/// words, and nothing else that depends on the ids.
pub proof fn lemma_cauchy_packet_len(m: EncoderModel, cover: Seq<u32>, cci: Seq<u8>)
    requires
        m.params.matrix_strategy == MatrixStrategy::Cauchy,
        cover.len() > 0,
        id_storage::contiguous(cover),
    ensures
        m.coded_packet(cover, cci).len() == 16 + cci.len() + ev::pad32_len(
            ev::coef_len(m.params.field, cover.len()),
        ) + (if m.generation == 0 { 0int } else { 4 }) + m.params.symbol_size,
{
    let v = m.vector(cover);
    ev::lemma_word_count(v);
    ev::lemma_body_len(v);
    assert(v.format == id_storage::IdStorageFormat::Contiguous);
    assert(ev::padded(id_storage::stored(v.ids, v.format)).len() == 0) by {
        reveal(id_storage::stored);
    }
    reveal(ev::word_count);
    be::lemma_be32(m.next_coded_id);
}

/// Cauchy packets shrink with what they cover: a packet over fewer ids without a gap
/// is never longer, and is shorter by a word where a word of coefficients is saved.
pub proof fn lemma_cauchy_packets_shrink(
    m: EncoderModel,
    small: Seq<u32>,
    large: Seq<u32>,
    cci: Seq<u8>,
)
    requires
        m.params.matrix_strategy == MatrixStrategy::Cauchy,
        0 < small.len() <= large.len(),
        id_storage::contiguous(small),
        id_storage::contiguous(large),
    ensures
        m.coded_packet(small, cci).len() <= m.coded_packet(large, cci).len(),
        ev::coef_len(m.params.field, small.len()) + 4 <= ev::coef_len(
            m.params.field,
            large.len(),
        ) ==> m.coded_packet(small, cci).len() + 4 <= m.coded_packet(large, cci).len(),
{
    lemma_cauchy_packet_len(m, small, cci);
    lemma_cauchy_packet_len(m, large, cci);
}

// ── Coded ids ────────────────────────────────────────────────────────────

/// Coded packets keep the invariant of the encoder and leave the window alone.
pub proof fn lemma_after_coded_n(m: EncoderModel, n: nat)
    requires
        m.wf(),
    ensures
        m.after_coded_n(n).wf(),
        m.after_coded_n(n).params == m.params,
        m.after_coded_n(n).window == m.window,
        m.after_coded_n(n).next_id == m.next_id,
        m.after_coded_n(n).acks == m.acks,
    decreases n,
{
    if n > 0 {
        lemma_after_coded_n(m, (n - 1) as nat);
    }
}

/// Inside a cycle the coded ids count up and the generation stays.  At its end the
/// ids start anew, in the next generation for a Cauchy encoder.
pub proof fn lemma_coded_id_cycle(m: EncoderModel, n: nat)
    requires
        m.wf(),
        m.next_coded_id + n <= model::first_coded_id(m.params) + model::cycle_of(m.params),
    ensures
        ({
            let a = m.after_coded_n(n);
            let end = model::first_coded_id(m.params) + model::cycle_of(m.params);
            if m.next_coded_id + n < end {
                a.next_coded_id == m.next_coded_id + n && a.generation == m.generation
            } else {
                &&& a.next_coded_id == model::first_coded_id(m.params)
                &&& a.generation == if m.params.matrix_strategy == MatrixStrategy::Cauchy {
                    ((m.generation + 1) % 256) as u8
                } else {
                    m.generation
                }
            }
        }),
    decreases n,
{
    lemma_after_coded_n(m, n);
    if n > 0 {
        lemma_coded_id_cycle(m, (n - 1) as nat);
        lemma_after_coded_n(m, (n - 1) as nat);
    }
}

/// The encoder has sent `n` coded packets: the coded ids count up from the first one
/// and start anew after each cycle, and a Cauchy encoder counts the cycles as
/// generations, modulo 256.
pub open spec fn numbered(m: EncoderModel, n: nat) -> bool {
    let cycle = model::cycle_of(m.params);
    &&& m.next_coded_id == model::first_coded_id(m.params) + n % cycle
    &&& m.generation == if m.params.matrix_strategy == MatrixStrategy::Cauchy {
        n / cycle % 256
    } else {
        0
    }
}

/// A coded packet is counted by id and generation, and nothing else is: neither a
/// new symbol nor the removal of symbols from the window.
pub proof fn lemma_numbered(m: EncoderModel, n: nat, data: Seq<u8>, removed: Seq<u32>)
    requires
        m.wf(),
        numbered(m, n),
    ensures
        numbered(EncoderModel::initial(m.params), 0),
        numbered(m.after_coded(), n + 1),
        numbered(m.after_push(data), n),
        numbered(m.without(removed), n),
{
    lemma_next_number(n, model::cycle_of(m.params));
}

/// How quotient and remainder go on by one.
proof fn lemma_next_number(n: nat, cycle: nat)
    requires
        cycle == 128 || cycle == 7 || cycle == 254 || cycle == 14,
    ensures
        0nat % cycle == 0 && 0nat / cycle == 0,
        n % cycle + 1 == cycle ==> (n + 1) % cycle == 0 && (n + 1) / cycle == n / cycle + 1,
        n % cycle + 1 < cycle ==> (n + 1) % cycle == n % cycle + 1 && (n + 1) / cycle == n / cycle,
{
    if cycle == 128 {
        assert(n % 128 + 1 == 128 ==> (n + 1) % 128 == 0 && (n + 1) / 128 == n / 128 + 1);
    } else if cycle == 7 {
        assert(n % 7 + 1 == 7 ==> (n + 1) % 7 == 0 && (n + 1) / 7 == n / 7 + 1);
    } else if cycle == 254 {
        assert(n % 254 + 1 == 254 ==> (n + 1) % 254 == 0 && (n + 1) / 254 == n / 254 + 1);
    } else {
        assert(n % 14 + 1 == 14 ==> (n + 1) % 14 == 0 && (n + 1) / 14 == n / 14 + 1);
    }
}

/// After any number of coded packets, the coded id is the first one plus the number
/// of packets modulo the cycle, and the generation of a Cauchy encoder is the number
/// of whole cycles modulo 256.
pub proof fn lemma_coded_numbers(m: EncoderModel, k: nat, n: nat)
    requires
        m.wf(),
        numbered(m, k),
    ensures
        numbered(m.after_coded_n(n), k + n),
    decreases n,
{
    if n > 0 {
        lemma_coded_numbers(m, k, (n - 1) as nat);
        lemma_after_coded_n(m, (n - 1) as nat);
        lemma_numbered(m.after_coded_n((n - 1) as nat), (k + n - 1) as nat, Seq::empty(), Seq::empty());
    }
}

/// What the coded packet after `n` others says: its number, the ids that it covers,
/// the coefficients that belong to them, and the combination.
pub proof fn lemma_numbered_packet(m: EncoderModel, n: nat, cover: Seq<u32>, cci: Seq<u8>)
    requires
        m.wf(),
        numbered(m, n),
        source::valid_cci(cci),
        ev::fits_wire(m.vector(cover)),
    ensures
        ({
            let f = m.params.field;
            let cycle = model::cycle_of(m.params);
            let id = (model::first_coded_id(m.params) + n % cycle) as u32;
            let generation = (n / cycle % 256) as u8;
            &&& coded::coded_from(m.coded_packet(cover, cci)) is Ok
            &&& {
                let p = coded::coded_from(m.coded_packet(cover, cci))->Ok_0;
                &&& p.id == id
                &&& p.ev.ids == cover
                &&& p.payload == m.payload(cover)
                &&& forall|i: int|
                    0 <= i < cover.len() ==> p.ev.coef(i) == match m.params.matrix_strategy {
                        MatrixStrategy::Vandermonde => coef_gen::vandermonde(
                            f,
                            #[trigger] cover[i],
                            id,
                        ),
                        MatrixStrategy::Cauchy => coef_gen::cauchy(f, cover[i], id, generation),
                    }
            }
        }),
{
    lemma_coded_packet_read(m, cover, cci);
    assert forall|i: int| 0 <= i < cover.len() implies m.vector(cover).coef(i) == #[trigger] m.coefs(
        cover,
    )[i] by {
        lemma_vector_coefs(m, cover, i);
    }
    let p = coded::coded_from(m.coded_packet(cover, cci))->Ok_0;
    assert forall|i: int| 0 <= i < cover.len() implies p.ev.coef(i)
        == match m.params.matrix_strategy {
        MatrixStrategy::Vandermonde => coef_gen::vandermonde(
            m.params.field,
            #[trigger] cover[i],
            m.next_coded_id,
        ),
        MatrixStrategy::Cauchy => coef_gen::cauchy(
            m.params.field,
            cover[i],
            m.next_coded_id,
            m.generation,
        ),
    } by {
        assert(m.vector(cover).coef(i) == m.coefs(cover)[i]);
    }
}

// ── Gaps ─────────────────────────────────────────────────────────────────

/// The decoder has passed everything before the start of the encoder's window that
/// it has been told.
pub open spec fn caught_up(d: DecoderModel) -> bool {
    d.win_min <= d.buffer.next
}

/// The decoder knows nothing of the last id, which no encoder sends.
pub open spec fn spares_last(d: DecoderModel) -> bool {
    &&& !d.known.contains_key(u32::MAX)
    &&& !d.buffer.symbols.contains_key(u32::MAX)
    &&& forall|p: u32| #[trigger] d.rows.contains_key(p) ==> d.rows[p].at(u32::MAX) == 0
}

/// A source packet of an encoder brings nothing of the last id.
proof fn lemma_source_spares(d: DecoderModel, id: u32, data: Seq<u8>)
    requires
        d.wf(),
        spares_last(d),
        id < u32::MAX,
    ensures
        spares_last(d.source_taken(id, data)),
{
    let f = d.params.field;
    let size = d.params.symbol_size as nat;
    let rows = d.rows_with_source(id, data);
    let last = Map::<u32, Seq<u8>>::empty().insert(u32::MAX, Seq::empty());
    system::lemma_after_source_reduced(f, d.rows, id, data, size);
    system::lemma_after_source_clear(f, d.rows, id, data, last, size);
    assert(last.contains_key(u32::MAX));
    assert forall|p: u32| #[trigger] rows.contains_key(p) implies rows[p].at(u32::MAX) == 0 by {}
    assert(!system::solved_part(rows).contains_key(u32::MAX)) by {
        if rows.contains_key(u32::MAX) {
            assert(rows[u32::MAX].at(u32::MAX) == 1);
        }
    }
}

/// A coded packet of an encoder brings nothing of the last id.
proof fn lemma_coded_spares(e: EncoderModel, d: DecoderModel, cover: Seq<u32>)
    requires
        e.wf(),
        d.wf(),
        e.params.symbol_size == d.params.symbol_size,
        covers(e, cover),
        spares_last(d),
    ensures
        spares_last(d.coded_taken(e.vector(cover), e.payload(cover), e.told(cover))),
{
    let f = d.params.field;
    let size = d.params.symbol_size as nat;
    let max = d.params.max_matrix_rows as nat;
    let v = e.vector(cover);
    let eq = matrix::ev_equation(f, v, e.payload(cover));
    let rows = d.rows_with_coded(v, e.payload(cover));
    matrix::lemma_ev_equation_wf(f, v, e.payload(cover));
    assert forall|i: int| 0 <= i < v.ids.len() implies #[trigger] v.ids[i] != u32::MAX by {
        assert(e.ids().contains(cover[i]));
        let k = e.ids().index_of(cover[i]);
        assert(e.window[k].0 < e.next_id);
    }
    lemma_ev_coefs_absent(f, v, v.ids.len(), u32::MAX);
    system::lemma_after_coded_absent(f, d.rows, eq, d.known, max, size, u32::MAX);
    system::lemma_after_coded_reduced(f, d.rows, eq, d.known, max, size);
    assert(!system::solved_part(rows).contains_key(u32::MAX)) by {
        if rows.contains_key(u32::MAX) {
            assert(rows[u32::MAX].at(u32::MAX) == 1);
        }
    }
}

/// A gap among events ends at `bound` or before it.
pub open spec fn gaps_below(events: Seq<EventModel>, bound: int) -> bool {
    forall|i: int|
        0 <= i < events.len() ==> match #[trigger] events[i] {
            EventModel::UnrecoverableGap { first_missing, count } => first_missing + count <= bound,
            _ => true,
        }
}

/// There is no gap among events.
pub open spec fn no_gap(events: Seq<EventModel>) -> bool {
    forall|i: int| 0 <= i < events.len() ==> !((#[trigger] events[i]) is UnrecoverableGap)
}

/// Where events can report a gap: from the next delivery to the start of the window.
proof fn lemma_gap_events<P: FeedbackPolicy>(
    t: DecoderModel,
    policy: P,
    events: Seq<EventModel>,
    post: DecoderModel,
    after: P,
)
    requires
        decoder_model::tells(t, policy, events, post, after),
    ensures
        spares_last(t) ==> spares_last(post),
        gaps_below(events, t.win_min as int),
        caught_up(t.drained()) ==> no_gap(events),
        caught_up(post),
{
    let due = choose|due: Option<Seq<u8>>|
        {
            &&& events == #[trigger] t.events(due)
            &&& policy.may_decide(t.drained().state(), due is Some, after)
            &&& due is Some ==> t.drained().is_feedback(due->0)
            &&& post == t.drained().gap_passed()
        };
    assert(events == t.events(due));
    let told = t.deliveries();
    let extra: int = if due is Some {
        1
    } else {
        0
    };
    assert forall|i: int| 0 <= i < events.len() implies match #[trigger] events[i] {
        EventModel::UnrecoverableGap { first_missing, count } => first_missing + count
            == t.win_min && !caught_up(t.drained()),
        _ => true,
    } by {
        if i < told.len() {
            assert(events[i] == told[i]);
        } else if i >= told.len() + extra {
            assert(events[i] == t.drained().gap()[i - told.len() - extra]);
        }
    }
}

/// Every id of a gap that a coded packet lets the decoder report lies before the
/// window of the encoder that made the packet, whatever packets of the encoder came
/// before it and in whatever order.
pub proof fn lemma_gap_left_window<P: FeedbackPolicy>(
    e: EncoderModel,
    d: DecoderModel,
    cover: Seq<u32>,
    policy: P,
    events: Seq<EventModel>,
    post: DecoderModel,
    after: P,
)
    requires
        e.wf(),
        d.wf(),
        e.params.symbol_size == d.params.symbol_size,
        cover.len() > 0,
        covers(e, cover),
        caught_up(d),
        spares_last(d),
        decoder_model::tells(
            d.coded_taken(e.vector(cover), e.payload(cover), e.told(cover)),
            policy,
            events,
            post,
            after,
        ),
    ensures
        gaps_below(events, e.ids()[0] as int),
        caught_up(post),
        spares_last(post),
{
    let t = d.coded_taken(e.vector(cover), e.payload(cover), e.told(cover));
    assert(e.ids().contains(cover[0]));
    coded::lemma_start_told(cover, e.window[0].0);
    lemma_coded_spares(e, d, cover);
    lemma_gap_events(t, policy, events, post, after);
    buffer::lemma_run_end(t.buffer.symbols, t.buffer.next);
    assert(t.buffer.end() <= u32::MAX);
    assert(t.drained().buffer.next >= d.buffer.next);
    if t.win_min == d.win_min {
        assert(caught_up(t.drained()));
    } else {
        assert(t.win_min == e.ids()[0]);
    }
}

/// A source packet lets the decoder report no gap.  A new decoder has none to report
/// either.
pub proof fn lemma_source_no_gap<P: FeedbackPolicy>(
    d: DecoderModel,
    id: u32,
    data: Seq<u8>,
    policy: P,
    events: Seq<EventModel>,
    post: DecoderModel,
    after: P,
)
    requires
        d.wf(),
        id < u32::MAX,
        caught_up(d),
        spares_last(d),
        decoder_model::tells(d.source_taken(id, data), policy, events, post, after),
    ensures
        no_gap(events),
        caught_up(post),
        spares_last(post),
        caught_up(DecoderModel::initial(d.params)),
        spares_last(DecoderModel::initial(d.params)),
{
    let t = d.source_taken(id, data);
    lemma_source_spares(d, id, data);
    lemma_gap_events(t, policy, events, post, after);
    buffer::lemma_run_end(t.buffer.symbols, t.buffer.next);
    assert(t.buffer.end() <= u32::MAX);
    assert(caught_up(t.drained()));
}

// ── Feedback ─────────────────────────────────────────────────────────────

/// Feedback is truthful: what an encoder takes from a decoder's feedback packet as
/// acknowledged was acknowledged before, lies before the decoder's next delivery,
/// or waits there.
pub proof fn lemma_feedback_truthful(
    dec: DecoderModel,
    ids: Seq<u32>,
    sack: Seq<u8>,
    acks: Acks,
    rid: u64,
    id: u32,
)
    requires
        dec.acknowledges(ids, sack),
        acks::acked_by(acks::acks_updated(acks, rid, dec.feedback(ids, sack)), rid, id),
    ensures
        acks::acked_by(acks, rid, id) || id < dec.buffer.next || dec.buffer.symbols.contains_key(
            id,
        ),
{
    let pkt = dec.feedback(ids, sack);
    acks::lemma_update_adds_acks(acks, rid, pkt, id);
    let n = if ids.len() < 256 {
        ids.len() as int
    } else {
        256
    };
    feedback::lemma_built_sack_acks(pkt, ids.take(n), id);
    if pkt.acks(id) {
        let i = ids.take(n).index_of(id);
        assert(ids[i] == id);
        assert(ids.contains(id));
    }
}

/// Feedback reaches the encoder: what has been delivered is acknowledged, and so
/// are the 256 lowest ids that wait.
pub proof fn lemma_feedback_acknowledges(
    dec: DecoderModel,
    ids: Seq<u32>,
    sack: Seq<u8>,
    acks: Acks,
    rid: u64,
    id: u32,
)
    requires
        dec.wf(),
        dec.acknowledges(ids, sack),
        id < dec.buffer.next || exists|i: int| 0 <= i < 256 && i < ids.len() && #[trigger] ids[i] == id,
    ensures
        acks::acked_by(acks::acks_updated(acks, rid, dec.feedback(ids, sack)), rid, id),
{
    let pkt = dec.feedback(ids, sack);
    acks::lemma_update_adds_acks(acks, rid, pkt, id);
    let n = if ids.len() < 256 {
        ids.len() as int
    } else {
        256
    };
    if id >= dec.buffer.next {
        let i = choose|i: int| 0 <= i < 256 && i < ids.len() && #[trigger] ids[i] == id;
        assert(ids.take(n)[i] == id);
        feedback::lemma_built_sack_acks(pkt, ids.take(n), id);
    }
}

} // verus!
