//! What the parts of the command-line tool do.
use vstd::prelude::*;

use crate::cli::bench;
use crate::cli::demo;
use crate::cli::digest;
use crate::cli::file;
use crate::cli::frames;
use crate::cli::frames::{StartError, StartModel};
use crate::cli::prng;
use crate::cli::ratio;
use crate::cli::ratio::RatioError;
use crate::cli::recv;
use crate::cli::recv::{FileReceiver, ReceivedFile};
use crate::cli::send::{coded_run, if_any, Batch, FileSender, SendSettings};
use crate::cli::transfer;
use crate::cli::{AltcMode, Strategy};
use crate::codec::decoder;
use crate::codec::decoder::DecoderEvent;
use crate::codec::encoder;
use crate::codec::encoder::laws as windows;
use crate::codec::encoder::model::{EncoderModel, OutputModel};
use crate::codec::encoder::{DefaultEncoder, Encoder, EncoderOutput};
use crate::codec::laws as session;
use crate::config::{BackpressureMode, EncoderParams, Field, MatrixStrategy};
use crate::policy::acks;
use crate::policy::laws::{in_order, picked};
use crate::transport::receiver;
use crate::transport::sender;
use crate::wire::be;
use crate::wire::coded;
use crate::wire::laws as layout;

verus! {

// ── Simulated loss ───────────────────────────────────────────────────────

/// The generator is xorshift64*: the state is combined with itself, shifted down by 12
/// bits, up by 25 and down by 27, and a byte is the highest one of the product with the
/// multiplier.  From a state that is not zero it never gets to zero.
pub proof fn lemma_xorshift(x: u64)
    ensures
        ({
            let a = x ^ (x / 4096);
            let b = a ^ ((a * 33554432) % 0x1_0000_0000_0000_0000) as u64;
            prng::stepped(x) == b ^ (b / 134217728)
        }),
        ({
            let product = x * 0x2545_F491_4F6C_DD1D % 0x1_0000_0000_0000_0000;
            prng::byte_of(x) * 72057594037927936 <= product < (prng::byte_of(x) + 1)
                * 72057594037927936
        }),
        x != 0 ==> prng::stepped(x) != 0,
{
    let a = x ^ (x >> 12u64);
    let b = a ^ (a << 25u64);
    let c = b ^ (b >> 27u64);
    assert(x >> 12u64 == x / 4096) by (bit_vector);
    assert(a << 25u64 == ((a * 33554432) % 0x1_0000_0000_0000_0000) as u64) by (bit_vector);
    assert(b >> 27u64 == b / 134217728) by (bit_vector);
    assert(x != 0 ==> x ^ (x >> 12u64) != 0) by (bit_vector);
    assert(a != 0 ==> a ^ (a << 25u64) != 0) by (bit_vector);
    assert(b != 0 ==> b ^ (b >> 27u64) != 0) by (bit_vector);
    let product: int = x * 0x2545_F491_4F6C_DD1D % 0x1_0000_0000_0000_0000;
    assert(0 <= product / 0x100_0000_0000_0000 < 256);
}

/// A packet is lost by chance: never at 0 percent, always at 100, and at a higher rate
/// wherever it is lost at a lower one.
pub proof fn lemma_drops(x: u64, low: u32, high: u32)
    ensures
        !prng::drops(x, 0),
        high >= 100 ==> prng::drops(x, high),
        low <= high && prng::drops(x, low) ==> prng::drops(x, high),
        prng::drops(x, low) <==> (prng::byte_of(prng::stepped(x)) as int) % 100 < low,
{
}

/// What survives keeps its order.  Each packet meets its own throw of the dice: the
/// first survives by the first state, and the others as they would after it.
pub proof fn lemma_survivors(out: Seq<OutputModel>, x: u64, percent: u32)
    ensures
        in_order(prng::survivors(out, x, percent), out),
        percent == 0 ==> prng::survivors(out, x, percent) == out,
        percent >= 100 ==> prng::survivors(out, x, percent).len() == 0,
        out.len() > 0 ==> prng::survivors(out, x, percent) == (if prng::drops(x, percent) {
            Seq::empty()
        } else {
            seq![out[0]]
        }) + prng::survivors(out.drop_first(), prng::stepped(x), percent),
    decreases out.len(),
{
    let s = prng::survivors(out, x, percent);
    if out.len() == 0 {
        assert(picked(s, out, Seq::empty()));
        assert(s =~= out);
    } else {
        let v = out.drop_last();
        let n = v.len();
        let y = prng::stepped_n(x, n);
        lemma_survivors(v, x, percent);
        lemma_drops(y, percent, percent);
        let sv = prng::survivors(v, x, percent);
        let at = choose|at: Seq<int>| picked(sv, v, at);
        assert(picked(sv, v, at));
        if prng::drops(y, percent) {
            assert forall|i: int| 0 <= i < at.len() implies 0 <= #[trigger] at[i] < out.len()
                && s[i] == out[at[i]] by {}
            assert(picked(s, out, at));
        } else {
            let more = at.push(n as int);
            assert forall|i: int| 0 <= i < more.len() implies 0 <= #[trigger] more[i] < out.len()
                && s[i] == out[more[i]] by {
                if i < at.len() {
                    assert(more[i] == at[i]);
                }
            }
            assert forall|i: int, j: int| 0 <= i < j < more.len() implies more[i] < more[j] by {
                assert(more[i] == at[i]);
            }
            assert(picked(s, out, more));
        }
        if percent == 0 {
            assert(s =~= out);
        }
        // the first packet and the rest
        let w = out.drop_first();
        let rest = prng::survivors(w, prng::stepped(x), percent);
        let one = if prng::drops(x, percent) {
            Seq::empty()
        } else {
            seq![out[0]]
        };
        if n == 0 {
            assert(w =~= Seq::empty());
            assert(y == x);
            assert(sv =~= Seq::empty());
            assert(s =~= one + rest);
        } else {
            assert(w.drop_last() =~= v.drop_first());
            lemma_states(x, (n - 1) as nat);
            assert(prng::stepped_n(prng::stepped(x), (n - 1) as nat) == y);
            assert(w.last() == out.last());
            assert(s =~= one + rest);
        }
    }
}

/// One step and then the others are all the steps.
proof fn lemma_states(x: u64, n: nat)
    ensures
        prng::stepped_n(prng::stepped(x), n) == prng::stepped_n(x, n + 1),
    decreases n,
{
    if n > 0 {
        lemma_states(x, (n - 1) as nat);
        assert((n + 1 - 1) as nat == n);
    } else {
        assert(prng::stepped_n(x, 0) == x);
    }
}

// ── Rates ────────────────────────────────────────────────────────────────

/// Trimming takes the white space from both ends and nothing else.
pub proof fn lemma_trimmed(s: Seq<char>) -> (cut: (int, int))
    ensures
        0 <= cut.0 <= cut.1 <= s.len(),
        ratio::trimmed(s) == s.subrange(cut.0, cut.1),
        forall|i: int| 0 <= i < cut.0 ==> ratio::white_space(#[trigger] s[i]),
        forall|i: int| cut.1 <= i < s.len() ==> ratio::white_space(#[trigger] s[i]),
        cut.0 < cut.1 ==> !ratio::white_space(s[cut.0]) && !ratio::white_space(s[cut.1 - 1]),
    decreases s.len(),
{
    if s.len() == 0 {
        assert(s.subrange(0, 0) =~= s);
        (0int, 0int)
    } else if ratio::white_space(s.first()) {
        let v = s.drop_first();
        let (i, j) = lemma_trimmed(v);
        assert(v.subrange(i, j) =~= s.subrange(i + 1, j + 1));
        assert forall|k: int| 0 <= k < i + 1 implies ratio::white_space(#[trigger] s[k]) by {
            if k > 0 {
                assert(s[k] == v[k - 1]);
            }
        }
        assert forall|k: int| j + 1 <= k < s.len() implies ratio::white_space(#[trigger] s[k]) by {
            assert(s[k] == v[k - 1]);
        }
        (i + 1, j + 1)
    } else if ratio::white_space(s.last()) {
        let v = s.drop_last();
        let (i, j) = lemma_trimmed(v);
        assert(v.subrange(i, j) =~= s.subrange(i, j));
        assert forall|k: int| 0 <= k < i implies ratio::white_space(#[trigger] s[k]) by {
            assert(s[k] == v[k]);
        }
        assert forall|k: int| j <= k < s.len() implies ratio::white_space(#[trigger] s[k]) by {
            if k < s.len() - 1 {
                assert(s[k] == v[k]);
            }
        }
        (i, j)
    } else {
        assert(s.subrange(0, s.len() as int) =~= s);
        (0int, s.len() as int)
    }
}

/// All of `s` are digits, and there is one.
pub open spec fn numeral(s: Seq<char>) -> bool {
    s.len() > 0 && forall|i: int| 0 <= i < s.len() ==> '0' <= #[trigger] s[i] <= '9'
}

/// Digits count by their place: a numeral behind another one adds its own value and
/// shifts the other.
pub proof fn lemma_decimal(a: Seq<char>, b: Seq<char>)
    requires
        numeral(b),
    ensures
        ratio::decimal(a + b) == ratio::decimal(a) * vstd::arithmetic::power::pow(
            10,
            b.len(),
        ) + ratio::decimal(b),
        b.len() == 1 ==> ratio::decimal(b) == b[0] as int - 48,
    decreases b.len(),
{
    let v = b.drop_last();
    assert((a + b).drop_last() =~= a + v);
    assert((a + b).last() == b.last());
    reveal(vstd::arithmetic::power::pow);
    let p: int = vstd::arithmetic::power::pow(10, (b.len() - 1) as nat);
    assert(vstd::arithmetic::power::pow(10, b.len()) == 10 * p);
    let x: int = ratio::decimal(a) as int;
    if b.len() == 1 {
        assert(a + v =~= a);
        assert(v =~= Seq::empty());
        assert(ratio::decimal(v) == 0);
        assert(p == 1);
        assert(x * (10 * p) == 10 * x) by (nonlinear_arith)
            requires
                p == 1,
        ;
    } else {
        assert forall|i: int| 0 <= i < v.len() implies '0' <= #[trigger] v[i] <= '9' by {
            assert(v[i] == b[i]);
        }
        lemma_decimal(a, v);
        assert(10 * (x * p) == x * (10 * p)) by (nonlinear_arith);
    }
}

/// Two numerals with a colon between them are read as the ratio that they spell; a
/// zero behind the colon is refused.
pub proof fn lemma_ratio(a: Seq<char>, b: Seq<char>)
    requires
        numeral(a),
        numeral(b),
        ratio::decimal(a) <= usize::MAX,
        ratio::decimal(b) <= usize::MAX,
    ensures
        ratio::decimal(b) > 0 ==> ratio::ratio_of(a + seq![':'] + b) == Ok::<
            (usize, usize),
            RatioError,
        >((ratio::decimal(a) as usize, ratio::decimal(b) as usize)),
        ratio::decimal(b) == 0 ==> ratio::ratio_of(a + seq![':'] + b) == Err::<
            (usize, usize),
            RatioError,
        >(RatioError::ZeroDenominator),
        ratio::ratio_of(a) == Err::<(usize, usize), RatioError>(RatioError::MissingDenominator),
{
    let s = a + seq![':'] + b;
    lemma_colon(a, seq![':'] + b);
    assert(a + (seq![':'] + b) =~= s);
    assert(s.take(a.len() as int) =~= a);
    assert(s.skip(a.len() as int + 1) =~= b);
    lemma_numeral(a);
    lemma_numeral(b);
    lemma_colon(a, Seq::empty());
    assert(a + Seq::<char>::empty() =~= a);
    assert(a.take(a.len() as int) =~= a);
}

proof fn lemma_numeral(a: Seq<char>)
    requires
        numeral(a),
        ratio::decimal(a) <= usize::MAX,
    ensures
        ratio::trimmed(a) == a,
        ratio::number_of(a) == Some(ratio::decimal(a) as usize),
{
    assert('0' <= a[0] <= '9');
    assert('0' <= a[a.len() - 1] <= '9');
    assert(!ratio::white_space(a.first()));
    assert(!ratio::white_space(a.last()));
}

proof fn lemma_colon(a: Seq<char>, b: Seq<char>)
    requires
        forall|i: int| 0 <= i < a.len() ==> '0' <= #[trigger] a[i] <= '9',
        b.len() > 0 ==> b[0] == ':',
    ensures
        ratio::colon(a + b) == a.len(),
    decreases a.len(),
{
    if a.len() > 0 {
        let v = a.drop_first();
        assert((a + b).drop_first() =~= v + b);
        assert('0' <= a[0] <= '9');
        assert forall|i: int| 0 <= i < v.len() implies '0' <= #[trigger] v[i] <= '9' by {
            assert(v[i] == a[i + 1]);
        }
        lemma_colon(v, b);
    } else {
        assert(a + b =~= b);
    }
}

// ── Files ────────────────────────────────────────────────────────────────

/// A file is cut into as few symbols as hold it.  Each has the full size, its bytes
/// stand where they stood in the file, and what reaches behind the end is zero.
pub proof fn lemma_chunks(data: Seq<u8>, size: nat, i: nat, k: int)
    requires
        size > 0,
        0 <= k < size,
    ensures
        data.len() <= file::count_of(data.len(), size) * size < data.len() + size,
        file::chunk_of(data, size, i).len() == size,
        i * size + k < data.len() ==> file::chunk_of(data, size, i)[k] == data[i * size + k],
        i * size + k >= data.len() ==> file::chunk_of(data, size, i)[k] == 0,
{
    file::lemma_count(data.len(), size);
}

/// Symbols of one size are put together end to end.
pub proof fn lemma_joined(m: Map<u32, Seq<u8>>, n: nat, size: nat, i: nat, k: int)
    requires
        forall|j: u32| j < n ==> (#[trigger] m[j]).len() == size,
        n <= u32::MAX,
        i < n,
        0 <= k < size,
    ensures
        file::joined(m, n).len() == n * size,
        i * size + k < n * size,
        file::joined(m, n)[i * size + k] == m[i as u32][k],
    decreases n,
{
    assert((n - 1) * size + size == n * size) by (nonlinear_arith);
    assert(i * size + k < n * size) by (nonlinear_arith)
        requires
            i + 1 <= n,
            0 <= k < size,
    ;
    assert(m[(n - 1) as u32].len() == size);
    if i < n - 1 {
        lemma_joined(m, (n - 1) as nat, size, i, k);
    } else if n > 1 {
        lemma_joined(m, (n - 1) as nat, size, 0, k);
    } else {
        assert(file::joined(m, 0).len() == 0);
        assert(0 * size == 0) by (nonlinear_arith);
    }
}

/// What is longer than the file is cut off at its end.
pub proof fn lemma_cut(s: Seq<u8>, len: nat)
    ensures
        file::cut(s, len).len() == (if s.len() < len { s.len() } else { len }),
        forall|i: int| 0 <= i < file::cut(s, len).len() ==> #[trigger] file::cut(s, len)[i] == s[i],
{
}

/// Of the symbols that come under one id, the last one is kept.
pub proof fn lemma_last_kept(m: Map<u32, Seq<u8>>, list: Seq<(u32, Seq<u8>)>, i: int)
    requires
        0 <= i < list.len(),
        forall|j: int| i < j < list.len() ==> (#[trigger] list[j]).0 != list[i].0,
    ensures
        recv::stored(m, list).contains_key(list[i].0),
        recv::stored(m, list)[list[i].0] == list[i].1,
    decreases list.len(),
{
    let v = list.drop_last();
    if i < list.len() - 1 {
        assert(list[list.len() - 1].0 != list[i].0);
        assert(v[i] == list[i]);
        assert forall|j: int| i < j < v.len() implies (#[trigger] v[j]).0 != v[i].0 by {
            assert(list[j].0 != list[i].0);
        }
        lemma_last_kept(m, v, i);
    }
}

/// What was there under other ids stays, and nothing else comes.
pub proof fn lemma_others_kept(m: Map<u32, Seq<u8>>, list: Seq<(u32, Seq<u8>)>, id: u32)
    requires
        forall|i: int| 0 <= i < list.len() ==> (#[trigger] list[i]).0 != id,
    ensures
        recv::stored(m, list).contains_key(id) <==> m.contains_key(id),
        m.contains_key(id) ==> recv::stored(m, list)[id] == m[id],
    decreases list.len(),
{
    if list.len() > 0 {
        let v = list.drop_last();
        assert forall|i: int| 0 <= i < v.len() implies (#[trigger] v[i]).0 != id by {
            assert(list[i].0 != id);
        }
        assert(list[list.len() - 1].0 != id);
        lemma_others_kept(m, v, id);
    }
}

// ── Control frames ───────────────────────────────────────────────────────

/// A START frame: `DEL`, 255, the version 1, a zero byte, then the symbol size, the
/// number of symbols, the size of the file and its digest.
pub proof fn lemma_start_layout(m: StartModel)
    requires
        m.sha256.len() == 32,
    ensures
        ({
            let b = frames::start_bytes(m);
            &&& b.len() == 52
            &&& b[0] == 68 && b[1] == 69 && b[2] == 76
            &&& b[3] == 255
            &&& b[4] == 1
            &&& b[5] == 0
            &&& b[6] * 256 + b[7] == m.symbol_size
            &&& layout::spelled(b, 8) == m.n_symbols
            &&& layout::spelled(b, 12) * 0x1_0000_0000 + layout::spelled(b, 16) == m.file_size
            &&& b.subrange(20, 52) == m.sha256
        }),
{
    let b = frames::start_bytes(m);
    let hi = (m.file_size / 0x1_0000_0000) as u32;
    let lo = (m.file_size % 0x1_0000_0000) as u32;
    layout::lemma_spelled_short(m.symbol_size, b, 6);
    layout::lemma_spelled(m.n_symbols, b, 8);
    layout::lemma_spelled(hi, b, 12);
    layout::lemma_spelled(lo, b, 16);
    assert(b.subrange(6, 8) =~= be::be16(m.symbol_size));
    assert(be::be16(m.symbol_size)[0] == b[6] && be::be16(m.symbol_size)[1] == b[7]);
    lemma_four(b, 8, be::be32(m.n_symbols));
    lemma_four(b, 12, be::be32(hi));
    lemma_four(b, 16, be::be32(lo));
    assert(b.subrange(20, 52) =~= m.sha256);
}

proof fn lemma_four(b: Seq<u8>, at: int, four: Seq<u8>)
    requires
        four.len() == 4,
        0 <= at <= b.len() - 4,
        b[at] == four[0],
        b[at + 1] == four[1],
        b[at + 2] == four[2],
        b[at + 3] == four[3],
    ensures
        layout::spelled(b, at) == layout::spelled(four, 0),
{
}

/// A START frame is read exactly where it is long enough, begins with `DEL` and 255,
/// and has the version 1.  An END frame is `DEL` and 254.
pub proof fn lemma_start_read(b: Seq<u8>)
    ensures
        frames::start_from(b) is Ok <==> b.len() >= 52 && b[0] == 68 && b[1] == 69 && b[2] == 76
            && b[3] == 255 && b[4] == 1,
        frames::start_from(b) matches Ok(m) ==> m.symbol_size == b[6] * 256 + b[7] && m.n_symbols
            == layout::spelled(b, 8) && m.file_size == layout::spelled(b, 12) * 0x1_0000_0000
            + layout::spelled(b, 16) && m.sha256 == b.subrange(20, 52),
        frames::start_from(b) matches Err(e) ==> match e {
            StartError::TooShort(n) => b.len() < 52 && n == b.len() as usize,
            StartError::MissingMagic => b.len() >= 52 && (b[0] != 68 || b[1] != 69),
            StartError::MalformedHeader => b.len() >= 52 && b[0] == 68 && b[1] == 69 && (b[2] != 76
                || b[3] != 255),
            StartError::UnsupportedVersion(v) => b.len() >= 52 && b[3] == 255 && v == b[4] && v
                != 1,
        },
        frames::end_bytes() == seq![68u8, 69u8, 76u8, 254u8],
{
    layout::lemma_spelled_short(0, b, 6);
    layout::lemma_spelled(0, b, 8);
    layout::lemma_spelled(0, b, 12);
    layout::lemma_spelled(0, b, 16);
    assert(frames::end_bytes() =~= seq![68u8, 69u8, 76u8, 254u8]);
}

// ── Demos ────────────────────────────────────────────────────────────────

/// The highest generation is one that occurred, and none that occurred is higher.
pub proof fn lemma_highest(m: EncoderModel, n: nat, i: nat)
    requires
        i < n,
    ensures
        m.after_coded_n(i).generation <= demo::highest_generation(m, n),
        demo::highest_generation(m, n) == 0 || exists|j: nat|
            j < n && (#[trigger] m.after_coded_n(j)).generation == demo::highest_generation(m, n),
    decreases n,
{
    if n > 1 {
        if i < n - 1 {
            lemma_highest(m, (n - 1) as nat, i);
        } else {
            lemma_highest(m, (n - 1) as nat, 0);
        }
    } else {
        assert(demo::highest_generation(m, 0) == 0);
    }
    assert(m.after_coded_n((n - 1) as nat).generation <= demo::highest_generation(m, n));
}

/// The window of the demo is the one that was asked for, as far as a Cauchy matrix has
/// points for it.
pub proof fn lemma_demo_window(window: usize)
    ensures
        demo::altc_window(window, MatrixStrategy::Vandermonde) == window,
        demo::altc_window(window, MatrixStrategy::Cauchy) == (if window <= 128 {
            window
        } else {
            128
        }),
{
}

// ── Sending ──────────────────────────────────────────────────────────────

/// What the extra packet behind each symbol covers: nothing, the newest symbols, or
/// what the receiver has not acknowledged, as the settings say.
pub proof fn lemma_extra_cover(p: SendSettings, m: EncoderModel, id: u32)
    ensures
        p.altc == AltcMode::Off ==> p.cover(m).len() == 0,
        p.altc == AltcMode::Recent ==> p.cover(m).len() == (if p.altc_recent < m.window.len() {
            p.altc_recent as nat
        } else {
            m.window.len()
        }) && forall|i: int|
            0 <= i < p.cover(m).len() ==> #[trigger] p.cover(m)[i] == m.window[m.window.len()
                - p.cover(m).len() + i].0,
        p.altc == AltcMode::PerReceiver ==> (p.cover(m).contains(id) <==> windows::in_window(m, id)
            && !acks::acked_by(m.acks, p.receiver, id)),
{
    windows::lemma_recent_cover(m, p.altc_recent as nat);
    windows::lemma_receiver_cover(m, p.receiver, id);
}

/// The file is sent over the large field with a window that slides, at the rate and
/// with the matrix that were asked for.
pub proof fn lemma_send_params(p: SendSettings)
    ensures
        p.encoder().symbol_size == p.symbol_size,
        p.encoder().window_capacity == p.window,
        p.encoder().fec_numer == p.fec_n,
        p.encoder().fec_denom == p.fec_d,
        p.encoder().field == Field::Gf2_8,
        p.encoder().backpressure == BackpressureMode::EvictOldest,
        p.strategy == Strategy::Cauchy <==> p.encoder().matrix_strategy == MatrixStrategy::Cauchy,
{
}

/// The announcement says the size of the file, and as many symbols as hold it.
pub proof fn lemma_announced(tx: FileSender)
    requires
        tx.setup().symbol_size > 0,
        tx.setup().symbol_size <= u16::MAX,
        tx.contents().len() <= u32::MAX,
    ensures
        ({
            let a = tx.announcement();
            &&& a.symbol_size == tx.setup().symbol_size
            &&& a.file_size == tx.contents().len()
            &&& a.file_size <= a.n_symbols * a.symbol_size < a.file_size + a.symbol_size
            &&& a.sha256 == digest::sha256(tx.contents())
        }),
{
    let n = tx.total();
    let size = tx.setup().symbol_size as nat;
    file::lemma_count(tx.contents().len(), size);
    assert(n <= tx.contents().len()) by (nonlinear_arith)
        requires
            n * size < tx.contents().len() + size,
            size >= 1,
    ;
}

/// Each step sends the next symbol with the packets that go with it; the packets that
/// do not survive are counted, and the sender pauses after every 32nd symbol.
pub proof fn lemma_step_counts(pre: FileSender, b: Batch, post: FileSender)
    requires
        FileSender::stepped(pre, Ok(Some(b)), post),
    ensures
        post.position() == pre.position() + 1,
        b.pause <==> (pre.position() + 1) % 32 == 0,
        b.packets@.len() + b.dropped >= 1,
        pre.dice().percent == 0 ==> b.dropped == 0,
        pre.dice().percent >= 100 ==> b.packets@.len() == 0,
        post.dice().percent == pre.dice().percent,
{
    let (mid, out, extra) = lemma_step_parts(pre, b, post);
    lemma_diced(pre, encoder::outputs(out@) + if_any(extra), b, post);
    lemma_packets(pre.inner(), pre.current(), out, mid);
}

/// What a step is made of.
proof fn lemma_step_parts(pre: FileSender, b: Batch, post: FileSender) -> (r: (
    DefaultEncoder,
    Vec<EncoderOutput>,
    Option<EncoderOutput>,
))
    requires
        FileSender::stepped(pre, Ok(Some(b)), post),
    ensures
        Encoder::submitted(pre.inner(), pre.current(), Ok(r.1), r.0),
        post.position() == pre.position() + 1,
        FileSender::diced(pre, encoder::outputs(r.1@) + if_any(r.2), b, post),
        b.pause == (pre.position() % 32 == 31),
{
    choose|mid: DefaultEncoder, out: Vec<EncoderOutput>, extra: Option<EncoderOutput>| #[trigger]
        FileSender::encoded(pre, mid, out, extra, post) && FileSender::diced(
            pre,
            encoder::outputs(out@) + if_any(extra),
            b,
            post,
        )
}

/// Packets that do not survive are counted.
proof fn lemma_diced(pre: FileSender, all: Seq<OutputModel>, b: Batch, post: FileSender)
    requires
        FileSender::diced(pre, all, b, post),
    ensures
        b.packets@.len() + b.dropped == all.len(),
        pre.dice().percent == 0 ==> b.dropped == 0,
        pre.dice().percent >= 100 ==> b.packets@.len() == 0,
        post.dice().percent == pre.dice().percent,
{
    lemma_survivors(all, pre.dice().rng.state, pre.dice().percent);
    assert(encoder::outputs(b.packets@).len() == b.packets@.len());
}

/// A symbol that is accepted gives at least one packet.
proof fn lemma_packets(
    pre: DefaultEncoder,
    data: Seq<u8>,
    out: Vec<EncoderOutput>,
    post: DefaultEncoder,
)
    requires
        Encoder::submitted(pre, data, Ok(out), post),
    ensures
        encoder::outputs(out@).len() >= 1,
{
}

/// At the end two coded packets for each place of the window go out, or none where the
/// window is empty; the window stays.
pub proof fn lemma_flush_counts(pre: FileSender, b: Batch, post: FileSender)
    requires
        pre.inner().wf(),
        FileSender::flushed(pre, b, post),
    ensures
        pre.inner()@.window.len() == 0 ==> b.packets@.len() + b.dropped == 0,
        pre.inner()@.window.len() > 0 ==> b.packets@.len() + b.dropped == 2 * pre.setup().window,
        pre.dice().percent == 0 ==> b.dropped == 0,
        post.inner()@.window == pre.inner()@.window,
        !b.pause,
{
    let m = pre.inner()@;
    pre.inner().lemma_wf();
    session::lemma_after_coded_n(m, pre.closing());
    lemma_diced(pre, coded_run(m, pre.closing()), b, post);
}

// ── Numbers ──────────────────────────────────────────────────────────────

/// A digit is a character from `0` to `9`.
proof fn lemma_digit(c: char)
    ensures
        ratio::digit(c) <==> '0' <= c <= '9',
{
}

/// A number is written in digits, with a plus sign in front or without.
pub proof fn lemma_number(s: Seq<char>)
    ensures
        numeral(s) && ratio::decimal(s) <= usize::MAX ==> ratio::number_of(s) == Some(
            ratio::decimal(s) as usize,
        ),
        s.len() > 0 && s[0] == '+' && numeral(s.drop_first()) && ratio::decimal(s.drop_first())
            <= usize::MAX ==> ratio::number_of(s) == Some(
            ratio::decimal(s.drop_first()) as usize,
        ),
        ratio::number_of(s) is Some ==> numeral(s) || (s[0] == '+' && numeral(s.drop_first())),
{
    if numeral(s) {
        assert('0' <= s[0] <= '9');
    }
    if ratio::number_of(s) is Some {
        let d = ratio::digits_of(s);
        assert forall|i: int| 0 <= i < d.len() implies '0' <= #[trigger] d[i] <= '9' by {
            lemma_digit(d[i]);
            assert(ratio::digit(d[i]));
        }
        assert(numeral(d));
    }
}

/// A ratio is read around its first colon: what stands before it and what stands
/// behind it have to be numbers, and the second one not zero.
pub proof fn lemma_ratio_read(s: Seq<char>, at: int)
    requires
        0 <= at <= s.len(),
        at < s.len() ==> s[at] == ':',
        forall|i: int| 0 <= i < at ==> #[trigger] s[i] != ':',
    ensures
        ({
            let n = ratio::number_of(ratio::trimmed(s.take(at)));
            let d = ratio::number_of(ratio::trimmed(s.skip(at + 1)));
            match ratio::ratio_of(s) {
                Ok(r) => n == Some(r.0) && at < s.len() && d == Some(r.1) && r.1 > 0,
                Err(RatioError::InvalidNumerator) => n is None,
                Err(RatioError::MissingDenominator) => n is Some && at == s.len(),
                Err(RatioError::InvalidDenominator) => n is Some && at < s.len() && d is None,
                Err(RatioError::ZeroDenominator) => n is Some && at < s.len() && d == Some(0usize),
            }
        }),
{
    lemma_first_colon(s, at);
}

proof fn lemma_first_colon(s: Seq<char>, at: int)
    requires
        0 <= at <= s.len(),
        at < s.len() ==> s[at] == ':',
        forall|i: int| 0 <= i < at ==> #[trigger] s[i] != ':',
    ensures
        ratio::colon(s) == at,
    decreases s.len(),
{
    if at > 0 {
        let v = s.drop_first();
        assert(s[0] != ':');
        assert forall|i: int| 0 <= i < at - 1 implies #[trigger] v[i] != ':' by {
            assert(v[i] == s[i + 1]);
        }
        lemma_first_colon(v, at - 1);
    }
}

/// Among the characters of ASCII, white space is the space and those from the tab to
/// the carriage return.
pub proof fn lemma_white_space(c: char)
    requires
        (c as u32) < 128,
    ensures
        ratio::white_space(c) <==> c == ' ' || '\t' <= c <= '\r',
{
}

// ── Benchmarks ───────────────────────────────────────────────────────────

/// The datagrams of all submissions follow each other in order.
pub proof fn lemma_all_datagrams(
    a: Seq<Vec<EncoderOutput>>,
    b: Seq<Vec<EncoderOutput>>,
    out: Vec<EncoderOutput>,
)
    ensures
        bench::all_datagrams(a + b) == bench::all_datagrams(a) + bench::all_datagrams(b),
        bench::all_datagrams(seq![out]).len() == out@.len(),
        forall|i: int|
            0 <= i < out@.len() ==> #[trigger] bench::all_datagrams(seq![out])[i]
                == out@[i]@.bytes(),
        bench::all_datagrams(Seq::empty()).len() == 0,
    decreases b.len(),
{
    let one = seq![out];
    assert(one.drop_last() =~= Seq::empty());
    reveal_with_fuel(bench::all_datagrams, 2);
    if b.len() == 0 {
        assert(a + b =~= a);
        assert(bench::all_datagrams(a) + bench::all_datagrams(b) =~= bench::all_datagrams(a));
    } else {
        lemma_all_datagrams(a, b.drop_last(), out);
        assert((a + b).drop_last() =~= a + b.drop_last());
        assert((a + b).last() == b.last());
        let d = sender::datagrams(encoder::outputs(b.last()@));
        assert((bench::all_datagrams(a) + bench::all_datagrams(b.drop_last())) + d
            =~= bench::all_datagrams(a) + (bench::all_datagrams(b.drop_last()) + d));
    }
}

/// Every symbol that is ready counts once.
pub proof fn lemma_ready_count(told: Seq<Vec<DecoderEvent>>, events: Vec<DecoderEvent>)
    ensures
        bench::ready_count(told.push(events)) == bench::ready_count(told)
            + receiver::ready_among(decoder::events_of(events@)).len(),
        bench::ready_count(Seq::empty()) == 0,
{
    assert(told.push(events).drop_last() =~= told);
}

/// A benchmark sends one coded packet per symbol with a window that slides, and sends
/// no feedback for as long as can be said.
pub proof fn lemma_bench_params(size: usize, window: usize, strategy: Strategy)
    ensures
        ({
            let p = bench::encoder_params(size, window, strategy);
            &&& p.symbol_size == size
            &&& p.window_capacity == window
            &&& p.fec_numer == p.fec_denom == 1
            &&& p.field == Field::Gf2_8
            &&& p.backpressure == BackpressureMode::EvictOldest
            &&& p.matrix_strategy == MatrixStrategy::Cauchy <==> strategy == Strategy::Cauchy
        }),
        bench::decoder_params(size).symbol_size == size,
        bench::decoder_params(size).field == Field::Gf2_8,
        bench::decoder_params(size).max_matrix_rows == 512,
        bench::decoder_params(size).feedback_every == u32::MAX,
{
}

// ── Receiving ────────────────────────────────────────────────────────────

/// A datagram with 254 in its fourth byte ends the transfer, and no other does.  It
/// brings no symbol.
pub proof fn lemma_received_end(pre: FileReceiver, raw: Seq<u8>, post: FileReceiver)
    requires
        FileReceiver::received(pre, raw, post),
    ensures
        post.over() <==> pre.over() || (raw.len() >= 4 && raw[3] == 254),
        raw.len() >= 4 && raw[3] == 254 ==> post.delivered() == pre.delivered() && post.inner()
            == pre.inner(),
        post.announced() == pre.announced(),
{
}

/// A received file: it is there exactly where every symbol is, and otherwise the first
/// id that is missing is reported.  Each byte comes from its place in its symbol, up to
/// the size that was announced, and the file counts as verified exactly where its digest
/// is the announced one.
pub proof fn lemma_received_file(
    rx: FileReceiver,
    r: core::result::Result<ReceivedFile, u32>,
    size: nat,
    i: nat,
    k: int,
)
    requires
        rx.finished(r),
        forall|id: u32|
            id < rx.announced().n_symbols ==> (#[trigger] rx.delivered()[id]).len() == size,
        rx.announced().n_symbols < u32::MAX,
        i < rx.announced().n_symbols,
        0 <= k < size,
    ensures
        r is Ok <==> forall|id: u32|
            id < rx.announced().n_symbols ==> #[trigger] rx.delivered().contains_key(id),
        r matches Err(id) ==> id < rx.announced().n_symbols && !rx.delivered().contains_key(id)
            && forall|j: u32| j < id ==> #[trigger] rx.delivered().contains_key(j),
        r matches Ok(f) ==> (f.verified <==> digest::sha256(f.data@) == rx.announced().sha256) && (
        rx.announced().file_size <= rx.announced().n_symbols * size ==> f.data@.len()
            == rx.announced().file_size) && (i * size + k < f.data@.len() ==> f.data@[i * size + k]
            == rx.delivered()[i as u32][k]),
{
    let n = rx.announced().n_symbols as nat;
    lemma_joined(rx.delivered(), n, size, i, k);
    lemma_cut(file::joined(rx.delivered(), n), rx.announced().file_size as nat);
    if let Err(id) = r {
        assert(!rx.delivered().contains_key(id));
    }
}

/// The packet of the symbol comes first in its step, where nothing is lost.
pub proof fn lemma_step_symbol(pre: FileSender, b: Batch, post: FileSender)
    requires
        pre.wf(),
        pre.dice().percent == 0,
        FileSender::stepped(pre, Ok(Some(b)), post),
    ensures
        b.packets@.len() >= 1,
        windows::carries(
            b.packets@[0]@,
            pre.inner()@.next_id,
            file::chunk_of(pre.contents(), pre.setup().symbol_size as nat, pre.position()),
        ),
{
    let (mid, out, extra) = lemma_step_parts(pre, b, post);
    let all = encoder::outputs(out@) + if_any(extra);
    lemma_diced(pre, all, b, post);
    lemma_survivors(all, pre.dice().rng.state, 0);
    pre.lemma_wf();
    windows::lemma_submission_source(pre.inner(), pre.current(), out, mid);
    assert(encoder::outputs(b.packets@)[0] == b.packets@[0]@);
    assert(all[0] == out@[0]@);
}

/// The demo of targeted packets compares what it says: a packet over the whole window
/// with one over the newest symbols.
pub proof fn lemma_demo_cover(window: usize, size: usize, cover: usize, strategy: MatrixStrategy)
    requires
        demo::altc_params(window, size, strategy).rejection() is None,
        demo::altc_window(window, strategy) <= 255,
        cover > 0,
    ensures
        demo::altc_report(window, size, cover, strategy) is Ok,
        ({
            let n = demo::altc_window(window, strategy);
            let r = demo::altc_report(window, size, cover, strategy)->Ok_0;
            &&& r.full_ids == n
            &&& r.recent_ids == (if cover < n { cover } else { n })
        }),
{
    let n = demo::altc_window(window, strategy);
    let p = demo::altc_params(window, size, strategy);
    let data = demo::altc_symbol(size);
    let m = demo::filled(p, data, n as nat);
    demo::lemma_filled(p, data, n as nat);
    lemma_filled_acks(p, data, n as nat);
    assert(transfer::undisturbed(m));
    let few: nat = if cover < n { cover as nat } else { n as nat };
    lemma_two_packets(m, few);
    assert(demo::least(cover, n) as nat == few);
}

/// A packet over the window and the next one over its newest symbols are both read.
proof fn lemma_two_packets(m: EncoderModel, few: nat)
    requires
        m.wf(),
        transfer::undisturbed(m),
        m.params.window_capacity <= 255,
        0 < few <= m.window.len(),
    ensures
        ({
            let m1 = m.after_coded();
            let full = coded::coded_from(m.coded_packet(m.ids(), Seq::empty()));
            let recent = coded::coded_from(m1.coded_packet(m1.recent(few), Seq::empty()));
            &&& full is Ok
            &&& full->Ok_0.ev.ids.len() == m.window.len()
            &&& recent is Ok
            &&& recent->Ok_0.ev.ids.len() == few
        }),
{
    let m1 = m.after_coded();
    let n = m.window.len() as int;
    lemma_next(m);
    transfer::lemma_undisturbed(m, Seq::empty(), 1);
    session::lemma_after_coded_n(m, 1);
    windows::lemma_ids(m);
    windows::lemma_ids(m1);
    windows::lemma_recent_cover(m1, few);
    assert(transfer::newest_from(m, 0) =~= m.ids());
    assert(transfer::newest_from(m1, n - few) =~= m1.recent(few));
    transfer::lemma_newest_fit(m, 0);
    transfer::lemma_newest_fit(m1, n - few);
    session::lemma_coded_packet_read(m, m.ids(), Seq::empty());
    session::lemma_coded_packet_read(m1, m1.recent(few), Seq::empty());
}

/// One coded packet is the first of several.
proof fn lemma_next(m: EncoderModel)
    ensures
        m.after_coded() == m.after_coded_n(1),
{
    reveal_with_fuel(EncoderModel::after_coded_n, 2);
}

proof fn lemma_filled_acks(p: EncoderParams, data: spec_fn(nat) -> Seq<u8>, n: nat)
    ensures
        demo::filled(p, data, n).acks == Map::<u64, acks::AckModel>::empty(),
    decreases n,
{
    if n > 0 {
        lemma_filled_acks(p, data, (n - 1) as nat);
    }
}

/// The demo of the generations fills a Cauchy window with symbols that depend on their
/// number, and sends no coded packet of its own accord.
pub proof fn lemma_rotation(n: usize, i: nat, j: int)
    requires
        0 <= j < 64,
    ensures
        demo::rotation_params(n).symbol_size == 64,
        demo::rotation_params(n).window_capacity == (if n == 0 { 1 } else { n }),
        demo::rotation_params(n).fec_numer == 0,
        demo::rotation_params(n).fec_denom == 1,
        demo::rotation_params(n).field == Field::Gf2_8,
        demo::rotation_params(n).matrix_strategy == MatrixStrategy::Cauchy,
        demo::rotation_params(n).backpressure == BackpressureMode::Reject,
        demo::rotation_symbol()(i).len() == 64,
        demo::rotation_symbol()(i)[j] == (31 * i + 7 * j) % 256,
{
}

} // verus!
