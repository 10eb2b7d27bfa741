//! FEC ratios as text: `N:D` stands for `N` coded packets per `D` source packets.
use vstd::prelude::*;

verus! {

/// Why a text is no FEC ratio.
#[derive(Debug, Clone, Copy, PartialEq, Eq, Structural)]
pub enum RatioError {
    /// What stands before the colon is no number.
    InvalidNumerator,
    /// There is no colon.
    MissingDenominator,
    /// What stands behind the colon is no number.
    InvalidDenominator,
    /// The number behind the colon is zero.
    ZeroDenominator,
}

/// White space as Unicode defines it.
pub open spec fn white_space(c: char) -> bool {
    let u = c as u32;
    ||| 0x09 <= u <= 0x0d
    ||| u == 0x20
    ||| u == 0x85
    ||| u == 0xa0
    ||| u == 0x1680
    ||| 0x2000 <= u <= 0x200a
    ||| u == 0x2028
    ||| u == 0x2029
    ||| u == 0x202f
    ||| u == 0x205f
    ||| u == 0x3000
}

/// `s` without the white space at both ends.
pub open spec fn trimmed(s: Seq<char>) -> Seq<char>
    decreases s.len(),
{
    if s.len() == 0 {
        s
    } else if white_space(s.first()) {
        trimmed(s.drop_first())
    } else if white_space(s.last()) {
        trimmed(s.drop_last())
    } else {
        s
    }
}

/// A decimal digit.
pub open spec fn digit(c: char) -> bool {
    '0' as u32 <= c as u32 <= '9' as u32
}

/// The number that decimal digits stand for.
pub open spec fn decimal(s: Seq<char>) -> nat
    decreases s.len(),
{
    if s.len() == 0 {
        0
    } else {
        10 * decimal(s.drop_last()) + (s.last() as u32 - '0' as u32) as nat
    }
}

/// The digits of a number: a plus sign may stand before them.
pub open spec fn digits_of(s: Seq<char>) -> Seq<char> {
    if s.len() > 1 && s[0] == '+' {
        s.drop_first()
    } else {
        s
    }
}

/// The number that a text stands for, if it does for one that fits.
pub open spec fn number_of(s: Seq<char>) -> Option<usize> {
    let d = digits_of(s);
    if d.len() > 0 && (forall|i: int| 0 <= i < d.len() ==> digit(#[trigger] d[i])) && decimal(d)
        <= usize::MAX {
        Some(decimal(d) as usize)
    } else {
        None
    }
}

/// The place of the first colon, or the length if there is none.
pub open spec fn colon(s: Seq<char>) -> int
    decreases s.len(),
{
    if s.len() == 0 || s[0] == ':' {
        0
    } else {
        1 + colon(s.drop_first())
    }
}

/// The ratio that a text stands for.
pub open spec fn ratio_of(s: Seq<char>) -> core::result::Result<(usize, usize), RatioError> {
    let at = colon(s);
    match number_of(trimmed(s.take(at))) {
        None => Err(RatioError::InvalidNumerator),
        Some(n) => if at >= s.len() {
            Err(RatioError::MissingDenominator)
        } else {
            match number_of(trimmed(s.skip(at + 1))) {
                None => Err(RatioError::InvalidDenominator),
                Some(d) => if d == 0 {
                    Err(RatioError::ZeroDenominator)
                } else {
                    Ok((n, d))
                },
            }
        },
    }
}

fn is_white_space(c: char) -> (r: bool)
    ensures
        r == white_space(c),
{
    let u: u32 = c as u32;
    (0x09 <= u && u <= 0x0d) || u == 0x20 || u == 0x85 || u == 0xa0 || u == 0x1680 || (0x2000 <= u
        && u <= 0x200a) || u == 0x2028 || u == 0x2029 || u == 0x202f || u == 0x205f || u == 0x3000
}

/// Leaves out the white space at both ends.
fn trim(s: &[char]) -> (r: &[char])
    ensures
        r@ == trimmed(s@),
{
    let mut i: usize = 0;
    let mut j: usize = s.len();
    assert(s@.subrange(0, j as int) =~= s@);
    while i < j && is_white_space(s[i])
        invariant
            i <= j == s@.len(),
            trimmed(s@) == trimmed(s@.subrange(i as int, j as int)),
        decreases j - i,
    {
        let ghost part = s@.subrange(i as int, j as int);
        assert(part.first() == s@[i as int]);
        i += 1;
        assert(part.drop_first() =~= s@.subrange(i as int, j as int));
    }
    while i < j && is_white_space(s[j - 1])
        invariant
            i <= j <= s@.len(),
            i < j ==> !white_space(s@[i as int]),
            trimmed(s@) == trimmed(s@.subrange(i as int, j as int)),
        decreases j - i,
    {
        let ghost part = s@.subrange(i as int, j as int);
        assert(part.first() == s@[i as int]);
        assert(part.last() == s@[j - 1]);
        j -= 1;
        assert(part.drop_last() =~= s@.subrange(i as int, j as int));
    }
    proof {
        let part = s@.subrange(i as int, j as int);
        if part.len() > 0 {
            assert(part.first() == s@[i as int]);
            assert(part.last() == s@[j - 1]);
        }
    }
    vstd::slice::slice_subrange(s, i, j)
}

/// Every digit makes the number larger.
proof fn lemma_decimal_grows(s: Seq<char>, i: int)
    requires
        0 <= i <= s.len(),
        forall|j: int| 0 <= j < s.len() ==> digit(#[trigger] s[j]),
    ensures
        decimal(s.take(i)) <= decimal(s),
    decreases s.len(),
{
    if i == s.len() {
        assert(s.take(i) =~= s);
    } else {
        let t = s.drop_last();
        assert forall|j: int| 0 <= j < t.len() implies digit(#[trigger] t[j]) by {
            assert(t[j] == s[j]);
        }
        lemma_decimal_grows(t, i);
        assert(t.take(i) =~= s.take(i));
        assert(digit(s[s.len() - 1]));
    }
}

/// Reads a number.
fn parse_number(s: &[char]) -> (r: Option<usize>)
    ensures
        r == number_of(s@),
{
    let start: usize = if s.len() > 1 && s[0] == '+' {
        1
    } else {
        0
    };
    let d: &[char] = vstd::slice::slice_subrange(s, start, s.len());
    assert(d@ =~= digits_of(s@));
    if d.len() == 0 {
        return None;
    }
    let mut n: usize = 0;
    let mut i: usize = 0;
    assert(d@.take(0) =~= Seq::<char>::empty());
    while i < d.len()
        invariant
            i <= d@.len(),
            d@.len() > 0,
            d@ == digits_of(s@),
            n == decimal(d@.take(i as int)),
            forall|j: int| 0 <= j < i ==> digit(#[trigger] d@[j]),
        decreases d@.len() - i,
    {
        let c: char = d[i];
        let u: u32 = c as u32;
        if u < 48 || u > 57 {
            assert(!digit(d@[i as int]));
            return None;
        }
        let v: usize = (u - 48) as usize;
        let ghost next = d@.take(i + 1);
        proof {
            assert(next.drop_last() =~= d@.take(i as int));
            assert(next.last() == c);
            assert(decimal(next) == 10 * n + v);
        }
        if n > (usize::MAX - v) / 10 {
            proof {
                assert(10 * n + v > usize::MAX);
                if forall|j: int| 0 <= j < d@.len() ==> digit(#[trigger] d@[j]) {
                    lemma_decimal_grows(d@, i + 1);
                }
            }
            return None;
        }
        n = n * 10 + v;
        i += 1;
    }
    assert(d@.take(d@.len() as int) =~= d@);
    Some(n)
}

/// Where the first colon is.
fn find_colon(s: &[char]) -> (r: usize)
    ensures
        r == colon(s@),
        r <= s@.len(),
{
    let mut i: usize = 0;
    assert(s@.skip(0) =~= s@);
    while i < s.len() && s[i] != ':'
        invariant
            i <= s@.len(),
            colon(s@) == i + colon(s@.skip(i as int)),
        decreases s@.len() - i,
    {
        let ghost rest = s@.skip(i as int);
        assert(rest[0] == s@[i as int]);
        i += 1;
        assert(rest.drop_first() =~= s@.skip(i as int));
    }
    proof {
        let rest = s@.skip(i as int);
        if i < s@.len() {
            assert(rest[0] == s@[i as int]);
        }
    }
    i
}

/// Reads an FEC ratio.
pub fn parse_fec_ratio(text: &str) -> (r: core::result::Result<(usize, usize), RatioError>)
    ensures
        r == ratio_of(text@),
{
    let mut chars: Vec<char> = Vec::new();
    for c in it: text.chars()
        invariant
            chars@.len() == it.index(),
            it.seq() == text@,
            forall|i: int| 0 <= i < chars@.len() ==> chars@[i] == it.seq()[i],
    {
        chars.push(c);
    }
    assert(chars@ =~= text@);
    let s: &[char] = chars.as_slice();
    let at: usize = find_colon(s);
    let left: &[char] = vstd::slice::slice_subrange(s, 0, at);
    assert(left@ =~= s@.take(at as int));
    let numer: usize = match parse_number(trim(left)) {
        Some(n) => n,
        None => return Err(RatioError::InvalidNumerator),
    };
    if at >= s.len() {
        return Err(RatioError::MissingDenominator);
    }
    let right: &[char] = vstd::slice::slice_subrange(s, at + 1, s.len());
    assert(right@ =~= s@.skip(at + 1));
    let denom: usize = match parse_number(trim(right)) {
        Some(d) => d,
        None => return Err(RatioError::InvalidDenominator),
    };
    if denom == 0 {
        return Err(RatioError::ZeroDenominator);
    }
    Ok((numer, denom))
}

} // verus!
