//! Signed decimal numbers with at most one fractional digit, held as a count of tenths.

use vstd::prelude::*;
use crate::search::{find_from, lemma_find_from, lemma_find_from_unique};

verus! {

/// The minus sign.
pub const MINUS: u8 = 0x2d;

/// The decimal point.
pub const POINT: u8 = 0x2e;

/// The digit zero.
pub const ZERO: u8 = 0x30;

/// Whether `byte` is one of the digits `0` to `9`.
pub open spec fn is_digit(byte: u8) -> bool {
    0x30 <= byte <= 0x39
}

/// Whether `s` holds digits only.
pub open spec fn all_digits(s: Seq<u8>) -> bool {
    forall|i: int| 0 <= i < s.len() ==> is_digit(#[trigger] s[i])
}

/// The number that a run of digits denotes in base ten; zero for the empty run.
pub open spec fn digits_value(s: Seq<u8>) -> nat
    decreases s.len(),
{
    if s.len() == 0 {
        0
    } else {
        (10 * digits_value(s.drop_last()) + (s.last() - 0x30)) as nat
    }
}

/// Whether the text starts with a minus sign.
pub open spec fn is_negative(s: Seq<u8>) -> bool {
    s.len() > 0 && s[0] == MINUS
}

/// The text after the sign, if there is one.
pub open spec fn unsigned_part(s: Seq<u8>) -> Seq<u8> {
    if is_negative(s) {
        s.skip(1)
    } else {
        s
    }
}

/// The digits before the decimal point.
pub open spec fn whole_part(s: Seq<u8>) -> Seq<u8> {
    let m = unsigned_part(s);
    m.subrange(0, find_from(m, POINT, 0))
}

/// The text after the first decimal point; empty where there is no point.
pub open spec fn fraction_part(s: Seq<u8>) -> Seq<u8> {
    let m = unsigned_part(s);
    let p = find_from(m, POINT, 0);
    if p < m.len() {
        m.subrange(p + 1, m.len() as int)
    } else {
        Seq::empty()
    }
}

/// Whether `s` is a decimal number of the accepted form: an optional minus sign, digits, and
/// optionally a point followed by at most one digit, with at least one digit in all.
pub open spec fn is_decimal(s: Seq<u8>) -> bool {
    &&& all_digits(whole_part(s))
    &&& all_digits(fraction_part(s))
    &&& fraction_part(s).len() <= 1
    &&& whole_part(s).len() + fraction_part(s).len() >= 1
}

/// Ten times the number that the decimal `s` denotes.
pub open spec fn tenths(s: Seq<u8>) -> int {
    let f = fraction_part(s);
    let magnitude = 10 * digits_value(whole_part(s)) + (if f.len() == 1 {
        f[0] - 0x30
    } else {
        0
    });
    if is_negative(s) {
        -magnitude
    } else {
        magnitude
    }
}

/// The value of `s` in tenths, where `s` is a decimal whose tenths fit an `i32`.
pub open spec fn parse_tenths(s: Seq<u8>) -> Option<i32> {
    if is_decimal(s) && i32::MIN <= tenths(s) <= i32::MAX {
        Some(tenths(s) as i32)
    } else {
        None
    }
}

/// A run of digits denotes at least what any of its prefixes denotes.
pub proof fn lemma_digits_value_prefix(s: Seq<u8>, k: int)
    requires
        all_digits(s),
        0 <= k <= s.len(),
    ensures
        digits_value(s.subrange(0, k)) <= digits_value(s),
    decreases s.len(),
{
    if k == s.len() {
        assert(s.subrange(0, k) == s);
    } else {
        assert(s.drop_last().subrange(0, k) == s.subrange(0, k));
        assert(is_digit(s[s.len() - 1]));
        assert(all_digits(s.drop_last())) by {
            assert forall|i: int| 0 <= i < s.drop_last().len() implies is_digit(
                #[trigger] s.drop_last()[i],
            ) by {
                assert(s.drop_last()[i] == s[i]);
            }
        }
        lemma_digits_value_prefix(s.drop_last(), k);
    }
}

/// A decimal of the accepted form holds digits, minus signs and points only.
pub proof fn lemma_decimal_bytes(s: Seq<u8>, i: int)
    requires
        is_decimal(s),
        0 <= i < s.len(),
    ensures
        is_digit(s[i]) || s[i] == MINUS || s[i] == POINT,
{
    let m = unsigned_part(s);
    let p = find_from(m, POINT, 0);
    lemma_find_from(m, POINT, 0);
    let k = if is_negative(s) { i - 1 } else { i };
    if k >= 0 {
        assert(m[k] == s[i]);
        if k < p {
            assert(whole_part(s)[k] == m[k]);
        } else if k > p {
            assert(fraction_part(s)[k - p - 1] == m[k]);
        }
    }
}

/// What a run of digits at the start of the unsigned part says of the whole text,
/// by the byte that follows the run.
proof fn lemma_digits_then(s: Seq<u8>, run: int)
    requires
        0 <= run <= unsigned_part(s).len(),
        all_digits(unsigned_part(s).subrange(0, run)),
    ensures
        ({
            let m = unsigned_part(s);
            &&& run == m.len() ==> whole_part(s) == m.subrange(0, run) && fraction_part(s).len()
                == 0
            &&& run < m.len() && m[run] == POINT ==> whole_part(s) == m.subrange(0, run)
                && fraction_part(s) == m.skip(run + 1)
            &&& run < m.len() && m[run] != POINT && !is_digit(m[run]) ==> !is_decimal(s)
            &&& is_decimal(s) ==> digits_value(m.subrange(0, run)) <= digits_value(whole_part(s))
        }),
{
    let m = unsigned_part(s);
    let p = find_from(m, POINT, 0);
    let seen = m.subrange(0, run);
    lemma_find_from(m, POINT, 0);
    assert forall|j: int| 0 <= j < run implies m[j] != POINT by {
        assert(m[j] == seen[j]);
        assert(is_digit(seen[j]));
    }
    assert(p >= run);
    if run == m.len() {
    } else if m[run] == POINT {
        lemma_find_from_unique(m, POINT, 0, run);
        assert(m.subrange(run + 1, m.len() as int) == m.skip(run + 1));
    } else if !is_digit(m[run]) {
        assert(whole_part(s)[run] == m[run]);
    }
    if is_decimal(s) {
        assert(whole_part(s).subrange(0, run) == seen);
        lemma_digits_value_prefix(whole_part(s), run);
    }
}

/// Reads a decimal number as a count of tenths.
///
/// The result is `None` where the text is not a decimal of the accepted form, and where its
/// value in tenths does not fit an `i32`.
pub fn fixed_point_parse(b: &[u8]) -> (r: Option<i32>)
    ensures
        r == parse_tenths(b@),
{
    let n: usize = b.len();
    let negative: bool = n > 0 && b[0] == MINUS;
    let start: usize = if negative {
        1
    } else {
        0
    };
    let ghost m = unsigned_part(b@);
    let mut i: usize = start;
    let mut acc: i64 = 0;
    assert(m.subrange(0, 0) == Seq::<u8>::empty());
    while i < n && b[i] >= 0x30 && b[i] <= 0x39
        invariant
            start <= i <= n,
            n == b@.len(),
            m == b@.skip(start as int),
            m == unsigned_part(b@),
            all_digits(m.subrange(0, i - start)),
            acc == digits_value(m.subrange(0, i - start)),
            acc <= 0x8000_0000,
        decreases n - i,
    {
        let ghost before = m.subrange(0, i - start);
        let ghost after = m.subrange(0, i + 1 - start);
        proof {
            assert(after.drop_last() == before);
            assert(after.last() == b@[i as int]);
            assert forall|j: int| 0 <= j < after.len() implies is_digit(#[trigger] after[j]) by {
                if j < before.len() {
                    assert(after[j] == before[j]);
                }
            }
        }
        acc = acc * 10 + (b[i] - 0x30) as i64;
        if acc > 0x8000_0000 {
            proof {
                lemma_digits_then(b@, i + 1 - start);
            }
            return None;
        }
        i += 1;
    }
    proof {
        lemma_digits_then(b@, i - start);
        if i < n {
            assert(m[i - start] == b@[i as int]);
        }
    }
    let mut magnitude: i64 = acc * 10;
    if i == n {
        if i == start {
            return None;
        }
    } else if b[i] == POINT {
        if i + 1 == n {
            if i == start {
                return None;
            }
        } else if i + 2 == n && b[i + 1] >= 0x30 && b[i + 1] <= 0x39 {
            assert(fraction_part(b@)[0] == b@[i + 1]);
            magnitude = magnitude + (b[i + 1] - 0x30) as i64;
        } else {
            proof {
                if i + 2 == n {
                    assert(fraction_part(b@)[0] == b@[i + 1]);
                }
            }
            return None;
        }
    } else {
        return None;
    }
    if negative {
        if magnitude > 0x8000_0000 {
            None
        } else {
            Some((-magnitude) as i32)
        }
    } else {
        if magnitude > 0x7fff_ffff {
            None
        } else {
            Some(magnitude as i32)
        }
    }
}

/// The digits of `n` in base ten, from the most significant on; the digit zero for zero.
pub open spec fn digits_of(n: nat) -> Seq<u8>
    decreases n,
{
    if n < 10 {
        seq![(0x30 + n) as u8]
    } else {
        digits_of(n / 10).push((0x30 + n % 10) as u8)
    }
}

/// A count of tenths written as a decimal: a minus sign for a negative count, the digits
/// of the whole part, a point, and one fractional digit.
pub open spec fn tenths_text(v: int) -> Seq<u8> {
    let magnitude = if v < 0 {
        -v
    } else {
        v
    };
    let sign = if v < 0 {
        seq![MINUS]
    } else {
        Seq::empty()
    };
    sign + digits_of((magnitude / 10) as nat) + seq![POINT, (0x30 + magnitude % 10) as u8]
}

/// The digits of a number are digits, at least one, and denote the number.
pub proof fn lemma_digits_of(n: nat)
    ensures
        digits_of(n).len() >= 1,
        all_digits(digits_of(n)),
        digits_value(digits_of(n)) == n,
    decreases n,
{
    if n < 10 {
        let d = digits_of(n);
        assert(d.drop_last() == Seq::<u8>::empty());
        assert(digits_value(d.drop_last()) == 0);
    } else {
        let head = digits_of(n / 10);
        let last = (0x30 + n % 10) as u8;
        lemma_digits_of(n / 10);
        assert(head.push(last).drop_last() == head);
        assert forall|i: int| 0 <= i < head.push(last).len() implies is_digit(
            #[trigger] head.push(last)[i],
        ) by {
            if i < head.len() {
                assert(head.push(last)[i] == head[i]);
            }
        }
    }
}

/// Numeric round trip: a count of tenths, written as a decimal and read again, is the same
/// count.
pub proof fn lemma_text_round_trip(v: i32)
    ensures
        is_decimal(tenths_text(v as int)),
        parse_tenths(tenths_text(v as int)) == Some(v),
{
    let s = tenths_text(v as int);
    let magnitude: int = if v < 0 {
        -v
    } else {
        v as int
    };
    let whole = digits_of((magnitude / 10) as nat);
    let last = (0x30 + magnitude % 10) as u8;
    let tail = seq![POINT, last];
    lemma_digits_of((magnitude / 10) as nat);
    let m = unsigned_part(s);
    if v < 0 {
        assert(s[0] == MINUS);
        assert(s.skip(1) == whole + tail);
    } else {
        assert(s[0] == whole[0]);
        assert(is_digit(whole[0]));
        assert(s == whole + tail);
    }
    assert(m == whole + tail);
    assert forall|j: int| 0 <= j < whole.len() implies m[j] != POINT by {
        assert(m[j] == whole[j]);
        assert(is_digit(whole[j]));
    }
    assert(m[whole.len() as int] == POINT);
    lemma_find_from_unique(m, POINT, 0, whole.len() as int);
    assert(whole_part(s) == whole);
    assert(fraction_part(s) == seq![last]);
    assert(is_digit(seq![last][0]));
}

/// Appends the digits of `n`.
fn push_digits(n: u32, out: &mut Vec<u8>)
    ensures
        final(out)@ == old(out)@ + digits_of(n as nat),
    decreases n,
{
    if n >= 10 {
        push_digits(n / 10, out);
    }
    out.push(0x30 + (n % 10) as u8);
    assert(final(out)@ == old(out)@ + digits_of(n as nat));
}

/// Writes a count of tenths as a decimal with one fractional digit.
pub fn format_tenths(v: i32) -> (text: Vec<u8>)
    ensures
        text@ == tenths_text(v as int),
        parse_tenths(text@) == Some(v),
{
    let wide: i64 = v as i64;
    let magnitude: i64 = if wide < 0 {
        -wide
    } else {
        wide
    };
    let mut text: Vec<u8> = Vec::new();
    if wide < 0 {
        text.push(MINUS);
    }
    push_digits((magnitude / 10) as u32, &mut text);
    text.push(POINT);
    text.push(0x30 + (magnitude % 10) as u8);
    proof {
        lemma_text_round_trip(v);
        assert(text@ == tenths_text(v as int));
    }
    text
}

} // verus!
