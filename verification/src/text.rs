//! Joining strings, and what a list of strings is as a value.

use vstd::prelude::*;

verus! {

/// The values of a list of strings.
pub open spec fn strs(v: Seq<String>) -> Seq<Seq<char>> {
    Seq::new(v.len(), |i: int| v[i]@)
}

/// No text occurs twice.
pub open spec fn distinct(texts: Seq<Seq<char>>) -> bool {
    forall|i: int, j: int| 0 <= i < j < texts.len() ==> texts[i] != texts[j]
}

/// Whether the text is among the texts.
pub fn among(texts: &Vec<String>, text: &String) -> (r: bool)
    ensures
        r == strs(texts@).contains(text@),
{
    let mut i: usize = 0;
    while i < texts.len()
        invariant
            i <= texts.len(),
            forall|k: int| 0 <= k < i ==> strs(texts@)[k] != text@,
        decreases texts.len() - i,
    {
        if texts[i] == *text {
            proof {
                assert(strs(texts@)[i as int] == text@);
            }
            return true;
        }
        i += 1;
    }
    false
}

/// The parts in order, with `sep` between each two of them.
pub open spec fn joined(parts: Seq<Seq<char>>, sep: Seq<char>) -> Seq<char>
    decreases parts.len(),
{
    if parts.len() == 0 {
        Seq::empty()
    } else if parts.len() == 1 {
        parts[0]
    } else {
        joined(parts.drop_last(), sep) + sep + parts.last()
    }
}

/// Joins the strings with `sep` between each two of them.
///
/// Trusted: this is `itertools::join` on a slice of strings. It writes each
/// element as `Display` shows it, which for a string is the string itself,
/// and writes `sep` before every element but the first.
#[verifier::external_body]
pub(crate) fn join(parts: &Vec<String>, sep: &str) -> (r: String)
    ensures
        r@ == joined(strs(parts@), sep@),
{
    itertools::join(parts, sep)
}

/// Whether the character is one of the decimal digits `0` to `9`.
pub open spec fn is_digit(c: char) -> bool {
    '0' <= c <= '9'
}

/// Whether every character is a decimal digit.
pub open spec fn all_digits(ds: Seq<char>) -> bool {
    forall|i: int| 0 <= i < ds.len() ==> is_digit(#[trigger] ds[i])
}

/// The number that a sequence of decimal digits writes.
pub open spec fn digits_value(ds: Seq<char>) -> int
    decreases ds.len(),
{
    if ds.len() == 0 {
        0
    } else {
        digits_value(ds.drop_last()) * 10 + (ds.last() as int - '0' as int)
    }
}

/// The 64-bit signed integer that a text writes in decimal: an optional
/// sign `+` or `-`, then at least one digit and nothing else, leading zeros
/// allowed. `None` for any other text, and for a number out of range.
pub open spec fn decimal_i64(s: Seq<char>) -> Option<int> {
    let negative = s.len() > 0 && s[0] == '-';
    let signed = s.len() > 0 && (s[0] == '-' || s[0] == '+');
    let ds = if signed {
        s.skip(1)
    } else {
        s
    };
    let value = if negative {
        -digits_value(ds)
    } else {
        digits_value(ds)
    };
    if ds.len() > 0 && all_digits(ds) && i64::MIN <= value <= i64::MAX {
        Some(value)
    } else {
        None
    }
}

/// The value of digits is not negative, and does not shrink when more
/// digits follow.
pub proof fn lemma_digits_grow(ds: Seq<char>, k: int)
    requires
        all_digits(ds),
        0 <= k <= ds.len(),
    ensures
        0 <= digits_value(ds.take(k)) <= digits_value(ds),
    decreases ds.len() - k,
{
    lemma_digits_nonnegative(ds.take(k));
    if k < ds.len() {
        lemma_digits_grow(ds, k + 1);
        let next = ds.take(k + 1);
        assert(next.drop_last() =~= ds.take(k));
        assert(is_digit(ds[k]));
        assert(next.last() == ds[k]);
    } else {
        assert(ds.take(k) =~= ds);
    }
}

/// The value of digits is not negative.
pub proof fn lemma_digits_nonnegative(ds: Seq<char>)
    requires
        all_digits(ds),
    ensures
        0 <= digits_value(ds),
    decreases ds.len(),
{
    if ds.len() > 0 {
        assert(is_digit(ds[ds.len() - 1]));
        lemma_digits_nonnegative(ds.drop_last());
    }
}

/// Reads a 64-bit signed integer written in decimal.
pub fn parse_i64(s: &str) -> (r: Option<i64>)
    ensures
        match r {
            Some(v) => decimal_i64(s@) == Some(v as int),
            None => decimal_i64(s@) is None,
        },
{
    let n = s.unicode_len();
    if n == 0 {
        return None;
    }
    let first = s.get_char(0);
    let negative = first == '-';
    let start: usize = if first == '-' || first == '+' {
        1
    } else {
        0
    };
    if start == n {
        return None;
    }
    let ghost ds = s@.skip(start as int);
    // the digits read so far, as a number of the sign of the result
    let mut acc: i64 = 0;
    let mut i: usize = start;
    proof {
        assert(ds.take(0) =~= Seq::<char>::empty());
    }
    while i < n
        invariant
            start <= i <= n,
            start < n,
            n == s@.len(),
            negative == (s@[0] == '-'),
            (start == 1) == (s@[0] == '-' || s@[0] == '+'),
            start <= 1,
            ds == s@.skip(start as int),
            all_digits(ds.take(i - start)),
            negative ==> acc as int == -digits_value(ds.take(i - start)),
            !negative ==> acc as int == digits_value(ds.take(i - start)),
        decreases n - i,
    {
        let c = s.get_char(i);
        let ghost k = i - start;
        proof {
            assert(ds[k] == c);
            assert(ds.take(k + 1).drop_last() =~= ds.take(k));
            assert(ds.take(k + 1).last() == c);
        }
        if !(c >= '0' && c <= '9') {
            proof {
                assert(!is_digit(ds[k]));
            }
            return None;
        }
        let digit: i64 = (c as u32 - '0' as u32) as i64;
        proof {
            assert forall|j: int| 0 <= j < ds.take(k + 1).len() implies is_digit(
                #[trigger] ds.take(k + 1)[j],
            ) by {
                if j < k {
                    assert(ds.take(k)[j] == ds.take(k + 1)[j]);
                }
            }
            if all_digits(ds) {
                lemma_digits_grow(ds, k + 1);
            }
        }
        proof {
            let so_far = digits_value(ds.take(k + 1));
            assert(so_far == digits_value(ds.take(k)) * 10 + digit);
            assert(0 <= digit <= 9);
            lemma_digits_nonnegative(ds.take(k));
            assert(s@.skip(0) =~= s@);
            // a number that has left the range does not come back into it
            if all_digits(ds) {
                assert(so_far <= digits_value(ds));
                if negative {
                    assert(acc * 10 - digit == -so_far);
                    assert(acc * 10 - digit < i64::MIN ==> decimal_i64(s@) is None);
                    assert(acc * 10 < i64::MIN ==> decimal_i64(s@) is None);
                } else {
                    assert(acc * 10 + digit == so_far);
                    assert(acc * 10 + digit > i64::MAX ==> decimal_i64(s@) is None);
                    assert(acc * 10 > i64::MAX ==> decimal_i64(s@) is None);
                }
            } else {
                assert(decimal_i64(s@) is None);
            }
        }
        let scaled = match acc.checked_mul(10) {
            Some(v) => v,
            None => {
                return None;
            },
        };
        let next = if negative {
            scaled.checked_sub(digit)
        } else {
            scaled.checked_add(digit)
        };
        match next {
            Some(v) => {
                acc = v;
            },
            None => {
                return None;
            },
        }
        i += 1;
    }
    proof {
        assert(ds.take(n - start) =~= ds);
        assert(s@.skip(0) =~= s@);
    }
    Some(acc)
}

} // verus!
