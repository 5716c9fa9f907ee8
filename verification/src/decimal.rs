//! Decimal text of unsigned integers, as the frame's `length` header carries it.

use vstd::prelude::*;

verus! {

/// An ASCII decimal digit.
pub open spec fn is_digit(b: u8) -> bool {
    48 <= b && b <= 57
}

/// Every byte of `s` is a decimal digit.
pub open spec fn all_digits(s: Seq<u8>) -> bool {
    forall|i: int| 0 <= i < s.len() ==> #[trigger] is_digit(s[i])
}

/// The number that the digits `s` spell, most significant first.
pub open spec fn digits_value(s: Seq<u8>) -> nat
    decreases s.len(),
{
    if s.len() == 0 {
        0
    } else {
        digits_value(s.drop_last()) * 10 + (s.last() - 48) as nat
    }
}

/// What `usize::from_str` makes of the bytes `s`: an optional `+` followed by
/// one or more decimal digits whose value fits a `usize`; anything else is refused.
pub open spec fn spec_parse_usize(s: Seq<u8>) -> Option<usize> {
    let d = if s.len() > 0 && s[0] == 43 {
        s.drop_first()
    } else {
        s
    };
    if d.len() > 0 && all_digits(d) && digits_value(d) <= usize::MAX {
        Some(digits_value(d) as usize)
    } else {
        None
    }
}

/// The shortest decimal text of `n` (what `to_string` gives for an unsigned integer).
pub open spec fn spec_decimal(n: nat) -> Seq<u8>
    decreases n,
{
    if n < 10 {
        seq![(48 + n) as u8]
    } else {
        spec_decimal(n / 10) + seq![(48 + n % 10) as u8]
    }
}

/// A longer run of digits never spells a smaller number than its prefix.
proof fn lemma_digits_value_prefix_monotone(s: Seq<u8>, i: int, j: int)
    requires
        0 <= i <= j <= s.len(),
        all_digits(s),
    ensures
        digits_value(s.take(i)) <= digits_value(s.take(j)),
    decreases j - i,
{
    if i < j {
        lemma_digits_value_prefix_monotone(s, i, j - 1);
        assert(s.take(j).drop_last() =~= s.take(j - 1));
        assert(is_digit(s[j - 1]));
    }
}

/// Reads the decimal digits of `s`, with an optional leading `+`, as a `usize`;
/// `None` where `usize::from_str` reports an error.
pub fn parse_usize(s: &[u8]) -> (res: Option<usize>)
    ensures
        res == spec_parse_usize(s@),
{
    let mut start: usize = 0;
    if s.len() > 0 && s[0] == 43 {
        start = 1;
    }
    let ghost d = s@.skip(start as int);
    assert(d =~= (if s@.len() > 0 && s@[0] == 43 { s@.drop_first() } else { s@ }));
    if start >= s.len() {
        return None;
    }
    let mut value: usize = 0;
    let mut i: usize = start;
    while i < s.len()
        invariant
            start <= i <= s.len(),
            start < s.len(),
            d == s@.skip(start as int),
            d == (if s@.len() > 0 && s@[0] == 43 { s@.drop_first() } else { s@ }),
            all_digits(d.take(i - start)),
            value == digits_value(d.take(i - start)),
        decreases s.len() - i,
    {
        let b = s[i];
        if b < 48 || b > 57 {
            assert(!is_digit(d[i - start]));
            return None;
        }
        assert(d.take(i - start + 1).drop_last() =~= d.take(i - start));
        assert(d.take(i - start + 1).last() == b);
        let ghost next: nat = digits_value(d.take(i - start + 1));
        assert(all_digits(d.take(i - start + 1)));
        match value.checked_mul(10) {
            Some(m) => {
                match m.checked_add((b - 48) as usize) {
                    Some(v) => {
                        value = v;
                    },
                    None => {
                        proof {
                            lemma_overflow_refused(d, (i - start + 1) as int);
                        }
                        return None;
                    },
                }
            },
            None => {
                proof {
                    lemma_overflow_refused(d, (i - start + 1) as int);
                }
                return None;
            },
        }
        i = i + 1;
    }
    assert(d.take(i - start) =~= d);
    Some(value)
}

/// Once a prefix of the digits exceeds `usize::MAX`, the whole text is refused.
proof fn lemma_overflow_refused(d: Seq<u8>, k: int)
    requires
        0 < k <= d.len(),
        all_digits(d.take(k)),
        digits_value(d.take(k)) > usize::MAX,
    ensures
        !(all_digits(d) && digits_value(d) <= usize::MAX),
{
    if all_digits(d) {
        lemma_digits_value_prefix_monotone(d, k, d.len() as int);
        assert(d.take(d.len() as int) =~= d);
    }
}

/// The shortest decimal text of `n`.
pub fn format_usize(n: usize) -> (res: Vec<u8>)
    ensures
        res@ == spec_decimal(n as nat),
    decreases n,
{
    if n < 10 {
        let mut v: Vec<u8> = Vec::new();
        v.push((48 + n) as u8);
        v
    } else {
        let mut v = format_usize(n / 10);
        v.push((48 + n % 10) as u8);
        v
    }
}

/// Decimal text is made of digits only, and spells the number it was made from.
pub proof fn lemma_decimal_digits(n: nat)
    ensures
        all_digits(spec_decimal(n)),
        digits_value(spec_decimal(n)) == n,
        spec_decimal(n).len() > 0,
    decreases n,
{
    if n >= 10 {
        lemma_decimal_digits(n / 10);
        let s = spec_decimal(n);
        assert(s.drop_last() =~= spec_decimal(n / 10));
        assert(n == (n / 10) * 10 + n % 10) by (nonlinear_arith);
        assert(s.last() == (48 + n % 10) as u8);
        assert forall|i: int| 0 <= i < s.len() implies #[trigger] is_digit(s[i]) by {
            if i < s.len() - 1 {
                assert(s[i] == spec_decimal(n / 10)[i]);
            }
        }
    } else {
        assert(spec_decimal(n).drop_last() =~= Seq::<u8>::empty());
        assert(digits_value(Seq::<u8>::empty()) == 0);
    }
}

/// Reading back the decimal text of a `usize` gives that number.
pub proof fn lemma_parse_usize_of_decimal(n: usize)
    ensures
        spec_parse_usize(spec_decimal(n as nat)) == Some(n),
{
    lemma_decimal_digits(n as nat);
    let s = spec_decimal(n as nat);
    assert(is_digit(s[0]));
}

} // verus!
