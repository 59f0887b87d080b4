//! Unsigned decimal numerals: the wire text of a scalar numeric header.
//!
//! The grammar is ASCII digits only — no sign, no separators, leading zeros
//! accepted — and the value must fit an unsigned 64-bit integer.

use vstd::prelude::*;
use vstd::string::StrSliceExecFns;
use vstd::string::StringExecFns;

verus! {

/// Whether `c` is an ASCII decimal digit.
pub open spec fn is_digit_char(c: char) -> bool {
    48 <= c as u32 <= 57
}

/// The numeric value of an ASCII decimal digit.
pub open spec fn char_digit(c: char) -> int {
    c as u32 - 48
}

/// Whether every character of `s` is an ASCII decimal digit.
pub open spec fn all_digits(s: Seq<char>) -> bool {
    forall|i: int| 0 <= i < s.len() ==> is_digit_char(s[i])
}

/// The value of `s` read as a decimal numeral, most significant digit first.
pub open spec fn digits_value(s: Seq<char>) -> int
    decreases s.len(),
{
    if s.len() == 0 {
        0
    } else {
        digits_value(s.drop_last()) * 10 + char_digit(s.last())
    }
}

/// Whether `s` is a decimal numeral denoting a value that fits in a `u64`.
pub open spec fn is_u64_decimal(s: Seq<char>) -> bool {
    &&& s.len() > 0
    &&& all_digits(s)
    &&& digits_value(s) <= u64::MAX
}

pub proof fn lemma_digits_value_nonneg(s: Seq<char>)
    requires
        all_digits(s),
    ensures
        digits_value(s) >= 0,
    decreases s.len(),
{
    if s.len() > 0 {
        assert(all_digits(s.drop_last()));
        lemma_digits_value_nonneg(s.drop_last());
    }
}

/// Extending a numeral with further digits can only increase its value.
pub proof fn lemma_digits_value_prefix_le(s: Seq<char>, i: int)
    requires
        all_digits(s),
        0 <= i <= s.len(),
    ensures
        digits_value(s.take(i)) <= digits_value(s),
    decreases s.len() - i,
{
    if i < s.len() {
        assert(all_digits(s.take(i)));
        lemma_digits_value_nonneg(s.take(i));
        assert(s.take(i + 1).drop_last() =~= s.take(i));
        assert(s.take(i + 1).last() == s[i]);
        lemma_digits_value_prefix_le(s, i + 1);
    } else {
        assert(s.take(i) =~= s);
    }
}

/// Reads `s` as an unsigned decimal numeral.
///
/// Returns the denoted value exactly when `s` is non-empty, all digits, and
/// the value fits in a `u64`; otherwise returns nothing.
pub fn parse_u64_decimal(s: &str) -> (r: Option<u64>)
    ensures
        r is Some <==> is_u64_decimal(s@),
        r is Some ==> r->0 as int == digits_value(s@),
{
    let n = s.unicode_len();
    if n == 0 {
        return None;
    }
    let mut value: u64 = 0;
    let mut i: usize = 0;
    while i < n
        invariant
            0 < n == s@.len(),
            0 <= i <= n,
            all_digits(s@.take(i as int)),
            value as int == digits_value(s@.take(i as int)),
        decreases n - i,
    {
        let c = s.get_char(i);
        let u = c as u32;
        if u < 48 || u > 57 {
            proof {
                assert(!is_digit_char(s@[i as int]));
            }
            return None;
        }
        let d = (u - 48) as u64;
        proof {
            assert(s@.take(i + 1).drop_last() =~= s@.take(i as int));
            assert(s@.take(i + 1).last() == s@[i as int]);
            assert(all_digits(s@.take(i + 1)));
        }
        if value > u64::MAX / 10 || (value == u64::MAX / 10 && d > u64::MAX % 10) {
            proof {
                assert(digits_value(s@.take(i + 1)) > u64::MAX);
                if all_digits(s@) {
                    lemma_digits_value_prefix_le(s@, i + 1);
                }
            }
            return None;
        }
        value = value * 10 + d;
        i = i + 1;
    }
    proof {
        assert(s@.take(n as int) =~= s@);
    }
    Some(value)
}

/// The digit character denoting `d`, for `0 <= d <= 9`.
pub open spec fn digit_char(d: int) -> char {
    if d == 0 {
        '0'
    } else if d == 1 {
        '1'
    } else if d == 2 {
        '2'
    } else if d == 3 {
        '3'
    } else if d == 4 {
        '4'
    } else if d == 5 {
        '5'
    } else if d == 6 {
        '6'
    } else if d == 7 {
        '7'
    } else if d == 8 {
        '8'
    } else {
        '9'
    }
}

/// The decimal numeral of `n`, most significant digit first, no leading zeros.
pub open spec fn decimal_digits(n: int) -> Seq<char>
    decreases n,
{
    if n < 0 {
        Seq::empty()
    } else if n < 10 {
        seq![digit_char(n)]
    } else {
        decimal_digits(n / 10).push(digit_char(n % 10))
    }
}

/// The numeral of `n` is a non-empty digit string denoting `n`.
pub proof fn lemma_decimal_digits(n: int)
    requires
        n >= 0,
    ensures
        decimal_digits(n).len() >= 1,
        all_digits(decimal_digits(n)),
        digits_value(decimal_digits(n)) == n,
    decreases n,
{
    if n < 10 {
        let s = seq![digit_char(n)];
        assert(s.drop_last() =~= Seq::<char>::empty());
        assert(digits_value(Seq::<char>::empty()) == 0);
        assert(char_digit(digit_char(n)) == n);
        assert(is_digit_char(digit_char(n)));
        assert(digits_value(s) == char_digit(s.last()));
    } else {
        lemma_decimal_digits(n / 10);
        let p = decimal_digits(n / 10);
        let s = p.push(digit_char(n % 10));
        assert(s.drop_last() =~= p);
        assert(s.last() == digit_char(n % 10));
        assert(char_digit(digit_char(n % 10)) == n % 10);
        assert(is_digit_char(digit_char(n % 10)));
        assert(all_digits(s)) by {
            assert(forall|i: int| 0 <= i < p.len() ==> s[i] == p[i]);
        }
        assert(digits_value(s) == digits_value(p) * 10 + (n % 10));
        assert(digits_value(p) * 10 + (n % 10) == n) by {
            assert(n == (n / 10) * 10 + (n % 10));
        }
    }
}

/// A numeral fitting a `u64` re-reads to the value it was written from.
pub proof fn lemma_decimal_round_trip(n: u64)
    ensures
        is_u64_decimal(decimal_digits(n as int)),
        digits_value(decimal_digits(n as int)) == n as int,
{
    lemma_decimal_digits(n as int);
}

fn digit_str(d: u64) -> (r: &'static str)
    requires
        d < 10,
    ensures
        r@ == seq![digit_char(d as int)],
{
    let r: &'static str = match d {
        0 => "0",
        1 => "1",
        2 => "2",
        3 => "3",
        4 => "4",
        5 => "5",
        6 => "6",
        7 => "7",
        8 => "8",
        _ => "9",
    };
    proof {
        reveal_strlit("0");
        reveal_strlit("1");
        reveal_strlit("2");
        reveal_strlit("3");
        reveal_strlit("4");
        reveal_strlit("5");
        reveal_strlit("6");
        reveal_strlit("7");
        reveal_strlit("8");
        reveal_strlit("9");
        assert(r@ =~= seq![digit_char(d as int)]);
    }
    r
}

fn push_decimal(n: u64, out: &mut String)
    ensures
        final(out)@ == old(out)@ + decimal_digits(n as int),
    decreases n,
{
    let ghost prefix = out@;
    if n >= 10 {
        push_decimal(n / 10, out);
    }
    let ds = digit_str(n % 10);
    out.append(ds);
    proof {
        if n < 10 {
            assert(decimal_digits(n as int) =~= seq![digit_char(n as int)]);
        }
        assert(out@ =~= prefix + decimal_digits(n as int));
    }
}

/// Writes `n` as its decimal numeral: digits only, no sign, no leading zeros.
pub fn u64_to_decimal_string(n: u64) -> (r: String)
    ensures
        r@ == decimal_digits(n as int),
{
    let mut out = String::new();
    push_decimal(n, &mut out);
    proof {
        assert(out@ =~= decimal_digits(n as int));
    }
    out
}

} // verus!
