//! Reading the external probe's answer: a decimal frame count surrounded by
//! whitespace.

use vstd::prelude::*;

verus! {

/// ASCII whitespace as the probe emits it: space, tab, line feed, carriage
/// return.
pub open spec fn is_ascii_space(b: u8) -> bool {
    b == 32 || b == 9 || b == 10 || b == 13
}

/// ASCII decimal digit.
pub open spec fn is_ascii_digit(b: u8) -> bool {
    48 <= b <= 57
}

/// `s` without its leading whitespace.
pub open spec fn trim_start(s: Seq<u8>) -> Seq<u8>
    decreases s.len(),
{
    if s.len() > 0 && is_ascii_space(s[0]) {
        trim_start(s.drop_first())
    } else {
        s
    }
}

/// `s` without its trailing whitespace.
pub open spec fn trim_end(s: Seq<u8>) -> Seq<u8>
    decreases s.len(),
{
    if s.len() > 0 && is_ascii_space(s[s.len() - 1]) {
        trim_end(s.drop_last())
    } else {
        s
    }
}

/// `s` without leading and trailing whitespace.
pub open spec fn trimmed(s: Seq<u8>) -> Seq<u8> {
    trim_end(trim_start(s))
}

/// Numeric value of a digit string, most significant digit first.
pub open spec fn decimal_value(s: Seq<u8>) -> int
    decreases s.len(),
{
    if s.len() == 0 {
        0
    } else {
        decimal_value(s.drop_last()) * 10 + (s[s.len() - 1] - 48)
    }
}

/// Ten to the `n`-th power.
pub open spec fn pow10(n: nat) -> int
    decreases n,
{
    if n == 0 {
        1
    } else {
        10 * pow10((n - 1) as nat)
    }
}

/// A digit string of length `n` values below `pow10(n)`.
proof fn lemma_decimal_value_bound(s: Seq<u8>)
    requires
        forall|j: int| 0 <= j < s.len() ==> is_ascii_digit(#[trigger] s[j]),
    ensures
        0 <= decimal_value(s) < pow10(s.len()),
    decreases s.len(),
{
    if s.len() > 0 {
        lemma_decimal_value_bound(s.drop_last());
        assert(0 <= s[s.len() - 1] - 48 <= 9);
        assert(decimal_value(s.drop_last()) * 10 + 9 < 10 * pow10(s.drop_last().len()))
            by (nonlinear_arith)
            requires
                decimal_value(s.drop_last()) < pow10(s.drop_last().len()),
        ;
    }
}

/// Reads the decimal number in `s`, ignoring surrounding whitespace: the
/// probe prints the frame count on a line of its own.  Succeeds exactly
/// when, after trimming, a plain digit string of at most nineteen digits is
/// left, and returns its value.
#[verifier::loop_isolation(false)]
pub fn parse_frame_count(s: &[u8]) -> (r: Option<u64>)
    ensures
        r is Some <==> {
            &&& trimmed(s@).len() > 0
            &&& trimmed(s@).len() <= 19
            &&& forall|j: int|
                0 <= j < trimmed(s@).len() ==> is_ascii_digit(#[trigger] trimmed(s@)[j])
        },
        r matches Some(n) ==> n as int == decimal_value(trimmed(s@)),
{
    let n: usize = s.len();
    let mut a: usize = 0;
    proof {
        assert(s@.skip(0) =~= s@);
    }
    while a < n && s[a] == 32 || a < n && s[a] == 9 || a < n && s[a] == 10 || a < n && s[a] == 13
        invariant
            a <= n,
            trim_start(s@) == trim_start(s@.skip(a as int)),
        decreases n - a,
    {
        proof {
            assert(s@.skip(a as int).drop_first() =~= s@.skip(a as int + 1));
        }
        a = a + 1;
    }
    proof {
        assert(trim_start(s@) == s@.skip(a as int));
    }
    let mut b: usize = n;
    proof {
        assert(s@.skip(a as int).take(n as int - a as int) =~= s@.skip(a as int));
    }
    while b > a && s[b - 1] == 32 || b > a && s[b - 1] == 9 || b > a && s[b - 1] == 10 || b > a
        && s[b - 1] == 13
        invariant
            a <= b <= n,
            trimmed(s@) == trim_end(s@.skip(a as int).take(b as int - a as int)),
        decreases b,
    {
        proof {
            let part = s@.skip(a as int).take(b as int - a as int);
            assert(part.drop_last() =~= s@.skip(a as int).take(b as int - 1 - a as int));
        }
        b = b - 1;
    }
    proof {
        let part = s@.skip(a as int).take(b as int - a as int);
        if b as int > a as int {
            assert(!is_ascii_space(part[part.len() - 1]));
        }
        assert(trimmed(s@) == part);
    }
    let len: usize = b - a;
    if len == 0 || len > 19 {
        return None;
    }
    let ghost digits = trimmed(s@);
    let mut v: u64 = 0;
    let mut i: usize = 0;
    while i < len
        invariant
            i <= len,
            forall|j: int| 0 <= j < i as int ==> is_ascii_digit(#[trigger] digits[j]),
            v as int == decimal_value(digits.take(i as int)),
            (v as int) < pow10(i as nat),
        decreases len - i,
    {
        let c: u8 = s[a + i];
        proof {
            assert(digits[i as int] == s@[a as int + i as int]);
        }
        if c < 48 || c > 57 {
            return None;
        }
        proof {
            lemma_decimal_value_bound(digits.take(i as int));
            assert(pow10(19) == 10000000000000000000) by {
                reveal_with_fuel(pow10, 21);
            }
            assert(pow10(i as nat + 1) <= pow10(19)) by {
                lemma_pow10_increases(i as nat + 1, 19);
            }
            assert(((v as int) * 10 + 9) < pow10(i as nat + 1)) by (nonlinear_arith)
                requires
                    (v as int) < pow10(i as nat),
                    pow10(i as nat + 1) == 10 * pow10(i as nat),
            ;
            assert(digits.take(i as int + 1).drop_last() =~= digits.take(i as int));
        }
        v = v * 10 + ((c - 48) as u64);
        i = i + 1;
    }
    proof {
        assert(digits.take(len as int) =~= digits);
    }
    Some(v)
}

/// `pow10` grows with its argument.
proof fn lemma_pow10_increases(m: nat, n: nat)
    requires
        m <= n,
    ensures
        pow10(m) <= pow10(n),
    decreases n,
{
    if m < n {
        lemma_pow10_increases(m, (n - 1) as nat);
        assert(pow10(n) == 10 * pow10((n - 1) as nat));
        assert(pow10((n - 1) as nat) >= 1) by {
            lemma_pow10_positive((n - 1) as nat);
        }
    }
}

/// `pow10` is positive.
proof fn lemma_pow10_positive(n: nat)
    ensures
        pow10(n) >= 1,
    decreases n,
{
    if n > 0 {
        lemma_pow10_positive((n - 1) as nat);
    }
}

} // verus!
