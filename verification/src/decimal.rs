//! Decimal text of unsigned integers, as the modem file headers carry it.
use vstd::prelude::*;

verus! {

pub open spec fn is_ascii_digit(b: u8) -> bool {
    0x30u8 <= b <= 0x39u8
}

/// The shortest decimal text of `n`, most significant digit first.
pub open spec fn decimal_digits(n: nat) -> Seq<u8>
    decreases n,
{
    if n < 10 {
        seq![(n + 0x30) as u8]
    } else {
        decimal_digits(n / 10).push(((n % 10) + 0x30) as u8)
    }
}

/// The value of a sequence of ASCII digits.
pub open spec fn digits_value(s: Seq<u8>) -> nat
    decreases s.len(),
{
    if s.len() == 0 {
        0
    } else {
        digits_value(s.drop_last()) * 10 + (s.last() - 0x30) as nat
    }
}

pub open spec fn all_digits(s: Seq<u8>) -> bool {
    forall|i: int| 0 <= i < s.len() ==> #[trigger] is_ascii_digit(s[i])
}

/// How text parses as a `u64`: an optional `+`, then at least one ASCII digit,
/// with a value that fits.
pub open spec fn spec_parse_u64(s: Seq<u8>) -> Option<u64> {
    let d = if s.len() > 0 && s[0] == 0x2bu8 {
        s.drop_first()
    } else {
        s
    };
    if d.len() > 0 && all_digits(d) && digits_value(d) <= u64::MAX {
        Some(digits_value(d) as u64)
    } else {
        None
    }
}

pub proof fn lemma_decimal_digits_shape(n: nat)
    ensures
        decimal_digits(n).len() > 0,
        all_digits(decimal_digits(n)),
        digits_value(decimal_digits(n)) == n,
        decimal_digits(n)[0] != 0x2bu8,
    decreases n,
{
    if n >= 10 {
        lemma_decimal_digits_shape(n / 10);
        let d = decimal_digits(n / 10);
        assert(decimal_digits(n).drop_last() =~= d);
        assert forall|i: int| 0 <= i < decimal_digits(n).len() implies #[trigger] is_ascii_digit(
            decimal_digits(n)[i],
        ) by {
            if i < d.len() {
                assert(decimal_digits(n)[i] == d[i]);
            }
        }
        let x = ((n % 10) + 0x30) as u8;
        assert(decimal_digits(n) == d.push(x));
        assert(x - 0x30 == n % 10);
        assert(digits_value(decimal_digits(n)) == digits_value(d) * 10 + (x - 0x30) as nat);
        assert(n == (n / 10) * 10 + n % 10) by (nonlinear_arith);
        assert(digits_value(decimal_digits(n)) == n);
    } else {
        let x = (n + 0x30) as u8;
        assert(decimal_digits(n) == seq![x]);
        assert(seq![x].drop_last() =~= Seq::<u8>::empty());
        assert(seq![x].last() == x);
        assert(x - 0x30 == n);
        assert(digits_value(Seq::<u8>::empty()) == 0);
    }
}

/// The parse of the decimal text of a number gives the number back.
pub proof fn lemma_parse_decimal_round_trip(n: u64)
    ensures
        spec_parse_u64(decimal_digits(n as nat)) == Some(n),
{
    lemma_decimal_digits_shape(n as nat);
}

/// The decimal text of `n`.
pub fn u64_decimal(n: u64) -> (r: Vec<u8>)
    ensures
        r@ == decimal_digits(n as nat),
    decreases n,
{
    if n < 10 {
        let mut v: Vec<u8> = Vec::new();
        v.push((n as u8) + 0x30);
        v
    } else {
        let mut v = u64_decimal(n / 10);
        v.push(((n % 10) as u8) + 0x30);
        v
    }
}

pub proof fn lemma_digits_value_step(s: Seq<u8>, i: int)
    requires
        0 <= i < s.len(),
    ensures
        digits_value(s.subrange(0, i + 1)) == digits_value(s.subrange(0, i)) * 10 + (s[i]
            - 0x30) as nat,
{
    assert(s.subrange(0, i + 1).drop_last() =~= s.subrange(0, i));
}

pub proof fn lemma_digits_value_monotone(s: Seq<u8>, i: int)
    requires
        0 <= i <= s.len(),
        all_digits(s),
    ensures
        digits_value(s.subrange(0, i)) <= digits_value(s),
    decreases s.len() - i,
{
    if i < s.len() {
        lemma_digits_value_monotone(s, i + 1);
        lemma_digits_value_step(s, i);
        assert(is_ascii_digit(s[i]));
    } else {
        assert(s.subrange(0, i) =~= s);
    }
}

/// Parses decimal text the way `u64::from_str` does.
pub fn parse_u64_decimal(s: &[u8]) -> (r: Option<u64>)
    ensures
        r == spec_parse_u64(s@),
{
    let start: usize = if s.len() > 0 && s[0] == 0x2b {
        1
    } else {
        0
    };
    let ghost d = if s@.len() > 0 && s@[0] == 0x2bu8 {
        s@.drop_first()
    } else {
        s@
    };
    assert(d =~= s@.subrange(start as int, s@.len() as int));
    if start >= s.len() {
        return None;
    }
    let mut value: u64 = 0;
    let mut i: usize = start;
    while i < s.len()
        invariant
            start <= i <= s.len(),
            d == (if s@.len() > 0 && s@[0] == 0x2bu8 {
                s@.drop_first()
            } else {
                s@
            }),
            d =~= s@.subrange(start as int, s@.len() as int),
            all_digits(d.subrange(0, i - start)),
            value as nat == digits_value(d.subrange(0, i - start)),
        decreases s.len() - i,
    {
        let b = s[i];
        if b < 0x30 || b > 0x39 {
            proof {
                assert(d[i - start] == b);
                assert(!is_ascii_digit(d[i - start]));
                assert(!all_digits(d));
            }
            return None;
        }
        proof {
            lemma_digits_value_step(d, i - start);
            assert(d.subrange(0, i - start + 1).drop_last() =~= d.subrange(0, i - start));
        }
        let digit = (b - 0x30) as u64;
        if value > (u64::MAX - digit) / 10 {
            proof {
                assert(d[i - start] == b);
                if all_digits(d) {
                    lemma_digits_value_monotone(d, i - start + 1);
                    assert(value * 10 + digit > u64::MAX) by (nonlinear_arith)
                        requires value > (u64::MAX - digit) / 10, digit <= 9;
                    assert(digits_value(d.subrange(0, i - start + 1)) > u64::MAX);
                    assert(digits_value(d) > u64::MAX);
                }
            }
            return None;
        }
        assert(value * 10 + digit <= u64::MAX) by (nonlinear_arith)
            requires value <= (u64::MAX - digit) / 10, digit <= 9;
        value = value * 10 + digit;
        proof {
            assert forall|k: int| 0 <= k < i - start + 1 implies #[trigger] is_ascii_digit(
                d.subrange(0, i - start + 1)[k],
            ) by {
                if k < i - start {
                    assert(d.subrange(0, i - start + 1)[k] == d.subrange(0, i - start)[k]);
                }
            }
        }
        i = i + 1;
    }
    assert(d.subrange(0, i - start) =~= d);
    Some(value)
}

} // verus!
