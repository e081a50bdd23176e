//! Byte-to-text conversions at the protocol boundary.
use vstd::prelude::*;
use vstd::string::StringExecFns;
use vstd::utf8::*;

use crate::decimal::{decimal_digits, u64_decimal};

verus! {

/// What `String::from_utf8_lossy` makes of a byte sequence.
pub uninterp spec fn spec_utf8_lossy(bytes: Seq<u8>) -> Seq<char>;

/// The text a byte sequence stands for: its decoding when it is valid UTF-8,
/// else what `String::from_utf8_lossy` makes of it.
pub open spec fn utf8_text(bytes: Seq<u8>) -> Seq<char> {
    if valid_utf8(bytes) {
        decode_utf8(bytes)
    } else {
        spec_utf8_lossy(bytes)
    }
}

/// Calls `String::from_utf8_lossy`. Trusted: the result is named by
/// `spec_utf8_lossy`, and, as its documentation states, valid UTF-8 input
/// comes back unchanged. What it does to invalid input is left unsaid.
#[verifier::external_body]
pub(crate) fn utf8_lossy(bytes: &[u8]) -> (r: String)
    ensures
        r@ == spec_utf8_lossy(bytes@),
        valid_utf8(bytes@) ==> r@ == decode_utf8(bytes@),
{
    String::from_utf8_lossy(bytes).into_owned()
}


/// The decimal text of `n` as characters.
pub open spec fn decimal_chars(n: nat) -> Seq<char> {
    Seq::new(decimal_digits(n).len(), |k: int| decimal_digits(n)[k] as char)
}

/// The one-character text of an ASCII digit.
fn digit_str(d: u8) -> (r: &'static str)
    requires
        0x30 <= d <= 0x39,
    ensures
        r@ == seq![d as char],
{
    proof {
        reveal_strlit("0");
        reveal_strlit("1");
        reveal_strlit("2");
        reveal_strlit("3");
        reveal_strlit("4");
        reveal_strlit("5");
        reveal_strlit("6");
        reveal_strlit("7");
        reveal_strlit("8");
        reveal_strlit("9");
    }
    if d == 0x30 {
        "0"
    } else if d == 0x31 {
        "1"
    } else if d == 0x32 {
        "2"
    } else if d == 0x33 {
        "3"
    } else if d == 0x34 {
        "4"
    } else if d == 0x35 {
        "5"
    } else if d == 0x36 {
        "6"
    } else if d == 0x37 {
        "7"
    } else if d == 0x38 {
        "8"
    } else {
        "9"
    }
}

/// Appends the decimal text of `n`.
pub fn push_decimal(s: &mut String, n: u64)
    ensures
        final(s)@ == old(s)@ + decimal_chars(n as nat),
{
    let digits = u64_decimal(n);
    proof {
        crate::decimal::lemma_decimal_digits_shape(n as nat);
    }
    let mut i: usize = 0;
    while i < digits.len()
        invariant
            i <= digits@.len(),
            digits@ == decimal_digits(n as nat),
            crate::decimal::all_digits(digits@),
            s@ == old(s)@ + Seq::new(i as nat, |k: int| digits@[k] as char),
        decreases digits.len() - i,
    {
        assert(crate::decimal::is_ascii_digit(digits@[i as int]));
        let d = digit_str(digits[i]);
        s.append(d);
        i = i + 1;
        assert(s@ =~= old(s)@ + Seq::new(i as nat, |k: int| digits@[k] as char));
    }
    assert(Seq::new(i as nat, |k: int| digits@[k] as char) =~= decimal_chars(n as nat));
}


/// Index of the last `c` in `s`, or -1.
pub open spec fn last_index_of(s: Seq<char>, c: char) -> int
    decreases s.len(),
{
    if s.len() == 0 {
        -1
    } else if s.last() == c {
        s.len() - 1
    } else {
        last_index_of(s.drop_last(), c)
    }
}

/// Index of the first `c` in `s`, or its length.
pub open spec fn first_index_of(s: Seq<char>, c: char) -> int
    decreases s.len(),
{
    if s.len() == 0 {
        0
    } else if s[0] == c {
        0
    } else {
        1 + first_index_of(s.drop_first(), c)
    }
}

pub proof fn lemma_last_index_of(s: Seq<char>, c: char, i: int)
    requires
        -1 <= i < s.len(),
        i >= 0 ==> s[i] == c,
        forall|k: int| i < k < s.len() ==> s[k] != c,
    ensures
        last_index_of(s, c) == i,
    decreases s.len(),
{
    if s.len() > 0 && s.last() != c {
        assert(i < s.len() - 1);
        lemma_last_index_of(s.drop_last(), c, i);
    }
}

pub proof fn lemma_first_index_of(s: Seq<char>, c: char, i: int)
    requires
        0 <= i <= s.len(),
        i < s.len() ==> s[i] == c,
        forall|k: int| 0 <= k < i ==> s[k] != c,
    ensures
        first_index_of(s, c) == i,
    decreases s.len(),
{
    if s.len() > 0 && s[0] != c {
        assert forall|k: int| 0 <= k < i - 1 implies s.drop_first()[k] != c by {
            assert(s.drop_first()[k] == s[k + 1]);
        }
        lemma_first_index_of(s.drop_first(), c, i - 1);
    }
}

} // verus!
