//! The ZFILE header payload: a NUL-terminated file name followed by
//! whitespace-separated metadata whose first word is the file size.
use vstd::prelude::*;
use vstd::string::StrSliceExecFns;
use vstd::utf8::*;

use crate::bytes::{find_first, is_first, lemma_find_first, lemma_find_first_is_first, push_all};
use crate::decimal::{
    decimal_digits, lemma_decimal_digits_shape, lemma_parse_decimal_round_trip, spec_parse_u64,
    u64_decimal, is_ascii_digit, parse_u64_decimal,
};
use crate::error::{ModemError, ModemTransferError};
use crate::text::{utf8_lossy, utf8_text};
use crate::xymodem::{is_nul, text_bytes};

verus! {

/// Unicode `White_Space`, the set `char::is_whitespace` tests.
pub open spec fn is_unicode_whitespace(c: char) -> bool {
    let u = c as u32;
    ||| 0x09 <= u <= 0x0d
    ||| u == 0x20
    ||| u == 0x85
    ||| u == 0xa0
    ||| u == 0x1680
    ||| 0x2000 <= u <= 0x200a
    ||| u == 0x2028
    ||| u == 0x2029
    ||| u == 0x202f
    ||| u == 0x205f
    ||| u == 0x3000
}

/// Whether `c` is Unicode white space.
pub fn is_whitespace_char(c: char) -> (r: bool)
    ensures
        r == is_unicode_whitespace(c),
{
    let u = c as u32;
    (0x09 <= u && u <= 0x0d) || u == 0x20 || u == 0x85 || u == 0xa0 || u == 0x1680 || (0x2000
        <= u && u <= 0x200a) || u == 0x2028 || u == 0x2029 || u == 0x202f || u == 0x205f || u
        == 0x3000
}

/// The first whitespace-separated word of `m` (empty when there is none).
pub open spec fn first_word(m: Seq<char>) -> Seq<char> {
    let start = find_first(m, |c: char| !is_unicode_whitespace(c));
    let rest = m.subrange(start, m.len() as int);
    rest.subrange(0, find_first(rest, |c: char| is_unicode_whitespace(c)))
}

/// How a word parses as a `u64`: only ASCII text can.
pub open spec fn parse_word_u64(w: Seq<char>) -> Option<u64> {
    if forall|k: int| 0 <= k < w.len() ==> (#[trigger] w[k] as u32) < 128 {
        spec_parse_u64(Seq::new(w.len(), |k: int| w[k] as u8))
    } else {
        None
    }
}

/// A file name a ZFILE header may carry.
pub open spec fn spec_zmodem_name_ok(n: Seq<char>) -> bool {
    &&& !n.contains('/')
    &&& !n.contains('\\')
    &&& n != seq!['.']
    &&& n != seq!['.', '.']
}

/// How a ZFILE payload decodes: `None` for the empty name that ends the
/// session, else the name text and the announced size.
pub open spec fn spec_parse_zfile_header(bytes: Seq<u8>) -> Result<
    Option<(Seq<char>, Option<u64>)>,
    ModemTransferError,
> {
    let nul = find_first(bytes, |b: u8| is_nul(b));
    if nul == bytes.len() {
        Err(ModemTransferError::Protocol(ModemError::InvalidLength))
    } else if nul == 0 {
        Ok(None)
    } else {
        let name = utf8_text(bytes.subrange(0, nul));
        if !spec_zmodem_name_ok(name) {
            Err(ModemTransferError::Protocol(ModemError::InvalidFileName))
        } else {
            let word = first_word(utf8_text(bytes.subrange(nul + 1, bytes.len() as int)));
            if word.len() == 0 {
                Ok(Some((name, None)))
            } else {
                match parse_word_u64(word) {
                    None => Err(ModemTransferError::Protocol(ModemError::InvalidLength)),
                    Some(v) => Ok(Some((name, Some(v)))),
                }
            }
        }
    }
}

/// The ZFILE payload announcing a file: its name, NUL, its size in decimal.
pub open spec fn spec_build_zfile_header(name: Seq<char>, size: u64) -> Seq<u8> {
    text_bytes(name) + seq![0u8] + decimal_digits(size as nat)
}

/// Index of the first NUL byte (or the length).
fn position_of_nul(bytes: &[u8]) -> (r: usize)
    ensures
        is_first(bytes@, |b: u8| is_nul(b), r as int),
{
    let mut i: usize = 0;
    while i < bytes.len()
        invariant
            i <= bytes@.len(),
            forall|k: int| 0 <= k < i ==> bytes@[k] != 0u8,
        decreases bytes.len() - i,
    {
        if bytes[i] == 0 {
            return i;
        }
        i = i + 1;
    }
    i
}

/// Whether the text is an acceptable ZFILE name.
pub fn zmodem_name_ok(name: &str) -> (r: bool)
    ensures
        r == spec_zmodem_name_ok(name@),
{
    let n = name.unicode_len();
    if n == 1 && name.get_char(0) == '.' {
        assert(name@ =~= seq!['.']);
        return false;
    }
    if n == 2 && name.get_char(0) == '.' && name.get_char(1) == '.' {
        assert(name@ =~= seq!['.', '.']);
        return false;
    }
    let mut i: usize = 0;
    while i < n
        invariant
            n == name@.len(),
            i <= n,
            forall|k: int| 0 <= k < i ==> name@[k] != '/' && name@[k] != '\\',
        decreases n - i,
    {
        let c = name.get_char(i);
        if c == '/' || c == '\\' {
            assert(name@.contains(name@[i as int]));
            return false;
        }
        i = i + 1;
    }
    assert(!name@.contains('/'));
    assert(!name@.contains('\\'));
    true
}

/// The first whitespace-separated word of `text`, as bytes when it is all
/// ASCII; `Err(())` when it holds other characters; empty when there is none.
fn first_word_ascii(text: &str) -> (r: Result<Vec<u8>, ()>)
    ensures
        match r {
            Ok(v) => first_word(text@).len() == v@.len() && (v@.len() > 0 ==> parse_word_u64(
                first_word(text@),
            ) == spec_parse_u64(v@)),
            Err(()) => first_word(text@).len() > 0 && parse_word_u64(first_word(text@)) is None,
        },
{
    let ghost m = text@;
    let n = text.unicode_len();
    let mut start: usize = 0;
    while start < n
        invariant
            m == text@,
            n == m.len(),
            start <= n,
            forall|k: int| 0 <= k < start ==> is_unicode_whitespace(#[trigger] m[k]),
        ensures
            start <= n,
            forall|k: int| 0 <= k < start ==> is_unicode_whitespace(#[trigger] m[k]),
            start < n ==> !is_unicode_whitespace(m[start as int]),
        decreases n - start,
    {
        if !is_whitespace_char(text.get_char(start)) {
            break;
        }
        start = start + 1;
    }
    proof {
        assert(is_first(m, |c: char| !is_unicode_whitespace(c), start as int));
        lemma_find_first(m, |c: char| !is_unicode_whitespace(c), start as int);
    }
    let ghost rest = m.subrange(start as int, m.len() as int);
    let mut word: Vec<u8> = Vec::new();
    let mut end: usize = start;
    while end < n
        invariant
            m == text@,
            n == m.len(),
            start <= end <= n,
            rest == m.subrange(start as int, m.len() as int),
            find_first(m, |c: char| !is_unicode_whitespace(c)) == start,
            word@.len() == end - start,
            forall|k: int|
                start <= k < end ==> !is_unicode_whitespace(#[trigger] m[k]) && (m[k] as u32)
                    < 128 && word@[k - start] == m[k] as u8,
        ensures
            start <= end <= n,
            word@.len() == end - start,
            forall|k: int|
                start <= k < end ==> !is_unicode_whitespace(#[trigger] m[k]) && (m[k] as u32)
                    < 128 && word@[k - start] == m[k] as u8,
            end < n ==> is_unicode_whitespace(m[end as int]),
        decreases n - end,
    {
        let c = text.get_char(end);
        if is_whitespace_char(c) {
            break;
        }
        if (c as u32) >= 128 {
            proof {
                let e = find_first(rest, |x: char| is_unicode_whitespace(x));
                assert forall|k: int| 0 <= k <= end - start implies !is_unicode_whitespace(
                    #[trigger] rest[k],
                ) by {
                    assert(rest[k] == m[start + k]);
                }
                let f = |x: char| is_unicode_whitespace(x);
                lemma_find_first_is_first(rest, f);
                assert(e > end - start);
                let w = first_word(m);
                assert(w == rest.subrange(0, e));
                assert(w[end - start] == c);
                assert(!((w[end - start] as u32) < 128));
            }
            return Err(());
        }
        word.push(c as u8);
        end = end + 1;
    }
    proof {
        let f = |x: char| is_unicode_whitespace(x);
        assert forall|k: int| 0 <= k < end - start implies !f(#[trigger] rest[k]) by {
            assert(rest[k] == m[start + k]);
        }
        if end < n {
            assert(rest[end - start] == m[end as int]);
        }
        assert(is_first(rest, f, end - start));
        lemma_find_first(rest, f, end - start);
        let w = first_word(m);
        assert(w =~= m.subrange(start as int, end as int));
        assert(Seq::new(w.len(), |k: int| w[k] as u8) =~= word@);
    }
    Ok(word)
}

/// Decodes a ZFILE payload; `None` is the empty name that ends the session.
pub fn parse_zfile_header(bytes: &[u8]) -> (r: Result<
    Option<(String, Option<u64>)>,
    ModemTransferError,
>)
    ensures
        match (r, spec_parse_zfile_header(bytes@)) {
            (Ok(None), Ok(None)) => true,
            (Ok(Some((name, size))), Ok(Some((n, s)))) => name@ == n && size == s,
            (Err(e), Err(f)) => e == f,
            _ => false,
        },
{
    let nul = position_of_nul(bytes);
    proof {
        lemma_find_first(bytes@, |b: u8| is_nul(b), nul as int);
    }
    if nul == bytes.len() {
        return Err(ModemTransferError::Protocol(ModemError::InvalidLength));
    }
    if nul == 0 {
        return Ok(None);
    }
    let file_name = utf8_lossy(&bytes[0..nul]);
    assert(bytes@.subrange(0, nul as int) == bytes@.subrange(0, nul as int));
    if !zmodem_name_ok(file_name.as_str()) {
        return Err(ModemTransferError::Protocol(ModemError::InvalidFileName));
    }
    let metadata = utf8_lossy(&bytes[nul + 1..bytes.len()]);
    match first_word_ascii(metadata.as_str()) {
        Err(()) => Err(ModemTransferError::Protocol(ModemError::InvalidLength)),
        Ok(word) => {
            if word.len() == 0 {
                Ok(Some((file_name, None)))
            } else {
                match parse_u64_decimal(word.as_slice()) {
                    None => Err(ModemTransferError::Protocol(ModemError::InvalidLength)),
                    Some(v) => Ok(Some((file_name, Some(v)))),
                }
            }
        },
    }
}

/// The ZFILE payload announcing `file_name` with `file_size` bytes.
pub fn build_zfile_header(file_name: &str, file_size: u64) -> (r: Vec<u8>)
    ensures
        r@ == spec_build_zfile_header(file_name@, file_size),
{
    let mut bytes: Vec<u8> = Vec::new();
    push_all(&mut bytes, file_name.as_bytes());
    bytes.push(0);
    let size_text = u64_decimal(file_size);
    push_all(&mut bytes, size_text.as_slice());
    bytes
}

/// A header built for a name that is acceptable and whose UTF-8 text has no
/// NUL byte parses back to the same name and size.
pub proof fn lemma_zfile_header_round_trip(name: Seq<char>, size: u64)
    requires
        text_bytes(name).len() > 0,
        !text_bytes(name).contains(0u8),
        spec_zmodem_name_ok(name),
    ensures
        spec_parse_zfile_header(spec_build_zfile_header(name, size)) == Ok::<
            Option<(Seq<char>, Option<u64>)>,
            ModemTransferError,
        >(Some((name, Some(size)))),
{
    let b = text_bytes(name);
    let d = decimal_digits(size as nat);
    let p = spec_build_zfile_header(name, size);
    encode_utf8_decode_utf8(name);
    encode_utf8_valid_utf8(name);
    assert forall|k: int| 0 <= k < b.len() implies !is_nul(#[trigger] p[k]) by {
        assert(p[k] == b[k]);
        if b[k] == 0u8 {
            assert(b.contains(0u8));
        }
    }
    assert(p[b.len() as int] == 0u8);
    assert(is_first(p, |x: u8| is_nul(x), b.len() as int));
    lemma_find_first(p, |x: u8| is_nul(x), b.len() as int);
    assert(p.subrange(0, b.len() as int) =~= b);
    assert(p.subrange(b.len() as int + 1, p.len() as int) =~= d);
    lemma_decimal_digits_shape(size as nat);
    lemma_parse_decimal_round_trip(size);
    let dc = Seq::new(d.len(), |k: int| d[k] as char);
    assert forall|k: int| 0 <= k < dc.len() implies 0x30 <= (#[trigger] dc[k] as u32) <= 0x39
        && dc[k] as u8 == d[k] by {
        assert(is_ascii_digit(d[k]));
    }
    assert(is_ascii_chars(dc));
    is_ascii_chars_encode_utf8(dc);
    assert(encode_utf8(dc) =~= d);
    encode_utf8_decode_utf8(dc);
    encode_utf8_valid_utf8(dc);
    assert(utf8_text(d) == dc);
    let fw = |c: char| !is_unicode_whitespace(c);
    let ws = |c: char| is_unicode_whitespace(c);
    assert(is_first(dc, fw, 0));
    lemma_find_first(dc, fw, 0);
    assert(dc.subrange(0, dc.len() as int) =~= dc);
    assert(is_first(dc, ws, dc.len() as int));
    lemma_find_first(dc, ws, dc.len() as int);
    assert(first_word(dc) =~= dc);
    assert(Seq::new(dc.len(), |k: int| dc[k] as u8) =~= d);
}

} // verus!
