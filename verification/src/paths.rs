//! Names of downloaded files: remote names reduced to one safe path
//! component, and the names tried when a file of that name already exists.
use vstd::prelude::*;
use vstd::string::{StrSliceExecFns, StringExecFns};

use crate::error::{ModemError, ModemTransferError};
use crate::text::{decimal_chars, last_index_of, lemma_last_index_of, push_decimal};

verus! {

/// `last_index_of` never points past the end.
pub proof fn lemma_last_index_of_bounds(s: Seq<char>, c: char)
    ensures
        -1 <= last_index_of(s, c) < s.len(),
        last_index_of(s, c) >= 0 ==> s[last_index_of(s, c)] == c,
        forall|k: int| last_index_of(s, c) < k < s.len() ==> s[k] != c,
    decreases s.len(),
{
    if s.len() > 0 && s.last() != c {
        lemma_last_index_of_bounds(s.drop_last(), c);
        assert forall|k: int| last_index_of(s, c) < k < s.len() implies s[k] != c by {
            if k < s.len() - 1 {
                assert(s[k] == s.drop_last()[k]);
            }
        }
    }
}

/// The last component of a `/`-separated path, as `Path::file_name` finds
/// it: trailing separators and `.` components are skipped; when what is left
/// ends in `..`, or nothing is left, there is none.
pub open spec fn path_file_name(p: Seq<char>) -> Option<Seq<char>>
    decreases p.len(),
{
    if p.len() == 0 {
        None
    } else if p.last() == '/' {
        path_file_name(p.drop_last())
    } else {
        let start = last_index_of(p, '/') + 1;
        let segment = p.subrange(start, p.len() as int);
        if segment == seq!['.'] {
            proof {
                lemma_last_index_of_bounds(p, '/');
            }
            path_file_name(p.subrange(0, start))
        } else if segment == seq!['.', '.'] {
            None
        } else {
            Some(segment)
        }
    }
}

/// The file name under which a download announced as `remote_name` is saved:
/// the last path component only, so that nothing lands outside the chosen
/// folder.
pub fn safe_download_file_name(remote_name: &str) -> (r: Result<String, ModemTransferError>)
    ensures
        match path_file_name(remote_name@) {
            Some(n) => r matches Ok(s) && s@ == n,
            None => r matches Err(ModemTransferError::Protocol(ModemError::InvalidFileName)),
        },
{
    let ghost p = remote_name@;
    let mut end: usize = remote_name.unicode_len();
    assert(p.subrange(0, end as int) =~= p);
    loop
        invariant
            p == remote_name@,
            end <= p.len(),
            path_file_name(p) == path_file_name(p.subrange(0, end as int)),
        decreases end,
    {
        let ghost q = p.subrange(0, end as int);
        if end == 0 {
            return Err(ModemTransferError::Protocol(ModemError::InvalidFileName));
        }
        if remote_name.get_char(end - 1) == '/' {
            assert(q.drop_last() =~= p.subrange(0, end - 1));
            end = end - 1;
            continue ;
        }
        let mut start: usize = end;
        while start > 0
            invariant
                start <= end <= p.len(),
                p == remote_name@,
                forall|j: int| start <= j < end ==> p[j] != '/',
            ensures
                start <= end,
                forall|j: int| start <= j < end ==> p[j] != '/',
                start > 0 ==> p[start - 1] == '/',
            decreases start,
        {
            if remote_name.get_char(start - 1) == '/' {
                break;
            }
            start = start - 1;
        }
        proof {
            assert forall|j: int| start <= j < q.len() implies q[j] != '/' by {
                assert(q[j] == p[j]);
            }
            if start > 0 {
                assert(q[start - 1] == p[start - 1]);
            }
            lemma_last_index_of(q, '/', start - 1);
        }
        let ghost segment = q.subrange(start as int, end as int);
        assert(segment =~= p.subrange(start as int, end as int));
        let len = end - start;
        if len == 1 && remote_name.get_char(start) == '.' {
            assert(segment =~= seq!['.']);
            assert(q.subrange(0, start as int) =~= p.subrange(0, start as int));
            end = start;
            continue ;
        }
        if len == 2 && remote_name.get_char(start) == '.' && remote_name.get_char(start + 1)
            == '.' {
            assert(segment =~= seq!['.', '.']);
            return Err(ModemTransferError::Protocol(ModemError::InvalidFileName));
        }
        proof {
            if segment == seq!['.'] {
                assert(segment[0] == p[start as int]);
            }
            if segment == seq!['.', '.'] {
                assert(segment[0] == p[start as int]);
                assert(segment[1] == p[start + 1]);
            }
        }
        return Ok(String::from_str(remote_name.substring_char(start, end)));
    }
}

/// A file name split at its last dot into a stem and an extension, when both
/// are non-empty.
pub open spec fn split_extension(n: Seq<char>) -> Option<(Seq<char>, Seq<char>)> {
    let dot = last_index_of(n, '.');
    if dot <= 0 || dot == n.len() - 1 {
        None
    } else {
        Some((n.subrange(0, dot), n.subrange(dot + 1, n.len() as int)))
    }
}

/// ` (<index>)` as text.
pub open spec fn duplicate_suffix(index: nat) -> Seq<char> {
    seq![' ', '('] + decimal_chars(index) + seq![')']
}

/// The name tried for the `index`-th duplicate of `file_name`:
/// `stem (index).ext`, or `file_name (index)` when it has no extension.
pub open spec fn spec_duplicate_download_name(file_name: Seq<char>, index: nat) -> Seq<char> {
    match path_file_name(file_name) {
        Some(n) => match split_extension(n) {
            Some((stem, ext)) => stem + duplicate_suffix(index) + seq!['.'] + ext,
            None => file_name + duplicate_suffix(index),
        },
        None => file_name + duplicate_suffix(index),
    }
}

/// Appends ` (<index>)`.
fn push_duplicate_suffix(text: &mut String, index: usize)
    ensures
        final(text)@ == old(text)@ + duplicate_suffix(index as nat),
{
    proof {
        reveal_strlit(" (");
        reveal_strlit(")");
    }
    text.append(" (");
    push_decimal(text, index as u64);
    text.append(")");
}

/// The name tried for the `index`-th duplicate of a download.
pub fn duplicate_download_name(file_name: &str, index: usize) -> (r: String)
    ensures
        r@ == spec_duplicate_download_name(file_name@, index as nat),
{
    match safe_download_file_name(file_name) {
        Ok(name) => {
            let n = name.as_str().unicode_len();
            let mut dot: usize = n;
            while dot > 0
                invariant
                    dot <= n == name@.len(),
                    forall|j: int| dot <= j < n ==> name@[j] != '.',
                ensures
                    dot <= n == name@.len(),
                    forall|j: int| dot <= j < n ==> name@[j] != '.',
                    dot > 0 ==> name@[dot - 1] == '.',
                decreases dot,
            {
                if name.as_str().get_char(dot - 1) == '.' {
                    break;
                }
                dot = dot - 1;
            }
            proof {
                lemma_last_index_of(name@, '.', dot - 1);
            }
            if dot > 1 && dot < n {
                let mut text = String::from_str(name.as_str().substring_char(0, dot - 1));
                push_duplicate_suffix(&mut text, index);
                proof {
                    reveal_strlit(".");
                }
                text.append(".");
                text.append(name.as_str().substring_char(dot, n));
                return text;
            }
        },
        Err(_) => {},
    }
    let mut text = String::from_str(file_name);
    push_duplicate_suffix(&mut text, index);
    text
}

} // verus!
