//! Small facts and searches over byte sequences shared by the protocol modules.
use vstd::prelude::*;

verus! {

/// Index of the first item that satisfies `f`, or the length when none does.
pub open spec fn find_first<T>(s: Seq<T>, f: spec_fn(T) -> bool) -> int
    decreases s.len(),
{
    if s.len() == 0 {
        0
    } else if f(s[0]) {
        0
    } else {
        1 + find_first(s.drop_first(), f)
    }
}

/// `r` is the index of the first item satisfying `f` (or the length).
pub open spec fn is_first<T>(s: Seq<T>, f: spec_fn(T) -> bool, r: int) -> bool {
    &&& 0 <= r <= s.len()
    &&& r < s.len() ==> f(s[r])
    &&& forall|k: int| 0 <= k < r ==> !f(#[trigger] s[k])
}

pub proof fn lemma_find_first<T>(s: Seq<T>, f: spec_fn(T) -> bool, r: int)
    requires
        is_first(s, f, r),
    ensures
        find_first(s, f) == r,
    decreases s.len(),
{
    if s.len() > 0 && !f(s[0]) {
        assert(r > 0);
        assert forall|k: int| 0 <= k < r - 1 implies !f(#[trigger] s.drop_first()[k]) by {
            assert(s.drop_first()[k] == s[k + 1]);
        }
        if r - 1 < s.drop_first().len() {
            assert(s.drop_first()[r - 1] == s[r]);
        }
        lemma_find_first(s.drop_first(), f, r - 1);
    }
}

pub proof fn lemma_find_first_is_first<T>(s: Seq<T>, f: spec_fn(T) -> bool)
    ensures
        is_first(s, f, find_first(s, f)),
    decreases s.len(),
{
    if s.len() > 0 && !f(s[0]) {
        let t = s.drop_first();
        lemma_find_first_is_first(t, f);
        assert forall|k: int| 0 <= k < find_first(s, f) implies !f(#[trigger] s[k]) by {
            if k > 0 {
                assert(s[k] == t[k - 1]);
            }
        }
        if find_first(s, f) < s.len() {
            assert(s[find_first(s, f)] == t[find_first(t, f)]);
        }
    }
}

/// Where the first match lies once an item is appended: where it was, or at
/// the new item, or nowhere.
pub proof fn lemma_find_first_push<T>(s: Seq<T>, e: T, f: spec_fn(T) -> bool)
    ensures
        find_first(s.push(e), f) == if find_first(s, f) < s.len() {
            find_first(s, f)
        } else if f(e) {
            s.len() as int
        } else {
            (s.len() + 1) as int
        },
{
    lemma_find_first_is_first(s, f);
    let p = find_first(s, f);
    let t = s.push(e);
    assert forall|k: int| 0 <= k < p implies !f(#[trigger] t[k]) by {
        assert(t[k] == s[k]);
    }
    if p < s.len() {
        assert(t[p] == s[p]);
        assert(is_first(t, f, p));
        lemma_find_first(t, f, p);
    } else if f(e) {
        assert(is_first(t, f, p));
        lemma_find_first(t, f, p);
    } else {
        assert(is_first(t, f, p + 1));
        lemma_find_first(t, f, p + 1);
    }
}

/// Index of the last item that satisfies `f`, or -1 when none does.
pub open spec fn find_last<T>(s: Seq<T>, f: spec_fn(T) -> bool) -> int
    decreases s.len(),
{
    if s.len() == 0 {
        -1
    } else if f(s.last()) {
        s.len() - 1
    } else {
        find_last(s.drop_last(), f)
    }
}

pub proof fn lemma_find_last<T>(s: Seq<T>, f: spec_fn(T) -> bool, r: int)
    requires
        -1 <= r < s.len(),
        r >= 0 ==> f(s[r]),
        forall|k: int| r < k < s.len() ==> !f(#[trigger] s[k]),
    ensures
        find_last(s, f) == r,
    decreases s.len(),
{
    if s.len() > 0 && !f(s.last()) {
        assert forall|k: int| r < k < s.len() - 1 implies !f(#[trigger] s.drop_last()[k]) by {
            assert(s.drop_last()[k] == s[k]);
        }
        lemma_find_last(s.drop_last(), f, r);
    }
}

/// `n` copies of `b`.
pub open spec fn repeat(b: u8, n: nat) -> Seq<u8> {
    Seq::new(n, |i: int| b)
}

/// Appends `n` copies of `b`.
pub fn push_repeated(out: &mut Vec<u8>, b: u8, n: usize)
    ensures
        final(out)@ == old(out)@ + repeat(b, n as nat),
{
    let mut i: usize = 0;
    while i < n
        invariant
            i <= n,
            out@ == old(out)@ + repeat(b, i as nat),
        decreases n - i,
    {
        out.push(b);
        i = i + 1;
        assert(out@ =~= old(out)@ + repeat(b, i as nat));
    }
}

/// Appends all of `bytes`.
pub fn push_all(out: &mut Vec<u8>, bytes: &[u8])
    ensures
        final(out)@ == old(out)@ + bytes@,
{
    out.extend_from_slice(bytes);
}

/// The sub-slice `bytes[start..end]` as a new vector.
pub fn copy_range(bytes: &[u8], start: usize, end: usize) -> (r: Vec<u8>)
    requires
        start <= end <= bytes@.len(),
    ensures
        r@ == bytes@.subrange(start as int, end as int),
{
    let mut out: Vec<u8> = Vec::new();
    let mut i: usize = start;
    while i < end
        invariant
            start <= i <= end,
            end <= bytes@.len(),
            out@ == bytes@.subrange(start as int, i as int),
        decreases end - i,
    {
        out.push(bytes[i]);
        i = i + 1;
        assert(out@ =~= bytes@.subrange(start as int, i as int));
    }
    out
}

} // verus!
