//! Character-level helpers for basename and pattern handling.
//!
//! All discovery decisions are made on the characters of a file name:
//! whether a pattern occurs as a substring, what follows the last `/` (the
//! basename), and what follows the first `-` (the version segment).

use vstd::prelude::*;

verus! {

/// True when `needle` occurs in `hay` as a contiguous run of characters.
pub open spec fn has_substring(hay: Seq<char>, needle: Seq<char>) -> bool {
    exists|i: int|
        0 <= i && i + needle.len() <= hay.len() && #[trigger] hay.subrange(i, i + needle.len())
            == needle
}

/// The characters of `p` that follow the last occurrence of `sep`; all of `p`
/// when `sep` does not occur in `p`.
pub open spec fn tail_after_last(p: Seq<char>, sep: char) -> Seq<char>
    decreases p.len(),
{
    if p.len() == 0 {
        p
    } else if p.last() == sep {
        Seq::<char>::empty()
    } else {
        tail_after_last(p.drop_last(), sep).push(p.last())
    }
}

/// `tail_after_last` returns exactly the suffix that starts right after the
/// last separator (or the whole sequence when there is none).
pub proof fn lemma_tail_after_last_is_suffix(p: Seq<char>, sep: char, i: int)
    requires
        0 <= i <= p.len(),
        forall|k: int| i <= k < p.len() ==> p[k] != sep,
        i > 0 ==> p[i - 1] == sep,
    ensures
        tail_after_last(p, sep) == p.subrange(i, p.len() as int),
    decreases p.len(),
{
    if p.len() == 0 {
        assert(tail_after_last(p, sep) =~= p.subrange(i, p.len() as int));
    } else if i == p.len() {
        assert(p.last() == sep);
        assert(tail_after_last(p, sep) =~= p.subrange(i, p.len() as int));
    } else {
        assert(p[p.len() - 1] != sep);
        let q = p.drop_last();
        assert(forall|k: int| i <= k < q.len() ==> q[k] == p[k] && q[k] != sep);
        assert(i > 0 ==> q[i - 1] == sep);
        lemma_tail_after_last_is_suffix(q, sep, i);
        assert(tail_after_last(p, sep) =~= p.subrange(i, p.len() as int));
    }
}

/// Appending separator-free characters extends the tail unchanged.
pub proof fn lemma_tail_after_last_append(p: Seq<char>, q: Seq<char>, sep: char)
    requires
        forall|k: int| 0 <= k < q.len() ==> q[k] != sep,
    ensures
        tail_after_last(p + q, sep) == tail_after_last(p, sep) + q,
    decreases q.len(),
{
    if q.len() == 0 {
        assert(p + q =~= p);
        assert(tail_after_last(p, sep) + q =~= tail_after_last(p, sep));
    } else {
        let q0 = q.drop_last();
        assert(forall|k: int| 0 <= k < q0.len() ==> q0[k] == q[k] && q0[k] != sep);
        lemma_tail_after_last_append(p, q0, sep);
        let pq = p + q;
        assert(pq.len() > 0 && pq.last() == q.last() && q.last() != sep);
        assert(pq.drop_last() =~= p + q0);
        assert(tail_after_last(pq, sep) == tail_after_last(p + q0, sep).push(q.last()));
        assert(tail_after_last(p, sep) + q =~= (tail_after_last(p, sep) + q0).push(q.last()));
    }
}

/// Whether `needle` occurs at position `i` of `hay`.
fn matches_at(hay: &str, hay_len: usize, i: usize, needle: &str, needle_len: usize) -> (r: bool)
    requires
        hay_len == hay@.len(),
        needle_len == needle@.len(),
        i + needle_len <= hay_len,
    ensures
        r == (hay@.subrange(i as int, i + needle@.len()) == needle@),
{
    let mut j: usize = 0;
    while j < needle_len
        invariant
            hay_len == hay@.len(),
            needle_len == needle@.len(),
            i + needle_len <= hay_len,
            0 <= j <= needle_len,
            forall|k: int| 0 <= k < j ==> hay@[i + k] == needle@[k],
        decreases needle_len - j,
    {
        let hc = hay.get_char(i + j);
        let nc = needle.get_char(j);
        if hc != nc {
            assert(hay@.subrange(i as int, i + needle@.len())[j as int] != needle@[j as int]);
            return false;
        }
        j += 1;
    }
    assert(hay@.subrange(i as int, i + needle@.len()) =~= needle@);
    true
}

/// Substring search: does `needle` occur anywhere in `hay`?
pub fn contains_substr(hay: &str, needle: &str) -> (r: bool)
    ensures
        r == has_substring(hay@, needle@),
{
    let hay_len = hay.unicode_len();
    let needle_len = needle.unicode_len();
    if needle_len > hay_len {
        return false;
    }
    let mut i: usize = 0;
    while i <= hay_len - needle_len
        invariant
            hay_len == hay@.len(),
            needle_len == needle@.len(),
            needle_len <= hay_len,
            0 <= i <= hay_len - needle_len + 1,
            forall|k: int|
                0 <= k < i ==> #[trigger] hay@.subrange(k, k + needle@.len()) != needle@,
        decreases hay_len - needle_len + 1 - i,
    {
        if matches_at(hay, hay_len, i, needle, needle_len) {
            return true;
        }
        proof {
            if needle@.len() == 0 {
                assert(hay@.subrange(i as int, i as int) =~= needle@);
            }
        }
        i += 1;
    }
    false
}

/// The characters of `p` that follow the first occurrence of `sep`; all of
/// `p` when `sep` does not occur in `p`.
pub open spec fn tail_after_first(p: Seq<char>, sep: char) -> Seq<char>
    decreases p.len(),
{
    if p.len() == 0 {
        p
    } else if p.first() == sep {
        p.drop_first()
    } else {
        tail_after_first(p.drop_first(), sep)
    }
}

/// `tail_after_first` returns exactly the suffix that starts right after the
/// first separator.
pub proof fn lemma_tail_after_first_is_suffix(p: Seq<char>, sep: char, j: int)
    requires
        0 <= j < p.len(),
        p[j] == sep,
        forall|k: int| 0 <= k < j ==> p[k] != sep,
    ensures
        tail_after_first(p, sep) == p.subrange(j + 1, p.len() as int),
    decreases p.len(),
{
    if j == 0 {
        assert(tail_after_first(p, sep) =~= p.subrange(1, p.len() as int));
    } else {
        let q = p.drop_first();
        assert(forall|k: int| 0 <= k < j - 1 ==> q[k] == p[k + 1] && q[k] != sep);
        assert(q[j - 1] == sep);
        lemma_tail_after_first_is_suffix(q, sep, j - 1);
        assert(q.subrange(j, q.len() as int) =~= p.subrange(j + 1, p.len() as int));
    }
}

/// Index of the first occurrence of `sep` in `s`, if any.
pub fn find_first(s: &str, sep: char) -> (r: Option<usize>)
    ensures
        match r {
            Some(j) => j < s@.len() && s@[j as int] == sep && forall|k: int|
                0 <= k < j ==> s@[k] != sep,
            None => !s@.contains(sep),
        },
{
    let n = s.unicode_len();
    let mut i: usize = 0;
    while i < n
        invariant
            n == s@.len(),
            0 <= i <= n,
            forall|k: int| 0 <= k < i ==> s@[k] != sep,
        decreases n - i,
    {
        if s.get_char(i) == sep {
            return Some(i);
        }
        i += 1;
    }
    assert(forall|k: int| 0 <= k < s@.len() ==> s@[k] != sep);
    None
}

/// Character-for-character equality of two strings.
pub fn str_eq(a: &str, b: &str) -> (r: bool)
    ensures
        r == (a@ == b@),
{
    let n = a.unicode_len();
    let m = b.unicode_len();
    if n != m {
        return false;
    }
    let mut i: usize = 0;
    while i < n
        invariant
            n == a@.len(),
            n == b@.len(),
            0 <= i <= n,
            forall|k: int| 0 <= k < i ==> a@[k] == b@[k],
        decreases n - i,
    {
        if a.get_char(i) != b.get_char(i) {
            return false;
        }
        i += 1;
    }
    assert(a@ =~= b@);
    true
}

/// Index of the last occurrence of `sep` in `s`, if any.
pub fn find_last(s: &str, sep: char) -> (r: Option<usize>)
    ensures
        match r {
            Some(j) => j < s@.len() && s@[j as int] == sep && forall|k: int|
                j < k < s@.len() ==> s@[k] != sep,
            None => !s@.contains(sep),
        },
{
    let n = s.unicode_len();
    let mut i: usize = n;
    while i > 0
        invariant
            n == s@.len(),
            0 <= i <= n,
            forall|k: int| i <= k < n ==> s@[k] != sep,
        decreases i,
    {
        if s.get_char(i - 1) == sep {
            return Some(i - 1);
        }
        i -= 1;
    }
    assert(forall|k: int| 0 <= k < s@.len() ==> s@[k] != sep);
    None
}

} // verus!
