//! Library-identity keys derived from artifact file stems.
//!
//! Artifacts are named `<libraryname>-<disambiguator>`: the key is everything
//! before the last hyphen.  A stem without a hyphen yields no key, and such a
//! file never takes part in grouping.

use vstd::prelude::*;

verus! {

/// The library-identity key of a file stem: the prefix before the last
/// hyphen, or `None` when the stem holds no hyphen at all.
pub open spec fn stem_key(s: Seq<char>) -> Option<Seq<char>>
    decreases s.len(),
{
    if s.len() == 0 {
        None
    } else if s.last() == '-' {
        Some(s.drop_last())
    } else {
        stem_key(s.drop_last())
    }
}

/// A stem whose characters after position `h` are hyphen-free, with a hyphen
/// at `h` itself, has the prefix up to `h` as its key.
proof fn lemma_stem_key_at(s: Seq<char>, h: int)
    requires
        0 <= h < s.len(),
        s[h] == '-',
        forall|j: int| h < j < s.len() ==> s[j] != '-',
    ensures
        stem_key(s) == Some(s.subrange(0, h)),
    decreases s.len(),
{
    if h == s.len() - 1 {
        assert(s.last() == '-');
        assert(s.drop_last() =~= s.subrange(0, h));
    } else {
        assert(s.last() != '-');
        lemma_stem_key_at(s.drop_last(), h);
        assert(s.drop_last().subrange(0, h) =~= s.subrange(0, h));
    }
}

/// A stem without any hyphen has no key.
proof fn lemma_stem_key_none(s: Seq<char>)
    requires
        forall|j: int| 0 <= j < s.len() ==> s[j] != '-',
    ensures
        stem_key(s) is None,
    decreases s.len(),
{
    if s.len() > 0 {
        lemma_stem_key_none(s.drop_last());
    }
}

/// Character-wise string equality, so that callers learn that the views are
/// equal exactly when the call returns true.
pub fn str_eq(a: &str, b: &str) -> (r: bool)
    ensures
        r == (a@ == b@),
{
    let na = a.unicode_len();
    let nb = b.unicode_len();
    if na != nb {
        return false;
    }
    let mut i: usize = 0;
    while i < na
        invariant
            i <= na,
            na == a@.len(),
            nb == b@.len(),
            na == nb,
            forall|j: int| 0 <= j < i ==> a@[j] == b@[j],
        decreases na - i,
    {
        if a.get_char(i) != b.get_char(i) {
            return false;
        }
        i = i + 1;
    }
    proof {
        assert(a@ =~= b@);
    }
    true
}

/// Splits a file stem on its last hyphen and returns the library-identity
/// prefix, or `None` when the stem holds no hyphen.
pub fn library_key(stem: &str) -> (r: Option<String>)
    ensures
        match r {
            Some(k) => stem_key(stem@) == Some(k@),
            None => stem_key(stem@) is None,
        },
{
    let n = stem.unicode_len();
    let mut i: usize = n;
    while i > 0
        invariant
            i <= n,
            n == stem@.len(),
            forall|j: int| i <= j < n ==> stem@[j] != '-',
        decreases i,
    {
        i = i - 1;
        if stem.get_char(i) == '-' {
            let prefix = stem.substring_char(0, i);
            proof {
                lemma_stem_key_at(stem@, i as int);
            }
            return Some(String::from_str(prefix));
        }
    }
    proof {
        lemma_stem_key_none(stem@);
    }
    None
}

} // verus!
