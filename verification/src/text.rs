//! Case folding and substring containment on text.
//!
//! The searcher matches a query against a file's content by lowercasing both
//! sides and testing substring containment. Lowercasing is delegated to the
//! standard library and its result is only named, not described; containment
//! is implemented and proved here.

use vstd::prelude::*;

verus! {

/// The needle occurs in the haystack starting at position `k`.
pub open spec fn occurs_at(hay: Seq<char>, needle: Seq<char>, k: int) -> bool {
    0 <= k && k + needle.len() <= hay.len() && hay.subrange(k, k + needle.len()) == needle
}

/// The needle occurs somewhere in the haystack. An empty needle occurs in
/// every haystack.
pub open spec fn has_substring(hay: Seq<char>, needle: Seq<char>) -> bool {
    exists|k: int| occurs_at(hay, needle, k)
}

/// The lowercase form of a string, as `str::to_lowercase` computes it.
pub uninterp spec fn lower_of(s: Seq<char>) -> Seq<char>;

/// A query matches a content when the lowercase form of the query occurs in
/// the lowercase form of the content.
pub open spec fn query_matches(content: Seq<char>, query: Seq<char>) -> bool {
    has_substring(lower_of(content), lower_of(query))
}

/// Relies on str::to_lowercase: the result depends on the characters alone,
/// and an empty string stays empty.
#[verifier::external_body]
pub(crate) fn lowercase(s: &str) -> (r: String)
    ensures
        r@ == lower_of(s@),
        s@.len() == 0 ==> r@.len() == 0,
{
    s.to_lowercase()
}

/// The needle occurs at `k` as soon as it matches character by character.
proof fn lemma_occurs_at_pointwise(hay: Seq<char>, needle: Seq<char>, k: int)
    requires
        0 <= k,
        k + needle.len() <= hay.len(),
        forall|j: int| 0 <= j < needle.len() ==> hay[k + j] == needle[j],
    ensures
        occurs_at(hay, needle, k),
{
    assert(hay.subrange(k, k + needle.len()) =~= needle);
}

/// Whether the needle occurs in the haystack at position `k`.
fn match_at(hay: &str, needle: &str, k: usize, n: usize, m: usize) -> (r: bool)
    requires
        n == hay@.len(),
        m == needle@.len(),
        k + m <= n,
    ensures
        r == occurs_at(hay@, needle@, k as int),
{
    let mut j: usize = 0;
    while j < m
        invariant
            0 <= j <= m,
            n == hay@.len(),
            m == needle@.len(),
            k + m <= n,
            forall|jj: int| 0 <= jj < j ==> hay@[k + jj] == needle@[jj],
        decreases m - j,
    {
        let ch = hay.get_char(k + j);
        let cn = needle.get_char(j);
        if ch != cn {
            assert(!occurs_at(hay@, needle@, k as int)) by {
                assert(hay@.subrange(k as int, k + m) != needle@) by {
                    assert(hay@.subrange(k as int, k + m)[j as int] == hay@[k + j]);
                }
            }
            return false;
        }
        j = j + 1;
    }
    proof {
        lemma_occurs_at_pointwise(hay@, needle@, k as int);
    }
    true
}

/// Whether the needle occurs anywhere in the haystack, as `str::contains`
/// would report for these two strings.
pub fn contains_str(hay: &str, needle: &str) -> (r: bool)
    ensures
        r == has_substring(hay@, needle@),
{
    let n = hay.unicode_len();
    let m = needle.unicode_len();
    if m == 0 {
        proof {
            lemma_occurs_at_pointwise(hay@, needle@, 0);
        }
        return true;
    }
    if m > n {
        assert(forall|k: int| !occurs_at(hay@, needle@, k));
        return false;
    }
    let mut k: usize = 0;
    while k <= n - m
        invariant
            0 <= k <= n - m + 1,
            0 < m <= n,
            n == hay@.len(),
            m == needle@.len(),
            forall|kk: int| 0 <= kk < k ==> !occurs_at(hay@, needle@, kk),
        decreases n - k,
    {
        if match_at(hay, needle, k, n, m) {
            return true;
        }
        k = k + 1;
    }
    assert(forall|kk: int| !occurs_at(hay@, needle@, kk));
    false
}

} // verus!
