//! Lexicographic ordering of relative paths and a verified sort.
//!
//! The scanner reports relative paths in ascending lexicographic order by
//! character code point, which on valid text coincides with the byte order
//! the platform's string comparison uses. The order, its laws and the sort
//! are all stated and proved here.

use vstd::prelude::*;

verus! {

/// `a` precedes `b` (or equals it) in lexicographic order by code point.
pub open spec fn lex_le(a: Seq<char>, b: Seq<char>) -> bool
    decreases a.len(),
{
    if a.len() == 0 {
        true
    } else if b.len() == 0 {
        false
    } else if (a[0] as u32) < (b[0] as u32) {
        true
    } else if (b[0] as u32) < (a[0] as u32) {
        false
    } else {
        lex_le(a.drop_first(), b.drop_first())
    }
}

/// The views of a vector of strings, in order.
pub open spec fn views_of(paths: Seq<String>) -> Seq<Seq<char>> {
    paths.map_values(|p: String| p@)
}

/// Every element precedes every later one: ascending lexicographic order.
pub open spec fn sorted_lex(paths: Seq<Seq<char>>) -> bool {
    forall|i: int, j: int| 0 <= i < j < paths.len() ==> lex_le(paths[i], paths[j])
}

/// Any two sequences are comparable: the order is total.
pub proof fn lemma_lex_le_total(a: Seq<char>, b: Seq<char>)
    ensures
        lex_le(a, b) || lex_le(b, a),
    decreases a.len(),
{
    if a.len() != 0 && b.len() != 0 && a[0] as u32 == b[0] as u32 {
        lemma_lex_le_total(a.drop_first(), b.drop_first());
    }
}

/// The order is transitive.
pub proof fn lemma_lex_le_trans(a: Seq<char>, b: Seq<char>, c: Seq<char>)
    requires
        lex_le(a, b),
        lex_le(b, c),
    ensures
        lex_le(a, c),
    decreases a.len(),
{
    if a.len() != 0 && b.len() != 0 && c.len() != 0 && a[0] as u32 == b[0] as u32 && b[0] as u32
        == c[0] as u32 {
        lemma_lex_le_trans(a.drop_first(), b.drop_first(), c.drop_first());
    }
}

/// Positions `0..i` of the two sequences agree; the verdict of `lex_le` is
/// then decided at position `i`.
proof fn lemma_lex_le_common_prefix(a: Seq<char>, b: Seq<char>, i: int)
    requires
        0 <= i <= a.len(),
        i <= b.len(),
        forall|j: int| 0 <= j < i ==> a[j] as u32 == b[j] as u32,
    ensures
        i == a.len() ==> lex_le(a, b),
        i < a.len() && i == b.len() ==> !lex_le(a, b),
        i < a.len() && i < b.len() && (a[i] as u32) < (b[i] as u32) ==> lex_le(a, b),
        i < a.len() && i < b.len() && (b[i] as u32) < (a[i] as u32) ==> !lex_le(a, b),
    decreases i,
{
    if i > 0 {
        lemma_lex_le_common_prefix(a.drop_first(), b.drop_first(), i - 1);
    }
}

/// Whether `a` precedes `b` (or equals it) in lexicographic order.
pub fn str_le(a: &str, b: &str) -> (r: bool)
    ensures
        r == lex_le(a@, b@),
{
    let n = a.unicode_len();
    let m = b.unicode_len();
    let mut i: usize = 0;
    while i < n && i < m
        invariant
            0 <= i <= n,
            i <= m,
            n == a@.len(),
            m == b@.len(),
            forall|j: int| 0 <= j < i ==> a@[j] as u32 == b@[j] as u32,
        decreases n - i,
    {
        let ca = a.get_char(i);
        let cb = b.get_char(i);
        if (ca as u32) < (cb as u32) {
            proof {
                lemma_lex_le_common_prefix(a@, b@, i as int);
            }
            return true;
        }
        if (cb as u32) < (ca as u32) {
            proof {
                lemma_lex_le_common_prefix(a@, b@, i as int);
            }
            return false;
        }
        i = i + 1;
    }
    proof {
        lemma_lex_le_common_prefix(a@, b@, i as int);
    }
    i == n
}

/// Where the new path belongs in the sorted prefix: the first position whose
/// element does not precede it.
fn insert_position(out: &Vec<String>, s: &String) -> (pos: usize)
    ensures
        0 <= pos <= out@.len(),
        forall|k: int| 0 <= k < pos ==> lex_le(views_of(out@)[k], s@),
        pos < out@.len() ==> !lex_le(views_of(out@)[pos as int], s@),
{
    let mut pos: usize = 0;
    loop
        invariant
            0 <= pos <= out@.len(),
            forall|k: int| 0 <= k < pos ==> lex_le(views_of(out@)[k], s@),
        ensures
            0 <= pos <= out@.len(),
            forall|k: int| 0 <= k < pos ==> lex_le(views_of(out@)[k], s@),
            pos < out@.len() ==> !lex_le(views_of(out@)[pos as int], s@),
        decreases out@.len() - pos,
    {
        if pos == out.len() {
            break;
        }
        if !str_le(&out[pos], s) {
            break;
        }
        pos = pos + 1;
    }
    pos
}

/// The paths of `v`, in ascending lexicographic order: the same strings as a
/// multiset, sorted, and as many of them.
pub fn sort_paths(paths: Vec<String>) -> (r: Vec<String>)
    ensures
        sorted_lex(views_of(r@)),
        views_of(r@).to_multiset() == views_of(paths@).to_multiset(),
        r@.len() == paths@.len(),
{
    broadcast use vstd::seq_lib::group_to_multiset_ensures;

    let mut out: Vec<String> = Vec::new();
    let mut i: usize = 0;
    assert(views_of(out@) =~= Seq::<Seq<char>>::empty());
    assert(views_of(paths@.take(0)) =~= Seq::<Seq<char>>::empty());
    while i < paths.len()
        invariant
            0 <= i <= paths@.len(),
            out@.len() == i,
            sorted_lex(views_of(out@)),
            views_of(out@).to_multiset() == views_of(paths@.take(i as int)).to_multiset(),
        decreases paths@.len() - i,
    {
        let s = paths[i].clone();
        let ghost prev = out@;
        let pos = insert_position(&out, &s);
        out.insert(pos, s);
        proof {
            let vold = views_of(prev);
            let vnew = views_of(out@);
            let p = pos as int;
            assert(vnew =~= vold.insert(p, s@));
            assert forall|x: int, y: int| 0 <= x < y < vnew.len() implies lex_le(
                vnew[x],
                vnew[y],
            ) by {
                if y < p {
                    assert(vnew[x] == vold[x] && vnew[y] == vold[y]);
                } else if x > p {
                    assert(vnew[x] == vold[x - 1] && vnew[y] == vold[y - 1]);
                } else if y == p {
                    assert(vnew[x] == vold[x] && vnew[y] == s@);
                } else {
                    // x <= p < y, so position p is inside vold
                    assert(p < vold.len());
                    assert(vnew[y] == vold[y - 1]);
                    lemma_lex_le_total(vold[p], s@);
                    if y - 1 > p {
                        lemma_lex_le_trans(s@, vold[p], vold[y - 1]);
                    }
                    if x < p {
                        assert(vnew[x] == vold[x]);
                        lemma_lex_le_trans(vold[x], s@, vnew[y]);
                    } else {
                        assert(vnew[x] == s@);
                    }
                }
            }
            assert(vnew.to_multiset() == vold.insert(p, s@).to_multiset());
            vstd::seq_lib::to_multiset_insert::<Seq<char>>(vold, p, s@);
            assert(views_of(paths@.take(i + 1)) =~= views_of(paths@.take(i as int)).push(
                paths@[i as int]@,
            ));
            vstd::seq_lib::to_multiset_build::<Seq<char>>(
                views_of(paths@.take(i as int)),
                paths@[i as int]@,
            );
            assert(s@ == paths@[i as int]@);
        }
        i = i + 1;
    }
    proof {
        assert(paths@.take(paths@.len() as int) =~= paths@);
    }
    out
}

} // verus!
