//! Selection of note files from a listed directory tree, and content search.
//!
//! The caller lists the tree (every entry with its relative path, its file
//! name and whether it is a regular file) and, for the searcher, loads each
//! candidate's content. Everything decided about those plain values is
//! decided here: which entries are note files, the order the scanner reports,
//! and which contents match a query.

use vstd::prelude::*;

use crate::order::{sort_paths, sorted_lex, views_of};
use crate::text::{contains_str, lower_of, lowercase, occurs_at, query_matches};

verus! {

/// One entry of the walked tree: its path relative to the vault root, its
/// bare file name, and whether it is a regular file.
pub struct Entry {
    pub rel: String,
    pub name: String,
    pub is_file: bool,
}

/// One search candidate: its relative path and its content, absent when the
/// file could not be read as text.
pub struct Doc {
    pub rel: String,
    pub content: Option<String>,
}

/// The index of the last `.` in the name, `-1` when there is none.
pub open spec fn last_dot(name: Seq<char>) -> int
    decreases name.len(),
{
    if name.len() == 0 {
        -1
    } else if name[name.len() - 1] == '.' {
        name.len() - 1
    } else {
        last_dot(name.drop_last())
    }
}

/// The extension reads "md" ignoring ASCII case.
pub open spec fn is_md_ext(ext: Seq<char>) -> bool {
    ext.len() == 2 && (ext[0] == 'm' || ext[0] == 'M') && (ext[1] == 'd' || ext[1] == 'D')
}

/// The extension reads "txt" ignoring ASCII case.
pub open spec fn is_txt_ext(ext: Seq<char>) -> bool {
    ext.len() == 3 && (ext[0] == 't' || ext[0] == 'T') && (ext[1] == 'x' || ext[1] == 'X') && (
    ext[2] == 't' || ext[2] == 'T')
}

/// The file name has an extension (the text after its last dot, that dot not
/// being the first character) that reads "md" or "txt" ignoring ASCII case.
pub open spec fn has_note_ext(name: Seq<char>) -> bool {
    let j = last_dot(name);
    0 < j && {
        let ext = name.subrange(j + 1, name.len() as int);
        is_md_ext(ext) || is_txt_ext(ext)
    }
}

/// A note file: a regular file whose name carries a note extension.
pub open spec fn is_note_entry(e: Entry) -> bool {
    e.is_file && has_note_ext(e.name@)
}

/// The relative paths of the note entries, in the order they were listed.
pub open spec fn candidate_rels(entries: Seq<Entry>) -> Seq<Seq<char>>
    decreases entries.len(),
{
    if entries.len() == 0 {
        Seq::empty()
    } else {
        let rest = candidate_rels(entries.drop_last());
        if is_note_entry(entries.last()) {
            rest.push(entries.last().rel@)
        } else {
            rest
        }
    }
}

/// A matching doc: its content was read and the query matches it.
pub open spec fn doc_matches(d: Doc, query: Seq<char>) -> bool {
    d.content is Some && query_matches((d.content->0)@, query)
}

/// The relative paths of the matching docs, in the order they were listed.
pub open spec fn matching_rels(docs: Seq<Doc>, query: Seq<char>) -> Seq<Seq<char>>
    decreases docs.len(),
{
    if docs.len() == 0 {
        Seq::empty()
    } else {
        let rest = matching_rels(docs.drop_last(), query);
        if doc_matches(docs.last(), query) {
            rest.push(docs.last().rel@)
        } else {
            rest
        }
    }
}

/// The relative paths of the docs whose content was read, in order.
pub open spec fn readable_rels(docs: Seq<Doc>) -> Seq<Seq<char>>
    decreases docs.len(),
{
    if docs.len() == 0 {
        Seq::empty()
    } else {
        let rest = readable_rels(docs.drop_last());
        if docs.last().content is Some {
            rest.push(docs.last().rel@)
        } else {
            rest
        }
    }
}

/// The relative paths of all docs, in order.
pub open spec fn rels_of(docs: Seq<Doc>) -> Seq<Seq<char>> {
    docs.map_values(|d: Doc| d.rel@)
}

proof fn lemma_last_dot_range(name: Seq<char>)
    ensures
        -1 <= last_dot(name) < name.len(),
    decreases name.len(),
{
    if name.len() != 0 && name[name.len() - 1] != '.' {
        lemma_last_dot_range(name.drop_last());
    }
}

/// Whether the file name carries a note extension.
pub fn is_note_name(name: &str) -> (r: bool)
    ensures
        r == has_note_ext(name@),
{
    let n = name.unicode_len();
    let mut i: usize = 0;
    let mut dot: usize = 0;
    let mut has_dot = false;
    assert(name@.take(0) =~= Seq::<char>::empty());
    while i < n
        invariant
            0 <= i <= n,
            n == name@.len(),
            has_dot ==> 0 <= dot < i && last_dot(name@.take(i as int)) == dot,
            !has_dot ==> last_dot(name@.take(i as int)) == -1,
        decreases n - i,
    {
        let c = name.get_char(i);
        proof {
            assert(name@.take(i + 1).drop_last() =~= name@.take(i as int));
            assert(name@.take(i + 1).last() == name@[i as int]);
        }
        if c == '.' {
            dot = i;
            has_dot = true;
        }
        i = i + 1;
    }
    proof {
        assert(name@.take(n as int) =~= name@);
    }
    if !has_dot {
        return false;
    }
    if dot == 0 {
        return false;
    }
    let ghost ext = name@.subrange(dot + 1, n as int);
    let extlen = n - dot - 1;
    assert(ext.len() == extlen);
    if extlen == 2 {
        let c1 = name.get_char(dot + 1);
        let c2 = name.get_char(dot + 2);
        let r = (c1 == 'm' || c1 == 'M') && (c2 == 'd' || c2 == 'D');
        assert(ext[0] == name@[dot + 1] && ext[1] == name@[dot + 2]);
        assert(r == is_md_ext(ext));
        r
    } else if extlen == 3 {
        let c1 = name.get_char(dot + 1);
        let c2 = name.get_char(dot + 2);
        let c3 = name.get_char(dot + 3);
        let r = (c1 == 't' || c1 == 'T') && (c2 == 'x' || c2 == 'X') && (c3 == 't' || c3 == 'T');
        assert(ext[0] == name@[dot + 1] && ext[1] == name@[dot + 2] && ext[2] == name@[dot + 3]);
        assert(r == is_txt_ext(ext));
        r
    } else {
        false
    }
}

/// The relative paths of the note files among the entries, in the order the
/// entries were listed.
pub fn note_candidates(entries: &Vec<Entry>) -> (r: Vec<String>)
    ensures
        views_of(r@) == candidate_rels(entries@),
{
    let mut r: Vec<String> = Vec::new();
    let mut i: usize = 0;
    assert(views_of(r@) =~= Seq::<Seq<char>>::empty());
    assert(entries@.take(0) =~= Seq::<Entry>::empty());
    while i < entries.len()
        invariant
            0 <= i <= entries@.len(),
            views_of(r@) == candidate_rels(entries@.take(i as int)),
        decreases entries@.len() - i,
    {
        proof {
            assert(entries@.take(i + 1).drop_last() =~= entries@.take(i as int));
            assert(entries@.take(i + 1).last() == entries@[i as int]);
        }
        let note = entries[i].is_file && is_note_name(entries[i].name.as_str());
        if note {
            let ghost prevr = r@;
            r.push(entries[i].rel.clone());
            proof {
                assert(views_of(r@) =~= views_of(prevr).push(entries@[i as int].rel@));
            }
        }
        i = i + 1;
    }
    proof {
        assert(entries@.take(entries@.len() as int) =~= entries@);
    }
    r
}

/// What the scanner reports for a listed tree: the relative paths of exactly
/// the note files, in ascending lexicographic order.
pub fn scan_select(entries: &Vec<Entry>) -> (r: Vec<String>)
    ensures
        sorted_lex(views_of(r@)),
        views_of(r@).to_multiset() == candidate_rels(entries@).to_multiset(),
        r@.len() == candidate_rels(entries@).len(),
{
    let c = note_candidates(entries);
    assert(c@.len() == candidate_rels(entries@).len());
    sort_paths(c)
}

/// What the searcher reports for the loaded candidates: the relative paths of
/// the docs whose content was read and matches the query, in the order the
/// candidates were listed — not sorted. An empty query matches every doc that
/// was read.
pub fn search_select(docs: &Vec<Doc>, query: &str) -> (r: Vec<String>)
    ensures
        views_of(r@) == matching_rels(docs@, query@),
        query@.len() == 0 ==> views_of(r@) == readable_rels(docs@),
{
    let q = lowercase(query);
    let mut r: Vec<String> = Vec::new();
    let mut i: usize = 0;
    assert(views_of(r@) =~= Seq::<Seq<char>>::empty());
    assert(docs@.take(0) =~= Seq::<Doc>::empty());
    while i < docs.len()
        invariant
            0 <= i <= docs@.len(),
            q@ == lower_of(query@),
            query@.len() == 0 ==> q@.len() == 0,
            views_of(r@) == matching_rels(docs@.take(i as int), query@),
        decreases docs@.len() - i,
    {
        proof {
            assert(docs@.take(i + 1).drop_last() =~= docs@.take(i as int));
            assert(docs@.take(i + 1).last() == docs@[i as int]);
        }
        match &docs[i].content {
            Option::Some(c) => {
                let lc = lowercase(c.as_str());
                if contains_str(lc.as_str(), q.as_str()) {
                    let ghost prevr = r@;
                    r.push(docs[i].rel.clone());
                    proof {
                        assert(views_of(r@) =~= views_of(prevr).push(docs@[i as int].rel@));
                    }
                }
            },
            Option::None => {},
        }
        i = i + 1;
    }
    proof {
        assert(docs@.take(docs@.len() as int) =~= docs@);
        if query@.len() == 0 {
            lemma_empty_query_matches_readable(docs@, query@);
        }
    }
    r
}

/// A save path is acceptable exactly when it is not empty.
pub fn path_is_valid(path: &str) -> (r: bool)
    ensures
        r == (path@.len() != 0),
{
    !path.is_empty()
}

/// A query whose lowercase form is empty matches every doc that was read.
proof fn lemma_empty_query_matches_readable(docs: Seq<Doc>, query: Seq<char>)
    requires
        lower_of(query).len() == 0,
    ensures
        matching_rels(docs, query) == readable_rels(docs),
    decreases docs.len(),
{
    if docs.len() != 0 {
        lemma_empty_query_matches_readable(docs.drop_last(), query);
        let d = docs.last();
        if d.content is Some {
            assert(occurs_at(lower_of((d.content->0)@), lower_of(query), 0)) by {
                assert(lower_of((d.content->0)@).subrange(0, 0) =~= lower_of(query));
            }
            assert(doc_matches(d, query));
        }
    }
}

/// When every candidate could be read, the readable docs are exactly the
/// candidates: a search with an empty query reports the scanner's files,
/// in walk order rather than sorted.
pub proof fn lemma_all_readable_covers_scan(entries: Seq<Entry>, docs: Seq<Doc>)
    requires
        rels_of(docs) == candidate_rels(entries),
        forall|i: int| 0 <= i < docs.len() ==> docs[i].content is Some,
    ensures
        readable_rels(docs).to_multiset() == candidate_rels(entries).to_multiset(),
{
    lemma_readable_rels_all(docs);
}

/// When every doc was read, the readable docs are all of them, in order.
proof fn lemma_readable_rels_all(docs: Seq<Doc>)
    requires
        forall|i: int| 0 <= i < docs.len() ==> docs[i].content is Some,
    ensures
        readable_rels(docs) == rels_of(docs),
    decreases docs.len(),
{
    if docs.len() != 0 {
        lemma_readable_rels_all(docs.drop_last());
        assert(readable_rels(docs) =~= rels_of(docs));
    }
}

/// Every path the scanner can report belongs to some note entry: nothing from
/// an excluded file or directory is reported.
pub proof fn lemma_candidates_are_note_entries(entries: Seq<Entry>, k: int)
    requires
        0 <= k < candidate_rels(entries).len(),
    ensures
        exists|i: int|
            0 <= i < entries.len() && is_note_entry(entries[i]) && entries[i].rel@
                == candidate_rels(entries)[k],
    decreases entries.len(),
{
    let rest = candidate_rels(entries.drop_last());
    if is_note_entry(entries.last()) && k == rest.len() {
        assert(entries.last() == entries[entries.len() - 1]);
    } else {
        lemma_candidates_are_note_entries(entries.drop_last(), k);
        let i = choose|i: int|
            0 <= i < entries.drop_last().len() && is_note_entry(entries.drop_last()[i])
                && entries.drop_last()[i].rel@ == rest[k];
        assert(entries[i] == entries.drop_last()[i]);
    }
}

} // verus!
