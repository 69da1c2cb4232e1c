//! The search query engine and the incremental-sync feed.
//!
//! `search_notes` combines four independent predicates with logical AND and
//! orders by `updated_at` descending; `get_notes_since` feeds sync rounds
//! with everything touched after a watermark, ascending. Where timestamps
//! tie, the order between the tied notes is not pinned down, exactly as the
//! underlying storage engine leaves it open; everything else is.

use vstd::prelude::*;

use crate::models::{Note, NoteV, QueryV, SearchQuery};
use crate::store::{distinct_note_ids, lemma_notes_map, Store};
use crate::text::{chars_contain, chars_le, contains_seq, lex_le, str_to_chars};

verus! {

/// The note carries this exact tag.
pub open spec fn has_tag(n: NoteV, t: Seq<char>) -> bool {
    exists|j: int| 0 <= j < n.tags.len() && n.tags[j] == t
}

/// The four search predicates, conjoined:
/// deletion visibility, substring containment in the content (case-sensitive),
/// exact membership of every queried tag, and an inclusive date range that an
/// undated note never falls into.
pub open spec fn matches_query(q: QueryV, n: NoteV) -> bool {
    &&& (q.include_deleted || n.deleted_at is None)
    &&& (match q.text {
        Some(t) => contains_seq(n.content, t),
        None => true,
    })
    &&& (forall|i: int| 0 <= i < q.tags.len() ==> has_tag(n, #[trigger] q.tags[i]))
    &&& (match q.date_from {
        Some(f) => n.subject_date is Some && lex_le(f, n.subject_date->0),
        None => true,
    })
    &&& (match q.date_to {
        Some(t) => n.subject_date is Some && lex_le(n.subject_date->0, t),
        None => true,
    })
}

/// Most recently touched first.
pub open spec fn sorted_desc(s: Seq<NoteV>) -> bool {
    forall|i: int, j: int| 0 <= i < j < s.len() ==> s[i].updated_at >= s[j].updated_at
}

/// Oldest touch first.
pub open spec fn sorted_asc(s: Seq<NoteV>) -> bool {
    forall|i: int, j: int| 0 <= i < j < s.len() ==> s[i].updated_at <= s[j].updated_at
}

/// Some element of the result carries this id.
pub open spec fn in_result(rs: Seq<NoteV>, id: Seq<char>) -> bool {
    exists|i: int| 0 <= i < rs.len() && rs[i].id == id
}

/// Soundness of a result taken from the note map `m`: ids are unique and
/// every element is exactly the stored note for its id, and matches.
pub open spec fn result_from(m: Map<Seq<char>, NoteV>, rs: Seq<NoteV>, q: QueryV) -> bool {
    &&& distinct_note_ids(rs)
    &&& forall|i: int| 0 <= i < rs.len() ==> {
        &&& m.contains_key((#[trigger] rs[i]).id)
        &&& m[rs[i].id] == rs[i]
        &&& matches_query(q, rs[i])
    }
}

/// Completeness: every stored note that matches appears in the result.
pub open spec fn complete_for(m: Map<Seq<char>, NoteV>, rs: Seq<NoteV>, q: QueryV) -> bool {
    forall|id: Seq<char>|
        m.contains_key(id) && matches_query(q, #[trigger] m[id]) ==> in_result(rs, id)
}

/// Exact membership test for one tag.
fn has_tag_exec(note: &Note, tag: &String) -> (r: bool)
    ensures
        r == has_tag(note@, tag@),
{
    let mut j: usize = 0;
    while j < note.tags.len()
        invariant
            j <= note.tags.len(),
            forall|k: int| 0 <= k < j ==> note@.tags[k] != tag@,
        decreases note.tags.len() - j,
    {
        if note.tags[j] == *tag {
            assert(note@.tags[j as int] == tag@);
            return true;
        }
        j = j + 1;
    }
    false
}

/// Whether the note satisfies every predicate of the query.
pub fn note_matches(note: &Note, query: &SearchQuery) -> (r: bool)
    ensures
        r == matches_query(query@, note@),
{
    if !query.include_deleted && note.deleted_at.is_some() {
        return false;
    }
    if let Some(t) = &query.text {
        let content_chars = str_to_chars(note.content.as_str());
        let term_chars = str_to_chars(t.as_str());
        if !chars_contain(&content_chars, &term_chars) {
            return false;
        }
    }
    let mut i: usize = 0;
    while i < query.tags.len()
        invariant
            i <= query.tags.len(),
            forall|k: int| 0 <= k < i ==> has_tag(note@, #[trigger] query@.tags[k]),
        decreases query.tags.len() - i,
    {
        if !has_tag_exec(note, &query.tags[i]) {
            assert(!has_tag(note@, query@.tags[i as int]));
            return false;
        }
        i = i + 1;
    }
    if let Some(f) = &query.date_from {
        match &note.subject_date {
            None => {
                return false;
            }
            Some(d) => {
                if !chars_le(&str_to_chars(f.as_str()), &str_to_chars(d.as_str())) {
                    return false;
                }
            }
        }
    }
    if let Some(t) = &query.date_to {
        match &note.subject_date {
            None => {
                return false;
            }
            Some(d) => {
                if !chars_le(&str_to_chars(d.as_str()), &str_to_chars(t.as_str())) {
                    return false;
                }
            }
        }
    }
    true
}

/// Insert a note into a list sorted by `updated_at` descending, keeping it
/// sorted; the new list is the old one with the note slid in at one position.
#[verifier::loop_isolation(false)]
fn insert_sorted_desc(out: &mut Vec<Note>, n: Note)
    requires
        sorted_desc(old(out).deep_view()),
    ensures
        sorted_desc(final(out).deep_view()),
        exists|p: int|
            0 <= p <= old(out).deep_view().len() && final(out).deep_view() == old(
                out,
            ).deep_view().insert(p, n@),
{
    let ghost odv = out.deep_view();
    let ghost nv = n@;
    let mut p: usize = 0;
    while p < out.len() && out[p].updated_at >= n.updated_at
        invariant
            p <= out.len(),
            forall|j: int| 0 <= j < p ==> odv[j].updated_at >= nv.updated_at,
        decreases out.len() - p,
    {
        p = p + 1;
    }
    out.insert(p, n);
    proof {
        assert(out.deep_view() =~= odv.insert(p as int, nv));
        odv.insert_ensures(p as int, nv);
        assert forall|i: int, j: int|
            0 <= i < j < out.deep_view().len() implies out.deep_view()[i].updated_at >= out.deep_view()[j].updated_at by {
            let t = out.deep_view();
            if i < p && j == p {
                assert(t[i] == odv[i]);
            } else if i == p && j > p {
                assert(t[j] == odv[j - 1]);
                if p < odv.len() {
                    assert(odv[p as int].updated_at >= odv[j - 1].updated_at);
                }
            }
        }
    }
}

/// Insert a note into a list sorted by `updated_at` ascending.
#[verifier::loop_isolation(false)]
fn insert_sorted_asc(out: &mut Vec<Note>, n: Note)
    requires
        sorted_asc(old(out).deep_view()),
    ensures
        sorted_asc(final(out).deep_view()),
        exists|p: int|
            0 <= p <= old(out).deep_view().len() && final(out).deep_view() == old(
                out,
            ).deep_view().insert(p, n@),
{
    let ghost odv = out.deep_view();
    let ghost nv = n@;
    let mut p: usize = 0;
    while p < out.len() && out[p].updated_at <= n.updated_at
        invariant
            p <= out.len(),
            forall|j: int| 0 <= j < p ==> odv[j].updated_at <= nv.updated_at,
        decreases out.len() - p,
    {
        p = p + 1;
    }
    out.insert(p, n);
    proof {
        assert(out.deep_view() =~= odv.insert(p as int, nv));
        odv.insert_ensures(p as int, nv);
        assert forall|i: int, j: int|
            0 <= i < j < out.deep_view().len() implies out.deep_view()[i].updated_at <= out.deep_view()[j].updated_at by {
            let t = out.deep_view();
            if i < p && j == p {
                assert(t[i] == odv[i]);
            } else if i == p && j > p {
                assert(t[j] == odv[j - 1]);
                if p < odv.len() {
                    assert(odv[p as int].updated_at <= odv[j - 1].updated_at);
                }
            }
        }
    }
}

/// Search the store: every note satisfying the query, most recently touched
/// first, truncated to the cap after ordering. Without a cap the result holds
/// exactly the matching notes; with a cap of `l` it holds matching notes
/// only, at most `l` of them, and every matching note left out is no newer
/// than the last one kept.
#[verifier::loop_isolation(false)]
pub fn search_notes(store: &Store, query: &SearchQuery) -> (r: Vec<Note>)
    requires
        store.wf(),
    ensures
        result_from(store.notes_model(), r.deep_view(), query@),
        sorted_desc(r.deep_view()),
        query@.limit is None ==> complete_for(store.notes_model(), r.deep_view(), query@),
        query@.limit matches Some(l) ==> {
            &&& r.deep_view().len() <= l
            &&& r.deep_view().len() < l ==> complete_for(store.notes_model(), r.deep_view(), query@)
            &&& forall|id: Seq<char>|
                store.notes_model().contains_key(id) && matches_query(
                    query@,
                    #[trigger] store.notes_model()[id],
                ) && !in_result(r.deep_view(), id) ==> l == 0 || (r.deep_view().len() == l
                    && store.notes_model()[id].updated_at <= r.deep_view()[l - 1].updated_at)
        },
{
    let ghost ns = store.notes_seq();
    let ghost m = store.notes_model();
    proof {
        lemma_notes_map(ns);
    }
    let mut out: Vec<Note> = Vec::new();
    let mut i: usize = 0;
    proof {
        assert(out.deep_view() =~= Seq::<NoteV>::empty());
    }
    while i < store.notes.len()
        invariant
            i <= ns.len(),
            sorted_desc(out.deep_view()),
            distinct_note_ids(out.deep_view()),
            forall|a: int|
                0 <= a < out.deep_view().len() ==> matches_query(
                    query@,
                    #[trigger] out.deep_view()[a],
                ),
            forall|a: int|
                0 <= a < out.deep_view().len() ==> exists|k: int|
                    0 <= k < i && (#[trigger] out.deep_view()[a]) == ns[k],
            forall|k: int|
                0 <= k < i && matches_query(query@, #[trigger] ns[k]) ==> in_result(
                    out.deep_view(),
                    ns[k].id,
                ),
        decreases store.notes.len() - i,
    {
        let note = &store.notes[i];
        proof {
            assert(note@ == ns[i as int]);
        }
        if note_matches(note, query) {
            let ghost before = out.deep_view();
            insert_sorted_desc(&mut out, note.duplicate());
            proof {
                assert(matches_query(query@, ns[i as int]));
                let p = choose|p: int|
                    0 <= p <= before.len() && out.deep_view() == before.insert(p, ns[i as int]);
                before.insert_ensures(p, ns[i as int]);
                let t = out.deep_view();
                assert forall|a: int| 0 <= a < t.len() implies matches_query(
                    query@,
                    #[trigger] t[a],
                ) && exists|k: int| 0 <= k < i + 1 && t[a] == #[trigger] ns[k] by {
                    if a < p {
                        assert(t[a] == before[a]);
                        let k0 = choose|k: int| 0 <= k < i && before[a] == #[trigger] ns[k];
                        assert(0 <= k0 < i + 1 && t[a] == ns[k0]);
                    } else if a == p {
                        assert(t[a] == ns[i as int]);
                    } else {
                        assert(t[a] == before[a - 1]);
                        let k0 = choose|k: int| 0 <= k < i && before[a - 1] == #[trigger] ns[k];
                        assert(0 <= k0 < i + 1 && t[a] == ns[k0]);
                    }
                }
                assert forall|k: int|
                    0 <= k < i + 1 && matches_query(query@, #[trigger] ns[k]) implies in_result(
                    t,
                    ns[k].id,
                ) by {
                    if k == i {
                        assert(t[p] == ns[i as int]);
                    } else {
                        let a = choose|a: int| 0 <= a < before.len() && before[a].id == ns[k].id;
                        if a < p {
                            assert(t[a] == before[a]);
                        } else {
                            assert(t[a + 1] == before[a]);
                        }
                    }
                }
                assert forall|a: int, b: int|
                    0 <= a < b < t.len() implies t[a].id != t[b].id by {
                    if a == p || b == p {
                        let other: int = if a == p { b } else { a };
                        let o_pre: int = if other < p { other } else { other - 1 };
                        assert(t[other] == before[o_pre]);
                        let k = choose|k: int| 0 <= k < i && before[o_pre] == #[trigger] ns[k];
                        assert(ns[k].id != ns[i as int].id);
                    } else {
                        let a_pre: int = if a < p { a } else { a - 1 };
                        let b_pre: int = if b < p { b } else { b - 1 };
                        assert(t[a] == before[a_pre]);
                        assert(t[b] == before[b_pre]);
                    }
                }
            }
        }
        i = i + 1;
    }
    proof {
        assert forall|a: int| 0 <= a < out.deep_view().len() implies {
            &&& m.contains_key((#[trigger] out.deep_view()[a]).id)
            &&& m[out.deep_view()[a].id] == out.deep_view()[a]
            &&& matches_query(query@, out.deep_view()[a])
        } by {
            let k = choose|k: int| 0 <= k < ns.len() && out.deep_view()[a] == #[trigger] ns[k];
            assert(m[ns[k].id] == ns[k]);
        }
        assert forall|id: Seq<char>|
            m.contains_key(id) && matches_query(query@, #[trigger] m[id]) implies in_result(
            out.deep_view(),
            id,
        ) by {
            let k = choose|k: int| 0 <= k < ns.len() && (#[trigger] ns[k]).id == id;
            assert(m[ns[k].id] == ns[k]);
            assert(matches_query(query@, ns[k]));
        }
    }
    match query.limit {
        None => out,
        Some(l) => {
            let ghost full = out.deep_view();
            out.truncate(l);
            proof {
                if l < full.len() {
                    assert(out.deep_view() =~= full.subrange(0, l as int));
                } else {
                    assert(out.deep_view() =~= full);
                }
                let t = out.deep_view();
                assert forall|id: Seq<char>|
                    m.contains_key(id) && matches_query(query@, #[trigger] m[id]) && !in_result(
                    t,
                    id,
                ) implies l == 0 || (t.len() == l && m[id].updated_at <= t[l - 1].updated_at) by {
                    let a = choose|a: int| 0 <= a < full.len() && full[a].id == id;
                    assert(m[full[a].id] == full[a]);
                    if l < full.len() {
                        if a < t.len() {
                            assert(t[a] == full[a]);
                            assert(false);
                        }
                        if l > 0 {
                            assert(t[l - 1] == full[l - 1]);
                            assert(full[l - 1].updated_at >= full[a].updated_at);
                        }
                    } else {
                        assert(t[a] == full[a]);
                        assert(false);
                    }
                }
            }
            out
        }
    }
}

/// The incremental-sync feed: every note — tombstones included — whose
/// `updated_at` is strictly greater than the watermark, oldest touch first,
/// and nothing else.
#[verifier::loop_isolation(false)]
pub fn get_notes_since(store: &Store, timestamp: i64) -> (r: Vec<Note>)
    requires
        store.wf(),
    ensures
        distinct_note_ids(r.deep_view()),
        sorted_asc(r.deep_view()),
        forall|i: int| 0 <= i < r.deep_view().len() ==> {
            &&& store.notes_model().contains_key((#[trigger] r.deep_view()[i]).id)
            &&& store.notes_model()[r.deep_view()[i].id] == r.deep_view()[i]
            &&& r.deep_view()[i].updated_at > timestamp
        },
        forall|id: Seq<char>|
            store.notes_model().contains_key(id) && (#[trigger] store.notes_model()[id]).updated_at
                > timestamp ==> in_result(r.deep_view(), id),
{
    let ghost ns = store.notes_seq();
    let ghost m = store.notes_model();
    proof {
        lemma_notes_map(ns);
    }
    let mut out: Vec<Note> = Vec::new();
    let mut i: usize = 0;
    proof {
        assert(out.deep_view() =~= Seq::<NoteV>::empty());
    }
    while i < store.notes.len()
        invariant
            i <= ns.len(),
            sorted_asc(out.deep_view()),
            distinct_note_ids(out.deep_view()),
            forall|a: int|
                0 <= a < out.deep_view().len() ==> exists|k: int|
                    0 <= k < i && (#[trigger] out.deep_view()[a]) == ns[k] && ns[k].updated_at
                        > timestamp,
            forall|k: int|
                0 <= k < i && (#[trigger] ns[k]).updated_at > timestamp ==> in_result(
                    out.deep_view(),
                    ns[k].id,
                ),
        decreases store.notes.len() - i,
    {
        let note = &store.notes[i];
        if note.updated_at > timestamp {
            let ghost before = out.deep_view();
            insert_sorted_asc(&mut out, note.duplicate());
            proof {
                let p = choose|p: int|
                    0 <= p <= before.len() && out.deep_view() == before.insert(p, ns[i as int]);
                before.insert_ensures(p, ns[i as int]);
                let t = out.deep_view();
                assert forall|a: int| 0 <= a < t.len() implies exists|k: int|
                    0 <= k < i + 1 && (#[trigger] t[a]) == ns[k] && ns[k].updated_at > timestamp by {
                    if a < p {
                        assert(t[a] == before[a]);
                    } else if a == p {
                        assert(t[a] == ns[i as int]);
                    } else {
                        assert(t[a] == before[a - 1]);
                    }
                }
                assert forall|k: int|
                    0 <= k < i + 1 && (#[trigger] ns[k]).updated_at > timestamp implies in_result(
                    t,
                    ns[k].id,
                ) by {
                    if k == i {
                        assert(t[p] == ns[i as int]);
                    } else {
                        let a = choose|a: int| 0 <= a < before.len() && before[a].id == ns[k].id;
                        if a < p {
                            assert(t[a] == before[a]);
                        } else {
                            assert(t[a + 1] == before[a]);
                        }
                    }
                }
                assert forall|a: int, b: int|
                    0 <= a < b < t.len() implies t[a].id != t[b].id by {
                    if a == p || b == p {
                        let other: int = if a == p { b } else { a };
                        let o_pre: int = if other < p { other } else { other - 1 };
                        assert(t[other] == before[o_pre]);
                        let k = choose|k: int|
                            0 <= k < i && before[o_pre] == ns[k] && ns[k].updated_at > timestamp;
                        assert(ns[k].id != ns[i as int].id);
                    } else {
                        let a_pre: int = if a < p { a } else { a - 1 };
                        let b_pre: int = if b < p { b } else { b - 1 };
                        assert(t[a] == before[a_pre]);
                        assert(t[b] == before[b_pre]);
                    }
                }
            }
        }
        i = i + 1;
    }
    proof {
        assert forall|a: int| 0 <= a < out.deep_view().len() implies {
            &&& m.contains_key((#[trigger] out.deep_view()[a]).id)
            &&& m[out.deep_view()[a].id] == out.deep_view()[a]
            &&& out.deep_view()[a].updated_at > timestamp
        } by {
            let k = choose|k: int|
                0 <= k < ns.len() && out.deep_view()[a] == ns[k] && ns[k].updated_at > timestamp;
            assert(m[ns[k].id] == ns[k]);
        }
        assert forall|id: Seq<char>|
            m.contains_key(id) && (#[trigger] m[id]).updated_at > timestamp implies in_result(
            out.deep_view(),
            id,
        ) by {
            let k = choose|k: int| 0 <= k < ns.len() && (#[trigger] ns[k]).id == id;
            assert(m[ns[k].id] == ns[k]);
        }
    }
    out
}

/// Tag filtering never matches on a substring: a note in a search result
/// carries every queried tag as an exact member of its tag set, so a note
/// tagged only with a longer word is never returned for a shorter fragment.
pub proof fn lemma_tag_filter_exact(
    m: Map<Seq<char>, NoteV>,
    rs: Seq<NoteV>,
    q: QueryV,
    i: int,
    t: Seq<char>,
)
    requires
        result_from(m, rs, q),
        0 <= i < rs.len(),
        q.tags.contains(t),
    ensures
        rs[i].tag_set().contains(t),
{
    let k = choose|k: int| 0 <= k < q.tags.len() && q.tags[k] == t;
    assert(has_tag(rs[i], q.tags[k]));
    let j = choose|j: int| 0 <= j < rs[i].tags.len() && rs[i].tags[j] == t;
    assert(rs[i].tags.contains(t));
}

/// The date range is inclusive at both ends: a note dated exactly at
/// `date_from` or `date_to` satisfies the date predicates, so it is
/// returned whenever the query's other predicates hold of it.
pub proof fn lemma_date_bounds_inclusive(q: QueryV, n: NoteV, d: Seq<char>)
    requires
        n.subject_date == Some(d),
        q.date_from is Some ==> q.date_from == Some(d),
        q.date_to is Some ==> q.date_to == Some(d),
        q.include_deleted || n.deleted_at is None,
        q.text matches Some(t) ==> crate::text::contains_seq(n.content, t),
        forall|i: int| 0 <= i < q.tags.len() ==> has_tag(n, #[trigger] q.tags[i]),
    ensures
        matches_query(q, n),
{
    crate::text::lemma_lex_le_refl(d);
}

} // verus!
