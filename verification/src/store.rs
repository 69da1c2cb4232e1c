//! The note store: CRUD primitives over the note entity, plus the flat
//! key/value table used for sync bookkeeping.
//!
//! A [`Store`] models one logical store file. Its contents are described by
//! two mathematical maps — note id to note, bookkeeping key to value — and a
//! schema version; every operation's contract is stated over those models.

use vstd::prelude::*;

use crate::models::{Note, NoteV, StoreError};

verus! {

/// One row of the sync bookkeeping table.
#[derive(Debug, Clone)]
pub struct StateEntry {
    pub key: String,
    pub value: String,
}

/// A logical store: the notes table, the sync-state table and the schema
/// version, held as plain values.
#[derive(Debug)]
pub struct Store {
    pub notes: Vec<Note>,
    pub state: Vec<StateEntry>,
    pub version: i32,
}

/// Map from note id to note, folded over a sequence of notes.
pub open spec fn notes_map_of(s: Seq<NoteV>) -> Map<Seq<char>, NoteV>
    decreases s.len(),
{
    if s.len() == 0 {
        Map::empty()
    } else {
        notes_map_of(s.drop_last()).insert(s.last().id, s.last())
    }
}

/// Map from key to value, folded over a sequence of bookkeeping pairs.
pub open spec fn state_map_of(s: Seq<(Seq<char>, Seq<char>)>) -> Map<Seq<char>, Seq<char>>
    decreases s.len(),
{
    if s.len() == 0 {
        Map::empty()
    } else {
        state_map_of(s.drop_last()).insert(s.last().0, s.last().1)
    }
}

/// No two notes of the sequence share an id.
pub open spec fn distinct_note_ids(s: Seq<NoteV>) -> bool {
    forall|i: int, j: int| 0 <= i < j < s.len() ==> s[i].id != s[j].id
}

/// No two bookkeeping pairs share a key.
pub open spec fn distinct_state_keys(s: Seq<(Seq<char>, Seq<char>)>) -> bool {
    forall|i: int, j: int| 0 <= i < j < s.len() ==> s[i].0 != s[j].0
}

/// The note map contains exactly the ids of the sequence, and, when the ids
/// are distinct, maps each id to its note.
pub proof fn lemma_notes_map(s: Seq<NoteV>)
    ensures
        forall|id: Seq<char>|
            notes_map_of(s).contains_key(id) <==> exists|i: int| 0 <= i < s.len() && (#[trigger] s[i]).id == id,
        distinct_note_ids(s) ==> forall|i: int|
            0 <= i < s.len() ==> notes_map_of(s)[(#[trigger] s[i]).id] == s[i],
    decreases s.len(),
{
    if s.len() > 0 {
        let s0 = s.drop_last();
        lemma_notes_map(s0);
        assert forall|id: Seq<char>|
            notes_map_of(s).contains_key(id) implies exists|i: int| 0 <= i < s.len() && (#[trigger] s[i]).id == id by {
            if id == s.last().id {
                assert(s[s.len() - 1].id == id);
            } else {
                assert(notes_map_of(s0).contains_key(id));
                assert(exists|i: int| 0 <= i < s0.len() && (#[trigger] s0[i]).id == id);
                let i = choose|i: int| 0 <= i < s0.len() && (#[trigger] s0[i]).id == id;
                assert(s[i].id == id);
            }
        }
        assert forall|id: Seq<char>|
            (exists|i: int| 0 <= i < s.len() && (#[trigger] s[i]).id == id) implies notes_map_of(s).contains_key(id) by {
            let i = choose|i: int| 0 <= i < s.len() && (#[trigger] s[i]).id == id;
            assert(notes_map_of(s) == notes_map_of(s0).insert(s.last().id, s.last()));
            if i < s.len() - 1 {
                assert(s0[i].id == id);
                assert(notes_map_of(s0).contains_key(id));
            } else {
                assert(s.last().id == id);
            }
        }
        if distinct_note_ids(s) {
            assert(distinct_note_ids(s0));
            assert forall|i: int| 0 <= i < s.len() implies notes_map_of(s)[(#[trigger] s[i]).id] == s[i] by {
                if i < s.len() - 1 {
                    assert(s0[i] == s[i]);
                    assert(s[i].id != s.last().id);
                }
            }
        }
    }
}

/// The state map contains exactly the keys of the sequence, and, when the
/// keys are distinct, maps each key to its value.
pub proof fn lemma_state_map(s: Seq<(Seq<char>, Seq<char>)>)
    ensures
        forall|k: Seq<char>|
            state_map_of(s).contains_key(k) <==> exists|i: int| 0 <= i < s.len() && (#[trigger] s[i]).0 == k,
        distinct_state_keys(s) ==> forall|i: int|
            0 <= i < s.len() ==> state_map_of(s)[(#[trigger] s[i]).0] == s[i].1,
    decreases s.len(),
{
    if s.len() > 0 {
        let s0 = s.drop_last();
        lemma_state_map(s0);
        assert forall|k: Seq<char>|
            state_map_of(s).contains_key(k) implies exists|i: int| 0 <= i < s.len() && (#[trigger] s[i]).0 == k by {
            if k == s.last().0 {
                assert(s[s.len() - 1].0 == k);
            } else {
                assert(state_map_of(s0).contains_key(k));
                assert(exists|i: int| 0 <= i < s0.len() && (#[trigger] s0[i]).0 == k);
                let i = choose|i: int| 0 <= i < s0.len() && (#[trigger] s0[i]).0 == k;
                assert(s[i].0 == k);
            }
        }
        assert forall|k: Seq<char>|
            (exists|i: int| 0 <= i < s.len() && (#[trigger] s[i]).0 == k) implies state_map_of(s).contains_key(k) by {
            let i = choose|i: int| 0 <= i < s.len() && (#[trigger] s[i]).0 == k;
            assert(state_map_of(s) == state_map_of(s0).insert(s.last().0, s.last().1));
            if i < s.len() - 1 {
                assert(s0[i].0 == k);
                assert(state_map_of(s0).contains_key(k));
            } else {
                assert(s.last().0 == k);
            }
        }
        if distinct_state_keys(s) {
            assert(distinct_state_keys(s0));
            assert forall|i: int| 0 <= i < s.len() implies state_map_of(s)[(#[trigger] s[i]).0] == s[i].1 by {
                if i < s.len() - 1 {
                    assert(s0[i] == s[i]);
                    assert(s[i].0 != s.last().0);
                }
            }
        }
    }
}

/// Replacing the entry at `i` by one with the same id updates the map at
/// that id and nothing else.
pub proof fn lemma_notes_map_update(s: Seq<NoteV>, i: int, v: NoteV)
    requires
        distinct_note_ids(s),
        0 <= i < s.len(),
        s[i].id == v.id,
    ensures
        notes_map_of(s.update(i, v)) == notes_map_of(s).insert(v.id, v),
        distinct_note_ids(s.update(i, v)),
    decreases s.len(),
{
    let t = s.update(i, v);
    assert(distinct_note_ids(t));
    if i == s.len() - 1 {
        assert(t.drop_last() =~= s.drop_last());
        assert(t.last() == v);
        assert(notes_map_of(s.drop_last()).insert(s.last().id, s.last()).insert(v.id, v)
            =~= notes_map_of(s.drop_last()).insert(v.id, v));
    } else {
        assert(t.drop_last() =~= s.drop_last().update(i, v));
        assert(t.last() == s.last());
        lemma_notes_map_update(s.drop_last(), i, v);
        assert(s[i].id != s.last().id);
        assert(notes_map_of(s.drop_last()).insert(v.id, v).insert(s.last().id, s.last())
            =~= notes_map_of(s.drop_last()).insert(s.last().id, s.last()).insert(v.id, v));
    }
}

/// The same, for the bookkeeping table.
pub proof fn lemma_state_map_update(s: Seq<(Seq<char>, Seq<char>)>, i: int, p: (Seq<char>, Seq<char>))
    requires
        distinct_state_keys(s),
        0 <= i < s.len(),
        s[i].0 == p.0,
    ensures
        state_map_of(s.update(i, p)) == state_map_of(s).insert(p.0, p.1),
        distinct_state_keys(s.update(i, p)),
    decreases s.len(),
{
    let t = s.update(i, p);
    assert(distinct_state_keys(t));
    if i == s.len() - 1 {
        assert(t.drop_last() =~= s.drop_last());
        assert(t.last() == p);
        assert(state_map_of(s.drop_last()).insert(s.last().0, s.last().1).insert(p.0, p.1)
            =~= state_map_of(s.drop_last()).insert(p.0, p.1));
    } else {
        assert(t.drop_last() =~= s.drop_last().update(i, p));
        assert(t.last() == s.last());
        lemma_state_map_update(s.drop_last(), i, p);
        assert(s[i].0 != s.last().0);
        assert(state_map_of(s.drop_last()).insert(p.0, p.1).insert(s.last().0, s.last().1)
            =~= state_map_of(s.drop_last()).insert(s.last().0, s.last().1).insert(p.0, p.1));
    }
}

impl Store {
    /// The notes as a sequence of models, in storage order.
    pub open spec fn notes_seq(self) -> Seq<NoteV> {
        self.notes.deep_view()
    }

    /// The notes table as a map from id to note.
    pub open spec fn notes_model(self) -> Map<Seq<char>, NoteV> {
        notes_map_of(self.notes_seq())
    }

    /// The bookkeeping table as a sequence of key/value pairs.
    pub open spec fn state_seq(self) -> Seq<(Seq<char>, Seq<char>)> {
        Seq::new(self.state@.len(), |i: int| (self.state@[i].key@, self.state@[i].value@))
    }

    /// The bookkeeping table as a map from key to value.
    pub open spec fn state_model(self) -> Map<Seq<char>, Seq<char>> {
        state_map_of(self.state_seq())
    }

    /// The persisted schema version.
    pub open spec fn version_model(self) -> int {
        self.version as int
    }

    /// Well-formedness: ids and bookkeeping keys are unique.
    pub open spec fn wf(self) -> bool {
        &&& distinct_note_ids(self.notes_seq())
        &&& distinct_state_keys(self.state_seq())
    }

    /// A note is present exactly when its id is in the model.
    pub open spec fn contains_note(self, id: Seq<char>) -> bool {
        self.notes_model().contains_key(id)
    }

    /// An empty store at schema version zero, as a freshly created file is.
    pub fn new() -> (r: Store)
        ensures
            r.wf(),
            r.notes_model() == Map::<Seq<char>, NoteV>::empty(),
            r.notes_seq() == Seq::<NoteV>::empty(),
            r.state_model() == Map::<Seq<char>, Seq<char>>::empty(),
            r.version_model() == 0,
    {
        let r = Store { notes: Vec::new(), state: Vec::new(), version: 0 };
        proof {
            assert(r.notes_seq() =~= Seq::<NoteV>::empty());
            assert(r.state_seq() =~= Seq::<(Seq<char>, Seq<char>)>::empty());
        }
        r
    }

    /// How many notes the store holds, tombstones included.
    pub fn note_count(&self) -> (r: usize)
        ensures
            r == self.notes_seq().len(),
    {
        self.notes.len()
    }

    /// The note at a storage position; lets callers walk the table.
    pub fn note_at(&self, i: usize) -> (r: &Note)
        requires
            i < self.notes_seq().len(),
        ensures
            r@ == self.notes_seq()[i as int],
    {
        &self.notes[i]
    }

    /// Position of the note with the given id, if any.
    fn find_note(&self, id: &String) -> (r: Option<usize>)
        ensures
            match r {
                Some(i) => i < self.notes_seq().len() && self.notes_seq()[i as int].id == id@,
                None => forall|j: int|
                    0 <= j < self.notes_seq().len() ==> (#[trigger] self.notes_seq()[j]).id != id@,
            },
    {
        let mut i: usize = 0;
        while i < self.notes.len()
            invariant
                i <= self.notes_seq().len(),
                forall|j: int| 0 <= j < i ==> (#[trigger] self.notes_seq()[j]).id != id@,
            decreases self.notes.len() - i,
        {
            if self.notes[i].id == *id {
                return Some(i);
            }
            i = i + 1;
        }
        None
    }

    /// Position of the bookkeeping entry with the given key, if any.
    fn find_state(&self, key: &String) -> (r: Option<usize>)
        ensures
            match r {
                Some(i) => i < self.state_seq().len() && self.state_seq()[i as int].0 == key@,
                None => forall|j: int|
                    0 <= j < self.state_seq().len() ==> (#[trigger] self.state_seq()[j]).0 != key@,
            },
    {
        let mut i: usize = 0;
        while i < self.state.len()
            invariant
                i <= self.state_seq().len(),
                forall|j: int| 0 <= j < i ==> (#[trigger] self.state_seq()[j]).0 != key@,
            decreases self.state.len() - i,
        {
            if self.state[i].key == *key {
                return Some(i);
            }
            i = i + 1;
        }
        None
    }
}

/// Exact-match lookup: the note whose id equals `id`, or `None`.
pub fn get_note_by_id(store: &Store, id: &str) -> (r: Option<Note>)
    requires
        store.wf(),
    ensures
        match r {
            Some(n) => store.contains_note(id@) && n@ == store.notes_model()[id@],
            None => !store.contains_note(id@),
        },
{
    proof {
        lemma_notes_map(store.notes_seq());
    }
    let needle: String = id.to_owned();
    match store.find_note(&needle) {
        Some(i) => Some(store.notes[i].duplicate()),
        None => None,
    }
}

/// Insert a brand-new note built from the given parts, stamped with `now`.
///
/// When `id` is already taken — which a caller that just generated a fresh
/// id can test for first — nothing changes and the storage-failure error is
/// returned, as the storage engine's key constraint would.
pub fn create_note_at(
    store: &mut Store,
    id: &str,
    now: i64,
    content: &str,
    tags: Vec<String>,
    subject_date: Option<String>,
) -> (r: Result<Note, StoreError>)
    requires
        old(store).wf(),
    ensures
        final(store).wf(),
        final(store).state_seq() == old(store).state_seq(),
        final(store).version_model() == old(store).version_model(),
        old(store).contains_note(id@) ==> r == Err::<Note, StoreError>(StoreError::StorageIO)
            && final(store).notes_seq() == old(store).notes_seq(),
        !old(store).contains_note(id@) ==> {
            &&& r is Ok
            &&& r.unwrap()@ == (NoteV {
                id: id@,
                content: content@,
                tags: tags.deep_view(),
                subject_date: subject_date.deep_view(),
                created_at: now,
                updated_at: now,
                deleted_at: None,
            })
            &&& final(store).notes_model() == old(store).notes_model().insert(id@, r.unwrap()@)
            &&& final(store).notes_seq() == old(store).notes_seq().push(r.unwrap()@)
        },
{
    proof {
        lemma_notes_map(store.notes_seq());
    }
    let needle: String = id.to_owned();
    if store.find_note(&needle).is_some() {
        return Err(StoreError::StorageIO);
    }
    let note = Note {
        id: needle,
        content: content.to_owned(),
        tags,
        subject_date,
        created_at: now,
        updated_at: now,
        deleted_at: None,
    };
    let result = note.duplicate();
    let ghost prev = store.notes.deep_view();
    store.notes.push(note);
    proof {
        assert(store.notes.deep_view() =~= prev.push(result@));
        assert(store.notes_seq().drop_last() =~= prev);
        assert(store.state_seq() =~= old(store).state_seq());
        assert(distinct_note_ids(store.notes_seq()));
    }
    Ok(result)
}

/// The effect of an update on the note map: content, tags and date replaced
/// and `updated_at` stamped, `created_at` and `deleted_at` kept; a missing
/// id changes nothing.
pub open spec fn update_model(
    m: Map<Seq<char>, NoteV>,
    id: Seq<char>,
    content: Seq<char>,
    tags: Seq<Seq<char>>,
    subject_date: Option<Seq<char>>,
    now: i64,
) -> Map<Seq<char>, NoteV> {
    if m.contains_key(id) {
        m.insert(
            id,
            NoteV {
                id: id,
                content: content,
                tags: tags,
                subject_date: subject_date,
                created_at: m[id].created_at,
                updated_at: now,
                deleted_at: m[id].deleted_at,
            },
        )
    } else {
        m
    }
}

/// The effect of a soft delete on the note map: both timestamps of the
/// tombstone are the delete's moment, every other field is kept; a missing
/// id changes nothing.
pub open spec fn delete_model(m: Map<Seq<char>, NoteV>, id: Seq<char>, now: i64) -> Map<
    Seq<char>,
    NoteV,
> {
    if m.contains_key(id) {
        m.insert(id, NoteV { updated_at: now, deleted_at: Some(now), ..m[id] })
    } else {
        m
    }
}

/// Overwrite content, tags and date of the note with the given id and stamp
/// it with `now`; `created_at` and `deleted_at` stay untouched. A missing id
/// is a silent no-op, as documented.
pub fn update_note_at(
    store: &mut Store,
    id: &str,
    content: &str,
    tags: Vec<String>,
    subject_date: Option<String>,
    now: i64,
)
    requires
        old(store).wf(),
    ensures
        final(store).wf(),
        final(store).state_seq() == old(store).state_seq(),
        final(store).version_model() == old(store).version_model(),
        !old(store).contains_note(id@) ==> final(store).notes_seq() == old(store).notes_seq(),
        final(store).notes_model() == update_model(
            old(store).notes_model(),
            id@,
            content@,
            tags.deep_view(),
            subject_date.deep_view(),
            now,
        ),
{
    proof {
        lemma_notes_map(store.notes_seq());
    }
    let needle: String = id.to_owned();
    match store.find_note(&needle) {
        None => {}
        Some(i) => {
            let old_note = &store.notes[i];
            let replacement = Note {
                id: needle,
                content: content.to_owned(),
                tags,
                subject_date,
                created_at: old_note.created_at,
                updated_at: now,
                deleted_at: old_note.deleted_at,
            };
            let ghost prev = store.notes.deep_view();
            let ghost v = replacement@;
            store.notes[i] = replacement;
            proof {
                assert(store.notes.deep_view() =~= prev.update(i as int, v));
                lemma_notes_map_update(prev, i as int, v);
                assert(store.state_seq() =~= old(store).state_seq());
            }
        }
    }
}

/// Mark the note with the given id as deleted at `now`; the tombstone keeps
/// every other field. Repeating the call simply refreshes the timestamps;
/// a missing id is a silent no-op.
pub fn soft_delete_note_at(store: &mut Store, id: &str, now: i64)
    requires
        old(store).wf(),
    ensures
        final(store).wf(),
        final(store).state_seq() == old(store).state_seq(),
        final(store).version_model() == old(store).version_model(),
        !old(store).contains_note(id@) ==> final(store).notes_seq() == old(store).notes_seq(),
        final(store).notes_model() == delete_model(old(store).notes_model(), id@, now),
{
    proof {
        lemma_notes_map(store.notes_seq());
    }
    let needle: String = id.to_owned();
    match store.find_note(&needle) {
        None => {}
        Some(i) => {
            let old_note = &store.notes[i];
            let replacement = Note {
                id: needle,
                content: old_note.content.clone(),
                tags: crate::models::clone_tags(&old_note.tags),
                subject_date: match &old_note.subject_date {
                    Some(d) => Some(d.clone()),
                    None => None,
                },
                created_at: old_note.created_at,
                updated_at: now,
                deleted_at: Some(now),
            };
            let ghost prev = store.notes.deep_view();
            let ghost v = replacement@;
            store.notes[i] = replacement;
            proof {
                assert(store.notes.deep_view() =~= prev.update(i as int, v));
                assert(v == (NoteV { updated_at: now, deleted_at: Some(now), ..prev[i as int] }));
                lemma_notes_map_update(prev, i as int, v);
                assert(store.state_seq() =~= old(store).state_seq());
            }
        }
    }
}

/// The effect of an upsert on the note map: insert when absent, overwrite
/// only when the incoming note is strictly newer, keep the resident copy on
/// ties.
pub open spec fn upsert_model(m: Map<Seq<char>, NoteV>, n: NoteV) -> Map<Seq<char>, NoteV> {
    if !m.contains_key(n.id) {
        m.insert(n.id, n)
    } else if n.updated_at > m[n.id].updated_at {
        m.insert(n.id, n)
    } else {
        m
    }
}

/// Insert-or-overwrite by recency: the single primitive that makes sync
/// convergence deterministic. Last write wins on `updated_at`; ties favor
/// the copy already persisted.
pub fn upsert_note(store: &mut Store, note: &Note)
    requires
        old(store).wf(),
    ensures
        final(store).wf(),
        final(store).state_seq() == old(store).state_seq(),
        final(store).version_model() == old(store).version_model(),
        final(store).notes_model() == upsert_model(old(store).notes_model(), note@),
        old(store).contains_note(note@.id) && note@.updated_at <= old(store).notes_model()[
            note@.id
        ].updated_at ==> final(store).notes_seq() == old(store).notes_seq(),
{
    proof {
        lemma_notes_map(store.notes_seq());
    }
    match store.find_note(&note.id) {
        None => {
            let ghost prev = store.notes.deep_view();
            store.notes.push(note.duplicate());
            proof {
                assert(store.notes.deep_view() =~= prev.push(note@));
                assert(store.notes_seq().drop_last() =~= prev);
                assert(distinct_note_ids(store.notes_seq()));
                assert(store.state_seq() =~= old(store).state_seq());
            }
        }
        Some(i) => {
            if note.updated_at > store.notes[i].updated_at {
                let ghost prev = store.notes.deep_view();
                store.notes[i] = note.duplicate();
                proof {
                    assert(store.notes.deep_view() =~= prev.update(i as int, note@));
                    lemma_notes_map_update(prev, i as int, note@);
                    assert(store.state_seq() =~= old(store).state_seq());
                }
            }
        }
    }
}

/// Read one sync bookkeeping value.
pub fn get_sync_state(store: &Store, key: &str) -> (r: Option<String>)
    requires
        store.wf(),
    ensures
        match r {
            Some(v) => store.state_model().contains_key(key@) && v@ == store.state_model()[key@],
            None => !store.state_model().contains_key(key@),
        },
{
    proof {
        lemma_state_map(store.state_seq());
    }
    let needle: String = key.to_owned();
    match store.find_state(&needle) {
        Some(i) => Some(store.state[i].value.clone()),
        None => None,
    }
}

/// Insert-or-replace one sync bookkeeping value.
pub fn set_sync_state(store: &mut Store, key: &str, value: &str)
    requires
        old(store).wf(),
    ensures
        final(store).wf(),
        final(store).notes_seq() == old(store).notes_seq(),
        final(store).version_model() == old(store).version_model(),
        final(store).state_model() == old(store).state_model().insert(key@, value@),
{
    proof {
        lemma_state_map(store.state_seq());
    }
    let needle: String = key.to_owned();
    let entry = StateEntry { key: needle, value: value.to_owned() };
    match store.find_state(&entry.key) {
        Some(i) => {
            let ghost prev = store.state_seq();
            store.state[i] = entry;
            proof {
                assert(store.state_seq() =~= prev.update(i as int, (key@, value@)));
                lemma_state_map_update(prev, i as int, (key@, value@));
                assert(store.notes.deep_view() =~= old(store).notes.deep_view());
            }
        }
        None => {
            let ghost prev = store.state_seq();
            store.state.push(entry);
            proof {
                assert(store.state_seq() =~= prev.push((key@, value@)));
                assert(store.state_seq().drop_last() =~= prev);
                assert(store.state_seq().last() == (key@, value@));
                assert(distinct_state_keys(store.state_seq()));
                assert(store.notes.deep_view() =~= old(store).notes.deep_view());
            }
        }
    }
}

/// Create a note: a fresh time-sortable id is drawn, both timestamps are set
/// to the clock's current value, and the note starts active. The error case
/// is the storage engine's key constraint firing on an id collision, which a
/// fresh id makes all but impossible; the store is then unchanged.
pub fn create_note(
    store: &mut Store,
    content: &str,
    tags: Vec<String>,
    subject_date: Option<String>,
) -> (r: Result<Note, StoreError>)
    requires
        old(store).wf(),
    ensures
        final(store).wf(),
        final(store).state_seq() == old(store).state_seq(),
        final(store).version_model() == old(store).version_model(),
        r matches Ok(n) ==> {
            &&& !old(store).contains_note(n@.id)
            &&& n@.id.len() == 26
            &&& n@.content == content@
            &&& n@.tags == tags.deep_view()
            &&& n@.subject_date == subject_date.deep_view()
            &&& n@.created_at == n@.updated_at
            &&& n@.deleted_at is None
            &&& final(store).notes_model() == old(store).notes_model().insert(n@.id, n@)
        },
        r is Err ==> r == Err::<Note, StoreError>(StoreError::StorageIO) && final(store).notes_seq()
            == old(store).notes_seq(),
        (forall|k: Seq<char>|
            old(store).notes_model().contains_key(k) ==> k.len() != 26) ==> r is Ok,
{
    let id = crate::ident::new_note_id();
    let now = crate::clock::now_millis();
    let r = create_note_at(store, id.as_str(), now, content, tags, subject_date);
    proof {
        if forall|k: Seq<char>|
            old(store).notes_model().contains_key(k) ==> (#[trigger] k.len()) != 26 {
            assert(!old(store).contains_note(id@));
        }
    }
    r
}

/// Update a note's content, tags and date, stamping it with the clock; the
/// exact timestamp is whatever the clock returned. A missing id is a silent
/// no-op.
pub fn update_note(
    store: &mut Store,
    id: &str,
    content: &str,
    tags: Vec<String>,
    subject_date: Option<String>,
)
    requires
        old(store).wf(),
    ensures
        final(store).wf(),
        final(store).state_seq() == old(store).state_seq(),
        final(store).version_model() == old(store).version_model(),
        !old(store).contains_note(id@) ==> final(store).notes_seq() == old(store).notes_seq(),
        exists|now: i64|
            final(store).notes_model() == #[trigger] update_model(
                old(store).notes_model(),
                id@,
                content@,
                tags.deep_view(),
                subject_date.deep_view(),
                now,
            ),
{
    let now = crate::clock::now_millis();
    update_note_at(store, id, content, tags, subject_date, now);
    proof {
        assert(final(store).notes_model() == update_model(
            old(store).notes_model(),
            id@,
            content@,
            tags.deep_view(),
            subject_date.deep_view(),
            now,
        ));
    }
}

/// Soft-delete a note, stamping the tombstone with the clock; the exact
/// timestamp is whatever the clock returned. A missing id is a silent no-op.
pub fn soft_delete_note(store: &mut Store, id: &str)
    requires
        old(store).wf(),
    ensures
        final(store).wf(),
        final(store).state_seq() == old(store).state_seq(),
        final(store).version_model() == old(store).version_model(),
        !old(store).contains_note(id@) ==> final(store).notes_seq() == old(store).notes_seq(),
        exists|now: i64|
            final(store).notes_model() == #[trigger] delete_model(
                old(store).notes_model(),
                id@,
                now,
            ),
{
    let now = crate::clock::now_millis();
    soft_delete_note_at(store, id, now);
    proof {
        assert(final(store).notes_model() == delete_model(old(store).notes_model(), id@, now));
    }
}

impl Store {
    /// An active note whose id starts with the given prefix.
    pub open spec fn prefix_candidate(self, idp: Seq<char>, x: Seq<char>) -> bool {
        &&& self.notes_model().contains_key(x)
        &&& crate::text::is_prefix(idp, x)
        &&& self.notes_model()[x].deleted_at is None
    }
}

/// Resolve a note id that may be a prefix: an exact match wins outright;
/// otherwise the active notes whose ids start with the prefix decide —
/// none yields `Ok(None)`, exactly one yields that note, and several are
/// the ambiguity error, which asks the caller for a longer prefix.
#[verifier::loop_isolation(false)]
pub fn resolve_note(store: &Store, id: &str) -> (r: Result<Option<Note>, StoreError>)
    requires
        store.wf(),
    ensures
        match r {
            Ok(Some(n)) => (store.contains_note(id@) && n@ == store.notes_model()[id@]) || (
            !store.contains_note(id@) && store.prefix_candidate(id@, n@.id) && n@
                == store.notes_model()[n@.id] && forall|y: Seq<char>|
                #[trigger] store.prefix_candidate(id@, y) ==> y == n@.id),
            Ok(None) => !store.contains_note(id@) && forall|y: Seq<char>|
                !(#[trigger] store.prefix_candidate(id@, y)),
            Err(e) => e == StoreError::Ambiguous && !store.contains_note(id@) && exists|
                x: Seq<char>,
                y: Seq<char>,
            |
                x != y && #[trigger] store.prefix_candidate(id@, x)
                    && #[trigger] store.prefix_candidate(id@, y),
        },
{
    if let Some(n) = get_note_by_id(store, id) {
        return Ok(Some(n));
    }
    let ghost ns = store.notes_seq();
    proof {
        lemma_notes_map(ns);
    }
    let prefix = crate::text::str_to_chars(id);
    let mut found: Option<usize> = None;
    let mut many: bool = false;
    let mut i: usize = 0;
    while i < store.notes.len()
        invariant
            i <= ns.len(),
            many ==> exists|j: int, k: int|
                0 <= j < k < i && seq_candidate(ns, id@, j) && seq_candidate(ns, id@, k),
            !many ==> match found {
                Some(a) => a < i && seq_candidate(ns, id@, a as int) && forall|j: int|
                    0 <= j < i && #[trigger] seq_candidate(ns, id@, j) ==> j == a,
                None => forall|j: int| 0 <= j < i ==> !(#[trigger] seq_candidate(ns, id@, j)),
            },
        decreases store.notes.len() - i,
    {
        let note = &store.notes[i];
        proof {
            assert(note@ == ns[i as int]);
        }
        let is_candidate = if note.deleted_at.is_none() {
            let id_chars = crate::text::str_to_chars(note.id.as_str());
            crate::text::chars_start_with(&id_chars, &prefix)
        } else {
            false
        };
        proof {
            assert(is_candidate == seq_candidate(ns, id@, i as int));
        }
        if is_candidate {
            match found {
                None => {
                    found = Some(i);
                }
                Some(a) => {
                    proof {
                        if !many {
                            assert(seq_candidate(ns, id@, a as int) && seq_candidate(
                                ns,
                                id@,
                                i as int,
                            ));
                        }
                    }
                    many = true;
                }
            }
        }
        i = i + 1;
    }
    if many {
        proof {
            let (j, k) = choose|j: int, k: int|
                0 <= j < k < ns.len() && seq_candidate(ns, id@, j) && seq_candidate(ns, id@, k);
            assert(store.notes_model()[ns[j].id] == ns[j]);
            assert(store.notes_model()[ns[k].id] == ns[k]);
            assert(ns[j].id != ns[k].id);
            assert(store.prefix_candidate(id@, ns[j].id) && store.prefix_candidate(id@, ns[k].id));
        }
        return Err(StoreError::Ambiguous);
    }
    match found {
        Some(a) => {
            let n = store.notes[a].duplicate();
            proof {
                assert(store.notes_model()[ns[a as int].id] == ns[a as int]);
                assert(store.prefix_candidate(id@, n@.id));
                assert forall|y: Seq<char>| #[trigger]
                    store.prefix_candidate(id@, y) implies y == n@.id by {
                    let j = choose|j: int| 0 <= j < ns.len() && (#[trigger] ns[j]).id == y;
                    assert(store.notes_model()[ns[j].id] == ns[j]);
                    assert(seq_candidate(ns, id@, j));
                }
            }
            Ok(Some(n))
        }
        None => {
            proof {
                assert forall|y: Seq<char>| !(#[trigger] store.prefix_candidate(id@, y)) by {
                    if store.prefix_candidate(id@, y) {
                        let j = choose|j: int| 0 <= j < ns.len() && (#[trigger] ns[j]).id == y;
                        assert(store.notes_model()[ns[j].id] == ns[j]);
                        assert(seq_candidate(ns, id@, j));
                    }
                }
            }
            Ok(None)
        }
    }
}

/// Position `j` of the sequence holds an active note whose id starts with
/// the prefix.
pub open spec fn seq_candidate(ns: Seq<NoteV>, idp: Seq<char>, j: int) -> bool {
    &&& 0 <= j < ns.len()
    &&& ns[j].deleted_at is None
    &&& crate::text::is_prefix(idp, ns[j].id)
}

/// The device's own last-sync watermark, read back from the bookkeeping
/// table: the stored decimal value, or zero when nothing (or something
/// unreadable) is stored.
pub fn get_last_sync(store: &Store) -> (r: i64)
    requires
        store.wf(),
    ensures
        ({
            let sm = store.state_model();
            if sm.contains_key("last_sync"@) && crate::numtext::is_i64_str(sm["last_sync"@]) {
                r == crate::numtext::int_str_val(sm["last_sync"@])
            } else {
                r == 0
            }
        }),
{
    match get_sync_state(store, "last_sync") {
        Some(v) => {
            match crate::numtext::parse_i64(v.as_str()) {
                Some(n) => n,
                None => 0,
            }
        }
        None => 0,
    }
}

/// Remember the device's last-sync watermark in the bookkeeping table, as
/// decimal text.
pub fn set_last_sync(store: &mut Store, timestamp: i64)
    requires
        old(store).wf(),
    ensures
        final(store).wf(),
        final(store).notes_seq() == old(store).notes_seq(),
        final(store).version_model() == old(store).version_model(),
        final(store).state_model() == old(store).state_model().insert(
            "last_sync"@,
            crate::numtext::decimal_of_signed(timestamp as int),
        ),
{
    let value = crate::numtext::i64_to_string(timestamp);
    set_sync_state(store, "last_sync", value.as_str());
}

/// Runtime well-formedness test for a store loaded from the outside:
/// true exactly when note ids and bookkeeping keys are unique, the
/// condition every operation relies on.
#[verifier::loop_isolation(false)]
pub fn check_wf(store: &Store) -> (r: bool)
    ensures
        r == store.wf(),
{
    let ghost ns = store.notes_seq();
    let mut i: usize = 0;
    while i < store.notes.len()
        invariant
            i <= ns.len(),
            forall|a: int, b: int| 0 <= a < b < ns.len() && a < i ==> ns[a].id != ns[b].id,
        decreases store.notes.len() - i,
    {
        let mut j: usize = i + 1;
        while j < store.notes.len()
            invariant
                i < j <= ns.len(),
                forall|b: int| i < b < j ==> ns[i as int].id != ns[b].id,
            decreases store.notes.len() - j,
        {
            if store.notes[i].id == store.notes[j].id {
                proof {
                    assert(ns[i as int].id == ns[j as int].id);
                    assert(!distinct_note_ids(ns));
                }
                return false;
            }
            j = j + 1;
        }
        i = i + 1;
    }
    let ghost ss = store.state_seq();
    let mut i: usize = 0;
    while i < store.state.len()
        invariant
            i <= ss.len(),
            distinct_note_ids(ns),
            forall|a: int, b: int| 0 <= a < b < ss.len() && a < i ==> ss[a].0 != ss[b].0,
        decreases store.state.len() - i,
    {
        let mut j: usize = i + 1;
        while j < store.state.len()
            invariant
                i < j <= ss.len(),
                forall|b: int| i < b < j ==> ss[i as int].0 != ss[b].0,
            decreases store.state.len() - j,
        {
            if store.state[i].key == store.state[j].key {
                proof {
                    assert(ss[i as int].0 == ss[j as int].0);
                    assert(!distinct_state_keys(ss));
                }
                return false;
            }
            j = j + 1;
        }
        i = i + 1;
    }
    true
}

/// The last-sync watermark round-trips through its decimal notation: after
/// the bookkeeping write of `t`, the read condition holds and reads `t`.
pub proof fn lemma_watermark_roundtrip(sm: Map<Seq<char>, Seq<char>>, t: i64)
    ensures
        ({
            let sm2 = sm.insert("last_sync"@, crate::numtext::decimal_of_signed(t as int));
            &&& sm2.contains_key("last_sync"@)
            &&& crate::numtext::is_i64_str(sm2["last_sync"@])
            &&& crate::numtext::int_str_val(sm2["last_sync"@]) == t
        }),
{
    crate::numtext::lemma_decimal_signed_roundtrip(t as int);
}

/// Creating a note and reading it back by its id yields a note with the
/// same content, a set-equal tag list and the same date, for every choice
/// of content, tags and date.
pub proof fn lemma_create_then_read(
    m: Map<Seq<char>, NoteV>,
    id: Seq<char>,
    content: Seq<char>,
    tags: Seq<Seq<char>>,
    subject_date: Option<Seq<char>>,
    now: i64,
)
    requires
        !m.contains_key(id),
    ensures
        ({
            let n = NoteV {
                id: id,
                content: content,
                tags: tags,
                subject_date: subject_date,
                created_at: now,
                updated_at: now,
                deleted_at: None,
            };
            let after = m.insert(id, n);
            &&& after.contains_key(id)
            &&& after[id].content == content
            &&& after[id].tag_set() == n.tag_set()
            &&& forall|t: Seq<char>| after[id].tag_set().contains(t) <==> tags.contains(t)
            &&& after[id].subject_date == subject_date
            &&& after[id].deleted_at is None
        }),
{
}

/// Soft deletion is idempotent: deleting twice leaves exactly the one
/// tombstone the second delete would have left, no note appears or
/// disappears, and the note is still found under its id.
pub proof fn lemma_soft_delete_idempotent(m: Map<Seq<char>, NoteV>, id: Seq<char>, t1: i64, t2: i64)
    ensures
        delete_model(delete_model(m, id, t1), id, t2) == delete_model(m, id, t2),
        delete_model(m, id, t1).dom() == m.dom(),
        m.contains_key(id) ==> delete_model(m, id, t1).contains_key(id) && delete_model(
            m,
            id,
            t1,
        )[id].is_deleted(),
{
    if m.contains_key(id) {
        assert(delete_model(delete_model(m, id, t1), id, t2) =~= delete_model(m, id, t2));
        assert(delete_model(m, id, t1).dom() =~= m.dom());
    } else {
        assert(delete_model(m, id, t1).dom() =~= m.dom());
    }
}

/// Last-write-wins: upserting two versions of one note leaves the same
/// store whichever arrives first, doing it twice changes nothing more, and
/// on a fresh id the version with the greater `updated_at` is what persists.
pub proof fn lemma_upsert_last_write_wins(m: Map<Seq<char>, NoteV>, a: NoteV, b: NoteV)
    requires
        a.id == b.id,
        a.updated_at != b.updated_at,
    ensures
        upsert_model(upsert_model(m, a), b) == upsert_model(upsert_model(m, b), a),
        upsert_model(upsert_model(m, a), a) == upsert_model(m, a),
        !m.contains_key(a.id) ==> upsert_model(upsert_model(m, a), b)[a.id] == (if a.updated_at
            > b.updated_at {
            a
        } else {
            b
        }),
        upsert_model(upsert_model(m, a), b).contains_key(a.id),
        upsert_model(upsert_model(m, a), b)[a.id].updated_at >= a.updated_at,
        upsert_model(upsert_model(m, a), b)[a.id].updated_at >= b.updated_at,
{
    let ab = upsert_model(upsert_model(m, a), b);
    let ba = upsert_model(upsert_model(m, b), a);
    if !m.contains_key(a.id) {
        if a.updated_at > b.updated_at {
            assert(ab =~= m.insert(a.id, a));
            assert(ba =~= m.insert(b.id, b).insert(a.id, a));
            assert(ba =~= m.insert(a.id, a));
        } else {
            assert(ab =~= m.insert(a.id, a).insert(b.id, b));
            assert(ab =~= m.insert(b.id, b));
            assert(ba =~= m.insert(b.id, b));
        }
    } else {
        let c = m[a.id];
        if a.updated_at > c.updated_at && b.updated_at > c.updated_at {
            if a.updated_at > b.updated_at {
                assert(ab =~= m.insert(a.id, a));
                assert(ba =~= m.insert(b.id, b).insert(a.id, a));
                assert(ba =~= m.insert(a.id, a));
            } else {
                assert(ab =~= m.insert(a.id, a).insert(b.id, b));
                assert(ab =~= m.insert(b.id, b));
                assert(ba =~= m.insert(b.id, b));
            }
        } else if a.updated_at > c.updated_at {
            assert(ab =~= m.insert(a.id, a));
            assert(ba =~= m.insert(a.id, a));
        } else if b.updated_at > c.updated_at {
            assert(ab =~= m.insert(b.id, b));
            assert(ba =~= m.insert(b.id, b));
        } else {
            assert(ab =~= m);
            assert(ba =~= m);
        }
    }
    assert(upsert_model(upsert_model(m, a), a) =~= upsert_model(m, a));
}

} // verus!
