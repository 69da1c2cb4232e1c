//! The note entity and the request/response values that travel with it.

use vstd::prelude::*;

verus! {

/// Mathematical image of a [`Note`]: every field replaced by its view.
pub ghost struct NoteV {
    pub id: Seq<char>,
    pub content: Seq<char>,
    pub tags: Seq<Seq<char>>,
    pub subject_date: Option<Seq<char>>,
    pub created_at: i64,
    pub updated_at: i64,
    pub deleted_at: Option<i64>,
}

impl NoteV {
    /// The tags of a note form a set; duplicates and order carry no meaning.
    pub open spec fn tag_set(self) -> Set<Seq<char>> {
        Set::new(|t: Seq<char>| self.tags.contains(t))
    }

    /// A note with `deleted_at` set is a tombstone.
    pub open spec fn is_deleted(self) -> bool {
        self.deleted_at is Some
    }
}

/// A note: the sole domain entity of the store.
///
/// `id` is assigned once at creation and never changes; `created_at` and
/// `updated_at` are millisecond epoch timestamps; a `Some` in `deleted_at`
/// marks the note as a tombstone that sync rounds still propagate.
#[derive(Debug, Clone, PartialEq)]
pub struct Note {
    pub id: String,
    pub content: String,
    pub tags: Vec<String>,
    /// Calendar date the note is about, in zero-padded `YYYY-MM-DD` form.
    pub subject_date: Option<String>,
    pub created_at: i64,
    pub updated_at: i64,
    pub deleted_at: Option<i64>,
}

impl View for Note {
    type V = NoteV;

    open spec fn view(&self) -> NoteV {
        NoteV {
            id: self.id@,
            content: self.content@,
            tags: self.tags.deep_view(),
            subject_date: self.subject_date.deep_view(),
            created_at: self.created_at,
            updated_at: self.updated_at,
            deleted_at: self.deleted_at,
        }
    }
}

impl DeepView for Note {
    type V = NoteV;

    open spec fn deep_view(&self) -> NoteV {
        self.view()
    }
}

/// Copy a string vector element by element.
pub fn clone_tags(tags: &Vec<String>) -> (r: Vec<String>)
    ensures
        r.deep_view() == tags.deep_view(),
{
    let mut r: Vec<String> = Vec::new();
    let mut i: usize = 0;
    while i < tags.len()
        invariant
            i <= tags.len(),
            r.deep_view() =~= tags.deep_view().subrange(0, i as int),
        decreases tags.len() - i,
    {
        let ghost prev = r.deep_view();
        r.push(tags[i].clone());
        proof {
            assert(r.deep_view() =~= prev.push(tags@[i as int]@));
            assert(prev.push(tags@[i as int]@) =~= tags.deep_view().subrange(0, i + 1));
        }
        i = i + 1;
    }
    proof {
        assert(tags.deep_view().subrange(0, tags@.len() as int) =~= tags.deep_view());
    }
    r
}

impl Note {
    /// A copy of the note, equal to it in the model.
    pub fn duplicate(&self) -> (r: Note)
        ensures
            r@ == self@,
    {
        let subject_date = match &self.subject_date {
            Some(d) => Some(d.clone()),
            None => None,
        };
        let deleted_at = match self.deleted_at {
            Some(t) => Some(t),
            None => None,
        };
        Note {
            id: self.id.clone(),
            content: self.content.clone(),
            tags: clone_tags(&self.tags),
            subject_date,
            created_at: self.created_at,
            updated_at: self.updated_at,
            deleted_at,
        }
    }
}

/// Mathematical image of a [`SearchQuery`].
pub ghost struct QueryV {
    pub text: Option<Seq<char>>,
    pub tags: Seq<Seq<char>>,
    pub date_from: Option<Seq<char>>,
    pub date_to: Option<Seq<char>>,
    pub include_deleted: bool,
    pub limit: Option<usize>,
}

/// A request-scoped search filter; all predicates combine with logical AND.
#[derive(Debug, Clone)]
pub struct SearchQuery {
    /// Case-sensitive substring to look for in the content.
    pub text: Option<String>,
    /// Tags the note must all carry, as exact set members.
    pub tags: Vec<String>,
    /// Inclusive lower bound on the subject date.
    pub date_from: Option<String>,
    /// Inclusive upper bound on the subject date.
    pub date_to: Option<String>,
    /// When false, tombstones are filtered out.
    pub include_deleted: bool,
    /// Cap on the number of results, applied after ordering.
    pub limit: Option<usize>,
}

impl View for SearchQuery {
    type V = QueryV;

    open spec fn view(&self) -> QueryV {
        QueryV {
            text: self.text.deep_view(),
            tags: self.tags.deep_view(),
            date_from: self.date_from.deep_view(),
            date_to: self.date_to.deep_view(),
            include_deleted: self.include_deleted,
            limit: self.limit,
        }
    }
}

impl Default for SearchQuery {
    /// The empty filter: everything but tombstones, no cap.
    fn default() -> (r: SearchQuery)
        ensures
            r@.text is None,
            r@.tags == Seq::<Seq<char>>::empty(),
            r@.date_from is None,
            r@.date_to is None,
            !r@.include_deleted,
            r@.limit is None,
    {
        let r = SearchQuery {
            text: None,
            tags: Vec::new(),
            date_from: None,
            date_to: None,
            include_deleted: false,
            limit: None,
        };
        proof {
            assert(r.tags.deep_view() =~= Seq::<Seq<char>>::empty());
        }
        r
    }
}

/// What a client submits for one sync round.
#[derive(Debug, Clone)]
pub struct SyncRequest {
    /// Notes the client believes changed since its last sync.
    pub notes: Vec<Note>,
    /// The client's last-sync watermark, in epoch milliseconds.
    pub last_sync: i64,
}

/// What the server returns from one sync round.
#[derive(Debug, Clone)]
pub struct SyncResponse {
    /// Notes the client is missing.
    pub notes: Vec<Note>,
}

/// Both versions of a note whose timestamps clashed in a sync round.
#[derive(Debug, Clone)]
pub struct Conflict {
    pub note_id: String,
    pub client_version: Note,
    pub server_version: Note,
}

/// The closed failure taxonomy of the store.
#[derive(Debug, Clone, Copy, PartialEq, Eq, Structural)]
pub enum StoreError {
    /// An exact-id lookup yielded nothing.
    NotFound,
    /// A prefix lookup matched more than one note.
    Ambiguous,
    /// A persisted tag list failed to decode.
    CorruptRecord,
    /// The persisted schema version exceeds what this build knows.
    SchemaTooNew,
    /// An unexpected failure of the underlying storage.
    StorageIO,
}

impl StoreError {
    /// A human-readable name for the error.
    pub fn message(&self) -> (r: &'static str)
        ensures
            *self is NotFound ==> r@ == "note not found"@,
            *self is Ambiguous ==> r@ == "ambiguous id prefix"@,
            *self is CorruptRecord ==> r@ == "corrupt record"@,
            *self is SchemaTooNew ==> r@ == "schema version too new"@,
            *self is StorageIO ==> r@ == "storage failure"@,
    {
        match self {
            StoreError::NotFound => "note not found",
            StoreError::Ambiguous => "ambiguous id prefix",
            StoreError::CorruptRecord => "corrupt record",
            StoreError::SchemaTooNew => "schema version too new",
            StoreError::StorageIO => "storage failure",
        }
    }
}

} // verus!
