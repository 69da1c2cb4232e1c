//! The sync wire contract: request, response, and the note record both
//! sides exchange.

use vstd::prelude::*;

use crate::models;

verus! {

/// One note as the sync protocol carries it.
#[derive(Debug, Clone)]
pub struct NoteDto {
    pub id: String,
    pub content: String,
    pub tags: Vec<String>,
    pub date: Option<String>,
    pub created_at: i64,
    pub updated_at: i64,
    pub deleted_at: Option<i64>,
}

/// A sync request: the client's changed notes and its watermark.
#[derive(Debug, Clone)]
pub struct SyncRequestDto {
    pub notes: Vec<NoteDto>,
    pub last_sync: i64,
}

/// A sync response: the notes the client is missing.
#[derive(Debug, Clone)]
pub struct SyncResponseDto {
    pub notes: Vec<NoteDto>,
}

impl From<models::Note> for NoteDto {
    /// Field-for-field, the date under its wire name.
    fn from(note: models::Note) -> (r: NoteDto) {
        NoteDto {
            id: note.id,
            content: note.content,
            tags: note.tags,
            date: note.subject_date,
            created_at: note.created_at,
            updated_at: note.updated_at,
            deleted_at: note.deleted_at,
        }
    }
}

impl vstd::std_specs::convert::FromSpecImpl<models::Note> for NoteDto {
    open spec fn obeys_from_spec() -> bool {
        true
    }

    open spec fn from_spec(note: models::Note) -> NoteDto {
        NoteDto {
            id: note.id,
            content: note.content,
            tags: note.tags,
            date: note.subject_date,
            created_at: note.created_at,
            updated_at: note.updated_at,
            deleted_at: note.deleted_at,
        }
    }
}

impl From<NoteDto> for models::Note {
    /// Field-for-field, back into the stored shape.
    fn from(dto: NoteDto) -> (r: models::Note) {
        models::Note {
            id: dto.id,
            content: dto.content,
            tags: dto.tags,
            subject_date: dto.date,
            created_at: dto.created_at,
            updated_at: dto.updated_at,
            deleted_at: dto.deleted_at,
        }
    }
}

impl vstd::std_specs::convert::FromSpecImpl<NoteDto> for models::Note {
    open spec fn obeys_from_spec() -> bool {
        true
    }

    open spec fn from_spec(dto: NoteDto) -> models::Note {
        models::Note {
            id: dto.id,
            content: dto.content,
            tags: dto.tags,
            subject_date: dto.date,
            created_at: dto.created_at,
            updated_at: dto.updated_at,
            deleted_at: dto.deleted_at,
        }
    }
}

} // verus!
