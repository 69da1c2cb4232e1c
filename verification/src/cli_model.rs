//! The values the note CLI exchanges with a sync server, as plain data.

use vstd::prelude::*;

use crate::models;

verus! {

/// What a successful login hands back.
#[derive(Debug, Clone)]
pub struct LoginResponse {
    pub token: String,
}

/// The state of a device-code poll.
#[derive(Debug, Clone)]
pub enum TokenPollResponse {
    Pending,
    Success(String),
    Failure(String),
}

/// What the server answers when a note is created remotely.
#[derive(Debug, Clone)]
pub struct CreateNoteResponse {
    pub id: i64,
    pub content: String,
}

/// A page of notes from the server.
#[derive(Debug, Clone)]
pub struct GetNotesResponse {
    pub notes: Vec<Note>,
}

/// A note as the wire carries it: the same fields as the stored entity,
/// with the date under its wire name.
#[derive(Debug, Clone)]
pub struct Note {
    pub id: String,
    pub content: String,
    pub tags: Vec<String>,
    pub date: Option<String>,
    pub created_at: i64,
    pub updated_at: i64,
    pub deleted_at: Option<i64>,
}

impl From<models::Note> for Note {
    /// Field-for-field, the date keeping its value under its wire name.
    fn from(note: models::Note) -> (r: Note) {
        Note {
            id: note.id,
            content: note.content,
            tags: note.tags,
            date: note.subject_date,
            created_at: note.created_at,
            updated_at: note.updated_at,
            deleted_at: note.deleted_at,
        }
    }
}

impl vstd::std_specs::convert::FromSpecImpl<models::Note> for Note {
    open spec fn obeys_from_spec() -> bool {
        true
    }

    open spec fn from_spec(note: models::Note) -> Note {
        Note {
            id: note.id,
            content: note.content,
            tags: note.tags,
            date: note.subject_date,
            created_at: note.created_at,
            updated_at: note.updated_at,
            deleted_at: note.deleted_at,
        }
    }
}

/// A device-code login request.
#[derive(Debug, Clone)]
pub struct DeviceCodeRequest {
    pub device_code: String,
}

/// A bearer token.
#[derive(Debug, Clone)]
pub struct Token {
    pub access_token: String,
}

} // verus!
