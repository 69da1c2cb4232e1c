//! The server's request and response values, and the one decision its
//! device-code flow makes.

use vstd::prelude::*;

verus! {

/// What a successful login hands back.
#[derive(Debug, Clone)]
pub struct LoginResponse {
    pub token: String,
}

/// Credentials presented at login.
#[derive(Debug, Clone)]
pub struct LoginRequest {
    pub email: String,
    pub password: String,
}

/// A device-code challenge being opened.
#[derive(Debug, Clone)]
pub struct DeviceCodeRequest {
    pub device_code: String,
    pub user_code: String,
}

/// The token a completed device challenge yields.
#[derive(Debug, Clone)]
pub struct DeviceStatusResponse {
    pub access_token: String,
}

/// Where a device challenge stands.
#[derive(Debug, Clone)]
pub enum ChallengeResult {
    /// A user approved it; here is who.
    Success(String),
    /// No live challenge with that code.
    NoChallenge,
    /// The challenge exists but nobody approved it yet.
    Pending,
}

/// Classify a challenge lookup: no row means no challenge, a row without a
/// user means the approval is still pending, a row with a user succeeds as
/// that user.
pub fn classify_challenge(row: Option<Option<String>>) -> (r: ChallengeResult)
    ensures
        row is None ==> r is NoChallenge,
        row == Some(None::<String>) ==> r is Pending,
        row matches Some(u) ==> (u matches Some(user_id) ==> r matches ChallengeResult::Success(s)
            && s@ == user_id@),
{
    match row {
        None => ChallengeResult::NoChallenge,
        Some(None) => ChallengeResult::Pending,
        Some(Some(user_id)) => ChallengeResult::Success(user_id),
    }
}

} // verus!
