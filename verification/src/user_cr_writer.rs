//! Rotating a user's SCRAM credential.
//!
//! A rotation patches the derived material into the declared user. It never
//! makes a user, and never changes how a user authenticates.

use vstd::prelude::*;
use crate::hashing;
use crate::hashing::base64_encode;
use crate::kafkauser::{KafkaUserScramCredential, KafkaUserSpec};
use crate::text;
use crate::text::{joined3, quoted_string, text_eq};

verus! {

/// Derived SCRAM-SHA-512 material.
#[derive(Debug, Clone, PartialEq, Eq)]
pub struct ScramCredentialSpec {
    pub salt: Vec<u8>,
    pub stored_key: Vec<u8>,
    pub server_key: Vec<u8>,
    pub iterations: i32,
}

#[derive(Debug, Clone, PartialEq, Eq)]
pub enum UserWriteError {
    /// There is no such user.
    NotFound(String),
    /// The user authenticates in another way.
    InvalidTarget(String),
    Forbidden(String),
    Other(String),
}

#[verifier::ext_equal]
pub enum UserError {
    NotFound(Seq<char>),
    InvalidTarget(Seq<char>),
    Forbidden(Seq<char>),
    Other(Seq<char>),
}

impl View for UserWriteError {
    type V = UserError;

    open spec fn view(&self) -> UserError {
        match self {
            UserWriteError::NotFound(s) => UserError::NotFound(s@),
            UserWriteError::InvalidTarget(s) => UserError::InvalidTarget(s@),
            UserWriteError::Forbidden(s) => UserError::Forbidden(s@),
            UserWriteError::Other(s) => UserError::Other(s@),
        }
    }
}

impl UserWriteError {
    /// The error in words.
    pub fn message(&self) -> (s: String)
        ensures
            s@ == (match self@ {
                UserError::NotFound(m) => "user not found: "@ + m,
                UserError::InvalidTarget(m) => "invalid target: "@ + m,
                UserError::Forbidden(m) => "forbidden: "@ + m,
                UserError::Other(m) => "other: "@ + m,
            }),
    {
        let (head, tail): (&str, &str) = match self {
            UserWriteError::NotFound(m) => ("user not found: ", m.as_str()),
            UserWriteError::InvalidTarget(m) => ("invalid target: ", m.as_str()),
            UserWriteError::Forbidden(m) => ("forbidden: ", m.as_str()),
            UserWriteError::Other(m) => ("other: ", m.as_str()),
        };
        let mut s = head.to_owned();
        s.push_str(tail);
        s
    }
}

/// Writes credentials of users.
pub trait UserCRWriter {
    /// Replaces the credential of a user.
    fn set_scram_credential(&self, username: &str, cred: ScramCredentialSpec) -> Result<(), UserWriteError>;
}

/// How a user authenticates; none for one that is only authorized.
pub open spec fn auth_kind(user: KafkaUserSpec) -> Option<Seq<char>> {
    match user.authentication {
        Some(a) => Some(a.kind@),
        None => None,
    }
}

/// Why a credential cannot be rotated for a user who authenticates that way.
pub open spec fn refusal(username: Seq<char>, kind: Option<Seq<char>>) -> Option<UserError> {
    match kind {
        Some(k) => if k == "scram-sha-512"@ || k.len() == 0 {
            None
        } else {
            Some(
                UserError::InvalidTarget(
                    "KafkaUser "@ + username + " has authentication.type "@ + text::quoted(k)
                        + "; SCRAM credential rotation applies to scram-sha-512 users only"@,
                ),
            )
        },
        None => Some(
            UserError::InvalidTarget(
                "KafkaUser "@ + username + " is authorization-only (no authentication); SCRAM credential rotation applies to scram-sha-512 users only"@,
            ),
        ),
    }
}

/// Whether a user's credential may be rotated.
pub fn check_target(username: &str, user: &KafkaUserSpec) -> (r: Result<(), UserWriteError>)
    ensures
        match r {
            Ok(u) => refusal(username@, auth_kind(*user)) is None,
            Err(e) => refusal(username@, auth_kind(*user)) == Some(e@),
        },
{
    match &user.authentication {
        Some(a) => {
            if text_eq(&a.kind, "scram-sha-512") || a.kind.as_str().is_empty() {
                return Ok(());
            }
            let mut m = joined3("KafkaUser ", username, " has authentication.type ");
            let q = quoted_string(&a.kind);
            m.push_str(&q);
            m.push_str("; SCRAM credential rotation applies to scram-sha-512 users only");
            Err(UserWriteError::InvalidTarget(m))
        },
        None => Err(
            UserWriteError::InvalidTarget(
                joined3(
                    "KafkaUser ",
                    username,
                    " is authorization-only (no authentication); SCRAM credential rotation applies to scram-sha-512 users only",
                ),
            ),
        ),
    }
}

/// The credential as the resource holds it.
pub fn scram_patch(cred: &ScramCredentialSpec) -> (p: KafkaUserScramCredential)
    ensures
        p.salt@ == hashing::base64_text(cred.salt@),
        p.stored_key@ == hashing::base64_text(cred.stored_key@),
        p.server_key@ == hashing::base64_text(cred.server_key@),
        p.iterations == cred.iterations,
{
    KafkaUserScramCredential {
        salt: base64_encode(&cred.salt),
        stored_key: base64_encode(&cred.stored_key),
        server_key: base64_encode(&cred.server_key),
        iterations: cred.iterations,
    }
}

/// What a refusal means: `code` is none where the server was not reached,
/// `message` is the server's, `shown` the whole error in words.
pub open spec fn write_error(username: Seq<char>, code: Option<u16>, message: Seq<char>, shown: Seq<char>) -> UserError {
    if code == Some(404u16) {
        UserError::NotFound(username)
    } else if code == Some(403u16) {
        UserError::Forbidden(message)
    } else {
        UserError::Other(shown)
    }
}

/// What a refusal of the API server means.
pub fn user_write_error(username: &str, code: Option<u16>, message: &str, shown: &str) -> (e: UserWriteError)
    ensures
        e@ == write_error(username@, code, message@, shown@),
{
    match code {
        Some(c) => if c == 404 {
            UserWriteError::NotFound(username.to_owned())
        } else if c == 403 {
            UserWriteError::Forbidden(message.to_owned())
        } else {
            UserWriteError::Other(shown.to_owned())
        },
        None => UserWriteError::Other(shown.to_owned()),
    }
}

} // verus!
