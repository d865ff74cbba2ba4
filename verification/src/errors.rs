use vstd::prelude::*;

verus! {

/// Every failure the gateway can report. Storage failures carry the
/// collaborator's message as plain text; no variant is ever shown to a
/// connected client except by refusing the connection.
#[derive(Debug, Clone)]
pub enum Error {
    EnvVarNotFound(String),
    DatabaseConnectionFailed,
    InsertFailed(String),
    QueryFailed(String),
    UpdateFailed(String),
    RecordNotFound,
    DeleteFailed(String),
    CreateFileFailed,
    FileTypeInvalid,
    DecodeJwtFailed(String),
    TokenNotFound,
    Unknown(String),
}

/// The HTTP status the transport layer answers with for each error.
pub open spec fn spec_status_code(e: Error) -> u16 {
    match e {
        Error::TokenNotFound | Error::DecodeJwtFailed(_) => 401,
        Error::RecordNotFound => 404,
        Error::InsertFailed(_)
        | Error::QueryFailed(_)
        | Error::UpdateFailed(_)
        | Error::DeleteFailed(_) => 500,
        Error::Unknown(_) => 500,
        Error::DatabaseConnectionFailed => 503,
        _ => 500,
    }
}

impl Error {
    /// Status code of the response a failed request is answered with.
    pub fn status_code(&self) -> (code: u16)
        ensures
            code == spec_status_code(*self),
    {
        match self {
            Error::TokenNotFound | Error::DecodeJwtFailed(_) => 401,
            Error::RecordNotFound => 404,
            Error::InsertFailed(_)
            | Error::QueryFailed(_)
            | Error::UpdateFailed(_)
            | Error::DeleteFailed(_) => 500,
            Error::Unknown(_) => 500,
            Error::DatabaseConnectionFailed => 503,
            _ => 500,
        }
    }
}

} // verus!
