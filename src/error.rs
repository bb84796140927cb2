//! Error codes shown to users.
use vstd::prelude::*;
use crate::room::ServiceError;

verus! {

/// The codes of the errors that users see.
pub struct Error;

impl Error {
    pub fn register_username_exist() -> (r: i32)
        ensures
            r == 404001,
    {
        404001
    }

    pub fn username_or_password_error() -> (r: i32)
        ensures
            r == 404002,
    {
        404002
    }

    pub fn username_not_playing() -> (r: i32)
        ensures
            r == 404101,
    {
        404101
    }
}

impl ServiceError {
    /// The code shown for the error, if it has one.
    pub fn code(&self) -> (r: Option<i32>)
        ensures
            *self == ServiceError::NotPlaying ==> r == Some(404101i32),
            *self != ServiceError::NotPlaying ==> r is None,
    {
        match self {
            ServiceError::NotPlaying => Some(Error::username_not_playing()),
            _ => None,
        }
    }
}

} // verus!
