//! Server settings and the errors the server answers with.

use vstd::prelude::*;

verus! {

/// The command line options of the server.
#[derive(Clone, Debug)]
pub struct Opt {
    pub log_level: String,
    pub addr: String,
    pub port: u16,
    pub static_dir: String,
}

/// The settings that the server takes from its environment.
#[derive(Clone, Debug)]
pub struct Config {
    pub mongodb_uri: String,
    pub jwt_secret: String,
    pub jwt_expiration: i64,
}

/// What the server can refuse a request with.
#[derive(Clone, Copy, Debug, PartialEq, Eq, Structural)]
pub enum CustomError {
    /// The credentials of a login do not match.
    LoginError,
    /// The bearer credential is missing or not valid.
    JWTError,
    /// The request carries no body.
    MissingBody,
    /// The caller has no collection.
    MissingPath,
    /// The count is zero or an index does not lie below it.
    OutOfRange,
}

impl CustomError {
    /// The HTTP status that goes with the error.
    pub open spec fn status(self) -> u16 {
        match self {
            CustomError::LoginError => 401,
            CustomError::JWTError => 401,
            CustomError::MissingBody => 400,
            CustomError::MissingPath => 404,
            CustomError::OutOfRange => 416,
        }
    }

    /// The HTTP status that goes with the error.
    pub fn status_code(&self) -> (r: u16)
        ensures
            r == self.status(),
    {
        match self {
            CustomError::LoginError => 401,
            CustomError::JWTError => 401,
            CustomError::MissingBody => 400,
            CustomError::MissingPath => 404,
            CustomError::OutOfRange => 416,
        }
    }

    /// The text that goes into the body of the error response.
    pub fn message(&self) -> (r: String)
        ensures
            r@ == match *self {
                CustomError::LoginError => "Invalid credentials"@,
                CustomError::JWTError => "Invalid JWT"@,
                CustomError::MissingBody => "Request is missing a body"@,
                CustomError::MissingPath => "Path not found"@,
                CustomError::OutOfRange => "Index out of range"@,
            },
    {
        match self {
            CustomError::LoginError => "Invalid credentials".to_owned(),
            CustomError::JWTError => "Invalid JWT".to_owned(),
            CustomError::MissingBody => "Request is missing a body".to_owned(),
            CustomError::MissingPath => "Path not found".to_owned(),
            CustomError::OutOfRange => "Index out of range".to_owned(),
        }
    }
}

} // verus!
