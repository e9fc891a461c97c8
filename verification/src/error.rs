//! Error types used across the library.
//!
//! 1. `Error`: errors of code that does not directly face other nodes or the
//!    command line client.
//! 2. `ApiError`: public-facing errors, seen by other nodes and the client.
//! 3. `InternalError`: either a public-facing error or an internal one that
//!    must not be shown publicly. Request handling propagates these until the
//!    highest level, where they become `ApiError`s to be sent.

use vstd::prelude::*;

verus! {

/// Kinds of public-facing errors.
#[derive(Clone, Copy, Debug, PartialEq, Eq, Structural)]
pub enum ApiErrorType {
    /// No error occurred.
    NoError,
    /// Error in parsing user input.
    Parse,
    /// Error in configuration, e.g. in the daemon or the client.
    Configuration,
    /// Error caused by an external library or tool.
    External,
    /// Miscellaneous errors that are not exposed to the user.
    Internal,
}

/// The numeric code of an error type.
pub open spec fn api_error_code(t: ApiErrorType) -> u8 {
    match t {
        ApiErrorType::NoError => 0,
        ApiErrorType::Parse => 1,
        ApiErrorType::Configuration => 2,
        ApiErrorType::External => 3,
        ApiErrorType::Internal => 4,
    }
}

/// The text of an error type: its code in two digits, a space, and its name.
pub open spec fn api_error_type_text(t: ApiErrorType) -> Seq<char> {
    match t {
        ApiErrorType::NoError => "00 No error"@,
        ApiErrorType::Parse => "01 Parse error"@,
        ApiErrorType::Configuration => "02 Configuration error"@,
        ApiErrorType::External => "03 External error"@,
        ApiErrorType::Internal => "04 Internal error"@,
    }
}

impl ApiErrorType {
    /// The numeric code of the error type.
    pub fn code(&self) -> (r: u8)
        ensures
            r == api_error_code(*self),
    {
        match self {
            ApiErrorType::NoError => 0,
            ApiErrorType::Parse => 1,
            ApiErrorType::Configuration => 2,
            ApiErrorType::External => 3,
            ApiErrorType::Internal => 4,
        }
    }

    /// The error type's two-digit code and name, as in `01 Parse error`.
    pub fn to_string(&self) -> (r: String)
        ensures
            r@ == api_error_type_text(*self),
    {
        match self {
            ApiErrorType::NoError => String::from_str("00 No error"),
            ApiErrorType::Parse => String::from_str("01 Parse error"),
            ApiErrorType::Configuration => String::from_str("02 Configuration error"),
            ApiErrorType::External => String::from_str("03 External error"),
            ApiErrorType::Internal => String::from_str("04 Internal error"),
        }
    }

    /// Copies the error type.
    pub fn copy(&self) -> (r: ApiErrorType)
        ensures
            r == *self,
    {
        match self {
            ApiErrorType::NoError => ApiErrorType::NoError,
            ApiErrorType::Parse => ApiErrorType::Parse,
            ApiErrorType::Configuration => ApiErrorType::Configuration,
            ApiErrorType::External => ApiErrorType::External,
            ApiErrorType::Internal => ApiErrorType::Internal,
        }
    }
}

/// Error returned when a request has failed.
#[derive(Clone, Debug, PartialEq, Eq)]
pub struct ApiError {
    /// Description of the error.
    pub message: String,
    /// Type of the error.
    pub error_type: ApiErrorType,
}

impl ApiError {
    /// Creates an API error.
    pub fn new(message: String, error_type: ApiErrorType) -> (r: ApiError)
        ensures
            r.message@ == message@,
            r.error_type == error_type,
    {
        ApiError { message, error_type }
    }
}

impl ApiError {
    /// The text of the error, as in `ApiError(message)`.
    pub fn to_string(&self) -> (r: String)
        ensures
            r@ == "ApiError("@ + self.message@ + ")"@,
    {
        let mut r = String::from_str("ApiError(");
        r.append(self.message.as_str());
        r.append(")");
        r
    }
}

/// Result for `ApiError`s.
pub type ApiResult<T> = Result<T, ApiError>;

/// Errors of code that does not directly face other nodes or the client.
#[derive(Clone, Debug, PartialEq, Eq)]
pub enum Error {
    /// Error in parsing some data.
    ParseError(String),
    /// Error in joining on a thread.
    JoinError(String),
    /// Error in configuration set up.
    ConfigError(String),
    /// Error in the request.
    RequestError(String),
    /// Error in the response type.
    ResponseError(String),
    /// Error in retrieving an IP address.
    IpAddressError(String),
    /// Error due to unimplemented functionality.
    UnimplementedError(String),
    /// Error in a cryptographic key operation.
    GpgError(String),
}

/// The text of an error: its kind, a colon, and its description.
pub open spec fn error_text(e: Error) -> Seq<char> {
    match e {
        Error::ParseError(s) => "Parse error: "@ + s@,
        Error::JoinError(s) => "Join error: "@ + s@,
        Error::ConfigError(s) => "Configuration error: "@ + s@,
        Error::RequestError(s) => "Request error: "@ + s@,
        Error::ResponseError(s) => "Response error: "@ + s@,
        Error::IpAddressError(s) => "IP address error: "@ + s@,
        Error::UnimplementedError(s) => "Unimplemented error: "@ + s@,
        Error::GpgError(s) => "GPG error: "@ + s@,
    }
}

impl Error {
    /// The text of the error, as in `Parse error: description`.
    pub fn to_string(&self) -> (r: String)
        ensures
            r@ == error_text(*self),
    {
        let (prefix, s) = match self {
            Error::ParseError(s) => ("Parse error: ", s),
            Error::JoinError(s) => ("Join error: ", s),
            Error::ConfigError(s) => ("Configuration error: ", s),
            Error::RequestError(s) => ("Request error: ", s),
            Error::ResponseError(s) => ("Response error: ", s),
            Error::IpAddressError(s) => ("IP address error: ", s),
            Error::UnimplementedError(s) => ("Unimplemented error: ", s),
            Error::GpgError(s) => ("GPG error: ", s),
        };
        let mut r = String::from_str(prefix);
        r.append(s.as_str());
        r
    }
}

/// Either a public-facing error, or a private one that must not be seen
/// externally.
#[derive(Clone, Debug, PartialEq, Eq)]
pub enum InternalError {
    /// Public error, possibly caused by a private one.
    PublicError(ApiError, Option<Error>),
    /// Private error.
    PrivateError(Error),
}

/// Result type with `InternalError` as the error type.
pub type InternalResult<T> = Result<T, InternalError>;

/// Result of getting a response from another node; the error is either a
/// public error received from that node or an error in receiving the response.
pub type ResponseResult<T> = InternalResult<T>;

impl InternalError {
    /// Creates a public error.
    pub fn public(s: &str, error_type: ApiErrorType) -> (r: InternalError)
        ensures
            r matches InternalError::PublicError(e, None) && e.message@ == s@ && e.error_type
                == error_type,
    {
        InternalError::PublicError(ApiError::new(String::from_str(s), error_type), None)
    }

    /// Creates a public error caused by a private error.
    pub fn public_with_error(s: &str, error_type: ApiErrorType, error: Error) -> (r: InternalError)
        ensures
            r matches InternalError::PublicError(e, Some(cause)) && e.message@ == s@
                && e.error_type == error_type && cause == error,
    {
        InternalError::PublicError(ApiError::new(String::from_str(s), error_type), Some(error))
    }

    /// Creates a private error.
    pub fn private(err: Error) -> (r: InternalError)
        ensures
            r == InternalError::PrivateError(err),
    {
        InternalError::PrivateError(err)
    }
}

/// Converts a result into an internal result, whose error is private.
pub fn to_internal_result<T>(result: Result<T, Error>) -> (r: InternalResult<T>)
    ensures
        match result {
            Ok(v) => r == Ok::<T, InternalError>(v),
            Err(e) => r == Err::<T, InternalError>(InternalError::PrivateError(e)),
        },
{
    match result {
        Ok(v) => Ok(v),
        Err(e) => Err(InternalError::PrivateError(e)),
    }
}

/// Converts an API result into an internal result, whose error is public.
pub fn api_to_internal_result<T>(result: ApiResult<T>) -> (r: InternalResult<T>)
    ensures
        match result {
            Ok(v) => r == Ok::<T, InternalError>(v),
            Err(e) => r == Err::<T, InternalError>(InternalError::PublicError(e, None)),
        },
{
    match result {
        Ok(v) => Ok(v),
        Err(e) => Err(InternalError::PublicError(e, None)),
    }
}

/// The message of the public error that stands for a private one.
pub open spec fn internal_error_message() -> Seq<char> {
    seq!['I', 'n', 't', 'e', 'r', 'n', 'a', 'l', ' ', 'e', 'r', 'r', 'o', 'r']
}

/// Turns an internal result into a public-facing result: a public error is
/// kept, and a private error becomes an "Internal error" of type `Internal`.
pub fn to_api_result<T>(result: InternalResult<T>) -> (r: ApiResult<T>)
    ensures
        match result {
            Ok(v) => r == Ok::<T, ApiError>(v),
            Err(InternalError::PublicError(e, _)) => r == Err::<T, ApiError>(e),
            Err(InternalError::PrivateError(_)) => r matches Err(e) && e.message@
                == internal_error_message() && e.error_type == ApiErrorType::Internal,
        },
{
    match result {
        Ok(v) => Ok(v),
        Err(InternalError::PublicError(e, _)) => Err(e),
        Err(InternalError::PrivateError(_)) => {
            proof {
                reveal_strlit("Internal error");
            }
            Err(ApiError::new(String::from_str("Internal error"), ApiErrorType::Internal))
        },
    }
}

/// An API result that was made internal and then public again is unchanged.
pub proof fn lemma_api_result_round_trip<T>(result: ApiResult<T>, internal: InternalResult<T>, back: ApiResult<T>)
    requires
        match result {
            Ok(v) => internal == Ok::<T, InternalError>(v),
            Err(e) => internal == Err::<T, InternalError>(InternalError::PublicError(e, None)),
        },
        match internal {
            Ok(v) => back == Ok::<T, ApiError>(v),
            Err(InternalError::PublicError(e, _)) => back == Err::<T, ApiError>(e),
            Err(InternalError::PrivateError(_)) => back matches Err(e) && e.message@
                == internal_error_message() && e.error_type == ApiErrorType::Internal,
        },
    ensures
        back == result,
{
}

} // verus!
