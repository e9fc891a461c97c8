//! The decisions of message handling: how a daemon answers a request body,
//! and how a sender checks the response body it gets back.
//!
//! Encoding, encryption and transport are done around these functions; what
//! is decided here is which requests are answered in which scope, what the
//! response carries, and when a response is accepted.

use vstd::prelude::*;

use crate::api::{
    request_visible, ApiVisibility, MessageBody, Node, RequestBody, RequestPayload, ResponseBody,
    ResponsePayload,
};
use crate::codec::{append_decimal, decimal};
use crate::error::{
    api_to_internal_result, internal_error_message, to_api_result, ApiError, ApiErrorType,
    ApiResult, Error, InternalError, InternalResult,
};
use rand::rngs::ThreadRng;
use rand::Rng;

verus! {

/// Handles the payloads of requests; each kind of daemon has its own.
pub trait PayloadHandler {
    /// Processes a request payload from `sender` (none for the local client)
    /// in the message `message_id`, and returns the response payload.
    fn receive(&self, payload: &RequestPayload, sender: Option<Node>, message_id: u32) -> InternalResult<
        ResponsePayload,
    >;
}

/// The payload handler that answers every request with an empty response.
pub struct BlackHolePayloadHandler {}

impl BlackHolePayloadHandler {
    /// Creates the handler.
    pub fn new() -> (r: BlackHolePayloadHandler) {
        BlackHolePayloadHandler {  }
    }
}

impl PayloadHandler for BlackHolePayloadHandler {
    fn receive(&self, payload: &RequestPayload, sender: Option<Node>, message_id: u32) -> (r:
        InternalResult<ResponsePayload>)
        ensures
            match *payload {
                RequestPayload::QueryRequest(_) => r matches Ok(ResponsePayload::QueryResponse(v))
                    && v@.len() == 0,
                RequestPayload::SearchRequest(_) => r matches Ok(ResponsePayload::SearchResponse(None)),
                RequestPayload::ConnectRequest(_) => r matches Ok(ResponsePayload::ConnectResponse()),
                RequestPayload::ListNeighboursRequest() => r matches Ok(
                    ResponsePayload::ListNeighboursResponse(v),
                ) && v@.len() == 0,
                RequestPayload::VerifyRequest() => r matches Ok(ResponsePayload::VerifyResponse()),
            },
    {
        match payload {
            RequestPayload::QueryRequest(_) => Ok(ResponsePayload::QueryResponse(Vec::new())),
            RequestPayload::SearchRequest(_) => Ok(ResponsePayload::SearchResponse(None)),
            RequestPayload::ConnectRequest(_) => Ok(ResponsePayload::ConnectResponse()),
            RequestPayload::ListNeighboursRequest() => Ok(
                ResponsePayload::ListNeighboursResponse(Vec::new()),
            ),
            RequestPayload::VerifyRequest() => Ok(ResponsePayload::VerifyResponse()),
        }
    }
}

/// The scope of a request: global when it comes from another node, local
/// when it comes from the command line client.
pub open spec fn visibility_of(sender: Option<Node>) -> ApiVisibility {
    match sender {
        Some(_) => ApiVisibility::Global(),
        None => ApiVisibility::Local(),
    }
}

/// Whether `out` is the public-facing result of `result`: the value, the
/// public error, or an "Internal error" of type `Internal` in place of a
/// private error.
pub open spec fn is_api_result<T>(result: InternalResult<T>, out: ApiResult<T>) -> bool {
    match result {
        Ok(v) => out == Ok::<T, ApiError>(v),
        Err(InternalError::PublicError(e, _)) => out == Err::<T, ApiError>(e),
        Err(InternalError::PrivateError(_)) => out matches Err(e) && e.message@
            == internal_error_message() && e.error_type == ApiErrorType::Internal,
    }
}

/// The message of the error for a request outside its scope.
pub open spec fn not_locally_available_message() -> Seq<char> {
    "Request is not locally available"@
}

/// The response body for message `id`: the public-facing result, and the
/// version of the responder.
pub fn response_body(result: InternalResult<ResponsePayload>, id: u32, version: String) -> (r:
    ResponseBody)
    ensures
        is_api_result(result, r.payload),
        r.id == id,
        r.version@ == version@,
{
    MessageBody::new(to_api_result(result), id, version)
}

/// Answers the request `body` from `sender` (none for the local client),
/// responding with version `version`.
///
/// A request outside its scope (see `request_visible`) is refused. Otherwise
/// the response carries the same message identifier, and either the error of
/// `version_check` (the comparison of the request's version with the local
/// one) or what `handler` answers, made public-facing.
pub fn receive_body<H: PayloadHandler>(
    handler: &H,
    body: RequestBody,
    sender: Option<Node>,
    version: String,
    version_check: ApiResult<()>,
) -> (r: Result<ResponseBody, Error>)
    ensures
        r is Err <==> !request_visible(body.payload, visibility_of(sender)),
        r matches Err(e) ==> e matches Error::RequestError(m) && m@ == not_locally_available_message(),
        r matches Ok(resp) ==> {
            &&& resp.id == body.id
            &&& resp.version@ == version@
            &&& version_check matches Err(e) ==> resp.payload == Err::<ResponsePayload, ApiError>(e)
            &&& version_check is Ok ==> exists|res: InternalResult<ResponsePayload>|
                call_ensures(H::receive, (handler, &body.payload, sender, body.id), res)
                    && #[trigger] is_api_result(res, resp.payload)
        },
{
    let visibility = match sender {
        Some(_) => ApiVisibility::Global(),
        None => ApiVisibility::Local(),
    };
    if !body.payload.is_visible(&visibility) {
        return Err(Error::RequestError(String::from_str("Request is not locally available")));
    }
    let result = match api_to_internal_result(version_check) {
        Ok(()) => handler.receive(&body.payload, sender, body.id),
        Err(e) => Err(e),
    };
    Ok(response_body(result, body.id, version))
}

/// The random number generator of `rand` local to a thread.
#[verifier::external_type_specification]
#[verifier::external_body]
pub struct ExThreadRng(ThreadRng);

/// The random number generator of the current thread.
///
/// Calls `rand::thread_rng`; nothing is stated of the generator.
#[verifier::external_body]
fn thread_rng() -> ThreadRng {
    rand::thread_rng()
}

/// A random `u32`.
///
/// Calls `rand::Rng::gen` for `u32` on the generator: any `u32` can come
/// back, so nothing is stated of it.
#[verifier::external_body]
fn random_u32(rng: &mut ThreadRng) -> u32 {
    rng.gen::<u32>()
}

/// A request body for `payload`, with a random message identifier and the
/// version `version` of the sender.
pub fn new_request_body(payload: RequestPayload, version: String) -> (r: RequestBody)
    ensures
        r.payload == payload,
        r.version@ == version@,
{
    let mut rng = thread_rng();
    MessageBody::new(payload, random_u32(&mut rng), version)
}

/// The message of the error for a response to another daemon with the
/// wrong message identifier.
pub open spec fn wrong_id_message(expected: u32, received: u32) -> Seq<char> {
    "Response had incorrect ID, expected "@ + decimal(expected as nat) + ", received "@ + decimal(
        received as nat,
    )
}

/// The message of the error for a response to the local client with the
/// wrong message identifier.
pub open spec fn wrong_local_id_message(expected: u32, received: u32) -> Seq<char> {
    "Incorrect message ID in response: expected "@ + decimal(expected as nat) + ", got "@
        + decimal(received as nat)
}

/// Accepts the response `body` to the request `message_id` sent to another
/// daemon: its payload, when the identifiers match.
pub fn accept_response(body: ResponseBody, message_id: u32) -> (r: InternalResult<ResponsePayload>)
    ensures
        body.id != message_id ==> (r matches Err(InternalError::PrivateError(Error::ResponseError(m)))
            && m@ == wrong_id_message(message_id, body.id)),
        body.id == message_id ==> match body.payload {
            Ok(p) => r == Ok::<ResponsePayload, InternalError>(p),
            Err(e) => r == Err::<ResponsePayload, InternalError>(InternalError::PublicError(e, None)),
        },
{
    if body.id != message_id {
        let mut m = String::from_str("Response had incorrect ID, expected ");
        append_decimal(&mut m, message_id as u64);
        m.append(", received ");
        append_decimal(&mut m, body.id as u64);
        proof {
            reveal_strlit("Response had incorrect ID, expected ");
            reveal_strlit(", received ");
        }
        return Err(InternalError::private(Error::ResponseError(m)));
    }
    api_to_internal_result(body.payload)
}

/// Accepts the response `body` to the request `message_id` sent by the
/// local client: its payload, when the identifiers match.
pub fn accept_local_response(body: ResponseBody, message_id: u32) -> (r: InternalResult<
    ResponsePayload,
>)
    ensures
        body.id != message_id ==> (r matches Err(InternalError::PrivateError(Error::ResponseError(m)))
            && m@ == wrong_local_id_message(message_id, body.id)),
        body.id == message_id ==> match body.payload {
            Ok(p) => r == Ok::<ResponsePayload, InternalError>(p),
            Err(e) => r == Err::<ResponsePayload, InternalError>(InternalError::PublicError(e, None)),
        },
{
    if body.id != message_id {
        let mut m = String::from_str("Incorrect message ID in response: expected ");
        append_decimal(&mut m, message_id as u64);
        m.append(", got ");
        append_decimal(&mut m, body.id as u64);
        proof {
            reveal_strlit("Incorrect message ID in response: expected ");
            reveal_strlit(", got ");
        }
        return Err(InternalError::private(Error::ResponseError(m)));
    }
    api_to_internal_result(body.payload)
}

} // verus!
