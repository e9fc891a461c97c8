use kipa::api::{
    Address, ApiVisibility, Key, MessageBody, Node, RequestPayload, ResponseBody, ResponsePayload,
};
use kipa::error::{ApiError, ApiErrorType, Error, InternalError, InternalResult};
use kipa::message::{
    accept_local_response, accept_response, new_request_body, receive_body, response_body,
    BlackHolePayloadHandler, PayloadHandler,
};

fn node() -> Node {
    Node::new(Address::new(vec![1, 2, 3, 4], 10842), Key::new("0000ABCD".to_string(), vec![1]))
}

fn key() -> Key {
    Key::new("0000ABCD".to_string(), vec![1])
}

struct FailingHandler {}

impl PayloadHandler for FailingHandler {
    fn receive(&self, _: &RequestPayload, _: Option<Node>, _: u32) -> InternalResult<ResponsePayload> {
        Err(InternalError::private(Error::ConfigError("secret".to_string())))
    }
}

#[test]
fn visibility_of_requests() {
    let local = ApiVisibility::Local();
    let global = ApiVisibility::Global();
    assert!(RequestPayload::SearchRequest(key()).is_visible(&local));
    assert!(!RequestPayload::SearchRequest(key()).is_visible(&global));
    assert!(RequestPayload::QueryRequest(key()).is_visible(&global));
    assert!(!RequestPayload::QueryRequest(key()).is_visible(&local));
    assert!(RequestPayload::ConnectRequest(node()).is_visible(&local));
    assert!(RequestPayload::ListNeighboursRequest().is_visible(&local));
    assert!(RequestPayload::VerifyRequest().is_visible(&global));
    assert!(!RequestPayload::VerifyRequest().is_visible(&local));
}

#[test]
fn receive_body_refuses_out_of_scope_requests() {
    let handler = BlackHolePayloadHandler::new();
    let body = MessageBody::new(RequestPayload::SearchRequest(key()), 7, "1.0".to_string());
    match receive_body(&handler, body, Some(node()), "1.1".to_string(), Ok(())) {
        Err(Error::RequestError(m)) => assert_eq!(m, "Request is not locally available"),
        _ => panic!("expected a request error"),
    }
    let body = MessageBody::new(RequestPayload::VerifyRequest(), 7, "1.0".to_string());
    assert!(receive_body(&handler, body, None, "1.1".to_string(), Ok(())).is_err());
}

#[test]
fn receive_body_answers_with_same_id() {
    let handler = BlackHolePayloadHandler::new();
    let body = MessageBody::new(RequestPayload::QueryRequest(key()), 42, "1.0".to_string());
    let response = receive_body(&handler, body, Some(node()), "1.1".to_string(), Ok(())).unwrap();
    assert_eq!(response.id, 42);
    assert_eq!(response.version, "1.1");
    assert_eq!(response.payload, Ok(ResponsePayload::QueryResponse(vec![])));
}

#[test]
fn receive_body_reports_version_mismatch() {
    let handler = BlackHolePayloadHandler::new();
    let body = MessageBody::new(RequestPayload::ListNeighboursRequest(), 3, "0.1".to_string());
    let err = ApiError::new("Incompatible versions".to_string(), ApiErrorType::Configuration);
    let response = receive_body(&handler, body, None, "1.1".to_string(), Err(err.clone())).unwrap();
    assert_eq!(response.payload, Err(err));
}

#[test]
fn receive_body_hides_private_errors() {
    let body = MessageBody::new(RequestPayload::VerifyRequest(), 3, "1.0".to_string());
    let response = receive_body(&FailingHandler {}, body, Some(node()), "1.1".to_string(), Ok(())).unwrap();
    assert_eq!(
        response.payload,
        Err(ApiError::new("Internal error".to_string(), ApiErrorType::Internal))
    );
}

#[test]
fn black_hole_answers() {
    let handler = BlackHolePayloadHandler::new();
    assert_eq!(
        handler.receive(&RequestPayload::SearchRequest(key()), None, 1),
        Ok(ResponsePayload::SearchResponse(None))
    );
    assert_eq!(
        handler.receive(&RequestPayload::ConnectRequest(node()), None, 1),
        Ok(ResponsePayload::ConnectResponse())
    );
    assert_eq!(
        handler.receive(&RequestPayload::ListNeighboursRequest(), None, 1),
        Ok(ResponsePayload::ListNeighboursResponse(vec![]))
    );
    assert_eq!(
        handler.receive(&RequestPayload::VerifyRequest(), Some(node()), 1),
        Ok(ResponsePayload::VerifyResponse())
    );
}

#[test]
fn accept_response_checks_id() {
    let body: ResponseBody = response_body(Ok(ResponsePayload::VerifyResponse()), 5, "1".to_string());
    assert_eq!(accept_response(body.clone(), 5), Ok(ResponsePayload::VerifyResponse()));
    assert_eq!(
        accept_response(body.clone(), 6),
        Err(InternalError::PrivateError(Error::ResponseError(
            "Response had incorrect ID, expected 6, received 5".to_string()
        )))
    );
    assert_eq!(
        accept_local_response(body, 1234),
        Err(InternalError::PrivateError(Error::ResponseError(
            "Incorrect message ID in response: expected 1234, got 5".to_string()
        )))
    );
}

#[test]
fn accept_response_keeps_public_errors() {
    let err = ApiError::new("Bad".to_string(), ApiErrorType::Parse);
    let body: ResponseBody = MessageBody::new(Err(err.clone()), 9, "1".to_string());
    assert_eq!(accept_local_response(body, 9), Err(InternalError::PublicError(err, None)));
}

#[test]
fn new_request_body_keeps_payload() {
    let body = new_request_body(RequestPayload::VerifyRequest(), "2.0".to_string());
    assert_eq!(body.payload, RequestPayload::VerifyRequest());
    assert_eq!(body.version, "2.0");
}
