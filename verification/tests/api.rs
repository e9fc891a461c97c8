use kipa::api::{Address, Key, KeySpace, Node, Request, Response};
use kipa::codec::{append_decimal, append_signed_decimal, decode_frame_length, encode_frame};
use kipa::error::{
    api_to_internal_result, to_api_result, to_internal_result, ApiError, ApiErrorType, Error,
    InternalError,
};

#[test]
fn address_normalizes_ipv4_in_ipv6() {
    let a = Address::new(vec![0, 0, 0, 0, 0, 0, 0, 0, 0, 0, 0xFF, 0xFF, 1, 2, 3, 4], 5);
    assert_eq!(a.ip_data, vec![1, 2, 3, 4]);
    assert_eq!(a.port, 5);
    assert_eq!(Address::new(a.ip_data.clone(), 5), a);
    let v6 = vec![0, 0, 0, 0, 0, 0, 0, 0, 0, 0, 0xFF, 0xFE, 1, 2, 3, 4];
    assert_eq!(Address::new(v6.clone(), 5).ip_data, v6);
    assert_eq!(Address::new(vec![9, 9, 9, 9], 1).ip_data, vec![9, 9, 9, 9]);
}

#[test]
fn ipv6_segments_are_big_endian_pairs() {
    let a = Address::new(vec![0xfe, 0x80, 0, 0, 0, 0, 0, 0, 0x12, 0x34, 0, 0, 0, 0, 0xab, 0xcd], 1);
    assert_eq!(a.ipv6_segments(), vec![0xfe80, 0, 0, 0, 0x1234, 0, 0, 0xabcd]);
}

#[test]
fn node_and_key_basics() {
    let k = Key::new("12345678".to_string(), vec![1, 2]);
    assert_eq!(k.to_string(), "Key(12345678)");
    assert_eq!(k.get_data(), &vec![1, 2]);
    assert_eq!(k.get_key_id(), "12345678");
    let n = Node::new(Address::new(vec![1, 1, 1, 1], 2), k.clone());
    assert!(n.same_as(&n.copy()));
    let other = Node::new(Address::new(vec![1, 1, 1, 1], 3), k);
    assert!(!n.same_as(&other));
    assert!(KeySpace::new(vec![1, 2]).same_as(&KeySpace::new(vec![1, 2])));
    assert!(!KeySpace::new(vec![1, 2]).same_as(&KeySpace::new(vec![1])));
}

#[test]
fn request_and_response_hold_fields() {
    let n = Node::new(Address::new(vec![1, 1, 1, 1], 2), Key::new("12345678".to_string(), vec![]));
    let r = Request::new(n.clone(), vec![1], vec![2, 3]);
    assert_eq!(r.sender, n);
    assert_eq!(r.body_signature, vec![1]);
    assert_eq!(r.encrypted_body, vec![2, 3]);
    let r = Response::new(vec![4], vec![5]);
    assert_eq!(r.body_signature, vec![4]);
    assert_eq!(r.encrypted_body, vec![5]);
}

#[test]
fn error_texts() {
    assert_eq!(ApiErrorType::Parse.to_string(), "01 Parse error");
    assert_eq!(ApiErrorType::NoError.to_string(), "00 No error");
    assert_eq!(ApiErrorType::Internal.to_string(), "04 Internal error");
    assert_eq!(ApiErrorType::External.code(), 3);
    assert_eq!(ApiError::new("m".to_string(), ApiErrorType::Parse).to_string(), "ApiError(m)");
    assert_eq!(Error::ParseError("x".to_string()).to_string(), "Parse error: x");
    assert_eq!(Error::IpAddressError("y".to_string()).to_string(), "IP address error: y");
}

#[test]
fn error_conversions() {
    let e = ApiError::new("public".to_string(), ApiErrorType::Configuration);
    let internal = api_to_internal_result::<u8>(Err(e.clone()));
    assert_eq!(internal, Err(InternalError::PublicError(e.clone(), None)));
    assert_eq!(to_api_result(internal), Err(e));
    let private = to_internal_result::<u8>(Err(Error::JoinError("j".to_string())));
    assert_eq!(private, Err(InternalError::PrivateError(Error::JoinError("j".to_string()))));
    assert_eq!(
        to_api_result(private),
        Err(ApiError::new("Internal error".to_string(), ApiErrorType::Internal))
    );
    assert_eq!(to_api_result::<u8>(Ok(3)), Ok(3));
    let p = InternalError::public("p", ApiErrorType::Parse);
    assert_eq!(p, InternalError::PublicError(ApiError::new("p".to_string(), ApiErrorType::Parse), None));
    let pw = InternalError::public_with_error("q", ApiErrorType::External, Error::GpgError("g".to_string()));
    assert_eq!(
        pw,
        InternalError::PublicError(
            ApiError::new("q".to_string(), ApiErrorType::External),
            Some(Error::GpgError("g".to_string()))
        )
    );
}

#[test]
fn frames_and_decimals() {
    let f = encode_frame(&[7, 8, 9]);
    assert_eq!(f, vec![0, 0, 0, 3, 7, 8, 9]);
    assert_eq!(decode_frame_length(&f), 3);
    assert_eq!(decode_frame_length(&[1, 0, 0, 2]), 0x01000002);
    let mut s = "n=".to_string();
    append_decimal(&mut s, 1203);
    assert_eq!(s, "n=1203");
    let mut s = String::new();
    append_decimal(&mut s, 0);
    append_signed_decimal(&mut s, -45);
    append_signed_decimal(&mut s, i64::MIN);
    assert_eq!(s, "0-45-9223372036854775808");
}
