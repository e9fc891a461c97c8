use kipa::cert::SecretKey;
use kipa::api::Key;
use kipa::error::Error;
use sequoia_openpgp::cert::CertBuilder;
use sequoia_openpgp::serialize::SerializeInto;

#[test]
fn key_from_invalid_data_fails() {
    match Key::from_cert_data(vec![1, 2, 3]) {
        Err(Error::GpgError(m)) => assert_eq!(m, "Failed to parse bytes as certificate"),
        _ => panic!("expected a parse error"),
    }
    assert!(SecretKey::new(vec![]).is_err());
}

#[test]
fn keys_from_certificates() {
    let (cert, _) = CertBuilder::general_purpose(None, Some("test@example.org")).generate().unwrap();
    let hex = cert.keyid().to_hex();
    let public_data = cert.to_vec().unwrap();
    let key = Key::from_cert_data(public_data.clone()).unwrap();
    assert_eq!(key.key_id, hex[8..].to_string());
    assert_eq!(key.data, public_data);

    // The public certificate is not a secret key.
    match SecretKey::new(public_data) {
        Err(Error::ConfigError(m)) => assert_eq!(m, "Provided key is not a secret key"),
        _ => panic!("expected a configuration error"),
    }

    let secret_data = cert.as_tsk().to_vec().unwrap();
    let secret = SecretKey::new(secret_data).unwrap();
    assert_eq!(secret.key_id().unwrap(), hex[8..].to_string());
    assert_eq!(secret.public().unwrap(), key);
}
