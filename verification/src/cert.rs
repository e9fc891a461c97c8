//! Keys made from OpenPGP certificates, parsed and serialized by
//! `sequoia-openpgp`.
//!
//! A key's identifier is the last eight characters of the hexadecimal key ID
//! of its certificate, and its data is the serialization of the certificate's
//! public parts.

use vstd::prelude::*;

use crate::api::Key;
use crate::error::Error;
use sequoia_openpgp::parse::Parse;
use sequoia_openpgp::serialize::Serialize;
use sequoia_openpgp::Cert;

verus! {

/// An OpenPGP certificate, as `sequoia-openpgp` parses it.
#[verifier::external_type_specification]
#[verifier::external_body]
pub struct ExCert(Cert);

/// Whether `data` parses as one OpenPGP certificate.
pub uninterp spec fn cert_parses(data: Seq<u8>) -> bool;

/// The hexadecimal key ID of the certificate that `data` parses as.
pub uninterp spec fn cert_key_id_hex(data: Seq<u8>) -> Seq<char>;

/// Whether the certificate that `data` parses as holds secret key material.
pub uninterp spec fn cert_is_secret(data: Seq<u8>) -> bool;

/// The serialization of the public parts of the certificate that `data`
/// parses as, or `None` when it cannot be serialized.
pub uninterp spec fn cert_public_bytes(data: Seq<u8>) -> Option<Seq<u8>>;

/// Whether `c` is an upper-case hexadecimal digit.
pub open spec fn is_upper_hex_digit(c: char) -> bool {
    ('0' <= c && c <= '9') || ('A' <= c && c <= 'F')
}

/// Whether `s` is made of upper-case hexadecimal digits, two per byte.
pub open spec fn is_upper_hex(s: Seq<char>) -> bool {
    &&& s.len() % 2 == 0
    &&& forall|i: int| 0 <= i < s.len() ==> is_upper_hex_digit(#[trigger] s[i])
}

/// A certificate together with the bytes it was parsed from; its view is
/// those bytes.
pub struct ParsedCert {
    cert: Cert,
    data: Vec<u8>,
}

impl View for ParsedCert {
    type V = Seq<u8>;

    closed spec fn view(&self) -> Seq<u8> {
        self.data@
    }
}

/// Parses `data` as a certificate.
///
/// Calls `sequoia_openpgp::Cert::from_bytes`, which parses the bytes as one
/// certificate and fails on anything else; the outcome depends on the bytes
/// alone, and is named `cert_parses`. The certificate is kept with a copy of
/// the bytes.
#[verifier::external_body]
fn parse_cert(data: &[u8]) -> (r: Option<ParsedCert>)
    ensures
        r is Some <==> cert_parses(data@),
        r matches Some(p) ==> p@ == data@,
{
    match Cert::from_bytes(data) {
        Ok(cert) => Some(ParsedCert { cert, data: data.to_vec() }),
        Err(_) => None,
    }
}

/// The hexadecimal key ID of a certificate.
///
/// Calls `sequoia_openpgp::Cert::keyid`, the key ID of the certificate's
/// primary key, and `sequoia_openpgp::KeyID::to_hex`, which writes each of its
/// bytes as two upper-case hexadecimal digits. The result depends on the
/// certificate's bytes alone and is named `cert_key_id_hex`.
#[verifier::external_body]
fn key_id_hex(p: &ParsedCert) -> (r: String)
    ensures
        r@ == cert_key_id_hex(p@),
        is_upper_hex(r@),
{
    p.cert.keyid().to_hex()
}

/// Whether a certificate holds secret key material.
///
/// Calls `sequoia_openpgp::Cert::is_tsk`, whose answer depends on the
/// certificate's bytes alone and is named `cert_is_secret`.
#[verifier::external_body]
fn cert_is_tsk(p: &ParsedCert) -> (r: bool)
    ensures
        r == cert_is_secret(p@),
{
    p.cert.is_tsk()
}

/// Serializes the public parts of a certificate.
///
/// Calls `sequoia_openpgp::serialize::Serialize::serialize` into a vector;
/// `None` when serialization fails. The outcome depends on the certificate's
/// bytes alone and is named `cert_public_bytes`.
#[verifier::external_body]
fn serialize_cert(p: &ParsedCert) -> (r: Option<Vec<u8>>)
    ensures
        (match r {
            Some(v) => Some(v@),
            None => None::<Seq<u8>>,
        }) == cert_public_bytes(p@),
{
    let mut out: Vec<u8> = Vec::new();
    match p.cert.serialize(&mut out) {
        Ok(()) => Some(out),
        Err(_) => None,
    }
}

/// The message of the error for data that is not a certificate.
pub open spec fn parse_failed_message() -> Seq<char> {
    "Failed to parse bytes as certificate"@
}

/// The message of the error for a key ID of unexpected length.
pub open spec fn key_id_length_message() -> Seq<char> {
    "Key ID of a certificate does not have sixteen digits"@
}

/// The message of the error for a certificate that cannot be serialized.
pub open spec fn serialize_failed_message() -> Seq<char> {
    "Failed to serialize certificate"@
}

/// The message of the error for a key that is not secret.
pub open spec fn not_secret_message() -> Seq<char> {
    "Provided key is not a secret key"@
}

/// Whether `r` is a key error with message `m`.
pub open spec fn is_gpg_error<T>(r: Result<T, Error>, m: Seq<char>) -> bool {
    r matches Err(Error::GpgError(s)) && s@ == m
}

/// What taking the identifier of the certificate parsed from `data` gives:
/// the last eight digits of its key ID, which must have sixteen.
pub open spec fn key_id_result(data: Seq<u8>, r: Result<String, Error>) -> bool {
    let hex = cert_key_id_hex(data);
    if hex.len() == 16 {
        r matches Ok(id) && id@ == hex.subrange(8, 16)
    } else {
        is_gpg_error(r, key_id_length_message())
    }
}

/// What making a key of the certificate parsed from `data` gives: its
/// identifier and the serialization of its public parts.
pub open spec fn key_result(data: Seq<u8>, r: Result<Key, Error>) -> bool {
    let hex = cert_key_id_hex(data);
    if hex.len() != 16 {
        is_gpg_error(r, key_id_length_message())
    } else {
        match cert_public_bytes(data) {
            Some(bytes) => r matches Ok(k) && k.key_id@ == hex.subrange(8, 16) && k.data@ == bytes,
            None => is_gpg_error(r, serialize_failed_message()),
        }
    }
}

/// The key identifier of a certificate: the last eight digits of its
/// sixteen-digit key ID.
fn key_id_of(p: &ParsedCert) -> (r: Result<String, Error>)
    ensures
        key_id_result(p@, r),
{
    let hex = key_id_hex(p);
    if hex.unicode_len() != 16 {
        proof {
            reveal_strlit("Key ID of a certificate does not have sixteen digits");
        }
        return Err(Error::GpgError(String::from_str("Key ID of a certificate does not have sixteen digits")));
    }
    proof {
        assert(hex.is_ascii()) by {
            assert forall|i: int| 0 <= i < hex@.len() implies #[trigger] hex@[i] as nat <= 127 by {
                assert(is_upper_hex_digit(hex@[i]));
            }
        }
    }
    let id = hex.as_str().substring_ascii(8, 16).to_string();
    Ok(id)
}

/// A key made from a certificate: its identifier and the serialization of
/// its public parts.
fn key_of_cert(p: &ParsedCert) -> (r: Result<Key, Error>)
    ensures
        key_result(p@, r),
{
    let key_id = key_id_of(p)?;
    match serialize_cert(p) {
        Some(data) => Ok(Key::new(key_id, data)),
        None => {
            proof {
                reveal_strlit("Failed to serialize certificate");
            }
            Err(Error::GpgError(String::from_str("Failed to serialize certificate")))
        },
    }
}

impl Key {
    /// Makes a key from the bytes of an OpenPGP certificate: the last eight
    /// digits of its key ID and the serialization of its public parts.
    pub fn from_cert_data(data: Vec<u8>) -> (r: Result<Key, Error>)
        ensures
            r is Ok <==> cert_parses(data@) && cert_key_id_hex(data@).len() == 16
                && cert_public_bytes(data@) is Some,
            cert_parses(data@) ==> key_result(data@, r),
            !cert_parses(data@) ==> is_gpg_error(r, parse_failed_message()),
    {
        match parse_cert(data.as_slice()) {
            Some(p) => key_of_cert(&p),
            None => {
                proof {
                    reveal_strlit("Failed to parse bytes as certificate");
                }
                Err(Error::GpgError(String::from_str("Failed to parse bytes as certificate")))
            },
        }
    }
}

/// The secret key of the local node.
pub struct SecretKey {
    cert: ParsedCert,
}

impl SecretKey {
    /// Makes a secret key from the bytes of an OpenPGP certificate, which must
    /// hold secret key material.
    pub fn new(data: Vec<u8>) -> (r: Result<SecretKey, Error>)
        ensures
            r is Ok <==> cert_parses(data@) && cert_is_secret(data@),
            r matches Ok(k) ==> k.data() == data@,
            !cert_parses(data@) ==> is_gpg_error(r, parse_failed_message()),
            cert_parses(data@) && !cert_is_secret(data@) ==> (r matches Err(Error::ConfigError(m))
                && m@ == not_secret_message()),
    {
        match parse_cert(data.as_slice()) {
            Some(p) => {
                if !cert_is_tsk(&p) {
                    proof {
                        reveal_strlit("Provided key is not a secret key");
                    }
                    return Err(Error::ConfigError(String::from_str("Provided key is not a secret key")));
                }
                Ok(SecretKey { cert: p })
            },
            None => {
                proof {
                    reveal_strlit("Failed to parse bytes as certificate");
                }
                Err(Error::GpgError(String::from_str("Failed to parse bytes as certificate")))
            },
        }
    }

    /// The bytes of the certificate this secret key was made from.
    pub closed spec fn data(&self) -> Seq<u8> {
        self.cert@
    }

    /// The certificate of this secret key.
    pub closed spec fn cert(&self) -> Cert {
        self.cert.cert
    }

    /// The public key of this secret key: the identifier and the serialized
    /// public parts of its certificate. It fails, with a key error, only when
    /// the certificate's key ID does not have sixteen digits or the
    /// certificate cannot be serialized.
    pub fn public(&self) -> (r: Result<Key, Error>)
        ensures
            r is Ok <==> cert_key_id_hex(self.data()).len() == 16
                && cert_public_bytes(self.data()) is Some,
            key_result(self.data(), r),
    {
        key_of_cert(&self.cert)
    }

    /// The key identifier of this secret key: the last eight digits of the
    /// key ID of its certificate. It fails, with a key error, only when that
    /// key ID does not have sixteen digits.
    pub fn key_id(&self) -> (r: Result<String, Error>)
        ensures
            r is Ok <==> cert_key_id_hex(self.data()).len() == 16,
            key_id_result(self.data(), r),
    {
        key_id_of(&self.cert)
    }

    /// The certificate of this secret key, with its secret material.
    pub fn secret_key_yes_really(&self) -> (r: &Cert)
        ensures
            *r == self.cert(),
    {
        &self.cert.cert
    }
}

} // verus!
