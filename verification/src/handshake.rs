//! The transport handshake and the channel cipher. An acceptor at
//! capacity writes a reject status byte; otherwise it discloses its public
//! key, and the connecting side answers with its symmetric key, its
//! initialisation vector and its self-asserted address, each RSA-encrypted
//! and length-prefixed. Every node generates exactly one symmetric key and
//! vector for its lifetime and discloses that same pair to every
//! neighbour. Steady-state messages travel AES-encrypted behind an 8-byte
//! length prefix.

use vstd::prelude::*;
use vstd::utf8::{valid_utf8, decode_utf8};
use crate::codec::{be64, push_be64, push_bytes, string_from_utf8};
use crate::network::contains_str;
use crate::registry::ManagerClient;

verus! {

/// The status byte an acceptor writes when it takes the connection.
pub const ACCEPT_STATUS: u8 = 1;

/// The status byte an acceptor writes when it is at capacity.
pub const REJECT_FULL_STATUS: u8 = 2;

/// Why a handshake was abandoned.
#[derive(Clone, Copy, PartialEq, Eq, Structural, Debug)]
pub enum HandshakeError {
    /// The acceptor is at capacity and rejected the connection.
    Rejected,
    /// The disclosed symmetric key is not 32 bytes.
    InvalidKey,
    /// The disclosed initialisation vector is not 16 bytes.
    InvalidIv,
    /// The disclosed address is not valid text.
    InvalidAddress,
}

/// A name for what AES-256-CBC encryption returns on given plaintext, key
/// and initialisation vector.
pub uninterp spec fn aes_enc(message: Seq<u8>, key: Seq<u8>, iv: Seq<u8>) -> Seq<u8>;

/// This node's one symmetric key and initialisation vector, generated once
/// per lifetime and disclosed to every neighbour.
pub struct AesEncryption {
    key: Vec<u8>,
    iv: Vec<u8>,
}

/// Relies on rand's `random`: 32 uniformly random bytes; nothing further
/// is assumed of their values.
#[verifier::external_body]
fn random_key_bytes() -> (r: Vec<u8>)
    ensures
        r@.len() == 32,
{
    let mut rng = rand::rng();
    let key: [u8; 32] = rand::Rng::random(&mut rng);
    key.to_vec()
}

/// Relies on rand's `random`: 16 uniformly random bytes; nothing further
/// is assumed of their values.
#[verifier::external_body]
fn random_iv_bytes() -> (r: Vec<u8>)
    ensures
        r@.len() == 16,
{
    let mut rng = rand::rng();
    let iv: [u8; 16] = rand::Rng::random(&mut rng);
    iv.to_vec()
}

impl AesEncryption {
    /// Well-formedness: a 32-byte key and a 16-byte vector.
    pub closed spec fn wf(&self) -> bool {
        self.key@.len() == 32 && self.iv@.len() == 16
    }

    /// The symmetric key.
    pub closed spec fn key_view(&self) -> Seq<u8> {
        self.key@
    }

    /// The initialisation vector.
    pub closed spec fn iv_view(&self) -> Seq<u8> {
        self.iv@
    }

    /// Fresh random key material for this node's lifetime.
    pub fn new() -> (r: AesEncryption)
        ensures
            r.wf(),
    {
        AesEncryption { key: random_key_bytes(), iv: random_iv_bytes() }
    }

    /// The key this node discloses to every neighbour.
    pub fn get_key(&self) -> (r: &Vec<u8>)
        ensures
            r@ == self.key_view(),
    {
        &self.key
    }

    /// The initialisation vector this node discloses to every neighbour.
    pub fn get_iv(&self) -> (r: &Vec<u8>)
        ensures
            r@ == self.iv_view(),
    {
        &self.iv
    }

    /// A copy holding the same key material.
    pub fn clone(&self) -> (r: AesEncryption)
        ensures
            r.key_view() == self.key_view(),
            r.iv_view() == self.iv_view(),
            r.wf() == self.wf(),
    {
        AesEncryption {
            key: vstd::slice::slice_to_vec(self.key.as_slice()),
            iv: vstd::slice::slice_to_vec(self.iv.as_slice()),
        }
    }

    /// Relies on openssl's AES-256-CBC `encrypt`: a pure function of
    /// plaintext, key and vector.
    #[verifier::external_body]
    pub fn encrypt(message: &[u8], key: &Vec<u8>, iv: &Vec<u8>) -> (r: Vec<u8>)
        requires
            key@.len() == 32,
            iv@.len() == 16,
        ensures
            r@ == aes_enc(message@, key@, iv@),
    {
        openssl::symm::encrypt(openssl::symm::Cipher::aes_256_cbc(), key, Some(iv), message)
            .unwrap_or_default()
    }

    /// Relies on openssl's AES-256-CBC `decrypt`: it inverts `encrypt`
    /// under the same key and vector, and reports malformed ciphertext
    /// instead of a plaintext.
    #[verifier::external_body]
    pub fn decrypt(&self, ciphertext: &[u8]) -> (r: Option<Vec<u8>>)
        requires
            self.wf(),
        ensures
            forall|p: Seq<u8>| ciphertext@ == aes_enc(p, self.key_view(), self.iv_view())
                ==> r is Some && r->Some_0@ == p,
    {
        openssl::symm::decrypt(openssl::symm::Cipher::aes_256_cbc(), &self.key, Some(&self.iv),
            ciphertext).ok()
    }
}

#[verifier::external_type_specification]
#[verifier::external_body]
#[verifier::reject_recursive_types(T)]
pub struct ExPKey<T>(openssl::pkey::PKey<T>);

#[verifier::external_type_specification]
#[verifier::external_body]
pub struct ExPublic(openssl::pkey::Public);

#[verifier::external_type_specification]
#[verifier::external_body]
pub struct ExPrivate(openssl::pkey::Private);

/// Relies on openssl's `PKey::clone`: a handle to the same key; nothing
/// further is assumed of it.
pub assume_specification<T>[ <openssl::pkey::PKey<T> as core::clone::Clone>::clone ](
    k: &openssl::pkey::PKey<T>) -> openssl::pkey::PKey<T>;

/// This node's long-lived asymmetric keypair, loaded once at startup.
#[derive(Clone)]
pub struct RsaEncryption {
    public_pkey: openssl::pkey::PKey<openssl::pkey::Public>,
    private_pkey: openssl::pkey::PKey<openssl::pkey::Private>,
}

/// Relies on openssl's `Rsa::public_key_from_pem` and `PKey::from_rsa`:
/// parses a PEM public key, or reports malformed input.
#[verifier::external_body]
fn parse_public_pem(pem: &[u8]) -> (r: Option<openssl::pkey::PKey<openssl::pkey::Public>>)
{
    let rsa = openssl::rsa::Rsa::public_key_from_pem(pem).ok()?;
    openssl::pkey::PKey::from_rsa(rsa).ok()
}

/// Relies on openssl's `Rsa::private_key_from_pem` and `PKey::from_rsa`:
/// parses a PEM private key, or reports malformed input.
#[verifier::external_body]
fn parse_private_pem(pem: &[u8]) -> (r: Option<openssl::pkey::PKey<openssl::pkey::Private>>)
{
    let rsa = openssl::rsa::Rsa::private_key_from_pem(pem).ok()?;
    openssl::pkey::PKey::from_rsa(rsa).ok()
}

impl RsaEncryption {
    /// A keypair from its two PEM encodings; the caller reads the files
    /// and treats a failure here as fatal.
    pub fn from_pems(public_pem: &[u8], private_pem: &[u8]) -> (r: Option<RsaEncryption>) {
        let public_pkey = match parse_public_pem(public_pem) {
            Some(k) => k,
            None => {
                return None;
            },
        };
        let private_pkey = match parse_private_pem(private_pem) {
            Some(k) => k,
            None => {
                return None;
            },
        };
        Some(RsaEncryption { public_pkey, private_pkey })
    }

    /// A peer's public key from the PEM bytes it sent during the
    /// handshake.
    pub fn parse_public(pem_key: &[u8]) -> (r: Option<openssl::pkey::PKey<
        openssl::pkey::Public>>) {
        parse_public_pem(pem_key)
    }

    /// Relies on openssl's `Encrypter` with PKCS#1 padding: the ciphertext
    /// is randomized, so nothing is assumed of it; oversized messages are
    /// reported, not encrypted.
    #[verifier::external_body]
    pub fn encrypt(message: &[u8], pkey: &openssl::pkey::PKey<openssl::pkey::Public>) -> (r:
        Option<Vec<u8>>) {
        let mut encrypter = openssl::encrypt::Encrypter::new(pkey).ok()?;
        encrypter.set_rsa_padding(openssl::rsa::Padding::PKCS1).ok()?;
        let mut encrypted = vec![0; encrypter.encrypt_len(message).ok()?];
        let encrypted_len = encrypter.encrypt(message, &mut encrypted).ok()?;
        encrypted.truncate(encrypted_len);
        Some(encrypted)
    }

    /// Relies on openssl's `Decrypter` with PKCS#1 padding: malformed
    /// ciphertext is reported, not decrypted; nothing is assumed of the
    /// plaintext.
    #[verifier::external_body]
    pub fn decrypt(&self, encrypted: &[u8]) -> (r: Option<Vec<u8>>) {
        let mut decrypter = openssl::encrypt::Decrypter::new(&self.private_pkey).ok()?;
        decrypter.set_rsa_padding(openssl::rsa::Padding::PKCS1).ok()?;
        let mut decrypted = vec![0; decrypter.decrypt_len(encrypted).ok()?];
        let decrypted_len = decrypter.decrypt(encrypted, &mut decrypted).ok()?;
        decrypted.truncate(decrypted_len);
        Some(decrypted)
    }

    /// Relies on openssl's `public_key_to_pem`: this node's public key as
    /// PEM bytes, for disclosure to a connecting peer.
    #[verifier::external_body]
    pub fn get_public_pkey(&self) -> (r: Option<Vec<u8>>) {
        self.public_pkey.public_key_to_pem().ok()
    }
}

/// The status byte for an incoming connection: reject exactly when the
/// connection count has reached the configured maximum.
pub fn admission_status(current_connections: usize, max_connections: u32) -> (r: u8)
    ensures
        r == REJECT_FULL_STATUS <==> current_connections >= max_connections,
        r == ACCEPT_STATUS || r == REJECT_FULL_STATUS,
{
    if current_connections >= max_connections as usize {
        REJECT_FULL_STATUS
    } else {
        ACCEPT_STATUS
    }
}

/// A connecting node's reading of the acceptor's status byte: the
/// handshake goes on unless the acceptor reported itself full.
pub fn check_accept_status(status: u8) -> (r: Result<(), HandshakeError>)
    ensures
        r is Ok <==> status != REJECT_FULL_STATUS,
        r is Err ==> r->Err_0 == HandshakeError::Rejected,
{
    if status == REJECT_FULL_STATUS {
        Err(HandshakeError::Rejected)
    } else {
        Ok(())
    }
}

/// Validates the decrypted handshake material: accepts exactly a 32-byte
/// key, a 16-byte vector and a textual address, and names the first field
/// that is malformed otherwise.
pub fn validate_disclosure(key: Vec<u8>, iv: Vec<u8>, url_bytes: Vec<u8>) -> (r: Result<(
    Vec<u8>, Vec<u8>, String), HandshakeError>)
    ensures
        match r {
            Ok((k, i, u)) => {
                &&& key@.len() == 32 && iv@.len() == 16 && valid_utf8(url_bytes@)
                &&& k == key && i == iv && u@ == decode_utf8(url_bytes@)
            },
            Err(e) => {
                &&& (e == HandshakeError::InvalidKey <==> key@.len() != 32)
                &&& (e == HandshakeError::InvalidIv <==> (key@.len() == 32 && iv@.len() != 16))
                &&& (e == HandshakeError::InvalidAddress <==> (key@.len() == 32 && iv@.len()
                    == 16 && !valid_utf8(url_bytes@)))
            },
        },
{
    if key.len() != 32 {
        return Err(HandshakeError::InvalidKey);
    }
    if iv.len() != 16 {
        return Err(HandshakeError::InvalidIv);
    }
    match string_from_utf8(url_bytes) {
        Some(url) => Ok((key, iv, url)),
        None => Err(HandshakeError::InvalidAddress),
    }
}

/// The accepting side of the handshake after the three encrypted frames
/// arrived: decrypts each and validates the material. Success yields the
/// peer's key, vector and self-asserted address.
pub fn accept_disclosure(rsa: &RsaEncryption, encrypted_key: &[u8], encrypted_iv: &[u8],
    encrypted_url: &[u8]) -> (r: Result<(Vec<u8>, Vec<u8>, String), HandshakeError>)
    ensures
        r matches Ok((k, i, u)) ==> k@.len() == 32 && i@.len() == 16,
{
    let key = match rsa.decrypt(encrypted_key) {
        Some(k) => k,
        None => {
            return Err(HandshakeError::InvalidKey);
        },
    };
    let iv = match rsa.decrypt(encrypted_iv) {
        Some(i) => i,
        None => {
            return Err(HandshakeError::InvalidIv);
        },
    };
    let url_bytes = match rsa.decrypt(encrypted_url) {
        Some(u) => u,
        None => {
            return Err(HandshakeError::InvalidAddress);
        },
    };
    validate_disclosure(key, iv, url_bytes)
}

/// The connecting side of the handshake after the acceptor's public key
/// arrived: this node's key, vector and address, each RSA-encrypted for
/// the acceptor, ready to be framed and written in that order.
pub fn build_disclosure(pkey: &openssl::pkey::PKey<openssl::pkey::Public>,
    aes: &AesEncryption, self_address: &str) -> (r: Option<(Vec<u8>, Vec<u8>, Vec<u8>)>) {
    let encrypted_key = match RsaEncryption::encrypt(aes.get_key().as_slice(), pkey) {
        Some(v) => v,
        None => {
            return None;
        },
    };
    let encrypted_iv = match RsaEncryption::encrypt(aes.get_iv().as_slice(), pkey) {
        Some(v) => v,
        None => {
            return None;
        },
    };
    let encrypted_address = match RsaEncryption::encrypt(self_address.as_bytes(), pkey) {
        Some(v) => v,
        None => {
            return None;
        },
    };
    Some((encrypted_key, encrypted_iv, encrypted_address))
}

/// Wraps a payload for the wire: an 8-byte big-endian length, then the
/// payload bytes.
pub fn frame_message(payload: &[u8]) -> (r: Vec<u8>)
    ensures
        r@ == be64(payload@.len() as u64) + payload@,
{
    let mut out: Vec<u8> = Vec::new();
    push_be64(&mut out, payload.len() as u64);
    push_bytes(&mut out, payload);
    out
}

/// Prepares one message for `address`: encrypts it under the key material
/// that peer disclosed and frames the ciphertext. Succeeds exactly when
/// the peer is connected and disclosed its key.
pub fn prepare_send(registry: &ManagerClient, address: &str, message: &[u8]) -> (r: Option<
    Vec<u8>>)
    requires
        registry.wf(),
    ensures
        match r {
            Some(framed) => {
                &&& contains_str(registry.peers_view(), address@)
                &&& registry.key_of(address@) is Some
                &&& ({
                    let key = registry.key_of(address@)->Some_0.0@;
                    let iv = registry.key_of(address@)->Some_0.1@;
                    let ct = aes_enc(message@, key, iv);
                    framed@ == be64(ct.len() as u64) + ct
                })
            },
            None => !contains_str(registry.peers_view(), address@) || registry.key_of(
                address@) is None,
        },
{
    let (key, iv) = match registry.use_client(address) {
        Some(ki) => ki,
        None => {
            return None;
        },
    };
    let encrypted = AesEncryption::encrypt(message, &key, &iv);
    Some(frame_message(encrypted.as_slice()))
}

} // verus!
