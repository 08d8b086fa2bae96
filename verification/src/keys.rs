//! Key material and the cryptographic services the library consumes: RSA key
//! generation, SHA-1 digests, and RSA signing and verification with a
//! SHA-256 digest. Keys are carried as PEM-encoded byte vectors, so the rest
//! of the library works on plain values.

use vstd::prelude::*;

use crate::err::SimpleCAError;

verus! {

#[verifier::external_type_specification]
#[verifier::external_body]
pub struct ExErrorStack(openssl::error::ErrorStack);

/// The signature that RSA PKCS#1 v1.5 signing with a SHA-256 digest produces
/// for the given PEM-encoded private key over the given message. The scheme
/// is deterministic: the key bytes and the message determine the signature.
pub uninterp spec fn rsa_sha256_sig(key_pem: Seq<u8>, data: Seq<u8>) -> Seq<u8>;

/// Whether the given signature verifies for the given message under the
/// given PEM-encoded public key, with RSA PKCS#1 v1.5 and a SHA-256 digest;
/// a key or signature that cannot be processed counts as not verified.
pub uninterp spec fn rsa_sha256_ok(key_pem: Seq<u8>, data: Seq<u8>, sig: Seq<u8>) -> bool;

/// The SHA-1 digest of a byte sequence.
pub uninterp spec fn sha1_of(data: Seq<u8>) -> Seq<u8>;

/// Whether the PEM bytes parse as an RSA private key that PKCS#1 v1.5
/// SHA-256 signing accepts. A function of the key bytes alone: the digest
/// length is fixed, so whether signing succeeds does not depend on the
/// message.
pub uninterp spec fn rsa_sign_ok(key_pem: Seq<u8>) -> bool;

/// An RSA key pair: the private key PEM-encoded in PKCS#8 form, and the
/// public key PEM-encoded.
#[derive(Debug, PartialEq, Eq)]
pub struct KeyMaterial {
    pub private_pem: Vec<u8>,
    pub public_pem: Vec<u8>,
}

/// The two halves belong to one key pair: every signature made with the
/// private half verifies under the public half.
pub open spec fn key_pair_consistent(private_pem: Seq<u8>, public_pem: Seq<u8>) -> bool {
    forall|data: Seq<u8>|
        rsa_sha256_ok(public_pem, data, #[trigger] rsa_sha256_sig(private_pem, data))
}

/// Relies on openssl's Rsa::generate, PKey::from_rsa and the PEM exports
/// private_key_to_pem_pkcs8 and public_key_to_pem: a freshly generated RSA
/// key pair, exported as the two PEM encodings of one key, so that a PKCS#1
/// v1.5 SHA-256 signature made with the private half verifies under the
/// public half, and the private half is a usable signing key. The lower
/// bound on `bits` keeps the generated modulus large enough to hold a
/// SHA-256 DigestInfo, so a generated key always signs; OpenSSL 3 refuses
/// smaller moduli at generation anyway. The key itself is random; nothing
/// else is promised of it.
#[verifier::external_body]
fn keygen_rsa_pem(bits: u32) -> (r: Result<KeyMaterial, openssl::error::ErrorStack>)
    requires
        512 <= bits,
    ensures
        r matches Ok(k) ==> key_pair_consistent(k.private_pem@, k.public_pem@) && rsa_sign_ok(
            k.private_pem@,
        ),
{
    let rsa = openssl::rsa::Rsa::generate(bits)?;
    let pkey = openssl::pkey::PKey::from_rsa(rsa)?;
    Ok(KeyMaterial {
        private_pem: pkey.private_key_to_pem_pkcs8()?,
        public_pem: pkey.public_key_to_pem()?,
    })
}

/// Relies on openssl's Signer with a SHA-256 digest over a key read by
/// PKey::private_key_from_pem. Only an RSA key is accepted (the body turns
/// any other key algorithm away), so what is signed with is RSA PKCS#1
/// v1.5: a deterministic function of the key bytes and the message, and
/// whether signing succeeds depends on the key bytes alone.
#[verifier::external_body]
fn sign_rsa_sha256(private_pem: &Vec<u8>, data: &Vec<u8>) -> (r: Result<
    Vec<u8>,
    openssl::error::ErrorStack,
>)
    ensures
        r is Ok <==> rsa_sign_ok(private_pem@),
        r matches Ok(sig) ==> sig@ == rsa_sha256_sig(private_pem@, data@),
{
    let pkey = openssl::pkey::PKey::private_key_from_pem(private_pem)?;
    if pkey.id() != openssl::pkey::Id::RSA {
        return Err(openssl::error::ErrorStack::get());
    }
    let mut signer = openssl::sign::Signer::new(openssl::hash::MessageDigest::sha256(), &pkey)?;
    signer.sign_oneshot_to_vec(data)
}

/// Relies on openssl's Verifier with a SHA-256 digest over an RSA public key
/// read by PKey::public_key_from_pem: whether an RSA PKCS#1 v1.5 signature
/// verifies, a deterministic function of key, message and signature; any
/// error while checking counts as not verified.
#[verifier::external_body]
fn verify_rsa_sha256(public_pem: &Vec<u8>, data: &Vec<u8>, sig: &Vec<u8>) -> (r: bool)
    ensures
        r == rsa_sha256_ok(public_pem@, data@, sig@),
{
    match openssl::pkey::PKey::public_key_from_pem(public_pem) {
        Err(_) => false,
        Ok(pkey) => match openssl::sign::Verifier::new(
            openssl::hash::MessageDigest::sha256(),
            &pkey,
        ) {
            Err(_) => false,
            Ok(mut verifier) => verifier.verify_oneshot(sig, data).unwrap_or(false),
        },
    }
}

/// Relies on openssl's hash with the SHA-1 message digest: the digest is a
/// deterministic function of the input bytes and is 20 bytes long. Hashing
/// bytes already in memory succeeds; failure for want of memory is left
/// aside, as everywhere in this library.
#[verifier::external_body]
fn sha1_digest(data: &Vec<u8>) -> (r: Result<Vec<u8>, openssl::error::ErrorStack>)
    ensures
        r is Ok,
        r matches Ok(d) ==> d@ == sha1_of(data@) && d@.len() == 20,
{
    let digest = openssl::hash::hash(openssl::hash::MessageDigest::sha1(), data)?;
    Ok(digest.to_vec())
}

/// A fresh RSA key pair of the given bit length, or a cryptographic error.
/// A bit length too small to sign a SHA-256 digest is refused outright.
pub fn generate_key_material(bits: u32) -> (r: Result<KeyMaterial, SimpleCAError>)
    ensures
        r matches Ok(k) ==> key_pair_consistent(k.private_pem@, k.public_pem@) && rsa_sign_ok(
            k.private_pem@,
        ),
        r is Err ==> r == Err::<KeyMaterial, SimpleCAError>(SimpleCAError::CryptoError),
        bits < 512 ==> r is Err,
{
    if bits < 512 {
        return Err(SimpleCAError::CryptoError);
    }
    match keygen_rsa_pem(bits) {
        Ok(k) => Ok(k),
        Err(_) => Err(SimpleCAError::CryptoError),
    }
}

/// The RSA PKCS#1 v1.5 SHA-256 signature over `data` with the given
/// PEM-encoded private key, or a cryptographic error. Succeeds exactly when
/// the key bytes are a usable RSA signing key.
pub fn sign_data(private_pem: &Vec<u8>, data: &Vec<u8>) -> (r: Result<Vec<u8>, SimpleCAError>)
    ensures
        r is Ok <==> rsa_sign_ok(private_pem@),
        r matches Ok(sig) ==> sig@ == rsa_sha256_sig(private_pem@, data@),
        r is Err ==> r == Err::<Vec<u8>, SimpleCAError>(SimpleCAError::CryptoError),
{
    match sign_rsa_sha256(private_pem, data) {
        Ok(sig) => Ok(sig),
        Err(_) => Err(SimpleCAError::CryptoError),
    }
}

/// Whether `sig` verifies for `data` under the given PEM-encoded public key.
pub fn verify_data(public_pem: &Vec<u8>, data: &Vec<u8>, sig: &Vec<u8>) -> (r: bool)
    ensures
        r == rsa_sha256_ok(public_pem@, data@, sig@),
{
    verify_rsa_sha256(public_pem, data, sig)
}

/// The SHA-1 digest of the given bytes. Always succeeds.
pub fn sha1_bytes(data: &Vec<u8>) -> (r: Result<Vec<u8>, SimpleCAError>)
    ensures
        r is Ok,
        r matches Ok(d) ==> d@ == sha1_of(data@) && d@.len() == 20,
{
    match sha1_digest(data) {
        Ok(d) => Ok(d),
        Err(_) => Err(SimpleCAError::CryptoError),
    }
}

/// A byte-for-byte copy of a byte vector.
pub fn clone_bytes(v: &Vec<u8>) -> (r: Vec<u8>)
    ensures
        r@ == v@,
{
    let mut r: Vec<u8> = Vec::new();
    let mut i: usize = 0;
    while i < v.len()
        invariant
            i <= v.len(),
            r@ =~= v@.subrange(0, i as int),
        decreases v.len() - i,
    {
        r.push(v[i]);
        i = i + 1;
    }
    proof {
        assert(r@ =~= v@);
    }
    r
}

/// A copy of a key pair.
pub fn clone_key_material(k: &KeyMaterial) -> (r: KeyMaterial)
    ensures
        r.private_pem@ == k.private_pem@,
        r.public_pem@ == k.public_pem@,
{
    KeyMaterial {
        private_pem: clone_bytes(&k.private_pem),
        public_pem: clone_bytes(&k.public_pem),
    }
}

/// A signature made with the private half of a consistent key pair verifies
/// under its public half.
pub proof fn lemma_key_pair_signature(private_pem: Seq<u8>, public_pem: Seq<u8>, data: Seq<u8>)
    requires
        key_pair_consistent(private_pem, public_pem),
    ensures
        rsa_sha256_ok(public_pem, data, rsa_sha256_sig(private_pem, data)),
{
}

} // verus!
