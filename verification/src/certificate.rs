//! The signed certificate structure: distinguished names for subject and
//! issuer, public key, serial, validity window, ordered extension list, and
//! the signature made with the issuer's private key over the rest.

use vstd::prelude::*;

use crate::extensions::{exts_view, Extension, ExtensionView};
use crate::name::{dn_view, DnEntry, DnEntryView};

verus! {

/// The X.509 version number a v3 certificate carries.
pub const X509_V3: u32 = 2;

/// A signed certificate. Immutable once built.
#[derive(Debug, PartialEq, Eq)]
pub struct Certificate {
    pub version: u32,
    pub serial: u128,
    pub subject_dn: Vec<DnEntry>,
    pub issuer_dn: Vec<DnEntry>,
    pub public_key_pem: Vec<u8>,
    pub not_before: u64,
    pub not_after: u64,
    pub extensions: Vec<Extension>,
    pub signature: Vec<u8>,
}

/// The mathematical value of a certificate.
pub struct CertView {
    pub version: u32,
    pub serial: u128,
    pub subject_dn: Seq<DnEntryView>,
    pub issuer_dn: Seq<DnEntryView>,
    pub public_key_pem: Seq<u8>,
    pub not_before: u64,
    pub not_after: u64,
    pub extensions: Seq<ExtensionView>,
    pub signature: Seq<u8>,
}

/// The mathematical value of a certificate.
pub open spec fn cert_view(c: Certificate) -> CertView {
    CertView {
        version: c.version,
        serial: c.serial,
        subject_dn: dn_view(c.subject_dn@),
        issuer_dn: dn_view(c.issuer_dn@),
        public_key_pem: c.public_key_pem@,
        not_before: c.not_before,
        not_after: c.not_after,
        extensions: exts_view(c.extensions@),
        signature: c.signature@,
    }
}

} // verus!
