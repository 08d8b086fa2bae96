//! The X.509v3 extension model: the extensions a certificate of this
//! authority may carry, their mathematical values, and the lookup of a
//! certificate's subject-key-identifier, which links a certificate to the
//! authority that signed it.

use vstd::prelude::*;

use crate::keys::clone_bytes;
use crate::name::{dn_view, DnEntry, DnEntryView};

verus! {

/// One X.509v3 extension, as plain values.
#[derive(Debug, PartialEq, Eq)]
pub enum Extension {
    /// The identifier of the certificate's own public key.
    SubjectKeyIdentifier { key_id: Vec<u8> },
    /// The identifier of the issuer's public key, key identifier only.
    AuthorityKeyIdentifier { key_id: Vec<u8> },
    /// The identifier of the issuer's public key together with the issuer
    /// name and serial of the issuing certificate.
    AuthorityKeyIdentifierFull { key_id: Vec<u8>, issuer_dn: Vec<DnEntry>, issuer_serial: u128 },
    /// Whether the certificate may act as a certificate authority.
    BasicConstraints { critical: bool, ca: bool },
    /// The key-usage bits this authority ever sets.
    KeyUsage {
        digital_signature: bool,
        non_repudiation: bool,
        key_encipherment: bool,
        key_cert_sign: bool,
        crl_sign: bool,
    },
    /// Extended key usage carrying the single serverAuth purpose.
    ExtendedKeyUsageServerAuth,
    /// Legacy compatibility marker naming the certificate kind.
    NetscapeCertType { text: String },
    /// Legacy compatibility marker naming the generating tool.
    NetscapeComment { text: String },
    /// The DNS names the certificate is valid for, in order.
    SubjectAltNames { dns_names: Vec<String> },
}

/// The mathematical value of an extension.
pub enum ExtensionView {
    SubjectKeyIdentifier { key_id: Seq<u8> },
    AuthorityKeyIdentifier { key_id: Seq<u8> },
    AuthorityKeyIdentifierFull {
        key_id: Seq<u8>,
        issuer_dn: Seq<DnEntryView>,
        issuer_serial: u128,
    },
    BasicConstraints { critical: bool, ca: bool },
    KeyUsage {
        digital_signature: bool,
        non_repudiation: bool,
        key_encipherment: bool,
        key_cert_sign: bool,
        crl_sign: bool,
    },
    ExtendedKeyUsageServerAuth,
    NetscapeCertType { text: Seq<char> },
    NetscapeComment { text: Seq<char> },
    SubjectAltNames { dns_names: Seq<Seq<char>> },
}

/// The mathematical value of one extension.
pub open spec fn ext_view(e: Extension) -> ExtensionView {
    match e {
        Extension::SubjectKeyIdentifier { key_id } => ExtensionView::SubjectKeyIdentifier {
            key_id: key_id@,
        },
        Extension::AuthorityKeyIdentifier { key_id } => ExtensionView::AuthorityKeyIdentifier {
            key_id: key_id@,
        },
        Extension::AuthorityKeyIdentifierFull {
            key_id,
            issuer_dn,
            issuer_serial,
        } => ExtensionView::AuthorityKeyIdentifierFull {
            key_id: key_id@,
            issuer_dn: dn_view(issuer_dn@),
            issuer_serial,
        },
        Extension::BasicConstraints { critical, ca } => ExtensionView::BasicConstraints {
            critical,
            ca,
        },
        Extension::KeyUsage {
            digital_signature,
            non_repudiation,
            key_encipherment,
            key_cert_sign,
            crl_sign,
        } => ExtensionView::KeyUsage {
            digital_signature,
            non_repudiation,
            key_encipherment,
            key_cert_sign,
            crl_sign,
        },
        Extension::ExtendedKeyUsageServerAuth => ExtensionView::ExtendedKeyUsageServerAuth,
        Extension::NetscapeCertType { text } => ExtensionView::NetscapeCertType { text: text@ },
        Extension::NetscapeComment { text } => ExtensionView::NetscapeComment { text: text@ },
        Extension::SubjectAltNames { dns_names } => ExtensionView::SubjectAltNames {
            dns_names: dns_names.deep_view(),
        },
    }
}

/// The mathematical value of an extension list.
pub open spec fn exts_view(s: Seq<Extension>) -> Seq<ExtensionView> {
    s.map(|i: int, e: Extension| ext_view(e))
}

/// The first subject-key-identifier in an extension list, if any.
pub open spec fn ski_in(exts: Seq<ExtensionView>) -> Option<Seq<u8>>
    decreases exts.len(),
{
    if exts.len() == 0 {
        None
    } else if exts[0] is SubjectKeyIdentifier {
        Some(exts[0]->SubjectKeyIdentifier_key_id)
    } else {
        ski_in(exts.skip(1))
    }
}

proof fn lemma_ski_skip(exts: Seq<ExtensionView>, i: int)
    requires
        0 <= i <= exts.len(),
        forall|j: int| 0 <= j < i ==> !(exts[j] is SubjectKeyIdentifier),
    ensures
        ski_in(exts) == ski_in(exts.skip(i)),
    decreases i,
{
    if i > 0 {
        lemma_ski_skip(exts, i - 1);
        assert(exts.skip(i - 1)[0] == exts[i - 1]);
        assert(exts.skip(i - 1).skip(1) =~= exts.skip(i));
    } else {
        assert(exts.skip(0) =~= exts);
    }
}

/// Whether an extension is a subject-key-identifier.
fn is_ski(e: &Extension) -> (r: bool)
    ensures
        r == (ext_view(*e) is SubjectKeyIdentifier),
{
    match e {
        Extension::SubjectKeyIdentifier { .. } => true,
        _ => false,
    }
}

/// The key identifier of a subject-key-identifier extension, if it is one.
fn ski_key_clone(e: &Extension) -> (r: Option<Vec<u8>>)
    ensures
        r is Some <==> ext_view(*e) is SubjectKeyIdentifier,
        r matches Some(v) ==> v@ == ext_view(*e)->SubjectKeyIdentifier_key_id,
{
    match e {
        Extension::SubjectKeyIdentifier { key_id } => Some(clone_bytes(key_id)),
        _ => None,
    }
}

/// The subject-key-identifier carried by the given extension list: the first
/// such extension's key identifier, or nothing when the list carries none.
pub fn subject_key_id(exts: &Vec<Extension>) -> (r: Option<Vec<u8>>)
    ensures
        r is Some <==> ski_in(exts_view(exts@)) is Some,
        r matches Some(v) ==> v@ == ski_in(exts_view(exts@)).unwrap(),
{
    let ghost evs = exts_view(exts@);
    let mut i: usize = 0;
    while i < exts.len() && !is_ski(&exts[i])
        invariant
            i <= exts.len(),
            evs == exts_view(exts@),
            forall|j: int| 0 <= j < i ==> !(evs[j] is SubjectKeyIdentifier),
        decreases exts.len() - i,
    {
        proof {
            assert(evs[i as int] == ext_view(exts@[i as int]));
        }
        i = i + 1;
    }
    if i == exts.len() {
        proof {
            lemma_ski_skip(evs, evs.len() as int);
            assert(evs.skip(evs.len() as int) =~= Seq::<ExtensionView>::empty());
        }
        None
    } else {
        proof {
            assert(evs[i as int] == ext_view(exts@[i as int]));
            lemma_ski_skip(evs, i as int);
            assert(evs.skip(i as int)[0] == evs[i as int]);
        }
        ski_key_clone(&exts[i])
    }
}

} // verus!
