//! Certificate builder/signer and the per-tier extension assembly: which
//! fields, extensions, and signing relationships a certificate of each tier
//! must carry. The root signs itself in two phases: a draft carrying only
//! its subject-key-identifier supplies the key-identifier material for the
//! final, fully extended certificate; the draft is then discarded.

use vstd::prelude::*;

use crate::cert_params::{issuer_of, CertParams};
use crate::certificate::{cert_view, Certificate, X509_V3};
use crate::codec::{encode_tbs, tbs_enc};
use crate::err::SimpleCAError;
use crate::extensions::{ext_view, exts_view, ski_in, subject_key_id, Extension, ExtensionView};
use crate::keys::{
    clone_bytes, key_pair_consistent, lemma_key_pair_signature, rsa_sha256_ok, rsa_sha256_sig,
    rsa_sign_ok, sha1_bytes, sha1_of, sign_data, verify_data,
};
use crate::name::{clone_dn, clone_strings, dn_view};

verus! {

/// The fields every signed certificate shares with its parameters: version,
/// serial, names, public key, and the validity window anchored at `now`.
pub open spec fn cert_matches_params(c: Certificate, p: CertParams, now_secs: u64) -> bool {
    &&& c.version == X509_V3
    &&& c.serial == p.serial
    &&& c.subject_dn@ == p.subject.name@
    &&& c.issuer_dn@ == issuer_of(p).name@
    &&& c.public_key_pem@ == p.subject.key.public_pem@
    &&& c.not_before == now_secs
    &&& c.not_after == now_secs + (p.valid as int) * 86400
}

/// The signature over the to-be-signed bytes was made with the issuer's
/// private key; if that key pair is consistent, the signature verifies under
/// the issuer's public key.
pub open spec fn cert_signed_by(c: Certificate, issuer_priv: Seq<u8>, issuer_pub: Seq<u8>) -> bool {
    &&& c.signature@ == rsa_sha256_sig(issuer_priv, tbs_enc(cert_view(c)))
    &&& (key_pair_consistent(issuer_priv, issuer_pub) ==> rsa_sha256_ok(
        issuer_pub,
        tbs_enc(cert_view(c)),
        c.signature@,
    ))
}

/// Builds the certificate structure from the parameters and the supplied
/// extension list, in order, and signs it with the issuer's private key over
/// a SHA-256 digest of the to-be-signed bytes.
pub fn create_cert(params: &CertParams, extensions: Vec<Extension>, now_secs: u64) -> (r: Result<
    Certificate,
    SimpleCAError,
>)
    ensures
        r is Ok <==> now_secs + (params.valid as int) * 86400 <= u64::MAX && rsa_sign_ok(
            issuer_of(*params).key.private_pem@,
        ),
        now_secs + (params.valid as int) * 86400 > u64::MAX ==> r == Err::<
            Certificate,
            SimpleCAError,
        >(SimpleCAError::TimeOutOfRange),
        r is Err && now_secs + (params.valid as int) * 86400 <= u64::MAX ==> r == Err::<
            Certificate,
            SimpleCAError,
        >(SimpleCAError::CryptoError),
        r matches Ok(c) ==> cert_matches_params(c, *params, now_secs) && c.extensions@
            == extensions@ && cert_signed_by(
            c,
            issuer_of(*params).key.private_pem@,
            issuer_of(*params).key.public_pem@,
        ),
{
    proof {
        assert((params.valid as int) * 86400 <= 0xFFFF_FFFFint * 86400) by (nonlinear_arith)
            requires
                params.valid <= 0xFFFF_FFFFu32,
        ;
    }
    let window: u64 = (params.valid as u64) * 86400;
    let not_after: u64 = match now_secs.checked_add(window) {
        Some(t) => t,
        None => {
            return Err(SimpleCAError::TimeOutOfRange);
        },
    };
    let issuer = params.issuer();
    let subject_dn = clone_dn(&params.subject.name);
    let issuer_dn = clone_dn(&issuer.name);
    let public_key_pem = clone_bytes(&params.subject.key.public_pem);
    let mut cert = Certificate {
        version: X509_V3,
        serial: params.serial,
        subject_dn,
        issuer_dn,
        public_key_pem,
        not_before: now_secs,
        not_after,
        extensions,
        signature: Vec::new(),
    };
    let tbs = encode_tbs(&cert);
    let ghost cv0 = cert_view(cert);
    let sig = match sign_data(&issuer.key.private_pem, &tbs) {
        Ok(s) => s,
        Err(_) => {
            return Err(SimpleCAError::CryptoError);
        },
    };
    cert.signature = sig;
    proof {
        assert(cert_view(cert).subject_dn == cv0.subject_dn);
        assert(cert_view(cert).issuer_dn == cv0.issuer_dn);
        assert(cert_view(cert).extensions == cv0.extensions);
        assert(tbs_enc(cert_view(cert)) == tbs_enc(cv0));
        assert(key_pair_consistent(
            issuer_of(*params).key.private_pem@,
            issuer_of(*params).key.public_pem@,
        ) ==> rsa_sha256_ok(
            issuer_of(*params).key.public_pem@,
            tbs_enc(cert_view(cert)),
            cert.signature@,
        )) by {
            if key_pair_consistent(
                issuer_of(*params).key.private_pem@,
                issuer_of(*params).key.public_pem@,
            ) {
                lemma_key_pair_signature(
                    issuer_of(*params).key.private_pem@,
                    issuer_of(*params).key.public_pem@,
                    tbs_enc(cert_view(cert)),
                );
            }
        }
    }
    Ok(cert)
}

/// The extension list a final root certificate carries: its own key
/// identifier, the authority key identifier taken from the draft (the same
/// key), critical CA basic constraints, and the certificate-signing key
/// usage.
pub open spec fn root_exts_ok(exts: Seq<ExtensionView>, pub_pem: Seq<u8>) -> bool {
    &&& exts.len() == 4
    &&& exts[0] == (ExtensionView::SubjectKeyIdentifier { key_id: sha1_of(pub_pem) })
    &&& exts[1] == (ExtensionView::AuthorityKeyIdentifier { key_id: sha1_of(pub_pem) })
    &&& exts[2] == (ExtensionView::BasicConstraints { critical: true, ca: true })
    &&& exts[3] == (ExtensionView::KeyUsage {
        digital_signature: true,
        non_repudiation: false,
        key_encipherment: false,
        key_cert_sign: true,
        crl_sign: true,
    })
}

/// Builds and signs the self-signed root certificate in two phases: a draft
/// carrying only the subject-key-identifier is built and signed, its key
/// identifier becomes the authority-key-identifier of the final certificate,
/// and the draft is discarded.
pub fn create_root_ca(params: &CertParams, now_secs: u64) -> (r: Result<
    Certificate,
    SimpleCAError,
>)
    requires
        params.issuer is None,
    ensures
        r is Ok <==> now_secs + (params.valid as int) * 86400 <= u64::MAX && rsa_sign_ok(
            params.subject.key.private_pem@,
        ),
        r matches Err(e) ==> e == SimpleCAError::TimeOutOfRange || e == SimpleCAError::CryptoError,
        r matches Ok(c) ==> cert_matches_params(c, *params, now_secs) && c.issuer_dn@
            == c.subject_dn@ && root_exts_ok(exts_view(c.extensions@), c.public_key_pem@)
            && cert_signed_by(
            c,
            params.subject.key.private_pem@,
            params.subject.key.public_pem@,
        ),
{
    let ski_draft = match sha1_bytes(&params.subject.key.public_pem) {
        Ok(v) => v,
        Err(e) => {
            return Err(e);
        },
    };
    let mut draft_exts: Vec<Extension> = Vec::new();
    draft_exts.push(Extension::SubjectKeyIdentifier { key_id: ski_draft });
    let draft = match create_cert(params, draft_exts, now_secs) {
        Ok(c) => c,
        Err(e) => {
            return Err(e);
        },
    };
    proof {
        let evs = exts_view(draft.extensions@);
        assert(evs[0] == ext_view(draft.extensions@[0]));
        assert(ski_in(evs) == Some(sha1_of(params.subject.key.public_pem@)));
    }
    let ctx_key_id = match subject_key_id(&draft.extensions) {
        Some(v) => v,
        None => {
            proof {
                assert(false);
            }
            return Err(SimpleCAError::CryptoError);
        },
    };
    let ski = match sha1_bytes(&params.subject.key.public_pem) {
        Ok(v) => v,
        Err(e) => {
            return Err(e);
        },
    };
    let mut exts: Vec<Extension> = Vec::new();
    exts.push(Extension::SubjectKeyIdentifier { key_id: ski });
    exts.push(Extension::AuthorityKeyIdentifier { key_id: ctx_key_id });
    exts.push(Extension::BasicConstraints { critical: true, ca: true });
    exts.push(
        Extension::KeyUsage {
            digital_signature: true,
            non_repudiation: false,
            key_encipherment: false,
            key_cert_sign: true,
            crl_sign: true,
        },
    );
    let ghost expected = exts_view(exts@);
    proof {
        assert(expected[0] == ext_view(exts@[0]));
        assert(expected[1] == ext_view(exts@[1]));
        assert(expected[2] == ext_view(exts@[2]));
        assert(expected[3] == ext_view(exts@[3]));
        assert(root_exts_ok(expected, params.subject.key.public_pem@));
    }
    create_cert(params, exts, now_secs)
}

/// The extension list an intermediate certificate carries: its own key
/// identifier, the authority key identifier naming the root's key and the
/// root certificate's issuer and serial, non-critical CA basic constraints,
/// and the certificate-signing key usage.
pub open spec fn intermediate_exts_ok(
    exts: Seq<ExtensionView>,
    pub_pem: Seq<u8>,
    ctx: Certificate,
) -> bool {
    &&& exts.len() == 4
    &&& exts[0] == (ExtensionView::SubjectKeyIdentifier { key_id: sha1_of(pub_pem) })
    &&& exts[1] == (ExtensionView::AuthorityKeyIdentifierFull {
        key_id: ski_in(exts_view(ctx.extensions@)).unwrap(),
        issuer_dn: dn_view(ctx.issuer_dn@),
        issuer_serial: ctx.serial,
    })
    &&& exts[2] == (ExtensionView::BasicConstraints { critical: false, ca: true })
    &&& exts[3] == (ExtensionView::KeyUsage {
        digital_signature: true,
        non_repudiation: false,
        key_encipherment: false,
        key_cert_sign: true,
        crl_sign: true,
    })
}

/// Builds and signs the intermediate certificate, with the previously issued
/// root certificate as signing context: the authority-key-identifier takes
/// the root certificate's subject-key-identifier, issuer name and serial.
/// Fails when the context carries no subject-key-identifier.
pub fn create_intermediate_ca(
    params: &CertParams,
    root_ca_cert: &Certificate,
    now_secs: u64,
) -> (r: Result<Certificate, SimpleCAError>)
    requires
        params.issuer is Some,
    ensures
        r is Ok <==> ski_in(exts_view(root_ca_cert.extensions@)) is Some && now_secs + (
        params.valid as int) * 86400 <= u64::MAX && rsa_sign_ok(
            params.issuer.unwrap().key.private_pem@,
        ),
        r matches Err(e) ==> e == SimpleCAError::TimeOutOfRange || e == SimpleCAError::CryptoError,
        r matches Ok(c) ==> cert_matches_params(c, *params, now_secs) && intermediate_exts_ok(
            exts_view(c.extensions@),
            c.public_key_pem@,
            *root_ca_cert,
        ) && cert_signed_by(
            c,
            params.issuer.unwrap().key.private_pem@,
            params.issuer.unwrap().key.public_pem@,
        ),
{
    let ctx_key_id = match subject_key_id(&root_ca_cert.extensions) {
        Some(v) => v,
        None => {
            return Err(SimpleCAError::CryptoError);
        },
    };
    let ski = match sha1_bytes(&params.subject.key.public_pem) {
        Ok(v) => v,
        Err(e) => {
            return Err(e);
        },
    };
    let mut exts: Vec<Extension> = Vec::new();
    exts.push(Extension::SubjectKeyIdentifier { key_id: ski });
    exts.push(
        Extension::AuthorityKeyIdentifierFull {
            key_id: ctx_key_id,
            issuer_dn: clone_dn(&root_ca_cert.issuer_dn),
            issuer_serial: root_ca_cert.serial,
        },
    );
    exts.push(Extension::BasicConstraints { critical: false, ca: true });
    exts.push(
        Extension::KeyUsage {
            digital_signature: true,
            non_repudiation: false,
            key_encipherment: false,
            key_cert_sign: true,
            crl_sign: true,
        },
    );
    let ghost expected = exts_view(exts@);
    proof {
        assert(expected[0] == ext_view(exts@[0]));
        assert(expected[1] == ext_view(exts@[1]));
        assert(expected[2] == ext_view(exts@[2]));
        assert(expected[3] == ext_view(exts@[3]));
        assert(intermediate_exts_ok(
            expected,
            params.subject.key.public_pem@,
            *root_ca_cert,
        ));
    }
    create_cert(params, exts, now_secs)
}

/// The extension list a leaf certificate carries: its own key identifier,
/// the authority key identifier naming the intermediate's key and
/// certificate, non-CA basic constraints, the two legacy compatibility
/// markers, the server key usage, the serverAuth extended key usage, and,
/// when the parameter bundle names any, the subject alternative names in
/// order.
pub open spec fn leaf_exts_ok(
    exts: Seq<ExtensionView>,
    pub_pem: Seq<u8>,
    ctx: Certificate,
    sans: Seq<Seq<char>>,
) -> bool {
    &&& exts.len() == (if sans.len() > 0 {
        8int
    } else {
        7int
    })
    &&& exts[0] == (ExtensionView::SubjectKeyIdentifier { key_id: sha1_of(pub_pem) })
    &&& exts[1] == (ExtensionView::AuthorityKeyIdentifierFull {
        key_id: ski_in(exts_view(ctx.extensions@)).unwrap(),
        issuer_dn: dn_view(ctx.issuer_dn@),
        issuer_serial: ctx.serial,
    })
    &&& exts[2] == (ExtensionView::BasicConstraints { critical: false, ca: false })
    &&& exts[3] matches ExtensionView::NetscapeCertType { text } && text == "SSL Server"@
    &&& exts[4] matches ExtensionView::NetscapeComment { text } && text
        == "Simple CA Generated Server Certificate"@
    &&& exts[5] == (ExtensionView::KeyUsage {
        digital_signature: true,
        non_repudiation: true,
        key_encipherment: true,
        key_cert_sign: false,
        crl_sign: false,
    })
    &&& exts[6] == ExtensionView::ExtendedKeyUsageServerAuth
    &&& sans.len() > 0 ==> exts[7] == (ExtensionView::SubjectAltNames { dns_names: sans })
}

/// Builds and signs a leaf/server certificate, with the previously issued
/// intermediate certificate as signing context. Fails when the context
/// carries no subject-key-identifier.
pub fn create_server_cert(
    params: &CertParams,
    intermediate_cert: &Certificate,
    now_secs: u64,
) -> (r: Result<Certificate, SimpleCAError>)
    requires
        params.issuer is Some,
    ensures
        r is Ok <==> ski_in(exts_view(intermediate_cert.extensions@)) is Some && now_secs + (
        params.valid as int) * 86400 <= u64::MAX && rsa_sign_ok(
            params.issuer.unwrap().key.private_pem@,
        ),
        r matches Err(e) ==> e == SimpleCAError::TimeOutOfRange || e == SimpleCAError::CryptoError,
        r matches Ok(c) ==> cert_matches_params(c, *params, now_secs) && leaf_exts_ok(
            exts_view(c.extensions@),
            c.public_key_pem@,
            *intermediate_cert,
            params.sub_alt_names.deep_view(),
        ) && cert_signed_by(
            c,
            params.issuer.unwrap().key.private_pem@,
            params.issuer.unwrap().key.public_pem@,
        ),
{
    let ctx_key_id = match subject_key_id(&intermediate_cert.extensions) {
        Some(v) => v,
        None => {
            return Err(SimpleCAError::CryptoError);
        },
    };
    let ski = match sha1_bytes(&params.subject.key.public_pem) {
        Ok(v) => v,
        Err(e) => {
            return Err(e);
        },
    };
    let mut exts: Vec<Extension> = Vec::new();
    exts.push(Extension::SubjectKeyIdentifier { key_id: ski });
    exts.push(
        Extension::AuthorityKeyIdentifierFull {
            key_id: ctx_key_id,
            issuer_dn: clone_dn(&intermediate_cert.issuer_dn),
            issuer_serial: intermediate_cert.serial,
        },
    );
    exts.push(Extension::BasicConstraints { critical: false, ca: false });
    exts.push(Extension::NetscapeCertType { text: "SSL Server".to_owned() });
    exts.push(
        Extension::NetscapeComment { text: "Simple CA Generated Server Certificate".to_owned() },
    );
    exts.push(
        Extension::KeyUsage {
            digital_signature: true,
            non_repudiation: true,
            key_encipherment: true,
            key_cert_sign: false,
            crl_sign: false,
        },
    );
    exts.push(Extension::ExtendedKeyUsageServerAuth);
    if params.sub_alt_names.len() > 0 {
        exts.push(Extension::SubjectAltNames { dns_names: clone_strings(&params.sub_alt_names) });
    }
    let ghost expected = exts_view(exts@);
    proof {
        assert(expected[0] == ext_view(exts@[0]));
        assert(expected[1] == ext_view(exts@[1]));
        assert(expected[2] == ext_view(exts@[2]));
        assert(expected[3] == ext_view(exts@[3]));
        assert(expected[4] == ext_view(exts@[4]));
        assert(expected[5] == ext_view(exts@[5]));
        assert(expected[6] == ext_view(exts@[6]));
        if params.sub_alt_names.deep_view().len() > 0 {
            assert(expected[7] == ext_view(exts@[7]));
        }
        assert(leaf_exts_ok(
            expected,
            params.subject.key.public_pem@,
            *intermediate_cert,
            params.sub_alt_names.deep_view(),
        ));
    }
    create_cert(params, exts, now_secs)
}

/// A certificate built from self-issued parameters carrying the root policy
/// serial is self-signed in name and carries that serial: its issuer
/// distinguished name equals its subject distinguished name.
pub proof fn lemma_root_identity(params: CertParams, c: Certificate, now_secs: u64)
    requires
        params.issuer is None,
        params.serial == crate::cert_params::ROOT_SERIAL,
        cert_matches_params(c, params, now_secs),
    ensures
        c.issuer_dn@ == c.subject_dn@,
        c.serial == crate::cert_params::ROOT_SERIAL,
{
}

/// A certificate signed with the private half of a consistent key pair
/// verifies under the public half: what `verify_certificate` checks holds.
pub proof fn lemma_signed_certificate_verifies(
    c: Certificate,
    issuer_priv: Seq<u8>,
    issuer_pub: Seq<u8>,
)
    requires
        cert_signed_by(c, issuer_priv, issuer_pub),
        key_pair_consistent(issuer_priv, issuer_pub),
    ensures
        rsa_sha256_ok(issuer_pub, tbs_enc(cert_view(c)), c.signature@),
{
}

/// The validity window of any certificate built from a parameter bundle is
/// anchored at the build instant and spans exactly the requested day count.
pub proof fn lemma_validity_window(params: CertParams, c: Certificate, now_secs: u64)
    requires
        cert_matches_params(c, params, now_secs),
    ensures
        c.not_before == now_secs,
        c.not_after - c.not_before == (params.valid as int) * 86400,
{
}

/// Whether the certificate's signature verifies under the given PEM-encoded
/// public key: the to-be-signed bytes are rebuilt and checked against the
/// carried signature.
pub fn verify_certificate(cert: &Certificate, issuer_public_pem: &Vec<u8>) -> (r: bool)
    ensures
        r == rsa_sha256_ok(issuer_public_pem@, tbs_enc(cert_view(*cert)), cert.signature@),
{
    let tbs = encode_tbs(cert);
    verify_data(issuer_public_pem, &tbs, &cert.signature)
}

} // verus!
