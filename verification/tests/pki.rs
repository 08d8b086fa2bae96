use simple_ca::cert_params::CertParams;
use simple_ca::certs::{
    create_intermediate_ca, create_root_ca, create_server_cert, verify_certificate,
};
use simple_ca::codec::{decode_certificate, encode_certificate};
use simple_ca::err::SimpleCAError;
use simple_ca::extensions::{subject_key_id, Extension};
use simple_ca::keys::{clone_key_material, generate_key_material, KeyMaterial};
use simple_ca::name::{DnAttr, DnEntry, Name};

fn base_name(common_name: &str) -> Name {
    Name {
        country: "AU".to_string(),
        province: "TAS".to_string(),
        locality: "Hobart".to_string(),
        org: "".to_string(),
        org_unit: "".to_string(),
        common_name: common_name.to_string(),
    }
}

fn now_secs() -> u64 {
    simple_ca::clock::now_since_epoch().0
}

#[test]
fn test_create_cert_authorities() {
    let name = base_name("ROOT CA");

    let root_key = generate_key_material(4096).unwrap();
    let root_name = name.to_x509_name();
    let ca_params =
        CertParams::root_ca_params(root_name, clone_key_material(&root_key), 7200).unwrap();
    let root_ca = create_root_ca(&ca_params, now_secs()).unwrap();

    let intermediate_key = generate_key_material(4096).unwrap();
    let intermediate_name = name.copy("Intermediate CA").to_x509_name();
    let intermediate_params = CertParams::intermediate_ca_params(
        intermediate_name,
        clone_key_material(&intermediate_key),
        name.to_x509_name(),
        clone_key_material(&root_key),
        2500,
    )
    .unwrap();
    let intermediate_ca = create_intermediate_ca(&intermediate_params, &root_ca, now_secs())
        .unwrap();

    let server_key = generate_key_material(2048).unwrap();
    let server_name = name.copy("*.example.com").to_x509_name();
    let server_params = CertParams::server_cert_params(
        server_name,
        server_key,
        name.copy("Intermediate CA").to_x509_name(),
        intermediate_key,
        370,
        &vec!["*.another.com".to_string()],
    )
    .unwrap();
    let _server_cert = create_server_cert(&server_params, &intermediate_ca, now_secs()).unwrap();
}

#[test]
fn root_certificate_is_self_signed_with_policy_serial() {
    let key = generate_key_material(2048).unwrap();
    let name = base_name("ROOT CA");
    let params = CertParams::root_ca_params(name.to_x509_name(), key, 7200).unwrap();
    let now = now_secs();
    let root = create_root_ca(&params, now).unwrap();

    assert_eq!(root.subject_dn, root.issuer_dn);
    assert_eq!(root.serial, 1000u128);
    assert_eq!(root.version, 2);
    assert_eq!(root.extensions.len(), 4);
    match &root.extensions[0] {
        Extension::SubjectKeyIdentifier { key_id } => {
            assert_eq!(key_id.len(), 20);
            let digest = openssl::hash::hash(
                openssl::hash::MessageDigest::sha1(),
                &root.public_key_pem,
            )
            .unwrap();
            assert_eq!(key_id.as_slice(), &digest[..]);
        }
        other => panic!("expected subject key identifier, got {:?}", other),
    }
    match &root.extensions[1] {
        Extension::AuthorityKeyIdentifier { key_id } => {
            let ski = subject_key_id(&root.extensions).unwrap();
            assert_eq!(key_id, &ski);
        }
        other => panic!("expected authority key identifier, got {:?}", other),
    }
    assert!(matches!(
        &root.extensions[2],
        Extension::BasicConstraints { critical: true, ca: true }
    ));
    assert!(matches!(
        &root.extensions[3],
        Extension::KeyUsage {
            digital_signature: true,
            non_repudiation: false,
            key_encipherment: false,
            key_cert_sign: true,
            crl_sign: true,
        }
    ));

    assert!(verify_certificate(&root, &root.public_key_pem));
    let other_key = generate_key_material(2048).unwrap();
    assert!(!verify_certificate(&root, &other_key.public_pem));
}

#[test]
fn intermediate_links_to_root_and_verifies() {
    let root_key = generate_key_material(2048).unwrap();
    let name = base_name("ROOT CA");
    let root_params =
        CertParams::root_ca_params(name.to_x509_name(), clone_key_material(&root_key), 7200)
            .unwrap();
    let now = now_secs();
    let root = create_root_ca(&root_params, now).unwrap();

    let int_key = generate_key_material(2048).unwrap();
    let int_params = CertParams::intermediate_ca_params(
        name.copy("Intermediate CA").to_x509_name(),
        int_key,
        name.to_x509_name(),
        root_key,
        2500,
    )
    .unwrap();
    let intermediate = create_intermediate_ca(&int_params, &root, now).unwrap();

    assert_eq!(intermediate.serial, 10000u128);
    let root_ski = subject_key_id(&root.extensions).unwrap();
    match &intermediate.extensions[1] {
        Extension::AuthorityKeyIdentifierFull { key_id, issuer_dn, issuer_serial } => {
            assert_eq!(key_id, &root_ski);
            assert_eq!(issuer_dn, &root.issuer_dn);
            assert_eq!(*issuer_serial, root.serial);
        }
        other => panic!("expected full authority key identifier, got {:?}", other),
    }
    assert!(matches!(
        &intermediate.extensions[2],
        Extension::BasicConstraints { critical: false, ca: true }
    ));
    assert!(verify_certificate(&intermediate, &root.public_key_pem));
    assert!(!verify_certificate(&intermediate, &intermediate.public_key_pem));
}

#[test]
fn leaf_sans_start_with_common_name_and_serials_differ() {
    let issuer_key = generate_key_material(2048).unwrap();
    let name = base_name("ROOT CA");
    let leaf_key = generate_key_material(2048).unwrap();

    let sans = vec!["*.another.com".to_string(), "alt.example.net".to_string()];
    let params1 = CertParams::server_cert_params(
        name.copy("*.example.com").to_x509_name(),
        clone_key_material(&leaf_key),
        name.to_x509_name(),
        clone_key_material(&issuer_key),
        370,
        &sans,
    )
    .unwrap();
    assert_eq!(
        params1.sub_alt_names,
        vec![
            "*.example.com".to_string(),
            "*.another.com".to_string(),
            "alt.example.net".to_string()
        ]
    );

    let params2 = CertParams::server_cert_params(
        name.copy("*.example.com").to_x509_name(),
        leaf_key,
        name.to_x509_name(),
        issuer_key,
        370,
        &sans,
    )
    .unwrap();
    assert_ne!(params1.serial, params2.serial);
    assert_ne!(params1.serial, 1000u128);
    assert_ne!(params1.serial, 10000u128);
}

#[test]
fn missing_common_name_is_rejected() {
    let issuer_key = generate_key_material(2048).unwrap();
    let leaf_key = generate_key_material(2048).unwrap();
    let nameless = Name {
        country: "AU".to_string(),
        province: "".to_string(),
        locality: "".to_string(),
        org: "Org".to_string(),
        org_unit: "".to_string(),
        common_name: "".to_string(),
    };
    let r = CertParams::server_cert_params(
        nameless.to_x509_name(),
        leaf_key,
        nameless.copy("Issuer").to_x509_name(),
        issuer_key,
        370,
        &vec![],
    );
    assert_eq!(r.unwrap_err(), SimpleCAError::MissingCommonName);
}

#[test]
fn validity_window_matches_requested_days() {
    let key = generate_key_material(2048).unwrap();
    let name = base_name("ROOT CA");
    let params = CertParams::root_ca_params(name.to_x509_name(), key, 370).unwrap();
    let now = now_secs();
    let root = create_root_ca(&params, now).unwrap();
    assert_eq!(root.not_before, now);
    assert_eq!(root.not_after - root.not_before, 370u64 * 86400);
}

#[test]
fn overflowing_validity_window_is_rejected() {
    let key = generate_key_material(2048).unwrap();
    let name = base_name("ROOT CA");
    let params = CertParams::root_ca_params(name.to_x509_name(), key, 7200).unwrap();
    let r = create_root_ca(&params, u64::MAX - 5);
    assert_eq!(r.unwrap_err(), SimpleCAError::TimeOutOfRange);
}

#[test]
fn crypto_failure_is_reported() {
    let key = generate_key_material(2048).unwrap();
    let name = base_name("ROOT CA");
    let broken = KeyMaterial { private_pem: vec![1, 2, 3], public_pem: key.public_pem };
    let params = CertParams::root_ca_params(name.to_x509_name(), broken, 7200).unwrap();
    let r = create_root_ca(&params, now_secs());
    assert_eq!(r.unwrap_err(), SimpleCAError::CryptoError);
}

#[test]
fn non_rsa_key_is_refused_for_signing() {
    // an EC private key: signing with it would be randomized, so the
    // library turns any non-RSA key away instead of signing
    let group =
        openssl::ec::EcGroup::from_curve_name(openssl::nid::Nid::X9_62_PRIME256V1).unwrap();
    let ec = openssl::ec::EcKey::generate(&group).unwrap();
    let pkey = openssl::pkey::PKey::from_ec_key(ec).unwrap();
    let ec_pem = pkey.private_key_to_pem_pkcs8().unwrap();

    let rsa = generate_key_material(2048).unwrap();
    let name = base_name("ROOT CA");
    let ec_material = KeyMaterial { private_pem: ec_pem, public_pem: rsa.public_pem };
    let params = CertParams::root_ca_params(name.to_x509_name(), ec_material, 7200).unwrap();
    assert_eq!(create_root_ca(&params, now_secs()).unwrap_err(), SimpleCAError::CryptoError);
}

#[test]
fn too_small_key_lengths_are_refused() {
    assert_eq!(generate_key_material(256).unwrap_err(), SimpleCAError::CryptoError);
    assert_eq!(generate_key_material(0).unwrap_err(), SimpleCAError::CryptoError);
}

#[test]
fn certificate_round_trips_through_byte_form() {
    let root_key = generate_key_material(2048).unwrap();
    let mut name = base_name("ROOT CA");
    name.org = "日本 – Simple CA ©".to_string();
    let root_params =
        CertParams::root_ca_params(name.to_x509_name(), clone_key_material(&root_key), 7200)
            .unwrap();
    let now = now_secs();
    let root = create_root_ca(&root_params, now).unwrap();

    let leaf_key = generate_key_material(2048).unwrap();
    let leaf_params = CertParams::server_cert_params(
        name.copy("*.example.com").to_x509_name(),
        leaf_key,
        name.to_x509_name(),
        root_key,
        370,
        &vec!["*.another.com".to_string()],
    )
    .unwrap();
    let leaf = create_server_cert(&leaf_params, &root, now).unwrap();

    for cert in [&root, &leaf] {
        let bytes = encode_certificate(cert);
        let back = decode_certificate(&bytes).unwrap();
        assert_eq!(&back, cert);
    }
}

#[test]
fn decoding_rejects_malformed_bytes() {
    assert!(decode_certificate(&vec![]).is_none());
    assert!(decode_certificate(&vec![1, 2, 3]).is_none());

    let key = generate_key_material(2048).unwrap();
    let name = base_name("ROOT CA");
    let params = CertParams::root_ca_params(name.to_x509_name(), key, 7200).unwrap();
    let root = create_root_ca(&params, now_secs()).unwrap();
    let mut bytes = encode_certificate(&root);
    // the version is stored in the first eight bytes; force it out of range
    bytes[7] = 0xFF;
    assert!(decode_certificate(&bytes).is_none());
    let bytes2 = encode_certificate(&root);
    let mut truncated = bytes2.clone();
    truncated.pop();
    assert!(decode_certificate(&truncated).is_none());
}

#[test]
fn end_to_end_chain_verifies() {
    let name = base_name("ROOT CA");

    let root_key = generate_key_material(2048).unwrap();
    let root_params =
        CertParams::root_ca_params(name.to_x509_name(), clone_key_material(&root_key), 7200)
            .unwrap();
    let now = now_secs();
    let root = create_root_ca(&root_params, now).unwrap();

    let int_key = generate_key_material(2048).unwrap();
    let int_params = CertParams::intermediate_ca_params(
        name.copy("Intermediate CA").to_x509_name(),
        clone_key_material(&int_key),
        name.to_x509_name(),
        root_key,
        2500,
    )
    .unwrap();
    let intermediate = create_intermediate_ca(&int_params, &root, now).unwrap();

    let leaf_key = generate_key_material(2048).unwrap();
    let leaf_params = CertParams::server_cert_params(
        name.copy("*.example.com").to_x509_name(),
        leaf_key,
        name.copy("Intermediate CA").to_x509_name(),
        int_key,
        370,
        &vec!["*.another.com".to_string()],
    )
    .unwrap();
    let leaf = create_server_cert(&leaf_params, &intermediate, now).unwrap();

    assert!(verify_certificate(&leaf, &intermediate.public_key_pem));
    assert!(verify_certificate(&intermediate, &root.public_key_pem));
    assert_eq!(
        leaf_params.sub_alt_names,
        vec!["*.example.com".to_string(), "*.another.com".to_string()]
    );
    match leaf.extensions.last().unwrap() {
        Extension::SubjectAltNames { dns_names } => {
            assert_eq!(
                dns_names,
                &vec!["*.example.com".to_string(), "*.another.com".to_string()]
            );
        }
        other => panic!("expected subject alternative names, got {:?}", other),
    }
    assert_ne!(leaf.serial, root.serial);
    assert_ne!(leaf.serial, intermediate.serial);
}

#[test]
fn distinguished_name_keeps_order_and_drops_empty_fields() {
    let name = base_name("ROOT CA");
    let dn = name.to_x509_name();
    let attrs: Vec<DnAttr> = dn.iter().map(|e| e.attr).collect();
    assert_eq!(
        attrs,
        vec![DnAttr::Country, DnAttr::Province, DnAttr::Locality, DnAttr::CommonName]
    );
    let values: Vec<&str> = dn.iter().map(|e| e.value.as_str()).collect();
    assert_eq!(values, vec!["AU", "TAS", "Hobart", "ROOT CA"]);

    let empty = Name {
        country: "".to_string(),
        province: "".to_string(),
        locality: "".to_string(),
        org: "".to_string(),
        org_unit: "".to_string(),
        common_name: "".to_string(),
    };
    assert_eq!(empty.to_x509_name(), Vec::<DnEntry>::new());

    let copy = name.copy("Intermediate CA");
    assert_eq!(copy.country, name.country);
    assert_eq!(copy.province, name.province);
    assert_eq!(copy.locality, name.locality);
    assert_eq!(copy.org, name.org);
    assert_eq!(copy.org_unit, name.org_unit);
    assert_eq!(copy.common_name, "Intermediate CA");
}

#[test]
fn clock_nanoseconds_stay_below_one_billion() {
    let (_, nanos) = simple_ca::clock::now_since_epoch();
    assert!(nanos < 1_000_000_000);
}

#[test]
fn missing_subject_key_identifier_is_reported() {
    assert!(subject_key_id(&Vec::new()).is_none());
    let exts = vec![Extension::BasicConstraints { critical: false, ca: false }];
    assert!(subject_key_id(&exts).is_none());
}

#[test]
fn leaf_serial_counts_nanoseconds() {
    assert_eq!(simple_ca::cert_params::serial_from_instant(1, 5), 1_000_000_005u128);
    assert_eq!(simple_ca::cert_params::serial_from_instant(0, 0), 0u128);
    assert_eq!(
        simple_ca::cert_params::serial_from_instant(u64::MAX, 999_999_999),
        u64::MAX as u128 * 1_000_000_000 + 999_999_999
    );
}
