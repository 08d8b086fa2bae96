use simple_ca::cert_params::CertParams;
use simple_ca::conf::{opt_value, reversed_domain, CertAuthConf, Conf};
use simple_ca::keys::generate_key_material;
use simple_ca::name::Name;

#[test]
fn default_configuration_names() {
    let conf = Conf::default();
    let ca = conf.ca();
    let name = ca.ca_name();
    assert_eq!(name.country, "");
    assert_eq!(name.province, "");
    assert_eq!(name.locality, "");
    assert_eq!(name.org, "Simple CA");
    assert_eq!(name.org_unit, "");
    assert_eq!(name.common_name, "Simple CA Root CA");

    let intermediate = ca.intermediate_name();
    assert_eq!(intermediate.common_name, "Simple CA Intermediate CA");
    assert_eq!(intermediate.org, "Simple CA");
}

#[test]
fn configured_fields_reach_the_names() {
    let ca = CertAuthConf {
        country: Some("AU".to_string()),
        state_or_province: Some("TAS".to_string()),
        locality: None,
        organization: Some("Acme".to_string()),
        organization_unit: Some("Dev".to_string()),
    };
    let name = ca.ca_name();
    assert_eq!(name.country, "AU");
    assert_eq!(name.province, "TAS");
    assert_eq!(name.locality, "");
    assert_eq!(name.org, "Acme");
    assert_eq!(name.org_unit, "Dev");
    assert_eq!(name.common_name, "Acme Root CA");
    assert_eq!(ca.intermediate_name().common_name, "Acme Intermediate CA");

    let unnamed = CertAuthConf {
        country: None,
        state_or_province: None,
        locality: None,
        organization: None,
        organization_unit: None,
    };
    assert_eq!(unnamed.ca_name().common_name, "Simple CA Root CA");
    assert_eq!(unnamed.intermediate_name().common_name, "Simple CA Intermediate CA");
}

#[test]
fn opt_value_picks_set_value_or_default() {
    assert_eq!(opt_value(&Some("x".to_string()), "d"), "x");
    assert_eq!(opt_value(&None, "d"), "d");
}

#[test]
fn reversed_domain_scheme() {
    assert_eq!(reversed_domain("www.example.com", false), "com.example.www");
    assert_eq!(reversed_domain("example.com:8443", false), "com.example:8443");
    assert_eq!(reversed_domain("localhost", false), "localhost");
    assert_eq!(reversed_domain("127.0.0.1:443", true), "127.0.0.1:443");
    assert_eq!(
        CertAuthConf::server_key("www.example.com", false),
        "com.example.www.key.pem"
    );
    assert_eq!(
        CertAuthConf::server_cert("www.example.com", false),
        "com.example.www.cert.pem"
    );
}

#[test]
fn cert_params_accessors() {
    let key = generate_key_material(2048).unwrap();
    let name = Name {
        country: "AU".to_string(),
        province: "".to_string(),
        locality: "".to_string(),
        org: "Acme".to_string(),
        org_unit: "".to_string(),
        common_name: "ROOT CA".to_string(),
    };
    let params = CertParams::root_ca_params(name.to_x509_name(), key, 7200).unwrap();
    assert_eq!(params.serial(), 1000u128);
    assert_eq!(params.valid, 7200);
    assert_eq!(params.valid_from(100), 100);
    assert_eq!(params.valid_to(100), Some(100 + 7200u64 * 86400));
    assert_eq!(params.valid_to(u64::MAX), None);
    // a root bundle is self-issued: issuer resolves to the subject
    assert_eq!(params.issuer().name, params.subject().name);
    assert!(params.sub_alt_names.is_empty());
}
