//! A small development-use public-key infrastructure: a self-signed root
//! certificate authority, an intermediate authority signed by the root, and
//! leaf/server certificates signed by the intermediate.
//!
//! The core of the library is the certificate-parameter model and the
//! X.509v3 extension-assembly logic: which fields, extensions, and signing
//! relationships a certificate of each tier must carry. RSA key generation,
//! digests and signing are performed by OpenSSL behind narrow trusted
//! contracts; everything else is verified.

pub mod cert_params;
pub mod certificate;
pub mod certs;
pub mod clock;
pub mod codec;
pub mod conf;
pub mod err;
pub mod extensions;
pub mod keys;
pub mod name;
