//! Certificate parameter factory: one immutable parameter bundle per
//! certificate to be issued, deciding validity length, serial-number policy
//! and subject-alternative-name contents per tier.

use vstd::prelude::*;

use crate::clock::now_since_epoch;
use crate::err::SimpleCAError;
use crate::keys::KeyMaterial;
use crate::name::{DnAttr, DnEntry};

verus! {

/// The serial every root certificate carries. A fixed policy value: the
/// authority is reset wholesale on regeneration in this tool's intended
/// development-only use; production use would need collision-resistant
/// serials instead.
pub const ROOT_SERIAL: u128 = 1000;

/// The serial every intermediate certificate carries; a fixed policy value
/// with the same caveat as the root serial.
pub const INTERMEDIATE_SERIAL: u128 = 10000;

/// An identity paired with its key material.
#[derive(Debug, PartialEq, Eq)]
pub struct Entity {
    pub name: Vec<DnEntry>,
    pub key: KeyMaterial,
}

/// The parameter bundle for one certificate to be issued. No explicit issuer
/// means the certificate is self-issued (the root tier).
#[derive(Debug, PartialEq, Eq)]
pub struct CertParams {
    pub subject: Entity,
    pub issuer: Option<Entity>,
    pub valid: u32,
    pub serial: u128,
    pub sub_alt_names: Vec<String>,
}

/// The entity that signs: the explicit issuer, or the subject itself when
/// none was set (the self-signed root).
pub open spec fn issuer_of(p: CertParams) -> Entity {
    match p.issuer {
        Some(e) => e,
        None => p.subject,
    }
}

/// The serial derived from an instant: its nanosecond count since the epoch.
pub open spec fn serial_num(secs: u64, nanos: u32) -> int {
    secs * 1_000_000_000 + nanos
}

/// The first common-name value of a distinguished name, if any.
pub open spec fn common_name_of(dn: Seq<DnEntry>) -> Option<Seq<char>>
    decreases dn.len(),
{
    if dn.len() == 0 {
        None
    } else if dn[0].attr == DnAttr::CommonName {
        Some(dn[0].value@)
    } else {
        common_name_of(dn.skip(1))
    }
}

proof fn lemma_common_name_skip(dn: Seq<DnEntry>, i: int)
    requires
        0 <= i <= dn.len(),
        forall|j: int| 0 <= j < i ==> dn[j].attr != DnAttr::CommonName,
    ensures
        common_name_of(dn) == common_name_of(dn.skip(i)),
    decreases i,
{
    if i > 0 {
        lemma_common_name_skip(dn, i - 1);
        assert(dn.skip(i - 1).len() > 0);
        assert(dn.skip(i - 1)[0] == dn[i - 1]);
        assert(dn.skip(i - 1).skip(1) =~= dn.skip(i));
    } else {
        assert(dn.skip(0) =~= dn);
    }
}

/// The serial for a leaf certificate issued at the given instant: the
/// instant's nanosecond count since the epoch, effectively unique within the
/// process lifetime.
pub fn serial_from_instant(secs: u64, nanos: u32) -> (r: u128)
    requires
        nanos < 1_000_000_000,
    ensures
        r as int == serial_num(secs, nanos),
{
    proof {
        assert((secs as int) * 1_000_000_000 <= 0xFFFF_FFFF_FFFF_FFFF * 1_000_000_000int)
            by (nonlinear_arith)
            requires
                secs <= 0xFFFF_FFFF_FFFF_FFFFu64,
        ;
    }
    (secs as u128) * 1_000_000_000u128 + (nanos as u128)
}

/// Serials taken from distinct instants are distinct.
pub proof fn lemma_leaf_serials_distinct(s1: u64, n1: u32, s2: u64, n2: u32)
    requires
        n1 < 1_000_000_000,
        n2 < 1_000_000_000,
        s1 != s2 || n1 != n2,
    ensures
        serial_num(s1, n1) != serial_num(s2, n2),
{
    if s1 < s2 {
        lemma_serial_mono(s1, n1, s2, n2);
    } else if s2 < s1 {
        lemma_serial_mono(s2, n2, s1, n1);
    }
}

/// A leaf serial taken from any instant at or after the first whole second
/// past the epoch differs from both fixed CA policy serials: it is at least
/// one billion.
pub proof fn lemma_leaf_serial_not_policy(secs: u64, nanos: u32)
    requires
        1 <= secs,
        nanos < 1_000_000_000,
    ensures
        serial_num(secs, nanos) != ROOT_SERIAL as int,
        serial_num(secs, nanos) != INTERMEDIATE_SERIAL as int,
{
    assert((secs as int) * 1_000_000_000 >= 1_000_000_000) by (nonlinear_arith)
        requires
            secs >= 1,
    ;
}

proof fn lemma_serial_mono(s1: u64, n1: u32, s2: u64, n2: u32)
    requires
        s1 < s2,
        n1 < 1_000_000_000,
    ensures
        serial_num(s1, n1) < serial_num(s2, n2),
{
    assert((s1 as int) * 1_000_000_000 + n1 < (s2 as int) * 1_000_000_000 + n2) by (nonlinear_arith)
        requires
            s1 < s2,
            n1 < 1_000_000_000,
            n2 >= 0,
    ;
}

/// A fresh leaf serial taken from the wall clock at nanosecond resolution.
fn create_serial_number() -> (r: u128)
    ensures
        exists|secs: u64, nanos: u32| nanos < 1_000_000_000 && r as int == serial_num(secs, nanos),
{
    let (secs, nanos) = now_since_epoch();
    let r = serial_from_instant(secs, nanos);
    proof {
        assert(nanos < 1_000_000_000 && r as int == serial_num(secs, nanos));
    }
    r
}

impl CertParams {
    /// The lower bound of the validity window for a build at instant `now`.
    pub fn valid_from(&self, now: u64) -> (r: u64)
        ensures
            r == now,
    {
        now
    }

    /// The upper bound of the validity window for a build at instant `now`:
    /// `now` plus the validity length in days, or nothing if that instant
    /// cannot be represented.
    pub fn valid_to(&self, now: u64) -> (r: Option<u64>)
        ensures
            now + (self.valid as int) * 86400 <= u64::MAX ==> (r matches Some(t) && t == now + (
            self.valid as int) * 86400),
            now + (self.valid as int) * 86400 > u64::MAX ==> r is None,
    {
        proof {
            assert((self.valid as int) * 86400 <= 0xFFFF_FFFFint * 86400) by (nonlinear_arith)
                requires
                    self.valid <= 0xFFFF_FFFFu32,
            ;
        }
        let window: u64 = (self.valid as u64) * 86400;
        now.checked_add(window)
    }

    /// The subject entity.
    pub fn subject(&self) -> (r: &Entity)
        ensures
            r == self.subject,
    {
        &self.subject
    }

    /// The issuer entity: the explicit issuer, or the subject itself when
    /// none was set (the self-signed root).
    pub fn issuer(&self) -> (r: &Entity)
        ensures
            self.issuer matches Some(e) ==> r == e,
            self.issuer is None ==> r == self.subject,
    {
        match &self.issuer {
            Some(e) => e,
            None => &self.subject,
        }
    }

    /// The serial this certificate will carry.
    pub fn serial(&self) -> (r: u128)
        ensures
            r == self.serial,
    {
        self.serial
    }

    /// Parameters for a self-signed root certificate: no explicit issuer,
    /// the fixed root serial, and no subject alternative names.
    pub fn root_ca_params(name: Vec<DnEntry>, key: KeyMaterial, valid: u32) -> (r: Result<
        CertParams,
        SimpleCAError,
    >)
        ensures
            r matches Ok(p) ==> p.subject.name == name && p.subject.key == key && p.issuer is None
                && p.valid == valid && p.serial == ROOT_SERIAL && p.sub_alt_names@.len() == 0,
            r is Ok,
    {
        Ok(
            CertParams {
                subject: Entity { name, key },
                issuer: None,
                valid,
                serial: ROOT_SERIAL,
                sub_alt_names: Vec::new(),
            },
        )
    }

    /// Parameters for an intermediate certificate: issued by the root, the
    /// fixed intermediate serial, and no subject alternative names.
    pub fn intermediate_ca_params(
        name: Vec<DnEntry>,
        key: KeyMaterial,
        root_name: Vec<DnEntry>,
        root_key: KeyMaterial,
        valid: u32,
    ) -> (r: Result<CertParams, SimpleCAError>)
        ensures
            r matches Ok(p) ==> p.subject.name == name && p.subject.key == key && (
            p.issuer matches Some(e) && e.name == root_name && e.key == root_key) && p.valid
                == valid && p.serial == INTERMEDIATE_SERIAL && p.sub_alt_names@.len() == 0,
            r is Ok,
    {
        Ok(
            CertParams {
                subject: Entity { name, key },
                issuer: Some(Entity { name: root_name, key: root_key }),
                valid,
                serial: INTERMEDIATE_SERIAL,
                sub_alt_names: Vec::new(),
            },
        )
    }

    /// Parameters for a leaf certificate issued at the given instant: issued
    /// by the intermediate, serial derived from the instant, and the subject
    /// alternative names holding the subject common name first, then the
    /// caller-supplied names in order. Fails exactly when the subject
    /// distinguished name carries no common-name entry.
    pub fn server_cert_params_at(
        name: Vec<DnEntry>,
        key: KeyMaterial,
        issuer_name: Vec<DnEntry>,
        issuer_key: KeyMaterial,
        valid: u32,
        sub_alt_names: &Vec<String>,
        secs: u64,
        nanos: u32,
    ) -> (r: Result<CertParams, SimpleCAError>)
        requires
            nanos < 1_000_000_000,
        ensures
            r is Ok <==> common_name_of(name@) is Some,
            r matches Err(e) ==> e == SimpleCAError::MissingCommonName,
            r matches Ok(p) ==> p.subject.name == name && p.subject.key == key && (
            p.issuer matches Some(e) && e.name == issuer_name && e.key == issuer_key) && p.valid
                == valid && p.serial as int == serial_num(secs, nanos)
                && p.sub_alt_names.deep_view() == seq![common_name_of(name@).unwrap()]
                + sub_alt_names.deep_view(),
    {
        let mut i: usize = 0;
        while i < name.len() && name[i].attr != DnAttr::CommonName
            invariant
                i <= name.len(),
                forall|j: int| 0 <= j < i ==> name@[j].attr != DnAttr::CommonName,
            decreases name.len() - i,
        {
            i = i + 1;
        }
        if i == name.len() {
            proof {
                lemma_common_name_skip(name@, name@.len() as int);
                assert(name@.skip(name@.len() as int) =~= Seq::<DnEntry>::empty());
            }
            Err(SimpleCAError::MissingCommonName)
        } else {
            proof {
                lemma_common_name_skip(name@, i as int);
                assert(name@.skip(i as int)[0] == name@[i as int]);
                assert(common_name_of(name@) == Some(name@[i as int].value@));
            }
            let ghost cnv: Seq<char> = name@[i as int].value@;
            let cn = name[i].value.clone();
            let mut sans: Vec<String> = Vec::new();
            sans.push(cn);
            let mut k: usize = 0;
            while k < sub_alt_names.len()
                invariant
                    k <= sub_alt_names.len(),
                    sans@.len() == 1 + k,
                    sans@[0]@ == cnv,
                    forall|j: int| 0 <= j < k ==> sans@[j + 1]@ == sub_alt_names@[j]@,
                decreases sub_alt_names.len() - k,
            {
                sans.push(sub_alt_names[k].clone());
                k = k + 1;
            }
            proof {
                assert(sans.deep_view() =~= seq![cnv] + sub_alt_names.deep_view());
            }
            let serial = serial_from_instant(secs, nanos);
            Ok(
                CertParams {
                    subject: Entity { name, key },
                    issuer: Some(Entity { name: issuer_name, key: issuer_key }),
                    valid,
                    serial,
                    sub_alt_names: sans,
                },
            )
        }
    }

    /// Parameters for a leaf certificate issued now: as
    /// `server_cert_params_at`, with the serial taken from the wall clock.
    pub fn server_cert_params(
        name: Vec<DnEntry>,
        key: KeyMaterial,
        issuer_name: Vec<DnEntry>,
        issuer_key: KeyMaterial,
        valid: u32,
        sub_alt_names: &Vec<String>,
    ) -> (r: Result<CertParams, SimpleCAError>)
        ensures
            r is Ok <==> common_name_of(name@) is Some,
            r matches Err(e) ==> e == SimpleCAError::MissingCommonName,
            r matches Ok(p) ==> p.subject.name == name && p.subject.key == key && (
            p.issuer matches Some(e) && e.name == issuer_name && e.key == issuer_key) && p.valid
                == valid && (exists|secs: u64, nanos: u32|
                nanos < 1_000_000_000 && p.serial as int == serial_num(secs, nanos))
                && p.sub_alt_names.deep_view() == seq![common_name_of(name@).unwrap()]
                + sub_alt_names.deep_view(),
    {
        let (secs, nanos) = now_since_epoch();
        Self::server_cert_params_at(
            name,
            key,
            issuer_name,
            issuer_key,
            valid,
            sub_alt_names,
            secs,
            nanos,
        )
    }
}

} // verus!
