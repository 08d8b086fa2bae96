//! Configuration model: the optional organizational identity fields and the
//! names derived from them, and the reversed-domain file-name scheme used
//! for persisted server keys and certificates. Reading and writing the
//! configuration on disk is the caller's business; this module only computes.

use vstd::prelude::*;

use crate::name::Name;
use vstd::string::StrSliceExecFns;
use vstd::string::StringExecFns;

verus! {

/// Optional organizational identity fields for the authority.
#[derive(Debug, PartialEq, Eq)]
pub struct CertAuthConf {
    pub country: Option<String>,
    pub state_or_province: Option<String>,
    pub locality: Option<String>,
    pub organization: Option<String>,
    pub organization_unit: Option<String>,
}

/// The whole configuration: the authority section, if present.
#[derive(Debug, PartialEq, Eq)]
pub struct Conf {
    pub ca: Option<CertAuthConf>,
}

/// The value of an optional setting, or the default where none is set.
pub open spec fn opt_or(o: Option<String>, d: Seq<char>) -> Seq<char> {
    match o {
        Some(s) => s@,
        None => d,
    }
}

/// The set value, or the given default where none is set.
pub fn opt_value(opt: &Option<String>, default: &str) -> (r: String)
    ensures
        r@ == opt_or(*opt, default@),
{
    match opt {
        Some(s) => s.clone(),
        None => default.to_owned(),
    }
}

/// The position of the first occurrence of `c` in `s`, or the length of `s`
/// when it does not occur.
pub open spec fn first_index_of(s: Seq<char>, c: char) -> nat
    decreases s.len(),
{
    if s.len() == 0 {
        0
    } else if s[0] == c {
        0
    } else {
        1 + first_index_of(s.skip(1), c)
    }
}

proof fn lemma_first_index_le(s: Seq<char>, c: char)
    ensures
        first_index_of(s, c) <= s.len(),
    decreases s.len(),
{
    if s.len() > 0 && s[0] != c {
        lemma_first_index_le(s.skip(1), c);
    }
}

proof fn lemma_first_index_skip(s: Seq<char>, c: char, i: int)
    requires
        0 <= i <= s.len(),
        forall|j: int| 0 <= j < i ==> s[j] != c,
    ensures
        first_index_of(s, c) == i + first_index_of(s.skip(i), c),
    decreases i,
{
    if i > 0 {
        lemma_first_index_skip(s, c, i - 1);
        assert(s.skip(i - 1).len() > 0);
        assert(s.skip(i - 1)[0] == s[i - 1]);
        assert(s.skip(i - 1).skip(1) =~= s.skip(i));
    } else {
        assert(s.skip(0) =~= s);
    }
}

/// The dot-separated labels of `s`, in reverse order, joined with dots.
pub open spec fn rev_dotted(s: Seq<char>) -> Seq<char>
    decreases s.len(),
{
    let i = first_index_of(s, '.');
    if i >= s.len() {
        s
    } else {
        rev_dotted(s.skip((i + 1) as int)) + seq!['.'] + s.take(i as int)
    }
}

/// The reversed-domain form: a literal socket address is kept as it is;
/// otherwise the host part (up to the first colon) has its dot-separated
/// labels reversed, and the port part, colon included, is appended back.
pub open spec fn reversed_domain_spec(s: Seq<char>, literal_address: bool) -> Seq<char> {
    if literal_address {
        s
    } else {
        let i = first_index_of(s, ':');
        if i >= s.len() {
            rev_dotted(s)
        } else {
            rev_dotted(s.take(i as int)) + s.skip(i as int)
        }
    }
}

/// The position of the first occurrence of `c`, or the character count when
/// it does not occur.
fn find_char(s: &str, c: char) -> (r: usize)
    ensures
        r == first_index_of(s@, c),
{
    let n: usize = s.unicode_len();
    let mut i: usize = 0;
    while i < n && s.get_char(i) != c
        invariant
            i <= n,
            n == s@.len(),
            forall|j: int| 0 <= j < i ==> s@[j] != c,
        decreases n - i,
    {
        i = i + 1;
    }
    proof {
        lemma_first_index_skip(s@, c, i as int);
        if i < n {
            assert(s@.skip(i as int)[0] == s@[i as int]);
        } else {
            assert(s@.skip(i as int) =~= Seq::<char>::empty());
        }
        lemma_first_index_le(s@.skip(i as int), c);
    }
    i
}

/// The dot-separated labels of `s`, reversed and joined with dots.
fn rev_dotted_str(s: &str) -> (r: String)
    ensures
        r@ == rev_dotted(s@),
    decreases s@.len(),
{
    let n: usize = s.unicode_len();
    let di = find_char(s, '.');
    if di >= n {
        s.to_owned()
    } else {
        let head = s.substring_char(0, di);
        let tail = s.substring_char(di + 1, n);
        let r = rev_dotted_str(tail).concat(".").concat(head);
        proof {
            reveal_strlit(".");
            assert("."@ =~= seq!['.']);
            assert(r@ =~= rev_dotted(s@));
        }
        r
    }
}

/// The reversed-domain form of a domain, as persisted file names use it.
/// `literal_address` says the caller found the whole string to be a literal
/// socket address, which is kept unchanged.
pub fn reversed_domain(domain: &str, literal_address: bool) -> (r: String)
    ensures
        r@ == reversed_domain_spec(domain@, literal_address),
{
    if literal_address {
        return domain.to_owned();
    }
    let n: usize = domain.unicode_len();
    let ci = find_char(domain, ':');
    if ci >= n {
        rev_dotted_str(domain)
    } else {
        let host = domain.substring_char(0, ci);
        let port = domain.substring_char(ci, n);
        rev_dotted_str(host).concat(port)
    }
}

impl CertAuthConf {
    /// The default authority configuration: only the organization is set.
    pub fn default() -> (r: CertAuthConf)
        ensures
            r.country is None,
            r.state_or_province is None,
            r.locality is None,
            (r.organization matches Some(s) && s@ == "Simple CA"@),
            r.organization_unit is None,
    {
        CertAuthConf {
            country: None,
            state_or_province: None,
            locality: None,
            organization: Some("Simple CA".to_owned()),
            organization_unit: None,
        }
    }

    /// The file name under which a server's private key is persisted.
    pub fn server_key(domain: &str, literal_address: bool) -> (r: String)
        ensures
            r@ == reversed_domain_spec(domain@, literal_address) + ".key.pem"@,
    {
        reversed_domain(domain, literal_address).concat(".key.pem")
    }

    /// The file name under which a server's certificate is persisted.
    pub fn server_cert(domain: &str, literal_address: bool) -> (r: String)
        ensures
            r@ == reversed_domain_spec(domain@, literal_address) + ".cert.pem"@,
    {
        reversed_domain(domain, literal_address).concat(".cert.pem")
    }

    /// The root authority's identity: the configured fields, empty where
    /// unset, and a common name of the organization (defaulted) followed by
    /// a root marker.
    pub fn ca_name(&self) -> (r: Name)
        ensures
            r.country@ == opt_or(self.country, Seq::<char>::empty()),
            r.province@ == opt_or(self.state_or_province, Seq::<char>::empty()),
            r.locality@ == opt_or(self.locality, Seq::<char>::empty()),
            r.org@ == opt_or(self.organization, Seq::<char>::empty()),
            r.org_unit@ == opt_or(self.organization_unit, Seq::<char>::empty()),
            r.common_name@ == opt_or(self.organization, "Simple CA"@) + " Root CA"@,
    {
        proof {
            reveal_strlit("");
            assert(""@ =~= Seq::<char>::empty());
        }
        let org = opt_value(&self.organization, "Simple CA");
        Name {
            country: opt_value(&self.country, ""),
            province: opt_value(&self.state_or_province, ""),
            locality: opt_value(&self.locality, ""),
            org: opt_value(&self.organization, ""),
            org_unit: opt_value(&self.organization_unit, ""),
            common_name: org.concat(" Root CA"),
        }
    }

    /// The intermediate authority's identity: the root identity with the
    /// common name replaced by the organization, defaulted exactly as the
    /// root common name defaults it, followed by an intermediate marker.
    pub fn intermediate_name(&self) -> (r: Name)
        ensures
            r.country@ == opt_or(self.country, Seq::<char>::empty()),
            r.province@ == opt_or(self.state_or_province, Seq::<char>::empty()),
            r.locality@ == opt_or(self.locality, Seq::<char>::empty()),
            r.org@ == opt_or(self.organization, Seq::<char>::empty()),
            r.org_unit@ == opt_or(self.organization_unit, Seq::<char>::empty()),
            r.common_name@ == opt_or(self.organization, "Simple CA"@) + " Intermediate CA"@,
    {
        let base = self.ca_name();
        let cn = opt_value(&self.organization, "Simple CA").concat(" Intermediate CA");
        base.copy(cn.as_str())
    }
}

impl Conf {
    /// The default configuration: the default authority section.
    pub fn default() -> (r: Conf)
        ensures
            (r.ca matches Some(c) && c.country is None && c.state_or_province is None
                && c.locality is None && (c.organization matches Some(s) && s@ == "Simple CA"@)
                && c.organization_unit is None),
    {
        Conf { ca: Some(CertAuthConf::default()) }
    }

    /// The authority section. The configuration must carry one.
    pub fn ca(&self) -> (r: &CertAuthConf)
        requires
            self.ca is Some,
        ensures
            r == self.ca.unwrap(),
    {
        self.ca.as_ref().unwrap()
    }
}

} // verus!
