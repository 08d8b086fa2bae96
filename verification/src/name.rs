//! Identity model: a flat set of named attributes and its conversion into an
//! ordered distinguished-name sequence.

use vstd::prelude::*;

verus! {

/// The attribute kinds a distinguished name may carry, in their fixed
/// canonical order.
#[derive(Debug, Clone, Copy, PartialEq, Eq, Structural)]
pub enum DnAttr {
    Country,
    Province,
    Locality,
    Org,
    OrgUnit,
    CommonName,
}

/// One entry of a distinguished name: an attribute kind and its value.
#[derive(Debug, Clone, PartialEq, Eq)]
pub struct DnEntry {
    pub attr: DnAttr,
    pub value: String,
}

/// A flat identity: six string attributes. Any attribute may be empty; empty
/// attributes are omitted from the distinguished name built from it.
#[derive(Debug, PartialEq, Eq)]
pub struct Name {
    pub country: String,
    pub province: String,
    pub locality: String,
    pub org: String,
    pub org_unit: String,
    pub common_name: String,
}

/// The mathematical value of a distinguished-name entry.
pub struct DnEntryView {
    pub attr: DnAttr,
    pub value: Seq<char>,
}

/// The mathematical value of one entry.
pub open spec fn dn_entry_view(e: DnEntry) -> DnEntryView {
    DnEntryView { attr: e.attr, value: e.value@ }
}

/// The mathematical value of a distinguished name.
pub open spec fn dn_view(s: Seq<DnEntry>) -> Seq<DnEntryView> {
    s.map(|i: int, e: DnEntry| dn_entry_view(e))
}

/// Position of an attribute kind in the canonical order.
pub open spec fn attr_rank(a: DnAttr) -> int {
    match a {
        DnAttr::Country => 0,
        DnAttr::Province => 1,
        DnAttr::Locality => 2,
        DnAttr::Org => 3,
        DnAttr::OrgUnit => 4,
        DnAttr::CommonName => 5,
    }
}

/// The value a `Name` holds for a given attribute kind.
pub open spec fn attr_value(n: Name, a: DnAttr) -> Seq<char> {
    match a {
        DnAttr::Country => n.country@,
        DnAttr::Province => n.province@,
        DnAttr::Locality => n.locality@,
        DnAttr::Org => n.org@,
        DnAttr::OrgUnit => n.org_unit@,
        DnAttr::CommonName => n.common_name@,
    }
}

/// Zero entries for an empty attribute value, one entry otherwise.
pub open spec fn opt_entry(attr: DnAttr, value: String) -> Seq<DnEntry> {
    if value@.len() == 0 {
        Seq::<DnEntry>::empty()
    } else {
        seq![DnEntry { attr, value }]
    }
}

/// The distinguished name derived from a `Name`: one entry per non-empty
/// attribute, in the canonical attribute order.
pub open spec fn dn_of(n: Name) -> Seq<DnEntry> {
    opt_entry(DnAttr::Country, n.country) + opt_entry(DnAttr::Province, n.province)
        + opt_entry(DnAttr::Locality, n.locality) + opt_entry(DnAttr::Org, n.org)
        + opt_entry(DnAttr::OrgUnit, n.org_unit) + opt_entry(DnAttr::CommonName, n.common_name)
}

/// How many entries of a distinguished name carry the given attribute kind.
pub open spec fn count_attr(s: Seq<DnEntry>, a: DnAttr) -> int
    decreases s.len(),
{
    if s.len() == 0 {
        0
    } else {
        count_attr(s.drop_last(), a) + if s.last().attr == a {
            1int
        } else {
            0int
        }
    }
}

proof fn lemma_count_attr_concat(s1: Seq<DnEntry>, s2: Seq<DnEntry>, a: DnAttr)
    ensures
        count_attr(s1 + s2, a) == count_attr(s1, a) + count_attr(s2, a),
    decreases s2.len(),
{
    if s2.len() == 0 {
        assert(s1 + s2 =~= s1);
    } else {
        assert((s1 + s2).drop_last() =~= s1 + s2.drop_last());
        lemma_count_attr_concat(s1, s2.drop_last(), a);
    }
}

/// Every distinguished name built from a `Name` contains exactly one entry
/// per non-empty attribute and none for an empty attribute; the entries stand
/// in the canonical attribute order, each carrying the attribute's value.
pub proof fn lemma_distinguished_name_shape(n: Name)
    ensures
        forall|a: DnAttr|
            #[trigger] count_attr(dn_of(n), a) == if attr_value(n, a).len() == 0 {
                0int
            } else {
                1int
            },
        forall|i: int, j: int|
            0 <= i < j < dn_of(n).len() ==> attr_rank(dn_of(n)[i].attr) < attr_rank(
                dn_of(n)[j].attr,
            ),
        forall|i: int|
            0 <= i < dn_of(n).len() ==> dn_of(n)[i].value@ == attr_value(n, dn_of(n)[i].attr),
{
    let s1 = opt_entry(DnAttr::Country, n.country);
    let s2 = opt_entry(DnAttr::Province, n.province);
    let s3 = opt_entry(DnAttr::Locality, n.locality);
    let s4 = opt_entry(DnAttr::Org, n.org);
    let s5 = opt_entry(DnAttr::OrgUnit, n.org_unit);
    let s6 = opt_entry(DnAttr::CommonName, n.common_name);
    assert forall|a: DnAttr|
        #[trigger] count_attr(dn_of(n), a) == if attr_value(n, a).len() == 0 {
            0int
        } else {
            1int
        } by {
        lemma_count_attr_concat(s1 + s2 + s3 + s4 + s5, s6, a);
        lemma_count_attr_concat(s1 + s2 + s3 + s4, s5, a);
        lemma_count_attr_concat(s1 + s2 + s3, s4, a);
        lemma_count_attr_concat(s1 + s2, s3, a);
        lemma_count_attr_concat(s1, s2, a);
        assert(count_attr(Seq::<DnEntry>::empty(), a) == 0);
        if s1.len() == 1 {
            assert(s1.drop_last() =~= Seq::<DnEntry>::empty());
        }
        if s2.len() == 1 {
            assert(s2.drop_last() =~= Seq::<DnEntry>::empty());
        }
        if s3.len() == 1 {
            assert(s3.drop_last() =~= Seq::<DnEntry>::empty());
        }
        if s4.len() == 1 {
            assert(s4.drop_last() =~= Seq::<DnEntry>::empty());
        }
        if s5.len() == 1 {
            assert(s5.drop_last() =~= Seq::<DnEntry>::empty());
        }
        if s6.len() == 1 {
            assert(s6.drop_last() =~= Seq::<DnEntry>::empty());
        }
    }
}

impl Name {
    /// A new `Name` sharing every attribute of `self` except the common name,
    /// which is replaced by the given one.
    pub fn copy(&self, common_name: &str) -> (r: Name)
        ensures
            r.country == self.country,
            r.province == self.province,
            r.locality == self.locality,
            r.org == self.org,
            r.org_unit == self.org_unit,
            r.common_name@ == common_name@,
    {
        Name {
            country: self.country.clone(),
            province: self.province.clone(),
            locality: self.locality.clone(),
            org: self.org.clone(),
            org_unit: self.org_unit.clone(),
            common_name: common_name.to_owned(),
        }
    }

    /// The ordered distinguished name for this identity: one entry per
    /// non-empty attribute, in the canonical attribute order.
    pub fn to_x509_name(&self) -> (r: Vec<DnEntry>)
        ensures
            r@ == dn_of(*self),
    {
        let mut r: Vec<DnEntry> = Vec::new();
        if !self.country.as_str().is_empty() {
            r.push(DnEntry { attr: DnAttr::Country, value: self.country.clone() });
        }
        if !self.province.as_str().is_empty() {
            r.push(DnEntry { attr: DnAttr::Province, value: self.province.clone() });
        }
        if !self.locality.as_str().is_empty() {
            r.push(DnEntry { attr: DnAttr::Locality, value: self.locality.clone() });
        }
        if !self.org.as_str().is_empty() {
            r.push(DnEntry { attr: DnAttr::Org, value: self.org.clone() });
        }
        if !self.org_unit.as_str().is_empty() {
            r.push(DnEntry { attr: DnAttr::OrgUnit, value: self.org_unit.clone() });
        }
        if !self.common_name.as_str().is_empty() {
            r.push(DnEntry { attr: DnAttr::CommonName, value: self.common_name.clone() });
        }
        proof {
            assert(r@ =~= dn_of(*self));
        }
        r
    }
}

/// A deep copy of a string list.
pub fn clone_strings(v: &Vec<String>) -> (r: Vec<String>)
    ensures
        r.deep_view() == v.deep_view(),
{
    let mut r: Vec<String> = Vec::new();
    let mut i: usize = 0;
    while i < v.len()
        invariant
            i <= v.len(),
            r@.len() == i,
            forall|j: int| 0 <= j < i ==> r@[j]@ == v@[j]@,
        decreases v.len() - i,
    {
        r.push(v[i].clone());
        i = i + 1;
    }
    proof {
        assert(r.deep_view() =~= v.deep_view());
    }
    r
}

/// A deep copy of a distinguished name.
pub fn clone_dn(dn: &Vec<DnEntry>) -> (r: Vec<DnEntry>)
    ensures
        r@ == dn@,
{
    let mut r: Vec<DnEntry> = Vec::new();
    let mut i: usize = 0;
    while i < dn.len()
        invariant
            i <= dn.len(),
            r@ =~= dn@.subrange(0, i as int),
        decreases dn.len() - i,
    {
        r.push(DnEntry { attr: dn[i].attr, value: dn[i].value.clone() });
        i = i + 1;
    }
    proof {
        assert(r@ =~= dn@);
    }
    r
}

} // verus!
