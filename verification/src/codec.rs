//! The durable byte form of a certificate: a deterministic, canonical,
//! length-prefixed little-endian encoding, used both as the signing input
//! (the to-be-signed bytes leave the signature out) and for persistence.
//! Decoding an encoded certificate yields the certificate back.

use vstd::prelude::*;

use crate::certificate::{cert_view, CertView, Certificate};
use crate::extensions::{ext_view, exts_view, Extension, ExtensionView};
use crate::name::{dn_entry_view, dn_view, DnAttr, DnEntry, DnEntryView};

verus! {

/// The eight little-endian bytes of a 64-bit value.
pub open spec fn u64_le(v: u64) -> Seq<u8> {
    seq![
        (v & 0xff) as u8,
        ((v >> 8) & 0xff) as u8,
        ((v >> 16) & 0xff) as u8,
        ((v >> 24) & 0xff) as u8,
        ((v >> 32) & 0xff) as u8,
        ((v >> 40) & 0xff) as u8,
        ((v >> 48) & 0xff) as u8,
        ((v >> 56) & 0xff) as u8,
    ]
}

/// The 64-bit value read from eight little-endian bytes.
pub open spec fn u64_of(b0: u8, b1: u8, b2: u8, b3: u8, b4: u8, b5: u8, b6: u8, b7: u8) -> u64 {
    (b0 as u64) | ((b1 as u64) << 8) | ((b2 as u64) << 16) | ((b3 as u64) << 24) | ((b4 as u64)
        << 32) | ((b5 as u64) << 40) | ((b6 as u64) << 48) | ((b7 as u64) << 56)
}

proof fn lemma_u64_le_of(v: u64)
    ensures
        u64_of(
            u64_le(v)[0],
            u64_le(v)[1],
            u64_le(v)[2],
            u64_le(v)[3],
            u64_le(v)[4],
            u64_le(v)[5],
            u64_le(v)[6],
            u64_le(v)[7],
        ) == v,
{
    assert(((v & 0xff) as u8 as u64) | (((v >> 8) & 0xff) as u8 as u64) << 8 | (((v >> 16)
        & 0xff) as u8 as u64) << 16 | (((v >> 24) & 0xff) as u8 as u64) << 24 | (((v >> 32)
        & 0xff) as u8 as u64) << 32 | (((v >> 40) & 0xff) as u8 as u64) << 40 | (((v >> 48)
        & 0xff) as u8 as u64) << 48 | (((v >> 56) & 0xff) as u8 as u64) << 56 == v)
        by (bit_vector);
}

proof fn lemma_u64_of_le(b0: u8, b1: u8, b2: u8, b3: u8, b4: u8, b5: u8, b6: u8, b7: u8)
    ensures
        u64_le(u64_of(b0, b1, b2, b3, b4, b5, b6, b7)) =~= seq![b0, b1, b2, b3, b4, b5, b6, b7],
{
    let v = u64_of(b0, b1, b2, b3, b4, b5, b6, b7);
    assert((v & 0xff) as u8 == b0 && ((v >> 8) & 0xff) as u8 == b1 && ((v >> 16) & 0xff) as u8
        == b2 && ((v >> 24) & 0xff) as u8 == b3 && ((v >> 32) & 0xff) as u8 == b4 && ((v >> 40)
        & 0xff) as u8 == b5 && ((v >> 48) & 0xff) as u8 == b6 && ((v >> 56) & 0xff) as u8 == b7)
        by (bit_vector)
        requires
            v == (b0 as u64) | ((b1 as u64) << 8) | ((b2 as u64) << 16) | ((b3 as u64) << 24) | (
            (b4 as u64) << 32) | ((b5 as u64) << 40) | ((b6 as u64) << 48) | ((b7 as u64) << 56),
    ;
}

/// The sixteen little-endian bytes of a 128-bit value: its low half, then
/// its high half.
pub open spec fn u128_le(v: u128) -> Seq<u8> {
    u64_le((v % 0x1_0000_0000_0000_0000) as u64) + u64_le((v / 0x1_0000_0000_0000_0000) as u64)
}

/// The 128-bit value assembled from its two 64-bit halves.
pub open spec fn u128_of(lo: u64, hi: u64) -> u128 {
    (lo + hi * 0x1_0000_0000_0000_0000) as u128
}

proof fn lemma_u128_split(v: u128)
    ensures
        u128_of((v % 0x1_0000_0000_0000_0000) as u64, (v / 0x1_0000_0000_0000_0000) as u64) == v,
        v % 0x1_0000_0000_0000_0000 < 0x1_0000_0000_0000_0000,
        v / 0x1_0000_0000_0000_0000 < 0x1_0000_0000_0000_0000,
{
    vstd::arithmetic::div_mod::lemma_fundamental_div_mod(v as int, 0x1_0000_0000_0000_0000);
}

proof fn lemma_u128_join(lo: u64, hi: u64)
    ensures
        u128_of(lo, hi) % 0x1_0000_0000_0000_0000 == lo,
        u128_of(lo, hi) / 0x1_0000_0000_0000_0000 == hi,
{
    let c = 0x1_0000_0000_0000_0000int;
    assert((lo + hi * c) % c == lo && (lo + hi * c) / c == hi) by (nonlinear_arith)
        requires
            0 <= lo < c,
            0 <= hi,
            c == 0x1_0000_0000_0000_0000int,
    ;
}

/// The code point of a character, as a 64-bit value.
pub open spec fn char_code(c: char) -> u64 {
    (c as u32) as u64
}

/// The encoding of one character: its code point.
pub open spec fn char_le(c: char) -> Seq<u8> {
    u64_le(char_code(c))
}

/// The concatenated encodings of a sequence of characters.
pub open spec fn chars_enc(s: Seq<char>) -> Seq<u8>
    decreases s.len(),
{
    if s.len() == 0 {
        Seq::<u8>::empty()
    } else {
        chars_enc(s.drop_last()) + char_le(s.last())
    }
}

/// The encoding of a string: its character count, then its characters.
pub open spec fn str_enc(s: Seq<char>) -> Seq<u8> {
    u64_le(s.len() as u64) + chars_enc(s)
}

/// The encoding of a byte string: its length, then its bytes.
pub open spec fn bytes_enc(b: Seq<u8>) -> Seq<u8> {
    u64_le(b.len() as u64) + b
}

/// The concatenated encodings of a sequence of strings.
pub open spec fn strs_cat(v: Seq<Seq<char>>) -> Seq<u8>
    decreases v.len(),
{
    if v.len() == 0 {
        Seq::<u8>::empty()
    } else {
        strs_cat(v.drop_last()) + str_enc(v.last())
    }
}

/// The encoding of a string list: its length, then its strings.
pub open spec fn strs_enc(v: Seq<Seq<char>>) -> Seq<u8> {
    u64_le(v.len() as u64) + strs_cat(v)
}

/// The tag byte of a distinguished-name attribute kind.
pub open spec fn attr_tag(a: DnAttr) -> u8 {
    match a {
        DnAttr::Country => 1,
        DnAttr::Province => 2,
        DnAttr::Locality => 3,
        DnAttr::Org => 4,
        DnAttr::OrgUnit => 5,
        DnAttr::CommonName => 6,
    }
}

/// The attribute kind a tag byte stands for, if any.
pub open spec fn attr_of_tag(t: u8) -> Option<DnAttr> {
    if t == 1 {
        Some(DnAttr::Country)
    } else if t == 2 {
        Some(DnAttr::Province)
    } else if t == 3 {
        Some(DnAttr::Locality)
    } else if t == 4 {
        Some(DnAttr::Org)
    } else if t == 5 {
        Some(DnAttr::OrgUnit)
    } else if t == 6 {
        Some(DnAttr::CommonName)
    } else {
        None
    }
}

/// The encoding of one distinguished-name entry: attribute tag, then value.
pub open spec fn dn_entry_enc(e: DnEntryView) -> Seq<u8> {
    seq![attr_tag(e.attr)] + str_enc(e.value)
}

/// The concatenated encodings of distinguished-name entries.
pub open spec fn dn_entries_cat(s: Seq<DnEntryView>) -> Seq<u8>
    decreases s.len(),
{
    if s.len() == 0 {
        Seq::<u8>::empty()
    } else {
        dn_entries_cat(s.drop_last()) + dn_entry_enc(s.last())
    }
}

/// The encoding of a distinguished name: its length, then its entries.
pub open spec fn dn_enc(s: Seq<DnEntryView>) -> Seq<u8> {
    u64_le(s.len() as u64) + dn_entries_cat(s)
}

/// The byte a boolean encodes to.
pub open spec fn bool_byte(b: bool) -> u8 {
    if b {
        1
    } else {
        0
    }
}

/// The encoding of one extension: a tag byte, then the payload.
pub open spec fn ext_enc(e: ExtensionView) -> Seq<u8> {
    match e {
        ExtensionView::SubjectKeyIdentifier { key_id } => seq![1u8] + bytes_enc(key_id),
        ExtensionView::AuthorityKeyIdentifier { key_id } => seq![2u8] + bytes_enc(key_id),
        ExtensionView::AuthorityKeyIdentifierFull { key_id, issuer_dn, issuer_serial } => seq![3u8]
            + bytes_enc(key_id) + dn_enc(issuer_dn) + u128_le(issuer_serial),
        ExtensionView::BasicConstraints { critical, ca } => seq![
            4u8,
            bool_byte(critical),
            bool_byte(ca),
        ],
        ExtensionView::KeyUsage {
            digital_signature,
            non_repudiation,
            key_encipherment,
            key_cert_sign,
            crl_sign,
        } => seq![
            5u8,
            bool_byte(digital_signature),
            bool_byte(non_repudiation),
            bool_byte(key_encipherment),
            bool_byte(key_cert_sign),
            bool_byte(crl_sign),
        ],
        ExtensionView::ExtendedKeyUsageServerAuth => seq![6u8],
        ExtensionView::NetscapeCertType { text } => seq![7u8] + str_enc(text),
        ExtensionView::NetscapeComment { text } => seq![8u8] + str_enc(text),
        ExtensionView::SubjectAltNames { dns_names } => seq![9u8] + strs_enc(dns_names),
    }
}

/// The concatenated encodings of an extension list.
pub open spec fn exts_cat(s: Seq<ExtensionView>) -> Seq<u8>
    decreases s.len(),
{
    if s.len() == 0 {
        Seq::<u8>::empty()
    } else {
        exts_cat(s.drop_last()) + ext_enc(s.last())
    }
}

/// The encoding of an extension list: its length, then its extensions.
pub open spec fn exts_enc(s: Seq<ExtensionView>) -> Seq<u8> {
    u64_le(s.len() as u64) + exts_cat(s)
}

/// The to-be-signed bytes of a certificate: every field but the signature.
pub open spec fn tbs_enc(cv: CertView) -> Seq<u8> {
    u64_le(cv.version as u64) + u128_le(cv.serial) + u64_le(cv.not_before) + u64_le(cv.not_after)
        + dn_enc(cv.subject_dn) + dn_enc(cv.issuer_dn) + bytes_enc(cv.public_key_pem) + exts_enc(
        cv.extensions,
    )
}

/// The full durable byte form: the to-be-signed bytes, then the signature.
pub open spec fn cert_enc(cv: CertView) -> Seq<u8> {
    tbs_enc(cv) + bytes_enc(cv.signature)
}

fn push_u64(out: &mut Vec<u8>, v: u64)
    ensures
        final(out)@ == old(out)@ + u64_le(v),
{
    proof {
        assert(v & 0xff < 256 && (v >> 8) & 0xff < 256 && (v >> 16) & 0xff < 256 && (v >> 24)
            & 0xff < 256 && (v >> 32) & 0xff < 256 && (v >> 40) & 0xff < 256 && (v >> 48) & 0xff
            < 256 && (v >> 56) & 0xff < 256) by (bit_vector);
    }
    out.push((v & 0xff) as u8);
    out.push(((v >> 8) & 0xff) as u8);
    out.push(((v >> 16) & 0xff) as u8);
    out.push(((v >> 24) & 0xff) as u8);
    out.push(((v >> 32) & 0xff) as u8);
    out.push(((v >> 40) & 0xff) as u8);
    out.push(((v >> 48) & 0xff) as u8);
    out.push(((v >> 56) & 0xff) as u8);
    proof {
        assert(out@ =~= old(out)@ + u64_le(v));
    }
}

fn push_u128(out: &mut Vec<u8>, v: u128)
    ensures
        final(out)@ == old(out)@ + u128_le(v),
{
    proof {
        lemma_u128_split(v);
    }
    let lo: u64 = (v % 0x1_0000_0000_0000_0000u128) as u64;
    let hi: u64 = (v / 0x1_0000_0000_0000_0000u128) as u64;
    push_u64(out, lo);
    push_u64(out, hi);
    proof {
        assert(out@ =~= old(out)@ + u128_le(v));
    }
}

fn push_str(out: &mut Vec<u8>, s: &String)
    ensures
        final(out)@ == old(out)@ + str_enc(s@),
{
    let n: usize = s.as_str().unicode_len();
    push_u64(out, n as u64);
    let mut i: usize = 0;
    while i < n
        invariant
            i <= n,
            n == s@.len(),
            out@ =~= old(out)@ + u64_le(n as u64) + chars_enc(s@.take(i as int)),
        decreases n - i,
    {
        let c = s.as_str().get_char(i);
        push_u64(out, (c as u32) as u64);
        proof {
            assert(s@.take(i + 1).drop_last() =~= s@.take(i as int));
            assert(s@.take(i + 1).last() == s@[i as int]);
        }
        i = i + 1;
    }
    proof {
        assert(s@.take(n as int) =~= s@);
        assert(out@ =~= old(out)@ + str_enc(s@));
    }
}

fn push_bytes(out: &mut Vec<u8>, b: &Vec<u8>)
    ensures
        final(out)@ == old(out)@ + bytes_enc(b@),
{
    push_u64(out, b.len() as u64);
    let mut i: usize = 0;
    while i < b.len()
        invariant
            i <= b.len(),
            out@ =~= old(out)@ + u64_le(b@.len() as u64) + b@.take(i as int),
        decreases b.len() - i,
    {
        out.push(b[i]);
        proof {
            assert(b@.take(i + 1) =~= b@.take(i as int).push(b@[i as int]));
        }
        i = i + 1;
    }
    proof {
        assert(b@.take(b@.len() as int) =~= b@);
        assert(out@ =~= old(out)@ + bytes_enc(b@));
    }
}

fn push_strs(out: &mut Vec<u8>, v: &Vec<String>)
    ensures
        final(out)@ == old(out)@ + strs_enc(v.deep_view()),
{
    push_u64(out, v.len() as u64);
    let mut i: usize = 0;
    while i < v.len()
        invariant
            i <= v.len(),
            out@ =~= old(out)@ + u64_le(v.deep_view().len() as u64) + strs_cat(
                v.deep_view().take(i as int),
            ),
        decreases v.len() - i,
    {
        push_str(out, &v[i]);
        proof {
            assert(v.deep_view().take(i + 1).drop_last() =~= v.deep_view().take(i as int));
            assert(v.deep_view().take(i + 1).last() == v.deep_view()[i as int]);
            assert(v.deep_view()[i as int] == v@[i as int]@);
        }
        i = i + 1;
    }
    proof {
        assert(v.deep_view().take(v.deep_view().len() as int) =~= v.deep_view());
        assert(out@ =~= old(out)@ + strs_enc(v.deep_view()));
    }
}

/// The tag byte of an attribute kind.
fn attr_byte(a: DnAttr) -> (r: u8)
    ensures
        r == attr_tag(a),
{
    match a {
        DnAttr::Country => 1,
        DnAttr::Province => 2,
        DnAttr::Locality => 3,
        DnAttr::Org => 4,
        DnAttr::OrgUnit => 5,
        DnAttr::CommonName => 6,
    }
}

fn push_dn(out: &mut Vec<u8>, dn: &Vec<DnEntry>)
    ensures
        final(out)@ == old(out)@ + dn_enc(dn_view(dn@)),
{
    push_u64(out, dn.len() as u64);
    let mut i: usize = 0;
    while i < dn.len()
        invariant
            i <= dn.len(),
            out@ =~= old(out)@ + u64_le(dn_view(dn@).len() as u64) + dn_entries_cat(
                dn_view(dn@).take(i as int),
            ),
        decreases dn.len() - i,
    {
        out.push(attr_byte(dn[i].attr));
        push_str(out, &dn[i].value);
        proof {
            assert(dn_view(dn@).take(i + 1).drop_last() =~= dn_view(dn@).take(i as int));
            assert(dn_view(dn@).take(i + 1).last() == dn_view(dn@)[i as int]);
        }
        i = i + 1;
    }
    proof {
        assert(dn_view(dn@).take(dn_view(dn@).len() as int) =~= dn_view(dn@));
        assert(out@ =~= old(out)@ + dn_enc(dn_view(dn@)));
    }
}

fn push_bool(out: &mut Vec<u8>, b: bool)
    ensures
        final(out)@ == old(out)@ + seq![bool_byte(b)],
{
    if b {
        out.push(1u8);
    } else {
        out.push(0u8);
    }
    proof {
        assert(out@ =~= old(out)@ + seq![bool_byte(b)]);
    }
}

fn push_ext(out: &mut Vec<u8>, e: &Extension)
    ensures
        final(out)@ == old(out)@ + ext_enc(ext_view(*e)),
{
    match e {
        Extension::SubjectKeyIdentifier { key_id } => {
            out.push(1u8);
            push_bytes(out, key_id);
        },
        Extension::AuthorityKeyIdentifier { key_id } => {
            out.push(2u8);
            push_bytes(out, key_id);
        },
        Extension::AuthorityKeyIdentifierFull { key_id, issuer_dn, issuer_serial } => {
            out.push(3u8);
            push_bytes(out, key_id);
            push_dn(out, issuer_dn);
            push_u128(out, *issuer_serial);
        },
        Extension::BasicConstraints { critical, ca } => {
            out.push(4u8);
            push_bool(out, *critical);
            push_bool(out, *ca);
        },
        Extension::KeyUsage {
            digital_signature,
            non_repudiation,
            key_encipherment,
            key_cert_sign,
            crl_sign,
        } => {
            out.push(5u8);
            push_bool(out, *digital_signature);
            push_bool(out, *non_repudiation);
            push_bool(out, *key_encipherment);
            push_bool(out, *key_cert_sign);
            push_bool(out, *crl_sign);
        },
        Extension::ExtendedKeyUsageServerAuth => {
            out.push(6u8);
        },
        Extension::NetscapeCertType { text } => {
            out.push(7u8);
            push_str(out, text);
        },
        Extension::NetscapeComment { text } => {
            out.push(8u8);
            push_str(out, text);
        },
        Extension::SubjectAltNames { dns_names } => {
            out.push(9u8);
            push_strs(out, dns_names);
        },
    }
    proof {
        assert(out@ =~= old(out)@ + ext_enc(ext_view(*e)));
    }
}

fn push_exts(out: &mut Vec<u8>, v: &Vec<Extension>)
    ensures
        final(out)@ == old(out)@ + exts_enc(exts_view(v@)),
{
    push_u64(out, v.len() as u64);
    let mut i: usize = 0;
    while i < v.len()
        invariant
            i <= v.len(),
            out@ =~= old(out)@ + u64_le(exts_view(v@).len() as u64) + exts_cat(
                exts_view(v@).take(i as int),
            ),
        decreases v.len() - i,
    {
        push_ext(out, &v[i]);
        proof {
            assert(exts_view(v@).take(i + 1).drop_last() =~= exts_view(v@).take(i as int));
            assert(exts_view(v@).take(i + 1).last() == exts_view(v@)[i as int]);
        }
        i = i + 1;
    }
    proof {
        assert(exts_view(v@).take(exts_view(v@).len() as int) =~= exts_view(v@));
        assert(out@ =~= old(out)@ + exts_enc(exts_view(v@)));
    }
}

proof fn lemma_subrange_decompose(data: Seq<u8>, pos: int, a: int, b: int)
    requires
        0 <= pos,
        0 <= a,
        0 <= b,
        pos + a + b <= data.len(),
    ensures
        data.subrange(pos, pos + a + b) == data.subrange(pos, pos + a) + data.subrange(
            pos + a,
            pos + a + b,
        ),
{
    assert(data.subrange(pos, pos + a + b) =~= data.subrange(pos, pos + a) + data.subrange(
        pos + a,
        pos + a + b,
    ));
}

proof fn lemma_concat_split<T>(s1: Seq<T>, s2: Seq<T>, t1: Seq<T>, t2: Seq<T>)
    requires
        s1 + s2 == t1 + t2,
        s1.len() == t1.len(),
    ensures
        s1 == t1,
        s2 == t2,
{
    assert((s1 + s2).len() == (t1 + t2).len());
    assert forall|i: int| 0 <= i < s1.len() implies s1[i] == t1[i] by {
        assert((s1 + s2)[i] == s1[i]);
        assert((t1 + t2)[i] == t1[i]);
        assert((s1 + s2)[i] == (t1 + t2)[i]);
    }
    assert(s1 =~= t1);
    assert((s1 + s2).len() == s1.len() + s2.len());
    assert((t1 + t2).len() == t1.len() + t2.len());
    assert(s2.len() == t2.len());
    assert forall|i: int| 0 <= i < s2.len() implies s2[i] == t2[i] by {
        assert((s1 + s2)[s1.len() + i] == s2[i]);
        assert((t1 + t2)[t1.len() + i] == t2[i]);
        assert((s1 + s2)[s1.len() + i] == (t1 + t2)[t1.len() + i]);
    }
    assert(s2 =~= t2);
}

proof fn lemma_u64_le_injective(a: u64, b: u64)
    requires
        u64_le(a) == u64_le(b),
    ensures
        a == b,
{
    lemma_u64_le_of(a);
    lemma_u64_le_of(b);
}

proof fn lemma_chars_enc_len(s: Seq<char>)
    ensures
        chars_enc(s).len() == 8 * s.len(),
    decreases s.len(),
{
    if s.len() > 0 {
        lemma_chars_enc_len(s.drop_last());
    }
}

fn read_u64(data: &Vec<u8>, pos: usize) -> (r: Option<(u64, usize)>)
    ensures
        pos + 8 <= data@.len() ==> (r matches Some(p) && p.1 == pos + 8 && data@.subrange(
            pos as int,
            pos + 8,
        ) == u64_le(p.0)),
        pos + 8 > data@.len() ==> r is None,
{
    if data.len() < 8 || pos > data.len() - 8 {
        return None;
    }
    let b0 = data[pos];
    let b1 = data[pos + 1];
    let b2 = data[pos + 2];
    let b3 = data[pos + 3];
    let b4 = data[pos + 4];
    let b5 = data[pos + 5];
    let b6 = data[pos + 6];
    let b7 = data[pos + 7];
    let v: u64 = (b0 as u64) | ((b1 as u64) << 8) | ((b2 as u64) << 16) | ((b3 as u64) << 24) | (
    (b4 as u64) << 32) | ((b5 as u64) << 40) | ((b6 as u64) << 48) | ((b7 as u64) << 56);
    proof {
        lemma_u64_of_le(b0, b1, b2, b3, b4, b5, b6, b7);
        assert(data@.subrange(pos as int, pos + 8) =~= seq![b0, b1, b2, b3, b4, b5, b6, b7]);
    }
    Some((v, pos + 8))
}

fn read_u128(data: &Vec<u8>, pos: usize) -> (r: Option<(u128, usize)>)
    ensures
        pos + 16 <= data@.len() ==> (r matches Some(p) && p.1 == pos + 16 && data@.subrange(
            pos as int,
            pos + 16,
        ) == u128_le(p.0)),
        pos + 16 > data@.len() ==> r is None,
{
    let (lo, p1) = match read_u64(data, pos) {
        Some(x) => x,
        None => {
            return None;
        },
    };
    let (hi, p2) = match read_u64(data, p1) {
        Some(x) => x,
        None => {
            return None;
        },
    };
    proof {
        assert((hi as int) * 0x1_0000_0000_0000_0000 <= 0xFFFF_FFFF_FFFF_FFFFint
            * 0x1_0000_0000_0000_0000) by (nonlinear_arith)
            requires
                hi <= 0xFFFF_FFFF_FFFF_FFFFu64,
        ;
    }
    let v: u128 = (lo as u128) + (hi as u128) * 0x1_0000_0000_0000_0000u128;
    proof {
        lemma_u128_join(lo, hi);
        assert(v == u128_of(lo, hi));
        assert(u128_le(v) =~= u64_le(lo) + u64_le(hi));
        assert(data@.subrange(pos as int, pos + 16) =~= data@.subrange(pos as int, pos + 8)
            + data@.subrange(pos + 8, pos + 16));
    }
    Some((v, p2))
}

fn read_raw(data: &Vec<u8>, pos: usize, n: usize) -> (r: Option<(Vec<u8>, usize)>)
    ensures
        pos + n <= data@.len() ==> (r matches Some(p) && p.1 == pos + n && p.0@ == data@.subrange(
            pos as int,
            pos + n,
        )),
        pos + n > data@.len() ==> r is None,
{
    let dl: usize = data.len();
    if n > dl || pos > dl - n {
        return None;
    }
    let mut v: Vec<u8> = Vec::new();
    let mut i: usize = 0;
    while i < n
        invariant
            i <= n,
            pos + n <= data@.len(),
            pos + n <= usize::MAX,
            v@ =~= data@.subrange(pos as int, pos + i),
        decreases n - i,
    {
        v.push(data[pos + i]);
        proof {
            assert(data@.subrange(pos as int, pos + i + 1) =~= data@.subrange(
                pos as int,
                pos + i,
            ).push(data@[pos + i]));
        }
        i = i + 1;
    }
    Some((v, pos + n))
}

fn read_bool(data: &Vec<u8>, pos: usize) -> (r: Option<(bool, usize)>)
    ensures
        r matches Some(p) ==> p.1 == pos + 1 && pos < data@.len() && data@[pos as int]
            == bool_byte(p.0),
        pos < data@.len() && (data@[pos as int] == 0 || data@[pos as int] == 1) ==> r is Some,
        pos >= data@.len() ==> r is None,
{
    if pos >= data.len() {
        return None;
    }
    let b = data[pos];
    if b == 0 {
        Some((false, pos + 1))
    } else if b == 1 {
        Some((true, pos + 1))
    } else {
        None
    }
}

fn read_attr(data: &Vec<u8>, pos: usize) -> (r: Option<(DnAttr, usize)>)
    ensures
        r matches Some(p) ==> p.1 == pos + 1 && pos < data@.len() && data@[pos as int] == attr_tag(
            p.0,
        ),
        pos < data@.len() && attr_of_tag(data@[pos as int]) is Some ==> (r matches Some(p)
            && Some(p.0) == attr_of_tag(data@[pos as int])),
        pos >= data@.len() ==> r is None,
{
    if pos >= data.len() {
        return None;
    }
    let t = data[pos];
    let a = if t == 1 {
        DnAttr::Country
    } else if t == 2 {
        DnAttr::Province
    } else if t == 3 {
        DnAttr::Locality
    } else if t == 4 {
        DnAttr::Org
    } else if t == 5 {
        DnAttr::OrgUnit
    } else if t == 6 {
        DnAttr::CommonName
    } else {
        return None;
    };
    Some((a, pos + 1))
}

/// Relies on std's char::from_u32: a character for every Unicode scalar
/// value, carrying exactly that code point, and nothing for surrogates and
/// for values past the largest code point.
#[verifier::external_body]
fn char_from_u32(u: u32) -> (r: Option<char>)
    ensures
        r is Some <==> vstd::utf8::is_scalar(u),
        r matches Some(c) ==> (c as u32) == u,
{
    char::from_u32(u)
}

/// Relies on std's String::push: appends one character to the string.
#[verifier::external_body]
fn string_push(s: &mut String, c: char)
    ensures
        final(s)@ == old(s)@.push(c),
{
    s.push(c);
}

fn read_char(data: &Vec<u8>, pos: usize) -> (r: Option<(char, usize)>)
    ensures
        r matches Some(p) ==> p.1 == pos + 8 && pos + 8 <= data@.len() && data@.subrange(
            pos as int,
            pos + 8,
        ) == char_le(p.0),
        forall|c: char|
            (pos + 8 <= data@.len() && data@.subrange(pos as int, pos + 8) == char_le(c)) ==> (
            r is Some && r.unwrap().0 == c),
{
    let (v, p2) = match read_u64(data, pos) {
        Some(x) => x,
        None => {
            return None;
        },
    };
    if v > 0x10FFFF {
        proof {
            assert forall|c: char|
                (pos + 8 <= data@.len() && data@.subrange(pos as int, pos + 8) == char_le(
                    c,
                )) implies false by {
                vstd::utf8::char_is_scalar(c);
                lemma_u64_le_injective(v, char_code(c));
            }
        }
        return None;
    }
    let u: u32 = v as u32;
    match char_from_u32(u) {
        Some(c) => {
            proof {
                assert(char_code(c) == v);
                assert forall|c2: char|
                    (pos + 8 <= data@.len() && data@.subrange(pos as int, pos + 8) == char_le(
                        c2,
                    )) implies c2 == c by {
                    lemma_u64_le_injective(v, char_code(c2));
                    vstd::utf8::char_u32_cast(c2, u);
                    vstd::utf8::char_u32_cast(c, u);
                }
            }
            Some((c, p2))
        },
        None => {
            proof {
                assert forall|c: char|
                    (pos + 8 <= data@.len() && data@.subrange(pos as int, pos + 8) == char_le(
                        c,
                    )) implies false by {
                    vstd::utf8::char_is_scalar(c);
                    lemma_u64_le_injective(v, char_code(c));
                }
            }
            None
        },
    }
}

fn read_chars(data: &Vec<u8>, pos: usize, n: u64) -> (r: Option<(String, usize)>)
    ensures
        r matches Some(p) ==> p.0@.len() == n && pos + 8 * (n as int) == p.1 && p.1 <= data@.len()
            && data@.subrange(pos as int, p.1 as int) == chars_enc(p.0@),
        forall|x: Seq<char>|
            (x.len() == n && pos + 8 * (n as int) <= data@.len() && data@.subrange(
                pos as int,
                pos + 8 * (n as int),
            ) == chars_enc(x)) ==> (r is Some && r.unwrap().0@ == x),
    decreases n,
{
    if pos > data.len() {
        return None;
    }
    if n == 0 {
        let s = String::new();
        proof {
            assert(data@.subrange(pos as int, pos as int) =~= chars_enc(s@));
            assert forall|x: Seq<char>|
                (x.len() == 0 && pos + 0 <= data@.len() && data@.subrange(pos as int, pos as int)
                    == chars_enc(x)) implies s@ =~= x by {}
        }
        return Some((s, pos));
    }
    let prev = match read_chars(data, pos, n - 1) {
        Some(x) => x,
        None => {
            proof {
                assert forall|x: Seq<char>|
                    (x.len() == n && pos + 8 * (n as int) <= data@.len() && data@.subrange(
                        pos as int,
                        pos + 8 * (n as int),
                    ) == chars_enc(x)) implies false by {
                    lemma_chars_enc_len(x);
                    lemma_chars_enc_len(x.drop_last());
                    assert(chars_enc(x) == chars_enc(x.drop_last()) + char_le(x.last()));
                    lemma_subrange_decompose(data@, pos as int, 8 * (n - 1), 8);
                    lemma_concat_split(
                        data@.subrange(pos as int, pos + 8 * (n - 1)),
                        data@.subrange(pos + 8 * (n - 1), pos + 8 * (n as int)),
                        chars_enc(x.drop_last()),
                        char_le(x.last()),
                    );
                }
            }
            return None;
        },
    };
    let (mut s, p1) = prev;
    let ghost sprev = s@;
    let next = match read_char(data, p1) {
        Some(x) => x,
        None => {
            proof {
                assert forall|x: Seq<char>|
                    (x.len() == n && pos + 8 * (n as int) <= data@.len() && data@.subrange(
                        pos as int,
                        pos + 8 * (n as int),
                    ) == chars_enc(x)) implies false by {
                    lemma_chars_enc_len(x);
                    lemma_chars_enc_len(x.drop_last());
                    assert(chars_enc(x) == chars_enc(x.drop_last()) + char_le(x.last()));
                    lemma_subrange_decompose(data@, pos as int, 8 * (n - 1), 8);
                    lemma_concat_split(
                        data@.subrange(pos as int, pos + 8 * (n - 1)),
                        data@.subrange(pos + 8 * (n - 1), pos + 8 * (n as int)),
                        chars_enc(x.drop_last()),
                        char_le(x.last()),
                    );
                    assert(sprev == x.drop_last());
                }
            }
            return None;
        },
    };
    let (c, p2) = next;
    string_push(&mut s, c);
    proof {
        assert(data@.subrange(pos as int, p2 as int) =~= data@.subrange(pos as int, p1 as int)
            + data@.subrange(p1 as int, p2 as int));
        assert(s@.drop_last() =~= sprev);
        assert(s@.last() == c);
        assert(chars_enc(s@) == chars_enc(sprev) + char_le(c));
        assert forall|x: Seq<char>|
            (x.len() == n && pos + 8 * (n as int) <= data@.len() && data@.subrange(
                pos as int,
                pos + 8 * (n as int),
            ) == chars_enc(x)) implies s@ =~= x by {
            lemma_chars_enc_len(x);
            lemma_chars_enc_len(x.drop_last());
            assert(chars_enc(x) == chars_enc(x.drop_last()) + char_le(x.last()));
            lemma_subrange_decompose(data@, pos as int, 8 * (n - 1), 8);
            lemma_concat_split(
                data@.subrange(pos as int, pos + 8 * (n - 1)),
                data@.subrange(pos + 8 * (n - 1), pos + 8 * (n as int)),
                chars_enc(x.drop_last()),
                char_le(x.last()),
            );
            assert(sprev == x.drop_last());
            assert(c == x.last());
        }
    }
    Some((s, p2))
}

fn read_string(data: &Vec<u8>, pos: usize) -> (r: Option<(String, usize)>)
    ensures
        r matches Some(p) ==> pos <= p.1 <= data@.len() && data@.subrange(pos as int, p.1 as int)
            == str_enc(p.0@),
        forall|x: Seq<char>|
            (pos + str_enc(x).len() <= data@.len() && data@.subrange(
                pos as int,
                pos + str_enc(x).len(),
            ) == str_enc(x)) ==> (r is Some && r.unwrap().0@ == x && r.unwrap().1 == pos + str_enc(
                x,
            ).len()),
{
    let dl: usize = data.len();
    let (n, p1) = match read_u64(data, pos) {
        Some(x) => x,
        None => {
            return None;
        },
    };
    let res = match read_chars(data, p1, n) {
        Some(x) => x,
        None => {
            proof {
                assert forall|x: Seq<char>|
                    (pos + str_enc(x).len() <= data@.len() && data@.subrange(
                        pos as int,
                        pos + str_enc(x).len(),
                    ) == str_enc(x)) implies false by {
                    lemma_chars_enc_len(x);
                    lemma_subrange_decompose(data@, pos as int, 8, chars_enc(x).len() as int);
                    lemma_concat_split(
                        data@.subrange(pos as int, pos + 8),
                        data@.subrange(pos + 8, pos + str_enc(x).len()),
                        u64_le(x.len() as u64),
                        chars_enc(x),
                    );
                    lemma_u64_le_injective(n, x.len() as u64);
                    assert(x.len() == n as nat);
                }
            }
            return None;
        },
    };
    let (s, p2) = res;
    proof {
        lemma_chars_enc_len(s@);
        assert(data@.subrange(pos as int, p2 as int) =~= data@.subrange(pos as int, p1 as int)
            + data@.subrange(p1 as int, p2 as int));
        assert(data@.subrange(pos as int, p2 as int) == str_enc(s@));
        assert forall|x: Seq<char>|
            (pos + str_enc(x).len() <= data@.len() && data@.subrange(
                pos as int,
                pos + str_enc(x).len(),
            ) == str_enc(x)) implies (s@ == x && p2 == pos + str_enc(x).len()) by {
            lemma_chars_enc_len(x);
            lemma_subrange_decompose(data@, pos as int, 8, chars_enc(x).len() as int);
            lemma_concat_split(
                data@.subrange(pos as int, pos + 8),
                data@.subrange(pos + 8, pos + str_enc(x).len()),
                u64_le(x.len() as u64),
                chars_enc(x),
            );
            lemma_u64_le_injective(n, x.len() as u64);
            assert(x.len() == n as nat);
        }
    }
    Some((s, p2))
}

fn read_bytes(data: &Vec<u8>, pos: usize) -> (r: Option<(Vec<u8>, usize)>)
    ensures
        r matches Some(p) ==> pos <= p.1 <= data@.len() && data@.subrange(pos as int, p.1 as int)
            == bytes_enc(p.0@),
        forall|b: Seq<u8>|
            (pos + bytes_enc(b).len() <= data@.len() && data@.subrange(
                pos as int,
                pos + bytes_enc(b).len(),
            ) == bytes_enc(b)) ==> (r is Some && r.unwrap().0@ == b && r.unwrap().1 == pos
                + bytes_enc(b).len()),
{
    let (n, p1) = match read_u64(data, pos) {
        Some(x) => x,
        None => {
            return None;
        },
    };
    let rem = data.len() - p1;
    if n > rem as u64 {
        proof {
            assert forall|b: Seq<u8>|
                (pos + bytes_enc(b).len() <= data@.len() && data@.subrange(
                    pos as int,
                    pos + bytes_enc(b).len(),
                ) == bytes_enc(b)) implies false by {
                lemma_subrange_decompose(data@, pos as int, 8, b.len() as int);
                lemma_concat_split(
                    data@.subrange(pos as int, pos + 8),
                    data@.subrange(pos + 8, pos + bytes_enc(b).len()),
                    u64_le(b.len() as u64),
                    b,
                );
                lemma_u64_le_injective(n, b.len() as u64);
            }
        }
        return None;
    }
    let nn: usize = n as usize;
    let res = match read_raw(data, p1, nn) {
        Some(x) => x,
        None => {
            return None;
        },
    };
    let (v, p2) = res;
    proof {
        assert(data@.subrange(pos as int, p2 as int) =~= data@.subrange(pos as int, p1 as int)
            + data@.subrange(p1 as int, p2 as int));
        assert(data@.subrange(pos as int, p2 as int) == bytes_enc(v@));
        assert forall|b: Seq<u8>|
            (pos + bytes_enc(b).len() <= data@.len() && data@.subrange(
                pos as int,
                pos + bytes_enc(b).len(),
            ) == bytes_enc(b)) implies (v@ == b && p2 == pos + bytes_enc(b).len()) by {
            lemma_subrange_decompose(data@, pos as int, 8, b.len() as int);
            lemma_concat_split(
                data@.subrange(pos as int, pos + 8),
                data@.subrange(pos + 8, pos + bytes_enc(b).len()),
                u64_le(b.len() as u64),
                b,
            );
            lemma_u64_le_injective(n, b.len() as u64);
        }
    }
    Some((v, p2))
}

/// The tag byte an extension encodes to.
pub open spec fn ext_tag(e: ExtensionView) -> u8 {
    match e {
        ExtensionView::SubjectKeyIdentifier { .. } => 1,
        ExtensionView::AuthorityKeyIdentifier { .. } => 2,
        ExtensionView::AuthorityKeyIdentifierFull { .. } => 3,
        ExtensionView::BasicConstraints { .. } => 4,
        ExtensionView::KeyUsage { .. } => 5,
        ExtensionView::ExtendedKeyUsageServerAuth => 6,
        ExtensionView::NetscapeCertType { .. } => 7,
        ExtensionView::NetscapeComment { .. } => 8,
        ExtensionView::SubjectAltNames { .. } => 9,
    }
}

proof fn lemma_ext_enc_shape(e: ExtensionView)
    ensures
        ext_enc(e).len() >= 1,
        ext_enc(e)[0] == ext_tag(e),
        ext_tag(e) == 1 ==> e is SubjectKeyIdentifier,
        ext_tag(e) == 2 ==> e is AuthorityKeyIdentifier,
        ext_tag(e) == 3 ==> e is AuthorityKeyIdentifierFull,
        ext_tag(e) == 4 ==> e is BasicConstraints,
        ext_tag(e) == 5 ==> e is KeyUsage,
        ext_tag(e) == 6 ==> e is ExtendedKeyUsageServerAuth,
        ext_tag(e) == 7 ==> e is NetscapeCertType,
        ext_tag(e) == 8 ==> e is NetscapeComment,
        ext_tag(e) == 9 ==> e is SubjectAltNames,
{
    match e {
        ExtensionView::SubjectKeyIdentifier { .. } => {},
        ExtensionView::AuthorityKeyIdentifier { .. } => {},
        ExtensionView::AuthorityKeyIdentifierFull { .. } => {},
        ExtensionView::BasicConstraints { .. } => {},
        ExtensionView::KeyUsage { .. } => {},
        ExtensionView::ExtendedKeyUsageServerAuth => {},
        ExtensionView::NetscapeCertType { .. } => {},
        ExtensionView::NetscapeComment { .. } => {},
        ExtensionView::SubjectAltNames { .. } => {},
    }
}

proof fn lemma_dn_entries_cat_len(s: Seq<DnEntryView>)
    ensures
        dn_entries_cat(s).len() >= s.len(),
    decreases s.len(),
{
    if s.len() > 0 {
        lemma_dn_entries_cat_len(s.drop_last());
    }
}

proof fn lemma_strs_cat_len(v: Seq<Seq<char>>)
    ensures
        strs_cat(v).len() >= v.len(),
    decreases v.len(),
{
    if v.len() > 0 {
        lemma_strs_cat_len(v.drop_last());
    }
}

proof fn lemma_exts_cat_len(s: Seq<ExtensionView>)
    ensures
        exts_cat(s).len() >= s.len(),
    decreases s.len(),
{
    if s.len() > 0 {
        lemma_exts_cat_len(s.drop_last());
        lemma_ext_enc_shape(s.last());
    }
}

fn read_dn_entry(data: &Vec<u8>, pos: usize) -> (r: Option<(DnEntry, usize)>)
    ensures
        r matches Some(p) ==> pos <= p.1 <= data@.len() && data@.subrange(pos as int, p.1 as int)
            == dn_entry_enc(dn_entry_view(p.0)),
        forall|ev: DnEntryView|
            (pos + dn_entry_enc(ev).len() <= data@.len() && data@.subrange(
                pos as int,
                pos + dn_entry_enc(ev).len(),
            ) == dn_entry_enc(ev)) ==> (r is Some && dn_entry_view(r.unwrap().0) == ev
                && r.unwrap().1 == pos + dn_entry_enc(ev).len()),
{
    let pr = match read_attr(data, pos) {
        Some(x) => x,
        None => {
            proof {
                assert forall|ev: DnEntryView|
                    (pos + dn_entry_enc(ev).len() <= data@.len() && data@.subrange(
                        pos as int,
                        pos + dn_entry_enc(ev).len(),
                    ) == dn_entry_enc(ev)) implies false by {
                    assert(data@.subrange(pos as int, pos + dn_entry_enc(ev).len())[0]
                        == dn_entry_enc(ev)[0]);
                    assert(data@[pos as int] == attr_tag(ev.attr));
                    assert(attr_of_tag(attr_tag(ev.attr)) == Some(ev.attr));
                }
            }
            return None;
        },
    };
    let (a, p1) = pr;
    let sr = match read_string(data, p1) {
        Some(x) => x,
        None => {
            proof {
                assert forall|ev: DnEntryView|
                    (pos + dn_entry_enc(ev).len() <= data@.len() && data@.subrange(
                        pos as int,
                        pos + dn_entry_enc(ev).len(),
                    ) == dn_entry_enc(ev)) implies false by {
                    lemma_subrange_decompose(data@, pos as int, 1, str_enc(ev.value).len() as int);
                    lemma_concat_split(
                        data@.subrange(pos as int, pos + 1),
                        data@.subrange(pos + 1, pos + dn_entry_enc(ev).len()),
                        seq![attr_tag(ev.attr)],
                        str_enc(ev.value),
                    );
                }
            }
            return None;
        },
    };
    let (s, p2) = sr;
    proof {
        assert(data@.subrange(pos as int, p2 as int) =~= data@.subrange(pos as int, p1 as int)
            + data@.subrange(p1 as int, p2 as int));
        assert(data@.subrange(pos as int, p1 as int) =~= seq![attr_tag(a)]);
        assert forall|ev: DnEntryView|
            (pos + dn_entry_enc(ev).len() <= data@.len() && data@.subrange(
                pos as int,
                pos + dn_entry_enc(ev).len(),
            ) == dn_entry_enc(ev)) implies (dn_entry_view(
            DnEntry { attr: a, value: s },
        ) == ev && p2 == pos + dn_entry_enc(ev).len()) by {
            lemma_subrange_decompose(data@, pos as int, 1, str_enc(ev.value).len() as int);
            lemma_concat_split(
                data@.subrange(pos as int, pos + 1),
                data@.subrange(pos + 1, pos + dn_entry_enc(ev).len()),
                seq![attr_tag(ev.attr)],
                str_enc(ev.value),
            );
            assert(data@.subrange(pos as int, pos + 1)[0] == (seq![attr_tag(ev.attr)])[0]);
            assert(data@[pos as int] == attr_tag(ev.attr));
            assert(attr_tag(a) == attr_tag(ev.attr));
            assert(a == ev.attr);
            assert(s@ == ev.value);
        }
    }
    Some((DnEntry { attr: a, value: s }, p2))
}

fn read_dn_entries(data: &Vec<u8>, pos: usize, n: u64) -> (r: Option<(Vec<DnEntry>, usize)>)
    ensures
        r matches Some(p) ==> p.0@.len() == n && pos <= p.1 <= data@.len() && data@.subrange(
            pos as int,
            p.1 as int,
        ) == dn_entries_cat(dn_view(p.0@)),
        forall|s: Seq<DnEntryView>|
            (s.len() == n && pos + dn_entries_cat(s).len() <= data@.len() && data@.subrange(
                pos as int,
                pos + dn_entries_cat(s).len(),
            ) == dn_entries_cat(s)) ==> (r is Some && dn_view(r.unwrap().0@) == s && r.unwrap().1
                == pos + dn_entries_cat(s).len()),
    decreases n,
{
    if pos > data.len() {
        return None;
    }
    if n == 0 {
        let v: Vec<DnEntry> = Vec::new();
        proof {
            assert(dn_view(v@) =~= Seq::<DnEntryView>::empty());
            assert(data@.subrange(pos as int, pos as int) =~= dn_entries_cat(dn_view(v@)));
            assert forall|s: Seq<DnEntryView>| s.len() == 0 implies dn_view(v@) =~= s by {}
        }
        return Some((v, pos));
    }
    let prev = match read_dn_entries(data, pos, n - 1) {
        Some(x) => x,
        None => {
            proof {
                assert forall|s: Seq<DnEntryView>|
                    (s.len() == n && pos + dn_entries_cat(s).len() <= data@.len()
                        && data@.subrange(pos as int, pos + dn_entries_cat(s).len())
                        == dn_entries_cat(s)) implies false by {
                    assert(dn_entries_cat(s) == dn_entries_cat(s.drop_last()) + dn_entry_enc(
                        s.last(),
                    ));
                    lemma_subrange_decompose(
                        data@,
                        pos as int,
                        dn_entries_cat(s.drop_last()).len() as int,
                        dn_entry_enc(s.last()).len() as int,
                    );
                    lemma_concat_split(
                        data@.subrange(pos as int, pos + dn_entries_cat(s.drop_last()).len()),
                        data@.subrange(
                            pos + dn_entries_cat(s.drop_last()).len(),
                            pos + dn_entries_cat(s).len(),
                        ),
                        dn_entries_cat(s.drop_last()),
                        dn_entry_enc(s.last()),
                    );
                }
            }
            return None;
        },
    };
    let (mut v, p1) = prev;
    let ghost vprev = dn_view(v@);
    let next = match read_dn_entry(data, p1) {
        Some(x) => x,
        None => {
            proof {
                assert forall|s: Seq<DnEntryView>|
                    (s.len() == n && pos + dn_entries_cat(s).len() <= data@.len()
                        && data@.subrange(pos as int, pos + dn_entries_cat(s).len())
                        == dn_entries_cat(s)) implies false by {
                    assert(dn_entries_cat(s) == dn_entries_cat(s.drop_last()) + dn_entry_enc(
                        s.last(),
                    ));
                    lemma_subrange_decompose(
                        data@,
                        pos as int,
                        dn_entries_cat(s.drop_last()).len() as int,
                        dn_entry_enc(s.last()).len() as int,
                    );
                    lemma_concat_split(
                        data@.subrange(pos as int, pos + dn_entries_cat(s.drop_last()).len()),
                        data@.subrange(
                            pos + dn_entries_cat(s.drop_last()).len(),
                            pos + dn_entries_cat(s).len(),
                        ),
                        dn_entries_cat(s.drop_last()),
                        dn_entry_enc(s.last()),
                    );
                    assert(vprev == s.drop_last());
                }
            }
            return None;
        },
    };
    let (e, p2) = next;
    v.push(e);
    proof {
        assert(dn_view(v@).drop_last() =~= vprev);
        assert(dn_view(v@).last() == dn_entry_view(e));
        assert(dn_view(v@) =~= vprev.push(dn_entry_view(e)));
        assert(dn_entries_cat(dn_view(v@)) == dn_entries_cat(vprev) + dn_entry_enc(
            dn_entry_view(e),
        ));
        assert(data@.subrange(pos as int, p2 as int) =~= data@.subrange(pos as int, p1 as int)
            + data@.subrange(p1 as int, p2 as int));
        assert forall|s: Seq<DnEntryView>|
            (s.len() == n && pos + dn_entries_cat(s).len() <= data@.len() && data@.subrange(
                pos as int,
                pos + dn_entries_cat(s).len(),
            ) == dn_entries_cat(s)) implies (dn_view(v@) =~= s && p2 == pos + dn_entries_cat(
            s,
        ).len()) by {
            assert(dn_entries_cat(s) == dn_entries_cat(s.drop_last()) + dn_entry_enc(s.last()));
            lemma_subrange_decompose(
                data@,
                pos as int,
                dn_entries_cat(s.drop_last()).len() as int,
                dn_entry_enc(s.last()).len() as int,
            );
            lemma_concat_split(
                data@.subrange(pos as int, pos + dn_entries_cat(s.drop_last()).len()),
                data@.subrange(
                    pos + dn_entries_cat(s.drop_last()).len(),
                    pos + dn_entries_cat(s).len(),
                ),
                dn_entries_cat(s.drop_last()),
                dn_entry_enc(s.last()),
            );
            assert(vprev == s.drop_last());
            assert(dn_entry_view(e) == s.last());
            assert(s =~= s.drop_last().push(s.last()));
        }
    }
    Some((v, p2))
}

fn read_dn(data: &Vec<u8>, pos: usize) -> (r: Option<(Vec<DnEntry>, usize)>)
    ensures
        r matches Some(p) ==> pos <= p.1 <= data@.len() && data@.subrange(pos as int, p.1 as int)
            == dn_enc(dn_view(p.0@)),
        forall|s: Seq<DnEntryView>|
            (pos + dn_enc(s).len() <= data@.len() && data@.subrange(
                pos as int,
                pos + dn_enc(s).len(),
            ) == dn_enc(s)) ==> (r is Some && dn_view(r.unwrap().0@) == s && r.unwrap().1 == pos
                + dn_enc(s).len()),
{
    let dl: usize = data.len();
    let (n, p1) = match read_u64(data, pos) {
        Some(x) => x,
        None => {
            return None;
        },
    };
    let res = match read_dn_entries(data, p1, n) {
        Some(x) => x,
        None => {
            proof {
                assert forall|s: Seq<DnEntryView>|
                    (pos + dn_enc(s).len() <= data@.len() && data@.subrange(
                        pos as int,
                        pos + dn_enc(s).len(),
                    ) == dn_enc(s)) implies false by {
                    lemma_dn_entries_cat_len(s);
                    lemma_subrange_decompose(data@, pos as int, 8, dn_entries_cat(s).len() as int);
                    lemma_concat_split(
                        data@.subrange(pos as int, pos + 8),
                        data@.subrange(pos + 8, pos + dn_enc(s).len()),
                        u64_le(s.len() as u64),
                        dn_entries_cat(s),
                    );
                    lemma_u64_le_injective(n, s.len() as u64);
                    assert(s.len() == n as nat);
                }
            }
            return None;
        },
    };
    let (v, p2) = res;
    proof {
        assert(data@.subrange(pos as int, p2 as int) =~= data@.subrange(pos as int, p1 as int)
            + data@.subrange(p1 as int, p2 as int));
        assert(data@.subrange(pos as int, p2 as int) == dn_enc(dn_view(v@)));
        assert forall|s: Seq<DnEntryView>|
            (pos + dn_enc(s).len() <= data@.len() && data@.subrange(
                pos as int,
                pos + dn_enc(s).len(),
            ) == dn_enc(s)) implies (dn_view(v@) == s && p2 == pos + dn_enc(s).len()) by {
            lemma_dn_entries_cat_len(s);
            lemma_subrange_decompose(data@, pos as int, 8, dn_entries_cat(s).len() as int);
            lemma_concat_split(
                data@.subrange(pos as int, pos + 8),
                data@.subrange(pos + 8, pos + dn_enc(s).len()),
                u64_le(s.len() as u64),
                dn_entries_cat(s),
            );
            lemma_u64_le_injective(n, s.len() as u64);
            assert(s.len() == n as nat);
        }
    }
    Some((v, p2))
}

fn read_str_items(data: &Vec<u8>, pos: usize, n: u64) -> (r: Option<(Vec<String>, usize)>)
    ensures
        r matches Some(p) ==> p.0@.len() == n && pos <= p.1 <= data@.len() && data@.subrange(
            pos as int,
            p.1 as int,
        ) == strs_cat(p.0.deep_view()),
        forall|s: Seq<Seq<char>>|
            (s.len() == n && pos + strs_cat(s).len() <= data@.len() && data@.subrange(
                pos as int,
                pos + strs_cat(s).len(),
            ) == strs_cat(s)) ==> (r is Some && r.unwrap().0.deep_view() == s && r.unwrap().1
                == pos + strs_cat(s).len()),
    decreases n,
{
    if pos > data.len() {
        return None;
    }
    if n == 0 {
        let v: Vec<String> = Vec::new();
        proof {
            assert(v.deep_view() =~= Seq::<Seq<char>>::empty());
            assert(data@.subrange(pos as int, pos as int) =~= strs_cat(v.deep_view()));
            assert forall|s: Seq<Seq<char>>| s.len() == 0 implies v.deep_view() =~= s by {}
        }
        return Some((v, pos));
    }
    let prev = match read_str_items(data, pos, n - 1) {
        Some(x) => x,
        None => {
            proof {
                assert forall|s: Seq<Seq<char>>|
                    (s.len() == n && pos + strs_cat(s).len() <= data@.len() && data@.subrange(
                        pos as int,
                        pos + strs_cat(s).len(),
                    ) == strs_cat(s)) implies false by {
                    assert(strs_cat(s) == strs_cat(s.drop_last()) + str_enc(s.last()));
                    lemma_subrange_decompose(
                        data@,
                        pos as int,
                        strs_cat(s.drop_last()).len() as int,
                        str_enc(s.last()).len() as int,
                    );
                    lemma_concat_split(
                        data@.subrange(pos as int, pos + strs_cat(s.drop_last()).len()),
                        data@.subrange(pos + strs_cat(s.drop_last()).len(), pos + strs_cat(s).len()),
                        strs_cat(s.drop_last()),
                        str_enc(s.last()),
                    );
                }
            }
            return None;
        },
    };
    let (mut v, p1) = prev;
    let ghost vprev = v.deep_view();
    let next = match read_string(data, p1) {
        Some(x) => x,
        None => {
            proof {
                assert forall|s: Seq<Seq<char>>|
                    (s.len() == n && pos + strs_cat(s).len() <= data@.len() && data@.subrange(
                        pos as int,
                        pos + strs_cat(s).len(),
                    ) == strs_cat(s)) implies false by {
                    assert(strs_cat(s) == strs_cat(s.drop_last()) + str_enc(s.last()));
                    lemma_subrange_decompose(
                        data@,
                        pos as int,
                        strs_cat(s.drop_last()).len() as int,
                        str_enc(s.last()).len() as int,
                    );
                    lemma_concat_split(
                        data@.subrange(pos as int, pos + strs_cat(s.drop_last()).len()),
                        data@.subrange(pos + strs_cat(s.drop_last()).len(), pos + strs_cat(s).len()),
                        strs_cat(s.drop_last()),
                        str_enc(s.last()),
                    );
                    assert(vprev == s.drop_last());
                }
            }
            return None;
        },
    };
    let (e, p2) = next;
    v.push(e);
    proof {
        assert(v.deep_view().drop_last() =~= vprev);
        assert(v.deep_view().last() == e@);
        assert(v.deep_view() =~= vprev.push(e@));
        assert(strs_cat(v.deep_view()) == strs_cat(vprev) + str_enc(e@));
        assert(data@.subrange(pos as int, p2 as int) =~= data@.subrange(pos as int, p1 as int)
            + data@.subrange(p1 as int, p2 as int));
        assert forall|s: Seq<Seq<char>>|
            (s.len() == n && pos + strs_cat(s).len() <= data@.len() && data@.subrange(
                pos as int,
                pos + strs_cat(s).len(),
            ) == strs_cat(s)) implies (v.deep_view() =~= s && p2 == pos + strs_cat(s).len()) by {
            assert(strs_cat(s) == strs_cat(s.drop_last()) + str_enc(s.last()));
            lemma_subrange_decompose(
                data@,
                pos as int,
                strs_cat(s.drop_last()).len() as int,
                str_enc(s.last()).len() as int,
            );
            lemma_concat_split(
                data@.subrange(pos as int, pos + strs_cat(s.drop_last()).len()),
                data@.subrange(pos + strs_cat(s.drop_last()).len(), pos + strs_cat(s).len()),
                strs_cat(s.drop_last()),
                str_enc(s.last()),
            );
            assert(vprev == s.drop_last());
            assert(e@ == s.last());
            assert(s =~= s.drop_last().push(s.last()));
        }
    }
    Some((v, p2))
}

fn read_strs(data: &Vec<u8>, pos: usize) -> (r: Option<(Vec<String>, usize)>)
    ensures
        r matches Some(p) ==> pos <= p.1 <= data@.len() && data@.subrange(pos as int, p.1 as int)
            == strs_enc(p.0.deep_view()),
        forall|s: Seq<Seq<char>>|
            (pos + strs_enc(s).len() <= data@.len() && data@.subrange(
                pos as int,
                pos + strs_enc(s).len(),
            ) == strs_enc(s)) ==> (r is Some && r.unwrap().0.deep_view() == s && r.unwrap().1
                == pos + strs_enc(s).len()),
{
    let dl: usize = data.len();
    let (n, p1) = match read_u64(data, pos) {
        Some(x) => x,
        None => {
            return None;
        },
    };
    let res = match read_str_items(data, p1, n) {
        Some(x) => x,
        None => {
            proof {
                assert forall|s: Seq<Seq<char>>|
                    (pos + strs_enc(s).len() <= data@.len() && data@.subrange(
                        pos as int,
                        pos + strs_enc(s).len(),
                    ) == strs_enc(s)) implies false by {
                    lemma_strs_cat_len(s);
                    lemma_subrange_decompose(data@, pos as int, 8, strs_cat(s).len() as int);
                    lemma_concat_split(
                        data@.subrange(pos as int, pos + 8),
                        data@.subrange(pos + 8, pos + strs_enc(s).len()),
                        u64_le(s.len() as u64),
                        strs_cat(s),
                    );
                    lemma_u64_le_injective(n, s.len() as u64);
                    assert(s.len() == n as nat);
                }
            }
            return None;
        },
    };
    let (v, p2) = res;
    proof {
        assert(data@.subrange(pos as int, p2 as int) =~= data@.subrange(pos as int, p1 as int)
            + data@.subrange(p1 as int, p2 as int));
        assert(data@.subrange(pos as int, p2 as int) == strs_enc(v.deep_view()));
        assert forall|s: Seq<Seq<char>>|
            (pos + strs_enc(s).len() <= data@.len() && data@.subrange(
                pos as int,
                pos + strs_enc(s).len(),
            ) == strs_enc(s)) implies (v.deep_view() == s && p2 == pos + strs_enc(s).len()) by {
            lemma_strs_cat_len(s);
            lemma_subrange_decompose(data@, pos as int, 8, strs_cat(s).len() as int);
            lemma_concat_split(
                data@.subrange(pos as int, pos + 8),
                data@.subrange(pos + 8, pos + strs_enc(s).len()),
                u64_le(s.len() as u64),
                strs_cat(s),
            );
            lemma_u64_le_injective(n, s.len() as u64);
            assert(s.len() == n as nat);
        }
    }
    Some((v, p2))
}

proof fn lemma_u128_le_injective(a: u128, b: u128)
    requires
        u128_le(a) == u128_le(b),
    ensures
        a == b,
{
    lemma_u128_split(a);
    lemma_u128_split(b);
    lemma_concat_split(
        u64_le((a % 0x1_0000_0000_0000_0000) as u64),
        u64_le((a / 0x1_0000_0000_0000_0000) as u64),
        u64_le((b % 0x1_0000_0000_0000_0000) as u64),
        u64_le((b / 0x1_0000_0000_0000_0000) as u64),
    );
    lemma_u64_le_injective(
        (a % 0x1_0000_0000_0000_0000) as u64,
        (b % 0x1_0000_0000_0000_0000) as u64,
    );
    lemma_u64_le_injective(
        (a / 0x1_0000_0000_0000_0000) as u64,
        (b / 0x1_0000_0000_0000_0000) as u64,
    );
}


/// Whether the bytes from `pos` begin with the encoding of the extension.
pub open spec fn ext_prefix_at(data: Seq<u8>, pos: int, ev: ExtensionView) -> bool {
    pos + ext_enc(ev).len() <= data.len() && data.subrange(pos, pos + ext_enc(ev).len())
        == ext_enc(ev)
}

fn read_ext(data: &Vec<u8>, pos: usize) -> (r: Option<(Extension, usize)>)
    ensures
        r matches Some(p) ==> pos <= p.1 <= data@.len() && data@.subrange(pos as int, p.1 as int)
            == ext_enc(ext_view(p.0)),
        forall|ev: ExtensionView|
            ext_prefix_at(data@, pos as int, ev) ==> (r is Some && ext_view(r.unwrap().0) == ev
                && r.unwrap().1 == pos + ext_enc(ev).len()),
{
    if pos >= data.len() {
        proof {
            assert forall|ev: ExtensionView| ext_prefix_at(data@, pos as int, ev) implies false by {
                lemma_ext_enc_shape(ev);
            }
        }
        return None;
    }
    let t = data[pos];
    proof {
        assert forall|ev: ExtensionView| ext_prefix_at(data@, pos as int, ev) implies ext_tag(ev)
            == t by {
            lemma_ext_enc_shape(ev);
            assert(data@.subrange(pos as int, pos + ext_enc(ev).len())[0] == ext_enc(ev)[0]);
        }
    }
    if t == 1 {
        read_ext_t1(data, pos)
    } else if t == 2 {
        read_ext_t2(data, pos)
    } else if t == 3 {
        read_ext_t3(data, pos)
    } else if t == 4 {
        read_ext_t4(data, pos)
    } else if t == 5 {
        read_ext_t5(data, pos)
    } else if t == 6 {
        read_ext_t6(data, pos)
    } else if t == 7 {
        read_ext_t7(data, pos)
    } else if t == 8 {
        read_ext_t8(data, pos)
    } else if t == 9 {
        read_ext_t9(data, pos)
    } else {
        proof {
            assert forall|ev: ExtensionView| ext_prefix_at(data@, pos as int, ev) implies false by {
                lemma_ext_enc_shape(ev);
                assert(data@.subrange(pos as int, pos + ext_enc(ev).len())[0] == ext_enc(ev)[0]);
            }
        }
        None
    }
}

#[verifier::rlimit(100)]
fn read_ext_t1(data: &Vec<u8>, pos: usize) -> (r: Option<(Extension, usize)>)
    requires
        pos < data@.len(),
        data@[pos as int] == 1,
    ensures
        r matches Some(p) ==> pos <= p.1 <= data@.len() && data@.subrange(pos as int, p.1 as int)
            == ext_enc(ext_view(p.0)),
        forall|ev: ExtensionView|
            ext_prefix_at(data@, pos as int, ev) ==> (r is Some && ext_view(r.unwrap().0) == ev
                && r.unwrap().1 == pos + ext_enc(ev).len()),
{
    let dl: usize = data.len();
    let p0 = pos + 1;
    let res = match read_bytes(data, p0) {
        Some(x) => x,
        None => {
            proof {
                assert forall|ev: ExtensionView| ext_prefix_at(data@, pos as int, ev) implies false by {
                    lemma_ext_enc_shape(ev);
                    assert(data@.subrange(pos as int, pos + ext_enc(ev).len())[0] == ext_enc(ev)[0]);
                    let k = ev->SubjectKeyIdentifier_key_id;
                    assert(ext_enc(ev) == seq![1u8] + bytes_enc(k));
                    lemma_subrange_decompose(data@, pos as int, 1, bytes_enc(k).len() as int);
                    lemma_concat_split(
                        data@.subrange(pos as int, pos + 1),
                        data@.subrange(pos + 1, pos + ext_enc(ev).len()),
                        seq![1u8],
                        bytes_enc(k),
                    );
                }
            }
            return None;
        },
    };
    let (k, p2) = res;
    let e = Extension::SubjectKeyIdentifier { key_id: k };
    proof {
        assert(data@.subrange(pos as int, p2 as int) =~= data@.subrange(pos as int, p0 as int)
            + data@.subrange(p0 as int, p2 as int));
        assert(data@.subrange(pos as int, p0 as int) =~= seq![1u8]);
        assert(data@.subrange(pos as int, p2 as int) == ext_enc(ext_view(e)));
        assert forall|ev: ExtensionView| ext_prefix_at(data@, pos as int, ev) implies (ext_view(e)
            == ev && p2 == pos + ext_enc(ev).len()) by {
            lemma_ext_enc_shape(ev);
            assert(data@.subrange(pos as int, pos + ext_enc(ev).len())[0] == ext_enc(ev)[0]);
            let kk = ev->SubjectKeyIdentifier_key_id;
            assert(ext_enc(ev) == seq![1u8] + bytes_enc(kk));
            lemma_subrange_decompose(data@, pos as int, 1, bytes_enc(kk).len() as int);
            lemma_concat_split(
                data@.subrange(pos as int, pos + 1),
                data@.subrange(pos + 1, pos + ext_enc(ev).len()),
                seq![1u8],
                bytes_enc(kk),
            );
        }
    }
    Some((e, p2))
}

#[verifier::rlimit(100)]
fn read_ext_t2(data: &Vec<u8>, pos: usize) -> (r: Option<(Extension, usize)>)
    requires
        pos < data@.len(),
        data@[pos as int] == 2,
    ensures
        r matches Some(p) ==> pos <= p.1 <= data@.len() && data@.subrange(pos as int, p.1 as int)
            == ext_enc(ext_view(p.0)),
        forall|ev: ExtensionView|
            ext_prefix_at(data@, pos as int, ev) ==> (r is Some && ext_view(r.unwrap().0) == ev
                && r.unwrap().1 == pos + ext_enc(ev).len()),
{
    let dl: usize = data.len();
    let p0 = pos + 1;
    let res = match read_bytes(data, p0) {
        Some(x) => x,
        None => {
            proof {
                assert forall|ev: ExtensionView| ext_prefix_at(data@, pos as int, ev) implies false by {
                    lemma_ext_enc_shape(ev);
                    assert(data@.subrange(pos as int, pos + ext_enc(ev).len())[0] == ext_enc(ev)[0]);
                    let k = ev->AuthorityKeyIdentifier_key_id;
                    assert(ext_enc(ev) == seq![2u8] + bytes_enc(k));
                    lemma_subrange_decompose(data@, pos as int, 1, bytes_enc(k).len() as int);
                    lemma_concat_split(
                        data@.subrange(pos as int, pos + 1),
                        data@.subrange(pos + 1, pos + ext_enc(ev).len()),
                        seq![2u8],
                        bytes_enc(k),
                    );
                }
            }
            return None;
        },
    };
    let (k, p2) = res;
    let e = Extension::AuthorityKeyIdentifier { key_id: k };
    proof {
        assert(data@.subrange(pos as int, p2 as int) =~= data@.subrange(pos as int, p0 as int)
            + data@.subrange(p0 as int, p2 as int));
        assert(data@.subrange(pos as int, p0 as int) =~= seq![2u8]);
        assert(data@.subrange(pos as int, p2 as int) == ext_enc(ext_view(e)));
        assert forall|ev: ExtensionView| ext_prefix_at(data@, pos as int, ev) implies (ext_view(e)
            == ev && p2 == pos + ext_enc(ev).len()) by {
            lemma_ext_enc_shape(ev);
            assert(data@.subrange(pos as int, pos + ext_enc(ev).len())[0] == ext_enc(ev)[0]);
            let kk = ev->AuthorityKeyIdentifier_key_id;
            assert(ext_enc(ev) == seq![2u8] + bytes_enc(kk));
            lemma_subrange_decompose(data@, pos as int, 1, bytes_enc(kk).len() as int);
            lemma_concat_split(
                data@.subrange(pos as int, pos + 1),
                data@.subrange(pos + 1, pos + ext_enc(ev).len()),
                seq![2u8],
                bytes_enc(kk),
            );
        }
    }
    Some((e, p2))
}

#[verifier::rlimit(100)]
fn read_ext_t3(data: &Vec<u8>, pos: usize) -> (r: Option<(Extension, usize)>)
    requires
        pos < data@.len(),
        data@[pos as int] == 3,
    ensures
        r matches Some(p) ==> pos <= p.1 <= data@.len() && data@.subrange(pos as int, p.1 as int)
            == ext_enc(ext_view(p.0)),
        forall|ev: ExtensionView|
            ext_prefix_at(data@, pos as int, ev) ==> (r is Some && ext_view(r.unwrap().0) == ev
                && r.unwrap().1 == pos + ext_enc(ev).len()),
{
    let dl: usize = data.len();
    let p0 = pos + 1;
    let r1 = match read_bytes(data, p0) {
        Some(x) => x,
        None => {
            proof {
                assert forall|ev: ExtensionView| ext_prefix_at(data@, pos as int, ev) implies false by {
                    lemma_ext_enc_shape(ev);
                    assert(data@.subrange(pos as int, pos + ext_enc(ev).len())[0] == ext_enc(ev)[0]);
                    lemma_akif_split(data@, pos as int, ev);
                }
            }
            return None;
        },
    };
    let (k, pa) = r1;
    let r2 = match read_dn(data, pa) {
        Some(x) => x,
        None => {
            proof {
                assert forall|ev: ExtensionView| ext_prefix_at(data@, pos as int, ev) implies false by {
                    lemma_ext_enc_shape(ev);
                    assert(data@.subrange(pos as int, pos + ext_enc(ev).len())[0] == ext_enc(ev)[0]);
                    lemma_akif_split(data@, pos as int, ev);
                }
            }
            return None;
        },
    };
    let (d, pb) = r2;
    let r3 = match read_u128(data, pb) {
        Some(x) => x,
        None => {
            proof {
                assert forall|ev: ExtensionView| ext_prefix_at(data@, pos as int, ev) implies false by {
                    lemma_ext_enc_shape(ev);
                    assert(data@.subrange(pos as int, pos + ext_enc(ev).len())[0] == ext_enc(ev)[0]);
                    lemma_akif_split(data@, pos as int, ev);
                }
            }
            return None;
        },
    };
    let (sr, p2) = r3;
    let e = Extension::AuthorityKeyIdentifierFull { key_id: k, issuer_dn: d, issuer_serial: sr };
    proof {
        assert(data@.subrange(pos as int, p2 as int) =~= data@.subrange(pos as int, p0 as int)
            + data@.subrange(p0 as int, pa as int) + data@.subrange(pa as int, pb as int)
            + data@.subrange(pb as int, p2 as int));
        assert(data@.subrange(pos as int, p0 as int) =~= seq![3u8]);
        assert(data@.subrange(pos as int, p2 as int) == ext_enc(ext_view(e)));
        assert forall|ev: ExtensionView| ext_prefix_at(data@, pos as int, ev) implies (ext_view(e)
            == ev && p2 == pos + ext_enc(ev).len()) by {
            lemma_ext_enc_shape(ev);
            assert(data@.subrange(pos as int, pos + ext_enc(ev).len())[0] == ext_enc(ev)[0]);
            lemma_akif_split(data@, pos as int, ev);
            assert(dn_view(d@) == ev->AuthorityKeyIdentifierFull_issuer_dn);
            lemma_u128_le_injective(sr, ev->AuthorityKeyIdentifierFull_issuer_serial);
        }
    }
    Some((e, p2))
}

#[verifier::rlimit(100)]
fn read_ext_t4(data: &Vec<u8>, pos: usize) -> (r: Option<(Extension, usize)>)
    requires
        pos < data@.len(),
        data@[pos as int] == 4,
    ensures
        r matches Some(p) ==> pos <= p.1 <= data@.len() && data@.subrange(pos as int, p.1 as int)
            == ext_enc(ext_view(p.0)),
        forall|ev: ExtensionView|
            ext_prefix_at(data@, pos as int, ev) ==> (r is Some && ext_view(r.unwrap().0) == ev
                && r.unwrap().1 == pos + ext_enc(ev).len()),
{
    let dl: usize = data.len();
    let p0 = pos + 1;
    let r1 = match read_bool(data, p0) {
        Some(x) => x,
        None => {
            proof {
                assert forall|ev: ExtensionView| ext_prefix_at(data@, pos as int, ev) implies false by {
                    lemma_ext_enc_shape(ev);
                    assert(data@.subrange(pos as int, pos + ext_enc(ev).len())[0] == ext_enc(ev)[0]);
                    assert(data@.subrange(pos as int, pos + 3)[1] == ext_enc(ev)[1]);
                }
            }
            return None;
        },
    };
    let (critical, pa) = r1;
    let r2 = match read_bool(data, pa) {
        Some(x) => x,
        None => {
            proof {
                assert forall|ev: ExtensionView| ext_prefix_at(data@, pos as int, ev) implies false by {
                    lemma_ext_enc_shape(ev);
                    assert(data@.subrange(pos as int, pos + ext_enc(ev).len())[0] == ext_enc(ev)[0]);
                    assert(data@.subrange(pos as int, pos + 3)[2] == ext_enc(ev)[2]);
                }
            }
            return None;
        },
    };
    let (ca, p2) = r2;
    let e = Extension::BasicConstraints { critical, ca };
    proof {
        assert(data@.subrange(pos as int, p2 as int) =~= ext_enc(ext_view(e)));
        assert forall|ev: ExtensionView| ext_prefix_at(data@, pos as int, ev) implies (ext_view(e)
            == ev && p2 == pos + ext_enc(ev).len()) by {
            lemma_ext_enc_shape(ev);
            assert(data@.subrange(pos as int, pos + ext_enc(ev).len())[0] == ext_enc(ev)[0]);
            assert(data@.subrange(pos as int, pos + 3)[1] == ext_enc(ev)[1]);
            assert(data@.subrange(pos as int, pos + 3)[2] == ext_enc(ev)[2]);
        }
    }
    Some((e, p2))
}

#[verifier::rlimit(100)]
fn read_ext_t5(data: &Vec<u8>, pos: usize) -> (r: Option<(Extension, usize)>)
    requires
        pos < data@.len(),
        data@[pos as int] == 5,
    ensures
        r matches Some(p) ==> pos <= p.1 <= data@.len() && data@.subrange(pos as int, p.1 as int)
            == ext_enc(ext_view(p.0)),
        forall|ev: ExtensionView|
            ext_prefix_at(data@, pos as int, ev) ==> (r is Some && ext_view(r.unwrap().0) == ev
                && r.unwrap().1 == pos + ext_enc(ev).len()),
{
    let dl: usize = data.len();
    let p0 = pos + 1;
    let r1 = match read_bool(data, p0) {
        Some(x) => x,
        None => {
            proof {
                assert forall|ev: ExtensionView| ext_prefix_at(data@, pos as int, ev) implies false by {
                    lemma_ext_enc_shape(ev);
                    assert(data@.subrange(pos as int, pos + ext_enc(ev).len())[0] == ext_enc(ev)[0]);
                    assert(data@.subrange(pos as int, pos + 6)[1] == ext_enc(ev)[1]);
                }
            }
            return None;
        },
    };
    let (ds, pa) = r1;
    let r2 = match read_bool(data, pa) {
        Some(x) => x,
        None => {
            proof {
                assert forall|ev: ExtensionView| ext_prefix_at(data@, pos as int, ev) implies false by {
                    lemma_ext_enc_shape(ev);
                    assert(data@.subrange(pos as int, pos + ext_enc(ev).len())[0] == ext_enc(ev)[0]);
                    assert(data@.subrange(pos as int, pos + 6)[2] == ext_enc(ev)[2]);
                }
            }
            return None;
        },
    };
    let (nr, pb) = r2;
    let r3 = match read_bool(data, pb) {
        Some(x) => x,
        None => {
            proof {
                assert forall|ev: ExtensionView| ext_prefix_at(data@, pos as int, ev) implies false by {
                    lemma_ext_enc_shape(ev);
                    assert(data@.subrange(pos as int, pos + ext_enc(ev).len())[0] == ext_enc(ev)[0]);
                    assert(data@.subrange(pos as int, pos + 6)[3] == ext_enc(ev)[3]);
                }
            }
            return None;
        },
    };
    let (ke, pc) = r3;
    let r4 = match read_bool(data, pc) {
        Some(x) => x,
        None => {
            proof {
                assert forall|ev: ExtensionView| ext_prefix_at(data@, pos as int, ev) implies false by {
                    lemma_ext_enc_shape(ev);
                    assert(data@.subrange(pos as int, pos + ext_enc(ev).len())[0] == ext_enc(ev)[0]);
                    assert(data@.subrange(pos as int, pos + 6)[4] == ext_enc(ev)[4]);
                }
            }
            return None;
        },
    };
    let (kcs, pd) = r4;
    let r5 = match read_bool(data, pd) {
        Some(x) => x,
        None => {
            proof {
                assert forall|ev: ExtensionView| ext_prefix_at(data@, pos as int, ev) implies false by {
                    lemma_ext_enc_shape(ev);
                    assert(data@.subrange(pos as int, pos + ext_enc(ev).len())[0] == ext_enc(ev)[0]);
                    assert(data@.subrange(pos as int, pos + 6)[5] == ext_enc(ev)[5]);
                }
            }
            return None;
        },
    };
    let (crl, p2) = r5;
    let e = Extension::KeyUsage {
        digital_signature: ds,
        non_repudiation: nr,
        key_encipherment: ke,
        key_cert_sign: kcs,
        crl_sign: crl,
    };
    proof {
        assert(data@.subrange(pos as int, p2 as int) =~= ext_enc(ext_view(e)));
        assert forall|ev: ExtensionView| ext_prefix_at(data@, pos as int, ev) implies (ext_view(e)
            == ev && p2 == pos + ext_enc(ev).len()) by {
            lemma_ext_enc_shape(ev);
            assert(data@.subrange(pos as int, pos + ext_enc(ev).len())[0] == ext_enc(ev)[0]);
            assert(data@.subrange(pos as int, pos + 6)[1] == ext_enc(ev)[1]);
            assert(data@.subrange(pos as int, pos + 6)[2] == ext_enc(ev)[2]);
            assert(data@.subrange(pos as int, pos + 6)[3] == ext_enc(ev)[3]);
            assert(data@.subrange(pos as int, pos + 6)[4] == ext_enc(ev)[4]);
            assert(data@.subrange(pos as int, pos + 6)[5] == ext_enc(ev)[5]);
        }
    }
    Some((e, p2))
}

#[verifier::rlimit(100)]
fn read_ext_t6(data: &Vec<u8>, pos: usize) -> (r: Option<(Extension, usize)>)
    requires
        pos < data@.len(),
        data@[pos as int] == 6,
    ensures
        r matches Some(p) ==> pos <= p.1 <= data@.len() && data@.subrange(pos as int, p.1 as int)
            == ext_enc(ext_view(p.0)),
        forall|ev: ExtensionView|
            ext_prefix_at(data@, pos as int, ev) ==> (r is Some && ext_view(r.unwrap().0) == ev
                && r.unwrap().1 == pos + ext_enc(ev).len()),
{
    let dl: usize = data.len();
    let p0 = pos + 1;
    let e = Extension::ExtendedKeyUsageServerAuth;
    proof {
        assert(data@.subrange(pos as int, p0 as int) =~= seq![6u8]);
        assert(data@.subrange(pos as int, p0 as int) == ext_enc(ext_view(e)));
        assert forall|ev: ExtensionView| ext_prefix_at(data@, pos as int, ev) implies (ext_view(e)
            == ev && p0 == pos + ext_enc(ev).len()) by {
            lemma_ext_enc_shape(ev);
            assert(data@.subrange(pos as int, pos + ext_enc(ev).len())[0] == ext_enc(ev)[0]);
        }
    }
    Some((e, p0))
}

#[verifier::rlimit(100)]
fn read_ext_t7(data: &Vec<u8>, pos: usize) -> (r: Option<(Extension, usize)>)
    requires
        pos < data@.len(),
        data@[pos as int] == 7,
    ensures
        r matches Some(p) ==> pos <= p.1 <= data@.len() && data@.subrange(pos as int, p.1 as int)
            == ext_enc(ext_view(p.0)),
        forall|ev: ExtensionView|
            ext_prefix_at(data@, pos as int, ev) ==> (r is Some && ext_view(r.unwrap().0) == ev
                && r.unwrap().1 == pos + ext_enc(ev).len()),
{
    let dl: usize = data.len();
    let p0 = pos + 1;
    let res = match read_string(data, p0) {
        Some(x) => x,
        None => {
            proof {
                assert forall|ev: ExtensionView| ext_prefix_at(data@, pos as int, ev) implies false by {
                    lemma_ext_enc_shape(ev);
                    assert(data@.subrange(pos as int, pos + ext_enc(ev).len())[0] == ext_enc(ev)[0]);
                    let x = ev->NetscapeCertType_text;
                    assert(ext_enc(ev) == seq![7u8] + str_enc(x));
                    lemma_subrange_decompose(data@, pos as int, 1, str_enc(x).len() as int);
                    lemma_concat_split(
                        data@.subrange(pos as int, pos + 1),
                        data@.subrange(pos + 1, pos + ext_enc(ev).len()),
                        seq![7u8],
                        str_enc(x),
                    );
                }
            }
            return None;
        },
    };
    let (s, p2) = res;
    let e = Extension::NetscapeCertType { text: s };
    proof {
        assert(data@.subrange(pos as int, p2 as int) =~= data@.subrange(pos as int, p0 as int)
            + data@.subrange(p0 as int, p2 as int));
        assert(data@.subrange(pos as int, p0 as int) =~= seq![7u8]);
        assert(data@.subrange(pos as int, p2 as int) == ext_enc(ext_view(e)));
        assert forall|ev: ExtensionView| ext_prefix_at(data@, pos as int, ev) implies (ext_view(e)
            == ev && p2 == pos + ext_enc(ev).len()) by {
            lemma_ext_enc_shape(ev);
            assert(data@.subrange(pos as int, pos + ext_enc(ev).len())[0] == ext_enc(ev)[0]);
            let x = ev->NetscapeCertType_text;
            assert(ext_enc(ev) == seq![7u8] + str_enc(x));
            lemma_subrange_decompose(data@, pos as int, 1, str_enc(x).len() as int);
            lemma_concat_split(
                data@.subrange(pos as int, pos + 1),
                data@.subrange(pos + 1, pos + ext_enc(ev).len()),
                seq![7u8],
                str_enc(x),
            );
        }
    }
    Some((e, p2))
}

#[verifier::rlimit(100)]
fn read_ext_t8(data: &Vec<u8>, pos: usize) -> (r: Option<(Extension, usize)>)
    requires
        pos < data@.len(),
        data@[pos as int] == 8,
    ensures
        r matches Some(p) ==> pos <= p.1 <= data@.len() && data@.subrange(pos as int, p.1 as int)
            == ext_enc(ext_view(p.0)),
        forall|ev: ExtensionView|
            ext_prefix_at(data@, pos as int, ev) ==> (r is Some && ext_view(r.unwrap().0) == ev
                && r.unwrap().1 == pos + ext_enc(ev).len()),
{
    let dl: usize = data.len();
    let p0 = pos + 1;
    let res = match read_string(data, p0) {
        Some(x) => x,
        None => {
            proof {
                assert forall|ev: ExtensionView| ext_prefix_at(data@, pos as int, ev) implies false by {
                    lemma_ext_enc_shape(ev);
                    assert(data@.subrange(pos as int, pos + ext_enc(ev).len())[0] == ext_enc(ev)[0]);
                    let x = ev->NetscapeComment_text;
                    assert(ext_enc(ev) == seq![8u8] + str_enc(x));
                    lemma_subrange_decompose(data@, pos as int, 1, str_enc(x).len() as int);
                    lemma_concat_split(
                        data@.subrange(pos as int, pos + 1),
                        data@.subrange(pos + 1, pos + ext_enc(ev).len()),
                        seq![8u8],
                        str_enc(x),
                    );
                }
            }
            return None;
        },
    };
    let (s, p2) = res;
    let e = Extension::NetscapeComment { text: s };
    proof {
        assert(data@.subrange(pos as int, p2 as int) =~= data@.subrange(pos as int, p0 as int)
            + data@.subrange(p0 as int, p2 as int));
        assert(data@.subrange(pos as int, p0 as int) =~= seq![8u8]);
        assert(data@.subrange(pos as int, p2 as int) == ext_enc(ext_view(e)));
        assert forall|ev: ExtensionView| ext_prefix_at(data@, pos as int, ev) implies (ext_view(e)
            == ev && p2 == pos + ext_enc(ev).len()) by {
            lemma_ext_enc_shape(ev);
            assert(data@.subrange(pos as int, pos + ext_enc(ev).len())[0] == ext_enc(ev)[0]);
            let x = ev->NetscapeComment_text;
            assert(ext_enc(ev) == seq![8u8] + str_enc(x));
            lemma_subrange_decompose(data@, pos as int, 1, str_enc(x).len() as int);
            lemma_concat_split(
                data@.subrange(pos as int, pos + 1),
                data@.subrange(pos + 1, pos + ext_enc(ev).len()),
                seq![8u8],
                str_enc(x),
            );
        }
    }
    Some((e, p2))
}

#[verifier::rlimit(100)]
fn read_ext_t9(data: &Vec<u8>, pos: usize) -> (r: Option<(Extension, usize)>)
    requires
        pos < data@.len(),
        data@[pos as int] == 9,
    ensures
        r matches Some(p) ==> pos <= p.1 <= data@.len() && data@.subrange(pos as int, p.1 as int)
            == ext_enc(ext_view(p.0)),
        forall|ev: ExtensionView|
            ext_prefix_at(data@, pos as int, ev) ==> (r is Some && ext_view(r.unwrap().0) == ev
                && r.unwrap().1 == pos + ext_enc(ev).len()),
{
    let dl: usize = data.len();
    let p0 = pos + 1;
    let res = match read_strs(data, p0) {
        Some(x) => x,
        None => {
            proof {
                assert forall|ev: ExtensionView| ext_prefix_at(data@, pos as int, ev) implies false by {
                    lemma_ext_enc_shape(ev);
                    assert(data@.subrange(pos as int, pos + ext_enc(ev).len())[0] == ext_enc(ev)[0]);
                    let x = ev->SubjectAltNames_dns_names;
                    assert(ext_enc(ev) == seq![9u8] + strs_enc(x));
                    lemma_subrange_decompose(data@, pos as int, 1, strs_enc(x).len() as int);
                    lemma_concat_split(
                        data@.subrange(pos as int, pos + 1),
                        data@.subrange(pos + 1, pos + ext_enc(ev).len()),
                        seq![9u8],
                        strs_enc(x),
                    );
                }
            }
            return None;
        },
    };
    let (v, p2) = res;
    let e = Extension::SubjectAltNames { dns_names: v };
    proof {
        assert(data@.subrange(pos as int, p2 as int) =~= data@.subrange(pos as int, p0 as int)
            + data@.subrange(p0 as int, p2 as int));
        assert(data@.subrange(pos as int, p0 as int) =~= seq![9u8]);
        assert(data@.subrange(pos as int, p2 as int) == ext_enc(ext_view(e)));
        assert forall|ev: ExtensionView| ext_prefix_at(data@, pos as int, ev) implies (ext_view(e)
            == ev && p2 == pos + ext_enc(ev).len()) by {
            lemma_ext_enc_shape(ev);
            assert(data@.subrange(pos as int, pos + ext_enc(ev).len())[0] == ext_enc(ev)[0]);
            let x = ev->SubjectAltNames_dns_names;
            assert(ext_enc(ev) == seq![9u8] + strs_enc(x));
            lemma_subrange_decompose(data@, pos as int, 1, strs_enc(x).len() as int);
            lemma_concat_split(
                data@.subrange(pos as int, pos + 1),
                data@.subrange(pos + 1, pos + ext_enc(ev).len()),
                seq![9u8],
                strs_enc(x),
            );
        }
    }
    Some((e, p2))
}

proof fn lemma_akif_split(data: Seq<u8>, pos: int, ev: ExtensionView)
    requires
        ev is AuthorityKeyIdentifierFull,
        0 <= pos,
        pos + ext_enc(ev).len() <= data.len(),
        data.subrange(pos, pos + ext_enc(ev).len()) == ext_enc(ev),
    ensures
        data.subrange(pos, pos + 1) == seq![3u8],
        data.subrange(pos + 1, pos + 1 + bytes_enc(ev->AuthorityKeyIdentifierFull_key_id).len())
            == bytes_enc(ev->AuthorityKeyIdentifierFull_key_id),
        data.subrange(
            pos + 1 + bytes_enc(ev->AuthorityKeyIdentifierFull_key_id).len(),
            pos + 1 + bytes_enc(ev->AuthorityKeyIdentifierFull_key_id).len() + dn_enc(
                ev->AuthorityKeyIdentifierFull_issuer_dn,
            ).len(),
        ) == dn_enc(ev->AuthorityKeyIdentifierFull_issuer_dn),
        data.subrange(
            pos + 1 + bytes_enc(ev->AuthorityKeyIdentifierFull_key_id).len() + dn_enc(
                ev->AuthorityKeyIdentifierFull_issuer_dn,
            ).len(),
            pos + ext_enc(ev).len(),
        ) == u128_le(ev->AuthorityKeyIdentifierFull_issuer_serial),
        ext_enc(ev).len() == 1 + bytes_enc(ev->AuthorityKeyIdentifierFull_key_id).len() + dn_enc(
            ev->AuthorityKeyIdentifierFull_issuer_dn,
        ).len() + 16,
{
    let k = ev->AuthorityKeyIdentifierFull_key_id;
    let d = ev->AuthorityKeyIdentifierFull_issuer_dn;
    let sr = ev->AuthorityKeyIdentifierFull_issuer_serial;
    assert(ext_enc(ev) == seq![3u8] + bytes_enc(k) + dn_enc(d) + u128_le(sr));
    assert(u128_le(sr).len() == 16);
    assert(seq![3u8] + bytes_enc(k) + dn_enc(d) + u128_le(sr) =~= seq![3u8] + (bytes_enc(k) + (
    dn_enc(d) + u128_le(sr))));
    lemma_subrange_decompose(
        data,
        pos,
        1,
        (bytes_enc(k).len() + dn_enc(d).len() + 16) as int,
    );
    lemma_concat_split(
        data.subrange(pos, pos + 1),
        data.subrange(pos + 1, pos + ext_enc(ev).len()),
        seq![3u8],
        bytes_enc(k) + (dn_enc(d) + u128_le(sr)),
    );
    lemma_subrange_decompose(
        data,
        pos + 1,
        bytes_enc(k).len() as int,
        (dn_enc(d).len() + 16) as int,
    );
    lemma_concat_split(
        data.subrange(pos + 1, pos + 1 + bytes_enc(k).len()),
        data.subrange(pos + 1 + bytes_enc(k).len(), pos + ext_enc(ev).len()),
        bytes_enc(k),
        dn_enc(d) + u128_le(sr),
    );
    lemma_subrange_decompose(
        data,
        pos + 1 + bytes_enc(k).len(),
        dn_enc(d).len() as int,
        16,
    );
    lemma_concat_split(
        data.subrange(
            pos + 1 + bytes_enc(k).len(),
            pos + 1 + bytes_enc(k).len() + dn_enc(d).len(),
        ),
        data.subrange(pos + 1 + bytes_enc(k).len() + dn_enc(d).len(), pos + ext_enc(ev).len()),
        dn_enc(d),
        u128_le(sr),
    );
}

fn read_exts_items(data: &Vec<u8>, pos: usize, n: u64) -> (r: Option<(Vec<Extension>, usize)>)
    ensures
        r matches Some(p) ==> p.0@.len() == n && pos <= p.1 <= data@.len() && data@.subrange(
            pos as int,
            p.1 as int,
        ) == exts_cat(exts_view(p.0@)),
        forall|s: Seq<ExtensionView>|
            (s.len() == n && pos + exts_cat(s).len() <= data@.len() && data@.subrange(
                pos as int,
                pos + exts_cat(s).len(),
            ) == exts_cat(s)) ==> (r is Some && exts_view(r.unwrap().0@) == s && r.unwrap().1 == pos
                + exts_cat(s).len()),
    decreases n,
{
    if pos > data.len() {
        return None;
    }
    if n == 0 {
        let v: Vec<Extension> = Vec::new();
        proof {
            assert(exts_view(v@) =~= Seq::<ExtensionView>::empty());
            assert(data@.subrange(pos as int, pos as int) =~= exts_cat(exts_view(v@)));
            assert forall|s: Seq<ExtensionView>| s.len() == 0 implies exts_view(v@) =~= s by {}
        }
        return Some((v, pos));
    }
    let prev = match read_exts_items(data, pos, n - 1) {
        Some(x) => x,
        None => {
            proof {
                assert forall|s: Seq<ExtensionView>|
                    (s.len() == n && pos + exts_cat(s).len() <= data@.len() && data@.subrange(
                        pos as int,
                        pos + exts_cat(s).len(),
                    ) == exts_cat(s)) implies false by {
                    assert(exts_cat(s) == exts_cat(s.drop_last()) + ext_enc(s.last()));
                    lemma_subrange_decompose(
                        data@,
                        pos as int,
                        exts_cat(s.drop_last()).len() as int,
                        ext_enc(s.last()).len() as int,
                    );
                    lemma_concat_split(
                        data@.subrange(pos as int, pos + exts_cat(s.drop_last()).len()),
                        data@.subrange(pos + exts_cat(s.drop_last()).len(), pos + exts_cat(s).len()),
                        exts_cat(s.drop_last()),
                        ext_enc(s.last()),
                    );
                }
            }
            return None;
        },
    };
    let (mut v, p1) = prev;
    let ghost vprev = exts_view(v@);
    let next = match read_ext(data, p1) {
        Some(x) => x,
        None => {
            proof {
                assert forall|s: Seq<ExtensionView>|
                    (s.len() == n && pos + exts_cat(s).len() <= data@.len() && data@.subrange(
                        pos as int,
                        pos + exts_cat(s).len(),
                    ) == exts_cat(s)) implies false by {
                    assert(exts_cat(s) == exts_cat(s.drop_last()) + ext_enc(s.last()));
                    lemma_subrange_decompose(
                        data@,
                        pos as int,
                        exts_cat(s.drop_last()).len() as int,
                        ext_enc(s.last()).len() as int,
                    );
                    lemma_concat_split(
                        data@.subrange(pos as int, pos + exts_cat(s.drop_last()).len()),
                        data@.subrange(pos + exts_cat(s.drop_last()).len(), pos + exts_cat(s).len()),
                        exts_cat(s.drop_last()),
                        ext_enc(s.last()),
                    );
                    assert(vprev == s.drop_last());
                    assert(ext_prefix_at(data@, p1 as int, s.last()));
                }
            }
            return None;
        },
    };
    let (e, p2) = next;
    v.push(e);
    proof {
        assert(exts_view(v@).drop_last() =~= vprev);
        assert(exts_view(v@).last() == ext_view(e));
        assert(exts_view(v@) =~= vprev.push(ext_view(e)));
        assert(exts_cat(exts_view(v@)) == exts_cat(vprev) + ext_enc(ext_view(e)));
        assert(data@.subrange(pos as int, p2 as int) =~= data@.subrange(pos as int, p1 as int)
            + data@.subrange(p1 as int, p2 as int));
        assert forall|s: Seq<ExtensionView>|
            (s.len() == n && pos + exts_cat(s).len() <= data@.len() && data@.subrange(
                pos as int,
                pos + exts_cat(s).len(),
            ) == exts_cat(s)) implies (exts_view(v@) =~= s && p2 == pos + exts_cat(s).len()) by {
            assert(exts_cat(s) == exts_cat(s.drop_last()) + ext_enc(s.last()));
            lemma_subrange_decompose(
                data@,
                pos as int,
                exts_cat(s.drop_last()).len() as int,
                ext_enc(s.last()).len() as int,
            );
            lemma_concat_split(
                data@.subrange(pos as int, pos + exts_cat(s.drop_last()).len()),
                data@.subrange(pos + exts_cat(s.drop_last()).len(), pos + exts_cat(s).len()),
                exts_cat(s.drop_last()),
                ext_enc(s.last()),
            );
            assert(vprev == s.drop_last());
            assert(ext_prefix_at(data@, p1 as int, s.last()));
            assert(ext_view(e) == s.last());
            assert(s =~= s.drop_last().push(s.last()));
        }
    }
    Some((v, p2))
}

fn read_exts(data: &Vec<u8>, pos: usize) -> (r: Option<(Vec<Extension>, usize)>)
    ensures
        r matches Some(p) ==> pos <= p.1 <= data@.len() && data@.subrange(pos as int, p.1 as int)
            == exts_enc(exts_view(p.0@)),
        forall|s: Seq<ExtensionView>|
            (pos + exts_enc(s).len() <= data@.len() && data@.subrange(
                pos as int,
                pos + exts_enc(s).len(),
            ) == exts_enc(s)) ==> (r is Some && exts_view(r.unwrap().0@) == s && r.unwrap().1 == pos
                + exts_enc(s).len()),
{
    let dl: usize = data.len();
    let (n, p1) = match read_u64(data, pos) {
        Some(x) => x,
        None => {
            return None;
        },
    };
    let res = match read_exts_items(data, p1, n) {
        Some(x) => x,
        None => {
            proof {
                assert forall|s: Seq<ExtensionView>|
                    (pos + exts_enc(s).len() <= data@.len() && data@.subrange(
                        pos as int,
                        pos + exts_enc(s).len(),
                    ) == exts_enc(s)) implies false by {
                    lemma_exts_cat_len(s);
                    lemma_subrange_decompose(data@, pos as int, 8, exts_cat(s).len() as int);
                    lemma_concat_split(
                        data@.subrange(pos as int, pos + 8),
                        data@.subrange(pos + 8, pos + exts_enc(s).len()),
                        u64_le(s.len() as u64),
                        exts_cat(s),
                    );
                    lemma_u64_le_injective(n, s.len() as u64);
                    assert(s.len() == n as nat);
                }
            }
            return None;
        },
    };
    let (v, p2) = res;
    proof {
        assert(data@.subrange(pos as int, p2 as int) =~= data@.subrange(pos as int, p1 as int)
            + data@.subrange(p1 as int, p2 as int));
        assert(data@.subrange(pos as int, p2 as int) == exts_enc(exts_view(v@)));
        assert forall|s: Seq<ExtensionView>|
            (pos + exts_enc(s).len() <= data@.len() && data@.subrange(
                pos as int,
                pos + exts_enc(s).len(),
            ) == exts_enc(s)) implies (exts_view(v@) == s && p2 == pos + exts_enc(s).len()) by {
            lemma_exts_cat_len(s);
            lemma_subrange_decompose(data@, pos as int, 8, exts_cat(s).len() as int);
            lemma_concat_split(
                data@.subrange(pos as int, pos + 8),
                data@.subrange(pos + 8, pos + exts_enc(s).len()),
                u64_le(s.len() as u64),
                exts_cat(s),
            );
            lemma_u64_le_injective(n, s.len() as u64);
            assert(s.len() == n as nat);
        }
    }
    Some((v, p2))
}

#[verifier::rlimit(100)]
proof fn lemma_cert_enc_split(data: Seq<u8>, cv: CertView)
    requires
        data == cert_enc(cv),
    ensures
        data.len() == 40 + dn_enc(cv.subject_dn).len() + dn_enc(cv.issuer_dn).len() + bytes_enc(
            cv.public_key_pem,
        ).len() + exts_enc(cv.extensions).len() + bytes_enc(cv.signature).len(),
        data.subrange(0, 8) == u64_le(cv.version as u64),
        data.subrange(8, 24) == u128_le(cv.serial),
        data.subrange(24, 32) == u64_le(cv.not_before),
        data.subrange(32, 40) == u64_le(cv.not_after),
        data.subrange(40, (40 + dn_enc(cv.subject_dn).len()) as int) == dn_enc(cv.subject_dn),
        data.subrange(
            (40 + dn_enc(cv.subject_dn).len()) as int,
            (40 + dn_enc(cv.subject_dn).len() + dn_enc(cv.issuer_dn).len()) as int,
        ) == dn_enc(cv.issuer_dn),
        data.subrange(
            (40 + dn_enc(cv.subject_dn).len() + dn_enc(cv.issuer_dn).len()) as int,
            (40 + dn_enc(cv.subject_dn).len() + dn_enc(cv.issuer_dn).len() + bytes_enc(
                cv.public_key_pem,
            ).len()) as int,
        ) == bytes_enc(cv.public_key_pem),
        data.subrange(
            (40 + dn_enc(cv.subject_dn).len() + dn_enc(cv.issuer_dn).len() + bytes_enc(
                cv.public_key_pem,
            ).len()) as int,
            (40 + dn_enc(cv.subject_dn).len() + dn_enc(cv.issuer_dn).len() + bytes_enc(
                cv.public_key_pem,
            ).len() + exts_enc(cv.extensions).len()) as int,
        ) == exts_enc(cv.extensions),
        data.subrange(
            (40 + dn_enc(cv.subject_dn).len() + dn_enc(cv.issuer_dn).len() + bytes_enc(
                cv.public_key_pem,
            ).len() + exts_enc(cv.extensions).len()) as int,
            data.len() as int,
        ) == bytes_enc(cv.signature),
{
    let s1 = u64_le(cv.version as u64);
    let s2 = u128_le(cv.serial);
    let s3 = u64_le(cv.not_before);
    let s4 = u64_le(cv.not_after);
    let s5 = dn_enc(cv.subject_dn);
    let s6 = dn_enc(cv.issuer_dn);
    let s7 = bytes_enc(cv.public_key_pem);
    let s8 = exts_enc(cv.extensions);
    let s9 = bytes_enc(cv.signature);
    assert(s2.len() == 16);
    assert(data =~= s1 + (s2 + (s3 + (s4 + (s5 + (s6 + (s7 + (s8 + s9))))))));
    assert(data.subrange(0, data.len() as int) =~= data);
    let l1 = (s2 + (s3 + (s4 + (s5 + (s6 + (s7 + (s8 + s9))))))).len() as int;
    lemma_subrange_decompose(data, 0, 8, l1);
    lemma_concat_split(
        data.subrange(0, 8),
        data.subrange(8, data.len() as int),
        s1,
        s2 + (s3 + (s4 + (s5 + (s6 + (s7 + (s8 + s9)))))),
    );
    let l2 = (s3 + (s4 + (s5 + (s6 + (s7 + (s8 + s9)))))).len() as int;
    lemma_subrange_decompose(data, 8, 16, l2);
    lemma_concat_split(
        data.subrange(8, 24),
        data.subrange(24, data.len() as int),
        s2,
        s3 + (s4 + (s5 + (s6 + (s7 + (s8 + s9))))),
    );
    let l3 = (s4 + (s5 + (s6 + (s7 + (s8 + s9))))).len() as int;
    lemma_subrange_decompose(data, 24, 8, l3);
    lemma_concat_split(
        data.subrange(24, 32),
        data.subrange(32, data.len() as int),
        s3,
        s4 + (s5 + (s6 + (s7 + (s8 + s9)))),
    );
    let l4 = (s5 + (s6 + (s7 + (s8 + s9)))).len() as int;
    lemma_subrange_decompose(data, 32, 8, l4);
    lemma_concat_split(
        data.subrange(32, 40),
        data.subrange(40, data.len() as int),
        s4,
        s5 + (s6 + (s7 + (s8 + s9))),
    );
    let l5 = (s6 + (s7 + (s8 + s9))).len() as int;
    lemma_subrange_decompose(data, 40, s5.len() as int, l5);
    lemma_concat_split(
        data.subrange(40, (40 + s5.len()) as int),
        data.subrange((40 + s5.len()) as int, data.len() as int),
        s5,
        s6 + (s7 + (s8 + s9)),
    );
    let o6 = 40 + s5.len() as int;
    let l6 = (s7 + (s8 + s9)).len() as int;
    lemma_subrange_decompose(data, o6, s6.len() as int, l6);
    lemma_concat_split(
        data.subrange(o6, o6 + s6.len() as int),
        data.subrange(o6 + s6.len() as int, data.len() as int),
        s6,
        s7 + (s8 + s9),
    );
    let o7 = o6 + s6.len() as int;
    let l7 = (s8 + s9).len() as int;
    lemma_subrange_decompose(data, o7, s7.len() as int, l7);
    lemma_concat_split(
        data.subrange(o7, o7 + s7.len() as int),
        data.subrange(o7 + s7.len() as int, data.len() as int),
        s7,
        s8 + s9,
    );
    let o8 = o7 + s7.len() as int;
    lemma_subrange_decompose(data, o8, s8.len() as int, s9.len() as int);
    lemma_concat_split(
        data.subrange(o8, o8 + s8.len() as int),
        data.subrange(o8 + s8.len() as int, data.len() as int),
        s8,
        s9,
    );
}

/// The to-be-signed bytes of a certificate: every field but the signature.
pub fn encode_tbs(c: &Certificate) -> (r: Vec<u8>)
    ensures
        r@ == tbs_enc(cert_view(*c)),
{
    let mut out: Vec<u8> = Vec::new();
    push_u64(&mut out, c.version as u64);
    push_u128(&mut out, c.serial);
    push_u64(&mut out, c.not_before);
    push_u64(&mut out, c.not_after);
    push_dn(&mut out, &c.subject_dn);
    push_dn(&mut out, &c.issuer_dn);
    push_bytes(&mut out, &c.public_key_pem);
    push_exts(&mut out, &c.extensions);
    proof {
        assert(out@ =~= tbs_enc(cert_view(*c)));
    }
    out
}

/// The full durable byte form of a certificate.
pub fn encode_certificate(c: &Certificate) -> (r: Vec<u8>)
    ensures
        r@ == cert_enc(cert_view(*c)),
{
    let mut out = encode_tbs(c);
    push_bytes(&mut out, &c.signature);
    proof {
        assert(out@ =~= cert_enc(cert_view(*c)));
    }
    out
}

/// Reads a certificate back from its durable byte form. Exactly the byte
/// forms this library writes are accepted: decoding the encoding of any
/// certificate succeeds and yields a certificate with the same mathematical
/// value, so serial, distinguished names, validity window, public key,
/// extension list and signature all round-trip unchanged.
#[verifier::rlimit(100)]
pub fn decode_certificate(data: &Vec<u8>) -> (r: Option<Certificate>)
    ensures
        r matches Some(c) ==> data@ == cert_enc(cert_view(c)),
        forall|cv: CertView|
            data@ == cert_enc(cv) ==> (r is Some && cert_view(r.unwrap()) == cv),
{
    let dl: usize = data.len();
    let r0 = match read_u64(data, 0) {
        Some(x) => x,
        None => {
            proof {
                assert forall|cv: CertView| data@ == cert_enc(cv) implies false by {
                    lemma_cert_enc_split(data@, cv);
                }
            }
            return None;
        },
    };
    let (v0, p1) = r0;
    if v0 > 0xFFFF_FFFFu64 {
        proof {
            assert forall|cv: CertView| data@ == cert_enc(cv) implies false by {
                lemma_cert_enc_split(data@, cv);
                lemma_u64_le_injective(v0, cv.version as u64);
            }
        }
        return None;
    }
    let version: u32 = v0 as u32;
    let r1 = match read_u128(data, p1) {
        Some(x) => x,
        None => {
            proof {
                assert forall|cv: CertView| data@ == cert_enc(cv) implies false by {
                    lemma_cert_enc_split(data@, cv);
                }
            }
            return None;
        },
    };
    let (serial, p2) = r1;
    let r2 = match read_u64(data, p2) {
        Some(x) => x,
        None => {
            proof {
                assert forall|cv: CertView| data@ == cert_enc(cv) implies false by {
                    lemma_cert_enc_split(data@, cv);
                }
            }
            return None;
        },
    };
    let (not_before, p3) = r2;
    let r3 = match read_u64(data, p3) {
        Some(x) => x,
        None => {
            proof {
                assert forall|cv: CertView| data@ == cert_enc(cv) implies false by {
                    lemma_cert_enc_split(data@, cv);
                }
            }
            return None;
        },
    };
    let (not_after, p4) = r3;
    let r4 = match read_dn(data, p4) {
        Some(x) => x,
        None => {
            proof {
                assert forall|cv: CertView| data@ == cert_enc(cv) implies false by {
                    lemma_cert_enc_split(data@, cv);
                    assert(40 + dn_enc(cv.subject_dn).len() <= data@.len());
                }
            }
            return None;
        },
    };
    let (subject_dn, p5) = r4;
    let r5 = match read_dn(data, p5) {
        Some(x) => x,
        None => {
            proof {
                assert forall|cv: CertView| data@ == cert_enc(cv) implies false by {
                    lemma_cert_enc_split(data@, cv);
                    assert(dn_view(subject_dn@) == cv.subject_dn && p5 == 40 + dn_enc(
                        cv.subject_dn,
                    ).len());
                    assert(p5 + dn_enc(cv.issuer_dn).len() <= data@.len());
                }
            }
            return None;
        },
    };
    let (issuer_dn, p6) = r5;
    let r6 = match read_bytes(data, p6) {
        Some(x) => x,
        None => {
            proof {
                assert forall|cv: CertView| data@ == cert_enc(cv) implies false by {
                    lemma_cert_enc_split(data@, cv);
                    assert(dn_view(subject_dn@) == cv.subject_dn && p5 == 40 + dn_enc(
                        cv.subject_dn,
                    ).len());
                    assert(dn_view(issuer_dn@) == cv.issuer_dn && p6 == p5 + dn_enc(
                        cv.issuer_dn,
                    ).len());
                    assert(p6 + bytes_enc(cv.public_key_pem).len() <= data@.len());
                }
            }
            return None;
        },
    };
    let (public_key_pem, p7) = r6;
    let r7 = match read_exts(data, p7) {
        Some(x) => x,
        None => {
            proof {
                assert forall|cv: CertView| data@ == cert_enc(cv) implies false by {
                    lemma_cert_enc_split(data@, cv);
                    assert(dn_view(subject_dn@) == cv.subject_dn && p5 == 40 + dn_enc(
                        cv.subject_dn,
                    ).len());
                    assert(dn_view(issuer_dn@) == cv.issuer_dn && p6 == p5 + dn_enc(
                        cv.issuer_dn,
                    ).len());
                    assert(public_key_pem@ == cv.public_key_pem && p7 == p6 + bytes_enc(
                        cv.public_key_pem,
                    ).len());
                    assert(p7 + exts_enc(cv.extensions).len() <= data@.len());
                }
            }
            return None;
        },
    };
    let (extensions, p8) = r7;
    let r8 = match read_bytes(data, p8) {
        Some(x) => x,
        None => {
            proof {
                assert forall|cv: CertView| data@ == cert_enc(cv) implies false by {
                    lemma_cert_enc_split(data@, cv);
                    assert(dn_view(subject_dn@) == cv.subject_dn && p5 == 40 + dn_enc(
                        cv.subject_dn,
                    ).len());
                    assert(dn_view(issuer_dn@) == cv.issuer_dn && p6 == p5 + dn_enc(
                        cv.issuer_dn,
                    ).len());
                    assert(public_key_pem@ == cv.public_key_pem && p7 == p6 + bytes_enc(
                        cv.public_key_pem,
                    ).len());
                    assert(exts_view(extensions@) == cv.extensions && p8 == p7 + exts_enc(
                        cv.extensions,
                    ).len());
                    assert(p8 + bytes_enc(cv.signature).len() <= data@.len());
                }
            }
            return None;
        },
    };
    let (signature, p9) = r8;
    if p9 != dl {
        proof {
            assert forall|cv: CertView| data@ == cert_enc(cv) implies false by {
                lemma_cert_enc_split(data@, cv);
                assert(dn_view(subject_dn@) == cv.subject_dn && p5 == 40 + dn_enc(
                    cv.subject_dn,
                ).len());
                assert(dn_view(issuer_dn@) == cv.issuer_dn && p6 == p5 + dn_enc(
                    cv.issuer_dn,
                ).len());
                assert(public_key_pem@ == cv.public_key_pem && p7 == p6 + bytes_enc(
                    cv.public_key_pem,
                ).len());
                assert(exts_view(extensions@) == cv.extensions && p8 == p7 + exts_enc(
                    cv.extensions,
                ).len());
                assert(signature@ == cv.signature && p9 == p8 + bytes_enc(cv.signature).len());
            }
        }
        return None;
    }
    let c = Certificate {
        version,
        serial,
        subject_dn,
        issuer_dn,
        public_key_pem,
        not_before,
        not_after,
        extensions,
        signature,
    };
    proof {
        assert((version as u64) == v0);
        assert(data@ =~= data@.subrange(0, p9 as int));
        assert(data@.subrange(0, p9 as int) =~= data@.subrange(0, p1 as int) + data@.subrange(
            p1 as int,
            p2 as int,
        ) + data@.subrange(p2 as int, p3 as int) + data@.subrange(p3 as int, p4 as int)
            + data@.subrange(p4 as int, p5 as int) + data@.subrange(p5 as int, p6 as int)
            + data@.subrange(p6 as int, p7 as int) + data@.subrange(p7 as int, p8 as int)
            + data@.subrange(p8 as int, p9 as int));
        assert(data@ == cert_enc(cert_view(c)));
        assert forall|cv: CertView| data@ == cert_enc(cv) implies cert_view(c) == cv by {
            lemma_cert_enc_split(data@, cv);
            lemma_u64_le_injective(v0, cv.version as u64);
            lemma_u128_le_injective(serial, cv.serial);
            lemma_u64_le_injective(not_before, cv.not_before);
            lemma_u64_le_injective(not_after, cv.not_after);
            assert(dn_view(subject_dn@) == cv.subject_dn && p5 == 40 + dn_enc(
                cv.subject_dn,
            ).len());
            assert(dn_view(issuer_dn@) == cv.issuer_dn && p6 == p5 + dn_enc(cv.issuer_dn).len());
            assert(public_key_pem@ == cv.public_key_pem && p7 == p6 + bytes_enc(
                cv.public_key_pem,
            ).len());
            assert(exts_view(extensions@) == cv.extensions && p8 == p7 + exts_enc(
                cv.extensions,
            ).len());
            assert(signature@ == cv.signature);
            assert(cert_view(c).version == cv.version);
            assert(cert_view(c).serial == cv.serial);
            assert(cert_view(c).subject_dn == cv.subject_dn);
            assert(cert_view(c).issuer_dn == cv.issuer_dn);
            assert(cert_view(c).public_key_pem == cv.public_key_pem);
            assert(cert_view(c).not_before == cv.not_before);
            assert(cert_view(c).not_after == cv.not_after);
            assert(cert_view(c).extensions == cv.extensions);
            assert(cert_view(c).signature == cv.signature);
        }
    }
    Some(c)
}

} // verus!
