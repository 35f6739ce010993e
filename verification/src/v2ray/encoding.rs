//! The encoding of rule files, as it is written, and what reading gives back of it.

use vstd::prelude::*;
use vstd::utf8::encode_utf8;

use super::decode::{
    attribute_fields, attribute_message, cidr_fields, cidr_message, domain_field, domain_fields,
    domain_message, empty_attribute, empty_cidr, empty_domain,
    empty_geoip, empty_geosite, geoip_field, geoip_fields, geoip_list_field, geoip_list_fields,
    geoip_list_message, geoip_message, geosite_field, geosite_fields, geosite_list_field,
    geosite_list_fields, geosite_list_message, geosite_message,
};
use super::field::{bytes_field, field_key, string_field, varint_field};
use super::laws::{
    entry_field, entry_file, law_geoip_entries_are_streamed, law_geosite_entries_are_streamed,
    law_varint_reads_back, varint_bytes,
};
use super::model::{AttributeView, CidrView, DomainView, GeoIpView, GeoSiteView, TypedValue};
use super::parser::{geoip_visit, geosite_visit, VisitEnd};

verus! {

/// The key of a field.
pub open spec fn key_bytes(tag: u32, wire: u8) -> Seq<u8> {
    varint_bytes((8 * tag + wire) as nat)
}

/// A field that holds the given bytes.
pub open spec fn delimited(tag: u32, body: Seq<u8>) -> Seq<u8> {
    key_bytes(tag, 2) + (varint_bytes(body.len()) + body)
}

/// A field that holds a number.
pub open spec fn always_number_bytes(tag: u32, value: u64) -> Seq<u8> {
    key_bytes(tag, 0) + varint_bytes(value as nat)
}

/// A field that holds a text. There is none for the empty text.
pub open spec fn text_bytes(tag: u32, text: Seq<char>) -> Seq<u8> {
    if text.len() == 0 {
        Seq::empty()
    } else {
        delimited(tag, encode_utf8(text))
    }
}

/// A field that holds bytes. There is none for no bytes.
pub open spec fn blob_bytes(tag: u32, bytes: Seq<u8>) -> Seq<u8> {
    if bytes.len() == 0 {
        Seq::empty()
    } else {
        delimited(tag, bytes)
    }
}

/// A field that holds a number. There is none for zero.
pub open spec fn number_bytes(tag: u32, value: u64) -> Seq<u8> {
    if value == 0 {
        Seq::empty()
    } else {
        always_number_bytes(tag, value)
    }
}

/// The number for a truth value.
pub open spec fn flag(value: bool) -> u64 {
    if value {
        1
    } else {
        0
    }
}

/// The field for the value of an attribute. It is there whenever the attribute has a value.
pub open spec fn typed_value_bytes(value: Option<TypedValue>) -> Seq<u8> {
    match value {
        None => Seq::empty(),
        Some(TypedValue::BoolValue(b)) => always_number_bytes(2, flag(b)),
        Some(TypedValue::IntValue(n)) => always_number_bytes(3, n as u64),
    }
}

/// A key that was written is read back.
pub proof fn lemma_key(tag: u32, wire: u8, rest: Seq<u8>)
    requires
        1 <= tag < 0x2000_0000,
        wire <= 5,
    ensures
        field_key(key_bytes(tag, wire) + rest) == Some((tag, wire, rest)),
        key_bytes(tag, wire).len() >= 1,
{
    law_varint_reads_back((8 * tag + wire) as u64, rest);
}

/// A field that holds bytes is read back, whatever follows it.
pub proof fn lemma_delimited(tag: u32, body: Seq<u8>, rest: Seq<u8>)
    requires
        1 <= tag < 0x2000_0000,
        body.len() <= u64::MAX,
    ensures
        field_key(delimited(tag, body) + rest) == Some(
            (tag, 2u8, varint_bytes(body.len()) + body + rest),
        ),
        bytes_field(2, varint_bytes(body.len()) + body + rest) == Some((body, rest)),
        (delimited(tag, body) + rest).len() > 0,
{
    let contents = varint_bytes(body.len()) + body + rest;
    assert(delimited(tag, body) + rest =~= key_bytes(tag, 2) + contents);
    lemma_key(tag, 2, contents);
    law_varint_reads_back(body.len() as u64, body + rest);
    assert(contents =~= varint_bytes(body.len()) + (body + rest));
    assert((body + rest).take(body.len() as int) =~= body);
    assert((body + rest).skip(body.len() as int) =~= rest);
}

/// A field that holds a text is read back, whatever follows it.
pub proof fn lemma_text(tag: u32, text: Seq<char>, rest: Seq<u8>)
    requires
        1 <= tag < 0x2000_0000,
        encode_utf8(text).len() <= u64::MAX,
    ensures
        ({
            let body = encode_utf8(text);
            let contents = varint_bytes(body.len()) + body + rest;
            &&& field_key(delimited(tag, body) + rest) == Some((tag, 2u8, contents))
            &&& string_field(2, contents) == Some((text, rest))
            &&& (delimited(tag, body) + rest).len() > 0
        }),
{
    broadcast use {vstd::utf8::encode_utf8_valid_utf8, vstd::utf8::encode_utf8_decode_utf8};

    lemma_delimited(tag, encode_utf8(text), rest);
}

/// A field that holds a number is read back, whatever follows it.
pub proof fn lemma_always_number(tag: u32, value: u64, rest: Seq<u8>)
    requires
        1 <= tag < 0x2000_0000,
    ensures
        field_key(always_number_bytes(tag, value) + rest) == Some(
            (tag, 0u8, varint_bytes(value as nat) + rest),
        ),
        varint_field(0, varint_bytes(value as nat) + rest) == Some((value, rest)),
        (always_number_bytes(tag, value) + rest).len() > 0,
{
    let contents = varint_bytes(value as nat) + rest;
    assert(always_number_bytes(tag, value) + rest =~= key_bytes(tag, 0) + contents);
    lemma_key(tag, 0, contents);
    law_varint_reads_back(value, rest);
}

/// The encoding of an attribute: its fields in the order of their tags, without those that hold
/// nothing.
#[verifier::opaque]
pub open spec fn attribute_bytes(v: AttributeView) -> Seq<u8> {
    text_bytes(1, v.key) + typed_value_bytes(v.typed_value)
}

proof fn lemma_attribute_key(acc: AttributeView, value: Seq<char>, rest: Seq<u8>, depth: nat)
    requires
        acc.key.len() == 0,
        encode_utf8(value).len() <= u64::MAX,
    ensures
        attribute_fields(acc, text_bytes(1, value) + rest, depth) == attribute_fields(
            AttributeView { key: value, ..acc },
            rest,
            depth,
        ),
{
    if value.len() == 0 {
        assert(text_bytes(1, value) + rest =~= rest);
        assert(value =~= acc.key);
    } else {
        lemma_text(1, value, rest);
    }
}

proof fn lemma_attribute_typed_value(
    acc: AttributeView,
    value: Option<TypedValue>,
    rest: Seq<u8>,
    depth: nat,
)
    requires
        acc.typed_value is None,
    ensures
        attribute_fields(acc, typed_value_bytes(value) + rest, depth) == attribute_fields(
            AttributeView { typed_value: value, ..acc },
            rest,
            depth,
        ),
{
    let s = typed_value_bytes(value) + rest;
    match value {
        None => {
            assert(s =~= rest);
        },
        Some(TypedValue::BoolValue(b)) => {
            lemma_always_number(2, flag(b), rest);
        },
        Some(TypedValue::IntValue(n)) => {
            lemma_always_number(3, n as u64, rest);
            assert((n as u64) as i64 == n) by (bit_vector);
        },
    }
}

/// An attribute that was encoded is decoded, at whatever depth it lies.
pub proof fn law_attribute_reads_back(v: AttributeView, depth: nat)
    requires
        attribute_bytes(v).len() <= u64::MAX,
    ensures
        attribute_message(attribute_bytes(v), depth) == Some(v),
{
    reveal(attribute_bytes);
    let r1 = typed_value_bytes(v.typed_value);
    let a0 = empty_attribute();
    let a1 = AttributeView { key: v.key, ..a0 };
    let a2 = AttributeView { typed_value: v.typed_value, ..a1 };
    lemma_attribute_key(a0, v.key, r1, depth);
    assert(typed_value_bytes(v.typed_value) + Seq::<u8>::empty()
        =~= typed_value_bytes(v.typed_value));
    lemma_attribute_typed_value(a1, v.typed_value, Seq::empty(), depth);
    assert(a2 =~= v);
}

/// The encoding of the items of a domain rule, one field each.
pub open spec fn domain_items_bytes(items: Seq<AttributeView>) -> Seq<u8>
    decreases items.len(),
{
    if items.len() == 0 {
        Seq::empty()
    } else {
        delimited(3, attribute_bytes(items[0])) + domain_items_bytes(items.drop_first())
    }
}

/// The encoding of a domain rule: its fields in the order of their tags, without those that hold
/// nothing.
#[verifier::opaque]
pub open spec fn domain_bytes(v: DomainView) -> Seq<u8> {
    number_bytes(1, v.kind as u64) + (text_bytes(2, v.value) + domain_items_bytes(v.attribute))
}

proof fn lemma_domain_kind(acc: DomainView, value: i32, rest: Seq<u8>, depth: nat)
    requires
        acc.kind == 0,
    ensures
        domain_fields(acc, number_bytes(1, value as u64) + rest, depth) == domain_fields(
            DomainView { kind: value, ..acc },
            rest,
            depth,
        ),
{
    if value as u64 == 0 {
        assert(number_bytes(1, value as u64) + rest =~= rest);
        assert(value as u64 == 0 ==> value == 0) by (bit_vector);
    } else {
        lemma_always_number(1, value as u64, rest);
        assert((value as u64) as i32 == value) by (bit_vector);
    }
}

proof fn lemma_domain_value(acc: DomainView, value: Seq<char>, rest: Seq<u8>, depth: nat)
    requires
        acc.value.len() == 0,
        encode_utf8(value).len() <= u64::MAX,
    ensures
        domain_fields(acc, text_bytes(2, value) + rest, depth) == domain_fields(
            DomainView { value: value, ..acc },
            rest,
            depth,
        ),
{
    if value.len() == 0 {
        assert(text_bytes(2, value) + rest =~= rest);
        assert(value =~= acc.value);
    } else {
        lemma_text(2, value, rest);
    }
}

proof fn lemma_domain_item(
    acc: DomainView,
    body: Seq<u8>,
    item: AttributeView,
    rest: Seq<u8>,
    depth: nat,
)
    requires
        body.len() <= u64::MAX,
        attribute_message(body, depth + 1) == Some(item),
    ensures
        domain_fields(acc, delimited(3, body) + rest, depth) == domain_fields(
            DomainView { attribute: acc.attribute.push(item), ..acc },
            rest,
            depth,
        ),
{
    lemma_delimited(3, body, rest);
    assert(domain_field(acc, delimited(3, body) + rest, depth) == Some(
        (DomainView { attribute: acc.attribute.push(item), ..acc }, rest),
    ));
}

proof fn lemma_domain_attribute(
    acc: DomainView,
    items: Seq<AttributeView>,
    rest: Seq<u8>,
    depth: nat,
)
    requires
        domain_items_bytes(items).len() <= u64::MAX,
    ensures
        domain_fields(acc, domain_items_bytes(items) + rest, depth) == domain_fields(
            DomainView { attribute: acc.attribute + items, ..acc },
            rest,
            depth,
        ),
    decreases items.len(),
{
    let s = domain_items_bytes(items) + rest;
    if items.len() == 0 {
        assert(s =~= rest);
        assert(acc.attribute + items =~= acc.attribute);
    } else {
        let tail = domain_items_bytes(items.drop_first()) + rest;
        let next = DomainView { attribute: acc.attribute.push(items[0]), ..acc };
        assert(s =~= delimited(3, attribute_bytes(items[0])) + tail);
        law_attribute_reads_back(items[0], depth + 1);
        lemma_domain_item(acc, attribute_bytes(items[0]), items[0], tail, depth);
        lemma_domain_attribute(next, items.drop_first(), rest, depth);
        assert(next.attribute + items.drop_first() =~= acc.attribute + items);
    }
}

/// A domain rule that was encoded is decoded, at whatever depth it lies.
pub proof fn law_domain_reads_back(v: DomainView, depth: nat)
    requires
        domain_bytes(v).len() <= u64::MAX,
    ensures
        domain_message(domain_bytes(v), depth) == Some(v),
{
    reveal(domain_bytes);
    let r2 = domain_items_bytes(v.attribute);
    let r1 = text_bytes(2, v.value) + r2;
    let a0 = empty_domain();
    let a1 = DomainView { kind: v.kind, ..a0 };
    let a2 = DomainView { value: v.value, ..a1 };
    let a3 = DomainView { attribute: a2.attribute + v.attribute, ..a2 };
    lemma_domain_kind(a0, v.kind, r1, depth);
    lemma_domain_value(a1, v.value, r2, depth);
    assert(domain_items_bytes(v.attribute) + Seq::<u8>::empty()
        =~= domain_items_bytes(v.attribute));
    lemma_domain_attribute(a2, v.attribute, Seq::empty(), depth);
    assert(a3 =~= v);
}

/// The encoding of an address block: its fields in the order of their tags, without those that hold
/// nothing.
#[verifier::opaque]
pub open spec fn cidr_bytes(v: CidrView) -> Seq<u8> {
    blob_bytes(1, v.ip) + number_bytes(2, v.prefix as u64)
}

proof fn lemma_cidr_ip(acc: CidrView, value: Seq<u8>, rest: Seq<u8>, depth: nat)
    requires
        acc.ip.len() == 0,
        value.len() <= u64::MAX,
    ensures
        cidr_fields(acc, blob_bytes(1, value) + rest, depth) == cidr_fields(
            CidrView { ip: value, ..acc },
            rest,
            depth,
        ),
{
    if value.len() == 0 {
        assert(blob_bytes(1, value) + rest =~= rest);
        assert(value =~= acc.ip);
    } else {
        lemma_delimited(1, value, rest);
    }
}

proof fn lemma_cidr_prefix(acc: CidrView, value: u32, rest: Seq<u8>, depth: nat)
    requires
        acc.prefix == 0,
    ensures
        cidr_fields(acc, number_bytes(2, value as u64) + rest, depth) == cidr_fields(
            CidrView { prefix: value, ..acc },
            rest,
            depth,
        ),
{
    if value == 0 {
        assert(number_bytes(2, value as u64) + rest =~= rest);
    } else {
        lemma_always_number(2, value as u64, rest);
        assert((value as u64) as u32 == value);
    }
}

/// An address block that was encoded is decoded, at whatever depth it lies.
pub proof fn law_cidr_reads_back(v: CidrView, depth: nat)
    requires
        cidr_bytes(v).len() <= u64::MAX,
    ensures
        cidr_message(cidr_bytes(v), depth) == Some(v),
{
    reveal(cidr_bytes);
    let r1 = number_bytes(2, v.prefix as u64);
    let a0 = empty_cidr();
    let a1 = CidrView { ip: v.ip, ..a0 };
    let a2 = CidrView { prefix: v.prefix, ..a1 };
    lemma_cidr_ip(a0, v.ip, r1, depth);
    assert(number_bytes(2, v.prefix as u64) + Seq::<u8>::empty()
        =~= number_bytes(2, v.prefix as u64));
    lemma_cidr_prefix(a1, v.prefix, Seq::empty(), depth);
    assert(a2 =~= v);
}

/// The encoding of the items of an address list, one field each.
pub open spec fn geoip_items_bytes(items: Seq<CidrView>) -> Seq<u8>
    decreases items.len(),
{
    if items.len() == 0 {
        Seq::empty()
    } else {
        delimited(2, cidr_bytes(items[0])) + geoip_items_bytes(items.drop_first())
    }
}

/// The encoding of an address list: its fields in the order of their tags, without those that hold
/// nothing.
#[verifier::opaque]
pub open spec fn geoip_bytes(v: GeoIpView) -> Seq<u8> {
    text_bytes(1, v.country_code) + (geoip_items_bytes(v.cidr) + (number_bytes(
        3,
        flag(v.inverse_match),
    ) + (blob_bytes(4, v.resource_hash) + (text_bytes(5, v.code) + text_bytes(
        68000,
        v.file_path,
    )))))
}

proof fn lemma_geoip_country_code(acc: GeoIpView, value: Seq<char>, rest: Seq<u8>, depth: nat)
    requires
        acc.country_code.len() == 0,
        encode_utf8(value).len() <= u64::MAX,
    ensures
        geoip_fields(acc, text_bytes(1, value) + rest, depth) == geoip_fields(
            GeoIpView { country_code: value, ..acc },
            rest,
            depth,
        ),
{
    if value.len() == 0 {
        assert(text_bytes(1, value) + rest =~= rest);
        assert(value =~= acc.country_code);
    } else {
        lemma_text(1, value, rest);
    }
}

proof fn lemma_geoip_item(
    acc: GeoIpView,
    body: Seq<u8>,
    item: CidrView,
    rest: Seq<u8>,
    depth: nat,
)
    requires
        body.len() <= u64::MAX,
        cidr_message(body, depth + 1) == Some(item),
    ensures
        geoip_fields(acc, delimited(2, body) + rest, depth) == geoip_fields(
            GeoIpView { cidr: acc.cidr.push(item), ..acc },
            rest,
            depth,
        ),
{
    lemma_delimited(2, body, rest);
    assert(geoip_field(acc, delimited(2, body) + rest, depth) == Some(
        (GeoIpView { cidr: acc.cidr.push(item), ..acc }, rest),
    ));
}

proof fn lemma_geoip_cidr(acc: GeoIpView, items: Seq<CidrView>, rest: Seq<u8>, depth: nat)
    requires
        geoip_items_bytes(items).len() <= u64::MAX,
    ensures
        geoip_fields(acc, geoip_items_bytes(items) + rest, depth) == geoip_fields(
            GeoIpView { cidr: acc.cidr + items, ..acc },
            rest,
            depth,
        ),
    decreases items.len(),
{
    let s = geoip_items_bytes(items) + rest;
    if items.len() == 0 {
        assert(s =~= rest);
        assert(acc.cidr + items =~= acc.cidr);
    } else {
        let tail = geoip_items_bytes(items.drop_first()) + rest;
        let next = GeoIpView { cidr: acc.cidr.push(items[0]), ..acc };
        assert(s =~= delimited(2, cidr_bytes(items[0])) + tail);
        law_cidr_reads_back(items[0], depth + 1);
        lemma_geoip_item(acc, cidr_bytes(items[0]), items[0], tail, depth);
        lemma_geoip_cidr(next, items.drop_first(), rest, depth);
        assert(next.cidr + items.drop_first() =~= acc.cidr + items);
    }
}

proof fn lemma_geoip_inverse_match(acc: GeoIpView, value: bool, rest: Seq<u8>, depth: nat)
    requires
        !acc.inverse_match,
    ensures
        geoip_fields(acc, number_bytes(3, flag(value)) + rest, depth) == geoip_fields(
            GeoIpView { inverse_match: value, ..acc },
            rest,
            depth,
        ),
{
    if !value {
        assert(number_bytes(3, flag(value)) + rest =~= rest);
    } else {
        lemma_always_number(3, 1, rest);
    }
}

proof fn lemma_geoip_resource_hash(acc: GeoIpView, value: Seq<u8>, rest: Seq<u8>, depth: nat)
    requires
        acc.resource_hash.len() == 0,
        value.len() <= u64::MAX,
    ensures
        geoip_fields(acc, blob_bytes(4, value) + rest, depth) == geoip_fields(
            GeoIpView { resource_hash: value, ..acc },
            rest,
            depth,
        ),
{
    if value.len() == 0 {
        assert(blob_bytes(4, value) + rest =~= rest);
        assert(value =~= acc.resource_hash);
    } else {
        lemma_delimited(4, value, rest);
    }
}

proof fn lemma_geoip_code(acc: GeoIpView, value: Seq<char>, rest: Seq<u8>, depth: nat)
    requires
        acc.code.len() == 0,
        encode_utf8(value).len() <= u64::MAX,
    ensures
        geoip_fields(acc, text_bytes(5, value) + rest, depth) == geoip_fields(
            GeoIpView { code: value, ..acc },
            rest,
            depth,
        ),
{
    if value.len() == 0 {
        assert(text_bytes(5, value) + rest =~= rest);
        assert(value =~= acc.code);
    } else {
        lemma_text(5, value, rest);
    }
}

proof fn lemma_geoip_file_path(acc: GeoIpView, value: Seq<char>, rest: Seq<u8>, depth: nat)
    requires
        acc.file_path.len() == 0,
        encode_utf8(value).len() <= u64::MAX,
    ensures
        geoip_fields(acc, text_bytes(68000, value) + rest, depth) == geoip_fields(
            GeoIpView { file_path: value, ..acc },
            rest,
            depth,
        ),
{
    if value.len() == 0 {
        assert(text_bytes(68000, value) + rest =~= rest);
        assert(value =~= acc.file_path);
    } else {
        lemma_text(68000, value, rest);
    }
}

/// An address list that was encoded is decoded, at whatever depth it lies.
pub proof fn law_geoip_reads_back(v: GeoIpView, depth: nat)
    requires
        geoip_bytes(v).len() <= u64::MAX,
    ensures
        geoip_message(geoip_bytes(v), depth) == Some(v),
{
    reveal(geoip_bytes);
    let r5 = text_bytes(68000, v.file_path);
    let r4 = text_bytes(5, v.code) + r5;
    let r3 = blob_bytes(4, v.resource_hash) + r4;
    let r2 = number_bytes(3, flag(v.inverse_match)) + r3;
    let r1 = geoip_items_bytes(v.cidr) + r2;
    let a0 = empty_geoip();
    let a1 = GeoIpView { country_code: v.country_code, ..a0 };
    let a2 = GeoIpView { cidr: a1.cidr + v.cidr, ..a1 };
    let a3 = GeoIpView { inverse_match: v.inverse_match, ..a2 };
    let a4 = GeoIpView { resource_hash: v.resource_hash, ..a3 };
    let a5 = GeoIpView { code: v.code, ..a4 };
    let a6 = GeoIpView { file_path: v.file_path, ..a5 };
    lemma_geoip_country_code(a0, v.country_code, r1, depth);
    lemma_geoip_cidr(a1, v.cidr, r2, depth);
    lemma_geoip_inverse_match(a2, v.inverse_match, r3, depth);
    lemma_geoip_resource_hash(a3, v.resource_hash, r4, depth);
    lemma_geoip_code(a4, v.code, r5, depth);
    assert(text_bytes(68000, v.file_path) + Seq::<u8>::empty() =~= text_bytes(68000, v.file_path));
    lemma_geoip_file_path(a5, v.file_path, Seq::empty(), depth);
    assert(a6 =~= v);
}

/// The encoding of the items of a domain list, one field each.
pub open spec fn geosite_items_bytes(items: Seq<DomainView>) -> Seq<u8>
    decreases items.len(),
{
    if items.len() == 0 {
        Seq::empty()
    } else {
        delimited(2, domain_bytes(items[0])) + geosite_items_bytes(items.drop_first())
    }
}

/// The encoding of a domain list: its fields in the order of their tags, without those that hold
/// nothing.
#[verifier::opaque]
pub open spec fn geosite_bytes(v: GeoSiteView) -> Seq<u8> {
    text_bytes(1, v.country_code) + (geosite_items_bytes(v.domain) + (blob_bytes(
        3,
        v.resource_hash,
    ) + (text_bytes(4, v.code) + text_bytes(68000, v.file_path))))
}

proof fn lemma_geosite_country_code(acc: GeoSiteView, value: Seq<char>, rest: Seq<u8>, depth: nat)
    requires
        acc.country_code.len() == 0,
        encode_utf8(value).len() <= u64::MAX,
    ensures
        geosite_fields(acc, text_bytes(1, value) + rest, depth) == geosite_fields(
            GeoSiteView { country_code: value, ..acc },
            rest,
            depth,
        ),
{
    if value.len() == 0 {
        assert(text_bytes(1, value) + rest =~= rest);
        assert(value =~= acc.country_code);
    } else {
        lemma_text(1, value, rest);
    }
}

proof fn lemma_geosite_item(
    acc: GeoSiteView,
    body: Seq<u8>,
    item: DomainView,
    rest: Seq<u8>,
    depth: nat,
)
    requires
        body.len() <= u64::MAX,
        domain_message(body, depth + 1) == Some(item),
    ensures
        geosite_fields(acc, delimited(2, body) + rest, depth) == geosite_fields(
            GeoSiteView { domain: acc.domain.push(item), ..acc },
            rest,
            depth,
        ),
{
    lemma_delimited(2, body, rest);
    assert(geosite_field(acc, delimited(2, body) + rest, depth) == Some(
        (GeoSiteView { domain: acc.domain.push(item), ..acc }, rest),
    ));
}

proof fn lemma_geosite_domain(acc: GeoSiteView, items: Seq<DomainView>, rest: Seq<u8>, depth: nat)
    requires
        geosite_items_bytes(items).len() <= u64::MAX,
    ensures
        geosite_fields(acc, geosite_items_bytes(items) + rest, depth) == geosite_fields(
            GeoSiteView { domain: acc.domain + items, ..acc },
            rest,
            depth,
        ),
    decreases items.len(),
{
    let s = geosite_items_bytes(items) + rest;
    if items.len() == 0 {
        assert(s =~= rest);
        assert(acc.domain + items =~= acc.domain);
    } else {
        let tail = geosite_items_bytes(items.drop_first()) + rest;
        let next = GeoSiteView { domain: acc.domain.push(items[0]), ..acc };
        assert(s =~= delimited(2, domain_bytes(items[0])) + tail);
        law_domain_reads_back(items[0], depth + 1);
        lemma_geosite_item(acc, domain_bytes(items[0]), items[0], tail, depth);
        lemma_geosite_domain(next, items.drop_first(), rest, depth);
        assert(next.domain + items.drop_first() =~= acc.domain + items);
    }
}

proof fn lemma_geosite_resource_hash(acc: GeoSiteView, value: Seq<u8>, rest: Seq<u8>, depth: nat)
    requires
        acc.resource_hash.len() == 0,
        value.len() <= u64::MAX,
    ensures
        geosite_fields(acc, blob_bytes(3, value) + rest, depth) == geosite_fields(
            GeoSiteView { resource_hash: value, ..acc },
            rest,
            depth,
        ),
{
    if value.len() == 0 {
        assert(blob_bytes(3, value) + rest =~= rest);
        assert(value =~= acc.resource_hash);
    } else {
        lemma_delimited(3, value, rest);
    }
}

proof fn lemma_geosite_code(acc: GeoSiteView, value: Seq<char>, rest: Seq<u8>, depth: nat)
    requires
        acc.code.len() == 0,
        encode_utf8(value).len() <= u64::MAX,
    ensures
        geosite_fields(acc, text_bytes(4, value) + rest, depth) == geosite_fields(
            GeoSiteView { code: value, ..acc },
            rest,
            depth,
        ),
{
    if value.len() == 0 {
        assert(text_bytes(4, value) + rest =~= rest);
        assert(value =~= acc.code);
    } else {
        lemma_text(4, value, rest);
    }
}

proof fn lemma_geosite_file_path(acc: GeoSiteView, value: Seq<char>, rest: Seq<u8>, depth: nat)
    requires
        acc.file_path.len() == 0,
        encode_utf8(value).len() <= u64::MAX,
    ensures
        geosite_fields(acc, text_bytes(68000, value) + rest, depth) == geosite_fields(
            GeoSiteView { file_path: value, ..acc },
            rest,
            depth,
        ),
{
    if value.len() == 0 {
        assert(text_bytes(68000, value) + rest =~= rest);
        assert(value =~= acc.file_path);
    } else {
        lemma_text(68000, value, rest);
    }
}

/// A domain list that was encoded is decoded, at whatever depth it lies.
pub proof fn law_geosite_reads_back(v: GeoSiteView, depth: nat)
    requires
        geosite_bytes(v).len() <= u64::MAX,
    ensures
        geosite_message(geosite_bytes(v), depth) == Some(v),
{
    reveal(geosite_bytes);
    let r4 = text_bytes(68000, v.file_path);
    let r3 = text_bytes(4, v.code) + r4;
    let r2 = blob_bytes(3, v.resource_hash) + r3;
    let r1 = geosite_items_bytes(v.domain) + r2;
    let a0 = empty_geosite();
    let a1 = GeoSiteView { country_code: v.country_code, ..a0 };
    let a2 = GeoSiteView { domain: a1.domain + v.domain, ..a1 };
    let a3 = GeoSiteView { resource_hash: v.resource_hash, ..a2 };
    let a4 = GeoSiteView { code: v.code, ..a3 };
    let a5 = GeoSiteView { file_path: v.file_path, ..a4 };
    lemma_geosite_country_code(a0, v.country_code, r1, depth);
    lemma_geosite_domain(a1, v.domain, r2, depth);
    lemma_geosite_resource_hash(a2, v.resource_hash, r3, depth);
    lemma_geosite_code(a3, v.code, r4, depth);
    assert(text_bytes(68000, v.file_path) + Seq::<u8>::empty() =~= text_bytes(68000, v.file_path));
    lemma_geosite_file_path(a4, v.file_path, Seq::empty(), depth);
    assert(a5 =~= v);
}

/// The encoding of a file of domain lists.
pub open spec fn geosite_file_bytes(lists: Seq<GeoSiteView>) -> Seq<u8> {
    entry_file(Seq::new(lists.len(), |i: int| geosite_bytes(lists[i])))
}

proof fn lemma_geosite_entry(
    acc: Seq<GeoSiteView>,
    body: Seq<u8>,
    v: GeoSiteView,
    rest: Seq<u8>,
    depth: nat,
)
    requires
        body.len() <= u64::MAX,
        geosite_message(body, depth + 1) == Some(v),
    ensures
        geosite_list_fields(acc, entry_field(body) + rest, depth) == geosite_list_fields(
            acc.push(v),
            rest,
            depth,
        ),
{
    assert(key_bytes(1, 2) =~= seq![0x0Au8]);
    assert(entry_field(body) + rest =~= delimited(1, body) + rest);
    lemma_delimited(1, body, rest);
    assert(geosite_list_field(acc, entry_field(body) + rest, depth) == Some((acc.push(v), rest)));
}

proof fn lemma_geosite_list_fields(acc: Seq<GeoSiteView>, lists: Seq<GeoSiteView>, depth: nat)
    requires
        forall|i: int| 0 <= i < lists.len() ==> #[trigger] geosite_bytes(
            lists[i],
        ).len() <= usize::MAX,
    ensures
        geosite_list_fields(acc, geosite_file_bytes(lists), depth) == Some(acc + lists),
    decreases lists.len(),
{
    let payloads = Seq::new(lists.len(), |i: int| geosite_bytes(lists[i]));
    if lists.len() == 0 {
        assert(acc + lists =~= acc);
    } else {
        let tail = lists.drop_first();
        assert(payloads.drop_first() =~= Seq::new(tail.len(), |i: int| geosite_bytes(tail[i])));
        law_geosite_reads_back(lists[0], depth + 1);
        lemma_geosite_entry(
            acc,
            geosite_bytes(lists[0]),
            lists[0],
            geosite_file_bytes(tail),
            depth,
        );
        assert forall|i: int| 0 <= i < tail.len() implies #[trigger] geosite_bytes(tail[i]).len()
            <= usize::MAX by {
            assert(tail[i] == lists[i + 1]);
        }
        lemma_geosite_list_fields(acc.push(lists[0]), tail, depth);
        assert(acc.push(lists[0]) + tail =~= acc + lists);
    }
}

/// The domain lists that were written to a file are read back, in order, whether the file is
/// decoded as a whole or streamed entry by entry.
pub proof fn law_geosite_file_reads_back(lists: Seq<GeoSiteView>)
    requires
        forall|i: int| 0 <= i < lists.len() ==> #[trigger] geosite_bytes(
            lists[i],
        ).len() <= usize::MAX,
    ensures
        geosite_list_message(geosite_file_bytes(lists), 0) == Some(lists),
        geosite_visit(geosite_file_bytes(lists), geosite_file_bytes(lists).len(), None) == (
            lists,
            VisitEnd::Done,
        ),
{
    let payloads = Seq::new(lists.len(), |i: int| geosite_bytes(lists[i]));
    lemma_geosite_list_fields(Seq::empty(), lists, 0);
    assert(Seq::<GeoSiteView>::empty() + lists =~= lists);
    assert forall|i: int| 0 <= i < payloads.len() implies (#[trigger] payloads[i]).len()
        <= usize::MAX && geosite_message(payloads[i], 0) == Some(lists[i]) by {
        law_geosite_reads_back(lists[i], 0);
    }
    law_geosite_entries_are_streamed(payloads, lists, geosite_file_bytes(lists).len());
}

/// The encoding of a file of address lists.
pub open spec fn geoip_file_bytes(lists: Seq<GeoIpView>) -> Seq<u8> {
    entry_file(Seq::new(lists.len(), |i: int| geoip_bytes(lists[i])))
}

proof fn lemma_geoip_entry(
    acc: Seq<GeoIpView>,
    body: Seq<u8>,
    v: GeoIpView,
    rest: Seq<u8>,
    depth: nat,
)
    requires
        body.len() <= u64::MAX,
        geoip_message(body, depth + 1) == Some(v),
    ensures
        geoip_list_fields(acc, entry_field(body) + rest, depth) == geoip_list_fields(
            acc.push(v),
            rest,
            depth,
        ),
{
    assert(key_bytes(1, 2) =~= seq![0x0Au8]);
    assert(entry_field(body) + rest =~= delimited(1, body) + rest);
    lemma_delimited(1, body, rest);
    assert(geoip_list_field(acc, entry_field(body) + rest, depth) == Some((acc.push(v), rest)));
}

proof fn lemma_geoip_list_fields(acc: Seq<GeoIpView>, lists: Seq<GeoIpView>, depth: nat)
    requires
        forall|i: int| 0 <= i < lists.len() ==> #[trigger] geoip_bytes(
            lists[i],
        ).len() <= usize::MAX,
    ensures
        geoip_list_fields(acc, geoip_file_bytes(lists), depth) == Some(acc + lists),
    decreases lists.len(),
{
    let payloads = Seq::new(lists.len(), |i: int| geoip_bytes(lists[i]));
    if lists.len() == 0 {
        assert(acc + lists =~= acc);
    } else {
        let tail = lists.drop_first();
        assert(payloads.drop_first() =~= Seq::new(tail.len(), |i: int| geoip_bytes(tail[i])));
        law_geoip_reads_back(lists[0], depth + 1);
        lemma_geoip_entry(acc, geoip_bytes(lists[0]), lists[0], geoip_file_bytes(tail), depth);
        assert forall|i: int| 0 <= i < tail.len() implies #[trigger] geoip_bytes(tail[i]).len()
            <= usize::MAX by {
            assert(tail[i] == lists[i + 1]);
        }
        lemma_geoip_list_fields(acc.push(lists[0]), tail, depth);
        assert(acc.push(lists[0]) + tail =~= acc + lists);
    }
}

/// The address lists that were written to a file are read back, in order, whether the file is
/// decoded as a whole or streamed entry by entry.
pub proof fn law_geoip_file_reads_back(lists: Seq<GeoIpView>)
    requires
        forall|i: int| 0 <= i < lists.len() ==> #[trigger] geoip_bytes(
            lists[i],
        ).len() <= usize::MAX,
    ensures
        geoip_list_message(geoip_file_bytes(lists), 0) == Some(lists),
        geoip_visit(geoip_file_bytes(lists), geoip_file_bytes(lists).len(), None) == (
            lists,
            VisitEnd::Done,
        ),
{
    let payloads = Seq::new(lists.len(), |i: int| geoip_bytes(lists[i]));
    lemma_geoip_list_fields(Seq::empty(), lists, 0);
    assert(Seq::<GeoIpView>::empty() + lists =~= lists);
    assert forall|i: int| 0 <= i < payloads.len() implies (#[trigger] payloads[i]).len()
        <= usize::MAX && geoip_message(payloads[i], 0) == Some(lists[i]) by {
        law_geoip_reads_back(lists[i], 0);
    }
    law_geoip_entries_are_streamed(payloads, lists, geoip_file_bytes(lists).len());
}

} // verus!
