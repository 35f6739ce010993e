//! What each field of a message sets, whatever came before it, and which fields are refused.

use vstd::prelude::*;
use vstd::utf8::{encode_utf8, valid_utf8};

use super::decode::{
    attribute_field, attribute_fields, attribute_message, cidr_field, cidr_fields, cidr_message,
    domain_field, domain_fields, domain_message, geoip_field, geoip_fields, geoip_list_field,
    geoip_list_fields, geoip_message, geosite_field, geosite_fields, geosite_list_field,
    geosite_list_fields, geosite_message,
};
use super::encoding::{
    always_number_bytes, delimited, key_bytes, lemma_always_number, lemma_delimited, lemma_key,
    lemma_text,
};
use super::laws::{law_varint_reads_back, varint_bytes};
use super::model::{AttributeView, CidrView, DomainView, GeoIpView, GeoSiteView, TypedValue};

verus! {

/// Each field of an attribute sets what it is for, whatever was there before, and nothing else.
/// What follows it is read as it is by itself.
pub proof fn law_attribute_field_sets_its_value(
    acc: AttributeView,
    text: Seq<char>,
    n: u64,
    rest: Seq<u8>,
    depth: nat,
)
    requires
        encode_utf8(text).len() <= u64::MAX,
    ensures
        attribute_fields(acc, delimited(1, encode_utf8(text)) + rest, depth) == attribute_fields(
            AttributeView { key: text, ..acc },
            rest,
            depth,
        ),
        attribute_fields(acc, always_number_bytes(2, n) + rest, depth) == attribute_fields(
            AttributeView { typed_value: Some(TypedValue::BoolValue(n != 0)), ..acc },
            rest,
            depth,
        ),
        attribute_fields(acc, always_number_bytes(3, n) + rest, depth) == attribute_fields(
            AttributeView { typed_value: Some(TypedValue::IntValue(n as i64)), ..acc },
            rest,
            depth,
        ),
{
    lemma_text(1, text, rest);
    assert(attribute_field(acc, delimited(1, encode_utf8(text)) + rest, depth) == Some(
        (AttributeView { key: text, ..acc }, rest),
    ));
    lemma_always_number(2, n, rest);
    assert(attribute_field(acc, always_number_bytes(2, n) + rest, depth) == Some(
        (AttributeView { typed_value: Some(TypedValue::BoolValue(n != 0)), ..acc }, rest),
    ));
    lemma_always_number(3, n, rest);
    assert(attribute_field(acc, always_number_bytes(3, n) + rest, depth) == Some(
        (AttributeView { typed_value: Some(TypedValue::IntValue(n as i64)), ..acc }, rest),
    ));
}

/// A field of an attribute under another wire type than its own is refused.
pub proof fn law_attribute_wire_types(
    acc: AttributeView,
    tag: u32,
    wire: u8,
    rest: Seq<u8>,
    depth: nat,
)
    requires
        wire <= 5,
    ensures
        (tag == 2 || tag == 3) && wire != 0 ==> attribute_fields(
            acc,
            key_bytes(tag, wire) + rest,
            depth,
        ) is None,
        (tag == 1) && wire != 2 ==> attribute_fields(
            acc,
            key_bytes(tag, wire) + rest,
            depth,
        ) is None,
{
    if tag == 1 || tag == 2 || tag == 3 {
        lemma_key(tag, wire, rest);
    }
}

/// A text in an attribute that is no UTF-8 is refused.
pub proof fn law_attribute_texts_are_utf8(
    acc: AttributeView,
    tag: u32,
    body: Seq<u8>,
    rest: Seq<u8>,
    depth: nat,
)
    requires
        tag == 1,
        body.len() <= u64::MAX,
        !valid_utf8(body),
    ensures
        attribute_fields(acc, delimited(tag, body) + rest, depth) is None,
{
    lemma_delimited(tag, body, rest);
}

/// Each field of a domain rule sets what it is for, whatever was there before, and nothing else.
/// What follows it is read as it is by itself.
pub proof fn law_domain_field_sets_its_value(
    acc: DomainView,
    text: Seq<char>,
    n: u64,
    rest: Seq<u8>,
    depth: nat,
)
    requires
        encode_utf8(text).len() <= u64::MAX,
    ensures
        domain_fields(acc, always_number_bytes(1, n) + rest, depth) == domain_fields(
            DomainView { kind: n as i32, ..acc },
            rest,
            depth,
        ),
        domain_fields(acc, delimited(2, encode_utf8(text)) + rest, depth) == domain_fields(
            DomainView { value: text, ..acc },
            rest,
            depth,
        ),
{
    lemma_always_number(1, n, rest);
    assert(domain_field(acc, always_number_bytes(1, n) + rest, depth) == Some(
        (DomainView { kind: n as i32, ..acc }, rest),
    ));
    lemma_text(2, text, rest);
    assert(domain_field(acc, delimited(2, encode_utf8(text)) + rest, depth) == Some(
        (DomainView { value: text, ..acc }, rest),
    ));
}

/// A field of a domain rule that holds an item adds it behind those that are there, or is refused
/// where the item cannot be decoded.
pub proof fn law_domain_items_are_added(
    acc: DomainView,
    body: Seq<u8>,
    rest: Seq<u8>,
    depth: nat,
)
    requires
        body.len() <= u64::MAX,
    ensures
        domain_fields(acc, delimited(3, body) + rest, depth) == (match attribute_message(
            body,
            depth + 1,
        ) {
            Some(item) => domain_fields(
                DomainView { attribute: acc.attribute.push(item), ..acc },
                rest,
                depth,
            ),
            None => None,
        }),
{
    lemma_delimited(3, body, rest);
    match attribute_message(body, depth + 1) {
        Some(item) => {
            assert(domain_field(acc, delimited(3, body) + rest, depth) == Some(
                (DomainView { attribute: acc.attribute.push(item), ..acc }, rest),
            ));
        },
        None => {},
    }
}

/// A field of a domain rule under another wire type than its own is refused.
pub proof fn law_domain_wire_types(
    acc: DomainView,
    tag: u32,
    wire: u8,
    rest: Seq<u8>,
    depth: nat,
)
    requires
        wire <= 5,
    ensures
        (tag == 1) && wire != 0 ==> domain_fields(
            acc,
            key_bytes(tag, wire) + rest,
            depth,
        ) is None,
        (tag == 2 || tag == 3) && wire != 2 ==> domain_fields(
            acc,
            key_bytes(tag, wire) + rest,
            depth,
        ) is None,
{
    if tag == 1 || tag == 2 || tag == 3 {
        lemma_key(tag, wire, rest);
    }
}

/// A text in a domain rule that is no UTF-8 is refused.
pub proof fn law_domain_texts_are_utf8(
    acc: DomainView,
    tag: u32,
    body: Seq<u8>,
    rest: Seq<u8>,
    depth: nat,
)
    requires
        tag == 2,
        body.len() <= u64::MAX,
        !valid_utf8(body),
    ensures
        domain_fields(acc, delimited(tag, body) + rest, depth) is None,
{
    lemma_delimited(tag, body, rest);
}

/// Each field of an address block sets what it is for, whatever was there before, and nothing else.
/// What follows it is read as it is by itself.
pub proof fn law_cidr_field_sets_its_value(
    acc: CidrView,
    bytes: Seq<u8>,
    n: u64,
    rest: Seq<u8>,
    depth: nat,
)
    requires
        bytes.len() <= u64::MAX,
    ensures
        cidr_fields(acc, delimited(1, bytes) + rest, depth) == cidr_fields(
            CidrView { ip: bytes, ..acc },
            rest,
            depth,
        ),
        cidr_fields(acc, always_number_bytes(2, n) + rest, depth) == cidr_fields(
            CidrView { prefix: n as u32, ..acc },
            rest,
            depth,
        ),
{
    lemma_delimited(1, bytes, rest);
    assert(cidr_field(acc, delimited(1, bytes) + rest, depth) == Some(
        (CidrView { ip: bytes, ..acc }, rest),
    ));
    lemma_always_number(2, n, rest);
    assert(cidr_field(acc, always_number_bytes(2, n) + rest, depth) == Some(
        (CidrView { prefix: n as u32, ..acc }, rest),
    ));
}

/// A field of an address block under another wire type than its own is refused.
pub proof fn law_cidr_wire_types(
    acc: CidrView,
    tag: u32,
    wire: u8,
    rest: Seq<u8>,
    depth: nat,
)
    requires
        wire <= 5,
    ensures
        (tag == 2) && wire != 0 ==> cidr_fields(
            acc,
            key_bytes(tag, wire) + rest,
            depth,
        ) is None,
        (tag == 1) && wire != 2 ==> cidr_fields(
            acc,
            key_bytes(tag, wire) + rest,
            depth,
        ) is None,
{
    if tag == 1 || tag == 2 {
        lemma_key(tag, wire, rest);
    }
}

/// Each field of an address list sets what it is for, whatever was there before, and nothing else.
/// What follows it is read as it is by itself.
pub proof fn law_geoip_field_sets_its_value(
    acc: GeoIpView,
    text: Seq<char>,
    bytes: Seq<u8>,
    n: u64,
    rest: Seq<u8>,
    depth: nat,
)
    requires
        encode_utf8(text).len() <= u64::MAX,
        bytes.len() <= u64::MAX,
    ensures
        geoip_fields(acc, delimited(1, encode_utf8(text)) + rest, depth) == geoip_fields(
            GeoIpView { country_code: text, ..acc },
            rest,
            depth,
        ),
        geoip_fields(acc, always_number_bytes(3, n) + rest, depth) == geoip_fields(
            GeoIpView { inverse_match: n != 0, ..acc },
            rest,
            depth,
        ),
        geoip_fields(acc, delimited(4, bytes) + rest, depth) == geoip_fields(
            GeoIpView { resource_hash: bytes, ..acc },
            rest,
            depth,
        ),
        geoip_fields(acc, delimited(5, encode_utf8(text)) + rest, depth) == geoip_fields(
            GeoIpView { code: text, ..acc },
            rest,
            depth,
        ),
        geoip_fields(acc, delimited(68000, encode_utf8(text)) + rest, depth) == geoip_fields(
            GeoIpView { file_path: text, ..acc },
            rest,
            depth,
        ),
{
    lemma_text(1, text, rest);
    assert(geoip_field(acc, delimited(1, encode_utf8(text)) + rest, depth) == Some(
        (GeoIpView { country_code: text, ..acc }, rest),
    ));
    lemma_always_number(3, n, rest);
    assert(geoip_field(acc, always_number_bytes(3, n) + rest, depth) == Some(
        (GeoIpView { inverse_match: n != 0, ..acc }, rest),
    ));
    lemma_delimited(4, bytes, rest);
    assert(geoip_field(acc, delimited(4, bytes) + rest, depth) == Some(
        (GeoIpView { resource_hash: bytes, ..acc }, rest),
    ));
    lemma_text(5, text, rest);
    assert(geoip_field(acc, delimited(5, encode_utf8(text)) + rest, depth) == Some(
        (GeoIpView { code: text, ..acc }, rest),
    ));
    lemma_text(68000, text, rest);
    assert(geoip_field(acc, delimited(68000, encode_utf8(text)) + rest, depth) == Some(
        (GeoIpView { file_path: text, ..acc }, rest),
    ));
}

/// A field of an address list that holds an item adds it behind those that are there, or is refused
/// where the item cannot be decoded.
pub proof fn law_geoip_items_are_added(
    acc: GeoIpView,
    body: Seq<u8>,
    rest: Seq<u8>,
    depth: nat,
)
    requires
        body.len() <= u64::MAX,
    ensures
        geoip_fields(acc, delimited(2, body) + rest, depth) == (match cidr_message(
            body,
            depth + 1,
        ) {
            Some(item) => geoip_fields(
                GeoIpView { cidr: acc.cidr.push(item), ..acc },
                rest,
                depth,
            ),
            None => None,
        }),
{
    lemma_delimited(2, body, rest);
    match cidr_message(body, depth + 1) {
        Some(item) => {
            assert(geoip_field(acc, delimited(2, body) + rest, depth) == Some(
                (GeoIpView { cidr: acc.cidr.push(item), ..acc }, rest),
            ));
        },
        None => {},
    }
}

/// A field of an address list under another wire type than its own is refused.
pub proof fn law_geoip_wire_types(
    acc: GeoIpView,
    tag: u32,
    wire: u8,
    rest: Seq<u8>,
    depth: nat,
)
    requires
        wire <= 5,
    ensures
        (tag == 3) && wire != 0 ==> geoip_fields(
            acc,
            key_bytes(tag, wire) + rest,
            depth,
        ) is None,
        (tag == 1 || tag == 2 || tag == 4 || tag == 5 || tag == 68000) && wire != 2
            ==> geoip_fields(acc, key_bytes(tag, wire) + rest, depth) is None,
{
    if tag == 1 || tag == 2 || tag == 3 || tag == 4 || tag == 5 || tag == 68000 {
        lemma_key(tag, wire, rest);
    }
}

/// A text in an address list that is no UTF-8 is refused.
pub proof fn law_geoip_texts_are_utf8(
    acc: GeoIpView,
    tag: u32,
    body: Seq<u8>,
    rest: Seq<u8>,
    depth: nat,
)
    requires
        tag == 1 || tag == 5 || tag == 68000,
        body.len() <= u64::MAX,
        !valid_utf8(body),
    ensures
        geoip_fields(acc, delimited(tag, body) + rest, depth) is None,
{
    lemma_delimited(tag, body, rest);
}

/// Each field of a domain list sets what it is for, whatever was there before, and nothing else.
/// What follows it is read as it is by itself.
pub proof fn law_geosite_field_sets_its_value(
    acc: GeoSiteView,
    text: Seq<char>,
    bytes: Seq<u8>,
    rest: Seq<u8>,
    depth: nat,
)
    requires
        encode_utf8(text).len() <= u64::MAX,
        bytes.len() <= u64::MAX,
    ensures
        geosite_fields(acc, delimited(1, encode_utf8(text)) + rest, depth) == geosite_fields(
            GeoSiteView { country_code: text, ..acc },
            rest,
            depth,
        ),
        geosite_fields(acc, delimited(3, bytes) + rest, depth) == geosite_fields(
            GeoSiteView { resource_hash: bytes, ..acc },
            rest,
            depth,
        ),
        geosite_fields(acc, delimited(4, encode_utf8(text)) + rest, depth) == geosite_fields(
            GeoSiteView { code: text, ..acc },
            rest,
            depth,
        ),
        geosite_fields(acc, delimited(68000, encode_utf8(text)) + rest, depth) == geosite_fields(
            GeoSiteView { file_path: text, ..acc },
            rest,
            depth,
        ),
{
    lemma_text(1, text, rest);
    assert(geosite_field(acc, delimited(1, encode_utf8(text)) + rest, depth) == Some(
        (GeoSiteView { country_code: text, ..acc }, rest),
    ));
    lemma_delimited(3, bytes, rest);
    assert(geosite_field(acc, delimited(3, bytes) + rest, depth) == Some(
        (GeoSiteView { resource_hash: bytes, ..acc }, rest),
    ));
    lemma_text(4, text, rest);
    assert(geosite_field(acc, delimited(4, encode_utf8(text)) + rest, depth) == Some(
        (GeoSiteView { code: text, ..acc }, rest),
    ));
    lemma_text(68000, text, rest);
    assert(geosite_field(acc, delimited(68000, encode_utf8(text)) + rest, depth) == Some(
        (GeoSiteView { file_path: text, ..acc }, rest),
    ));
}

/// A field of a domain list that holds an item adds it behind those that are there, or is refused
/// where the item cannot be decoded.
pub proof fn law_geosite_items_are_added(
    acc: GeoSiteView,
    body: Seq<u8>,
    rest: Seq<u8>,
    depth: nat,
)
    requires
        body.len() <= u64::MAX,
    ensures
        geosite_fields(acc, delimited(2, body) + rest, depth) == (match domain_message(
            body,
            depth + 1,
        ) {
            Some(item) => geosite_fields(
                GeoSiteView { domain: acc.domain.push(item), ..acc },
                rest,
                depth,
            ),
            None => None,
        }),
{
    lemma_delimited(2, body, rest);
    match domain_message(body, depth + 1) {
        Some(item) => {
            assert(geosite_field(acc, delimited(2, body) + rest, depth) == Some(
                (GeoSiteView { domain: acc.domain.push(item), ..acc }, rest),
            ));
        },
        None => {},
    }
}

/// A field of a domain list under another wire type than its own is refused.
pub proof fn law_geosite_wire_types(
    acc: GeoSiteView,
    tag: u32,
    wire: u8,
    rest: Seq<u8>,
    depth: nat,
)
    requires
        wire <= 5,
    ensures
        (tag == 1 || tag == 2 || tag == 3 || tag == 4 || tag == 68000) && wire != 2
            ==> geosite_fields(acc, key_bytes(tag, wire) + rest, depth) is None,
{
    if tag == 1 || tag == 2 || tag == 3 || tag == 4 || tag == 68000 {
        lemma_key(tag, wire, rest);
    }
}

/// A text in a domain list that is no UTF-8 is refused.
pub proof fn law_geosite_texts_are_utf8(
    acc: GeoSiteView,
    tag: u32,
    body: Seq<u8>,
    rest: Seq<u8>,
    depth: nat,
)
    requires
        tag == 1 || tag == 4 || tag == 68000,
        body.len() <= u64::MAX,
        !valid_utf8(body),
    ensures
        geosite_fields(acc, delimited(tag, body) + rest, depth) is None,
{
    lemma_delimited(tag, body, rest);
}

/// An entry of a file of address lists is added behind those that are there, or the file is refused
/// where the entry cannot be decoded or holds no bytes.
pub proof fn law_geoip_entries_are_added(
    acc: Seq<GeoIpView>,
    body: Seq<u8>,
    wire: u8,
    rest: Seq<u8>,
    depth: nat,
)
    requires
        body.len() <= u64::MAX,
        wire <= 5,
    ensures
        geoip_list_fields(acc, delimited(1, body) + rest, depth) == (match geoip_message(
            body,
            depth + 1,
        ) {
            Some(item) => geoip_list_fields(acc.push(item), rest, depth),
            None => None,
        }),
        wire != 2 ==> geoip_list_fields(acc, key_bytes(1, wire) + rest, depth) is None,
{
    lemma_delimited(1, body, rest);
    lemma_key(1, wire, rest);
    if let Some(item) = geoip_message(body, depth + 1) {
        assert(geoip_list_field(acc, delimited(1, body) + rest, depth) == Some(
            (acc.push(item), rest),
        ));
    }
}

/// An entry of a file of domain lists is added behind those that are there, or the file is refused
/// where the entry cannot be decoded or holds no bytes.
pub proof fn law_geosite_entries_are_added(
    acc: Seq<GeoSiteView>,
    body: Seq<u8>,
    wire: u8,
    rest: Seq<u8>,
    depth: nat,
)
    requires
        body.len() <= u64::MAX,
        wire <= 5,
    ensures
        geosite_list_fields(acc, delimited(1, body) + rest, depth) == (match geosite_message(
            body,
            depth + 1,
        ) {
            Some(item) => geosite_list_fields(acc.push(item), rest, depth),
            None => None,
        }),
        wire != 2 ==> geosite_list_fields(acc, key_bytes(1, wire) + rest, depth) is None,
{
    lemma_delimited(1, body, rest);
    lemma_key(1, wire, rest);
    if let Some(item) = geosite_message(body, depth + 1) {
        assert(geosite_list_field(acc, delimited(1, body) + rest, depth) == Some(
            (acc.push(item), rest),
        ));
    }
}

/// Bytes that start with no key are no message: a key that is too large, or has no number, or a
/// wire type that does not exist, is refused wherever it stands.
pub proof fn law_bad_key_is_refused(key: u64, rest: Seq<u8>, depth: nat)
    requires
        key < 8 || key > 0xFFFF_FFFF || key % 8 > 5,
    ensures
        ({
            let s = varint_bytes(key as nat) + rest;
            &&& forall|v: AttributeView| (#[trigger] attribute_fields(v, s, depth)) is None
            &&& forall|v: DomainView| (#[trigger] domain_fields(v, s, depth)) is None
            &&& forall|v: CidrView| (#[trigger] cidr_fields(v, s, depth)) is None
            &&& forall|v: GeoIpView| (#[trigger] geoip_fields(v, s, depth)) is None
            &&& forall|v: GeoSiteView| (#[trigger] geosite_fields(v, s, depth)) is None
            &&& forall|v: Seq<GeoIpView>| (#[trigger] geoip_list_fields(v, s, depth)) is None
            &&& forall|v: Seq<GeoSiteView>| (#[trigger] geosite_list_fields(v, s, depth)) is None
        }),
{
    law_varint_reads_back(key, rest);
}

/// A message without bytes leaves everything as it is.
pub proof fn law_no_field_sets_nothing(depth: nat)
    ensures
        forall|v: AttributeView| #[trigger] attribute_fields(v, Seq::empty(), depth) == Some(v),
        forall|v: DomainView| #[trigger] domain_fields(v, Seq::empty(), depth) == Some(v),
        forall|v: CidrView| #[trigger] cidr_fields(v, Seq::empty(), depth) == Some(v),
        forall|v: GeoIpView| #[trigger] geoip_fields(v, Seq::empty(), depth) == Some(v),
        forall|v: GeoSiteView| #[trigger] geosite_fields(v, Seq::empty(), depth) == Some(v),
        forall|v: Seq<GeoIpView>| #[trigger] geoip_list_fields(v, Seq::empty(), depth) == Some(v),
        forall|v: Seq<GeoSiteView>| #[trigger]
            geosite_list_fields(v, Seq::empty(), depth) == Some(v),
{
}

/// A field that is said to hold more bytes than there are is refused.
pub proof fn law_short_bytes_are_refused(tag: u32, len: u64, body: Seq<u8>, depth: nat)
    requires
        1 <= tag < 0x2000_0000,
        body.len() < len,
    ensures
        ({
            let s = key_bytes(tag, 2) + (varint_bytes(len as nat) + body);
            &&& tag <= 3 ==> forall|v: AttributeView|
                (#[trigger] attribute_fields(v, s, depth)) is None
            &&& tag <= 3 ==> forall|v: DomainView| (#[trigger] domain_fields(v, s, depth)) is None
            &&& tag <= 2 ==> forall|v: CidrView| (#[trigger] cidr_fields(v, s, depth)) is None
            &&& tag <= 5 || tag == 68000 ==> forall|v: GeoIpView|
                (#[trigger] geoip_fields(v, s, depth)) is None
            &&& tag <= 4 || tag == 68000 ==> forall|v: GeoSiteView|
                (#[trigger] geosite_fields(v, s, depth)) is None
            &&& tag == 1 ==> forall|v: Seq<GeoIpView>|
                (#[trigger] geoip_list_fields(v, s, depth)) is None
            &&& tag == 1 ==> forall|v: Seq<GeoSiteView>|
                (#[trigger] geosite_list_fields(v, s, depth)) is None
        }),
{
    law_varint_reads_back(len, body);
    lemma_key(tag, 2, varint_bytes(len as nat) + body);
}

} // verus!
