//! Decoding of the rule file messages: the fields of each message, by tag.
//!
//! A field that comes up again replaces what it had, or is added where the field is a list.
//! A field with another tag is passed over. `depth` counts the messages around the one that is
//! decoded.

use vstd::prelude::*;

use prost::DecodeError;

use super::field::{
    after_unknown, bytes_field, field_key, string_field, varint_field,
};
use super::field::{
    decode_key, located, merge_bool, merge_bytes, merge_int32, merge_int64, merge_string,
    merge_uint32, skip_unknown,
};
use super::model::{
    Attribute, AttributeView, Cidr, CidrView, Domain, DomainView, GeoIp, GeoIpList, GeoIpView,
    GeoSite, GeoSiteList, GeoSiteView, TypedValue,
};

verus! {

/// Whatever a field is read as, fewer bytes follow it than there were.
pub proof fn lemma_fields_shrink(s: Seq<u8>, depth: nat)
    requires
        s.len() > 0,
    ensures
        field_key(s) matches Some((_, wire, body)) ==> {
            &&& body.len() < s.len()
            &&& (varint_field(wire, body) matches Some((_, rest)) ==> rest.len() <= body.len())
            &&& (bytes_field(wire, body) matches Some((_, rest)) ==> rest.len() <= body.len())
            &&& (string_field(wire, body) matches Some((_, rest)) ==> rest.len() <= body.len())
        },
        after_unknown(s, depth) matches Some(rest) ==> rest.len() < s.len(),
{
    reveal(after_unknown);
}

/// An attribute without any field set.
pub open spec fn empty_attribute() -> AttributeView {
    AttributeView { key: Seq::empty(), typed_value: None }
}

/// `acc` with the field at the start of `s` merged into it, and the bytes after that field.
pub open spec fn attribute_field(
    acc: AttributeView,
    s: Seq<u8>,
    depth: nat,
) -> Option<(AttributeView, Seq<u8>)> {
    match field_key(s) {
        None => None,
        Some((tag, wire, body)) => if tag == 1 {
            match string_field(wire, body) {
                None => None,
                Some((value, rest)) => Some((AttributeView { key: value, ..acc }, rest)),
            }
        } else if tag == 2 {
            match varint_field(wire, body) {
                None => None,
                Some((value, rest)) => Some(
                    (
                        AttributeView {
                            typed_value: Some(TypedValue::BoolValue(value != 0)),
                            ..acc
                        },
                        rest,
                    ),
                ),
            }
        } else if tag == 3 {
            match varint_field(wire, body) {
                None => None,
                Some((value, rest)) => Some(
                    (
                        AttributeView {
                            typed_value: Some(TypedValue::IntValue(value as i64)),
                            ..acc
                        },
                        rest,
                    ),
                ),
            }
        } else {
            match after_unknown(s, depth) {
                None => None,
                Some(rest) => Some((acc, rest)),
            }
        },
    }
}

/// `acc` with all the fields in `s` merged into it, one after the other.
pub open spec fn attribute_fields(
    acc: AttributeView,
    s: Seq<u8>,
    depth: nat,
) -> Option<AttributeView>
    decreases s.len(),
{
    if s.len() == 0 {
        Some(acc)
    } else {
        proof {
            lemma_fields_shrink(s, depth);
        }
        match attribute_field(acc, s, depth) {
            None => None,
            Some((acc, rest)) => attribute_fields(acc, rest, depth),
        }
    }
}

/// The attribute that `s` encodes, if it encodes one.
pub open spec fn attribute_message(s: Seq<u8>, depth: nat) -> Option<AttributeView> {
    attribute_fields(empty_attribute(), s, depth)
}

fn merge_attribute_field<'a>(msg: &mut Attribute, bytes: &'a [u8], depth: u32) -> (r: Result<
    &'a [u8],
    DecodeError,
>)
    requires
        depth < 100,
    ensures
        match attribute_field(old(msg)@, bytes@, depth as nat) {
            Some((v, rest)) => r matches Ok(next) && next@ == rest && final(msg)@ == v,
            None => r is Err,
        },
{
    let (tag, wire, body) = match decode_key(bytes) {
        Ok(k) => k,
        Err(e) => return Err(e),
    };
    if tag == 1 {
        match merge_string(wire, body) {
            Ok((value, next)) => {
                msg.key = value;
                Ok(next)
            },
            Err(e) => Err(located(e, "Attribute", "key")),
        }
    } else if tag == 2 {
        match merge_bool(wire, body) {
            Ok((value, next)) => {
                msg.typed_value = Some(TypedValue::BoolValue(value));
                Ok(next)
            },
            Err(e) => Err(located(e, "Attribute", "typed_value")),
        }
    } else if tag == 3 {
        match merge_int64(wire, body) {
            Ok((value, next)) => {
                msg.typed_value = Some(TypedValue::IntValue(value));
                Ok(next)
            },
            Err(e) => Err(located(e, "Attribute", "typed_value")),
        }
    } else {
        skip_unknown(bytes, depth)
    }
}

/// Decodes an attribute.
fn decode_attribute(bytes: &[u8], depth: u32) -> (r: Result<Attribute, DecodeError>)
    requires
        depth < 100,
    ensures
        match attribute_message(bytes@, depth as nat) {
            Some(v) => r matches Ok(m) && m@ == v,
            None => r is Err,
        },
{
    let mut msg = Attribute { key: String::new(), typed_value: None };
    assert(msg@ =~= empty_attribute());
    let mut rest = bytes;
    while rest.len() > 0
        invariant
            depth < 100,
            attribute_message(bytes@, depth as nat) == attribute_fields(msg@, rest@, depth as nat),
        decreases rest@.len(),
    {
        proof {
            lemma_fields_shrink(rest@, depth as nat);
        }
        match merge_attribute_field(&mut msg, rest, depth) {
            Ok(next) => rest = next,
            Err(e) => return Err(e),
        }
    }
    Ok(msg)
}

/// A domain rule without any field set.
pub open spec fn empty_domain() -> DomainView {
    DomainView { kind: 0, value: Seq::empty(), attribute: Seq::empty() }
}

/// `acc` with the field at the start of `s` merged into it, and the bytes after that field.
pub open spec fn domain_field(
    acc: DomainView,
    s: Seq<u8>,
    depth: nat,
) -> Option<(DomainView, Seq<u8>)> {
    match field_key(s) {
        None => None,
        Some((tag, wire, body)) => if tag == 1 {
            match varint_field(wire, body) {
                None => None,
                Some((value, rest)) => Some((DomainView { kind: value as i32, ..acc }, rest)),
            }
        } else if tag == 2 {
            match string_field(wire, body) {
                None => None,
                Some((value, rest)) => Some((DomainView { value, ..acc }, rest)),
            }
        } else if tag == 3 {
            match bytes_field(wire, body) {
                None => None,
                Some((inner, rest)) => match attribute_message(inner, depth + 1) {
                    None => None,
                    Some(item) => Some(
                        (DomainView { attribute: acc.attribute.push(item), ..acc }, rest),
                    ),
                },
            }
        } else {
            match after_unknown(s, depth) {
                None => None,
                Some(rest) => Some((acc, rest)),
            }
        },
    }
}

/// `acc` with all the fields in `s` merged into it, one after the other.
pub open spec fn domain_fields(acc: DomainView, s: Seq<u8>, depth: nat) -> Option<DomainView>
    decreases s.len(),
{
    if s.len() == 0 {
        Some(acc)
    } else {
        proof {
            lemma_fields_shrink(s, depth);
        }
        match domain_field(acc, s, depth) {
            None => None,
            Some((acc, rest)) => domain_fields(acc, rest, depth),
        }
    }
}

/// The domain rule that `s` encodes, if it encodes one.
pub open spec fn domain_message(s: Seq<u8>, depth: nat) -> Option<DomainView> {
    domain_fields(empty_domain(), s, depth)
}

fn merge_domain_field<'a>(msg: &mut Domain, bytes: &'a [u8], depth: u32) -> (r: Result<
    &'a [u8],
    DecodeError,
>)
    requires
        depth < 99,
    ensures
        match domain_field(old(msg)@, bytes@, depth as nat) {
            Some((v, rest)) => r matches Ok(next) && next@ == rest && final(msg)@ == v,
            None => r is Err,
        },
{
    let (tag, wire, body) = match decode_key(bytes) {
        Ok(k) => k,
        Err(e) => return Err(e),
    };
    if tag == 1 {
        match merge_int32(wire, body) {
            Ok((value, next)) => {
                msg.kind = value;
                Ok(next)
            },
            Err(e) => Err(located(e, "Domain", "type")),
        }
    } else if tag == 2 {
        match merge_string(wire, body) {
            Ok((value, next)) => {
                msg.value = value;
                Ok(next)
            },
            Err(e) => Err(located(e, "Domain", "value")),
        }
    } else if tag == 3 {
        match merge_bytes(wire, body) {
            Ok((inner, next)) => match decode_attribute(inner.as_slice(), depth + 1) {
                Ok(item) => {
                    msg.attribute.push(item);
                    assert(msg@.attribute =~= old(msg)@.attribute.push(item@));
                    Ok(next)
                },
                Err(e) => Err(located(e, "Domain", "attribute")),
            },
            Err(e) => Err(located(e, "Domain", "attribute")),
        }
    } else {
        skip_unknown(bytes, depth)
    }
}

/// Decodes a domain rule.
fn decode_domain(bytes: &[u8], depth: u32) -> (r: Result<Domain, DecodeError>)
    requires
        depth < 99,
    ensures
        match domain_message(bytes@, depth as nat) {
            Some(v) => r matches Ok(m) && m@ == v,
            None => r is Err,
        },
{
    let mut msg = Domain { kind: 0, value: String::new(), attribute: Vec::new() };
    assert(msg@ =~= empty_domain());
    let mut rest = bytes;
    while rest.len() > 0
        invariant
            depth < 99,
            domain_message(bytes@, depth as nat) == domain_fields(msg@, rest@, depth as nat),
        decreases rest@.len(),
    {
        proof {
            lemma_fields_shrink(rest@, depth as nat);
        }
        match merge_domain_field(&mut msg, rest, depth) {
            Ok(next) => rest = next,
            Err(e) => return Err(e),
        }
    }
    Ok(msg)
}

/// An address block without any field set.
pub open spec fn empty_cidr() -> CidrView {
    CidrView { ip: Seq::empty(), prefix: 0 }
}

/// `acc` with the field at the start of `s` merged into it, and the bytes after that field.
pub open spec fn cidr_field(acc: CidrView, s: Seq<u8>, depth: nat) -> Option<(CidrView, Seq<u8>)> {
    match field_key(s) {
        None => None,
        Some((tag, wire, body)) => if tag == 1 {
            match bytes_field(wire, body) {
                None => None,
                Some((value, rest)) => Some((CidrView { ip: value, ..acc }, rest)),
            }
        } else if tag == 2 {
            match varint_field(wire, body) {
                None => None,
                Some((value, rest)) => Some((CidrView { prefix: value as u32, ..acc }, rest)),
            }
        } else {
            match after_unknown(s, depth) {
                None => None,
                Some(rest) => Some((acc, rest)),
            }
        },
    }
}

/// `acc` with all the fields in `s` merged into it, one after the other.
pub open spec fn cidr_fields(acc: CidrView, s: Seq<u8>, depth: nat) -> Option<CidrView>
    decreases s.len(),
{
    if s.len() == 0 {
        Some(acc)
    } else {
        proof {
            lemma_fields_shrink(s, depth);
        }
        match cidr_field(acc, s, depth) {
            None => None,
            Some((acc, rest)) => cidr_fields(acc, rest, depth),
        }
    }
}

/// The address block that `s` encodes, if it encodes one.
pub open spec fn cidr_message(s: Seq<u8>, depth: nat) -> Option<CidrView> {
    cidr_fields(empty_cidr(), s, depth)
}

fn merge_cidr_field<'a>(msg: &mut Cidr, bytes: &'a [u8], depth: u32) -> (r: Result<
    &'a [u8],
    DecodeError,
>)
    requires
        depth < 100,
    ensures
        match cidr_field(old(msg)@, bytes@, depth as nat) {
            Some((v, rest)) => r matches Ok(next) && next@ == rest && final(msg)@ == v,
            None => r is Err,
        },
{
    let (tag, wire, body) = match decode_key(bytes) {
        Ok(k) => k,
        Err(e) => return Err(e),
    };
    if tag == 1 {
        match merge_bytes(wire, body) {
            Ok((value, next)) => {
                msg.ip = value;
                Ok(next)
            },
            Err(e) => Err(located(e, "Cidr", "ip")),
        }
    } else if tag == 2 {
        match merge_uint32(wire, body) {
            Ok((value, next)) => {
                msg.prefix = value;
                Ok(next)
            },
            Err(e) => Err(located(e, "Cidr", "prefix")),
        }
    } else {
        skip_unknown(bytes, depth)
    }
}

/// Decodes an address block.
fn decode_cidr(bytes: &[u8], depth: u32) -> (r: Result<Cidr, DecodeError>)
    requires
        depth < 100,
    ensures
        match cidr_message(bytes@, depth as nat) {
            Some(v) => r matches Ok(m) && m@ == v,
            None => r is Err,
        },
{
    let mut msg = Cidr { ip: Vec::new(), prefix: 0 };
    assert(msg@ =~= empty_cidr());
    let mut rest = bytes;
    while rest.len() > 0
        invariant
            depth < 100,
            cidr_message(bytes@, depth as nat) == cidr_fields(msg@, rest@, depth as nat),
        decreases rest@.len(),
    {
        proof {
            lemma_fields_shrink(rest@, depth as nat);
        }
        match merge_cidr_field(&mut msg, rest, depth) {
            Ok(next) => rest = next,
            Err(e) => return Err(e),
        }
    }
    Ok(msg)
}

/// An address list without any field set.
pub open spec fn empty_geoip() -> GeoIpView {
    GeoIpView {
        country_code: Seq::empty(),
        cidr: Seq::empty(),
        inverse_match: false,
        resource_hash: Seq::empty(),
        code: Seq::empty(),
        file_path: Seq::empty(),
    }
}

/// `acc` with the field at the start of `s` merged into it, and the bytes after that field.
pub open spec fn geoip_field(
    acc: GeoIpView,
    s: Seq<u8>,
    depth: nat,
) -> Option<(GeoIpView, Seq<u8>)> {
    match field_key(s) {
        None => None,
        Some((tag, wire, body)) => if tag == 1 {
            match string_field(wire, body) {
                None => None,
                Some((value, rest)) => Some((GeoIpView { country_code: value, ..acc }, rest)),
            }
        } else if tag == 2 {
            match bytes_field(wire, body) {
                None => None,
                Some((inner, rest)) => match cidr_message(inner, depth + 1) {
                    None => None,
                    Some(item) => Some((GeoIpView { cidr: acc.cidr.push(item), ..acc }, rest)),
                },
            }
        } else if tag == 3 {
            match varint_field(wire, body) {
                None => None,
                Some((value, rest)) => Some((GeoIpView { inverse_match: value != 0, ..acc }, rest)),
            }
        } else if tag == 4 {
            match bytes_field(wire, body) {
                None => None,
                Some((value, rest)) => Some((GeoIpView { resource_hash: value, ..acc }, rest)),
            }
        } else if tag == 5 {
            match string_field(wire, body) {
                None => None,
                Some((value, rest)) => Some((GeoIpView { code: value, ..acc }, rest)),
            }
        } else if tag == 68000 {
            match string_field(wire, body) {
                None => None,
                Some((value, rest)) => Some((GeoIpView { file_path: value, ..acc }, rest)),
            }
        } else {
            match after_unknown(s, depth) {
                None => None,
                Some(rest) => Some((acc, rest)),
            }
        },
    }
}

/// `acc` with all the fields in `s` merged into it, one after the other.
pub open spec fn geoip_fields(acc: GeoIpView, s: Seq<u8>, depth: nat) -> Option<GeoIpView>
    decreases s.len(),
{
    if s.len() == 0 {
        Some(acc)
    } else {
        proof {
            lemma_fields_shrink(s, depth);
        }
        match geoip_field(acc, s, depth) {
            None => None,
            Some((acc, rest)) => geoip_fields(acc, rest, depth),
        }
    }
}

/// The address list that `s` encodes, if it encodes one.
pub open spec fn geoip_message(s: Seq<u8>, depth: nat) -> Option<GeoIpView> {
    geoip_fields(empty_geoip(), s, depth)
}

fn merge_geoip_field<'a>(msg: &mut GeoIp, bytes: &'a [u8], depth: u32) -> (r: Result<
    &'a [u8],
    DecodeError,
>)
    requires
        depth < 98,
    ensures
        match geoip_field(old(msg)@, bytes@, depth as nat) {
            Some((v, rest)) => r matches Ok(next) && next@ == rest && final(msg)@ == v,
            None => r is Err,
        },
{
    let (tag, wire, body) = match decode_key(bytes) {
        Ok(k) => k,
        Err(e) => return Err(e),
    };
    if tag == 1 {
        match merge_string(wire, body) {
            Ok((value, next)) => {
                msg.country_code = value;
                Ok(next)
            },
            Err(e) => Err(located(e, "GeoIp", "country_code")),
        }
    } else if tag == 2 {
        match merge_bytes(wire, body) {
            Ok((inner, next)) => match decode_cidr(inner.as_slice(), depth + 1) {
                Ok(item) => {
                    msg.cidr.push(item);
                    assert(msg@.cidr =~= old(msg)@.cidr.push(item@));
                    Ok(next)
                },
                Err(e) => Err(located(e, "GeoIp", "cidr")),
            },
            Err(e) => Err(located(e, "GeoIp", "cidr")),
        }
    } else if tag == 3 {
        match merge_bool(wire, body) {
            Ok((value, next)) => {
                msg.inverse_match = value;
                Ok(next)
            },
            Err(e) => Err(located(e, "GeoIp", "inverse_match")),
        }
    } else if tag == 4 {
        match merge_bytes(wire, body) {
            Ok((value, next)) => {
                msg.resource_hash = value;
                Ok(next)
            },
            Err(e) => Err(located(e, "GeoIp", "resource_hash")),
        }
    } else if tag == 5 {
        match merge_string(wire, body) {
            Ok((value, next)) => {
                msg.code = value;
                Ok(next)
            },
            Err(e) => Err(located(e, "GeoIp", "code")),
        }
    } else if tag == 68000 {
        match merge_string(wire, body) {
            Ok((value, next)) => {
                msg.file_path = value;
                Ok(next)
            },
            Err(e) => Err(located(e, "GeoIp", "file_path")),
        }
    } else {
        skip_unknown(bytes, depth)
    }
}

/// Decodes an address list.
pub(crate) fn decode_geoip(bytes: &[u8], depth: u32) -> (r: Result<GeoIp, DecodeError>)
    requires
        depth < 98,
    ensures
        match geoip_message(bytes@, depth as nat) {
            Some(v) => r matches Ok(m) && m@ == v,
            None => r is Err,
        },
{
    let mut msg = GeoIp {
        country_code: String::new(),
        cidr: Vec::new(),
        inverse_match: false,
        resource_hash: Vec::new(),
        code: String::new(),
        file_path: String::new(),
    };
    assert(msg@ =~= empty_geoip());
    let mut rest = bytes;
    while rest.len() > 0
        invariant
            depth < 98,
            geoip_message(bytes@, depth as nat) == geoip_fields(msg@, rest@, depth as nat),
        decreases rest@.len(),
    {
        proof {
            lemma_fields_shrink(rest@, depth as nat);
        }
        match merge_geoip_field(&mut msg, rest, depth) {
            Ok(next) => rest = next,
            Err(e) => return Err(e),
        }
    }
    Ok(msg)
}

/// A domain list without any field set.
pub open spec fn empty_geosite() -> GeoSiteView {
    GeoSiteView {
        country_code: Seq::empty(),
        domain: Seq::empty(),
        resource_hash: Seq::empty(),
        code: Seq::empty(),
        file_path: Seq::empty(),
    }
}

/// `acc` with the field at the start of `s` merged into it, and the bytes after that field.
pub open spec fn geosite_field(
    acc: GeoSiteView,
    s: Seq<u8>,
    depth: nat,
) -> Option<(GeoSiteView, Seq<u8>)> {
    match field_key(s) {
        None => None,
        Some((tag, wire, body)) => if tag == 1 {
            match string_field(wire, body) {
                None => None,
                Some((value, rest)) => Some((GeoSiteView { country_code: value, ..acc }, rest)),
            }
        } else if tag == 2 {
            match bytes_field(wire, body) {
                None => None,
                Some((inner, rest)) => match domain_message(inner, depth + 1) {
                    None => None,
                    Some(item) => Some(
                        (GeoSiteView { domain: acc.domain.push(item), ..acc }, rest),
                    ),
                },
            }
        } else if tag == 3 {
            match bytes_field(wire, body) {
                None => None,
                Some((value, rest)) => Some((GeoSiteView { resource_hash: value, ..acc }, rest)),
            }
        } else if tag == 4 {
            match string_field(wire, body) {
                None => None,
                Some((value, rest)) => Some((GeoSiteView { code: value, ..acc }, rest)),
            }
        } else if tag == 68000 {
            match string_field(wire, body) {
                None => None,
                Some((value, rest)) => Some((GeoSiteView { file_path: value, ..acc }, rest)),
            }
        } else {
            match after_unknown(s, depth) {
                None => None,
                Some(rest) => Some((acc, rest)),
            }
        },
    }
}

/// `acc` with all the fields in `s` merged into it, one after the other.
pub open spec fn geosite_fields(acc: GeoSiteView, s: Seq<u8>, depth: nat) -> Option<GeoSiteView>
    decreases s.len(),
{
    if s.len() == 0 {
        Some(acc)
    } else {
        proof {
            lemma_fields_shrink(s, depth);
        }
        match geosite_field(acc, s, depth) {
            None => None,
            Some((acc, rest)) => geosite_fields(acc, rest, depth),
        }
    }
}

/// The domain list that `s` encodes, if it encodes one.
pub open spec fn geosite_message(s: Seq<u8>, depth: nat) -> Option<GeoSiteView> {
    geosite_fields(empty_geosite(), s, depth)
}

fn merge_geosite_field<'a>(msg: &mut GeoSite, bytes: &'a [u8], depth: u32) -> (r: Result<
    &'a [u8],
    DecodeError,
>)
    requires
        depth < 98,
    ensures
        match geosite_field(old(msg)@, bytes@, depth as nat) {
            Some((v, rest)) => r matches Ok(next) && next@ == rest && final(msg)@ == v,
            None => r is Err,
        },
{
    let (tag, wire, body) = match decode_key(bytes) {
        Ok(k) => k,
        Err(e) => return Err(e),
    };
    if tag == 1 {
        match merge_string(wire, body) {
            Ok((value, next)) => {
                msg.country_code = value;
                Ok(next)
            },
            Err(e) => Err(located(e, "GeoSite", "country_code")),
        }
    } else if tag == 2 {
        match merge_bytes(wire, body) {
            Ok((inner, next)) => match decode_domain(inner.as_slice(), depth + 1) {
                Ok(item) => {
                    msg.domain.push(item);
                    assert(msg@.domain =~= old(msg)@.domain.push(item@));
                    Ok(next)
                },
                Err(e) => Err(located(e, "GeoSite", "domain")),
            },
            Err(e) => Err(located(e, "GeoSite", "domain")),
        }
    } else if tag == 3 {
        match merge_bytes(wire, body) {
            Ok((value, next)) => {
                msg.resource_hash = value;
                Ok(next)
            },
            Err(e) => Err(located(e, "GeoSite", "resource_hash")),
        }
    } else if tag == 4 {
        match merge_string(wire, body) {
            Ok((value, next)) => {
                msg.code = value;
                Ok(next)
            },
            Err(e) => Err(located(e, "GeoSite", "code")),
        }
    } else if tag == 68000 {
        match merge_string(wire, body) {
            Ok((value, next)) => {
                msg.file_path = value;
                Ok(next)
            },
            Err(e) => Err(located(e, "GeoSite", "file_path")),
        }
    } else {
        skip_unknown(bytes, depth)
    }
}

/// Decodes a domain list.
pub(crate) fn decode_geosite(bytes: &[u8], depth: u32) -> (r: Result<GeoSite, DecodeError>)
    requires
        depth < 98,
    ensures
        match geosite_message(bytes@, depth as nat) {
            Some(v) => r matches Ok(m) && m@ == v,
            None => r is Err,
        },
{
    let mut msg = GeoSite {
        country_code: String::new(),
        domain: Vec::new(),
        resource_hash: Vec::new(),
        code: String::new(),
        file_path: String::new(),
    };
    assert(msg@ =~= empty_geosite());
    let mut rest = bytes;
    while rest.len() > 0
        invariant
            depth < 98,
            geosite_message(bytes@, depth as nat) == geosite_fields(msg@, rest@, depth as nat),
        decreases rest@.len(),
    {
        proof {
            lemma_fields_shrink(rest@, depth as nat);
        }
        match merge_geosite_field(&mut msg, rest, depth) {
            Ok(next) => rest = next,
            Err(e) => return Err(e),
        }
    }
    Ok(msg)
}

/// A file of address lists without any field set.
pub open spec fn empty_geoip_list() -> Seq<GeoIpView> {
    Seq::empty()
}

/// `acc` with the field at the start of `s` merged into it, and the bytes after that field.
pub open spec fn geoip_list_field(
    acc: Seq<GeoIpView>,
    s: Seq<u8>,
    depth: nat,
) -> Option<(Seq<GeoIpView>, Seq<u8>)> {
    match field_key(s) {
        None => None,
        Some((tag, wire, body)) => if tag == 1 {
            match bytes_field(wire, body) {
                None => None,
                Some((inner, rest)) => match geoip_message(inner, depth + 1) {
                    None => None,
                    Some(item) => Some((acc.push(item), rest)),
                },
            }
        } else {
            match after_unknown(s, depth) {
                None => None,
                Some(rest) => Some((acc, rest)),
            }
        },
    }
}

/// `acc` with all the fields in `s` merged into it, one after the other.
pub open spec fn geoip_list_fields(
    acc: Seq<GeoIpView>,
    s: Seq<u8>,
    depth: nat,
) -> Option<Seq<GeoIpView>>
    decreases s.len(),
{
    if s.len() == 0 {
        Some(acc)
    } else {
        proof {
            lemma_fields_shrink(s, depth);
        }
        match geoip_list_field(acc, s, depth) {
            None => None,
            Some((acc, rest)) => geoip_list_fields(acc, rest, depth),
        }
    }
}

/// The file of address lists that `s` encodes, if it encodes one.
pub open spec fn geoip_list_message(s: Seq<u8>, depth: nat) -> Option<Seq<GeoIpView>> {
    geoip_list_fields(empty_geoip_list(), s, depth)
}

fn merge_geoip_list_field<'a>(msg: &mut GeoIpList, bytes: &'a [u8], depth: u32) -> (r: Result<
    &'a [u8],
    DecodeError,
>)
    requires
        depth < 97,
    ensures
        match geoip_list_field(old(msg)@, bytes@, depth as nat) {
            Some((v, rest)) => r matches Ok(next) && next@ == rest && final(msg)@ == v,
            None => r is Err,
        },
{
    let (tag, wire, body) = match decode_key(bytes) {
        Ok(k) => k,
        Err(e) => return Err(e),
    };
    if tag == 1 {
        match merge_bytes(wire, body) {
            Ok((inner, next)) => match decode_geoip(inner.as_slice(), depth + 1) {
                Ok(item) => {
                    msg.entry.push(item);
                    assert(msg@ =~= old(msg)@.push(item@));
                    Ok(next)
                },
                Err(e) => Err(located(e, "GeoIpList", "entry")),
            },
            Err(e) => Err(located(e, "GeoIpList", "entry")),
        }
    } else {
        skip_unknown(bytes, depth)
    }
}

/// Decodes a file of address lists.
pub(crate) fn decode_geoip_list(bytes: &[u8], depth: u32) -> (r: Result<GeoIpList, DecodeError>)
    requires
        depth < 97,
    ensures
        match geoip_list_message(bytes@, depth as nat) {
            Some(v) => r matches Ok(m) && m@ == v,
            None => r is Err,
        },
{
    let mut msg = GeoIpList { entry: Vec::new() };
    assert(msg@ =~= empty_geoip_list());
    let mut rest = bytes;
    while rest.len() > 0
        invariant
            depth < 97,
            geoip_list_message(bytes@, depth as nat) == geoip_list_fields(
                msg@,
                rest@,
                depth as nat,
            ),
        decreases rest@.len(),
    {
        proof {
            lemma_fields_shrink(rest@, depth as nat);
        }
        match merge_geoip_list_field(&mut msg, rest, depth) {
            Ok(next) => rest = next,
            Err(e) => return Err(e),
        }
    }
    Ok(msg)
}

/// A file of domain lists without any field set.
pub open spec fn empty_geosite_list() -> Seq<GeoSiteView> {
    Seq::empty()
}

/// `acc` with the field at the start of `s` merged into it, and the bytes after that field.
pub open spec fn geosite_list_field(
    acc: Seq<GeoSiteView>,
    s: Seq<u8>,
    depth: nat,
) -> Option<(Seq<GeoSiteView>, Seq<u8>)> {
    match field_key(s) {
        None => None,
        Some((tag, wire, body)) => if tag == 1 {
            match bytes_field(wire, body) {
                None => None,
                Some((inner, rest)) => match geosite_message(inner, depth + 1) {
                    None => None,
                    Some(item) => Some((acc.push(item), rest)),
                },
            }
        } else {
            match after_unknown(s, depth) {
                None => None,
                Some(rest) => Some((acc, rest)),
            }
        },
    }
}

/// `acc` with all the fields in `s` merged into it, one after the other.
pub open spec fn geosite_list_fields(
    acc: Seq<GeoSiteView>,
    s: Seq<u8>,
    depth: nat,
) -> Option<Seq<GeoSiteView>>
    decreases s.len(),
{
    if s.len() == 0 {
        Some(acc)
    } else {
        proof {
            lemma_fields_shrink(s, depth);
        }
        match geosite_list_field(acc, s, depth) {
            None => None,
            Some((acc, rest)) => geosite_list_fields(acc, rest, depth),
        }
    }
}

/// The file of domain lists that `s` encodes, if it encodes one.
pub open spec fn geosite_list_message(s: Seq<u8>, depth: nat) -> Option<Seq<GeoSiteView>> {
    geosite_list_fields(empty_geosite_list(), s, depth)
}

fn merge_geosite_list_field<'a>(msg: &mut GeoSiteList, bytes: &'a [u8], depth: u32) -> (r: Result<
    &'a [u8],
    DecodeError,
>)
    requires
        depth < 97,
    ensures
        match geosite_list_field(old(msg)@, bytes@, depth as nat) {
            Some((v, rest)) => r matches Ok(next) && next@ == rest && final(msg)@ == v,
            None => r is Err,
        },
{
    let (tag, wire, body) = match decode_key(bytes) {
        Ok(k) => k,
        Err(e) => return Err(e),
    };
    if tag == 1 {
        match merge_bytes(wire, body) {
            Ok((inner, next)) => match decode_geosite(inner.as_slice(), depth + 1) {
                Ok(item) => {
                    msg.entry.push(item);
                    assert(msg@ =~= old(msg)@.push(item@));
                    Ok(next)
                },
                Err(e) => Err(located(e, "GeoSiteList", "entry")),
            },
            Err(e) => Err(located(e, "GeoSiteList", "entry")),
        }
    } else {
        skip_unknown(bytes, depth)
    }
}

/// Decodes a file of domain lists.
pub(crate) fn decode_geosite_list(bytes: &[u8], depth: u32) -> (r: Result<GeoSiteList, DecodeError>)
    requires
        depth < 97,
    ensures
        match geosite_list_message(bytes@, depth as nat) {
            Some(v) => r matches Ok(m) && m@ == v,
            None => r is Err,
        },
{
    let mut msg = GeoSiteList { entry: Vec::new() };
    assert(msg@ =~= empty_geosite_list());
    let mut rest = bytes;
    while rest.len() > 0
        invariant
            depth < 97,
            geosite_list_message(bytes@, depth as nat) == geosite_list_fields(
                msg@,
                rest@,
                depth as nat,
            ),
        decreases rest@.len(),
    {
        proof {
            lemma_fields_shrink(rest@, depth as nat);
        }
        match merge_geosite_list_field(&mut msg, rest, depth) {
            Ok(next) => rest = next,
            Err(e) => return Err(e),
        }
    }
    Ok(msg)
}

} // verus!
