//! Whole rule files, and the rule text of what they hold.

use vstd::prelude::*;

use super::decode::{
    decode_geoip_list, decode_geosite_list, geoip_list_message, geosite_list_message,
};
use super::field::{decode_error_text, report, reported};
use super::model::{
    Attribute, AttributeView, Cidr, CidrView, Domain, DomainType, DomainView, GeoIp, GeoIpList,
    GeoIpView, GeoSite, GeoSiteList, GeoSiteView, TypedValue,
};
use crate::addr::{ipv4_text, ipv6_text, push_ipv4, push_ipv6};
use crate::text::{blank, decimal, is_blank, push_decimal, push_signed_decimal, signed_decimal};

verus! {

/// The code of a list: its own where it has one, else its country code.
pub open spec fn list_code(code: Seq<char>, country_code: Seq<char>) -> Seq<char> {
    if code.len() == 0 {
        country_code
    } else {
        code
    }
}

/// The code under which an address list goes.
pub fn geoip_code(entry: &GeoIp) -> (r: &str)
    ensures
        r@ == list_code(entry.code@, entry.country_code@),
{
    if entry.code.as_str().is_empty() {
        entry.country_code.as_str()
    } else {
        entry.code.as_str()
    }
}

/// The code under which a domain list goes.
pub fn geosite_code(entry: &GeoSite) -> (r: &str)
    ensures
        r@ == list_code(entry.code@, entry.country_code@),
{
    if entry.code.as_str().is_empty() {
        entry.country_code.as_str()
    } else {
        entry.code.as_str()
    }
}

/// The text of an address block: its address, a slash and its prefix length. There is none where
/// the address has neither four nor sixteen bytes.
pub open spec fn cidr_rule(cidr: CidrView) -> Option<Seq<char>> {
    if cidr.ip.len() == 4 {
        Some(ipv4_text(cidr.ip) + "/"@ + decimal(cidr.prefix as nat))
    } else if cidr.ip.len() == 16 {
        Some(ipv6_text(cidr.ip) + "/"@ + decimal(cidr.prefix as nat))
    } else {
        None
    }
}

/// The text of an address block.
pub fn cidr_to_rule(cidr: &Cidr) -> (r: Option<String>)
    ensures
        match cidr_rule(cidr@) {
            Some(text) => r matches Some(s) && s@ == text,
            None => r is None,
        },
{
    let mut line: String = String::new();
    if cidr.ip.len() == 4 {
        push_ipv4(&mut line, cidr.ip[0], cidr.ip[1], cidr.ip[2], cidr.ip[3]);
        assert(seq![cidr.ip@[0], cidr.ip@[1], cidr.ip@[2], cidr.ip@[3]] =~= cidr.ip@);
        assert(line@ =~= ipv4_text(cidr.ip@));
    } else if cidr.ip.len() == 16 {
        push_ipv6(&mut line, cidr.ip.as_slice());
        assert(line@ =~= ipv6_text(cidr.ip@));
    } else {
        return None;
    }
    line.append("/");
    push_decimal(&mut line, cidr.prefix as u64);
    Some(line)
}

/// The domain type with the given number.
pub open spec fn type_of(kind: i32) -> Option<DomainType> {
    if kind == 0 {
        Some(DomainType::Plain)
    } else if kind == 1 {
        Some(DomainType::Regex)
    } else if kind == 2 {
        Some(DomainType::RootDomain)
    } else if kind == 3 {
        Some(DomainType::Full)
    } else {
        None
    }
}

/// The text of the error for a domain whose type has no known number.
pub open spec fn unsupported_text(domain: DomainView) -> Seq<char> {
    "unsupported domain type '"@ + signed_decimal(domain.kind as int) + "' for '"@ + domain.value
        + "'"@
}

/// The type of a domain.
pub fn domain_type(domain: &Domain) -> (r: Result<DomainType, String>)
    ensures
        match type_of(domain.kind) {
            Some(t) => r == Ok::<DomainType, String>(t),
            None => r matches Err(e) && e@ == unsupported_text(domain@),
        },
{
    match domain.kind {
        0 => Ok(DomainType::Plain),
        1 => Ok(DomainType::Regex),
        2 => Ok(DomainType::RootDomain),
        3 => Ok(DomainType::Full),
        _ => {
            let mut text: String = "unsupported domain type '".to_owned();
            push_signed_decimal(&mut text, domain.kind as i64);
            text.append("' for '");
            text.append(domain.value.as_str());
            text.append("'");
            Err(text)
        },
    }
}

/// The word for a domain type in rule expressions.
pub open spec fn rule_prefix(t: DomainType) -> Seq<char> {
    match t {
        DomainType::Plain => "keyword:"@,
        DomainType::Regex => "regexp:"@,
        DomainType::RootDomain => "domain:"@,
        DomainType::Full => "full:"@,
    }
}

/// The word for a domain type as the file format names it.
pub open spec fn original_prefix(t: DomainType) -> Seq<char> {
    match t {
        DomainType::Plain => "plain:"@,
        DomainType::Regex => "regex:"@,
        DomainType::RootDomain => "root_domain:"@,
        DomainType::Full => "full:"@,
    }
}

/// `r` is `text`, or the error for the unknown type of `domain` where there is no text.
pub open spec fn rendered(
    r: Result<String, String>,
    text: Option<Seq<char>>,
    domain: DomainView,
) -> bool {
    match text {
        Some(line) => r matches Ok(s) && s@ == line,
        None => r matches Err(e) && e@ == unsupported_text(domain),
    }
}

/// The rule expression of a domain.
pub open spec fn rule_expression(domain: DomainView) -> Option<Seq<char>> {
    match type_of(domain.kind) {
        Some(t) => Some(rule_prefix(t) + domain.value),
        None => None,
    }
}

/// The rule expression of a domain: a word for its type, a colon and its value.
pub fn geosite_domain_expression(domain: &Domain) -> (r: Result<String, String>)
    ensures
        rendered(r, rule_expression(domain@), domain@),
{
    let prefix = match domain_type(domain) {
        Ok(DomainType::Plain) => "keyword:",
        Ok(DomainType::Regex) => "regexp:",
        Ok(DomainType::RootDomain) => "domain:",
        Ok(DomainType::Full) => "full:",
        Err(e) => return Err(e),
    };
    let mut line: String = prefix.to_owned();
    line.append(domain.value.as_str());
    Ok(line)
}

/// The expression of a domain in the words of the file format.
pub open spec fn original_expression(domain: DomainView) -> Option<Seq<char>> {
    match type_of(domain.kind) {
        Some(t) => Some(original_prefix(t) + domain.value),
        None => None,
    }
}

/// The expression of a domain in the words of the file format.
pub fn geosite_domain_expression_original(domain: &Domain) -> (r: Result<String, String>)
    ensures
        rendered(r, original_expression(domain@), domain@),
{
    let prefix = match domain_type(domain) {
        Ok(DomainType::Plain) => "plain:",
        Ok(DomainType::Regex) => "regex:",
        Ok(DomainType::RootDomain) => "root_domain:",
        Ok(DomainType::Full) => "full:",
        Err(e) => return Err(e),
    };
    let mut line: String = prefix.to_owned();
    line.append(domain.value.as_str());
    Ok(line)
}

/// The text of an attribute after its key. Nothing stands for `true`.
pub open spec fn attribute_value(value: Option<TypedValue>) -> Seq<char> {
    match value {
        None => Seq::empty(),
        Some(TypedValue::BoolValue(true)) => Seq::empty(),
        Some(TypedValue::BoolValue(false)) => "=false"@,
        Some(TypedValue::IntValue(n)) => "="@ + signed_decimal(n as int),
    }
}

/// The text of attributes: each one is a space, an at sign, its key and its value.
pub open spec fn attributes_text(attributes: Seq<AttributeView>) -> Seq<char>
    decreases attributes.len(),
{
    if attributes.len() == 0 {
        Seq::empty()
    } else {
        attributes_text(attributes.drop_last()) + " @"@ + attributes.last().key + attribute_value(
            attributes.last().typed_value,
        )
    }
}

/// The expression of a domain in the words of the file format, with its attributes.
pub open spec fn original_expression_with_attrs(domain: DomainView) -> Option<Seq<char>> {
    match original_expression(domain) {
        Some(line) => Some(line + attributes_text(domain.attribute)),
        None => None,
    }
}

fn push_attribute(line: &mut String, attribute: &Attribute)
    ensures
        final(line)@ == old(line)@ + " @"@ + attribute@.key + attribute_value(
            attribute@.typed_value,
        ),
{
    line.append(" @");
    line.append(attribute.key.as_str());
    match attribute.typed_value {
        None => {},
        Some(TypedValue::BoolValue(true)) => {},
        Some(TypedValue::BoolValue(false)) => line.append("=false"),
        Some(TypedValue::IntValue(value)) => {
            line.append("=");
            push_signed_decimal(line, value);
        },
    }
    assert(line@ =~= old(line)@ + " @"@ + attribute@.key + attribute_value(attribute@.typed_value));
}

/// The expression of a domain in the words of the file format, with its attributes.
pub fn geosite_domain_expression_original_with_attrs(domain: &Domain) -> (r: Result<String, String>)
    ensures
        rendered(r, original_expression_with_attrs(domain@), domain@),
{
    let mut line: String = match geosite_domain_expression_original(domain) {
        Ok(line) => line,
        Err(e) => return Err(e),
    };
    let ghost base = line@;
    let ghost views = domain@.attribute;
    assert(views.take(0) =~= Seq::empty());
    for i in 0..domain.attribute.len()
        invariant
            views == domain@.attribute,
            line@ =~= base + attributes_text(views.take(i as int)),
    {
        push_attribute(&mut line, &domain.attribute[i]);
        assert(views.take(i + 1).drop_last() =~= views.take(i as int));
    }
    assert(views.take(views.len() as int) =~= views);
    Ok(line)
}

/// A domain list is usable: it has a code and domains, and none of these is blank.
pub open spec fn valid_geosite(entry: GeoSiteView) -> bool {
    &&& !blank(list_code(entry.code, entry.country_code))
    &&& entry.domain.len() > 0
    &&& forall|i: int| 0 <= i < entry.domain.len() ==> !blank((#[trigger] entry.domain[i]).value)
}

/// A file of domain lists is usable: it has lists, and all of them are usable.
pub open spec fn valid_geosite_list(list: Seq<GeoSiteView>) -> bool {
    &&& list.len() > 0
    &&& forall|i: int| 0 <= i < list.len() ==> valid_geosite(#[trigger] list[i])
}

/// An address list is usable: it has a code that is not blank, and blocks, and each of these has
/// an address of four or sixteen bytes.
pub open spec fn valid_geoip(entry: GeoIpView) -> bool {
    &&& !blank(list_code(entry.code, entry.country_code))
    &&& entry.cidr.len() > 0
    &&& forall|i: int|
        0 <= i < entry.cidr.len() ==> ((#[trigger] entry.cidr[i]).ip.len() == 4
            || entry.cidr[i].ip.len() == 16)
}

/// A file of address lists is usable: it has lists, and all of them are usable.
pub open spec fn valid_geoip_list(list: Seq<GeoIpView>) -> bool {
    &&& list.len() > 0
    &&& forall|i: int| 0 <= i < list.len() ==> valid_geoip(#[trigger] list[i])
}

fn is_valid_geosite(entry: &GeoSite) -> (r: bool)
    ensures
        r == valid_geosite(entry@),
{
    if is_blank(geosite_code(entry)) || entry.domain.len() == 0 {
        return false;
    }
    for i in 0..entry.domain.len()
        invariant
            forall|j: int| 0 <= j < i ==> !blank((#[trigger] entry@.domain[j]).value),
    {
        assert(entry@.domain[i as int] == entry.domain@[i as int]@);
        if is_blank(entry.domain[i].value.as_str()) {
            return false;
        }
    }
    true
}

/// Whether a file of domain lists is usable.
pub fn is_valid_geosite_list(list: &GeoSiteList) -> (r: bool)
    ensures
        r == valid_geosite_list(list@),
{
    if list.entry.len() == 0 {
        return false;
    }
    for i in 0..list.entry.len()
        invariant
            forall|j: int| 0 <= j < i ==> valid_geosite(#[trigger] list@[j]),
    {
        assert(list@[i as int] == list.entry@[i as int]@);
        if !is_valid_geosite(&list.entry[i]) {
            return false;
        }
    }
    true
}

fn is_valid_geoip(entry: &GeoIp) -> (r: bool)
    ensures
        r == valid_geoip(entry@),
{
    if is_blank(geoip_code(entry)) || entry.cidr.len() == 0 {
        return false;
    }
    for i in 0..entry.cidr.len()
        invariant
            forall|j: int|
                0 <= j < i ==> ((#[trigger] entry@.cidr[j]).ip.len() == 4 || entry@.cidr[j].ip.len()
                    == 16),
    {
        assert(entry@.cidr[i as int] == entry.cidr@[i as int]@);
        let len: usize = entry.cidr[i].ip.len();
        if len != 4 && len != 16 {
            return false;
        }
    }
    true
}

/// Whether a file of address lists is usable.
pub fn is_valid_geoip_list(list: &GeoIpList) -> (r: bool)
    ensures
        r == valid_geoip_list(list@),
{
    if list.entry.len() == 0 {
        return false;
    }
    for i in 0..list.entry.len()
        invariant
            forall|j: int| 0 <= j < i ==> valid_geoip(#[trigger] list@[j]),
    {
        assert(list@[i as int] == list.entry@[i as int]@);
        if !is_valid_geoip(&list.entry[i]) {
            return false;
        }
    }
    true
}

/// The text of an error with which decoding stops, as the error itself says it.
pub open spec fn is_decode_error(text: Seq<char>) -> bool {
    &&& reported(text)
    &&& exists|reason: Seq<char>| text == #[trigger] decode_error_text(reason)
}

/// Decodes a file of domain lists and checks that it is usable.
pub fn parse_geosite_dat(data: &[u8]) -> (r: Result<GeoSiteList, String>)
    ensures
        match geosite_list_message(data@, 0) {
            None => r matches Err(e) && is_decode_error(e@),
            Some(list) => if valid_geosite_list(list) {
                r matches Ok(l) && l@ == list
            } else {
                r matches Err(e) && e@ == "decoded geosite payload failed structural validation"@
            },
        },
{
    match decode_geosite_list(data, 0) {
        Ok(list) => if is_valid_geosite_list(&list) {
            Ok(list)
        } else {
            Err("decoded geosite payload failed structural validation".to_owned())
        },
        Err(e) => Err(report(&e)),
    }
}

/// Decodes a file of address lists and checks that it is usable.
pub fn parse_geoip_dat(data: &[u8]) -> (r: Result<GeoIpList, String>)
    ensures
        match geoip_list_message(data@, 0) {
            None => r matches Err(e) && is_decode_error(e@),
            Some(list) => if valid_geoip_list(list) {
                r matches Ok(l) && l@ == list
            } else {
                r matches Err(e) && e@ == "decoded geoip payload failed structural validation"@
            },
        },
{
    match decode_geoip_list(data, 0) {
        Ok(list) => if is_valid_geoip_list(&list) {
            Ok(list)
        } else {
            Err("decoded geoip payload failed structural validation".to_owned())
        },
        Err(e) => Err(report(&e)),
    }
}

/// A rule file of either kind.
#[derive(Clone, Debug, PartialEq, Eq)]
pub enum ParsedDat {
    GeoSite(GeoSiteList),
    GeoIp(GeoIpList),
}

/// The lists of `data` taken as a usable file of domain lists.
pub open spec fn as_geosite(data: Seq<u8>) -> Option<Seq<GeoSiteView>> {
    match geosite_list_message(data, 0) {
        Some(list) => if valid_geosite_list(list) {
            Some(list)
        } else {
            None
        },
        None => None,
    }
}

/// The lists of `data` taken as a usable file of address lists.
pub open spec fn as_geoip(data: Seq<u8>) -> Option<Seq<GeoIpView>> {
    match geoip_list_message(data, 0) {
        Some(list) => if valid_geoip_list(list) {
            Some(list)
        } else {
            None
        },
        None => None,
    }
}

/// Chooses between the two readings of a file, either of which may have failed.
pub fn choose_dat_kind(geosite: Option<GeoSiteList>, geoip: Option<GeoIpList>) -> (r: Result<
    ParsedDat,
    String,
>)
    ensures
        match (geosite, geoip) {
            (Some(_), Some(_)) => r matches Err(e) && e@
                == "dat kind is ambiguous; please pass --kind geosite or --kind geoip"@,
            (Some(list), None) => r == Ok::<ParsedDat, String>(ParsedDat::GeoSite(list)),
            (None, Some(list)) => r == Ok::<ParsedDat, String>(ParsedDat::GeoIp(list)),
            (None, None) => r matches Err(e) && e@
                == "failed to identify dat kind from file contents"@,
        },
{
    match (geosite, geoip) {
        (Some(_), Some(_)) => Err(
            "dat kind is ambiguous; please pass --kind geosite or --kind geoip".to_owned(),
        ),
        (Some(list), None) => Ok(ParsedDat::GeoSite(list)),
        (None, Some(list)) => Ok(ParsedDat::GeoIp(list)),
        (None, None) => Err("failed to identify dat kind from file contents".to_owned()),
    }
}

/// Finds out which kind of rule file `data` is, by what it can be decoded as.
pub fn detect_dat_kind(data: &[u8]) -> (r: Result<ParsedDat, String>)
    ensures
        match (as_geosite(data@), as_geoip(data@)) {
            (Some(_), Some(_)) => r matches Err(e) && e@
                == "dat kind is ambiguous; please pass --kind geosite or --kind geoip"@,
            (Some(list), None) => r matches Ok(ParsedDat::GeoSite(l)) && l@ == list,
            (None, Some(list)) => r matches Ok(ParsedDat::GeoIp(l)) && l@ == list,
            (None, None) => r matches Err(e) && e@
                == "failed to identify dat kind from file contents"@,
        },
{
    let geosite = match parse_geosite_dat(data) {
        Ok(list) => Some(list),
        Err(_) => None,
    };
    let geoip = match parse_geoip_dat(data) {
        Ok(list) => Some(list),
        Err(_) => None,
    };
    choose_dat_kind(geosite, geoip)
}

} // verus!
