//! What the rule text of a list says, and which lists are usable.

use vstd::prelude::*;

use super::model::{
    AttributeView, CidrView, Domain, DomainType, DomainView, GeoIp, GeoIpList, GeoIpView, GeoSite,
    GeoSiteList, GeoSiteView, TypedValue,
};
use super::rules::{
    as_geoip, as_geosite, attribute_value, attributes_text, cidr_rule, is_decode_error, list_code,
    original_expression, original_expression_with_attrs, rendered, rule_expression, type_of,
    unsupported_text, valid_geoip, valid_geoip_list, valid_geosite, valid_geosite_list,
};
use super::decode::{geoip_list_message, geosite_list_message};
use super::encoding::{
    geoip_bytes, geoip_file_bytes, geosite_bytes, geosite_file_bytes, law_geoip_file_reads_back,
    law_geosite_file_reads_back,
};
use super::field::decode_error_text;
use crate::text_laws::{
    law_blank_text_is_white_space, law_ipv4_text_reads_back, law_ipv6_text_reads_back,
    law_signed_decimal_reads_back, lemma_slash_separates, listed_white_space, number_of, parts,
    read_ipv4, read_ipv6,
};

verus! {

/// What is said of a domain rule is what its parts hold, one by one and in order.
pub proof fn law_domain_is_shown_as_it_is(d: Domain, i: int)
    ensures
        d@.kind == d.kind,
        d@.value == d.value@,
        d@.attribute.len() == d.attribute@.len(),
        0 <= i < d.attribute@.len() ==> d@.attribute[i].key == d.attribute@[i].key@
            && d@.attribute[i].typed_value == d.attribute@[i].typed_value,
{
}

/// What is said of an address list is what its parts hold, one by one and in order.
pub proof fn law_address_list_is_shown_as_it_is(e: GeoIp, i: int)
    ensures
        e@.country_code == e.country_code@,
        e@.inverse_match == e.inverse_match,
        e@.resource_hash == e.resource_hash@,
        e@.code == e.code@,
        e@.file_path == e.file_path@,
        e@.cidr.len() == e.cidr@.len(),
        0 <= i < e.cidr@.len() ==> e@.cidr[i].ip == e.cidr@[i].ip@ && e@.cidr[i].prefix
            == e.cidr@[i].prefix,
{
}

/// What is said of a domain list is what its parts hold, one by one and in order.
pub proof fn law_domain_list_is_shown_as_it_is(e: GeoSite, i: int)
    ensures
        e@.country_code == e.country_code@,
        e@.resource_hash == e.resource_hash@,
        e@.code == e.code@,
        e@.file_path == e.file_path@,
        e@.domain.len() == e.domain@.len(),
        0 <= i < e.domain@.len() ==> e@.domain[i] == e.domain@[i]@,
{
}

/// What is said of a file is what its lists hold, one by one and in order.
pub proof fn law_file_is_shown_as_it_is(ips: GeoIpList, sites: GeoSiteList, i: int)
    ensures
        ips@.len() == ips.entry@.len(),
        0 <= i < ips.entry@.len() ==> ips@[i] == ips.entry@[i]@,
        sites@.len() == sites.entry@.len(),
        0 <= i < sites.entry@.len() ==> sites@[i] == sites.entry@[i]@,
{
}

/// The text of an address block can be read back: before the slash stands its address, after it
/// its prefix length. A block has a text if and only if its address has four or sixteen bytes.
pub proof fn law_block_text_reads_back(block: CidrView)
    ensures
        cidr_rule(block) is Some <==> block.ip.len() == 4 || block.ip.len() == 16,
        cidr_rule(block) matches Some(text) ==> {
            let p = parts(text, '/');
            &&& p.len() == 2
            &&& block.ip.len() == 4 ==> read_ipv4(p[0]) == Some(block.ip)
            &&& block.ip.len() == 16 ==> read_ipv6(p[0]) == Some(block.ip)
            &&& number_of(p[1], 10) == Some(block.prefix as nat)
        },
{
    if block.ip.len() == 4 || block.ip.len() == 16 {
        lemma_slash_separates(block.ip, block.prefix as nat);
        if block.ip.len() == 4 {
            law_ipv4_text_reads_back(block.ip);
        } else {
            law_ipv6_text_reads_back(block.ip);
        }
    }
}

/// A list goes under its own code, and under its country code only where it has none.
pub proof fn law_own_code_comes_first(code: Seq<char>, country_code: Seq<char>)
    ensures
        code.len() > 0 ==> list_code(code, country_code) == code,
        code.len() == 0 ==> list_code(code, country_code) == country_code,
{
}

/// Each of the four known numbers of domain types has a word of its own in rule expressions, and a
/// word of its own in the file format. The value follows as it is. Under any other number a domain
/// has no expression.
pub proof fn law_expressions_by_number(domain: DomainView)
    ensures
        type_of(0) == Some(DomainType::Plain),
        type_of(1) == Some(DomainType::Regex),
        type_of(2) == Some(DomainType::RootDomain),
        type_of(3) == Some(DomainType::Full),
        domain.kind == 0 ==> rule_expression(domain) == Some("keyword:"@ + domain.value)
            && original_expression(domain) == Some("plain:"@ + domain.value),
        domain.kind == 1 ==> rule_expression(domain) == Some("regexp:"@ + domain.value)
            && original_expression(domain) == Some("regex:"@ + domain.value),
        domain.kind == 2 ==> rule_expression(domain) == Some("domain:"@ + domain.value)
            && original_expression(domain) == Some("root_domain:"@ + domain.value),
        domain.kind == 3 ==> rule_expression(domain) == Some("full:"@ + domain.value)
            && original_expression(domain) == Some("full:"@ + domain.value),
        domain.kind < 0 || domain.kind > 3 ==> {
            &&& type_of(domain.kind) is None
            &&& rule_expression(domain) is None
            &&& original_expression(domain) is None
            &&& original_expression_with_attrs(domain) is None
        },
{
}

/// Where a domain has an expression it is what is handed out, to the letter; where it has none, the
/// error for its unknown number is.
pub proof fn law_expression_is_handed_out(
    r: Result<String, String>,
    text: Option<Seq<char>>,
    domain: DomainView,
)
    requires
        rendered(r, text, domain),
    ensures
        r is Ok <==> text is Some,
        r matches Ok(line) ==> text == Some(line@),
        r matches Err(e) ==> e@ == unsupported_text(domain),
{
}

/// The error for an unknown number names the number, which can be read back, and the value.
pub proof fn law_unknown_number_is_named(domain: DomainView)
    ensures
        ({
            let text = unsupported_text(domain);
            let front = "unsupported domain type '"@;
            let back = "' for '"@ + domain.value + "'"@;
            let number = text.subrange(front.len() as int, text.len() - back.len());
            &&& text == front + number + back
            &&& domain.kind >= 0 ==> number_of(number, 10) == Some(domain.kind as nat)
            &&& domain.kind < 0 ==> number[0] == '-' && number_of(number.skip(1), 10) == Some(
                (-domain.kind) as nat,
            )
        }),
{
    let text = unsupported_text(domain);
    let front = "unsupported domain type '"@;
    let back = "' for '"@ + domain.value + "'"@;
    let number = crate::text::signed_decimal(domain.kind as int);
    assert(text =~= front + number + back);
    assert(text.subrange(front.len() as int, text.len() - back.len()) =~= number);
    law_signed_decimal_reads_back(domain.kind as int);
}

/// The text of one attribute: a space, an at sign and the key; `true` adds nothing to it, `false`
/// and numbers stand behind an equals sign, and a number can be read back.
pub proof fn law_attribute_text(a: AttributeView)
    ensures
        ({
            let text = attributes_text(seq![a]);
            let start = seq![' ', '@'] + a.key;
            match a.typed_value {
                None => text == start,
                Some(TypedValue::BoolValue(true)) => text == start,
                Some(TypedValue::BoolValue(false)) => text == start + seq![
                    '=',
                    'f',
                    'a',
                    'l',
                    's',
                    'e',
                ],
                Some(TypedValue::IntValue(n)) => {
                    let number = text.skip(start.len() as int + 1);
                    &&& text == start + seq!['='] + number
                    &&& n >= 0 ==> number_of(number, 10) == Some(n as nat)
                    &&& n < 0 ==> number[0] == '-' && number_of(number.skip(1), 10) == Some(
                        (-n) as nat,
                    )
                },
            }
        }),
{
    reveal_strlit(" @");
    reveal_strlit("=");
    reveal_strlit("=false");
    let text = attributes_text(seq![a]);
    let start = seq![' ', '@'] + a.key;
    assert(seq![a].drop_last() =~= Seq::empty());
    assert(attributes_text(seq![a].drop_last()) =~= Seq::<char>::empty());
    assert(text =~= start + attribute_value(a.typed_value));
    match a.typed_value {
        Some(TypedValue::IntValue(n)) => {
            law_signed_decimal_reads_back(n as int);
            assert(text.skip(start.len() as int + 1) =~= crate::text::signed_decimal(n as int));
        },
        Some(TypedValue::BoolValue(b)) => {},
        None => {},
    }
}

/// The attributes of a domain stand one after the other, in order: the text of some and of more is
/// the text of the first with the text of the others behind it.
pub proof fn law_attribute_texts_follow_in_order(a: Seq<AttributeView>, b: Seq<AttributeView>)
    ensures
        attributes_text(a + b) == attributes_text(a) + attributes_text(b),
    decreases b.len(),
{
    if b.len() == 0 {
        assert(a + b =~= a);
    } else {
        law_attribute_texts_follow_in_order(a, b.drop_last());
        assert((a + b).drop_last() =~= a + b.drop_last());
        assert((a + b).last() == b.last());
        assert(attributes_text(a + b) =~= attributes_text(a) + attributes_text(b));
    }
}

/// The expression with attributes is the one without them, and what the attributes add.
pub proof fn law_attributes_follow_the_expression(domain: DomainView)
    requires
        0 <= domain.kind <= 3,
    ensures
        original_expression_with_attrs(domain) == Some(
            original_expression(domain)->0 + attributes_text(domain.attribute),
        ),
        domain.attribute.len() == 0 ==> original_expression_with_attrs(domain)
            == original_expression(domain),
{
    let line = original_expression(domain)->0;
    if domain.attribute.len() == 0 {
        assert(line + attributes_text(domain.attribute) =~= line);
    }
}

/// `text` holds something that is no white space.
pub open spec fn says_something(text: Seq<char>) -> bool {
    exists|i: int| 0 <= i < text.len() && !listed_white_space(#[trigger] text[i])
}

/// A domain list is usable if and only if the code that it goes under says something, it has
/// domains, and each of them says something.
pub proof fn law_usable_domain_list(entry: GeoSiteView)
    ensures
        valid_geosite(entry) <==> {
            &&& says_something(entry.code) || (entry.code.len() == 0 && says_something(
                entry.country_code,
            ))
            &&& entry.domain.len() > 0
            &&& forall|i: int|
                0 <= i < entry.domain.len() ==> says_something((#[trigger] entry.domain[i]).value)
        },
{
    law_blank_text_is_white_space(entry.code);
    law_blank_text_is_white_space(entry.country_code);
    assert forall|i: int| 0 <= i < entry.domain.len() implies says_something(
        (#[trigger] entry.domain[i]).value,
    ) != crate::text::blank(entry.domain[i].value) by {
        law_blank_text_is_white_space(entry.domain[i].value);
    }
}

/// An address list is usable if and only if the code that it goes under says something, it has
/// blocks, and each of them has an address of four or sixteen bytes.
pub proof fn law_usable_address_list(entry: GeoIpView)
    ensures
        valid_geoip(entry) <==> {
            &&& says_something(entry.code) || (entry.code.len() == 0 && says_something(
                entry.country_code,
            ))
            &&& entry.cidr.len() > 0
            &&& forall|i: int|
                0 <= i < entry.cidr.len() ==> (#[trigger] entry.cidr[i]).ip.len() == 4
                    || entry.cidr[i].ip.len() == 16
        },
{
    law_blank_text_is_white_space(entry.code);
    law_blank_text_is_white_space(entry.country_code);
}

/// One list that is not usable makes a whole file unusable, wherever it stands, and a file without
/// lists is not usable either. No other file of domain lists or address lists is.
pub proof fn law_usable_file(sites: Seq<GeoSiteView>, ips: Seq<GeoIpView>)
    ensures
        !valid_geosite_list(sites) <==> sites.len() == 0 || exists|i: int|
            0 <= i < sites.len() && !valid_geosite(#[trigger] sites[i]),
        !valid_geoip_list(ips) <==> ips.len() == 0 || exists|i: int|
            0 <= i < ips.len() && !valid_geoip(#[trigger] ips[i]),
{
}

/// A usable file of domain lists that was written is told to be one, with the lists that were
/// written, and is not taken for address lists.
pub proof fn law_written_domain_lists_are_found(lists: Seq<GeoSiteView>)
    requires
        lists.len() > 0,
        forall|i: int|
            0 <= i < lists.len() ==> valid_geosite(#[trigger] lists[i]) && geosite_bytes(
                lists[i],
            ).len() <= usize::MAX,
    ensures
        as_geosite(geosite_file_bytes(lists)) == Some(lists),
        as_geoip(geosite_file_bytes(lists)) is None,
{
    assert forall|i: int| 0 <= i < lists.len() implies #[trigger] geosite_bytes(lists[i]).len()
        <= usize::MAX by {
        assert(valid_geosite(lists[i]));
    }
    law_geosite_file_reads_back(lists);
    super::kinds::law_no_file_is_of_both_kinds(geosite_file_bytes(lists));
}

/// A usable file of address lists that was written is told to be one, with the lists that were
/// written, and is not taken for domain lists.
pub proof fn law_written_address_lists_are_found(lists: Seq<GeoIpView>)
    requires
        lists.len() > 0,
        forall|i: int|
            0 <= i < lists.len() ==> valid_geoip(#[trigger] lists[i]) && geoip_bytes(
                lists[i],
            ).len() <= usize::MAX,
    ensures
        as_geoip(geoip_file_bytes(lists)) == Some(lists),
        as_geosite(geoip_file_bytes(lists)) is None,
{
    assert forall|i: int| 0 <= i < lists.len() implies #[trigger] geoip_bytes(lists[i]).len()
        <= usize::MAX by {
        assert(valid_geoip(lists[i]));
    }
    law_geoip_file_reads_back(lists);
    super::kinds::law_no_file_is_of_both_kinds(geoip_file_bytes(lists));
}

/// The text for a file that cannot be decoded starts with a fixed phrase.
pub proof fn law_decode_error_says_so(text: Seq<char>)
    requires
        is_decode_error(text),
    ensures
        ({
            let start = "failed to decode Protobuf message: "@;
            text.len() >= start.len() && text.take(start.len() as int) == start
        }),
{
    let start = "failed to decode Protobuf message: "@;
    let reason = choose|reason: Seq<char>| text == #[trigger] decode_error_text(reason);
    assert(text.take(start.len() as int) =~= start);
}

/// A file is taken for lists of a kind if and only if it decodes to just those lists, there is one
/// at least, and each of them is usable.
pub proof fn law_kind_needs_a_usable_file(
    data: Seq<u8>,
    sites: Seq<GeoSiteView>,
    ips: Seq<GeoIpView>,
)
    ensures
        as_geosite(data) == Some(sites) <==> {
            &&& geosite_list_message(data, 0) == Some(sites)
            &&& sites.len() > 0
            &&& forall|i: int| 0 <= i < sites.len() ==> valid_geosite(#[trigger] sites[i])
        },
        as_geoip(data) == Some(ips) <==> {
            &&& geoip_list_message(data, 0) == Some(ips)
            &&& ips.len() > 0
            &&& forall|i: int| 0 <= i < ips.len() ==> valid_geoip(#[trigger] ips[i])
        },
{
}

} // verus!
