//! The two kinds of rule files are told apart by their contents.

use vstd::prelude::*;

use super::decode::{
    cidr_field, cidr_fields, domain_field, domain_fields, empty_cidr, empty_domain, empty_geoip,
    empty_geosite, geoip_field, geoip_fields, geoip_list_field, geoip_list_fields, geosite_field,
    geosite_fields, geosite_list_field, geosite_list_fields, lemma_fields_shrink,
};
use super::field::{after_unknown, bytes_field, field_key, lemma_unknown_bytes};
use super::model::{CidrView, DomainView, GeoIpView, GeoSiteView};
use super::rules::{as_geoip, as_geosite, valid_geosite};

verus! {

/// Bytes that are a domain rule and an address block at once give the domain no value.
proof fn lemma_item_of_both_kinds(d: DomainView, c: CidrView, s: Seq<u8>, depth: nat)
    requires
        domain_fields(d, s, depth) is Some,
        cidr_fields(c, s, depth) is Some,
    ensures
        domain_fields(d, s, depth)->0.value == d.value,
    decreases s.len(),
{
    if s.len() > 0 {
        lemma_fields_shrink(s, depth);
        let (next_d, rest) = domain_field(d, s, depth)->0;
        let (next_c, rest_c) = cidr_field(c, s, depth)->0;
        if after_unknown(s, depth) is Some {
            lemma_unknown_bytes(s, depth);
        }
        assert(rest == rest_c);
        lemma_item_of_both_kinds(next_d, next_c, rest, depth);
    }
}

/// No domain from the one at `from` on has a value.
spec fn without_values(list: GeoSiteView, from: nat) -> bool {
    forall|i: int| from <= i < list.domain.len() ==> (#[trigger] list.domain[i]).value.len() == 0
}

/// Bytes that are a domain list and an address list at once give no domain a value.
proof fn lemma_list_of_both_kinds(d: GeoSiteView, c: GeoIpView, s: Seq<u8>, depth: nat, from: nat)
    requires
        geosite_fields(d, s, depth) is Some,
        geoip_fields(c, s, depth) is Some,
        without_values(d, from),
    ensures
        without_values(geosite_fields(d, s, depth)->0, from),
    decreases s.len(),
{
    if s.len() > 0 {
        lemma_fields_shrink(s, depth);
        let (next_d, rest) = geosite_field(d, s, depth)->0;
        let (next_c, rest_c) = geoip_field(c, s, depth)->0;
        if after_unknown(s, depth) is Some {
            lemma_unknown_bytes(s, depth);
        }
        assert(rest == rest_c);
        assert(without_values(next_d, from)) by {
            let (tag, wire, body) = field_key(s)->0;
            if tag == 2 {
                let (inner, _) = bytes_field(wire, body)->0;
                lemma_item_of_both_kinds(empty_domain(), empty_cidr(), inner, depth + 1);
            }
        }
        lemma_list_of_both_kinds(next_d, next_c, rest, depth, from);
    }
}

/// No list has a domain with a value.
spec fn all_without_values(lists: Seq<GeoSiteView>) -> bool {
    forall|i: int| 0 <= i < lists.len() ==> without_values(#[trigger] lists[i], 0)
}

/// Bytes that are a file of both kinds at once give no domain a value.
proof fn lemma_file_of_both_kinds(
    d: Seq<GeoSiteView>,
    c: Seq<GeoIpView>,
    s: Seq<u8>,
    depth: nat,
)
    requires
        geosite_list_fields(d, s, depth) is Some,
        geoip_list_fields(c, s, depth) is Some,
        all_without_values(d),
    ensures
        all_without_values(geosite_list_fields(d, s, depth)->0),
    decreases s.len(),
{
    if s.len() > 0 {
        lemma_fields_shrink(s, depth);
        let (next_d, rest) = geosite_list_field(d, s, depth)->0;
        let (next_c, rest_c) = geoip_list_field(c, s, depth)->0;
        assert(rest == rest_c);
        assert(all_without_values(next_d)) by {
            let (tag, wire, body) = field_key(s)->0;
            if tag == 1 {
                let (inner, _) = bytes_field(wire, body)->0;
                lemma_list_of_both_kinds(empty_geosite(), empty_geoip(), inner, depth + 1, 0);
            }
        }
        lemma_file_of_both_kinds(next_d, next_c, rest, depth);
    }
}

/// No file is usable both as domain lists and as address lists.
pub proof fn law_no_file_is_of_both_kinds(data: Seq<u8>)
    ensures
        as_geosite(data) is None || as_geoip(data) is None,
{
    if as_geosite(data) is Some && as_geoip(data) is Some {
        lemma_file_of_both_kinds(Seq::empty(), Seq::empty(), data, 0);
        let lists = as_geosite(data)->0;
        assert(valid_geosite(lists[0]));
        assert(without_values(lists[0], 0));
        assert(lists[0].domain[0].value.len() == 0);
    }
}

} // verus!
