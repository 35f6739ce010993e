//! A file is read the same whether it is streamed or decoded as a whole.

use vstd::prelude::*;

use super::decode::{
    attribute_field, attribute_fields, cidr_field, cidr_fields, domain_field, domain_fields,
    empty_attribute, empty_cidr, empty_domain, empty_geoip, empty_geosite, geoip_field,
    geoip_fields, geoip_list_field, geoip_list_fields, geoip_list_message, geoip_message,
    geosite_field, geosite_fields, geosite_list_field, geosite_list_fields, geosite_list_message,
    geosite_message, lemma_fields_shrink,
};
use super::field::{
    after_unknown, bytes_field, field_key, group_len, lemma_more_levels, lemma_skipped_fits,
    levels_at, skipped_len,
};
use super::laws::law_unknown_fields_are_passed_over;
use super::model::{AttributeView, CidrView, DomainView, GeoIpView, GeoSiteView};
use super::parser::{geoip_visit, geosite_visit, next_entry, top_level, TopLevel, VisitEnd};
use super::wire::{
    after, end_text, leading_continuations, lemma_varint_len, required_varint, skipped_field,
    skipped_group, varint, VarintRead, MAX_PROTOBUF_GROUP_DEPTH,
};

verus! {

/// What is passed over in a message can be passed over in the stream, to the same end: the stream
/// allows at least as many groups.
proof fn lemma_stream_skips(
    wire: u8,
    tag: u32,
    s: Seq<u8>,
    levels: nat,
    depth: nat,
    end: Seq<char>,
)
    requires
        depth + levels <= MAX_PROTOBUF_GROUP_DEPTH,
        s.len() <= usize::MAX,
        skipped_len(wire, tag, s, levels) is Some,
    ensures
        skipped_field(s, wire, tag as u64, depth, end) == Ok::<nat, Seq<char>>(
            skipped_len(wire, tag, s, levels)->0,
        ),
    decreases s.len(), 1nat,
{
    lemma_varint_len(s);
    if wire == 3 {
        lemma_stream_skips_group(tag, s, levels, depth, end);
    }
}

proof fn lemma_stream_skips_group(
    tag: u32,
    s: Seq<u8>,
    levels: nat,
    depth: nat,
    end: Seq<char>,
)
    requires
        1 <= levels,
        depth + levels <= MAX_PROTOBUF_GROUP_DEPTH,
        s.len() <= usize::MAX,
        group_len(tag, s, levels) is Some,
    ensures
        skipped_group(s, tag as u64, depth, end) == Ok::<nat, Seq<char>>(
            group_len(tag, s, levels)->0,
        ),
    decreases s.len(), 0nat,
{
    lemma_varint_len(s);
    if let Some((inner, wire, body)) = field_key(s) {
        if wire != 4 {
            let down = (levels - 1) as nat;
            lemma_skipped_fits(wire, inner, body, down);
            lemma_stream_skips(wire, inner, body, down, depth + 1, end);
            let m = skipped_len(wire, inner, body, down)->0;
            lemma_stream_skips_group(tag, after(body, m), levels, depth, end);
        }
    }
}

/// An unknown field that can be passed over can be passed over with fewer messages around it.
proof fn lemma_unknown_higher(s: Seq<u8>, depth: nat, higher: nat)
    requires
        higher <= depth,
        after_unknown(s, depth) is Some,
    ensures
        after_unknown(s, higher) == after_unknown(s, depth),
{
    reveal(after_unknown);
    if let Some((tag, wire, contents)) = field_key(s) {
        lemma_more_levels(wire, tag, contents, levels_at(depth), levels_at(higher));
    }
}

proof fn lemma_attribute_higher(acc: AttributeView, s: Seq<u8>, depth: nat, higher: nat)
    requires
        higher <= depth,
        attribute_fields(acc, s, depth) is Some,
    ensures
        attribute_fields(acc, s, higher) == attribute_fields(acc, s, depth),
    decreases s.len(),
{
    if s.len() > 0 {
        lemma_fields_shrink(s, depth);
        if after_unknown(s, depth) is Some {
            lemma_unknown_higher(s, depth, higher);
        }
        assert(attribute_field(acc, s, higher) == attribute_field(acc, s, depth));
        let (next, rest) = attribute_field(acc, s, depth)->0;
        lemma_attribute_higher(next, rest, depth, higher);
    }
}

proof fn lemma_domain_higher(acc: DomainView, s: Seq<u8>, depth: nat, higher: nat)
    requires
        higher <= depth,
        domain_fields(acc, s, depth) is Some,
    ensures
        domain_fields(acc, s, higher) == domain_fields(acc, s, depth),
    decreases s.len(),
{
    if s.len() > 0 {
        lemma_fields_shrink(s, depth);
        if after_unknown(s, depth) is Some {
            lemma_unknown_higher(s, depth, higher);
        }
        if let Some((tag, wire, body)) = field_key(s) {
            if tag == 3 {
                if let Some((inner, _)) = bytes_field(wire, body) {
                    lemma_attribute_higher(empty_attribute(), inner, depth + 1, higher + 1);
                }
            }
        }
        assert(domain_field(acc, s, higher) == domain_field(acc, s, depth));
        let (next, rest) = domain_field(acc, s, depth)->0;
        lemma_domain_higher(next, rest, depth, higher);
    }
}

proof fn lemma_cidr_higher(acc: CidrView, s: Seq<u8>, depth: nat, higher: nat)
    requires
        higher <= depth,
        cidr_fields(acc, s, depth) is Some,
    ensures
        cidr_fields(acc, s, higher) == cidr_fields(acc, s, depth),
    decreases s.len(),
{
    if s.len() > 0 {
        lemma_fields_shrink(s, depth);
        if after_unknown(s, depth) is Some {
            lemma_unknown_higher(s, depth, higher);
        }
        assert(cidr_field(acc, s, higher) == cidr_field(acc, s, depth));
        let (next, rest) = cidr_field(acc, s, depth)->0;
        lemma_cidr_higher(next, rest, depth, higher);
    }
}

proof fn lemma_geoip_higher(acc: GeoIpView, s: Seq<u8>, depth: nat, higher: nat)
    requires
        higher <= depth,
        geoip_fields(acc, s, depth) is Some,
    ensures
        geoip_fields(acc, s, higher) == geoip_fields(acc, s, depth),
    decreases s.len(),
{
    if s.len() > 0 {
        lemma_fields_shrink(s, depth);
        if after_unknown(s, depth) is Some {
            lemma_unknown_higher(s, depth, higher);
        }
        if let Some((tag, wire, body)) = field_key(s) {
            if tag == 2 {
                if let Some((inner, _)) = bytes_field(wire, body) {
                    lemma_cidr_higher(empty_cidr(), inner, depth + 1, higher + 1);
                }
            }
        }
        assert(geoip_field(acc, s, higher) == geoip_field(acc, s, depth));
        let (next, rest) = geoip_field(acc, s, depth)->0;
        lemma_geoip_higher(next, rest, depth, higher);
    }
}

proof fn lemma_geosite_higher(acc: GeoSiteView, s: Seq<u8>, depth: nat, higher: nat)
    requires
        higher <= depth,
        geosite_fields(acc, s, depth) is Some,
    ensures
        geosite_fields(acc, s, higher) == geosite_fields(acc, s, depth),
    decreases s.len(),
{
    if s.len() > 0 {
        lemma_fields_shrink(s, depth);
        if after_unknown(s, depth) is Some {
            lemma_unknown_higher(s, depth, higher);
        }
        if let Some((tag, wire, body)) = field_key(s) {
            if tag == 2 {
                if let Some((inner, _)) = bytes_field(wire, body) {
                    lemma_domain_higher(empty_domain(), inner, depth + 1, higher + 1);
                }
            }
        }
        assert(geosite_field(acc, s, higher) == geosite_field(acc, s, depth));
        let (next, rest) = geosite_field(acc, s, depth)->0;
        lemma_geosite_higher(next, rest, depth, higher);
    }
}

/// The entry at the start of a file that can be decoded as a whole is come upon in the stream.
proof fn lemma_entry_is_streamed(s: Seq<u8>)
    requires
        0 < s.len() <= usize::MAX,
        field_key(s) matches Some((tag, wire, body)) && tag == 1 && bytes_field(wire, body) is Some,
    ensures
        ({
            let (_, wire, body) = field_key(s)->0;
            let (inner, rest) = bytes_field(wire, body)->0;
            &&& next_entry(s, s.len(), None) matches TopLevel::Entry { start, len }
            &&& s.subrange(start as int, (start + len) as int) == inner
            &&& after(s, start + len) == rest
            &&& start + len + rest.len() == s.len()
            &&& start >= 1
        }),
{
    reveal(top_level);
    let (_, wire, body) = field_key(s)->0;
    let (inner, rest) = bytes_field(wire, body)->0;
    lemma_varint_len(s);
    lemma_varint_len(body);
    let n = (s.len() - body.len()) as nat;
    let end = end_text(None);
    if let VarintRead::Value { value, len: m } = varint(body) {
        assert(after(s, n) == body);
        assert(required_varint(after(s, n), end) == Ok::<(u64, nat), Seq<char>>((value, m)));
        assert(top_level(s, s.len(), None) == (TopLevel::Entry {
            start: n + m,
            len: value as nat,
        }));
        assert(s.subrange((n + m) as int, (n + m + value) as int) =~= inner);
        assert(after(s, (n + m + value) as nat) =~= rest);
    }
}

/// The field at the start of a file that can be decoded as a whole, where it is no entry, is
/// passed over in the stream, to the same end.
proof fn lemma_other_is_passed_over(s: Seq<u8>)
    requires
        0 < s.len() <= usize::MAX,
        field_key(s) matches Some((tag, _, _)) && tag != 1,
        after_unknown(s, 0) is Some,
    ensures
        ({
            let rest = after_unknown(s, 0)->0;
            &&& top_level(s, s.len(), None) matches TopLevel::Other { len }
            &&& after(s, len) == rest
            &&& len + rest.len() == s.len()
        }),
{
    reveal(top_level);
    reveal(after_unknown);
    let (tag, wire, contents) = field_key(s)->0;
    let end = end_text(None);
    let m = skipped_len(wire, tag, contents, levels_at(0))->0;
    lemma_varint_len(s);
    lemma_skipped_fits(wire, tag, contents, levels_at(0));
    lemma_stream_skips(wire, tag, contents, levels_at(0), 0, end);
    let n = (s.len() - contents.len()) as nat;
    assert(after(s, n) == contents);
    assert(after(s, n + m) =~= after(contents, m));
    assert(top_level(s, s.len(), None) == (TopLevel::Other { len: n + m }));
}

proof fn lemma_geosite_agrees(acc: Seq<GeoSiteView>, s: Seq<u8>)
    requires
        s.len() <= usize::MAX,
        geosite_list_fields(acc, s, 0) is Some,
    ensures
        geosite_list_fields(acc, s, 0)->0 == acc + geosite_visit(s, s.len(), None).0,
        geosite_visit(s, s.len(), None).1 == VisitEnd::Done,
    decreases s.len(),
{
    if s.len() == 0 {
        reveal(top_level);
        assert(leading_continuations(s) == 0);
        assert(next_entry(s, s.len(), None) == TopLevel::End);
        assert(acc + geosite_visit(s, s.len(), None).0 =~= acc);
    } else {
        lemma_fields_shrink(s, 0);
        let (tag, wire, body) = field_key(s)->0;
        let (next, rest) = geosite_list_field(acc, s, 0)->0;
        if tag == 1 {
            let (inner, _) = bytes_field(wire, body)->0;
            lemma_entry_is_streamed(s);
            lemma_geosite_higher(empty_geosite(), inner, 1, 0);
            let v = geosite_message(inner, 0)->0;
            lemma_geosite_agrees(next, rest);
            let later = geosite_visit(rest, rest.len(), None).0;
            assert(geosite_visit(s, s.len(), None) == (seq![v] + later, VisitEnd::Done));
            assert(acc.push(v) + later =~= acc + (seq![v] + later));
        } else {
            lemma_other_is_passed_over(s);
            let len = (s.len() - rest.len()) as nat;
            law_unknown_fields_are_passed_over(s, s.len(), None, len);
            lemma_geosite_agrees(next, rest);
        }
    }
}

/// Whatever file of domain lists can be decoded as a whole, streaming it comes upon the same
/// entries in the same order, and then the file ends.
pub proof fn law_geosite_stream_agrees(data: Seq<u8>, list: Seq<GeoSiteView>)
    requires
        data.len() <= usize::MAX,
        geosite_list_message(data, 0) == Some(list),
    ensures
        geosite_visit(data, data.len(), None) == (list, VisitEnd::Done),
{
    lemma_geosite_agrees(Seq::empty(), data);
    assert(Seq::<GeoSiteView>::empty() + geosite_visit(data, data.len(), None).0 =~= geosite_visit(
        data,
        data.len(),
        None,
    ).0);
}

proof fn lemma_geoip_agrees(acc: Seq<GeoIpView>, s: Seq<u8>)
    requires
        s.len() <= usize::MAX,
        geoip_list_fields(acc, s, 0) is Some,
    ensures
        geoip_list_fields(acc, s, 0)->0 == acc + geoip_visit(s, s.len(), None).0,
        geoip_visit(s, s.len(), None).1 == VisitEnd::Done,
    decreases s.len(),
{
    if s.len() == 0 {
        reveal(top_level);
        assert(leading_continuations(s) == 0);
        assert(next_entry(s, s.len(), None) == TopLevel::End);
        assert(acc + geoip_visit(s, s.len(), None).0 =~= acc);
    } else {
        lemma_fields_shrink(s, 0);
        let (tag, wire, body) = field_key(s)->0;
        let (next, rest) = geoip_list_field(acc, s, 0)->0;
        if tag == 1 {
            let (inner, _) = bytes_field(wire, body)->0;
            lemma_entry_is_streamed(s);
            lemma_geoip_higher(empty_geoip(), inner, 1, 0);
            let v = geoip_message(inner, 0)->0;
            lemma_geoip_agrees(next, rest);
            let later = geoip_visit(rest, rest.len(), None).0;
            assert(geoip_visit(s, s.len(), None) == (seq![v] + later, VisitEnd::Done));
            assert(acc.push(v) + later =~= acc + (seq![v] + later));
        } else {
            lemma_other_is_passed_over(s);
            let len = (s.len() - rest.len()) as nat;
            law_unknown_fields_are_passed_over(s, s.len(), None, len);
            lemma_geoip_agrees(next, rest);
        }
    }
}

/// Whatever file of address lists can be decoded as a whole, streaming it comes upon the same
/// entries in the same order, and then the file ends.
pub proof fn law_geoip_stream_agrees(data: Seq<u8>, list: Seq<GeoIpView>)
    requires
        data.len() <= usize::MAX,
        geoip_list_message(data, 0) == Some(list),
    ensures
        geoip_visit(data, data.len(), None) == (list, VisitEnd::Done),
{
    lemma_geoip_agrees(Seq::empty(), data);
    assert(Seq::<GeoIpView>::empty() + geoip_visit(data, data.len(), None).0 =~= geoip_visit(
        data,
        data.len(),
        None,
    ).0);
}

} // verus!
