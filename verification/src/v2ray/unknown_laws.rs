//! Fields that nobody asks for, as they are written, and how they are passed over.

use vstd::prelude::*;

use super::decode::{
    attribute_fields, cidr_fields, domain_fields, geoip_fields, geoip_list_fields, geosite_fields,
    geosite_list_fields, lemma_fields_shrink,
};
use super::encoding::{key_bytes, lemma_key};
use super::field::{after_unknown, field_key, group_len, levels_at, skipped_len};
use super::laws::{law_unknown_fields_are_passed_over, law_varint_reads_back, varint_bytes};
use super::model::{AttributeView, CidrView, DomainView, GeoIpView, GeoSiteView};
use super::parser::{geoip_visit, geosite_visit, top_level, TopLevel};
use super::wire::{after, end_text, required_varint, skipped_field, skipped_group};

verus! {

/// A field with any number.
pub struct AnyField {
    pub tag: u32,
    pub contents: Contents,
}

/// What a field can hold.
pub enum Contents {
    Number(u64),
    Eight(Seq<u8>),
    Bytes(Seq<u8>),
    Group(Seq<AnyField>),
    Four(Seq<u8>),
}

/// The wire type of the contents.
pub open spec fn wire_of(c: Contents) -> u8 {
    match c {
        Contents::Number(_) => 0,
        Contents::Eight(_) => 1,
        Contents::Bytes(_) => 2,
        Contents::Group(_) => 3,
        Contents::Four(_) => 5,
    }
}

/// The encoding of the contents of a field with the given number. Behind the fields of a group
/// stands an end marker with the number of the group.
pub open spec fn contents_bytes(tag: u32, c: Contents) -> Seq<u8>
    decreases c,
{
    match c {
        Contents::Number(n) => varint_bytes(n as nat),
        Contents::Eight(s) => s,
        Contents::Bytes(s) => varint_bytes(s.len()) + s,
        Contents::Group(fields) => fields_bytes(fields) + key_bytes(tag, 4),
        Contents::Four(s) => s,
    }
}

/// The encoding of fields, one after the other.
pub open spec fn fields_bytes(fields: Seq<AnyField>) -> Seq<u8>
    decreases fields,
{
    if fields.len() == 0 {
        Seq::empty()
    } else {
        key_bytes(fields[0].tag, wire_of(fields[0].contents)) + (contents_bytes(
            fields[0].tag,
            fields[0].contents,
        ) + fields_bytes(fields.drop_first()))
    }
}

/// The encoding of a field: its key and its contents.
pub open spec fn any_field_bytes(f: AnyField) -> Seq<u8> {
    key_bytes(f.tag, wire_of(f.contents)) + contents_bytes(f.tag, f.contents)
}

/// The contents are such as can be written.
pub open spec fn writable(c: Contents) -> bool
    decreases c,
{
    match c {
        Contents::Number(_) => true,
        Contents::Eight(s) => s.len() == 8,
        Contents::Bytes(s) => s.len() <= usize::MAX,
        Contents::Group(fields) => all_writable(fields),
        Contents::Four(s) => s.len() == 4,
    }
}

/// The fields are such as can be written.
pub open spec fn all_writable(fields: Seq<AnyField>) -> bool
    decreases fields,
{
    fields.len() == 0 || {
        &&& 1 <= fields[0].tag < 0x2000_0000
        &&& writable(fields[0].contents)
        &&& all_writable(fields.drop_first())
    }
}

/// How many groups lie one inside the other at the deepest place of the contents.
pub open spec fn nesting(c: Contents) -> nat
    decreases c,
{
    match c {
        Contents::Group(fields) => 1 + deepest(fields),
        _ => 0,
    }
}

/// How many groups lie one inside the other at the deepest place of the fields.
pub open spec fn deepest(fields: Seq<AnyField>) -> nat
    decreases fields,
{
    if fields.len() == 0 {
        0
    } else {
        let first = nesting(fields[0].contents);
        let others = deepest(fields.drop_first());
        if first >= others {
            first
        } else {
            others
        }
    }
}

/// What the streaming reader makes of the contents of a field.
#[verifier::opaque]
spec fn streamed(s: Seq<u8>, wire: u8, tag: u32, depth: nat, end: Seq<char>) -> Result<
    nat,
    Seq<char>,
> {
    skipped_field(s, wire, tag as u64, depth, end)
}

/// What the streaming reader makes of what is left of a group.
#[verifier::opaque]
spec fn streamed_group(s: Seq<u8>, tag: u32, depth: nat, end: Seq<char>) -> Result<
    nat,
    Seq<char>,
> {
    skipped_group(s, tag as u64, depth, end)
}

proof fn lemma_plain_is_streamed(tag: u32, c: Contents, rest: Seq<u8>, depth: nat, end: Seq<char>)
    requires
        writable(c),
        c !is Group,
    ensures
        streamed(contents_bytes(tag, c) + rest, wire_of(c), tag, depth, end) == Ok::<
            nat,
            Seq<char>,
        >(contents_bytes(tag, c).len()),
{
    reveal(streamed);
    let s = contents_bytes(tag, c) + rest;
    match c {
        Contents::Number(n) => {
            law_varint_reads_back(n, rest);
        },
        Contents::Bytes(body) => {
            law_varint_reads_back(body.len() as u64, body + rest);
            assert(s =~= varint_bytes(body.len()) + (body + rest));
        },
        _ => {},
    }
}

proof fn lemma_group_is_entered(s: Seq<u8>, tag: u32, depth: nat, end: Seq<char>)
    ensures
        streamed(s, 3, tag, depth, end) == (if depth >= 100 {
            Err("protobuf group nesting exceeds limit of 100"@)
        } else {
            streamed_group(s, tag, depth, end)
        }),
{
    reveal(streamed);
    reveal(streamed_group);
}

proof fn lemma_group_is_left(tag: u32, rest: Seq<u8>, depth: nat, end: Seq<char>)
    requires
        1 <= tag < 0x2000_0000,
    ensures
        streamed_group(key_bytes(tag, 4) + rest, tag, depth, end) == Ok::<nat, Seq<char>>(
            key_bytes(tag, 4).len(),
        ),
{
    reveal(streamed_group);
    law_varint_reads_back((8 * tag + 4) as u64, rest);
}

proof fn lemma_group_goes_on(
    group: u32,
    tag: u32,
    wire: u8,
    body: Seq<u8>,
    depth: nat,
    end: Seq<char>,
)
    requires
        1 <= tag < 0x2000_0000,
        wire <= 5,
        wire != 4,
    ensures
        streamed_group(key_bytes(tag, wire) + body, group, depth, end) == (match streamed(
            body,
            wire,
            tag,
            depth + 1,
            end,
        ) {
            Err(e) => Err::<nat, Seq<char>>(e),
            Ok(m) => match streamed_group(after(body, m), group, depth, end) {
                Err(e) => Err(e),
                Ok(k) => Ok(key_bytes(tag, wire).len() + m + k),
            },
        }),
{
    reveal(streamed);
    reveal(streamed_group);
    let key = (8 * tag + wire) as u64;
    law_varint_reads_back(key, body);
    assert(required_varint(key_bytes(tag, wire) + body, end) == Ok::<(u64, nat), Seq<char>>(
        (key, key_bytes(tag, wire).len()),
    ));
    assert(key % 8 == wire && key / 8 == tag);
}

/// The contents of a field, of whatever kind, are passed over by the streaming reader to the byte,
/// unless too many groups are open.
proof fn lemma_streamed(tag: u32, c: Contents, rest: Seq<u8>, depth: nat, end: Seq<char>)
    requires
        1 <= tag < 0x2000_0000,
        writable(c),
    ensures
        streamed(contents_bytes(tag, c) + rest, wire_of(c), tag, depth, end) == (if nesting(c) == 0
            || depth + nesting(c) <= 100 {
            Ok::<nat, Seq<char>>(contents_bytes(tag, c).len())
        } else {
            Err("protobuf group nesting exceeds limit of 100"@)
        }),
    decreases c, 0nat,
{
    let s = contents_bytes(tag, c) + rest;
    match c {
        Contents::Group(fields) => {
            lemma_group_is_entered(s, tag, depth, end);
            if depth < 100 {
                lemma_streamed_group(tag, fields, rest, depth, end);
                assert(s =~= fields_bytes(fields) + (key_bytes(tag, 4) + rest));
            }
        },
        _ => {
            lemma_plain_is_streamed(tag, c, rest, depth, end);
        },
    }
}

proof fn lemma_streamed_group(
    tag: u32,
    fields: Seq<AnyField>,
    rest: Seq<u8>,
    depth: nat,
    end: Seq<char>,
)
    requires
        1 <= tag < 0x2000_0000,
        all_writable(fields),
        depth < 100,
    ensures
        streamed_group(fields_bytes(fields) + (key_bytes(tag, 4) + rest), tag, depth, end) == (
        if depth + 1 + deepest(fields) <= 100 {
            Ok::<nat, Seq<char>>(fields_bytes(fields).len() + key_bytes(tag, 4).len())
        } else {
            Err("protobuf group nesting exceeds limit of 100"@)
        }),
    decreases fields, 1nat,
{
    let close = key_bytes(tag, 4) + rest;
    let s = fields_bytes(fields) + close;
    if fields.len() == 0 {
        assert(s =~= close);
        lemma_group_is_left(tag, rest, depth, end);
    } else {
        let f = fields[0];
        let others = fields.drop_first();
        let wire = wire_of(f.contents);
        let tail = fields_bytes(others) + close;
        let body = contents_bytes(f.tag, f.contents) + tail;
        assert(s =~= key_bytes(f.tag, wire) + body);
        lemma_group_goes_on(tag, f.tag, wire, body, depth, end);
        lemma_streamed(f.tag, f.contents, tail, depth + 1, end);
        assert(after(body, contents_bytes(f.tag, f.contents).len()) =~= tail);
        lemma_streamed_group(tag, others, rest, depth, end);
    }
}

/// A top-level field that is no entry, whatever it holds, is passed over to the byte, unless more
/// than a hundred groups lie one inside the other: then the file is refused for that reason.
pub proof fn law_any_field_is_passed_over(
    f: AnyField,
    rest: Seq<u8>,
    left: nat,
    failure: Option<String>,
)
    requires
        2 <= f.tag < 0x2000_0000,
        writable(f.contents),
    ensures
        top_level(any_field_bytes(f) + rest, left, failure) == (if nesting(f.contents) <= 100 {
            TopLevel::Other { len: any_field_bytes(f).len() }
        } else {
            TopLevel::Fault("protobuf group nesting exceeds limit of 100"@)
        }),
{
    reveal(top_level);
    let wire = wire_of(f.contents);
    let body = contents_bytes(f.tag, f.contents) + rest;
    assert(any_field_bytes(f) + rest =~= key_bytes(f.tag, wire) + body);
    law_varint_reads_back((8 * f.tag + wire) as u64, body);
    lemma_streamed(f.tag, f.contents, rest, 0, end_text(failure));
    reveal(streamed);
}

/// A file that starts with a field that is no entry is read as the file behind that field.
pub proof fn law_any_field_changes_no_entry(
    f: AnyField,
    rest: Seq<u8>,
    left: nat,
    failure: Option<String>,
)
    requires
        2 <= f.tag < 0x2000_0000,
        writable(f.contents),
        nesting(f.contents) <= 100,
    ensures
        ({
            let n = any_field_bytes(f).len();
            let remain = (if left < n {
                0
            } else {
                left - n
            }) as nat;
            &&& geosite_visit(any_field_bytes(f) + rest, left, failure) == geosite_visit(
                rest,
                remain,
                failure,
            )
            &&& geoip_visit(any_field_bytes(f) + rest, left, failure) == geoip_visit(
                rest,
                remain,
                failure,
            )
        }),
{
    let n = any_field_bytes(f).len();
    law_any_field_is_passed_over(f, rest, left, failure);
    law_unknown_fields_are_passed_over(any_field_bytes(f) + rest, left, failure, n);
    assert(after(any_field_bytes(f) + rest, n) =~= rest);
}

/// How many levels the contents take up: one, and one more for what a group holds.
pub open spec fn levels_of(c: Contents) -> nat
    decreases c,
{
    match c {
        Contents::Group(fields) => 1 + levels_of_all(fields),
        _ => 1,
    }
}

/// How many levels the fields take up.
pub open spec fn levels_of_all(fields: Seq<AnyField>) -> nat
    decreases fields,
{
    if fields.len() == 0 {
        0
    } else {
        let first = levels_of(fields[0].contents);
        let others = levels_of_all(fields.drop_first());
        if first >= others {
            first
        } else {
            others
        }
    }
}

/// What becomes of the contents of an unknown field of a message.
#[verifier::opaque]
spec fn passed(wire: u8, tag: u32, s: Seq<u8>, levels: nat) -> Option<nat> {
    skipped_len(wire, tag, s, levels)
}

/// What becomes of what is left of an unknown group of a message.
#[verifier::opaque]
spec fn passed_group(tag: u32, s: Seq<u8>, levels: nat) -> Option<nat> {
    group_len(tag, s, levels)
}

proof fn lemma_plain_is_passed(tag: u32, c: Contents, rest: Seq<u8>, levels: nat)
    requires
        writable(c),
        c !is Group,
    ensures
        passed(wire_of(c), tag, contents_bytes(tag, c) + rest, levels) == (if levels == 0 {
            None
        } else {
            Some(contents_bytes(tag, c).len())
        }),
{
    reveal(passed);
    let s = contents_bytes(tag, c) + rest;
    match c {
        Contents::Number(n) => {
            law_varint_reads_back(n, rest);
        },
        Contents::Bytes(body) => {
            law_varint_reads_back(body.len() as u64, body + rest);
            assert(s =~= varint_bytes(body.len()) + (body + rest));
        },
        _ => {},
    }
}

proof fn lemma_passed_group_starts(s: Seq<u8>, tag: u32, levels: nat)
    ensures
        passed(3, tag, s, levels) == (if levels == 0 {
            None
        } else {
            passed_group(tag, s, levels)
        }),
{
    reveal(passed);
    reveal(passed_group);
}

proof fn lemma_passed_group_ends(tag: u32, rest: Seq<u8>, levels: nat)
    requires
        1 <= tag < 0x2000_0000,
    ensures
        passed_group(tag, key_bytes(tag, 4) + rest, levels) == Some(key_bytes(tag, 4).len()),
{
    reveal(passed_group);
    lemma_key(tag, 4, rest);
}

proof fn lemma_passed_group_goes_on(group: u32, tag: u32, wire: u8, body: Seq<u8>, levels: nat)
    requires
        1 <= tag < 0x2000_0000,
        wire <= 5,
        wire != 4,
        levels > 0,
    ensures
        passed_group(group, key_bytes(tag, wire) + body, levels) == (match passed(
            wire,
            tag,
            body,
            (levels - 1) as nat,
        ) {
            None => None,
            Some(m) => match passed_group(group, after(body, m), levels) {
                None => None,
                Some(k) => Some(key_bytes(tag, wire).len() + m + k),
            },
        }),
{
    reveal(passed);
    reveal(passed_group);
    lemma_key(tag, wire, body);
}

/// The contents of a field, of whatever kind, are passed over in a message to the byte, unless they
/// lie too deep.
proof fn lemma_passed(tag: u32, c: Contents, rest: Seq<u8>, levels: nat)
    requires
        1 <= tag < 0x2000_0000,
        writable(c),
    ensures
        passed(wire_of(c), tag, contents_bytes(tag, c) + rest, levels) == (if levels_of(c)
            <= levels {
            Some(contents_bytes(tag, c).len())
        } else {
            None
        }),
    decreases c, 0nat,
{
    let s = contents_bytes(tag, c) + rest;
    match c {
        Contents::Group(fields) => {
            lemma_passed_group_starts(s, tag, levels);
            if levels > 0 {
                lemma_passed_group(tag, fields, rest, levels);
                assert(s =~= fields_bytes(fields) + (key_bytes(tag, 4) + rest));
            }
        },
        _ => {
            lemma_plain_is_passed(tag, c, rest, levels);
        },
    }
}

proof fn lemma_passed_group(tag: u32, fields: Seq<AnyField>, rest: Seq<u8>, levels: nat)
    requires
        1 <= tag < 0x2000_0000,
        all_writable(fields),
        levels > 0,
    ensures
        passed_group(tag, fields_bytes(fields) + (key_bytes(tag, 4) + rest), levels) == (if 1
            + levels_of_all(fields) <= levels {
            Some(fields_bytes(fields).len() + key_bytes(tag, 4).len())
        } else {
            None
        }),
    decreases fields, 1nat,
{
    let close = key_bytes(tag, 4) + rest;
    let s = fields_bytes(fields) + close;
    if fields.len() == 0 {
        assert(s =~= close);
        lemma_passed_group_ends(tag, rest, levels);
    } else {
        let f = fields[0];
        let others = fields.drop_first();
        let wire = wire_of(f.contents);
        let tail = fields_bytes(others) + close;
        let body = contents_bytes(f.tag, f.contents) + tail;
        assert(s =~= key_bytes(f.tag, wire) + body);
        lemma_passed_group_goes_on(tag, f.tag, wire, body, levels);
        lemma_passed(f.tag, f.contents, tail, (levels - 1) as nat);
        assert(after(body, contents_bytes(f.tag, f.contents).len()) =~= tail);
        lemma_passed_group(tag, others, rest, levels);
    }
}

/// A field of a message that nobody asks for is passed over to the byte, whatever it holds, where
/// the messages and groups around its contents take up no more than a hundred levels. Otherwise the
/// message is refused.
pub proof fn law_unknown_field_is_skipped(f: AnyField, rest: Seq<u8>, depth: nat)
    requires
        1 <= f.tag < 0x2000_0000,
        writable(f.contents),
    ensures
        after_unknown(any_field_bytes(f) + rest, depth) == (if depth + levels_of(f.contents)
            <= 100 {
            Some(rest)
        } else {
            None
        }),
        field_key(any_field_bytes(f) + rest) matches Some((tag, _, _)) && tag == f.tag,
        any_field_bytes(f).len() > 0,
{
    reveal(after_unknown);
    let wire = wire_of(f.contents);
    let body = contents_bytes(f.tag, f.contents) + rest;
    assert(any_field_bytes(f) + rest =~= key_bytes(f.tag, wire) + body);
    lemma_key(f.tag, wire, body);
    lemma_passed(f.tag, f.contents, rest, levels_at(depth));
    reveal(passed);
    assert(after(body, contents_bytes(f.tag, f.contents).len()) =~= rest);
}

/// A field with a number that a message does not have changes nothing of what is decoded, wherever
/// it stands among the fields.
pub proof fn law_unknown_field_changes_nothing(f: AnyField, rest: Seq<u8>, depth: nat)
    requires
        1 <= f.tag < 0x2000_0000,
        writable(f.contents),
        depth + levels_of(f.contents) <= 100,
    ensures
        ({
            let s = any_field_bytes(f) + rest;
            &&& f.tag > 3 ==> forall|v: AttributeView| #[trigger]
                attribute_fields(v, s, depth) == attribute_fields(v, rest, depth)
            &&& f.tag > 3 ==> forall|v: DomainView| #[trigger]
                domain_fields(v, s, depth) == domain_fields(v, rest, depth)
            &&& f.tag > 2 ==> forall|v: CidrView| #[trigger]
                cidr_fields(v, s, depth) == cidr_fields(v, rest, depth)
            &&& f.tag > 5 && f.tag != 68000 ==> forall|v: GeoIpView| #[trigger]
                geoip_fields(v, s, depth) == geoip_fields(v, rest, depth)
            &&& f.tag > 4 && f.tag != 68000 ==> forall|v: GeoSiteView| #[trigger]
                geosite_fields(v, s, depth) == geosite_fields(v, rest, depth)
            &&& f.tag > 1 ==> forall|v: Seq<GeoIpView>| #[trigger]
                geoip_list_fields(v, s, depth) == geoip_list_fields(v, rest, depth)
            &&& f.tag > 1 ==> forall|v: Seq<GeoSiteView>| #[trigger]
                geosite_list_fields(v, s, depth) == geosite_list_fields(v, rest, depth)
        }),
{
    law_unknown_field_is_skipped(f, rest, depth);
    lemma_fields_shrink(any_field_bytes(f) + rest, depth);
}

} // verus!
