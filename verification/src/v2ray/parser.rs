//! Entries of the rule files: streaming them, decoding them, and turning them into rule text.

use vstd::prelude::*;
use vstd::slice::slice_subrange;

use prost::DecodeError;

use super::decode::{decode_geoip, decode_geosite, geoip_message, geosite_message};
use super::field::{decode_error_text, report, reported};
use super::model::{GeoIp, GeoIpView, GeoSite, GeoSiteView};
use super::wire::{
    after, end_text, lemma_skipped_len, lemma_varint_len, monus, read_required_varint, read_varint,
    required_varint, skip_field, skipped_field, varint, Reader, VarintRead,
};
use crate::text::{decimal, push_decimal};

verus! {

/// What the bytes at some place between two top-level fields of a file start with.
pub enum TopLevel {
    /// Nothing: the file ends.
    End,
    /// A field that is no entry, `len` bytes long with its key.
    Other { len: nat },
    /// An entry, whose encoding starts `start` bytes further on and is `len` bytes long.
    Entry { start: nat, len: nat },
    /// Something that cannot be read, and the text of the error.
    Fault(Seq<char>),
}

/// The text of the error for an entry that is said to be `len` bytes long where the file holds
/// only `left` more.
pub open spec fn overlong_text(len: nat, left: nat) -> Seq<char> {
    "truncated protobuf entry payload: declared "@ + decimal(len) + " bytes, only "@ + decimal(left)
        + " remain"@
}

/// The length of an entry and where it starts, after the key of `n` bytes in front of it.
pub open spec fn entry_at(rest: Seq<u8>, n: nat, left: nat, end: Seq<char>) -> TopLevel {
    match required_varint(after(rest, n), end) {
        Err(e) => TopLevel::Fault(e),
        Ok((len, m)) => {
            let remain = monus(left as int, (n + m) as int) as nat;
            if len > remain {
                TopLevel::Fault(overlong_text(len as nat, remain))
            } else if len > usize::MAX {
                TopLevel::Fault("protobuf entry length exceeds platform limits"@)
            } else if n + m + len > rest.len() {
                TopLevel::Fault("truncated protobuf entry payload: "@ + end)
            } else {
                TopLevel::Entry { start: n + m, len: len as nat }
            }
        },
    }
}

/// The top-level field at the start of `rest`. Entries are the fields with number 1. The file
/// holds `left` more bytes by its length; reading it stopped after `rest`, at the end of the file
/// or on `failure`.
#[verifier::opaque]
pub open spec fn top_level(rest: Seq<u8>, left: nat, failure: Option<String>) -> TopLevel {
    let end = end_text(failure);
    match varint(rest) {
        VarintRead::Truncated => if rest.len() == 0 && failure is None {
            TopLevel::End
        } else {
            TopLevel::Fault("truncated protobuf varint: "@ + end)
        },
        VarintRead::Overflow => TopLevel::Fault("protobuf varint overflows u64"@),
        VarintRead::Value { value: key, len: n } => {
            let field = key / 8;
            let wire = (key % 8) as u8;
            if key == 0 {
                TopLevel::Fault("protobuf field key must not be zero"@)
            } else if field == 1 && wire != 2 {
                TopLevel::Fault(
                    "protobuf entry field has unexpected wire type "@ + decimal(wire as nat),
                )
            } else if field == 1 {
                entry_at(rest, n, left, end)
            } else {
                match skipped_field(after(rest, n), wire, field, 0, end) {
                    Err(e) => TopLevel::Fault(e),
                    Ok(m) => TopLevel::Other { len: n + m },
                }
            }
        },
    }
}

/// What the bytes before the next entry amount to: its place, the end of the file, or a fault.
/// Fields that are no entries are passed over.
pub open spec fn next_entry(rest: Seq<u8>, left: nat, failure: Option<String>) -> TopLevel
    decreases rest.len(),
{
    proof {
        lemma_top_level_len(rest, left, failure);
    }
    match top_level(rest, left, failure) {
        TopLevel::Other { len: n } => match next_entry(
            after(rest, n),
            monus(left as int, n as int) as nat,
            failure,
        ) {
            TopLevel::Entry { start, len } => TopLevel::Entry { start: n + start, len },
            other => other,
        },
        other => other,
    }
}

/// A top-level field takes at least one byte, and no more than there are.
pub proof fn lemma_top_level_len(rest: Seq<u8>, left: nat, failure: Option<String>)
    ensures
        match top_level(rest, left, failure) {
            TopLevel::Other { len } => 1 <= len <= rest.len(),
            TopLevel::Entry { start, len } => 1 <= start && start + len <= rest.len(),
            TopLevel::End => rest.len() == 0,
            TopLevel::Fault(_) => true,
        },
{
    reveal(top_level);
    lemma_varint_len(rest);
    if let VarintRead::Value { value: key, len: n } = varint(rest) {
        lemma_skipped_len(after(rest, n), (key % 8) as u8, key / 8, 0, end_text(failure));
        lemma_varint_len(after(rest, n));
    }
}

/// A top-level field as it is read.
pub enum TopLevelField<'a> {
    /// The file ends here.
    End,
    /// A field that is no entry.
    Other,
    /// The encoding of an entry.
    Entry(&'a [u8]),
}

fn read_entry<'a>(
    reader: &mut Reader<'a>,
    Ghost(before): Ghost<Reader<'a>>,
    Ghost(n): Ghost<nat>,
) -> (r: Result<&'a [u8], String>)
    requires
        old(reader).advanced(before, n),
    ensures
        final(reader).failure == before.failure,
        match entry_at(before.rest@, n, before.left as nat, before.end()) {
            TopLevel::Entry { start, len } => {
                &&& r matches Ok(payload)
                &&& payload@ == before.rest@.subrange(start as int, (start + len) as int)
                &&& final(reader).advanced(before, start + len)
            },
            TopLevel::Fault(text) => r matches Err(e) && e@ == text,
            _ => false,
        },
{
    proof {
        lemma_varint_len(reader.rest@);
    }
    let encoded_len: u64 = match read_required_varint(reader) {
        Ok(len) => len,
        Err(e) => return Err(e),
    };
    let ghost m = required_varint(after(before.rest@, n), before.end())->Ok_0.1;
    assert(reader.rest@ =~= before.rest@.skip((n + m) as int));
    if encoded_len > reader.left {
        return Err(overlong_error(encoded_len, reader.left));
    }
    if encoded_len > usize::MAX as u64 {
        return Err("protobuf entry length exceeds platform limits".to_owned());
    }
    let len: usize = encoded_len as usize;
    if len > reader.rest.len() {
        return Err(reader.end_error("truncated protobuf entry payload: "));
    }
    let payload = slice_subrange(reader.rest, 0, len);
    reader.advance(len);
    assert(payload@ =~= before.rest@.subrange((n + m) as int, (n + m + len) as int));
    assert(reader.rest@ =~= before.rest@.skip((n + m + len) as int));
    Ok(payload)
}

/// Reads one top-level field. The contents of a field that is no entry are passed over.
pub fn read_top_level<'a>(reader: &mut Reader<'a>) -> (r: Result<TopLevelField<'a>, String>)
    ensures
        final(reader).failure == old(reader).failure,
        match top_level(old(reader).rest@, old(reader).left as nat, old(reader).failure) {
            TopLevel::End => r matches Ok(f) && f is End && *final(reader) == *old(reader),
            TopLevel::Other { len } => r matches Ok(f) && f is Other && final(reader).advanced(
                *old(reader),
                len,
            ),
            TopLevel::Entry { start, len } => {
                &&& r matches Ok(TopLevelField::Entry(payload))
                &&& payload@ == old(reader).rest@.subrange(start as int, (start + len) as int)
                &&& final(reader).advanced(*old(reader), start + len)
            },
            TopLevel::Fault(text) => r matches Err(e) && e@ == text,
        },
{
    let ghost before = *reader;
    proof {
        reveal(top_level);
        lemma_varint_len(before.rest@);
    }
    let key: u64 = match read_varint(reader, true) {
        Ok(Some(key)) => key,
        Ok(None) => return Ok(TopLevelField::End),
        Err(e) => return Err(e),
    };
    let ghost n = varint(before.rest@)->len;
    if key == 0 {
        return Err("protobuf field key must not be zero".to_owned());
    }
    let field: u64 = key / 8;
    let wire: u8 = (key % 8) as u8;
    if field == 1 {
        if wire != 2 {
            let mut text: String = "protobuf entry field has unexpected wire type ".to_owned();
            push_decimal(&mut text, wire as u64);
            return Err(text);
        }
        return match read_entry(reader, Ghost(before), Ghost(n)) {
            Ok(payload) => Ok(TopLevelField::Entry(payload)),
            Err(e) => Err(e),
        };
    }
    proof {
        lemma_skipped_len(after(before.rest@, n), wire, field, 0, before.end());
    }
    match skip_field(reader, wire, field, 0) {
        Ok(()) => {
            proof {
                let m = skipped_field(after(before.rest@, n), wire, field, 0, before.end())->Ok_0;
                assert(reader.rest@ =~= before.rest@.skip((n + m) as int));
            }
            Ok(TopLevelField::Other)
        },
        Err(e) => Err(e),
    }
}

/// Moves to the next entry and returns its encoding, or `None` at the end of the file.
pub fn next_payload<'a>(reader: &mut Reader<'a>) -> (r: Result<Option<&'a [u8]>, String>)
    ensures
        final(reader).failure == old(reader).failure,
        match next_entry(old(reader).rest@, old(reader).left as nat, old(reader).failure) {
            TopLevel::End => r == Ok::<Option<&[u8]>, String>(None)
                && final(reader).rest@.len() == 0,
            TopLevel::Entry { start, len } => {
                &&& r matches Ok(Some(payload))
                &&& payload@ == old(reader).rest@.subrange(start as int, (start + len) as int)
                &&& final(reader).advanced(*old(reader), start + len)
            },
            TopLevel::Fault(text) => r matches Err(e) && e@ == text,
            TopLevel::Other { .. } => false,
        },
{
    let ghost start = reader.rest@;
    let ghost left = reader.left as nat;
    let ghost failure = reader.failure;
    let ghost mut done: nat = 0;
    assert(start.skip(0) =~= start);
    loop
        invariant
            start == old(reader).rest@,
            left == old(reader).left,
            failure == old(reader).failure,
            reader.advanced(*old(reader), done),
            next_entry(start, left, failure) == (match next_entry(
                reader.rest@,
                reader.left as nat,
                failure,
            ) {
                TopLevel::Entry { start, len } => TopLevel::Entry { start: done + start, len },
                other => other,
            }),
        decreases reader.rest@.len(),
    {
        let ghost before = *reader;
        proof {
            lemma_top_level_len(reader.rest@, reader.left as nat, failure);
        }
        match read_top_level(reader) {
            Ok(TopLevelField::End) => return Ok(None),
            Ok(TopLevelField::Entry(payload)) => {
                proof {
                    let (at, len) = match top_level(before.rest@, before.left as nat, failure) {
                        TopLevel::Entry { start, len } => (start, len),
                        _ => arbitrary(),
                    };
                    assert(payload@ =~= start.subrange(
                        (done + at) as int,
                        (done + at + len) as int,
                    ));
                    assert(reader.rest@ =~= start.skip((done + at + len) as int));
                }
                return Ok(Some(payload));
            },
            Ok(TopLevelField::Other) => {
                proof {
                    let n = top_level(before.rest@, before.left as nat, failure)->Other_len;
                    assert(reader.rest@ =~= start.skip((done + n) as int));
                    done = done + n;
                }
            },
            Err(e) => return Err(e),
        }
    }
}

fn overlong_error(len: u64, left: u64) -> (r: String)
    ensures
        r@ == overlong_text(len as nat, left as nat),
{
    let mut text: String = "truncated protobuf entry payload: declared ".to_owned();
    push_decimal(&mut text, len);
    text.append(" bytes, only ");
    push_decimal(&mut text, left);
    text.append(" remain");
    text
}

/// The text of the error for an entry that cannot be decoded, with what the decode error says of
/// itself.
pub open spec fn is_entry_error(text: Seq<char>) -> bool {
    exists|reason: Seq<char>|
        text == "failed to decode protobuf entry: "@ + #[trigger] decode_error_text(reason)
            && reported(decode_error_text(reason))
}

fn entry_error(error: &DecodeError) -> (r: String)
    ensures
        is_entry_error(r@),
{
    let mut text: String = "failed to decode protobuf entry: ".to_owned();
    let reason: String = report(error);
    text.append(reason.as_str());
    text
}

/// How the walk through a file of entries ends.
pub enum VisitEnd {
    /// At the end of the file.
    Done,
    /// At an entry that cannot be decoded.
    Undecodable,
    /// At something that cannot be read, and the text of the error.
    Fault(Seq<char>),
}

/// `r` reports `end`.
pub open spec fn visit_result(r: Result<(), String>, end: VisitEnd) -> bool {
    match end {
        VisitEnd::Done => r is Ok,
        VisitEnd::Undecodable => r matches Err(e) && is_entry_error(e@),
        VisitEnd::Fault(text) => r matches Err(e) && e@ == text,
    }
}

/// An entry takes at least one byte with what precedes it, and no more than there are.
pub proof fn lemma_next_entry_len(rest: Seq<u8>, left: nat, failure: Option<String>)
    ensures
        match next_entry(rest, left, failure) {
            TopLevel::Entry { start, len } => 1 <= start && start + len <= rest.len(),
            TopLevel::Other { .. } => false,
            _ => true,
        },
    decreases rest.len(),
{
    lemma_top_level_len(rest, left, failure);
    if let TopLevel::Other { len: n } = top_level(rest, left, failure) {
        lemma_next_entry_len(after(rest, n), monus(left as int, n as int) as nat, failure);
    }
}

/// Decodes the entry of a file of domain lists that `payload` encodes.
pub fn geosite_entry(payload: &[u8]) -> (r: Result<GeoSite, String>)
    ensures
        match geosite_message(payload@, 0) {
            Some(v) => r matches Ok(entry) && entry@ == v,
            None => r matches Err(e) && is_entry_error(e@),
        },
{
    match decode_geosite(payload, 0) {
        Ok(entry) => Ok(entry),
        Err(e) => Err(entry_error(&e)),
    }
}

/// Moves to the next entry of a file of domain lists and decodes it, or `None` at the end.
pub fn next_geosite_entry(reader: &mut Reader) -> (r: Result<Option<GeoSite>, String>)
    ensures
        final(reader).failure == old(reader).failure,
        match next_entry(old(reader).rest@, old(reader).left as nat, old(reader).failure) {
            TopLevel::End => r == Ok::<Option<GeoSite>, String>(None),
            TopLevel::Fault(text) => r matches Err(e) && e@ == text,
            TopLevel::Other { .. } => false,
            TopLevel::Entry { start, len } => match geosite_message(
                old(reader).rest@.subrange(start as int, (start + len) as int),
                0,
            ) {
                Some(v) => {
                    &&& r matches Ok(Some(entry))
                    &&& entry@ == v
                    &&& final(reader).advanced(*old(reader), start + len)
                },
                None => r matches Err(e) && is_entry_error(e@),
            },
        },
{
    match next_payload(reader) {
        Ok(Some(payload)) => match geosite_entry(payload) {
            Ok(entry) => Ok(Some(entry)),
            Err(e) => Err(e),
        },
        Ok(None) => Ok(None),
        Err(e) => Err(e),
    }
}

/// The entries of a file of domain lists that are come upon, in order, and how the walk ends.
pub open spec fn geosite_visit(rest: Seq<u8>, left: nat, failure: Option<String>) -> (
    Seq<GeoSiteView>,
    VisitEnd,
)
    decreases rest.len(),
{
    proof {
        lemma_next_entry_len(rest, left, failure);
    }
    match next_entry(rest, left, failure) {
        TopLevel::Fault(text) => (Seq::empty(), VisitEnd::Fault(text)),
        TopLevel::Entry { start, len } => match geosite_message(
            rest.subrange(start as int, (start + len) as int),
            0,
        ) {
            None => (Seq::empty(), VisitEnd::Undecodable),
            Some(v) => {
                let (entries, end) = geosite_visit(
                    after(rest, start + len),
                    monus(left as int, (start + len) as int) as nat,
                    failure,
                );
                (seq![v] + entries, end)
            },
        },
        _ => (Seq::empty(), VisitEnd::Done),
    }
}

/// Walks a file of domain lists entry by entry. The entries up to the first one that cannot be
/// read or decoded come with the error, if there is one.
pub fn visit_geosite_file(reader: Reader) -> (r: (Vec<GeoSite>, Result<(), String>))
    ensures
        r.0@.map_values(|e: GeoSite| e@) == geosite_visit(
            reader.rest@,
            reader.left as nat,
            reader.failure,
        ).0,
        visit_result(r.1, geosite_visit(reader.rest@, reader.left as nat, reader.failure).1),
{
    let ghost whole = geosite_visit(reader.rest@, reader.left as nat, reader.failure);
    let ghost failure = reader.failure;
    let mut cursor = reader;
    let mut entries: Vec<GeoSite> = Vec::new();
    loop
        invariant
            failure == reader.failure,
            whole == geosite_visit(reader.rest@, reader.left as nat, reader.failure),
            cursor.failure == failure,
            whole.0 == entries@.map_values(|e: GeoSite| e@) + geosite_visit(
                cursor.rest@,
                cursor.left as nat,
                failure,
            ).0,
            whole.1 == geosite_visit(cursor.rest@, cursor.left as nat, failure).1,
        decreases cursor.rest@.len(),
    {
        proof {
            lemma_next_entry_len(cursor.rest@, cursor.left as nat, failure);
        }
        let ghost before = entries@.map_values(|e: GeoSite| e@);
        match next_geosite_entry(&mut cursor) {
            Ok(Some(entry)) => {
                let ghost v = entry@;
                entries.push(entry);
                assert(entries@.map_values(|e: GeoSite| e@) =~= before.push(v));
                assert(whole.0 =~= before.push(v) + geosite_visit(
                    cursor.rest@,
                    cursor.left as nat,
                    failure,
                ).0);
            },
            Ok(None) => {
                assert(whole.0 =~= before);
                return (entries, Ok(()));
            },
            Err(e) => {
                assert(whole.0 =~= before);
                return (entries, Err(e));
            },
        }
    }
}

/// Decodes the entry of a file of address lists that `payload` encodes.
pub fn geoip_entry(payload: &[u8]) -> (r: Result<GeoIp, String>)
    ensures
        match geoip_message(payload@, 0) {
            Some(v) => r matches Ok(entry) && entry@ == v,
            None => r matches Err(e) && is_entry_error(e@),
        },
{
    match decode_geoip(payload, 0) {
        Ok(entry) => Ok(entry),
        Err(e) => Err(entry_error(&e)),
    }
}

/// Moves to the next entry of a file of address lists and decodes it, or `None` at the end.
pub fn next_geoip_entry(reader: &mut Reader) -> (r: Result<Option<GeoIp>, String>)
    ensures
        final(reader).failure == old(reader).failure,
        match next_entry(old(reader).rest@, old(reader).left as nat, old(reader).failure) {
            TopLevel::End => r == Ok::<Option<GeoIp>, String>(None),
            TopLevel::Fault(text) => r matches Err(e) && e@ == text,
            TopLevel::Other { .. } => false,
            TopLevel::Entry { start, len } => match geoip_message(
                old(reader).rest@.subrange(start as int, (start + len) as int),
                0,
            ) {
                Some(v) => {
                    &&& r matches Ok(Some(entry))
                    &&& entry@ == v
                    &&& final(reader).advanced(*old(reader), start + len)
                },
                None => r matches Err(e) && is_entry_error(e@),
            },
        },
{
    match next_payload(reader) {
        Ok(Some(payload)) => match geoip_entry(payload) {
            Ok(entry) => Ok(Some(entry)),
            Err(e) => Err(e),
        },
        Ok(None) => Ok(None),
        Err(e) => Err(e),
    }
}

/// The entries of a file of address lists that are come upon, in order, and how the walk ends.
pub open spec fn geoip_visit(rest: Seq<u8>, left: nat, failure: Option<String>) -> (
    Seq<GeoIpView>,
    VisitEnd,
)
    decreases rest.len(),
{
    proof {
        lemma_next_entry_len(rest, left, failure);
    }
    match next_entry(rest, left, failure) {
        TopLevel::Fault(text) => (Seq::empty(), VisitEnd::Fault(text)),
        TopLevel::Entry { start, len } => match geoip_message(
            rest.subrange(start as int, (start + len) as int),
            0,
        ) {
            None => (Seq::empty(), VisitEnd::Undecodable),
            Some(v) => {
                let (entries, end) = geoip_visit(
                    after(rest, start + len),
                    monus(left as int, (start + len) as int) as nat,
                    failure,
                );
                (seq![v] + entries, end)
            },
        },
        _ => (Seq::empty(), VisitEnd::Done),
    }
}

/// Walks a file of address lists entry by entry. The entries up to the first one that cannot be
/// read or decoded come with the error, if there is one.
pub fn visit_geoip_file(reader: Reader) -> (r: (Vec<GeoIp>, Result<(), String>))
    ensures
        r.0@.map_values(|e: GeoIp| e@) == geoip_visit(
            reader.rest@,
            reader.left as nat,
            reader.failure,
        ).0,
        visit_result(r.1, geoip_visit(reader.rest@, reader.left as nat, reader.failure).1),
{
    let ghost whole = geoip_visit(reader.rest@, reader.left as nat, reader.failure);
    let ghost failure = reader.failure;
    let mut cursor = reader;
    let mut entries: Vec<GeoIp> = Vec::new();
    loop
        invariant
            failure == reader.failure,
            whole == geoip_visit(reader.rest@, reader.left as nat, reader.failure),
            cursor.failure == failure,
            whole.0 == entries@.map_values(|e: GeoIp| e@) + geoip_visit(
                cursor.rest@,
                cursor.left as nat,
                failure,
            ).0,
            whole.1 == geoip_visit(cursor.rest@, cursor.left as nat, failure).1,
        decreases cursor.rest@.len(),
    {
        proof {
            lemma_next_entry_len(cursor.rest@, cursor.left as nat, failure);
        }
        let ghost before = entries@.map_values(|e: GeoIp| e@);
        match next_geoip_entry(&mut cursor) {
            Ok(Some(entry)) => {
                let ghost v = entry@;
                entries.push(entry);
                assert(entries@.map_values(|e: GeoIp| e@) =~= before.push(v));
                assert(whole.0 =~= before.push(v) + geoip_visit(
                    cursor.rest@,
                    cursor.left as nat,
                    failure,
                ).0);
            },
            Ok(None) => {
                assert(whole.0 =~= before);
                return (entries, Ok(()));
            },
            Err(e) => {
                assert(whole.0 =~= before);
                return (entries, Err(e));
            },
        }
    }
}

} // verus!
