//! Single fields of protobuf messages, read with `prost`.
//!
//! Each reader takes the bytes from some place in a message to its end and hands back a value
//! with the bytes that follow it.

use vstd::prelude::*;
use vstd::slice::slice_subrange;
use vstd::utf8::{decode_utf8, valid_utf8};

use prost::encoding::{DecodeContext, WireType};
use prost::DecodeError;

use super::wire::{after, base128, leading_continuations, lemma_varint_len, varint, VarintRead};

verus! {

/// `prost::DecodeError`: why bytes are not the message that they were taken for.
#[verifier::external_type_specification]
#[verifier::external_body]
pub struct ExDecodeError(prost::DecodeError);

/// The value of a varint field of wire type `wire` at the start of `s`, with the bytes after it.
pub open spec fn varint_field(wire: u8, s: Seq<u8>) -> Option<(u64, Seq<u8>)> {
    match varint(s) {
        VarintRead::Value { value, len } => if wire == 0 {
            Some((value, after(s, len)))
        } else {
            None
        },
        _ => None,
    }
}

/// The contents of a length-delimited field of wire type `wire` at the start of `s`, with the
/// bytes after it.
pub open spec fn bytes_field(wire: u8, s: Seq<u8>) -> Option<(Seq<u8>, Seq<u8>)> {
    match varint(s) {
        VarintRead::Value { value, len } => {
            let body = after(s, len);
            if wire == 2 && value <= body.len() {
                Some((body.take(value as int), body.skip(value as int)))
            } else {
                None
            }
        },
        _ => None,
    }
}

/// The text of a string field of wire type `wire` at the start of `s`, with the bytes after it.
pub open spec fn string_field(wire: u8, s: Seq<u8>) -> Option<(Seq<char>, Seq<u8>)> {
    match bytes_field(wire, s) {
        Some((body, rest)) => if valid_utf8(body) {
            Some((decode_utf8(body), rest))
        } else {
            None
        },
        None => None,
    }
}

/// The tag and wire type of the field key at the start of `s`, with the bytes after it. A key
/// fits in 32 bits, its tag is not zero and its wire type is one of the six that exist.
pub open spec fn field_key(s: Seq<u8>) -> Option<(u32, u8, Seq<u8>)> {
    match varint(s) {
        VarintRead::Value { value, len } => if 8 <= value <= u32::MAX && value % 8 <= 5 {
            Some(((value / 8) as u32, (value % 8) as u8, after(s, len)))
        } else {
            None
        },
        _ => None,
    }
}

/// `prost::encoding::decode_key` reads a varint and takes it apart into tag and wire type.
#[verifier::external_body]
pub(crate) fn decode_key<'a>(bytes: &'a [u8]) -> (r: Result<(u32, u8, &'a [u8]), DecodeError>)
    ensures
        match field_key(bytes@) {
            Some((tag, wire, rest)) => r matches Ok(k) && k.0 == tag && k.1 == wire && k.2@ == rest,
            None => r is Err,
        },
{
    let mut buf = bytes;
    let (tag, wire) = prost::encoding::decode_key(&mut buf)?;
    Ok((tag, wire as u8, buf))
}

/// `prost::encoding::string::merge` reads a length and as many bytes of UTF-8, and refuses any
/// wire type but the length-delimited one.
#[verifier::external_body]
pub(crate) fn merge_string<'a>(wire: u8, bytes: &'a [u8]) -> (r: Result<
    (String, &'a [u8]),
    DecodeError,
>)
    requires
        wire <= 5,
    ensures
        match string_field(wire, bytes@) {
            Some((text, rest)) => r matches Ok(v) && v.0@ == text && v.1@ == rest,
            None => r is Err,
        },
{
    let mut buf = bytes;
    let mut value = String::new();
    let wire = WireType::try_from(wire as u64)?;
    prost::encoding::string::merge(wire, &mut value, &mut buf, DecodeContext::default())?;
    Ok((value, buf))
}

/// `prost::encoding::bytes::merge` reads a length and as many bytes, and refuses any wire type
/// but the length-delimited one.
#[verifier::external_body]
pub(crate) fn merge_bytes<'a>(wire: u8, bytes: &'a [u8]) -> (r: Result<
    (Vec<u8>, &'a [u8]),
    DecodeError,
>)
    requires
        wire <= 5,
    ensures
        match bytes_field(wire, bytes@) {
            Some((body, rest)) => r matches Ok(v) && v.0@ == body && v.1@ == rest,
            None => r is Err,
        },
{
    let mut buf = bytes;
    let mut value: Vec<u8> = Vec::new();
    let wire = WireType::try_from(wire as u64)?;
    prost::encoding::bytes::merge(wire, &mut value, &mut buf, DecodeContext::default())?;
    Ok((value, buf))
}

/// `prost::encoding::int32::merge` reads a varint and keeps its low 32 bits, as a signed number.
#[verifier::external_body]
pub(crate) fn merge_int32<'a>(wire: u8, bytes: &'a [u8]) -> (r: Result<
    (i32, &'a [u8]),
    DecodeError,
>)
    requires
        wire <= 5,
    ensures
        match varint_field(wire, bytes@) {
            Some((value, rest)) => r matches Ok(v) && v.0 == value as i32 && v.1@ == rest,
            None => r is Err,
        },
{
    let mut buf = bytes;
    let mut value: i32 = 0;
    let wire = WireType::try_from(wire as u64)?;
    prost::encoding::int32::merge(wire, &mut value, &mut buf, DecodeContext::default())?;
    Ok((value, buf))
}

/// `prost::encoding::uint32::merge` reads a varint and keeps its low 32 bits.
#[verifier::external_body]
pub(crate) fn merge_uint32<'a>(wire: u8, bytes: &'a [u8]) -> (r: Result<
    (u32, &'a [u8]),
    DecodeError,
>)
    requires
        wire <= 5,
    ensures
        match varint_field(wire, bytes@) {
            Some((value, rest)) => r matches Ok(v) && v.0 == value as u32 && v.1@ == rest,
            None => r is Err,
        },
{
    let mut buf = bytes;
    let mut value: u32 = 0;
    let wire = WireType::try_from(wire as u64)?;
    prost::encoding::uint32::merge(wire, &mut value, &mut buf, DecodeContext::default())?;
    Ok((value, buf))
}

/// `prost::encoding::int64::merge` reads a varint as a signed number of 64 bits.
#[verifier::external_body]
pub(crate) fn merge_int64<'a>(wire: u8, bytes: &'a [u8]) -> (r: Result<
    (i64, &'a [u8]),
    DecodeError,
>)
    requires
        wire <= 5,
    ensures
        match varint_field(wire, bytes@) {
            Some((value, rest)) => r matches Ok(v) && v.0 == value as i64 && v.1@ == rest,
            None => r is Err,
        },
{
    let mut buf = bytes;
    let mut value: i64 = 0;
    let wire = WireType::try_from(wire as u64)?;
    prost::encoding::int64::merge(wire, &mut value, &mut buf, DecodeContext::default())?;
    Ok((value, buf))
}

/// `prost::encoding::bool::merge` reads a varint and tells whether it differs from zero.
#[verifier::external_body]
pub(crate) fn merge_bool<'a>(wire: u8, bytes: &'a [u8]) -> (r: Result<
    (bool, &'a [u8]),
    DecodeError,
>)
    requires
        wire <= 5,
    ensures
        match varint_field(wire, bytes@) {
            Some((value, rest)) => r matches Ok(v) && v.0 == (value != 0) && v.1@ == rest,
            None => r is Err,
        },
{
    let mut buf = bytes;
    let mut value: bool = false;
    let wire = WireType::try_from(wire as u64)?;
    prost::encoding::bool::merge(wire, &mut value, &mut buf, DecodeContext::default())?;
    Ok((value, buf))
}

/// How many levels of messages and groups `prost` goes down.
pub const MAX_LEVELS: u32 = 100;

/// The length of the contents, after its key, of a field of wire type `wire` and tag `tag` at the
/// start of `s`, where `levels` more levels may be gone down, counting that of the field. There is
/// none where the field does not end, or holds what cannot be, or lies too deep.
pub open spec fn skipped_len(wire: u8, tag: u32, s: Seq<u8>, levels: nat) -> Option<nat>
    decreases s.len(), 1nat,
{
    if levels == 0 {
        None
    } else if wire == 0 {
        match varint(s) {
            VarintRead::Value { value: _, len } => Some(len),
            _ => None,
        }
    } else if wire == 1 {
        fixed_len(s, 8)
    } else if wire == 2 {
        match varint(s) {
            VarintRead::Value { value, len } => if value <= after(s, len).len() {
                Some(len + value as nat)
            } else {
                None
            },
            _ => None,
        }
    } else if wire == 3 {
        group_len(tag, s, levels)
    } else if wire == 5 {
        fixed_len(s, 4)
    } else {
        None
    }
}

/// The length of what is left of the open group with tag `tag` at the start of `s`, its end marker
/// counted in: any fields, each a level further down, up to the end marker with the same tag.
pub open spec fn group_len(tag: u32, s: Seq<u8>, levels: nat) -> Option<nat>
    decreases s.len(), 0nat,
{
    match field_key(s) {
        None => None,
        Some((inner, wire, body)) => {
            let n = (s.len() - body.len()) as nat;
            if wire == 4 {
                if inner == tag {
                    Some(n)
                } else {
                    None
                }
            } else {
                match skipped_len(wire, inner, body, (levels - 1) as nat) {
                    None => None,
                    Some(m) => match group_len(tag, after(body, m), levels) {
                        None => None,
                        Some(k) => Some(n + m + k),
                    },
                }
            }
        },
    }
}

/// `n`, where `s` has as many bytes.
pub open spec fn fixed_len(s: Seq<u8>, n: nat) -> Option<nat> {
    if n <= s.len() {
        Some(n)
    } else {
        None
    }
}

/// What follows the contents of a field of wire type `wire` and tag `tag` at the start of `s`.
pub open spec fn after_field(wire: u8, tag: u32, s: Seq<u8>, levels: nat) -> Option<Seq<u8>> {
    match skipped_len(wire, tag, s, levels) {
        Some(n) => Some(after(s, n)),
        None => None,
    }
}

/// `prost::encoding::skip_field`, at the outermost level of a message: passes over the contents of
/// a field by its wire type. A group is walked field by field to its end marker, and each group
/// inside a group takes up one of a hundred levels.
#[verifier::external_body]
pub(crate) fn skip_contents<'a>(wire: u8, tag: u32, bytes: &'a [u8]) -> (r: Result<
    &'a [u8],
    DecodeError,
>)
    requires
        wire <= 5,
    ensures
        match after_field(wire, tag, bytes@, MAX_LEVELS as nat) {
            Some(rest) => r matches Ok(v) && v@ == rest,
            None => r is Err,
        },
{
    let mut buf = bytes;
    let wire = WireType::try_from(wire as u64)?;
    prost::encoding::skip_field(wire, tag, &mut buf, DecodeContext::default())?;
    Ok(buf)
}

/// How many levels are left in a message that lies `depth` messages down. Each enclosing message
/// takes up one.
pub open spec fn levels_at(depth: nat) -> nat {
    if depth < MAX_LEVELS {
        (MAX_LEVELS - depth) as nat
    } else {
        0
    }
}

/// What follows the unknown field at the start of `s`, its key included, in a message that lies
/// `depth` messages down.
#[verifier::opaque]
pub open spec fn after_unknown(s: Seq<u8>, depth: nat) -> Option<Seq<u8>> {
    match field_key(s) {
        None => None,
        Some((tag, wire, contents)) => after_field(wire, tag, contents, levels_at(depth)),
    }
}

/// An unknown field that is made up of a length and bytes ends where those bytes do.
pub proof fn lemma_unknown_bytes(s: Seq<u8>, depth: nat)
    requires
        after_unknown(s, depth) is Some,
    ensures
        field_key(s) matches Some((tag, wire, body)) && (bytes_field(wire, body) matches Some(
            (_, rest),
        ) ==> after_unknown(s, depth) == Some(rest)),
{
    reveal(after_unknown);
    if let Some((tag, wire, body)) = field_key(s) {
        lemma_varint_len(body);
        if let Some((inner, rest)) = bytes_field(wire, body) {
            let n = skipped_len(wire, tag, body, levels_at(depth))->0;
            assert(after(body, n) =~= rest);
        }
    }
}

/// What an open group with tag 1 holds to its end where `field` lies `depth - 1` further groups
/// with tag 1 down.
spec fn nested(field: Seq<u8>, depth: nat) -> Seq<u8>
    decreases depth,
{
    if depth <= 1 {
        field.push(0x0C)
    } else {
        (seq![0x0Bu8] + nested(field, (depth - 1) as nat)).push(0x0C)
    }
}

/// A varint is the same whatever follows it.
pub proof fn lemma_varint_prefix(s: Seq<u8>, x: Seq<u8>)
    ensures
        varint(s) matches VarintRead::Value { value, len } ==> varint(s + x) == varint(s) && 1
            <= len <= s.len() && after(s + x, len) == after(s, len) + x,
        varint(s + x) matches VarintRead::Value { value, len } ==> (len <= s.len() ==> varint(s)
            == varint(s + x)),
{
    lemma_varint_len(s);
    lemma_varint_len(s + x);
    lemma_continuations_prefix(s, x);
    if let VarintRead::Value { value, len } = varint(s) {
        assert((s + x).take(len as int) =~= s.take(len as int));
        assert(after(s + x, len) =~= after(s, len) + x);
    }
    if let VarintRead::Value { value, len } = varint(s + x) {
        if len <= s.len() {
            assert((s + x).take(len as int) =~= s.take(len as int));
        }
    }
}

proof fn lemma_continuations_prefix(s: Seq<u8>, x: Seq<u8>)
    ensures
        leading_continuations(s) < s.len() ==> leading_continuations(s + x)
            == leading_continuations(s),
        leading_continuations(s + x) < s.len() ==> leading_continuations(s + x)
            == leading_continuations(s),
    decreases s.len(),
{
    if s.len() > 0 && s[0] >= 0x80 {
        lemma_continuations_prefix(s.drop_first(), x);
        assert((s + x).drop_first() =~= s.drop_first() + x);
    }
}

/// The contents of a skipped field are there.
pub proof fn lemma_skipped_fits(wire: u8, tag: u32, s: Seq<u8>, levels: nat)
    ensures
        skipped_len(wire, tag, s, levels) matches Some(n) ==> n <= s.len(),
        group_len(tag, s, levels) matches Some(n) ==> 1 <= n <= s.len(),
    decreases s.len(), 1nat,
{
    lemma_varint_len(s);
    lemma_group_fits(tag, s, levels);
}

proof fn lemma_group_fits(tag: u32, s: Seq<u8>, levels: nat)
    ensures
        group_len(tag, s, levels) matches Some(n) ==> 1 <= n <= s.len(),
    decreases s.len(), 0nat,
{
    lemma_varint_len(s);
    if let Some((inner, wire, body)) = field_key(s) {
        if wire != 4 {
            lemma_skipped_fits(wire, inner, body, (levels - 1) as nat);
            if let Some(m) = skipped_len(wire, inner, body, (levels - 1) as nat) {
                lemma_group_fits(tag, after(body, m), levels);
            }
        }
    }
}

/// A field that can be skipped with some levels left can be skipped with more, to the same end.
pub proof fn lemma_more_levels(wire: u8, tag: u32, s: Seq<u8>, levels: nat, more: nat)
    requires
        levels <= more,
        skipped_len(wire, tag, s, levels) is Some,
    ensures
        skipped_len(wire, tag, s, more) == skipped_len(wire, tag, s, levels),
    decreases s.len(), 1nat,
{
    if wire == 3 {
        lemma_more_levels_group(tag, s, levels, more);
    }
}

proof fn lemma_more_levels_group(tag: u32, s: Seq<u8>, levels: nat, more: nat)
    requires
        1 <= levels <= more,
        group_len(tag, s, levels) is Some,
    ensures
        group_len(tag, s, more) == group_len(tag, s, levels),
    decreases s.len(), 0nat,
{
    lemma_varint_len(s);
    if let Some((inner, wire, body)) = field_key(s) {
        if wire != 4 {
            lemma_more_levels(wire, inner, body, (levels - 1) as nat, (more - 1) as nat);
            let m = skipped_len(wire, inner, body, (levels - 1) as nat)->0;
            lemma_more_levels_group(tag, after(body, m), levels, more);
        }
    }
}

/// A field is skipped the same whatever follows it.
proof fn lemma_skipped_prefix(wire: u8, tag: u32, s: Seq<u8>, x: Seq<u8>, levels: nat)
    ensures
        skipped_len(wire, tag, s, levels) is Some ==> skipped_len(wire, tag, s + x, levels)
            == skipped_len(wire, tag, s, levels),
        skipped_len(wire, tag, s + x, levels) matches Some(n) ==> (n <= s.len() ==> skipped_len(
            wire,
            tag,
            s,
            levels,
        ) == Some(n)),
    decreases s.len(), 1nat,
{
    lemma_varint_prefix(s, x);
    if levels > 0 && wire == 3 {
        lemma_group_prefix(tag, s, x, levels);
    }
    if wire == 2 {
        if let VarintRead::Value { value, len } = varint(s + x) {
            lemma_varint_len(s + x);
            if len <= s.len() {
                assert(after(s + x, len) =~= after(s, len) + x);
            }
        }
    }
}

proof fn lemma_group_prefix(tag: u32, s: Seq<u8>, x: Seq<u8>, levels: nat)
    requires
        levels > 0,
    ensures
        group_len(tag, s, levels) is Some ==> group_len(tag, s + x, levels) == group_len(
            tag,
            s,
            levels,
        ),
        group_len(tag, s + x, levels) matches Some(n) ==> (n <= s.len() ==> group_len(
            tag,
            s,
            levels,
        ) == Some(n)),
    decreases s.len(), 0nat,
{
    lemma_varint_len(s);
    lemma_varint_len(s + x);
    lemma_varint_prefix(s, x);
    lemma_group_fits(tag, s, levels);
    lemma_group_fits(tag, s + x, levels);
    let down = (levels - 1) as nat;
    if let Some((inner, wire, body)) = field_key(s) {
        assert(field_key(s + x) == Some((inner, wire, body + x)));
        if wire != 4 {
            lemma_skipped_prefix(wire, inner, body, x, down);
            lemma_skipped_fits(wire, inner, body, down);
            lemma_skipped_fits(wire, inner, body + x, down);
            if let Some(m) = skipped_len(wire, inner, body + x, down) {
                lemma_group_fits(tag, after(body + x, m), levels);
                if m <= body.len() {
                    assert(after(body + x, m) =~= after(body, m) + x);
                    lemma_group_prefix(tag, after(body, m), x, levels);
                }
            }
        }
    } else if let Some((inner, wire, longer)) = field_key(s + x) {
        // The key of the longer sequence reaches beyond `s`, and so does the group.
        let n = ((s + x).len() - longer.len()) as nat;
        assert(n > s.len());
        if wire != 4 {
            lemma_skipped_fits(wire, inner, longer, down);
            if let Some(m) = skipped_len(wire, inner, longer, down) {
                lemma_group_fits(tag, after(longer, m), levels);
            }
        }
    }
}

/// A group inside others is skipped if and only if it can be skipped with that many levels less.
proof fn lemma_nested(field: Seq<u8>, x: Seq<u8>, depth: nat, levels: nat)
    requires
        1 <= depth < levels <= MAX_LEVELS,
        field_key(field) matches Some((tag, wire, contents)) && wire == 3 && skipped_len(
            3,
            tag,
            contents,
            MAX_LEVELS as nat,
        ) == Some(contents.len()),
    ensures
        ({
            let (tag, wire, contents) = field_key(field)->0;
            group_len(1, nested(field, depth) + x, levels) == (if skipped_len(
                3,
                tag,
                contents,
                (levels - depth) as nat,
            ) is Some {
                Some(nested(field, depth).len())
            } else {
                None
            })
        }),
    decreases depth,
{
    let (tag, wire, contents) = field_key(field)->0;
    let s = nested(field, depth) + x;
    let down = (levels - 1) as nat;
    let close = seq![0x0Cu8] + x;
    lemma_varint_len(field);
    lemma_close(x);
    assert(group_len(1, close, levels) == Some(1nat));
    if depth == 1 {
        assert(s =~= field + close);
        lemma_varint_prefix(field, close);
        assert(field_key(s) == Some((tag, 3u8, contents + close)));
        lemma_skipped_prefix(3, tag, contents, close, MAX_LEVELS as nat);
        if skipped_len(3, tag, contents + close, down) is Some {
            lemma_more_levels(3, tag, contents + close, down, MAX_LEVELS as nat);
        }
        lemma_skipped_prefix(3, tag, contents, close, down);
        if skipped_len(3, tag, contents, down) is Some {
            lemma_more_levels(3, tag, contents, down, MAX_LEVELS as nat);
        }
        assert(after(contents + close, contents.len()) =~= close);
        assert(s.len() - (contents + close).len() + contents.len() + 1 == nested(field, 1).len());
        assert(skipped_len(3, tag, contents + close, down) == skipped_len(3, tag, contents, down));
        assert(group_len(1, s, levels) == (match skipped_len(3, tag, contents, down) {
            Some(m) => Some(nested(field, 1).len()),
            None => None,
        }));
    } else {
        let inner = nested(field, (depth - 1) as nat);
        assert(s =~= seq![0x0Bu8] + (inner + close));
        lemma_open(inner + close);
        lemma_nested(field, close, (depth - 1) as nat, down);
        assert(after(inner + close, inner.len()) =~= close);
        assert(skipped_len(3, 1, inner + close, down) == group_len(1, inner + close, down));
        assert(1 + inner.len() + 1 == nested(field, depth).len());
        assert(group_len(1, s, levels) == (match group_len(1, inner + close, down) {
            Some(m) => Some(nested(field, depth).len()),
            None => None,
        }));
    }
}

/// The end marker of a group with tag 1.
proof fn lemma_close(x: Seq<u8>)
    ensures
        field_key(seq![0x0Cu8] + x) == Some((1u32, 4u8, x)),
{
    lemma_one_byte(0x0C, x);
}

/// The start marker of a group with tag 1.
proof fn lemma_open(x: Seq<u8>)
    ensures
        field_key(seq![0x0Bu8] + x) == Some((1u32, 3u8, x)),
{
    lemma_one_byte(0x0B, x);
}

/// A byte without its high bit is a varint.
proof fn lemma_one_byte(b: u8, x: Seq<u8>)
    requires
        b < 0x80,
    ensures
        varint(seq![b] + x) == (VarintRead::Value { value: b as u64, len: 1 }),
        after(seq![b] + x, 1) == x,
{
    let s = seq![b] + x;
    assert(leading_continuations(s) == 0);
    assert(s.take(1) =~= seq![b]);
    assert(seq![b].drop_first() =~= Seq::empty());
    assert(base128(Seq::<u8>::empty()) == 0);
    assert(after(s, 1) =~= x);
}

fn push_all(out: &mut Vec<u8>, bytes: &[u8])
    ensures
        final(out)@ == old(out)@ + bytes@,
{
    for i in 0..bytes.len()
        invariant
            out@ == old(out)@ + bytes@.take(i as int),
    {
        out.push(bytes[i]);
        assert(bytes@.take(i + 1) =~= bytes@.take(i as int).push(bytes@[i as int]));
    }
    assert(bytes@.take(bytes@.len() as int) =~= bytes@);
}

fn nest(field: &[u8], depth: u32) -> (r: Vec<u8>)
    requires
        depth >= 1,
    ensures
        r@ == nested(field@, depth as nat),
    decreases depth,
{
    let mut out: Vec<u8> = Vec::new();
    if depth > 1 {
        out.push(0x0B);
        let inner = nest(field, depth - 1);
        push_all(&mut out, inner.as_slice());
    } else {
        push_all(&mut out, field);
    }
    out.push(0x0C);
    assert(out@ =~= nested(field@, depth as nat));
    out
}

/// Passes over the unknown field at the start of `bytes`, in a message that lies `depth` messages
/// down. `prost` starts with all its levels on each call, so a group is put into as many groups as
/// there are messages around it.
pub(crate) fn skip_unknown<'a>(bytes: &'a [u8], depth: u32) -> (r: Result<&'a [u8], DecodeError>)
    requires
        depth < MAX_LEVELS,
    ensures
        match after_unknown(bytes@, depth as nat) {
            Some(rest) => r matches Ok(v) && v@ == rest,
            None => r is Err,
        },
{
    proof {
        reveal(after_unknown);
    }
    let (tag, wire, contents) = match decode_key(bytes) {
        Ok(k) => k,
        Err(e) => return Err(e),
    };
    proof {
        lemma_varint_len(bytes@);
        lemma_skipped_fits(wire, tag, contents@, MAX_LEVELS as nat);
        if skipped_len(wire, tag, contents@, levels_at(depth as nat)) is Some {
            lemma_more_levels(
                wire,
                tag,
                contents@,
                levels_at(depth as nat),
                MAX_LEVELS as nat,
            );
        }
    }
    let rest = match skip_contents(wire, tag, contents) {
        Ok(rest) => rest,
        Err(e) => return Err(e),
    };
    if wire == 3 && depth > 0 {
        let field = slice_subrange(bytes, 0, bytes.len() - rest.len());
        proof {
            let n = skipped_len(3, tag, contents@, MAX_LEVELS as nat)->0;
            lemma_one_field(bytes@, field@, contents@, tag, n);
            lemma_nested(field@, Seq::empty(), depth as nat, MAX_LEVELS as nat);
            assert(nested(field@, depth as nat) + Seq::<u8>::empty() =~= nested(
                field@,
                depth as nat,
            ));
            lemma_skipped_prefix(
                3,
                tag,
                contents@.take(n as int),
                rest@,
                levels_at(depth as nat),
            );
            assert(contents@.take(n as int) + rest@ =~= contents@);
        }
        let body = nest(field, depth);
        match skip_contents(3, 1, body.as_slice()) {
            Ok(_) => {},
            Err(e) => return Err(e),
        }
    }
    Ok(rest)
}

/// A group that was cut out of a message, with its key, is a group by itself.
proof fn lemma_one_field(s: Seq<u8>, field: Seq<u8>, contents: Seq<u8>, tag: u32, n: nat)
    requires
        field_key(s) == Some((tag, 3u8, contents)),
        skipped_len(3, tag, contents, MAX_LEVELS as nat) == Some(n),
        n <= contents.len(),
        field == s.take(s.len() - (contents.len() - n)),
    ensures
        field_key(field) == Some((tag, 3u8, contents.take(n as int))),
        skipped_len(3, tag, contents.take(n as int), MAX_LEVELS as nat) == Some(n),
{
    let tail = contents.skip(n as int);
    lemma_varint_len(s);
    assert(field + tail =~= s);
    lemma_varint_prefix(field, tail);
    assert(contents.take(n as int) + tail =~= contents);
    lemma_skipped_prefix(3, tag, contents.take(n as int), tail, MAX_LEVELS as nat);
    let len = (s.len() - contents.len()) as nat;
    assert(after(field, len) =~= contents.take(n as int));
}

/// `DecodeError::push` notes down the message and field in which an error came up. What it adds
/// to the error's text is not stated.
#[verifier::external_body]
pub(crate) fn located(
    error: DecodeError,
    message: &'static str,
    field: &'static str,
) -> DecodeError {
    let mut error = error;
    error.push(message, field);
    error
}

/// `DecodeError::to_string` starts with a fixed phrase. What follows it is not stated.
#[verifier::external_body]
fn error_text(error: &DecodeError) -> (r: String)
    ensures
        exists|reason: Seq<char>| r@ == #[trigger] decode_error_text(reason),
{
    error.to_string()
}

/// `text` is what a decode error says of itself: `DecodeError::to_string` gave it.
pub closed spec fn reported(text: Seq<char>) -> bool {
    exists|error: DecodeError, s: String| #[trigger]
        call_ensures(error_text, (&error,), s) && s@ == text
}

/// What a decode error says of itself.
pub(crate) fn report(error: &DecodeError) -> (r: String)
    ensures
        reported(r@),
        exists|reason: Seq<char>| r@ == #[trigger] decode_error_text(reason),
{
    let text = error_text(error);
    assert(call_ensures(error_text, (error,), text));
    text
}

/// The text of a decode error that came up for `reason`.
pub open spec fn decode_error_text(reason: Seq<char>) -> Seq<char> {
    "failed to decode Protobuf message: "@ + reason
}

} // verus!
