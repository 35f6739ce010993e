//! What holds of rule files as a whole: what was written is what is read.

use vstd::prelude::*;

use super::decode::{geoip_message, geosite_message};
use super::field::lemma_varint_prefix;
use super::model::{GeoIpView, GeoSiteView};
use super::parser::{
    geoip_visit, geosite_visit, lemma_next_entry_len, lemma_top_level_len, next_entry,
    top_level, TopLevel, VisitEnd,
};
use super::rules::{cidr_rule, valid_geoip};
use super::wire::{
    after, base128, end_text, leading_continuations, lemma_base128_push,
    lemma_leading_continuations, lemma_skipped_len, monus, pow128,
    required_varint, skipped_field, skipped_group, varint, VarintRead, MAX_PROTOBUF_GROUP_DEPTH,
};

verus! {

/// The shortest varint of `value`.
pub open spec fn varint_bytes(value: nat) -> Seq<u8>
    decreases value,
{
    if value < 128 {
        seq![value as u8]
    } else {
        seq![(value % 128 + 128) as u8] + varint_bytes(value / 128)
    }
}

/// All bytes of a varint but the last have their high bit set, and the bytes spell the number.
proof fn lemma_varint_bytes(value: nat, k: nat)
    requires
        value < pow128(k),
        k >= 1,
    ensures
        1 <= varint_bytes(value).len() <= k,
        base128(varint_bytes(value)) == value,
        forall|i: int|
            0 <= i < varint_bytes(value).len() - 1 ==> #[trigger] varint_bytes(value)[i] >= 0x80,
        varint_bytes(value).last() < 0x80,
    decreases value,
{
    let e = varint_bytes(value);
    if value < 128 {
        assert(e.drop_first() =~= Seq::empty());
        assert(base128(e.drop_first()) == 0);
    } else {
        assert(k >= 2) by {
            if k == 1 {
                assert(pow128(1) == 128 * pow128(0));
            }
        }
        assert(value / 128 < pow128((k - 1) as nat)) by (nonlinear_arith)
            requires
                value < 128 * pow128((k - 1) as nat),
        ;
        lemma_varint_bytes(value / 128, (k - 1) as nat);
        assert(e.drop_first() =~= varint_bytes(value / 128));
        assert forall|i: int| 0 <= i < e.len() - 1 implies #[trigger] e[i] >= 0x80 by {
            if i > 0 {
                assert(e[i] == varint_bytes(value / 128)[i - 1]);
            }
        }
    }
}

/// A number that was written as a varint is read back, whatever follows it.
pub proof fn law_varint_reads_back(value: u64, rest: Seq<u8>)
    ensures
        varint(varint_bytes(value as nat) + rest) == (VarintRead::Value {
            value,
            len: varint_bytes(value as nat).len(),
        }),
        1 <= varint_bytes(value as nat).len() <= 10,
        after(varint_bytes(value as nat) + rest, varint_bytes(value as nat).len()) == rest,
{
    let e = varint_bytes(value as nat);
    let s = e + rest;
    reveal_with_fuel(pow128, 11);
    lemma_varint_bytes(value as nat, 10);
    let n = (e.len() - 1) as nat;
    assert forall|i: int| 0 <= i < n implies s[i] >= 0x80 by {
        assert(s[i] == e[i]);
    }
    assert(s[n as int] == e.last());
    lemma_leading_continuations(s, n);
    assert(s.take(n as int + 1) =~= e);
    if n == 9 {
        lemma_base128_push(e.take(9), e[9]);
        assert(e.take(9).push(e[9]) =~= e);
        let p = pow128(9);
        let d = e[9] as nat % 128;
        assert(p == 0x8000_0000_0000_0000);
        assert(d >= 2 ==> d * p >= 2 * p) by (nonlinear_arith);
    }
    assert(after(s, e.len()) =~= rest);
}

/// The field with number 1 that holds an entry with the given encoding.
pub open spec fn entry_field(payload: Seq<u8>) -> Seq<u8> {
    seq![0x0Au8] + varint_bytes(payload.len()) + payload
}

/// A file that holds one entry after the other.
pub open spec fn entry_file(payloads: Seq<Seq<u8>>) -> Seq<u8>
    decreases payloads.len(),
{
    if payloads.len() == 0 {
        Seq::empty()
    } else {
        entry_field(payloads[0]) + entry_file(payloads.drop_first())
    }
}

/// An entry at the start of a file is found, and what follows it is left.
proof fn lemma_entry_field(payload: Seq<u8>, rest: Seq<u8>, left: nat, failure: Option<String>)
    requires
        payload.len() <= usize::MAX,
        left >= entry_field(payload).len(),
    ensures
        top_level(entry_field(payload) + rest, left, failure) == (TopLevel::Entry {
            start: (entry_field(payload).len() - payload.len()) as nat,
            len: payload.len(),
        }),
        (entry_field(payload) + rest).subrange(
            entry_field(payload).len() - payload.len(),
            entry_field(payload).len() as int,
        ) == payload,
        after(entry_field(payload) + rest, entry_field(payload).len()) == rest,
{
    let s = entry_field(payload) + rest;
    let end = end_text(failure);
    let len = payload.len() as u64;
    assert(s =~= seq![0x0Au8] + (varint_bytes(payload.len()) + payload + rest));
    assert(varint_bytes(10) =~= seq![0x0Au8]);
    law_varint_reads_back(10, varint_bytes(payload.len()) + payload + rest);
    assert(varint_bytes(payload.len()) + payload + rest =~= varint_bytes(len as nat) + (payload
        + rest));
    law_varint_reads_back(len, payload + rest);
    assert(required_varint(after(s, 1), end) == Ok::<(u64, nat), Seq<char>>(
        (len, varint_bytes(len as nat).len()),
    ));
    reveal(top_level);
    assert(s.subrange(
        entry_field(payload).len() - payload.len(),
        entry_field(payload).len() as int,
    ) =~= payload);
    assert(after(s, entry_field(payload).len()) =~= rest);
}

/// The entries that were written to a file of domain lists, one after the other, are come upon in
/// order, each as it decodes, and then the file ends.
pub proof fn law_geosite_entries_are_streamed(
    payloads: Seq<Seq<u8>>,
    lists: Seq<GeoSiteView>,
    left: nat,
)
    requires
        payloads.len() == lists.len(),
        forall|i: int|
            0 <= i < payloads.len() ==> (#[trigger] payloads[i]).len() <= usize::MAX
                && geosite_message(payloads[i], 0) == Some(lists[i]),
        left >= entry_file(payloads).len(),
    ensures
        geosite_visit(entry_file(payloads), left, None) == (lists, VisitEnd::Done),
    decreases payloads.len(),
{
    if payloads.len() == 0 {
        reveal(top_level);
        assert(leading_continuations(Seq::<u8>::empty()) == 0);
        assert(lists =~= Seq::empty());
        assert(next_entry(entry_file(payloads), left, None) == TopLevel::End);
    } else {
        let tail = payloads.drop_first();
        let first = entry_field(payloads[0]);
        let rest = entry_file(tail);
        lemma_entry_field(payloads[0], rest, left, None);
        assert forall|i: int| 0 <= i < tail.len() implies (#[trigger] tail[i]).len() <= usize::MAX
            && geosite_message(tail[i], 0) == Some(lists.drop_first()[i]) by {
            assert(tail[i] == payloads[i + 1]);
        }
        law_geosite_entries_are_streamed(tail, lists.drop_first(), (left - first.len()) as nat);
        assert(payloads[0].len() <= usize::MAX && geosite_message(payloads[0], 0) == Some(
            lists[0],
        ));
        assert(seq![lists[0]] + lists.drop_first() =~= lists);
    }
}

/// The entries that were written to a file of address lists, one after the other, are come upon in
/// order, each as it decodes, and then the file ends.
pub proof fn law_geoip_entries_are_streamed(
    payloads: Seq<Seq<u8>>,
    lists: Seq<GeoIpView>,
    left: nat,
)
    requires
        payloads.len() == lists.len(),
        forall|i: int|
            0 <= i < payloads.len() ==> (#[trigger] payloads[i]).len() <= usize::MAX
                && geoip_message(payloads[i], 0) == Some(lists[i]),
        left >= entry_file(payloads).len(),
    ensures
        geoip_visit(entry_file(payloads), left, None) == (lists, VisitEnd::Done),
    decreases payloads.len(),
{
    if payloads.len() == 0 {
        reveal(top_level);
        assert(leading_continuations(Seq::<u8>::empty()) == 0);
        assert(lists =~= Seq::empty());
        assert(next_entry(entry_file(payloads), left, None) == TopLevel::End);
    } else {
        let tail = payloads.drop_first();
        let first = entry_field(payloads[0]);
        let rest = entry_file(tail);
        lemma_entry_field(payloads[0], rest, left, None);
        assert forall|i: int| 0 <= i < tail.len() implies (#[trigger] tail[i]).len() <= usize::MAX
            && geoip_message(tail[i], 0) == Some(lists.drop_first()[i]) by {
            assert(tail[i] == payloads[i + 1]);
        }
        law_geoip_entries_are_streamed(tail, lists.drop_first(), (left - first.len()) as nat);
        assert(payloads[0].len() <= usize::MAX && geoip_message(payloads[0], 0) == Some(lists[0]));
        assert(seq![lists[0]] + lists.drop_first() =~= lists);
    }
}

proof fn lemma_after_after(s: Seq<u8>, n: nat, m: nat)
    requires
        n + m <= s.len(),
    ensures
        after(after(s, n), m) == after(s, n + m),
{
    assert(after(after(s, n), m) =~= after(s, n + m));
}

/// Fields that are no entries change nothing of what is come upon: a file that starts with one is
/// read as the file after it.
pub proof fn law_unknown_fields_are_passed_over(
    rest: Seq<u8>,
    left: nat,
    failure: Option<String>,
    n: nat,
)
    requires
        top_level(rest, left, failure) == (TopLevel::Other { len: n }),
    ensures
        geosite_visit(rest, left, failure) == geosite_visit(
            after(rest, n),
            monus(left as int, n as int) as nat,
            failure,
        ),
        geoip_visit(rest, left, failure) == geoip_visit(
            after(rest, n),
            monus(left as int, n as int) as nat,
            failure,
        ),
{
    lemma_top_level_len(rest, left, failure);
    let tail = after(rest, n);
    let remain = monus(left as int, n as int) as nat;
    lemma_next_entry_len(tail, remain, failure);
    if let TopLevel::Entry { start, len } = next_entry(tail, remain, failure) {
        lemma_after_after(rest, n, start + len);
        assert(rest.subrange((n + start) as int, (n + start + len) as int) =~= tail.subrange(
            start as int,
            (start + len) as int,
        ));
    }
}

/// `text` says that the bytes came to an end, for the reason `end`, where there should be more.
pub open spec fn cut_short(text: Seq<char>, end: Seq<char>) -> bool {
    ||| text == "truncated protobuf varint: "@ + end
    ||| text == "truncated protobuf field: "@ + end
    ||| text == "truncated protobuf entry payload: "@ + end
}

/// `r` does not change when more bytes follow.
pub open spec fn settled(r: Result<nat, Seq<char>>, end: Seq<char>) -> bool {
    r matches Err(text) ==> !cut_short(text, end)
}

/// What a varint read says of some bytes stays, unless they were cut short.
proof fn lemma_varint_window(s: Seq<u8>, x: Seq<u8>)
    ensures
        varint(s) is Value || varint(s) is Overflow ==> varint(s + x) == varint(s),
        varint(s) matches VarintRead::Value { value, len } ==> 1 <= len <= s.len() && after(
            s + x,
            len,
        ) == after(s, len) + x,
{
    lemma_varint_prefix(s, x);
    let n = leading_continuations(s);
    if varint(s) is Overflow {
        lemma_continuations_grow(s, x);
        lemma_leading_continuations(s, 0);
        if n == 9 {
            lemma_continuations_are_high(s, 9);
            assert forall|i: int| 0 <= i < 9 implies (s + x)[i] >= 0x80 by {
                assert((s + x)[i] == s[i]);
            }
            assert((s + x)[9] == s[9]);
        }
    }
}

proof fn lemma_continuations_grow(s: Seq<u8>, x: Seq<u8>)
    ensures
        leading_continuations(s + x) >= leading_continuations(s),
        leading_continuations(s) < s.len() ==> leading_continuations(s + x)
            == leading_continuations(s),
    decreases s.len(),
{
    if s.len() > 0 && s[0] >= 0x80 {
        lemma_continuations_grow(s.drop_first(), x);
        assert((s + x).drop_first() =~= s.drop_first() + x);
    }
}

proof fn lemma_continuations_are_high(s: Seq<u8>, n: nat)
    requires
        leading_continuations(s) >= n,
    ensures
        n <= s.len(),
        forall|i: int| 0 <= i < n ==> s[i] >= 0x80,
    decreases n,
{
    if n > 0 {
        lemma_continuations_are_high(s.drop_first(), (n - 1) as nat);
        assert forall|i: int| 0 <= i < n implies s[i] >= 0x80 by {
            if i > 0 {
                assert(s[i] == s.drop_first()[i - 1]);
            }
        }
    }
}

/// What becomes of a field that is passed over stays, whatever follows it, unless the bytes were
/// cut short.
proof fn lemma_skipped_window(
    s: Seq<u8>,
    x: Seq<u8>,
    wire: u8,
    field: u64,
    depth: nat,
    end: Seq<char>,
    other: Seq<char>,
)
    requires
        settled(skipped_field(s, wire, field, depth, end), end),
    ensures
        skipped_field(s + x, wire, field, depth, other) == skipped_field(
            s,
            wire,
            field,
            depth,
            end,
        ),
    decreases s.len(), 1nat,
{
    lemma_varint_window(s, x);
    if wire == 3 && depth < MAX_PROTOBUF_GROUP_DEPTH {
        lemma_skipped_group_window(s, x, field, depth, end, other);
    }
}

proof fn lemma_skipped_group_window(
    s: Seq<u8>,
    x: Seq<u8>,
    field: u64,
    depth: nat,
    end: Seq<char>,
    other: Seq<char>,
)
    requires
        settled(skipped_group(s, field, depth, end), end),
    ensures
        skipped_group(s + x, field, depth, other) == skipped_group(s, field, depth, end),
    decreases s.len(), 0nat,
{
    lemma_varint_window(s, x);
    if let Ok((key, n)) = required_varint(s, end) {
        let wire = (key % 8) as u8;
        let inner = key / 8;
        if wire != 4 {
            let body = after(s, n);
            lemma_skipped_len(body, wire, inner, depth + 1, end);
            lemma_skipped_window(body, x, wire, inner, depth + 1, end, other);
            if let Ok(m) = skipped_field(body, wire, inner, depth + 1, end) {
                assert(after(body + x, m) =~= after(body, m) + x);
                lemma_skipped_group_window(after(body, m), x, field, depth, end, other);
            }
        }
    }
}

/// A file can be read through a window: what is found in the bytes read so far, a field or a fault,
/// is what is found once more bytes are read, however reading ends, unless the window ends the
/// file or cuts the field short.
pub proof fn law_window_suffices(
    window: Seq<u8>,
    more: Seq<u8>,
    left: nat,
    failure: Option<String>,
    later: Option<String>,
)
    requires
        top_level(window, left, failure) !is End,
        top_level(window, left, failure) matches TopLevel::Fault(text) ==> !cut_short(
            text,
            end_text(failure),
        ),
    ensures
        top_level(window + more, left, later) == top_level(window, left, failure),
{
    reveal(top_level);
    let end = end_text(failure);
    let other = end_text(later);
    lemma_varint_window(window, more);
    if let VarintRead::Value { value: key, len: n } = varint(window) {
        let field = key / 8;
        let body = after(window, n);
        lemma_varint_window(body, more);
        if key != 0 && field != 1 {
            lemma_skipped_window(body, more, (key % 8) as u8, field, 0, end, other);
        }
    }
}

/// The rest of a group with number `field`, right after its start, that holds nothing but
/// `depth - 1` groups with that number, one inside the other.
pub open spec fn groups(field: nat, depth: nat) -> Seq<u8>
    decreases depth,
{
    if depth <= 1 {
        varint_bytes(8 * field + 4)
    } else {
        varint_bytes(8 * field + 3) + groups(field, (depth - 1) as nat) + varint_bytes(
            8 * field + 4,
        )
    }
}

/// Groups one inside the other are passed over as long as no more than the limit are open.
#[verifier::rlimit(60)]
proof fn lemma_groups(field: u64, depth: nat, around: nat, rest: Seq<u8>, end: Seq<char>)
    requires
        8 * field + 4 <= u64::MAX,
        depth >= 1,
    ensures
        skipped_field(groups(field as nat, depth) + rest, 3, field, around, end) == (if around
            + depth <= MAX_PROTOBUF_GROUP_DEPTH {
            Ok::<nat, Seq<char>>(groups(field as nat, depth).len())
        } else {
            Err("protobuf group nesting exceeds limit of 100"@)
        }),
    decreases depth,
{
    let s = groups(field as nat, depth) + rest;
    let open = (8 * field + 3) as u64;
    let close = (8 * field + 4) as u64;
    if around < MAX_PROTOBUF_GROUP_DEPTH {
        if depth == 1 {
            law_varint_reads_back(close, rest);
        } else {
            let inner = groups(field as nat, (depth - 1) as nat);
            let tail = varint_bytes(close as nat) + rest;
            assert(s =~= varint_bytes(open as nat) + (inner + tail));
            law_varint_reads_back(open, inner + tail);
            lemma_groups(field, (depth - 1) as nat, around + 1, tail, end);
            assert(after(inner + tail, inner.len()) =~= tail);
            law_varint_reads_back(close, rest);
            assert(skipped_group(tail, field, around, end) == Ok::<nat, Seq<char>>(
                varint_bytes(close as nat).len(),
            ));
        }
    }
}

/// Unknown groups, one inside the other, are passed over where they are no more than the limit.
/// Where they are more, the file is refused for that reason.
pub proof fn law_group_nesting_is_limited(
    field: u64,
    depth: nat,
    rest: Seq<u8>,
    left: nat,
    failure: Option<String>,
)
    requires
        2 <= field,
        8 * field + 4 <= u64::MAX,
        depth >= 1,
    ensures
        ({
            let start = varint_bytes((8 * field + 3) as nat);
            let file = start + groups(field as nat, depth) + rest;
            top_level(file, left, failure) == (if depth <= MAX_PROTOBUF_GROUP_DEPTH {
                TopLevel::Other { len: start.len() + groups(field as nat, depth).len() }
            } else {
                TopLevel::Fault("protobuf group nesting exceeds limit of 100"@)
            })
        }),
{
    let key = (8 * field + 3) as u64;
    let start = varint_bytes(key as nat);
    let body = groups(field as nat, depth) + rest;
    assert(start + groups(field as nat, depth) + rest =~= start + body);
    law_varint_reads_back(key, body);
    lemma_groups(field, depth, 0, rest, end_text(failure));
    reveal(top_level);
}

/// Each block of a usable address list has a rule text.
pub proof fn law_usable_blocks_have_rules(entry: GeoIpView, i: int)
    requires
        valid_geoip(entry),
        0 <= i < entry.cidr.len(),
    ensures
        cidr_rule(entry.cidr[i]) is Some,
{
}

} // verus!
