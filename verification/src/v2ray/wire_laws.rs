//! What the bytes of a rule file stand for, byte by byte, and what is wrong with those that stand
//! for nothing.

use vstd::arithmetic::power::pow;
use vstd::prelude::*;

use super::decode::{geoip_message, geosite_message};
use super::laws::{entry_field, entry_file, law_varint_reads_back, varint_bytes};
use super::model::{GeoIpView, GeoSiteView};
use super::parser::{
    entry_at, geoip_visit, geosite_visit, next_entry, top_level, visit_result, TopLevel, VisitEnd,
};
use super::field::{decode_error_text, reported};
use super::wire::{
    after, base128, end_text, lemma_base128_bound, lemma_base128_push, lemma_leading_continuations,
    pow128, required_varint, skipped_bytes, varint, Reader, VarintRead,
};
use crate::text::decimal;

verus! {

/// What the first `n` bytes of `s` add up to, where each counts with its low seven bits, and `128`
/// times as much as the one before it.
pub open spec fn weighed(s: Seq<u8>, n: nat) -> int
    decreases n,
{
    if n == 0 {
        0
    } else {
        weighed(s, (n - 1) as nat) + (s[n - 1] % 128) * pow(128, (n - 1) as nat)
    }
}

proof fn lemma_powers(n: nat)
    ensures
        pow(128, n) == pow128(n),
    decreases n,
{
    reveal(pow);
    if n > 0 {
        lemma_powers((n - 1) as nat);
    }
}

proof fn lemma_weighed(s: Seq<u8>, n: nat)
    requires
        n <= s.len(),
    ensures
        weighed(s, n) == base128(s.take(n as int)),
    decreases n,
{
    if n > 0 {
        let m = (n - 1) as nat;
        lemma_weighed(s, m);
        lemma_powers(m);
        lemma_base128_push(s.take(m as int), s[m as int]);
        assert(s.take(m as int).push(s[m as int]) =~= s.take(n as int));
    }
}

/// A number ends at the first byte without its high bit. Each byte up to there counts with its low
/// seven bits, whether or not fewer bytes could spell the same number.
pub proof fn law_varint_by_bytes(s: Seq<u8>, n: nat)
    requires
        n < s.len(),
        forall|i: int| 0 <= i < n ==> #[trigger] s[i] >= 128,
        s[n as int] < 128,
        n < 9 || (n == 9 && s[9] <= 1),
    ensures
        varint(s) matches VarintRead::Value { value, len } && value == weighed(s, n + 1) && len == n
            + 1,
{
    lemma_leading_continuations(s, n);
    lemma_weighed(s, n + 1);
    lemma_base128_bound(s.take(n as int + 1));
    reveal_with_fuel(pow128, 11);
    if n == 9 {
        let front = s.take(9);
        lemma_base128_bound(front);
        lemma_base128_push(front, s[9]);
        assert(front.push(s[9]) =~= s.take(10));
        let d = s[9] as nat % 128;
        assert(d * pow128(9) <= pow128(9)) by (nonlinear_arith)
            requires
                d <= 1,
        ;
    } else {
        lemma_small_power(n + 1);
    }
}

proof fn lemma_small_power(n: nat)
    requires
        n <= 9,
    ensures
        pow128(n) <= 0x8000_0000_0000_0000,
{
    reveal_with_fuel(pow128, 11);
}

/// A byte without its high bit is a number by itself.
proof fn lemma_one_byte(b: u8, rest: Seq<u8>)
    requires
        b < 128,
    ensures
        varint(seq![b] + rest) == (VarintRead::Value { value: b as u64, len: 1 }),
        after(seq![b] + rest, 1) == rest,
{
    let s = seq![b] + rest;
    law_varint_by_bytes(s, 0);
    reveal(pow);
    reveal_with_fuel(weighed, 2);
    assert(after(s, 1) =~= rest);
}

/// Bytes that all have their high bit, fewer than ten, are the start of a number that does not end.
pub proof fn law_varint_cut_short(s: Seq<u8>)
    requires
        s.len() < 10,
        forall|i: int| 0 <= i < s.len() ==> #[trigger] s[i] >= 128,
    ensures
        varint(s) == VarintRead::Truncated,
{
    lemma_leading_continuations(s, s.len());
}

/// A tenth byte that adds more than one bit makes a number too large.
pub proof fn law_varint_too_large(s: Seq<u8>)
    requires
        s.len() >= 10,
        forall|i: int| 0 <= i < 9 ==> #[trigger] s[i] >= 128,
        s[9] > 1,
    ensures
        varint(s) == VarintRead::Overflow,
{
    lemma_leading_continuations(s, 9);
    if s[9] >= 128 {
        assert forall|i: int| 0 <= i < 10 implies s[i] >= 128 by {
            if i < 9 {
                assert(s[i] >= 128);
            }
        }
        lemma_leading_continuations(s, 10);
    }
}

/// What is left after some bytes are consumed: the others, in order, and as many fewer of the file,
/// down to none.
pub proof fn law_reader_moves_on(before: Reader, now: Reader, n: nat)
    requires
        now.advanced(before, n),
    ensures
        before.rest@.len() == n + now.rest@.len(),
        forall|i: int| 0 <= i < now.rest@.len() ==> #[trigger] now.rest@[i] == before.rest@[n + i],
        now.left == 0 || now.left == before.left - n,
        before.left >= n ==> now.left == before.left - n,
        now.failure == before.failure,
{
}

/// As many bytes are passed over as were asked for, where they are there.
pub proof fn law_skipped_bytes_are_there(s: Seq<u8>, n: nat, end: Seq<char>)
    ensures
        n <= s.len() ==> skipped_bytes(s, n, end) == Ok::<nat, Seq<char>>(n),
        n > s.len() ==> skipped_bytes(s, n, end) == Err::<nat, Seq<char>>(
            "truncated protobuf field: "@ + end,
        ),
{
}

/// A file ends where no bytes are left, unless reading it failed there.
pub proof fn law_end_of_file(left: nat, failure: Option<String>)
    ensures
        failure is None ==> top_level(Seq::empty(), left, failure) == TopLevel::End,
        failure matches Some(e) ==> top_level(Seq::empty(), left, failure) == TopLevel::Fault(
            "truncated protobuf varint: "@ + e@,
        ),
{
    reveal(top_level);
    law_varint_cut_short(Seq::empty());
}

/// The reason for which bytes end: that of the failure, or that there are no more.
pub open spec fn why(failure: Option<String>) -> Seq<char> {
    match failure {
        Some(e) => e@,
        None => "failed to fill whole buffer"@,
    }
}

/// A key that does not end, or is too large, or is zero, is a fault, and the text tells which.
pub proof fn law_bad_key_is_a_fault(s: Seq<u8>, left: nat, failure: Option<String>)
    ensures
        0 < s.len() < 10 && (forall|i: int| 0 <= i < s.len() ==> #[trigger] s[i] >= 128)
            ==> top_level(s, left, failure) == TopLevel::Fault(
            "truncated protobuf varint: "@ + why(failure),
        ),
        s.len() >= 10 && (forall|i: int| 0 <= i < 9 ==> #[trigger] s[i] >= 128) && s[9] > 1
            ==> top_level(s, left, failure) == TopLevel::Fault("protobuf varint overflows u64"@),
        s.len() > 0 && s[0] == 0 ==> top_level(s, left, failure) == TopLevel::Fault(
            "protobuf field key must not be zero"@,
        ),
{
    reveal(top_level);
    if 0 < s.len() < 10 && (forall|i: int| 0 <= i < s.len() ==> #[trigger] s[i] >= 128) {
        law_varint_cut_short(s);
    }
    if s.len() >= 10 && (forall|i: int| 0 <= i < 9 ==> #[trigger] s[i] >= 128) && s[9] > 1 {
        law_varint_too_large(s);
    }
    if s.len() > 0 && s[0] == 0 {
        assert(seq![s[0]] + s.skip(1) =~= s);
        lemma_one_byte(s[0], s.skip(1));
    }
}

/// The field of entries holds bytes. Under any other wire type it is a fault.
pub proof fn law_entry_holds_bytes(wire: u8, rest: Seq<u8>, left: nat, failure: Option<String>)
    requires
        wire < 8,
        wire != 2,
    ensures
        top_level(seq![(8 + wire) as u8] + rest, left, failure) == TopLevel::Fault(
            "protobuf entry field has unexpected wire type "@ + seq![('0' as u8 + wire) as char],
        ),
{
    reveal(top_level);
    lemma_one_byte((8 + wire) as u8, rest);
    assert(decimal(wire as nat) =~= seq![('0' as u8 + wire) as char]);
}

/// An entry that is said to be longer than what the file still holds is a fault, and the text tells
/// both lengths. One that the file holds but that could not be read to its end is a fault too.
pub proof fn law_entry_cut_short(len: u64, body: Seq<u8>, left: nat, failure: Option<String>)
    ensures
        ({
            let s = seq![0x0Au8] + varint_bytes(len as nat) + body;
            let head = 1 + varint_bytes(len as nat).len();
            let remain = (if left < head {
                0
            } else {
                left - head
            }) as nat;
            &&& len > remain ==> top_level(s, left, failure) == TopLevel::Fault(
                "truncated protobuf entry payload: declared "@ + decimal(len as nat)
                    + " bytes, only "@ + decimal(remain) + " remain"@,
            )
            &&& body.len() < len <= remain && len <= usize::MAX ==> top_level(s, left, failure)
                == TopLevel::Fault("truncated protobuf entry payload: "@ + why(failure))
            &&& usize::MAX < len <= remain ==> top_level(s, left, failure) == TopLevel::Fault(
                "protobuf entry length exceeds platform limits"@,
            )
            &&& len <= remain && len <= body.len() && len <= usize::MAX ==> top_level(
                s,
                left,
                failure,
            ) == (TopLevel::Entry {
                start: head,
                len: len as nat,
            })
        }),
{
    reveal(top_level);
    let s = seq![0x0Au8] + varint_bytes(len as nat) + body;
    let m = varint_bytes(len as nat).len();
    assert(s =~= seq![0x0Au8] + (varint_bytes(len as nat) + body));
    lemma_one_byte(0x0A, varint_bytes(len as nat) + body);
    law_varint_reads_back(len, body);
    assert(required_varint(after(s, 1), end_text(failure)) == Ok::<(u64, nat), Seq<char>>(
        (len, m),
    ));
    assert(top_level(s, left, failure) == entry_at(s, 1, left, end_text(failure)));
    assert(s.len() == 1 + m + body.len());
}

/// A field that is no entry and cannot be passed over is a fault, and the text tells why: it has
/// fewer bytes than its wire type says, or it is an end marker, or its wire type does not exist.
pub proof fn law_bad_field_is_a_fault(
    tag: u64,
    wire: u8,
    body: Seq<u8>,
    left: nat,
    failure: Option<String>,
)
    requires
        2 <= tag < 0x2000_0000_0000_0000,
        wire < 8,
    ensures
        ({
            let s = varint_bytes((8 * tag + wire) as nat) + body;
            let found = top_level(s, left, failure);
            &&& wire == 0 && body.len() < 10 && (forall|i: int|
                0 <= i < body.len() ==> #[trigger] body[i] >= 128) ==> found == TopLevel::Fault(
                "truncated protobuf varint: "@ + why(failure),
            )
            &&& wire == 1 && body.len() < 8 ==> found == TopLevel::Fault(
                "truncated protobuf field: "@ + why(failure),
            )
            &&& wire == 4 ==> found == TopLevel::Fault("unexpected protobuf end-group field"@)
            &&& wire == 5 && body.len() < 4 ==> found == TopLevel::Fault(
                "truncated protobuf field: "@ + why(failure),
            )
            &&& wire > 5 ==> found == TopLevel::Fault(
                "invalid protobuf wire type "@ + seq![('0' as u8 + wire) as char],
            )
        }),
{
    reveal(top_level);
    law_varint_reads_back((8 * tag + wire) as u64, body);
    if body.len() < 10 && (forall|i: int| 0 <= i < body.len() ==> #[trigger] body[i] >= 128) {
        law_varint_cut_short(body);
    }
    assert(decimal(wire as nat) =~= seq![('0' as u8 + wire) as char]);
}

/// A field that is no entry and is said to hold more bytes than there are is a fault.
pub proof fn law_bytes_cut_short(
    tag: u64,
    len: u64,
    body: Seq<u8>,
    left: nat,
    failure: Option<String>,
)
    requires
        2 <= tag < 0x2000_0000_0000_0000,
        body.len() < len <= usize::MAX,
    ensures
        top_level(
            varint_bytes((8 * tag + 2) as nat) + (varint_bytes(len as nat) + body),
            left,
            failure,
        ) == TopLevel::Fault("truncated protobuf field: "@ + why(failure)),
{
    reveal(top_level);
    law_varint_reads_back((8 * tag + 2) as u64, varint_bytes(len as nat) + body);
    law_varint_reads_back(len, body);
}

/// A group has to end with its own number.
pub proof fn law_group_ends_with_its_number(
    tag: u64,
    other: u64,
    rest: Seq<u8>,
    left: nat,
    failure: Option<String>,
)
    requires
        2 <= tag < 0x2000_0000_0000_0000,
        other < 0x2000_0000_0000_0000,
    ensures
        ({
            let start = varint_bytes((8 * tag + 3) as nat);
            let close = varint_bytes((8 * other + 4) as nat);
            top_level(start + (close + rest), left, failure) == (if other == tag {
                TopLevel::Other { len: start.len() + close.len() }
            } else {
                TopLevel::Fault("mismatched protobuf end-group field"@)
            })
        }),
{
    reveal(top_level);
    let close = varint_bytes((8 * other + 4) as nat);
    law_varint_reads_back((8 * tag + 3) as u64, close + rest);
    law_varint_reads_back((8 * other + 4) as u64, rest);
}

proof fn lemma_entry_comes_first(
    payload: Seq<u8>,
    rest: Seq<u8>,
    left: nat,
    failure: Option<String>,
)
    requires
        payload.len() <= usize::MAX,
        left >= entry_field(payload).len(),
    ensures
        ({
            let s = entry_field(payload) + rest;
            let n = entry_field(payload).len();
            &&& next_entry(s, left, failure) == (TopLevel::Entry {
                start: (n - payload.len()) as nat,
                len: payload.len(),
            })
            &&& s.subrange(n - payload.len(), n as int) == payload
            &&& after(s, n) == rest
        }),
{
    let s = entry_field(payload) + rest;
    let n = entry_field(payload).len();
    law_entry_cut_short(payload.len() as u64, payload + rest, left, failure);
    assert(s =~= seq![0x0Au8] + varint_bytes(payload.len()) + (payload + rest));
    assert(s.subrange(n - payload.len(), n as int) =~= payload);
    assert(after(s, n) =~= rest);
}

/// The walk through a file of domain lists.
#[verifier::opaque]
spec fn domain_walk(s: Seq<u8>, left: nat, failure: Option<String>) -> (
    Seq<GeoSiteView>,
    VisitEnd,
) {
    geosite_visit(s, left, failure)
}

/// The bytes can be an entry, and `v` is what they encode.
#[verifier::opaque]
spec fn domain_entry(payload: Seq<u8>, v: GeoSiteView) -> bool {
    payload.len() <= usize::MAX && geosite_message(payload, 0) == Some(v)
}

/// The domain list at the start of a file is come upon first.
proof fn lemma_first_domain_list(
    payload: Seq<u8>,
    v: GeoSiteView,
    rest: Seq<u8>,
    left: nat,
    failure: Option<String>,
)
    requires
        domain_entry(payload, v),
        left >= entry_field(payload).len(),
    ensures
        ({
            let (others, end) = domain_walk(
                rest,
                (left - entry_field(payload).len()) as nat,
                failure,
            );
            domain_walk(entry_field(payload) + rest, left, failure) == (seq![v] + others, end)
        }),
{
    reveal(domain_walk);
    reveal(domain_entry);
    lemma_entry_comes_first(payload, rest, left, failure);
}

proof fn lemma_domain_lists_in_order(
    payloads: Seq<Seq<u8>>,
    lists: Seq<GeoSiteView>,
    more: Seq<u8>,
    left: nat,
    failure: Option<String>,
)
    requires
        payloads.len() == lists.len(),
        forall|i: int| 0 <= i < payloads.len() ==> domain_entry(#[trigger] payloads[i], lists[i]),
        left >= entry_file(payloads).len(),
    ensures
        ({
            let remain = (left - entry_file(payloads).len()) as nat;
            let (others, end) = domain_walk(more, remain, failure);
            domain_walk(entry_file(payloads) + more, left, failure) == (lists + others, end)
        }),
    decreases payloads.len(),
{
    let remain = (left - entry_file(payloads).len()) as nat;
    let (others, end) = domain_walk(more, remain, failure);
    if payloads.len() == 0 {
        assert(entry_file(payloads) + more =~= more);
        assert(lists + others =~= others);
    } else {
        let tail = payloads.drop_first();
        let rest = entry_file(tail) + more;
        let later = (left - entry_field(payloads[0]).len()) as nat;
        assert(entry_file(payloads) + more =~= entry_field(payloads[0]) + rest);
        assert(domain_entry(payloads[0], lists[0]));
        lemma_first_domain_list(payloads[0], lists[0], rest, left, failure);
        assert forall|i: int| 0 <= i < tail.len() implies domain_entry(
            #[trigger] tail[i],
            lists.drop_first()[i],
        ) by {
            assert(tail[i] == payloads[i + 1]);
        }
        lemma_domain_lists_in_order(tail, lists.drop_first(), more, later, failure);
        assert((later - entry_file(tail).len()) as nat == remain);
        assert(seq![lists[0]] + (lists.drop_first() + others) =~= lists + others);
    }
}

/// The domain lists at the start of a file are come upon first, in order; what follows them is
/// read as it is by itself.
pub proof fn law_domain_lists_come_in_order(
    payloads: Seq<Seq<u8>>,
    lists: Seq<GeoSiteView>,
    more: Seq<u8>,
    left: nat,
    failure: Option<String>,
)
    requires
        payloads.len() == lists.len(),
        forall|i: int|
            0 <= i < payloads.len() ==> (#[trigger] payloads[i]).len() <= usize::MAX
                && geosite_message(payloads[i], 0) == Some(lists[i]),
        left >= entry_file(payloads).len(),
    ensures
        ({
            let remain = (left - entry_file(payloads).len()) as nat;
            let (others, end) = geosite_visit(more, remain, failure);
            geosite_visit(entry_file(payloads) + more, left, failure) == (lists + others, end)
        }),
{
    assert forall|i: int| 0 <= i < payloads.len() implies domain_entry(
        #[trigger] payloads[i],
        lists[i],
    ) by {
        reveal(domain_entry);
    }
    lemma_domain_lists_in_order(payloads, lists, more, left, failure);
    reveal(domain_walk);
}

/// The walk through a file of address lists.
#[verifier::opaque]
spec fn address_walk(s: Seq<u8>, left: nat, failure: Option<String>) -> (
    Seq<GeoIpView>,
    VisitEnd,
) {
    geoip_visit(s, left, failure)
}

/// The bytes can be an entry, and `v` is what they encode.
#[verifier::opaque]
spec fn address_entry(payload: Seq<u8>, v: GeoIpView) -> bool {
    payload.len() <= usize::MAX && geoip_message(payload, 0) == Some(v)
}

/// The address list at the start of a file is come upon first.
proof fn lemma_first_address_list(
    payload: Seq<u8>,
    v: GeoIpView,
    rest: Seq<u8>,
    left: nat,
    failure: Option<String>,
)
    requires
        address_entry(payload, v),
        left >= entry_field(payload).len(),
    ensures
        ({
            let (others, end) = address_walk(
                rest,
                (left - entry_field(payload).len()) as nat,
                failure,
            );
            address_walk(entry_field(payload) + rest, left, failure) == (seq![v] + others, end)
        }),
{
    reveal(address_walk);
    reveal(address_entry);
    lemma_entry_comes_first(payload, rest, left, failure);
}

proof fn lemma_address_lists_in_order(
    payloads: Seq<Seq<u8>>,
    lists: Seq<GeoIpView>,
    more: Seq<u8>,
    left: nat,
    failure: Option<String>,
)
    requires
        payloads.len() == lists.len(),
        forall|i: int| 0 <= i < payloads.len() ==> address_entry(#[trigger] payloads[i], lists[i]),
        left >= entry_file(payloads).len(),
    ensures
        ({
            let remain = (left - entry_file(payloads).len()) as nat;
            let (others, end) = address_walk(more, remain, failure);
            address_walk(entry_file(payloads) + more, left, failure) == (lists + others, end)
        }),
    decreases payloads.len(),
{
    let remain = (left - entry_file(payloads).len()) as nat;
    let (others, end) = address_walk(more, remain, failure);
    if payloads.len() == 0 {
        assert(entry_file(payloads) + more =~= more);
        assert(lists + others =~= others);
    } else {
        let tail = payloads.drop_first();
        let rest = entry_file(tail) + more;
        let later = (left - entry_field(payloads[0]).len()) as nat;
        assert(entry_file(payloads) + more =~= entry_field(payloads[0]) + rest);
        assert(address_entry(payloads[0], lists[0]));
        lemma_first_address_list(payloads[0], lists[0], rest, left, failure);
        assert forall|i: int| 0 <= i < tail.len() implies address_entry(
            #[trigger] tail[i],
            lists.drop_first()[i],
        ) by {
            assert(tail[i] == payloads[i + 1]);
        }
        lemma_address_lists_in_order(tail, lists.drop_first(), more, later, failure);
        assert((later - entry_file(tail).len()) as nat == remain);
        assert(seq![lists[0]] + (lists.drop_first() + others) =~= lists + others);
    }
}

/// The address lists at the start of a file are come upon first, in order; what follows them is
/// read as it is by itself.
pub proof fn law_address_lists_come_in_order(
    payloads: Seq<Seq<u8>>,
    lists: Seq<GeoIpView>,
    more: Seq<u8>,
    left: nat,
    failure: Option<String>,
)
    requires
        payloads.len() == lists.len(),
        forall|i: int|
            0 <= i < payloads.len() ==> (#[trigger] payloads[i]).len() <= usize::MAX
                && geoip_message(payloads[i], 0) == Some(lists[i]),
        left >= entry_file(payloads).len(),
    ensures
        ({
            let remain = (left - entry_file(payloads).len()) as nat;
            let (others, end) = geoip_visit(more, remain, failure);
            geoip_visit(entry_file(payloads) + more, left, failure) == (lists + others, end)
        }),
{
    assert forall|i: int| 0 <= i < payloads.len() implies address_entry(
        #[trigger] payloads[i],
        lists[i],
    ) by {
        reveal(address_entry);
    }
    lemma_address_lists_in_order(payloads, lists, more, left, failure);
    reveal(address_walk);
}

/// A walk through a file ends with nothing where the file does, and with the fault where it meets
/// one.
pub proof fn law_walk_ends_at_a_fault(s: Seq<u8>, left: nat, failure: Option<String>)
    ensures
        top_level(s, left, failure) == TopLevel::End ==> geosite_visit(s, left, failure) == (
            Seq::<GeoSiteView>::empty(),
            VisitEnd::Done,
        ) && geoip_visit(s, left, failure) == (Seq::<GeoIpView>::empty(), VisitEnd::Done),
        top_level(s, left, failure) matches TopLevel::Fault(text) ==> geosite_visit(
            s,
            left,
            failure,
        ) == (Seq::<GeoSiteView>::empty(), VisitEnd::Fault(text)) && geoip_visit(s, left, failure)
            == (Seq::<GeoIpView>::empty(), VisitEnd::Fault(text)),
{
}

/// How a walk ended is reported: without an error at the end of the file, with the text of the
/// fault where there was one, and with a text of its own where an entry cannot be decoded.
pub proof fn law_walk_reports_its_end(r: Result<(), String>, end: VisitEnd)
    requires
        visit_result(r, end),
    ensures
        r is Ok <==> end is Done,
        end matches VisitEnd::Fault(text) ==> r->Err_0@ == text,
        end is Undecodable ==> ({
            let start = "failed to decode protobuf entry: "@
                + "failed to decode Protobuf message: "@;
            let text = r->Err_0@;
            text.len() >= start.len() && text.take(start.len() as int) == start
        }),
{
    if end is Undecodable {
        let e = r->Err_0@;
        let first = "failed to decode protobuf entry: "@;
        let reason = choose|reason: Seq<char>|
            e == first + #[trigger] decode_error_text(reason) && reported(
                decode_error_text(reason),
            );
        let start = first + "failed to decode Protobuf message: "@;
        assert(e =~= start + reason);
        assert(e.take(start.len() as int) =~= start);
    }
}

/// A walk through a file ends at an entry that cannot be decoded, whatever follows it.
pub proof fn law_walk_ends_at_a_bad_entry(
    payload: Seq<u8>,
    rest: Seq<u8>,
    left: nat,
    failure: Option<String>,
)
    requires
        payload.len() <= usize::MAX,
        left >= entry_field(payload).len(),
    ensures
        geosite_message(payload, 0) is None ==> geosite_visit(
            entry_field(payload) + rest,
            left,
            failure,
        ) == (Seq::<GeoSiteView>::empty(), VisitEnd::Undecodable),
        geoip_message(payload, 0) is None ==> geoip_visit(
            entry_field(payload) + rest,
            left,
            failure,
        ) == (Seq::<GeoIpView>::empty(), VisitEnd::Undecodable),
{
    lemma_entry_comes_first(payload, rest, left, failure);
}

} // verus!
