//! Readers for netlink message buffers: the messages in a buffer and the attributes in a message.
//!
//! Netlink numbers are in the byte order of the machine. The readers whose names end in `_in` are
//! told the order; the others ask the machine for it.

use vstd::prelude::*;
use vstd::slice::slice_subrange;

verus! {

/// The attribute type flag that marks an attribute made up of attributes.
pub const NLA_F_NESTED: u16 = 0x8000;

/// The attribute type flag that marks a payload in network byte order.
pub const NLA_F_NET_BYTEORDER: u16 = 0x4000;

/// The size of an attribute header: length and type, two bytes each.
pub const NLATTR_SIZE: usize = 4;

/// The size of a message header.
pub const NLMSGHDR_SIZE: usize = 16;

/// The size of the netfilter header that follows the message header.
pub const NFGENMSG_SIZE: usize = 4;

/// The order in which the bytes of a number are stored.
#[derive(Clone, Copy, Debug, PartialEq, Eq, Structural)]
pub enum ByteOrder {
    Little,
    Big,
}

/// The number that two bytes spell.
pub open spec fn number16(order: ByteOrder, s: Seq<u8>, at: int) -> int {
    match order {
        ByteOrder::Little => s[at] + 256 * s[at + 1],
        ByteOrder::Big => 256 * s[at] + s[at + 1],
    }
}

/// The number that four bytes spell.
pub open spec fn number32(order: ByteOrder, s: Seq<u8>, at: int) -> int {
    match order {
        ByteOrder::Little => number16(order, s, at) + 0x1_0000 * number16(order, s, at + 2),
        ByteOrder::Big => 0x1_0000 * number16(order, s, at) + number16(order, s, at + 2),
    }
}

/// `n` rounded up to a multiple of four.
pub open spec fn align4(n: int) -> int {
    (n + 3) / 4 * 4
}

/// `u16::from_ne_bytes` reads two bytes in the byte order of the machine, whichever that is.
#[verifier::external_body]
fn u16_from_ne_bytes(bytes: [u8; 2]) -> (r: u16)
    ensures
        r == number16(ByteOrder::Little, bytes@, 0) || r == number16(ByteOrder::Big, bytes@, 0),
{
    u16::from_ne_bytes(bytes)
}

/// `order` is the byte order of the machine: the one in which it was seen to read the bytes 1 and 0
/// as a number.
pub closed spec fn native(order: ByteOrder) -> bool {
    exists|bytes: [u8; 2], n: u16|
        bytes@ == seq![1u8, 0u8] && #[trigger] call_ensures(u16_from_ne_bytes, (bytes,), n) && n
            == number16(order, bytes@, 0)
}

/// The byte order of the machine.
fn native_order() -> (r: ByteOrder)
    ensures
        native(r),
{
    let bytes: [u8; 2] = [1, 0];
    let probe: u16 = u16_from_ne_bytes(bytes);
    assert(bytes@ =~= seq![1u8, 0u8]);
    assert(call_ensures(u16_from_ne_bytes, (bytes,), probe));
    if probe == 1 {
        ByteOrder::Little
    } else {
        ByteOrder::Big
    }
}

fn read16(order: ByteOrder, data: &[u8], at: usize) -> (r: u16)
    requires
        at + 2 <= data@.len(),
    ensures
        r == number16(order, data@, at as int),
{
    let a: u16 = data[at] as u16;
    let b: u16 = data[at + 1] as u16;
    match order {
        ByteOrder::Little => a + 256 * b,
        ByteOrder::Big => 256 * a + b,
    }
}

fn read32(order: ByteOrder, data: &[u8], at: usize) -> (r: u32)
    requires
        at + 4 <= data@.len(),
    ensures
        r == number32(order, data@, at as int),
{
    assert(data@.len() == data.len());
    let a: u32 = read16(order, data, at) as u32;
    let b: u32 = read16(order, data, at + 2) as u32;
    match order {
        ByteOrder::Little => a + 0x1_0000 * b,
        ByteOrder::Big => 0x1_0000 * a + b,
    }
}

/// A single decoded netlink attribute. `attr_type` has the flags of the stored type stripped;
/// they are in `nested` and `net_byteorder`.
#[derive(Clone, Debug)]
pub struct Attr<'a> {
    pub attr_type: u16,
    pub nested: bool,
    pub net_byteorder: bool,
    pub payload: &'a [u8],
}

/// What an attribute holds.
pub struct AttrView {
    pub attr_type: u16,
    pub nested: bool,
    pub net_byteorder: bool,
    pub payload: Seq<u8>,
}

impl<'a> View for Attr<'a> {
    type V = AttrView;

    open spec fn view(&self) -> AttrView {
        AttrView {
            attr_type: self.attr_type,
            nested: self.nested,
            net_byteorder: self.net_byteorder,
            payload: self.payload@,
        }
    }
}

/// The attribute with the stored type `raw` and the given payload.
pub open spec fn attr_of(raw: int, payload: Seq<u8>) -> AttrView {
    AttrView {
        attr_type: (raw % 0x4000) as u16,
        nested: raw >= 0x8000,
        net_byteorder: raw / 0x4000 % 2 == 1,
        payload,
    }
}

/// The attributes that `s` starts with, in order. Each one is a length, which counts the header
/// in, a type and a payload; the next one starts at the next multiple of four. A length that does
/// not cover the header, or more than there is, ends the sequence.
pub open spec fn attrs(order: ByteOrder, s: Seq<u8>) -> Seq<AttrView>
    decreases s.len(),
{
    if s.len() < NLATTR_SIZE {
        Seq::empty()
    } else {
        let len = number16(order, s, 0);
        if len < NLATTR_SIZE || len > s.len() {
            Seq::empty()
        } else {
            let first = attr_of(number16(order, s, 2), s.subrange(NLATTR_SIZE as int, len));
            if align4(len) > s.len() {
                seq![first]
            } else {
                seq![first] + attrs(order, s.skip(align4(len)))
            }
        }
    }
}

/// Walks a flat sequence of attributes whose numbers are in the byte order `order`.
pub fn walk_attrs_in<'a>(order: ByteOrder, data: &'a [u8]) -> (r: Vec<Attr<'a>>)
    ensures
        r@.map_values(|a: Attr| a@) == attrs(order, data@),
{
    let mut out: Vec<Attr<'a>> = Vec::new();
    let mut rest = data;
    while rest.len() >= NLATTR_SIZE
        invariant_except_break
            attrs(order, data@) == out@.map_values(|a: Attr| a@) + attrs(order, rest@),
        ensures
            attrs(order, data@) == out@.map_values(|a: Attr| a@),
        decreases rest@.len(),
    {
        let raw_len: usize = read16(order, rest, 0) as usize;
        let raw_type: u16 = read16(order, rest, 2);
        if raw_len < NLATTR_SIZE || raw_len > rest.len() {
            break;
        }
        assert(raw_type & !(NLA_F_NESTED | NLA_F_NET_BYTEORDER) == raw_type % 0x4000)
            by (bit_vector);
        assert((raw_type & NLA_F_NESTED != 0) == (raw_type >= 0x8000)) by (bit_vector);
        assert((raw_type & NLA_F_NET_BYTEORDER != 0) == (raw_type / 0x4000 % 2 == 1))
            by (bit_vector);
        let attr = Attr {
            attr_type: raw_type & !(NLA_F_NESTED | NLA_F_NET_BYTEORDER),
            nested: raw_type & NLA_F_NESTED != 0,
            net_byteorder: raw_type & NLA_F_NET_BYTEORDER != 0,
            payload: slice_subrange(rest, NLATTR_SIZE, raw_len),
        };
        let ghost before = out@.map_values(|a: Attr| a@);
        out.push(attr);
        assert(out@.map_values(|a: Attr| a@) =~= before.push(attr@));
        let aligned: usize = nla_align(raw_len);
        if aligned > rest.len() {
            break;
        }
        rest = slice_subrange(rest, aligned, rest.len());
    }
    out
}

/// Rounds `len` up to a multiple of four.
pub fn nla_align(len: usize) -> (r: usize)
    requires
        len + 3 <= usize::MAX,
    ensures
        r == align4(len as int),
{
    (len + 3) / 4 * 4
}

/// Walks a flat sequence of attributes and returns them in order. The input starts at the first
/// attribute.
pub fn walk_attrs<'a>(data: &'a [u8]) -> (r: Vec<Attr<'a>>)
    ensures
        exists|order: ByteOrder|
            native(order) && r@.map_values(|a: Attr| a@) == #[trigger] attrs(order, data@),
{
    walk_attrs_in(native_order(), data)
}

/// Finds the first attribute with the given type.
pub fn find_attr<'a>(attrs: &'a [Attr<'a>], attr_type: u16) -> (r: Option<&'a Attr<'a>>)
    ensures
        match r {
            Some(a) => exists|i: int|
                0 <= i < attrs@.len() && #[trigger] attrs@[i] == *a && a.attr_type == attr_type && (
                forall|j: int| 0 <= j < i ==> (#[trigger] attrs@[j]).attr_type != attr_type),
            None => forall|j: int|
                0 <= j < attrs@.len() ==> (#[trigger] attrs@[j]).attr_type != attr_type,
        },
{
    for i in 0..attrs.len()
        invariant
            forall|j: int| 0 <= j < i ==> (#[trigger] attrs@[j]).attr_type != attr_type,
    {
        if attrs[i].attr_type == attr_type {
            return Some(&attrs[i]);
        }
    }
    None
}

/// The header of a netlink message.
#[derive(Clone, Copy, Debug, PartialEq, Eq, Structural)]
pub struct NlMsgHdr {
    pub nlmsg_len: u32,
    pub nlmsg_type: u16,
    pub nlmsg_flags: u16,
    pub nlmsg_seq: u32,
    pub nlmsg_pid: u32,
}

/// The netfilter header of a message.
#[derive(Clone, Copy, Debug, PartialEq, Eq, Structural)]
pub struct NfGenMsg {
    pub nfgen_family: u8,
    pub version: u8,
    pub res_id: u16,
}

/// What a message holds: its two headers and the bytes of its attributes.
pub struct MessageView {
    pub header: NlMsgHdr,
    pub generic: NfGenMsg,
    pub attrs: Seq<u8>,
}

/// The message header that the sixteen bytes at the start of `s` make up.
pub open spec fn header_at(order: ByteOrder, s: Seq<u8>) -> NlMsgHdr {
    NlMsgHdr {
        nlmsg_len: number32(order, s, 0) as u32,
        nlmsg_type: number16(order, s, 4) as u16,
        nlmsg_flags: number16(order, s, 6) as u16,
        nlmsg_seq: number32(order, s, 8) as u32,
        nlmsg_pid: number32(order, s, 12) as u32,
    }
}

/// The netfilter header that follows the message header at the start of `s`.
pub open spec fn generic_at(order: ByteOrder, s: Seq<u8>) -> NfGenMsg {
    NfGenMsg { nfgen_family: s[16], version: s[17], res_id: number16(order, s, 18) as u16 }
}

/// The messages that `s` starts with, in order. The length in a header counts both headers in;
/// the next message starts at the next multiple of four. A length that does not cover the
/// headers, or more than there is, ends the sequence.
pub open spec fn messages(order: ByteOrder, s: Seq<u8>) -> Seq<MessageView>
    decreases s.len(),
{
    if s.len() < NLMSGHDR_SIZE {
        Seq::empty()
    } else {
        let len = number32(order, s, 0);
        if len < NLMSGHDR_SIZE + NFGENMSG_SIZE || len > s.len() {
            Seq::empty()
        } else {
            let first = MessageView {
                header: header_at(order, s),
                generic: generic_at(order, s),
                attrs: s.subrange(NLMSGHDR_SIZE + NFGENMSG_SIZE, len),
            };
            if align4(len) > s.len() {
                seq![first]
            } else {
                seq![first] + messages(order, s.skip(align4(len)))
            }
        }
    }
}

/// What a message that was split off holds.
pub open spec fn message_view(m: (NlMsgHdr, NfGenMsg, &[u8])) -> MessageView {
    MessageView { header: m.0, generic: m.1, attrs: m.2@ }
}

/// Splits a buffer whose numbers are in the byte order `order` into its messages.
pub fn split_messages_in<'a>(order: ByteOrder, buf: &'a [u8]) -> (r: Vec<
    (NlMsgHdr, NfGenMsg, &'a [u8]),
>)
    ensures
        r@.map_values(|m: (NlMsgHdr, NfGenMsg, &[u8])| message_view(m)) == messages(order, buf@),
{
    let ghost view = |m: (NlMsgHdr, NfGenMsg, &[u8])| message_view(m);
    let mut out: Vec<(NlMsgHdr, NfGenMsg, &'a [u8])> = Vec::new();
    let mut rest = buf;
    while rest.len() >= NLMSGHDR_SIZE
        invariant_except_break
            view == (|m: (NlMsgHdr, NfGenMsg, &[u8])| message_view(m)),
            messages(order, buf@) == out@.map_values(view) + messages(order, rest@),
        ensures
            messages(order, buf@) == out@.map_values(view),
        decreases rest@.len(),
    {
        let header = NlMsgHdr {
            nlmsg_len: read32(order, rest, 0),
            nlmsg_type: read16(order, rest, 4),
            nlmsg_flags: read16(order, rest, 6),
            nlmsg_seq: read32(order, rest, 8),
            nlmsg_pid: read32(order, rest, 12),
        };
        let msg_len: usize = header.nlmsg_len as usize;
        if msg_len < NLMSGHDR_SIZE + NFGENMSG_SIZE || msg_len > rest.len() {
            break;
        }
        let generic = NfGenMsg {
            nfgen_family: rest[16],
            version: rest[17],
            res_id: read16(order, rest, 18),
        };
        let attrs = slice_subrange(rest, NLMSGHDR_SIZE + NFGENMSG_SIZE, msg_len);
        let ghost before = out@.map_values(view);
        out.push((header, generic, attrs));
        assert(out@.map_values(view) =~= before.push(message_view((header, generic, attrs))));
        let padding: usize = (4 - msg_len % 4) % 4;
        assert(align4(msg_len as int) == msg_len + padding);
        if padding > rest.len() - msg_len {
            break;
        }
        rest = slice_subrange(rest, msg_len + padding, rest.len());
    }
    out
}

/// Splits a buffer into the top-level netlink messages that it contains. Each message comes as
/// its two headers and the bytes of its attributes.
pub fn split_messages<'a>(buf: &'a [u8]) -> (r: Vec<(NlMsgHdr, NfGenMsg, &'a [u8])>)
    ensures
        exists|order: ByteOrder|
            native(order) && r@.map_values(|m: (NlMsgHdr, NfGenMsg, &[u8])| message_view(m))
                == #[trigger] messages(order, buf@),
{
    split_messages_in(native_order(), buf)
}

} // verus!
