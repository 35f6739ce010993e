//! The layout of netlink buffers, as it is written, and what reading gives back of it.

use vstd::prelude::*;

use crate::netlink::{
    align4, attr_of, attrs, generic_at, header_at, message_view, messages, number16, number32, Attr,
    AttrView, ByteOrder, MessageView, NfGenMsg, NlMsgHdr,
};

verus! {

/// A number in two bytes.
pub open spec fn bytes16(order: ByteOrder, n: u16) -> Seq<u8> {
    match order {
        ByteOrder::Little => seq![(n % 256) as u8, (n / 256) as u8],
        ByteOrder::Big => seq![(n / 256) as u8, (n % 256) as u8],
    }
}

/// A number in four bytes.
pub open spec fn bytes32(order: ByteOrder, n: u32) -> Seq<u8> {
    match order {
        ByteOrder::Little => bytes16(order, (n % 0x1_0000) as u16) + bytes16(
            order,
            (n / 0x1_0000) as u16,
        ),
        ByteOrder::Big => bytes16(order, (n / 0x1_0000) as u16) + bytes16(
            order,
            (n % 0x1_0000) as u16,
        ),
    }
}

/// How many bytes fill `n` bytes up to a multiple of four.
pub open spec fn gap(n: nat) -> nat {
    if n % 4 == 0 {
        0
    } else {
        (4 - n % 4) as nat
    }
}

/// An attribute: its length, its type with the flags, and its payload.
pub open spec fn attr_bytes(order: ByteOrder, raw: u16, payload: Seq<u8>) -> Seq<u8> {
    bytes16(order, (4 + payload.len()) as u16) + bytes16(order, raw) + payload
}

/// An attribute as it is written: its type, its flags, its payload, and what fills it up.
pub struct WrittenAttr {
    pub attr_type: u16,
    pub nested: bool,
    pub net_byteorder: bool,
    pub payload: Seq<u8>,
    pub padding: Seq<u8>,
}

impl WrittenAttr {
    /// The type leaves room for the flags, and the length fits in its two bytes.
    pub open spec fn fits(self) -> bool {
        self.attr_type < 0x4000 && 4 + self.payload.len() <= 0xFFFF
    }

    /// The attribute is filled up to a multiple of four, with whatever bytes.
    pub open spec fn full(self) -> bool {
        self.fits() && self.padding.len() == gap(4 + self.payload.len())
    }

    /// The type with the flags.
    pub open spec fn raw(self) -> u16 {
        (self.attr_type + (if self.nested {
            0x8000int
        } else {
            0
        }) + (if self.net_byteorder {
            0x4000int
        } else {
            0
        })) as u16
    }

    /// The bytes of the attribute and of what fills it up.
    #[verifier::opaque]
    pub open spec fn bytes(self, order: ByteOrder) -> Seq<u8> {
        attr_bytes(order, self.raw(), self.payload) + self.padding
    }

    /// What is to be read of the attribute.
    pub open spec fn content(self) -> AttrView {
        AttrView {
            attr_type: self.attr_type,
            nested: self.nested,
            net_byteorder: self.net_byteorder,
            payload: self.payload,
        }
    }
}

/// Attributes, one after the other.
pub open spec fn attrs_bytes(order: ByteOrder, items: Seq<WrittenAttr>) -> Seq<u8>
    decreases items.len(),
{
    if items.len() == 0 {
        Seq::empty()
    } else {
        items[0].bytes(order) + attrs_bytes(order, items.drop_first())
    }
}

/// What is to be read of the attributes.
pub open spec fn attr_views(items: Seq<WrittenAttr>) -> Seq<AttrView> {
    Seq::new(items.len(), |i: int| items[i].content())
}

proof fn lemma_number16(order: ByteOrder, n: u16, s: Seq<u8>, at: int)
    requires
        0 <= at,
        at + 2 <= s.len(),
        s[at] == bytes16(order, n)[0],
        s[at + 1] == bytes16(order, n)[1],
    ensures
        number16(order, s, at) == n,
{
}

proof fn lemma_number32(order: ByteOrder, n: u32, s: Seq<u8>, at: int)
    requires
        0 <= at,
        at + 4 <= s.len(),
        forall|i: int| 0 <= i < 4 ==> #[trigger] s[at + i] == bytes32(order, n)[i],
    ensures
        number32(order, s, at) == n,
{
    let low = (n % 0x1_0000) as u16;
    let high = (n / 0x1_0000) as u16;
    assert(s[at + 0] == bytes32(order, n)[0]);
    assert(s[at + 1] == bytes32(order, n)[1]);
    assert(s[at + 2] == bytes32(order, n)[2]);
    assert(s[at + 3] == bytes32(order, n)[3]);
    match order {
        ByteOrder::Little => {
            lemma_number16(order, low, s, at);
            lemma_number16(order, high, s, at + 2);
        },
        ByteOrder::Big => {
            lemma_number16(order, high, s, at);
            lemma_number16(order, low, s, at + 2);
        },
    }
}

/// The header and the payload of the attribute at the start of a buffer are read.
proof fn lemma_attr_start(order: ByteOrder, item: WrittenAttr, rest: Seq<u8>)
    requires
        item.fits(),
    ensures
        ({
            let s = item.bytes(order) + rest;
            let len = 4 + item.payload.len();
            &&& item.bytes(order).len() == len + item.padding.len()
            &&& number16(order, s, 0) == len
            &&& number16(order, s, 2) == item.raw()
            &&& s.subrange(4, len as int) == item.payload
            &&& attr_of(item.raw() as int, item.payload) == item.content()
        }),
{
    reveal(WrittenAttr::bytes);
    let one = attr_bytes(order, item.raw(), item.payload);
    let s = item.bytes(order) + rest;
    let len = (4 + item.payload.len()) as u16;
    assert(one.len() == len);
    assert(forall|i: int| 0 <= i < one.len() ==> s[i] == one[i]);
    lemma_number16(order, len, s, 0);
    lemma_number16(order, item.raw(), s, 2);
    assert(s.subrange(4, len as int) =~= item.payload);
}

/// The attribute at the start of a buffer is read, and reading goes on behind its padding.
proof fn lemma_attr_reads_back(order: ByteOrder, item: WrittenAttr, rest: Seq<u8>)
    requires
        item.full(),
    ensures
        attrs(order, item.bytes(order) + rest) == seq![item.content()] + attrs(order, rest),
{
    let s = item.bytes(order) + rest;
    let len = 4 + item.payload.len();
    lemma_attr_start(order, item, rest);
    assert(s.skip(align4(len as int)) =~= rest);
}

/// Attributes that were written one after the other are read back in order, each with its type,
/// both its flags and its payload, nested or not, whatever fills them up; reading then goes on with
/// what follows them.
pub proof fn law_attrs_read_back(order: ByteOrder, items: Seq<WrittenAttr>, rest: Seq<u8>)
    requires
        forall|i: int| 0 <= i < items.len() ==> (#[trigger] items[i]).full(),
    ensures
        attrs(order, attrs_bytes(order, items) + rest) == attr_views(items) + attrs(order, rest),
    decreases items.len(),
{
    if items.len() == 0 {
        assert(attrs_bytes(order, items) + rest =~= rest);
        assert(attr_views(items) + attrs(order, rest) =~= attrs(order, rest));
    } else {
        let tail = items.drop_first();
        let more = attrs_bytes(order, tail) + rest;
        assert(attrs_bytes(order, items) + rest =~= items[0].bytes(order) + more);
        lemma_attr_reads_back(order, items[0], more);
        assert forall|i: int| 0 <= i < tail.len() implies (#[trigger] tail[i]).full() by {
            assert(tail[i] == items[i + 1]);
        }
        law_attrs_read_back(order, tail, rest);
        assert(seq![items[0].content()] + (attr_views(tail) + attrs(order, rest)) =~= attr_views(
            items,
        ) + attrs(order, rest));
    }
}

/// The last attribute of a buffer is read back even if less fills it up than should, or nothing.
pub proof fn law_last_attr_needs_no_padding(
    order: ByteOrder,
    items: Seq<WrittenAttr>,
    last: WrittenAttr,
)
    requires
        forall|i: int| 0 <= i < items.len() ==> (#[trigger] items[i]).full(),
        last.fits(),
        last.padding.len() <= gap(4 + last.payload.len()),
    ensures
        attrs(order, attrs_bytes(order, items) + last.bytes(order)) == attr_views(items).push(
            last.content(),
        ),
{
    law_attrs_read_back(order, items, last.bytes(order));
    let none = Seq::<u8>::empty();
    lemma_attr_start(order, last, none);
    assert(last.bytes(order) + none =~= last.bytes(order));
    let s = last.bytes(order);
    let len = 4 + last.payload.len();
    if align4(len as int) <= s.len() {
        assert(s.skip(align4(len as int)) =~= none);
        assert(attrs(order, none) =~= Seq::empty());
    }
    assert(attrs(order, s) =~= seq![last.content()]);
    assert(attr_views(items) + attrs(order, s) =~= attr_views(items).push(last.content()));
}

/// A message: its header, whose length is that of the whole, the netfilter header, and attributes.
pub open spec fn message_bytes(order: ByteOrder, m: MessageView) -> Seq<u8> {
    bytes32(order, m.header.nlmsg_len) + bytes16(order, m.header.nlmsg_type) + bytes16(
        order,
        m.header.nlmsg_flags,
    ) + bytes32(order, m.header.nlmsg_seq) + bytes32(order, m.header.nlmsg_pid) + seq![
        m.generic.nfgen_family,
        m.generic.version,
    ] + bytes16(order, m.generic.res_id) + m.attrs
}

/// A message as it is written, and what fills it up.
pub struct WrittenMessage {
    pub message: MessageView,
    pub padding: Seq<u8>,
}

impl WrittenMessage {
    /// The length in the header is that of the message.
    pub open spec fn true_length(self) -> bool {
        self.message.header.nlmsg_len == 20 + self.message.attrs.len()
    }

    /// The message is filled up to a multiple of four, with whatever bytes.
    pub open spec fn full(self) -> bool {
        self.true_length() && self.padding.len() == gap(self.message.header.nlmsg_len as nat)
    }

    /// The bytes of the message and of what fills it up.
    #[verifier::opaque]
    pub open spec fn bytes(self, order: ByteOrder) -> Seq<u8> {
        message_bytes(order, self.message) + self.padding
    }
}

/// Messages, one after the other.
pub open spec fn messages_bytes(order: ByteOrder, list: Seq<WrittenMessage>) -> Seq<u8>
    decreases list.len(),
{
    if list.len() == 0 {
        Seq::empty()
    } else {
        list[0].bytes(order) + messages_bytes(order, list.drop_first())
    }
}

/// The messages as they are read.
pub open spec fn message_views(list: Seq<WrittenMessage>) -> Seq<MessageView> {
    Seq::new(list.len(), |i: int| list[i].message)
}

/// Each part of a message stands where it is looked for.
proof fn lemma_message_layout(order: ByteOrder, m: MessageView)
    requires
        m.header.nlmsg_len == 20 + m.attrs.len(),
    ensures
        message_bytes(order, m).len() == m.header.nlmsg_len,
        message_bytes(order, m).subrange(0, 4) == bytes32(order, m.header.nlmsg_len),
        message_bytes(order, m).subrange(4, 6) == bytes16(order, m.header.nlmsg_type),
        message_bytes(order, m).subrange(6, 8) == bytes16(order, m.header.nlmsg_flags),
        message_bytes(order, m).subrange(8, 12) == bytes32(order, m.header.nlmsg_seq),
        message_bytes(order, m).subrange(12, 16) == bytes32(order, m.header.nlmsg_pid),
        message_bytes(order, m)[16] == m.generic.nfgen_family,
        message_bytes(order, m)[17] == m.generic.version,
        message_bytes(order, m).subrange(18, 20) == bytes16(order, m.generic.res_id),
        message_bytes(order, m).skip(20) == m.attrs,
{
    let one = message_bytes(order, m);
    assert(one.subrange(0, 4) =~= bytes32(order, m.header.nlmsg_len));
    assert(one.subrange(4, 6) =~= bytes16(order, m.header.nlmsg_type));
    assert(one.subrange(6, 8) =~= bytes16(order, m.header.nlmsg_flags));
    assert(one.subrange(8, 12) =~= bytes32(order, m.header.nlmsg_seq));
    assert(one.subrange(12, 16) =~= bytes32(order, m.header.nlmsg_pid));
    assert(one.subrange(18, 20) =~= bytes16(order, m.generic.res_id));
    assert(one.skip(20) =~= m.attrs);
}

/// A number of two bytes that stands in a part of a buffer is read there.
proof fn lemma_part16(order: ByteOrder, n: u16, one: Seq<u8>, s: Seq<u8>, at: int)
    requires
        0 <= at,
        at + 2 <= one.len() <= s.len(),
        one.subrange(at, at + 2) == bytes16(order, n),
        forall|i: int| 0 <= i < one.len() ==> s[i] == one[i],
    ensures
        number16(order, s, at) == n,
{
    assert(one.subrange(at, at + 2)[0] == one[at]);
    assert(one.subrange(at, at + 2)[1] == one[at + 1]);
    lemma_number16(order, n, s, at);
}

/// A number of four bytes that stands in a part of a buffer is read there.
proof fn lemma_part32(order: ByteOrder, n: u32, one: Seq<u8>, s: Seq<u8>, at: int)
    requires
        0 <= at,
        at + 4 <= one.len() <= s.len(),
        one.subrange(at, at + 4) == bytes32(order, n),
        forall|i: int| 0 <= i < one.len() ==> s[i] == one[i],
    ensures
        number32(order, s, at) == n,
{
    assert forall|i: int| 0 <= i < 4 implies #[trigger] s[at + i] == bytes32(order, n)[i] by {
        assert(one.subrange(at, at + 4)[i] == one[at + i]);
    }
    lemma_number32(order, n, s, at);
}

/// The headers and the attributes of the message at the start of a buffer are read.
proof fn lemma_message_start(order: ByteOrder, item: WrittenMessage, rest: Seq<u8>)
    requires
        item.true_length(),
    ensures
        ({
            let s = item.bytes(order) + rest;
            let len = item.message.header.nlmsg_len;
            &&& item.bytes(order).len() == len + item.padding.len()
            &&& number32(order, s, 0) == len
            &&& header_at(order, s) == item.message.header
            &&& generic_at(order, s) == item.message.generic
            &&& s.subrange(20, len as int) == item.message.attrs
        }),
{
    reveal(WrittenMessage::bytes);
    let m = item.message;
    let one = message_bytes(order, m);
    let s = item.bytes(order) + rest;
    lemma_message_layout(order, m);
    assert(forall|i: int| 0 <= i < one.len() ==> s[i] == one[i]);
    lemma_part32(order, m.header.nlmsg_len, one, s, 0);
    lemma_part16(order, m.header.nlmsg_type, one, s, 4);
    lemma_part16(order, m.header.nlmsg_flags, one, s, 6);
    lemma_part32(order, m.header.nlmsg_seq, one, s, 8);
    lemma_part32(order, m.header.nlmsg_pid, one, s, 12);
    lemma_part16(order, m.generic.res_id, one, s, 18);
    assert(s.subrange(20, m.header.nlmsg_len as int) =~= one.skip(20));
}

/// The message at the start of a buffer is read, and reading goes on behind its padding.
proof fn lemma_message_reads_back(order: ByteOrder, item: WrittenMessage, rest: Seq<u8>)
    requires
        item.full(),
    ensures
        messages(order, item.bytes(order) + rest) == seq![item.message] + messages(order, rest),
{
    let s = item.bytes(order) + rest;
    let len = item.message.header.nlmsg_len;
    lemma_message_start(order, item, rest);
    assert(s.skip(align4(len as int)) =~= rest);
}

/// The bytes of messages are those of the first one and those of the others.
proof fn lemma_messages_apart(order: ByteOrder, list: Seq<WrittenMessage>, rest: Seq<u8>)
    requires
        list.len() > 0,
    ensures
        messages_bytes(order, list) + rest == list[0].bytes(order) + (messages_bytes(
            order,
            list.drop_first(),
        ) + rest),
{
    let first = list[0].bytes(order);
    let others = messages_bytes(order, list.drop_first());
    assert(first + others + rest =~= first + (others + rest));
}

/// Messages that were written one after the other are read back in order, each with its headers
/// and its attributes, whatever fills them up; reading then goes on with what follows them.
pub proof fn law_messages_read_back(order: ByteOrder, list: Seq<WrittenMessage>, rest: Seq<u8>)
    requires
        forall|i: int| 0 <= i < list.len() ==> (#[trigger] list[i]).full(),
    ensures
        messages(order, messages_bytes(order, list) + rest) == message_views(list) + messages(
            order,
            rest,
        ),
    decreases list.len(),
{
    let after = messages(order, rest);
    if list.len() == 0 {
        assert(messages_bytes(order, list) + rest =~= rest);
        assert(message_views(list) + after =~= after);
    } else {
        let tail = list.drop_first();
        lemma_messages_apart(order, list, rest);
        lemma_message_reads_back(order, list[0], messages_bytes(order, tail) + rest);
        assert forall|i: int| 0 <= i < tail.len() implies (#[trigger] tail[i]).full() by {
            assert(tail[i] == list[i + 1]);
        }
        law_messages_read_back(order, tail, rest);
        assert(seq![list[0].message] + (message_views(tail) + after) =~= message_views(list)
            + after);
    }
}

/// The last message of a buffer is read back even if less fills it up than should, or nothing.
pub proof fn law_last_message_needs_no_padding(
    order: ByteOrder,
    list: Seq<WrittenMessage>,
    last: WrittenMessage,
)
    requires
        forall|i: int| 0 <= i < list.len() ==> (#[trigger] list[i]).full(),
        last.true_length(),
        last.padding.len() <= gap(last.message.header.nlmsg_len as nat),
    ensures
        messages(order, messages_bytes(order, list) + last.bytes(order)) == message_views(
            list,
        ).push(last.message),
{
    let s = last.bytes(order);
    law_messages_read_back(order, list, s);
    lemma_last_message(order, last);
    assert(message_views(list) + seq![last.message] =~= message_views(list).push(last.message));
}

proof fn lemma_last_message(order: ByteOrder, last: WrittenMessage)
    requires
        last.true_length(),
        last.padding.len() <= gap(last.message.header.nlmsg_len as nat),
    ensures
        messages(order, last.bytes(order)) == seq![last.message],
{
    let s = last.bytes(order);
    let none = Seq::<u8>::empty();
    let len = last.message.header.nlmsg_len;
    lemma_message_start(order, last, none);
    assert(s + none =~= s);
    if align4(len as int) <= s.len() {
        assert(s.skip(align4(len as int)) =~= none);
        assert(messages(order, none) =~= Seq::empty());
    }
    assert(messages(order, s) =~= seq![last.message]);
}

/// Rounding up gives the least multiple of four that is not smaller.
pub proof fn law_alignment(n: int)
    requires
        0 <= n,
    ensures
        align4(n) % 4 == 0,
        n <= align4(n) < n + 4,
{
}

/// Reading attributes ends where too little is left for a header, and where a length does not
/// cover the header or reaches beyond the buffer; what came before is read.
pub proof fn law_bad_attr_ends_the_walk(
    order: ByteOrder,
    items: Seq<WrittenAttr>,
    len: u16,
    rest: Seq<u8>,
)
    requires
        forall|i: int| 0 <= i < items.len() ==> (#[trigger] items[i]).full(),
        rest.len() < 4 || (rest.subrange(0, 2) == bytes16(order, len) && (len < 4 || len
            > rest.len())),
    ensures
        attrs(order, attrs_bytes(order, items) + rest) == attr_views(items),
{
    law_attrs_read_back(order, items, rest);
    if rest.len() >= 4 {
        assert(rest.subrange(0, 2)[0] == rest[0]);
        assert(rest.subrange(0, 2)[1] == rest[1]);
        lemma_number16(order, len, rest, 0);
    }
    assert(attrs(order, rest) =~= Seq::empty());
    assert(attr_views(items) + attrs(order, rest) =~= attr_views(items));
}

/// Splitting messages ends where too little is left for a header, and where a length does not
/// cover both headers or reaches beyond the buffer; what came before is read.
pub proof fn law_bad_message_ends_the_split(
    order: ByteOrder,
    list: Seq<WrittenMessage>,
    len: u32,
    rest: Seq<u8>,
)
    requires
        forall|i: int| 0 <= i < list.len() ==> (#[trigger] list[i]).full(),
        rest.len() < 16 || (rest.subrange(0, 4) == bytes32(order, len) && (len < 20 || len
            > rest.len())),
    ensures
        messages(order, messages_bytes(order, list) + rest) == message_views(list),
{
    law_messages_read_back(order, list, rest);
    if rest.len() >= 16 {
        lemma_part32(order, len, rest, rest, 0);
    }
    assert(messages(order, rest) =~= Seq::empty());
    assert(message_views(list) + messages(order, rest) =~= message_views(list));
}

/// What is said of an attribute or a message that was read is what its parts hold, one by one.
pub proof fn law_parts_are_shown_as_they_are(a: Attr, m: (NlMsgHdr, NfGenMsg, &[u8]))
    ensures
        a@.attr_type == a.attr_type,
        a@.nested == a.nested,
        a@.net_byteorder == a.net_byteorder,
        a@.payload == a.payload@,
        message_view(m).header == m.0,
        message_view(m).generic == m.1,
        message_view(m).attrs == m.2@,
{
}

} // verus!
