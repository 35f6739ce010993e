use oxidns::netlink::{
    find_attr, nla_align, split_messages, split_messages_in, walk_attrs, walk_attrs_in, Attr,
    ByteOrder, NfGenMsg, NlMsgHdr,
};

fn bytes16(order: ByteOrder, n: u16) -> [u8; 2] {
    match order {
        ByteOrder::Little => n.to_le_bytes(),
        ByteOrder::Big => n.to_be_bytes(),
    }
}

fn bytes32(order: ByteOrder, n: u32) -> [u8; 4] {
    match order {
        ByteOrder::Little => n.to_le_bytes(),
        ByteOrder::Big => n.to_be_bytes(),
    }
}

fn native() -> ByteOrder {
    if 1u16.to_ne_bytes() == [1, 0] {
        ByteOrder::Little
    } else {
        ByteOrder::Big
    }
}

fn pad(bytes: &mut Vec<u8>) {
    while bytes.len() % 4 != 0 {
        bytes.push(0);
    }
}

fn attr(order: ByteOrder, raw: u16, payload: &[u8]) -> Vec<u8> {
    let mut out = Vec::new();
    out.extend_from_slice(&bytes16(order, 4 + payload.len() as u16));
    out.extend_from_slice(&bytes16(order, raw));
    out.extend_from_slice(payload);
    out
}

fn message(order: ByteOrder, len: u32, attrs: &[u8]) -> Vec<u8> {
    let mut out = Vec::new();
    out.extend_from_slice(&bytes32(order, len));
    out.extend_from_slice(&bytes16(order, 0x0A01));
    out.extend_from_slice(&bytes16(order, 0x0305));
    out.extend_from_slice(&bytes32(order, 0x0102_0304));
    out.extend_from_slice(&bytes32(order, 0x0A0B_0C0D));
    out.push(2);
    out.push(7);
    out.extend_from_slice(&bytes16(order, 0x1234));
    out.extend_from_slice(attrs);
    out
}

fn summary(attrs: &[Attr<'_>]) -> Vec<(u16, bool, bool, Vec<u8>)> {
    attrs
        .iter()
        .map(|a| (a.attr_type, a.nested, a.net_byteorder, a.payload.to_vec()))
        .collect()
}

#[test]
fn walks_nothing() {
    assert!(walk_attrs(&[]).is_empty());
    assert!(walk_attrs(&[1, 2, 3]).is_empty());
}

#[test]
fn reads_back_attributes_in_both_byte_orders() {
    for order in [ByteOrder::Little, ByteOrder::Big] {
        let mut data = attr(order, 1, b"abcde");
        pad(&mut data);
        data.extend(attr(order, 0x8000 | 2, &[]));
        data.extend(attr(order, 0x4000 | 3, &[9, 8, 7, 6]));
        data.extend(attr(order, 0xC000 | 4, &[5]));
        let expected = vec![
            (1u16, false, false, b"abcde".to_vec()),
            (2, true, false, vec![]),
            (3, false, true, vec![9, 8, 7, 6]),
            (4, true, true, vec![5]),
        ];
        assert_eq!(summary(&walk_attrs_in(order, &data)), expected);
        pad(&mut data);
        assert_eq!(summary(&walk_attrs_in(order, &data)), expected);
    }
}

#[test]
fn padding_may_hold_anything_and_the_last_may_be_missing() {
    for order in [ByteOrder::Little, ByteOrder::Big] {
        let mut data = attr(order, 1, b"abcde");
        data.extend_from_slice(&[7, 8, 9]);
        data.extend(attr(order, 2, b"x"));
        data.push(5);
        let expected =
            vec![(1u16, false, false, b"abcde".to_vec()), (2, false, false, b"x".to_vec())];
        assert_eq!(summary(&walk_attrs_in(order, &data)), expected);

        let mut data = message(order, 21, &[0xAA]);
        data.extend_from_slice(&[1, 2, 3]);
        data.extend(message(order, 22, &[0xBB, 0xCC]));
        data.push(6);
        let messages = split_messages_in(order, &data);
        assert_eq!(messages.len(), 2);
        assert_eq!(messages[0].2, &[0xAA]);
        assert_eq!(messages[1].2, &[0xBB, 0xCC]);
    }
}

#[test]
fn walks_in_the_byte_order_of_the_machine() {
    let data = attr(native(), 0x1122, &[1, 2, 3]);
    let attrs = walk_attrs(&data);
    assert_eq!(summary(&attrs), vec![(0x1122, false, false, vec![1, 2, 3])]);
}

#[test]
fn stops_at_a_length_that_cannot_be() {
    let order = native();
    let mut data = attr(order, 1, &[1, 2, 3, 4]);
    data.extend_from_slice(&bytes16(order, 3));
    data.extend_from_slice(&bytes16(order, 2));
    data.extend(attr(order, 3, &[]));
    assert_eq!(walk_attrs(&data).len(), 1);

    let mut data = attr(order, 1, &[1, 2, 3, 4]);
    data.extend_from_slice(&bytes16(order, 9));
    data.extend_from_slice(&bytes16(order, 2));
    data.extend_from_slice(&[0; 4]);
    assert_eq!(walk_attrs(&data).len(), 1);
}

#[test]
fn finds_the_first_attribute_of_a_type() {
    let order = native();
    let mut data = attr(order, 5, &[1, 1, 1, 1]);
    data.extend(attr(order, 6, &[2, 2, 2, 2]));
    data.extend(attr(order, 6, &[3, 3, 3, 3]));
    let attrs = walk_attrs(&data);
    assert_eq!(find_attr(&attrs, 6).unwrap().payload, &[2, 2, 2, 2]);
    assert_eq!(find_attr(&attrs, 5).unwrap().payload, &[1, 1, 1, 1]);
    assert!(find_attr(&attrs, 7).is_none());
}

#[test]
fn aligns_to_four() {
    let aligned: Vec<usize> = (0..9).map(nla_align).collect();
    assert_eq!(aligned, vec![0, 4, 4, 4, 4, 8, 8, 8, 8]);
}

#[test]
fn reads_back_messages_in_both_byte_orders() {
    for order in [ByteOrder::Little, ByteOrder::Big] {
        let mut data = message(order, 21, &[0xAA]);
        pad(&mut data);
        data.extend(message(order, 24, &[1, 2, 3, 4]));
        let messages = split_messages_in(order, &data);
        assert_eq!(messages.len(), 2);
        assert_eq!(
            messages[0].0,
            NlMsgHdr {
                nlmsg_len: 21,
                nlmsg_type: 0x0A01,
                nlmsg_flags: 0x0305,
                nlmsg_seq: 0x0102_0304,
                nlmsg_pid: 0x0A0B_0C0D,
            }
        );
        assert_eq!(
            messages[0].1,
            NfGenMsg { nfgen_family: 2, version: 7, res_id: 0x1234 }
        );
        assert_eq!(messages[0].2, &[0xAA]);
        assert_eq!(messages[1].0.nlmsg_len, 24);
        assert_eq!(messages[1].2, &[1, 2, 3, 4]);
    }
}

#[test]
fn splits_in_the_byte_order_of_the_machine() {
    let order = native();
    let body = attr(order, 1, b"x");
    let data = message(order, 25, &body);
    let messages = split_messages(&data);
    assert_eq!(messages.len(), 1);
    assert_eq!(summary(&walk_attrs(messages[0].2)), vec![(1, false, false, b"x".to_vec())]);
}

#[test]
fn stops_at_a_message_length_that_cannot_be() {
    let order = native();
    assert!(split_messages(&message(order, 19, &[])).is_empty());
    assert!(split_messages(&message(order, 21, &[])).is_empty());
    assert_eq!(split_messages(&message(order, 20, &[])).len(), 1);
    assert!(split_messages(&message(order, 20, &[])[..19]).is_empty());
}
