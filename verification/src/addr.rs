//! Internet addresses: their values and their text.

use vstd::prelude::*;

use crate::text::{decimal, hexadecimal, push_decimal, push_hexadecimal};

verus! {

/// An Internet address, its bytes in network order.
#[derive(Clone, Copy, Debug, PartialEq, Eq)]
pub enum IpAddr {
    V4([u8; 4]),
    V6([u8; 16]),
}

/// The address of one end of a connection. The last two numbers are in use with IPv6 only.
#[derive(Clone, Copy, Debug, PartialEq, Eq)]
pub struct SocketAddr {
    pub ip: IpAddr,
    pub port: u16,
    pub flowinfo: u32,
    pub scope_id: u32,
}

impl SocketAddr {
    /// The end at `ip` and `port`, with neither flow information nor a scope.
    pub fn new(ip: IpAddr, port: u16) -> (r: SocketAddr)
        ensures
            r == (SocketAddr { ip, port, flowinfo: 0, scope_id: 0 }),
    {
        SocketAddr { ip, port, flowinfo: 0, scope_id: 0 }
    }
}

/// The sixteen bytes `o` are the IPv6 form of an IPv4 address, `::ffff:a.b.c.d`.
pub open spec fn ipv4_mapped(o: Seq<u8>) -> bool {
    &&& forall|i: int| 0 <= i < 10 ==> o[i] == 0
    &&& o[10] == 0xFF
    &&& o[11] == 0xFF
}

/// `ip` with the IPv6 form of an IPv4 address replaced by that IPv4 address.
pub open spec fn normalized(ip: IpAddr, r: IpAddr) -> bool {
    match ip {
        IpAddr::V4(_) => r == ip,
        IpAddr::V6(o) => if ipv4_mapped(o@) {
            r matches IpAddr::V4(v) && v@ == o@.subrange(12, 16)
        } else {
            r == ip
        },
    }
}

/// There is one normal form of an address.
pub proof fn lemma_normalized_once(ip: IpAddr, a: IpAddr, b: IpAddr)
    requires
        normalized(ip, a),
        normalized(ip, b),
    ensures
        a == b,
{
    if let (IpAddr::V4(x), IpAddr::V4(y)) = (a, b) {
        assert(x@ =~= y@);
        assert(x =~= y);
    }
}

/// An address of which the first ten bytes are zero and the next two are `0xFF` becomes the IPv4
/// address of its last four bytes. Every other address stays as it is.
pub proof fn law_mapped_address_becomes_ipv4(ip: IpAddr, r: IpAddr)
    requires
        normalized(ip, r),
    ensures
        match ip {
            IpAddr::V4(_) => r == ip,
            IpAddr::V6(o) => {
                let zeros = forall|i: int| 0 <= i < 10 ==> o@[i] == 0;
                if zeros && o@[10] == 0xFF && o@[11] == 0xFF {
                    r matches IpAddr::V4(v) && v@[0] == o@[12] && v@[1] == o@[13] && v@[2] == o@[14]
                        && v@[3] == o@[15]
                } else {
                    r == ip
                }
            },
        },
{
}

fn is_ipv4_mapped(o: &[u8; 16]) -> (r: bool)
    ensures
        r == ipv4_mapped(o@),
{
    for i in 0..10usize
        invariant
            forall|j: int| 0 <= j < i ==> o@[j] == 0,
    {
        if o[i] != 0 {
            return false;
        }
    }
    o[10] == 0xFF && o[11] == 0xFF
}

/// Turns the IPv6 form of an IPv4 address into that IPv4 address and leaves others as they are.
pub fn normalize_ipv4_mapped_ip(ip: IpAddr) -> (r: IpAddr)
    ensures
        normalized(ip, r),
{
    match ip {
        IpAddr::V4(_) => ip,
        IpAddr::V6(o) => if is_ipv4_mapped(&o) {
            let v: [u8; 4] = [o[12], o[13], o[14], o[15]];
            assert(v@ =~= o@.subrange(12, 16));
            IpAddr::V4(v)
        } else {
            ip
        },
    }
}

/// Four bytes in decimal with dots between them.
pub open spec fn ipv4_text(o: Seq<u8>) -> Seq<char> {
    decimal(o[0] as nat) + "."@ + decimal(o[1] as nat) + "."@ + decimal(o[2] as nat) + "."@
        + decimal(o[3] as nat)
}

/// The eight numbers of two bytes each that an IPv6 address is made of.
pub open spec fn segments(o: Seq<u8>) -> Seq<nat> {
    Seq::new(8, |i: int| (o[2 * i] * 256 + o[2 * i + 1]) as nat)
}

/// Numbers in hexadecimal with colons between them.
pub open spec fn colon_separated(s: Seq<nat>) -> Seq<char>
    decreases s.len(),
{
    if s.len() == 0 {
        Seq::empty()
    } else if s.len() == 1 {
        hexadecimal(s[0])
    } else {
        colon_separated(s.drop_last()) + ":"@ + hexadecimal(s.last())
    }
}

/// How many zeros follow each other in `s` from place `i` on.
pub open spec fn zeros_at(s: Seq<nat>, i: int) -> nat
    decreases s.len() - i,
{
    if 0 <= i < s.len() && s[i] == 0 {
        1 + zeros_at(s, i + 1)
    } else {
        0
    }
}

/// The first longest run of zeros in `s` that starts before place `n`: where, and how long.
pub open spec fn longest_zeros(s: Seq<nat>, n: nat) -> (int, nat)
    decreases n,
{
    if n == 0 {
        (0, 0)
    } else {
        let best = longest_zeros(s, (n - 1) as nat);
        let here = zeros_at(s, n - 1);
        if here > best.1 {
            (n - 1, here)
        } else {
            best
        }
    }
}

/// The text of an IPv6 address: the first longest run of two or more zero segments is written as
/// `::`; the IPv6 form of an IPv4 address ends in that address.
pub open spec fn ipv6_text(o: Seq<u8>) -> Seq<char> {
    let s = segments(o);
    let (start, len) = longest_zeros(s, 8);
    if ipv4_mapped(o) {
        "::ffff:"@ + ipv4_text(o.subrange(12, 16))
    } else if len > 1 {
        colon_separated(s.take(start)) + "::"@ + colon_separated(s.skip(start + len))
    } else {
        colon_separated(s)
    }
}

/// Appends four bytes in decimal with dots between them.
pub fn push_ipv4(out: &mut String, a: u8, b: u8, c: u8, d: u8)
    ensures
        final(out)@ == old(out)@ + ipv4_text(seq![a, b, c, d]),
{
    push_decimal(out, a as u64);
    out.append(".");
    push_decimal(out, b as u64);
    out.append(".");
    push_decimal(out, c as u64);
    out.append(".");
    push_decimal(out, d as u64);
    assert(out@ =~= old(out)@ + ipv4_text(seq![a, b, c, d]));
}

fn count_zeros(s: &[u16; 8], from: usize, Ghost(v): Ghost<Seq<nat>>) -> (r: usize)
    requires
        from <= 8,
        v == s@.map_values(|x: u16| x as nat),
    ensures
        r == zeros_at(v, from as int),
        from + r <= 8,
    decreases 8 - from,
{
    if from < 8 && s[from] == 0 {
        1 + count_zeros(s, from + 1, Ghost(v))
    } else {
        0
    }
}

fn push_colon_separated(
    out: &mut String,
    s: &[u16; 8],
    from: usize,
    to: usize,
    Ghost(v): Ghost<Seq<nat>>,
)
    requires
        from <= to <= 8,
        v == s@.map_values(|x: u16| x as nat),
    ensures
        final(out)@ == old(out)@ + colon_separated(v.subrange(from as int, to as int)),
    decreases to - from,
{
    if from < to {
        let ghost part = v.subrange(from as int, to as int);
        if to - from > 1 {
            push_colon_separated(out, s, from, to - 1, Ghost(v));
            out.append(":");
            assert(part.drop_last() =~= v.subrange(from as int, to - 1));
        }
        push_hexadecimal(out, s[to - 1] as u64);
        assert(out@ =~= old(out)@ + colon_separated(part));
    } else {
        assert(out@ =~= old(out)@ + colon_separated(v.subrange(from as int, to as int)));
    }
}

/// Appends the text of the IPv6 address with the sixteen bytes `o`.
pub fn push_ipv6(out: &mut String, o: &[u8])
    requires
        o@.len() == 16,
    ensures
        final(out)@ == old(out)@ + ipv6_text(o@),
{
    let octets: [u8; 16] = [
        o[0], o[1], o[2], o[3], o[4], o[5], o[6], o[7],
        o[8], o[9], o[10], o[11], o[12], o[13], o[14], o[15],
    ];
    assert(octets@ =~= o@);
    if is_ipv4_mapped(&octets) {
        out.append("::ffff:");
        push_ipv4(out, o[12], o[13], o[14], o[15]);
        assert(seq![o@[12], o@[13], o@[14], o@[15]] =~= o@.subrange(12, 16));
        assert(out@ =~= old(out)@ + ipv6_text(o@));
        return;
    }
    let s: [u16; 8] = [
        o[0] as u16 * 256 + o[1] as u16,
        o[2] as u16 * 256 + o[3] as u16,
        o[4] as u16 * 256 + o[5] as u16,
        o[6] as u16 * 256 + o[7] as u16,
        o[8] as u16 * 256 + o[9] as u16,
        o[10] as u16 * 256 + o[11] as u16,
        o[12] as u16 * 256 + o[13] as u16,
        o[14] as u16 * 256 + o[15] as u16,
    ];
    let ghost v = segments(o@);
    assert(v =~= s@.map_values(|x: u16| x as nat));
    let mut start: usize = 0;
    let mut len: usize = 0;
    for i in 0..8usize
        invariant
            v == s@.map_values(|x: u16| x as nat),
            (start as int, len as nat) == longest_zeros(v, i as nat),
            start + len <= 8,
    {
        let here: usize = count_zeros(&s, i, Ghost(v));
        if here > len {
            start = i;
            len = here;
        }
    }
    if len > 1 {
        push_colon_separated(out, &s, 0, start, Ghost(v));
        out.append("::");
        push_colon_separated(out, &s, start + len, 8, Ghost(v));
        assert(v.subrange(0, start as int) =~= v.take(start as int));
        assert(v.subrange(start + len, 8) =~= v.skip(start + len));
        assert(out@ =~= old(out)@ + ipv6_text(o@));
    } else {
        push_colon_separated(out, &s, 0, 8, Ghost(v));
        assert(v.subrange(0, 8) =~= v);
    }
}

} // verus!
