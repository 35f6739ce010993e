//! What written numbers and addresses are read back as.

use vstd::prelude::*;

use crate::addr::{
    colon_separated, ipv4_mapped, ipv4_text, ipv6_text, longest_zeros, segments, zeros_at,
};
use crate::text::{
    blank, decimal, digit_char, hexadecimal, is_white_space, numeral, signed_decimal,
};

verus! {

/// The value of a digit in the given base, in lower case.
pub open spec fn digit_value(c: char, base: nat) -> Option<nat> {
    let n = c as nat;
    let value = if '0' <= c <= '9' {
        Some((n - '0' as nat) as nat)
    } else if 'a' <= c <= 'f' {
        Some((n - 'a' as nat + 10) as nat)
    } else {
        None
    };
    match value {
        Some(v) => if v < base {
            Some(v)
        } else {
            None
        },
        None => None,
    }
}

/// The number that `t` spells in the given base: one or more digits, of which the first is no zero
/// unless it is the only one.
pub open spec fn number_of(t: Seq<char>, base: nat) -> Option<nat> {
    if t.len() > 1 && t[0] == '0' {
        None
    } else {
        digits_of(t, base)
    }
}

/// The number that digits spell, the most significant first.
pub open spec fn digits_of(t: Seq<char>, base: nat) -> Option<nat>
    decreases t.len(),
{
    if t.len() == 0 {
        None
    } else if t.len() == 1 {
        digit_value(t[0], base)
    } else {
        match (digits_of(t.drop_last(), base), digit_value(t.last(), base)) {
            (Some(high), Some(low)) => Some(base * high + low),
            _ => None,
        }
    }
}

/// A digit stands for its value.
proof fn lemma_digit(d: nat, base: nat)
    requires
        d < base <= 16,
    ensures
        digit_value(digit_char(d), base) == Some(d),
        digit_char(d) == '0' <==> d == 0,
        digit_char(d) != ':' && digit_char(d) != '.',
        digit_char(d) != '-' && digit_char(d) != '/',
{
}

/// A number that was written in any base up to sixteen is read back, and there is one way to write
/// it.
pub proof fn law_numeral_reads_back(n: nat, base: nat)
    requires
        2 <= base <= 16,
    ensures
        number_of(numeral(n, base), base) == Some(n),
        forall|i: int|
            0 <= i < numeral(n, base).len() ==> (#[trigger] numeral(n, base)[i]) != ':' && numeral(
                n,
                base,
            )[i] != '.' && numeral(n, base)[i] != '-' && numeral(n, base)[i] != '/',
{
    lemma_numeral(n, base);
}

proof fn lemma_numeral(n: nat, base: nat)
    requires
        2 <= base <= 16,
    ensures
        digits_of(numeral(n, base), base) == Some(n),
        numeral(n, base).len() >= 1,
        numeral(n, base)[0] == '0' <==> n == 0,
        n == 0 ==> numeral(n, base).len() == 1,
        forall|i: int|
            0 <= i < numeral(n, base).len() ==> (#[trigger] numeral(n, base)[i]) != ':' && numeral(
                n,
                base,
            )[i] != '.' && numeral(n, base)[i] != '-' && numeral(n, base)[i] != '/',
    decreases n,
{
    if n < base {
        lemma_digit(n, base);
    } else {
        assert(n / base < n && n / base >= 1) by (nonlinear_arith)
            requires
                n >= base,
                base >= 2,
        ;
        assert(n % base < base) by (nonlinear_arith)
            requires
                base >= 2,
        ;
        vstd::arithmetic::div_mod::lemma_fundamental_div_mod(n as int, base as int);
        lemma_numeral(n / base, base);
        lemma_digit(n % base, base);
        let t = numeral(n, base);
        assert(t.drop_last() =~= numeral(n / base, base));
    }
}

/// A number with a sign that was written is read back: a minus sign stands in front of it if and
/// only if it is negative, and the digits are those of its size.
pub proof fn law_signed_decimal_reads_back(n: int)
    ensures
        n >= 0 ==> number_of(signed_decimal(n), 10) == Some(n as nat),
        n < 0 ==> signed_decimal(n)[0] == '-' && number_of(signed_decimal(n).skip(1), 10) == Some(
            (-n) as nat,
        ),
{
    if n >= 0 {
        law_numeral_reads_back(n as nat, 10);
    } else {
        law_numeral_reads_back((-n) as nat, 10);
        assert(signed_decimal(n).skip(1) =~= decimal((-n) as nat));
    }
}

/// The characters that count as white space.
pub open spec fn listed_white_space(c: char) -> bool {
    ||| c == '\t' || c == '\n' || c == '\u{B}' || c == '\u{C}' || c == '\r' || c == ' '
    ||| c == '\u{85}' || c == '\u{A0}' || c == '\u{1680}'
    ||| '\u{2000}' <= c <= '\u{200A}'
    ||| c == '\u{2028}' || c == '\u{2029}' || c == '\u{202F}' || c == '\u{205F}'
    ||| c == '\u{3000}'
}

proof fn lemma_white_space(c: char)
    ensures
        is_white_space(c) == listed_white_space(c),
{
}

/// A text is blank if and only if it holds none but the listed characters.
pub proof fn law_blank_text_is_white_space(t: Seq<char>)
    ensures
        blank(t) <==> forall|i: int| 0 <= i < t.len() ==> listed_white_space(#[trigger] t[i]),
{
    assert forall|i: int| 0 <= i < t.len() implies is_white_space(#[trigger] t[i])
        == listed_white_space(t[i]) by {
        lemma_white_space(t[i]);
    }
}

/// The parts of `t` between the marks, in order. There is one more than there are marks.
pub open spec fn parts(t: Seq<char>, mark: char) -> Seq<Seq<char>>
    decreases t.len(),
{
    if t.len() == 0 {
        seq![Seq::empty()]
    } else {
        let before = parts(t.drop_last(), mark);
        if t.last() == mark {
            before.push(Seq::empty())
        } else {
            before.drop_last().push(before.last().push(t.last()))
        }
    }
}

spec fn without(t: Seq<char>, mark: char) -> bool {
    forall|i: int| 0 <= i < t.len() ==> #[trigger] t[i] != mark
}

proof fn lemma_parts_extend(t: Seq<char>, u: Seq<char>, mark: char)
    requires
        without(u, mark),
    ensures
        parts(t, mark).len() >= 1,
        parts(t + u, mark) == parts(t, mark).drop_last().push(parts(t, mark).last() + u),
    decreases t.len() + u.len(), u.len(),
{
    if u.len() == 0 {
        assert(t + u =~= t);
        if t.len() > 0 {
            lemma_parts_extend(t.drop_last(), Seq::empty(), mark);
        }
        assert(parts(t, mark).last() + u =~= parts(t, mark).last());
        assert(parts(t, mark).drop_last().push(parts(t, mark).last()) =~= parts(t, mark));
    } else {
        let v = u.drop_last();
        assert forall|i: int| 0 <= i < v.len() implies #[trigger] v[i] != mark by {
            assert(v[i] == u[i]);
        }
        lemma_parts_extend(t, v, mark);
        assert((t + u).drop_last() =~= t + v);
        assert((t + u).last() == u.last());
        assert(u[u.len() - 1] != mark);
        let p = parts(t, mark);
        assert(parts(t + v, mark).drop_last() =~= p.drop_last());
        assert((p.last() + v).push(u.last()) =~= p.last() + u);
    }
}

/// A mark and what follows it without another mark make up one more part.
proof fn lemma_parts_marked(t: Seq<char>, mark: char, u: Seq<char>)
    requires
        without(u, mark),
    ensures
        parts(t.push(mark) + u, mark) == parts(t, mark).push(u),
{
    let s = t.push(mark);
    assert(s.drop_last() =~= t);
    assert(parts(s, mark) == parts(t, mark).push(Seq::empty()));
    lemma_parts_extend(s, u, mark);
    assert(Seq::<char>::empty() + u =~= u);
    assert(parts(s, mark).drop_last() =~= parts(t, mark));
}

proof fn lemma_parts_single(u: Seq<char>, mark: char)
    requires
        without(u, mark),
    ensures
        parts(u, mark) == seq![u],
{
    let none = Seq::<char>::empty();
    lemma_parts_extend(none, u, mark);
    assert(none + u =~= u);
    assert(parts(none, mark).drop_last().push(none + u) =~= seq![u]);
}

/// The four bytes that `t` spells as an IPv4 address: four numbers in decimal with dots between
/// them.
#[verifier::opaque]
pub open spec fn read_ipv4(t: Seq<char>) -> Option<Seq<u8>> {
    let p = parts(t, '.');
    if p.len() != 4 {
        None
    } else {
        match (number_of(p[0], 10), number_of(p[1], 10), number_of(p[2], 10), number_of(p[3], 10)) {
            (Some(a), Some(b), Some(c), Some(d)) => if a < 256 && b < 256 && c < 256 && d < 256 {
                Some(seq![a as u8, b as u8, c as u8, d as u8])
            } else {
                None
            },
            _ => None,
        }
    }
}

proof fn lemma_decimal(n: nat)
    ensures
        number_of(decimal(n), 10) == Some(n),
        without(decimal(n), '.'),
        without(decimal(n), ':'),
        without(decimal(n), '/'),
        decimal(n).len() >= 1,
{
    lemma_numeral(n, 10);
}

proof fn lemma_ipv4_parts(o: Seq<u8>)
    requires
        o.len() == 4,
    ensures
        parts(ipv4_text(o), '.') == seq![
            decimal(o[0] as nat),
            decimal(o[1] as nat),
            decimal(o[2] as nat),
            decimal(o[3] as nat),
        ],
        without(ipv4_text(o), ':'),
        without(ipv4_text(o), '/'),
{
    reveal_strlit(".");
    let a = decimal(o[0] as nat);
    let b = decimal(o[1] as nat);
    let c = decimal(o[2] as nat);
    let d = decimal(o[3] as nat);
    lemma_decimal(o[0] as nat);
    lemma_decimal(o[1] as nat);
    lemma_decimal(o[2] as nat);
    lemma_decimal(o[3] as nat);
    lemma_parts_single(a, '.');
    let ab = a.push('.') + b;
    lemma_parts_marked(a, '.', b);
    let abc = ab.push('.') + c;
    lemma_parts_marked(ab, '.', c);
    lemma_parts_marked(abc, '.', d);
    assert(ipv4_text(o) =~= abc.push('.') + d);
    assert(parts(ipv4_text(o), '.') =~= seq![a, b, c, d]);
}

/// An IPv4 address that was written is read back.
pub proof fn law_ipv4_text_reads_back(o: Seq<u8>)
    requires
        o.len() == 4,
    ensures
        read_ipv4(ipv4_text(o)) == Some(o),
{
    reveal(read_ipv4);
    lemma_ipv4_parts(o);
    lemma_decimal(o[0] as nat);
    lemma_decimal(o[1] as nat);
    lemma_decimal(o[2] as nat);
    lemma_decimal(o[3] as nat);
    assert(seq![o[0], o[1], o[2], o[3]] =~= o);
}

/// The numbers that the parts of an IPv6 address spell: up to four hexadecimal digits each. The
/// last part may be an IPv4 address instead, and then spells two numbers.
pub open spec fn read_groups(p: Seq<Seq<char>>) -> Option<Seq<nat>>
    decreases p.len(),
{
    if p.len() == 0 {
        Some(Seq::empty())
    } else {
        match (read_hex_groups(p.drop_last()), read_ipv4(p.last())) {
            (Some(g), Some(o)) => Some(
                g.push((o[0] * 256 + o[1]) as nat).push((o[2] * 256 + o[3]) as nat),
            ),
            _ => read_hex_groups(p),
        }
    }
}

/// The numbers that parts of up to four hexadecimal digits spell.
pub open spec fn read_hex_groups(p: Seq<Seq<char>>) -> Option<Seq<nat>>
    decreases p.len(),
{
    if p.len() == 0 {
        Some(Seq::empty())
    } else {
        match (read_hex_groups(p.drop_last()), number_of(p.last(), 16)) {
            (Some(g), Some(n)) => if p.last().len() <= 4 {
                Some(g.push(n))
            } else {
                None
            },
            _ => None,
        }
    }
}

/// How many parts at the start hold something.
pub open spec fn leading_parts(p: Seq<Seq<char>>) -> nat
    decreases p.len(),
{
    if p.len() == 0 || p[0].len() == 0 {
        0
    } else {
        1 + leading_parts(p.drop_first())
    }
}

/// How many parts at the end hold something.
pub open spec fn trailing_parts(p: Seq<Seq<char>>) -> nat
    decreases p.len(),
{
    if p.len() == 0 || p.last().len() == 0 {
        0
    } else {
        1 + trailing_parts(p.drop_last())
    }
}

/// The eight numbers that the parts of an IPv6 address spell. Two colons in a row, once, stand for
/// the zeros that are missing.
#[verifier::opaque]
pub open spec fn read_eight(p: Seq<Seq<char>>) -> Option<Seq<nat>> {
    let n = p.len();
    let front = leading_parts(p);
    if front == n {
        match read_groups(p) {
            Some(g) => if g.len() == 8 {
                Some(g)
            } else {
                None
            },
            None => None,
        }
    } else {
        let back = trailing_parts(p);
        let hollow = n - front - back;
        let middle = p.subrange(front as int, n - back);
        if !(forall|i: int| 0 <= i < middle.len() ==> (#[trigger] middle[i]).len() == 0) {
            None
        } else if hollow != 1 + (if front == 0 {
            1int
        } else {
            0
        }) + (if back == 0 {
            1int
        } else {
            0
        }) {
            None
        } else {
            match (read_hex_groups(p.take(front as int)), read_groups(p.skip(n - back))) {
                (Some(a), Some(b)) => if a.len() + b.len() < 8 {
                    Some(a + Seq::new((8 - a.len() - b.len()) as nat, |i: int| 0nat) + b)
                } else {
                    None
                },
                _ => None,
            }
        }
    }
}

/// The sixteen bytes that `t` spells as an IPv6 address.
#[verifier::opaque]
pub open spec fn read_ipv6(t: Seq<char>) -> Option<Seq<u8>> {
    match read_eight(parts(t, ':')) {
        Some(g) => Some(
            Seq::new(
                16,
                |i: int|
                    if i % 2 == 0 {
                        (g[i / 2] / 256) as u8
                    } else {
                        (g[i / 2] % 256) as u8
                    },
            ),
        ),
        None => None,
    }
}

/// The texts of numbers in hexadecimal.
pub open spec fn hex_texts(s: Seq<nat>) -> Seq<Seq<char>> {
    Seq::new(s.len(), |i: int| hexadecimal(s[i]))
}

proof fn lemma_hexadecimal(n: nat)
    requires
        n < 0x1_0000,
    ensures
        number_of(hexadecimal(n), 16) == Some(n),
        without(hexadecimal(n), ':'),
        without(hexadecimal(n), '.'),
        without(hexadecimal(n), '/'),
        1 <= hexadecimal(n).len() <= 4,
{
    lemma_numeral(n, 16);
    assert(n / 16 / 16 / 16 / 16 == 0);
    reveal_with_fuel(numeral, 5);
}

proof fn lemma_colon_separated(s: Seq<nat>)
    requires
        s.len() > 0,
        forall|i: int| 0 <= i < s.len() ==> #[trigger] s[i] < 0x1_0000,
    ensures
        parts(colon_separated(s), ':') == hex_texts(s),
        without(colon_separated(s), '/'),
    decreases s.len(),
{
    reveal_strlit(":");
    lemma_hexadecimal(s[s.len() - 1]);
    if s.len() == 1 {
        lemma_parts_single(hexadecimal(s[0]), ':');
        assert(hex_texts(s) =~= seq![hexadecimal(s[0])]);
    } else {
        let front = s.drop_last();
        assert forall|i: int| 0 <= i < front.len() implies #[trigger] front[i] < 0x1_0000 by {
            assert(front[i] == s[i]);
        }
        lemma_colon_separated(front);
        lemma_parts_marked(colon_separated(front), ':', hexadecimal(s.last()));
        assert(colon_separated(s) =~= colon_separated(front).push(':') + hexadecimal(s.last()));
        assert(hex_texts(s) =~= hex_texts(front).push(hexadecimal(s.last())));
    }
}

/// Putting a mark between two texts puts their parts side by side.
proof fn lemma_parts_joined(t: Seq<char>, mark: char, u: Seq<char>)
    ensures
        parts(t.push(mark) + u, mark) == parts(t, mark) + parts(u, mark),
        parts(u, mark).len() >= 1,
    decreases u.len(),
{
    let s = t.push(mark);
    if u.len() == 0 {
        assert(s + u =~= s);
        assert(s.drop_last() =~= t);
        assert(parts(t, mark) + parts(u, mark) =~= parts(t, mark).push(Seq::empty()));
    } else {
        let v = u.drop_last();
        lemma_parts_joined(t, mark, v);
        assert((s + u).drop_last() =~= s + v);
        assert((s + u).last() == u.last());
        let a = parts(t, mark);
        let b = parts(v, mark);
        if u.last() == mark {
            assert((a + b).push(Seq::empty()) =~= a + b.push(Seq::empty()));
        } else {
            assert((a + b).last() == b.last());
            assert((a + b).drop_last().push(b.last().push(u.last())) =~= a + b.drop_last().push(
                b.last().push(u.last()),
            ));
        }
    }
}

proof fn lemma_read_hex_groups(s: Seq<nat>)
    requires
        forall|i: int| 0 <= i < s.len() ==> #[trigger] s[i] < 0x1_0000,
    ensures
        read_hex_groups(hex_texts(s)) == Some(s),
    decreases s.len(),
{
    if s.len() == 0 {
        assert(s =~= Seq::empty());
    } else {
        let front = s.drop_last();
        assert forall|i: int| 0 <= i < front.len() implies #[trigger] front[i] < 0x1_0000 by {
            assert(front[i] == s[i]);
        }
        lemma_read_hex_groups(front);
        assert(s[s.len() - 1] < 0x1_0000);
        lemma_hexadecimal(s.last());
        assert(hex_texts(s).drop_last() =~= hex_texts(front));
        assert(front.push(s.last()) =~= s);
    }
}

proof fn lemma_hex_is_no_ipv4(n: nat)
    requires
        n < 0x1_0000,
    ensures
        read_ipv4(hexadecimal(n)) is None,
{
    reveal(read_ipv4);
    lemma_hexadecimal(n);
    lemma_parts_single(hexadecimal(n), '.');
}

proof fn lemma_read_groups(s: Seq<nat>)
    requires
        forall|i: int| 0 <= i < s.len() ==> #[trigger] s[i] < 0x1_0000,
    ensures
        read_groups(hex_texts(s)) == Some(s),
{
    lemma_read_hex_groups(s);
    if s.len() > 0 {
        assert(s[s.len() - 1] < 0x1_0000);
        lemma_hex_is_no_ipv4(s.last());
        assert(hex_texts(s).last() == hexadecimal(s.last()));
    } else {
        assert(s =~= Seq::empty());
    }
}

/// Parts that hold something, with a part that holds nothing behind them or nothing at all.
proof fn lemma_leading(a: Seq<Seq<char>>, b: Seq<Seq<char>>)
    requires
        forall|i: int| 0 <= i < a.len() ==> (#[trigger] a[i]).len() > 0,
        b.len() == 0 || b[0].len() == 0,
    ensures
        leading_parts(a + b) == a.len(),
    decreases a.len(),
{
    if a.len() == 0 {
        assert(a + b =~= b);
    } else {
        let c = a.drop_first();
        assert forall|i: int| 0 <= i < c.len() implies (#[trigger] c[i]).len() > 0 by {
            assert(c[i] == a[i + 1]);
        }
        lemma_leading(c, b);
        assert((a + b).drop_first() =~= c + b);
        assert((a + b)[0] == a[0]);
    }
}

proof fn lemma_trailing(b: Seq<Seq<char>>, a: Seq<Seq<char>>)
    requires
        forall|i: int| 0 <= i < a.len() ==> (#[trigger] a[i]).len() > 0,
        b.len() == 0 || b.last().len() == 0,
    ensures
        trailing_parts(b + a) == a.len(),
    decreases a.len(),
{
    if a.len() == 0 {
        assert(b + a =~= b);
    } else {
        let c = a.drop_last();
        assert forall|i: int| 0 <= i < c.len() implies (#[trigger] c[i]).len() > 0 by {
            assert(c[i] == a[i]);
        }
        lemma_trailing(b, c);
        assert((b + a).drop_last() =~= b + c);
        assert((b + a).last() == a.last());
        assert(a[a.len() - 1].len() > 0);
    }
}

/// The parts that stand for two colons in a row: one that holds nothing, and one more at each end
/// that has no number next to it.
spec fn hollow_parts(front: bool, back: bool) -> Seq<Seq<char>> {
    Seq::new(
        1 + (if front {
            0nat
        } else {
            1
        }) + (if back {
            0nat
        } else {
            1
        }),
        |i: int| Seq::<char>::empty(),
    )
}

/// The parts of two texts with two colons between them.
proof fn lemma_double_colon(t: Seq<char>, u: Seq<char>, a: Seq<Seq<char>>, b: Seq<Seq<char>>)
    requires
        if t.len() == 0 {
            a.len() == 0
        } else {
            a.len() > 0 && parts(t, ':') == a
        },
        if u.len() == 0 {
            b.len() == 0
        } else {
            b.len() > 0 && parts(u, ':') == b
        },
    ensures
        parts(t + "::"@ + u, ':') == a + hollow_parts(a.len() > 0, b.len() > 0) + b,
{
    reveal_strlit("::");
    let none = Seq::<char>::empty();
    lemma_parts_joined(none, ':', u);
    lemma_parts_joined(t, ':', none.push(':') + u);
    assert(t.push(':') + (none.push(':') + u) =~= t + "::"@ + u);
    assert(parts(none, ':') =~= seq![none]);
    assert(parts(t + "::"@ + u, ':') == parts(t, ':') + (seq![none] + parts(u, ':')));
    assert(parts(t, ':') + (seq![none] + parts(u, ':')) =~= a + hollow_parts(
        a.len() > 0,
        b.len() > 0,
    ) + b);
}

/// Two texts of numbers with two colons between them spell those numbers with zeros between them.
proof fn lemma_read_compressed(
    a: Seq<Seq<char>>,
    b: Seq<Seq<char>>,
    left: Seq<nat>,
    right: Seq<nat>,
)
    requires
        forall|i: int| 0 <= i < a.len() ==> (#[trigger] a[i]).len() > 0,
        forall|i: int| 0 <= i < b.len() ==> (#[trigger] b[i]).len() > 0,
        read_hex_groups(a) == Some(left),
        read_groups(b) == Some(right),
        left.len() + right.len() < 8,
    ensures
        ({
            let p = a + hollow_parts(a.len() > 0, b.len() > 0) + b;
            &&& leading_parts(p) == a.len()
            &&& trailing_parts(p) == b.len()
            &&& p.len() > a.len() + b.len()
            &&& read_eight(p) == Some(
                left + Seq::new((8 - left.len() - right.len()) as nat, |i: int| 0nat) + right,
            )
        }),
{
    reveal(read_eight);
    let h = hollow_parts(a.len() > 0, b.len() > 0);
    let p = a + h + b;
    assert(h[0].len() == 0);
    assert(h.last().len() == 0);
    lemma_leading(a, h + b);
    assert(a + (h + b) =~= p);
    assert((a + h).last() == h.last());
    lemma_trailing(a + h, b);
    let middle = p.subrange(a.len() as int, p.len() - b.len());
    assert(middle =~= h);
    assert(p.take(a.len() as int) =~= a);
    assert(p.skip(p.len() - b.len()) =~= b);
}

proof fn lemma_zeros(s: Seq<nat>, i: int)
    requires
        0 <= i <= s.len(),
    ensures
        i + zeros_at(s, i) <= s.len(),
        forall|j: int| i <= j < i + zeros_at(s, i) ==> #[trigger] s[j] == 0,
        i + zeros_at(s, i) < s.len() ==> s[i + zeros_at(s, i)] != 0,
    decreases s.len() - i,
{
    if i < s.len() && s[i] == 0 {
        lemma_zeros(s, i + 1);
    }
}

proof fn lemma_longest(s: Seq<nat>, n: nat)
    requires
        n <= s.len(),
    ensures
        ({
            let (start, len) = longest_zeros(s, n);
            &&& 0 <= start
            &&& len > 0 ==> start < n
            &&& start + len <= s.len()
            &&& len > 0 ==> len == zeros_at(s, start)
            &&& forall|i: int| 0 <= i < n ==> #[trigger] zeros_at(s, i) <= len
            &&& forall|i: int| 0 <= i < start ==> #[trigger] zeros_at(s, i) < len
        }),
    decreases n,
{
    if n > 0 {
        lemma_longest(s, (n - 1) as nat);
        lemma_zeros(s, n - 1);
    }
}

proof fn lemma_segments(o: Seq<u8>)
    requires
        o.len() == 16,
    ensures
        segments(o).len() == 8,
        forall|i: int| 0 <= i < 8 ==> #[trigger] segments(o)[i] < 0x1_0000,
        forall|i: int| 0 <= i < 8 ==> #[trigger] segments(o)[i] == o[2 * i] * 256 + o[2 * i + 1],
{
}

/// Numbers of two bytes give back the bytes that they were made of.
proof fn lemma_bytes_of_segments(o: Seq<u8>)
    requires
        o.len() == 16,
    ensures
        Seq::new(
            16,
            |i: int|
                if i % 2 == 0 {
                    (segments(o)[i / 2] / 256) as u8
                } else {
                    (segments(o)[i / 2] % 256) as u8
                },
        ) == o,
{
    lemma_segments(o);
    let back = Seq::new(
        16,
        |i: int|
            if i % 2 == 0 {
                (segments(o)[i / 2] / 256) as u8
            } else {
                (segments(o)[i / 2] % 256) as u8
            },
    );
    assert forall|i: int| 0 <= i < 16 implies back[i] == o[i] by {
        let k = i / 2;
        assert(segments(o)[k] == o[2 * k] * 256 + o[2 * k + 1]);
        assert(i == 2 * k || i == 2 * k + 1);
    }
    assert(back =~= o);
}

proof fn lemma_hex_texts_hold_something(s: Seq<nat>)
    requires
        forall|i: int| 0 <= i < s.len() ==> #[trigger] s[i] < 0x1_0000,
    ensures
        forall|i: int| 0 <= i < s.len() ==> (#[trigger] hex_texts(s)[i]).len() > 0,
{
    assert forall|i: int| 0 <= i < s.len() implies (#[trigger] hex_texts(s)[i]).len() > 0 by {
        assert(s[i] < 0x1_0000);
        lemma_hexadecimal(s[i]);
    }
}

/// The text of an address that is no IPv4 address in IPv6 form, by its parts.
proof fn lemma_ipv6_parts(o: Seq<u8>)
    requires
        o.len() == 16,
        !ipv4_mapped(o),
    ensures
        ({
            let s = segments(o);
            let (start, len) = longest_zeros(s, 8);
            let p = parts(ipv6_text(o), ':');
            if len > 1 {
                let a = hex_texts(s.take(start));
                let b = hex_texts(s.skip(start + len));
                p == a + hollow_parts(a.len() > 0, b.len() > 0) + b
            } else {
                p == hex_texts(s)
            }
        }),
{
    let s = segments(o);
    let (start, len) = longest_zeros(s, 8);
    lemma_segments(o);
    lemma_longest(s, 8);
    if len > 1 {
        let x = s.take(start);
        let y = s.skip(start + len);
        assert forall|i: int| 0 <= i < x.len() implies #[trigger] x[i] < 0x1_0000 by {
            assert(x[i] == s[i]);
        }
        assert forall|i: int| 0 <= i < y.len() implies #[trigger] y[i] < 0x1_0000 by {
            assert(y[i] == s[start + len + i]);
        }
        lemma_separated(x);
        lemma_separated(y);
        lemma_double_colon(colon_separated(x), colon_separated(y), hex_texts(x), hex_texts(y));
    } else {
        lemma_colon_separated(s);
    }
}

proof fn lemma_separated(s: Seq<nat>)
    requires
        forall|i: int| 0 <= i < s.len() ==> #[trigger] s[i] < 0x1_0000,
    ensures
        if s.len() == 0 {
            colon_separated(s).len() == 0
        } else {
            colon_separated(s).len() > 0 && parts(colon_separated(s), ':') == hex_texts(s)
        },
{
    if s.len() > 0 {
        lemma_colon_separated(s);
        assert(s[s.len() - 1] < 0x1_0000);
        lemma_hexadecimal(s.last());
    }
}

/// Eight numbers that were written in full are read back.
proof fn lemma_read_full(s: Seq<nat>)
    requires
        s.len() == 8,
        forall|i: int| 0 <= i < s.len() ==> #[trigger] s[i] < 0x1_0000,
    ensures
        read_eight(hex_texts(s)) == Some(s),
{
    reveal(read_eight);
    lemma_read_groups(s);
    lemma_hex_texts_hold_something(s);
    lemma_leading(hex_texts(s), Seq::empty());
    assert(hex_texts(s) + Seq::<Seq<char>>::empty() =~= hex_texts(s));
}

/// Eight numbers of which some zeros in a row are left out are read back.
proof fn lemma_read_without_zeros(s: Seq<nat>, start: int, len: nat)
    requires
        s.len() == 8,
        forall|i: int| 0 <= i < s.len() ==> #[trigger] s[i] < 0x1_0000,
        0 <= start,
        1 <= len,
        start + len <= 8,
        forall|i: int| start <= i < start + len ==> #[trigger] s[i] == 0,
    ensures
        ({
            let a = hex_texts(s.take(start));
            let b = hex_texts(s.skip(start + len));
            read_eight(a + hollow_parts(a.len() > 0, b.len() > 0) + b) == Some(s)
        }),
{
    let x = s.take(start);
    let y = s.skip(start + len);
    assert forall|i: int| 0 <= i < x.len() implies #[trigger] x[i] < 0x1_0000 by {
        assert(x[i] == s[i]);
    }
    assert forall|i: int| 0 <= i < y.len() implies #[trigger] y[i] < 0x1_0000 by {
        assert(y[i] == s[start + len + i]);
    }
    lemma_read_hex_groups(x);
    lemma_read_groups(y);
    lemma_hex_texts_hold_something(x);
    lemma_hex_texts_hold_something(y);
    lemma_read_compressed(hex_texts(x), hex_texts(y), x, y);
    assert(x + Seq::new((8 - x.len() - y.len()) as nat, |i: int| 0nat) + y =~= s);
}

/// The text of an address spells its eight numbers.
proof fn lemma_eight(o: Seq<u8>)
    requires
        o.len() == 16,
    ensures
        read_eight(parts(ipv6_text(o), ':')) == Some(segments(o)),
{
    let s = segments(o);
    lemma_segments(o);
    if ipv4_mapped(o) {
        lemma_mapped_reads_back(o);
    } else {
        let (start, len) = longest_zeros(s, 8);
        lemma_ipv6_parts(o);
        lemma_longest(s, 8);
        if len > 1 {
            lemma_zeros(s, start);
            lemma_read_without_zeros(s, start, len);
        } else {
            lemma_read_full(s);
        }
    }
}

/// An IPv6 address that was written is read back, whichever it is: the text spells its sixteen
/// bytes.
pub proof fn law_ipv6_text_reads_back(o: Seq<u8>)
    requires
        o.len() == 16,
    ensures
        read_ipv6(ipv6_text(o)) == Some(o),
{
    reveal(read_ipv6);
    lemma_eight(o);
    lemma_bytes_of_segments(o);
}

proof fn lemma_mapped_reads_back(o: Seq<u8>)
    requires
        o.len() == 16,
        ipv4_mapped(o),
    ensures
        read_eight(parts(ipv6_text(o), ':')) == Some(segments(o)),
{
    reveal_strlit("::ffff:");
    reveal_strlit("::");
    let four = o.subrange(12, 16);
    let text = ipv4_text(four);
    let none = Seq::<char>::empty();
    let word = seq!['f', 'f', 'f', 'f'];
    let u = word.push(':') + text;
    assert(ipv6_text(o) =~= none + "::"@ + u);
    law_ipv4_text_reads_back(four);
    lemma_ipv4_parts(four);
    lemma_decimal(four[0] as nat);
    assert(text.len() > 0);
    lemma_parts_single(word, ':');
    lemma_parts_marked(word, ':', text);
    let b = seq![word, text];
    assert(parts(u, ':') =~= b);
    lemma_double_colon(none, u, Seq::empty(), b);
    let left = Seq::<nat>::empty();
    let right = seq![
        0xFFFFnat,
        (o[12] * 256 + o[13]) as nat,
        (o[14] * 256 + o[15]) as nat,
    ];
    assert(read_hex_groups(b.drop_last()) == Some(seq![0xFFFFnat])) by {
        assert(b.drop_last() =~= seq![word]);
        assert(seq![word].drop_last() =~= Seq::<Seq<char>>::empty());
        lemma_word(word);
        assert(seq![word].last() == word);
        assert(read_hex_groups(seq![word].drop_last()) == Some(Seq::<nat>::empty()));
        assert(Seq::<nat>::empty().push(0xFFFF) =~= seq![0xFFFFnat]);
    }
    assert(b.last() == text);
    assert(read_groups(b) == Some(right)) by {
        assert(seq![0xFFFFnat].push((four[0] * 256 + four[1]) as nat).push(
            (four[2] * 256 + four[3]) as nat,
        ) =~= right);
    }
    lemma_read_compressed(Seq::empty(), b, left, right);
    lemma_segments(o);
    assert(left + Seq::new(5, |i: int| 0nat) + right =~= segments(o));
}

/// The word `ffff` spells the largest number of two bytes.
proof fn lemma_word(word: Seq<char>)
    requires
        word == seq!['f', 'f', 'f', 'f'],
    ensures
        number_of(word, 16) == Some(0xFFFFnat),
{
    let three = word.drop_last();
    let two = three.drop_last();
    let one = two.drop_last();
    assert(digits_of(one, 16) == Some(15nat));
    assert(digits_of(two, 16) == Some(0xFFnat));
    assert(digits_of(three, 16) == Some(0xFFFnat));
}

/// Two colons in the text of an IPv6 address stand for the first of its longest runs of zeros: none
/// of two or more zeros is longer, none as long starts earlier. They are there wherever there is
/// such a run.
pub proof fn law_ipv6_text_is_canonical(o: Seq<u8>, i: int, k: nat)
    requires
        o.len() == 16,
        !ipv4_mapped(o),
        0 <= i,
        2 <= k,
        i + k <= 8,
        forall|j: int| 2 * i <= j < 2 * (i + k) ==> #[trigger] o[j] == 0,
    ensures
        ({
            let p = parts(ipv6_text(o), ':');
            let front = leading_parts(p);
            let back = trailing_parts(p);
            &&& front < p.len()
            &&& k <= 8 - front - back
            &&& k == 8 - front - back ==> front <= i
            &&& front > 0 ==> segments(o)[front - 1] != 0
        }),
{
    let s = segments(o);
    let (start, len) = longest_zeros(s, 8);
    lemma_segments(o);
    lemma_longest(s, 8);
    lemma_ipv6_parts(o);
    assert forall|j: int| i <= j < i + k implies s[j] == 0 by {
        assert(o[2 * j] == 0 && o[2 * j + 1] == 0);
        assert(s[j] == o[2 * j] * 256 + o[2 * j + 1]);
    }
    lemma_run_is_counted(s, i, k);
    lemma_zeros(s, start);
    let x = s.take(start);
    let y = s.skip(start + len);
    assert forall|j: int| 0 <= j < x.len() implies #[trigger] x[j] < 0x1_0000 by {
        assert(x[j] == s[j]);
    }
    assert forall|j: int| 0 <= j < y.len() implies #[trigger] y[j] < 0x1_0000 by {
        assert(y[j] == s[start + len + j]);
    }
    lemma_read_hex_groups(x);
    lemma_read_groups(y);
    lemma_hex_texts_hold_something(x);
    lemma_hex_texts_hold_something(y);
    lemma_read_compressed(hex_texts(x), hex_texts(y), x, y);
    if start > 0 && s[start - 1] == 0 {
        lemma_longer_run(s, start);
        assert(zeros_at(s, start - 1) > len);
    }
}

proof fn lemma_longer_run(s: Seq<nat>, i: int)
    requires
        0 < i <= s.len(),
        s[i - 1] == 0,
    ensures
        zeros_at(s, i - 1) == 1 + zeros_at(s, i),
{
}

proof fn lemma_run_is_counted(s: Seq<nat>, i: int, k: nat)
    requires
        0 <= i,
        i + k <= s.len(),
        forall|j: int| i <= j < i + k ==> s[j] == 0,
    ensures
        zeros_at(s, i) >= k,
    decreases k,
{
    if k > 0 {
        lemma_run_is_counted(s, i + 1, (k - 1) as nat);
    }
}

/// An IPv6 address without two zeros in a row is written in full: eight numbers in hexadecimal with
/// colons between them.
pub proof fn law_ipv6_without_zeros_is_full(o: Seq<u8>)
    requires
        o.len() == 16,
        forall|i: int|
            0 <= i < 7 ==> #[trigger] o[2 * i] != 0 || o[2 * i + 1] != 0 || o[2 * i + 2] != 0
                || o[2 * i + 3] != 0,
    ensures
        ({
            let p = parts(ipv6_text(o), ':');
            &&& p.len() == 8
            &&& forall|i: int|
                0 <= i < 8 ==> #[trigger] p[i] == hexadecimal(
                    (o[2 * i] * 256 + o[2 * i + 1]) as nat,
                )
        }),
{
    let s = segments(o);
    let (start, len) = longest_zeros(s, 8);
    lemma_segments(o);
    lemma_longest(s, 8);
    let z = 0int;
    assert(o[2 * z] != 0 || o[2 * z + 1] != 0 || o[2 * z + 2] != 0 || o[2 * z + 3] != 0);
    assert(!ipv4_mapped(o));
    lemma_ipv6_parts(o);
    if len > 1 {
        lemma_zeros(s, start);
        assert(s[start] == 0 && s[start + 1] == 0);
        assert(o[2 * start] == 0);
        assert(s[start + 1] == o[2 * (start + 1)] * 256 + o[2 * (start + 1) + 1]);
        assert(false);
    }
}

/// No address has a slash in its text.
proof fn lemma_no_slash(o: Seq<u8>)
    requires
        o.len() == 16,
    ensures
        without(ipv6_text(o), '/'),
{
    reveal_strlit("::");
    reveal_strlit("::ffff:");
    let s = segments(o);
    lemma_segments(o);
    if ipv4_mapped(o) {
        lemma_ipv4_parts(o.subrange(12, 16));
    } else {
        let (start, len) = longest_zeros(s, 8);
        lemma_longest(s, 8);
        if len > 1 {
            let x = s.take(start);
            let y = s.skip(start + len);
            assert forall|i: int| 0 <= i < x.len() implies #[trigger] x[i] < 0x1_0000 by {
                assert(x[i] == s[i]);
            }
            assert forall|i: int| 0 <= i < y.len() implies #[trigger] y[i] < 0x1_0000 by {
                assert(y[i] == s[start + len + i]);
            }
            if x.len() > 0 {
                lemma_colon_separated(x);
            }
            if y.len() > 0 {
                lemma_colon_separated(y);
            }
        } else {
            lemma_colon_separated(s);
        }
    }
}

/// A slash between an address and a number tells them apart.
pub proof fn lemma_slash_separates(o: Seq<u8>, n: nat)
    ensures
        o.len() == 4 ==> parts(ipv4_text(o) + "/"@ + decimal(n), '/') == seq![
            ipv4_text(o),
            decimal(n),
        ],
        o.len() == 16 ==> parts(ipv6_text(o) + "/"@ + decimal(n), '/') == seq![
            ipv6_text(o),
            decimal(n),
        ],
        number_of(decimal(n), 10) == Some(n),
{
    reveal_strlit("/");
    lemma_decimal(n);
    if o.len() == 4 || o.len() == 16 {
        let t = if o.len() == 4 {
            ipv4_text(o)
        } else {
            ipv6_text(o)
        };
        if o.len() == 4 {
            lemma_ipv4_parts(o);
        } else {
            lemma_no_slash(o);
        }
        lemma_parts_single(t, '/');
        lemma_parts_marked(t, '/', decimal(n));
        assert(t + "/"@ + decimal(n) =~= t.push('/') + decimal(n));
        assert(seq![t].push(decimal(n)) =~= seq![t, decimal(n)]);
    }
}

/// An IPv4 address in IPv6 form is written as such: two colons, the word `ffff`, a colon, and the
/// IPv4 address.
pub proof fn law_mapped_address_ends_in_ipv4(o: Seq<u8>)
    requires
        o.len() == 16,
        forall|i: int| 0 <= i < 10 ==> o[i] == 0,
        o[10] == 0xFF,
        o[11] == 0xFF,
    ensures
        ({
            let p = parts(ipv6_text(o), ':');
            &&& p.len() == 4
            &&& p[0].len() == 0 && p[1].len() == 0
            &&& p[2] == seq!['f', 'f', 'f', 'f']
            &&& read_ipv4(p[3]) == Some(seq![o[12], o[13], o[14], o[15]])
        }),
{
    reveal_strlit("::ffff:");
    reveal_strlit("::");
    let four = o.subrange(12, 16);
    let text = ipv4_text(four);
    let none = Seq::<char>::empty();
    let word = seq!['f', 'f', 'f', 'f'];
    let u = word.push(':') + text;
    assert(ipv6_text(o) =~= none + "::"@ + u);
    law_ipv4_text_reads_back(four);
    lemma_ipv4_parts(four);
    lemma_parts_single(word, ':');
    lemma_parts_marked(word, ':', text);
    let b = seq![word, text];
    assert(parts(u, ':') =~= b);
    lemma_double_colon(none, u, Seq::empty(), b);
    assert(four =~= seq![o[12], o[13], o[14], o[15]]);
}

} // verus!
