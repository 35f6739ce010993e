//! The protobuf wire format as the streaming reader sees it: varints, keys and skipped fields.

use vstd::prelude::*;
use vstd::slice::slice_subrange;

use crate::text::push_decimal;

verus! {

/// Deepest nesting of unknown groups that is skipped.
pub const MAX_PROTOBUF_GROUP_DEPTH: usize = 100;

/// `s` without its first `n` elements; empty where it has fewer.
pub open spec fn after(s: Seq<u8>, n: nat) -> Seq<u8> {
    if n <= s.len() {
        s.skip(n as int)
    } else {
        Seq::empty()
    }
}

/// `a - b`, or zero where `b` is the larger.
pub open spec fn monus(a: int, b: int) -> int {
    if a < b {
        0
    } else {
        a - b
    }
}

/// How many bytes at the start of `s` have their high bit set.
pub open spec fn leading_continuations(s: Seq<u8>) -> nat
    decreases s.len(),
{
    if s.len() > 0 && s[0] >= 0x80 {
        1 + leading_continuations(s.drop_first())
    } else {
        0
    }
}

/// The number that the low seven bits of the bytes of `s` spell, least significant byte first.
pub open spec fn base128(s: Seq<u8>) -> nat
    decreases s.len(),
{
    if s.len() == 0 {
        0
    } else {
        (s[0] as nat % 128) + 128 * base128(s.drop_first())
    }
}

/// What a varint read at the start of some bytes finds.
pub enum VarintRead {
    /// A number, and how many bytes it takes.
    Value { value: u64, len: nat },
    /// The bytes end before the number does.
    Truncated,
    /// The number does not fit in 64 bits.
    Overflow,
}

/// The varint at the start of `s`: the bytes up to the first one without its high bit. At most
/// ten bytes make up a number, and the tenth adds one bit only.
pub open spec fn varint(s: Seq<u8>) -> VarintRead {
    let n = leading_continuations(s);
    if n >= 10 || (n == 9 && s.len() > 9 && s[9] > 1) {
        VarintRead::Overflow
    } else if n == s.len() {
        VarintRead::Truncated
    } else {
        VarintRead::Value { value: base128(s.take(n as int + 1)) as u64, len: n + 1 }
    }
}

/// A varint that has to be there: its value and length, or the text of the error. `end` says why
/// the bytes end where they do.
pub open spec fn required_varint(s: Seq<u8>, end: Seq<char>) -> Result<(u64, nat), Seq<char>> {
    match varint(s) {
        VarintRead::Value { value, len } => Ok((value, len)),
        VarintRead::Truncated => Err("truncated protobuf varint: "@ + end),
        VarintRead::Overflow => Err("protobuf varint overflows u64"@),
    }
}

/// The number of bytes passed over by skipping `n` bytes of `s`, or the text of the error.
pub open spec fn skipped_bytes(s: Seq<u8>, n: nat, end: Seq<char>) -> Result<nat, Seq<char>> {
    if n <= s.len() {
        Ok(n)
    } else {
        Err("truncated protobuf field: "@ + end)
    }
}

/// The length of the contents, after its key, of a field of wire type `wire` and number `field`
/// at the start of `s`, or the text of the error. `depth` groups are open around the field.
pub open spec fn skipped_field(
    s: Seq<u8>,
    wire: u8,
    field: u64,
    depth: nat,
    end: Seq<char>,
) -> Result<nat, Seq<char>>
    decreases s.len(), 1nat,
{
    if wire == 0 {
        match required_varint(s, end) {
            Ok((_, n)) => Ok(n),
            Err(e) => Err(e),
        }
    } else if wire == 1 {
        skipped_bytes(s, 8, end)
    } else if wire == 2 {
        match required_varint(s, end) {
            Ok((len, n)) => if len > usize::MAX {
                Err("protobuf field length exceeds platform limits"@)
            } else {
                match skipped_bytes(after(s, n), len as nat, end) {
                    Ok(m) => Ok(n + m),
                    Err(e) => Err(e),
                }
            },
            Err(e) => Err(e),
        }
    } else if wire == 3 {
        if depth >= MAX_PROTOBUF_GROUP_DEPTH {
            Err("protobuf group nesting exceeds limit of 100"@)
        } else {
            skipped_group(s, field, depth, end)
        }
    } else if wire == 4 {
        Err("unexpected protobuf end-group field"@)
    } else if wire == 5 {
        skipped_bytes(s, 4, end)
    } else {
        Err("invalid protobuf wire type "@ + crate::text::decimal(wire as nat))
    }
}

/// The length of what is left of the open group number `field` at the start of `s`, its end
/// marker counted in.
pub open spec fn skipped_group(s: Seq<u8>, field: u64, depth: nat, end: Seq<char>) -> Result<
    nat,
    Seq<char>,
>
    decreases s.len(), 0nat,
{
    match required_varint(s, end) {
        Err(e) => Err(e),
        Ok((key, n)) => {
            let wire = (key % 8) as u8;
            let inner = key / 8;
            if wire == 4 {
                if inner != field {
                    Err("mismatched protobuf end-group field"@)
                } else {
                    Ok(n)
                }
            } else {
                match skipped_field(after(s, n), wire, inner, depth + 1, end) {
                    Err(e) => Err(e),
                    Ok(m) => match skipped_group(after(after(s, n), m), field, depth, end) {
                        Err(e) => Err(e),
                        Ok(k) => Ok(n + m + k),
                    },
                }
            }
        },
    }
}

/// Bytes still to be read, with what is known of the file that they come from.
pub struct Reader<'a> {
    /// The bytes that were read from the file and not consumed yet.
    pub rest: &'a [u8],
    /// How many bytes the file still holds after the reading position, by its length.
    pub left: u64,
    /// Why reading stopped, where it stopped short of the end of the file.
    pub failure: Option<String>,
}

/// The reason for which no byte follows the last one.
pub open spec fn end_text(failure: Option<String>) -> Seq<char> {
    match failure {
        None => "failed to fill whole buffer"@,
        Some(e) => e@,
    }
}

impl<'a> Reader<'a> {
    /// The text of the error that a read past the last byte meets.
    pub open spec fn end(self) -> Seq<char> {
        end_text(self.failure)
    }

    /// `self` is `before` with `n` more bytes consumed.
    pub open spec fn advanced(self, before: Reader<'a>, n: nat) -> bool {
        &&& n <= before.rest@.len()
        &&& self.rest@ == before.rest@.skip(n as int)
        &&& self.left == monus(before.left as int, n as int)
        &&& self.failure == before.failure
    }

    /// A reader at the start of a file of `file_len` bytes, of which `bytes` could be read.
    pub fn new(bytes: &'a [u8], file_len: u64, failure: Option<String>) -> (r: Reader<'a>)
        ensures
            r.rest@ == bytes@,
            r.left == file_len,
            r.failure == failure,
    {
        Reader { rest: bytes, left: file_len, failure }
    }

    pub(crate) fn advance(&mut self, n: usize)
        requires
            n <= old(self).rest@.len(),
        ensures
            final(self).advanced(*old(self), n as nat),
    {
        self.rest = slice_subrange(self.rest, n, self.rest.len());
        self.left = self.left.saturating_sub(n as u64);
    }

    pub(crate) fn end_error(&self, what: &str) -> (r: String)
        ensures
            r@ == what@ + self.end(),
    {
        let mut text: String = what.to_owned();
        match &self.failure {
            None => text.append("failed to fill whole buffer"),
            Some(e) => text.append(e.as_str()),
        }
        text
    }
}

/// `base128` of a sequence with one more byte at its end.
pub proof fn lemma_base128_push(s: Seq<u8>, b: u8)
    ensures
        base128(s.push(b)) == base128(s) + (b as nat % 128) * pow128(s.len()),
    decreases s.len(),
{
    if s.len() == 0 {
        assert(s.push(b).drop_first() =~= s);
        assert(pow128(0) == 1);
        assert(base128(s) == 0);
    } else {
        lemma_base128_push(s.drop_first(), b);
        assert(s.push(b).drop_first() =~= s.drop_first().push(b));
        let d = b as nat % 128;
        let p = pow128((s.len() - 1) as nat);
        assert(128 * (d * p) == d * (128 * p)) by (nonlinear_arith);
    }
}

/// `128` to the power `n`.
pub open spec fn pow128(n: nat) -> nat
    decreases n,
{
    if n == 0 {
        1
    } else {
        128 * pow128((n - 1) as nat)
    }
}

/// Seven bits a byte: what `n` bytes spell is less than `128` to the power `n`.
pub proof fn lemma_base128_bound(s: Seq<u8>)
    ensures
        base128(s) < pow128(s.len()),
    decreases s.len(),
{
    if s.len() > 0 {
        lemma_base128_bound(s.drop_first());
    }
}

/// The first `n` bytes have their high bit set, the next one does not.
pub proof fn lemma_leading_continuations(s: Seq<u8>, n: nat)
    requires
        n <= s.len(),
        forall|i: int| 0 <= i < n ==> s[i] >= 0x80,
    ensures
        leading_continuations(s) >= n,
        leading_continuations(s) <= s.len(),
        n < s.len() && s[n as int] < 0x80 ==> leading_continuations(s) == n,
    decreases s.len(),
{
    if s.len() > 0 {
        let t = s.drop_first();
        if n > 0 {
            assert forall|i: int| 0 <= i < n - 1 implies t[i] >= 0x80 by {
                assert(t[i] == s[i + 1]);
            }
            lemma_leading_continuations(t, (n - 1) as nat);
        } else if s[0] >= 0x80 {
            lemma_leading_continuations(t, 0);
        }
    }
}

/// A varint that is there takes between one and ten bytes, all of them present.
pub proof fn lemma_varint_len(s: Seq<u8>)
    ensures
        varint(s) matches VarintRead::Value { value: _, len } ==> 1 <= len <= 10 && len <= s.len(),
{
    lemma_leading_continuations(s, 0);
}

/// Reads a varint. Where `allow_clean_eof` is set and the file ends right here, there is none.
pub fn read_varint(reader: &mut Reader, allow_clean_eof: bool) -> (r: Result<Option<u64>, String>)
    ensures
        final(reader).failure == old(reader).failure,
        match varint(old(reader).rest@) {
            VarintRead::Value { value, len } => r == Ok::<Option<u64>, String>(Some(value))
                && final(reader).advanced(*old(reader), len),
            VarintRead::Truncated => if allow_clean_eof && old(reader).rest@.len() == 0 && old(
                reader,
            ).failure is None {
                r == Ok::<Option<u64>, String>(None) && *final(reader) == *old(reader)
            } else {
                r matches Err(e) && e@ == "truncated protobuf varint: "@ + old(reader).end()
            },
            VarintRead::Overflow => r matches Err(e) && e@ == "protobuf varint overflows u64"@,
        },
{
    let ghost s = reader.rest@;
    let mut value: u64 = 0;
    let mut scale: u64 = 1;
    let mut i: usize = 0;
    while i < 10
        invariant
            i <= 10,
            *reader == *old(reader),
            s == reader.rest@,
            i <= s.len(),
            i < 10 ==> scale == pow128(i as nat),
            value == base128(s.take(i as int)),
            forall|j: int| 0 <= j < i ==> s[j] >= 0x80,
            i == 10 ==> s[9] <= 1,
        decreases 10 - i,
    {
        proof {
            lemma_leading_continuations(s, i as nat);
            reveal_with_fuel(pow128, 11);
            lemma_base128_bound(s.take(i as int));
        }
        if i >= reader.rest.len() {
            if allow_clean_eof && i == 0 && reader.failure.is_none() {
                return Ok(None);
            }
            return Err(reader.end_error("truncated protobuf varint: "));
        }
        let byte: u8 = reader.rest[i];
        if i == 9 && byte > 1 {
            return Err("protobuf varint overflows u64".to_owned());
        }
        let low: u64 = (byte % 128) as u64;
        proof {
            lemma_base128_push(s.take(i as int), byte);
            assert(s.take(i as int).push(byte) =~= s.take(i + 1));
            assert(low * scale <= 127 * scale) by (nonlinear_arith)
                requires
                    low <= 127,
            ;
            if i == 9 {
                assert(low * scale <= scale) by (nonlinear_arith)
                    requires
                        low <= 1,
                ;
            }
        }
        value = value + low * scale;
        if byte < 0x80 {
            reader.advance(i + 1);
            return Ok(Some(value));
        }
        if i < 9 {
            scale = scale * 128;
        }
        i = i + 1;
    }
    Err("protobuf varint is too long".to_owned())
}

/// Reads a varint that has to be there.
pub fn read_required_varint(reader: &mut Reader) -> (r: Result<u64, String>)
    ensures
        final(reader).failure == old(reader).failure,
        match required_varint(old(reader).rest@, old(reader).end()) {
            Ok((value, len)) => r == Ok::<u64, String>(value) && final(reader).advanced(
                *old(reader),
                len,
            ),
            Err(text) => r matches Err(e) && e@ == text,
        },
{
    match read_varint(reader, false) {
        Ok(Some(value)) => Ok(value),
        Ok(None) => Err("truncated protobuf varint".to_owned()),
        Err(e) => Err(e),
    }
}

/// What a skipped field or group takes up is there.
pub proof fn lemma_skipped_len(s: Seq<u8>, wire: u8, field: u64, depth: nat, end: Seq<char>)
    ensures
        skipped_field(s, wire, field, depth, end) matches Ok(n) ==> n <= s.len(),
        skipped_group(s, field, depth, end) matches Ok(n) ==> 1 <= n <= s.len(),
    decreases s.len(), 1nat,
{
    lemma_varint_len(s);
    lemma_skipped_group_len(s, field, depth, end);
}

proof fn lemma_skipped_group_len(s: Seq<u8>, field: u64, depth: nat, end: Seq<char>)
    ensures
        skipped_group(s, field, depth, end) matches Ok(n) ==> 1 <= n <= s.len(),
    decreases s.len(), 0nat,
{
    lemma_varint_len(s);
    if let Ok((key, n)) = required_varint(s, end) {
        let wire = (key % 8) as u8;
        let inner = key / 8;
        if wire != 4 {
            lemma_skipped_len(after(s, n), wire, inner, depth + 1, end);
            if let Ok(m) = skipped_field(after(s, n), wire, inner, depth + 1, end) {
                lemma_skipped_group_len(after(after(s, n), m), field, depth, end);
            }
        }
    }
}

/// Passes over `len` bytes.
pub fn skip_bytes(reader: &mut Reader, len: usize) -> (r: Result<(), String>)
    ensures
        final(reader).failure == old(reader).failure,
        match skipped_bytes(old(reader).rest@, len as nat, old(reader).end()) {
            Ok(n) => r == Ok::<(), String>(()) && final(reader).advanced(*old(reader), n),
            Err(text) => r matches Err(e) && e@ == text,
        },
{
    if len > reader.rest.len() {
        return Err(reader.end_error("truncated protobuf field: "));
    }
    reader.advance(len);
    Ok(())
}

/// Passes over the contents, after its key, of a field of wire type `wire` and number `field`
/// that lies inside `group_depth` unknown groups.
pub fn skip_field(reader: &mut Reader, wire: u8, field: u64, group_depth: usize) -> (r: Result<
    (),
    String,
>)
    ensures
        final(reader).failure == old(reader).failure,
        match skipped_field(old(reader).rest@, wire, field, group_depth as nat, old(reader).end()) {
            Ok(n) => r == Ok::<(), String>(()) && final(reader).advanced(*old(reader), n),
            Err(text) => r matches Err(e) && e@ == text,
        },
    decreases old(reader).rest@.len(), 1nat,
{
    proof {
        lemma_varint_len(reader.rest@);
    }
    match wire {
        0 => match read_required_varint(reader) {
            Ok(_) => Ok(()),
            Err(e) => Err(e),
        },
        1 => skip_bytes(reader, 8),
        2 => match read_required_varint(reader) {
            Ok(len) => if len > usize::MAX as u64 {
                Err("protobuf field length exceeds platform limits".to_owned())
            } else {
                let r = skip_bytes(reader, len as usize);
                proof {
                    if r is Ok {
                        let ghost n = required_varint(old(reader).rest@, old(reader).end())->Ok_0.1;
                        assert(reader.rest@ =~= old(reader).rest@.skip((n + len) as int));
                    }
                }
                r
            },
            Err(e) => Err(e),
        },
        3 => {
            if group_depth >= MAX_PROTOBUF_GROUP_DEPTH {
                return Err("protobuf group nesting exceeds limit of 100".to_owned());
            }
            skip_group(reader, field, group_depth)
        },
        4 => Err("unexpected protobuf end-group field".to_owned()),
        5 => skip_bytes(reader, 4),
        _ => {
            let mut text: String = "invalid protobuf wire type ".to_owned();
            push_decimal(&mut text, wire as u64);
            Err(text)
        },
    }
}

/// Passes over what is left of the open group number `field`, its end marker included.
fn skip_group(reader: &mut Reader, field: u64, group_depth: usize) -> (r: Result<(), String>)
    requires
        group_depth < MAX_PROTOBUF_GROUP_DEPTH,
    ensures
        final(reader).failure == old(reader).failure,
        match skipped_group(old(reader).rest@, field, group_depth as nat, old(reader).end()) {
            Ok(n) => r == Ok::<(), String>(()) && final(reader).advanced(*old(reader), n),
            Err(text) => r matches Err(e) && e@ == text,
        },
    decreases old(reader).rest@.len(), 0nat,
{
    let ghost start = reader.rest@;
    let ghost end = reader.end();
    let ghost depth = group_depth as nat;
    let ghost mut done: nat = 0;
    assert(start.skip(0) =~= start);
    loop
        invariant
            group_depth < MAX_PROTOBUF_GROUP_DEPTH,
            start == old(reader).rest@,
            end == old(reader).end(),
            depth == group_depth,
            reader.advanced(*old(reader), done),
            skipped_group(start, field, depth, end) == (match skipped_group(
                reader.rest@,
                field,
                depth,
                end,
            ) {
                Ok(k) => Ok::<nat, Seq<char>>(done + k),
                Err(e) => Err(e),
            }),
        decreases reader.rest@.len(),
    {
        let ghost s = reader.rest@;
        proof {
            lemma_varint_len(s);
            lemma_skipped_group_len(s, field, depth, end);
        }
        let key: u64 = match read_required_varint(reader) {
            Ok(key) => key,
            Err(e) => return Err(e),
        };
        let ghost n = required_varint(s, end)->Ok_0.1;
        assert(reader.rest@ =~= start.skip((done + n) as int));
        let nested_field: u64 = key / 8;
        let nested_wire: u8 = (key % 8) as u8;
        if nested_wire == 4 {
            if nested_field != field {
                return Err("mismatched protobuf end-group field".to_owned());
            }
            return Ok(());
        }
        proof {
            lemma_skipped_len(after(s, n), nested_wire, nested_field, depth + 1, end);
        }
        match skip_field(reader, nested_wire, nested_field, group_depth + 1) {
            Ok(()) => {},
            Err(e) => return Err(e),
        }
        proof {
            let m = skipped_field(after(s, n), nested_wire, nested_field, depth + 1, end)->Ok_0;
            assert(reader.rest@ =~= start.skip((done + n + m) as int));
            assert(reader.rest@ == after(after(s, n), m));
            done = done + n + m;
        }
    }
}

} // verus!
