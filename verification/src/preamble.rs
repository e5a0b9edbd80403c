//! The variable-length integer preamble. A header byte carries a type tag in
//! its top three bits, a "more bytes follow" flag in bit 4, for a signed
//! number a sign in bit 3, and the most significant bits of the magnitude in
//! what is left. The rest of the magnitude follows in groups of seven bits,
//! most significant group first, one group per continuation byte; bit 7 of a
//! continuation byte says that another one follows.

use vstd::prelude::*;
use crate::error::DecodeError;
use crate::reader::ByteReader;

verus! {

/// The tag of a blob, in the top three bits of a header byte.
pub const TAG_BLOB: u8 = 0x00;

/// The tag of a text.
pub const TAG_TEXT: u8 = 0x20;

/// The tag of an array.
pub const TAG_ARRAY: u8 = 0x40;

/// The tag of a record.
pub const TAG_RECORD: u8 = 0x60;

/// The tag of an integer.
pub const TAG_INTEGER: u8 = 0x80;

/// The tag kept for decimal floats, which have no wire form.
pub const TAG_DECIMAL_FLOAT: u8 = 0xA0;

/// The tag of a truth value.
pub const TAG_BOOL: u8 = 0xC0;

/// `n` without its `count` least significant groups of seven bits: `n`
/// divided by 128, `count` times.
pub open spec fn drop_groups(n: nat, count: nat) -> nat
    decreases count,
{
    if count == 0 {
        n
    } else {
        drop_groups(n, (count - 1) as nat) / 128
    }
}

/// The number of continuation bytes that the magnitude `n` takes after a
/// header byte that can itself hold the values below `lead`: how often `n`
/// must lose a group of seven bits until it is below `lead`.
pub open spec fn continuation_count(n: nat, lead: nat) -> nat
    decreases n,
{
    if n < lead || n == 0 {
        0
    } else {
        1 + continuation_count(n / 128, lead)
    }
}

/// The `count` least significant groups of seven bits of `n` as continuation
/// bytes: most significant group first, bit 7 set on every byte but the last.
pub open spec fn continuation_bytes(n: nat, count: nat) -> Seq<u8> {
    Seq::new(
        count,
        |j: int|
            (drop_groups(n, (count - 1 - j) as nat) % 128 + if j + 1 < count {
                128nat
            } else {
                0nat
            }) as u8,
    )
}

/// A header byte and its continuation bytes for the magnitude `n`. `sign` is
/// 8 for a negative number and 0 otherwise; `lead` is the number of values
/// the header byte holds itself, 16 without a sign bit and 8 with one. The
/// low five bits of the header byte are the flag, the sign and the leading
/// bits of `n`, joined to `header` by a bitwise or.
pub open spec fn preamble_bytes(header: u8, sign: nat, lead: nat, n: nat) -> Seq<u8> {
    let count = continuation_count(n, lead);
    let more: nat = if count > 0 {
        16
    } else {
        0
    };
    seq![header | ((more + sign + drop_groups(n, count)) as u8)] + continuation_bytes(n, count)
}

/// The preamble of an unsigned number: four leading bits in the header byte.
pub open spec fn unsigned_preamble(header: u8, n: nat) -> Seq<u8> {
    preamble_bytes(header, 0, 16, n)
}

/// The absolute value of `v`.
pub open spec fn magnitude(v: int) -> nat {
    if v < 0 {
        (-v) as nat
    } else {
        v as nat
    }
}

/// The preamble of a signed number: a sign bit and three leading bits of the
/// absolute value in the header byte. Zero has no sign bit.
pub open spec fn signed_preamble(header: u8, v: int) -> Seq<u8> {
    preamble_bytes(
        header,
        if v < 0 {
            8
        } else {
            0
        },
        8,
        magnitude(v),
    )
}

/// Facts on the bit operations that build and take apart single bytes.
proof fn lemma_byte_bits(b: u8)
    by (bit_vector)
    ensures
        b & 0x7f == b % 128,
        (b & 0x80 == 0) <==> b < 128,
        (b & 0x10 != 0) <==> b / 16 % 2 == 1,
        (b & 0x08 != 0) <==> b / 8 % 2 == 1,
        b & 0x0f == b % 16,
        b & 0x07 == b % 8,
        b < 128 ==> b | 0x80 == b + 128,
        b | 0 == b,
{
}

/// Shifting right by seven more bits is shifting right by seven bits again.
proof fn lemma_shift_more(value: u128, shift: u32)
    by (bit_vector)
    requires
        shift <= 119,
    ensures
        (value >> ((shift + 7) as u32)) == (value >> shift) >> 7u32,
{
}

/// Shifting right by seven bits drops one group.
proof fn lemma_shift_seven(value: u128)
    by (bit_vector)
    ensures
        value >> 7u32 == value / 128,
{
}

/// Shifting right by seven bits once more drops one more group.
proof fn lemma_shift_step(value: u128, shift: u32)
    requires
        shift <= 119,
    ensures
        value >> ((shift + 7) as u32) == (value >> shift) / 128,
        (value >> ((shift + 7) as u32)) == (value >> shift) >> 7u32,
{
    lemma_shift_more(value, shift);
    lemma_shift_seven(value >> shift);
}

/// Shifting right by `7 * count` bits drops `count` groups.
proof fn lemma_shift_groups(value: u128, count: nat)
    requires
        count <= 18,
    ensures
        (value >> ((7 * count) as u32)) == drop_groups(value as nat, count),
    decreases count,
{
    if count == 0 {
        assert(value >> 0u32 == value) by (bit_vector);
    } else {
        lemma_shift_groups(value, (count - 1) as nat);
        lemma_shift_step(value, (7 * (count - 1)) as u32);
    }
}

/// The low seven bits of a 128-bit number, as a byte.
proof fn lemma_low_group(x: u128)
    by (bit_vector)
    ensures
        (x & 0x7f) == x % 128,
        (x & 0x7f) < 128,
        x >> 126u32 <= 3,
{
}

/// Appends the `bit_len / 7` least significant groups of seven bits of
/// `value` to `into` as continuation bytes.
pub fn serialize_integer_continuation(value: u128, bit_len: u32, into: &mut Vec<u8>)
    requires
        bit_len % 7 == 0,
        bit_len <= 133,
    ensures
        final(into)@ == old(into)@ + continuation_bytes(value as nat, (bit_len / 7) as nat),
{
    let ghost count = (bit_len / 7) as nat;
    let ghost all = continuation_bytes(value as nat, count);
    let mut bit_len = bit_len;
    while bit_len > 0
        invariant
            bit_len % 7 == 0,
            bit_len <= 7 * count,
            count <= 19,
            all == continuation_bytes(value as nat, count),
            into@ == old(into)@ + all.take(count - bit_len / 7),
        decreases bit_len,
    {
        let shift = bit_len - 7;
        let group = ((value >> shift) & 0x7f) as u8;
        let flag: u8 = if bit_len > 7 {
            0x80
        } else {
            0
        };
        proof {
            let j = count - bit_len / 7;
            lemma_shift_groups(value, (shift / 7) as nat);
            lemma_low_group(value >> shift);
            lemma_byte_bits(group);
            assert(all[j] == group | flag);
            assert(all.take(j + 1) == all.take(j).push(group | flag));
        }
        into.push(group | flag);
        bit_len = bit_len - 7;
    }
    assert(all.take(count as int) == all);
}

/// Appends a header byte and the continuation bytes of `value`; see
/// [`preamble_bytes`]. `sign` is or-ed into the header byte as it is.
fn serialize_preamble(header: u8, sign: u8, lead: u128, value: u128, into: &mut Vec<u8>)
    requires
        (sign == 0 && lead == 16) || (sign == 0 && lead == 8) || (sign == 8 && lead == 8),
    ensures
        final(into)@ == old(into)@ + preamble_bytes(
            header,
            sign as nat,
            lead as nat,
            value as nat,
        ),
{
    let mut top = value;
    let mut count: u32 = 0;
    proof {
        lemma_shift_groups(value, 0);
    }
    while top >= lead
        invariant
            lead == 8 || lead == 16,
            count <= 18,
            top == value >> ((7 * count) as u32),
            top == drop_groups(value as nat, count as nat),
            continuation_count(value as nat, lead as nat) == count + continuation_count(
                top as nat,
                lead as nat,
            ),
        decreases top,
    {
        proof {
            lemma_low_group(value);
            if count < 18 {
                lemma_shift_step(value, (7 * count) as u32);
            }
            lemma_shift_seven(top);
        }
        top = top >> 7u32;
        count = count + 1;
    }
    let more: u8 = if count > 0 {
        0x10
    } else {
        0
    };
    proof {
        let low = top as u8;
        assert(header | more | sign | low == header | ((more + sign + low) as u8)) by (bit_vector)
            requires
                more == 0 || more == 16,
                sign == 0 || sign == 8,
                low < 16,
                sign == 8 ==> low < 8,
        ;
    }
    into.push(header | more | sign | (top as u8));
    serialize_integer_continuation(value, 7 * count, into);
    assert(into@ == old(into)@ + preamble_bytes(
        header,
        sign as nat,
        lead as nat,
        value as nat,
    ));
}

/// Appends the preamble of the unsigned number `value` under the tag bits
/// `header`.
pub fn serialize_unsigned_preamble(header: u8, value: u128, into: &mut Vec<u8>)
    ensures
        final(into)@ == old(into)@ + unsigned_preamble(header, value as nat),
{
    serialize_preamble(header, 0, 16, value, into)
}

/// Appends the preamble of the signed number `value` under the tag bits
/// `header`. Every `i128` is encoded, the least one included.
pub fn serialize_signed_preamble(header: u8, value: i128, into: &mut Vec<u8>)
    ensures
        final(into)@ == old(into)@ + signed_preamble(header, value as int),
{
    if value < 0 {
        let absolute: u128 = if value == i128::MIN {
            0x8000_0000_0000_0000_0000_0000_0000_0000u128
        } else {
            (-value) as u128
        };
        serialize_preamble(header, 8, 8, absolute, into)
    } else {
        serialize_preamble(header, 0, 8, value as u128, into)
    }
}

/// What a run of continuation bytes at the front of `bytes` adds to the
/// magnitude read so far: each byte appends its low seven bits to `acc`, and
/// the first byte with bit 7 clear ends the run. The result is the magnitude
/// and the number of bytes read, or `None` where `bytes` ends inside the run.
pub open spec fn continuation_value(acc: nat, bytes: Seq<u8>) -> Option<(nat, nat)>
    decreases bytes.len(),
{
    if bytes.len() == 0 {
        None
    } else {
        let next = acc * 128 + (bytes[0] % 128) as nat;
        if bytes[0] < 128 {
            Some((next, 1nat))
        } else {
            match continuation_value(next, bytes.skip(1)) {
                Some((value, used)) => Some((value, used + 1)),
                None => None,
            }
        }
    }
}

/// The magnitude that a header byte with the leading bits `first` announces,
/// and the number of continuation bytes read for it: none where the header's
/// flag `more` is clear.
pub open spec fn decode_magnitude(first: nat, more: bool, rest: Seq<u8>) -> Option<(nat, nat)> {
    if more {
        continuation_value(first, rest)
    } else {
        Some((first, 0nat))
    }
}

/// The length that the header byte `head` and the bytes after it announce,
/// and the number of those bytes that belong to it. Input that ends inside
/// the continuation bytes is an end-of-input error, and so is a length that
/// no machine word holds: no input has that much to give.
pub open spec fn decode_length(head: u8, rest: Seq<u8>) -> Result<(nat, nat), DecodeError> {
    match decode_magnitude((head % 16) as nat, head / 16 % 2 == 1, rest) {
        Some((value, used)) => if value <= usize::MAX {
            Ok((value, used))
        } else {
            Err(DecodeError::UnexpectedEof)
        },
        None => Err(DecodeError::UnexpectedEof),
    }
}

/// The signed integer that the header byte `head` and the bytes after it
/// hold, and the number of those bytes that belong to it. The sign is applied
/// to the whole magnitude. Input that ends inside the continuation bytes is
/// an end-of-input error; an integer that 128 bits do not hold is
/// unsupported.
pub open spec fn decode_integer(head: u8, rest: Seq<u8>) -> Result<(int, nat), DecodeError> {
    match decode_magnitude((head % 8) as nat, head / 16 % 2 == 1, rest) {
        Some((value, used)) => {
            let signed = if head / 8 % 2 == 1 {
                -(value as int)
            } else {
                value as int
            };
            if i128::MIN <= signed <= i128::MAX {
                Ok((signed, used))
            } else {
                Err(DecodeError::Unsupported)
            }
        },
        None => Err(DecodeError::UnexpectedEof),
    }
}

/// A result of [`continuation_value`] with `by` more bytes counted as read.
pub open spec fn read_further(r: Option<(nat, nat)>, by: nat) -> Option<(nat, nat)> {
    match r {
        Some((value, used)) => Some((value, used + by)),
        None => None,
    }
}

/// Reads continuation bytes onto the magnitude `first` until one has bit 7
/// clear. The magnitude is returned where 128 bits hold it, and `None` where
/// they do not; the bytes are read to the end of the run either way.
pub(crate) fn read_continuation(first: u128, reader: &mut ByteReader<'_>) -> (r: Result<
    Option<u128>,
    DecodeError,
>)
    ensures
        final(reader).source() == old(reader).source(),
        match continuation_value(first as nat, old(reader).remaining()) {
            Some((value, used)) => {
                &&& r == Ok::<Option<u128>, DecodeError>(
                    if value <= u128::MAX {
                        Some(value as u128)
                    } else {
                        None
                    },
                )
                &&& 0 < used <= old(reader).remaining().len()
                &&& final(reader).remaining() == old(reader).remaining().skip(used as int)
                &&& final(reader).consumed() == old(reader).consumed() + used
            },
            None => {
                &&& r == Err::<Option<u128>, DecodeError>(DecodeError::UnexpectedEof)
                &&& final(reader).consumed() >= old(reader).consumed()
            },
        },
{
    let mut acc = first;
    let mut overflow = false;
    let ghost mut full: nat = first as nat;
    let ghost mut used: nat = 0;
    let ghost start = old(reader).remaining();
    assert(start.skip(0) == start);
    loop
        invariant
            !overflow ==> acc == full,
            overflow ==> full > u128::MAX,
            start == old(reader).remaining(),
            reader.source() == old(reader).source(),
            used <= start.len(),
            reader.remaining() == start.skip(used as int),
            reader.consumed() == old(reader).consumed() + used,
            continuation_value(first as nat, start) == read_further(
                continuation_value(full, reader.remaining()),
                used,
            ),
        decreases reader.remaining().len(),
    {
        let next = match reader.read_byte() {
            Ok(byte) => byte,
            Err(e) => {
                return Err(e);
            },
        };
        proof {
            lemma_byte_bits(next);
            assert(start.skip(used as int).skip(1) == start.skip((used + 1) as int));
        }
        let group = next & 0x7f;
        if acc > 0x01ff_ffff_ffff_ffff_ffff_ffff_ffff_ffffu128 {
            overflow = true;
        }
        if !overflow {
            acc = acc * 128 + group as u128;
        }
        proof {
            full = full * 128 + (next % 128) as nat;
            used = used + 1;
        }
        if next & 0x80 == 0 {
            if overflow {
                return Ok(None);
            }
            return Ok(Some(acc));
        }
    }
}

/// Reads the continuation bytes of a length whose header byte `preamble` has
/// already been consumed, and returns the length.
pub fn parse_len(preamble: u8, reader: &mut ByteReader<'_>) -> (r: Result<usize, DecodeError>)
    ensures
        final(reader).source() == old(reader).source(),
        final(reader).consumed() >= old(reader).consumed(),
        match decode_length(preamble, old(reader).remaining()) {
            Ok((len, used)) => {
                &&& r == Ok::<usize, DecodeError>(len as usize)
                &&& used <= old(reader).remaining().len()
                &&& final(reader).remaining() == old(reader).remaining().skip(used as int)
                &&& final(reader).consumed() == old(reader).consumed() + used
            },
            Err(e) => r == Err::<usize, DecodeError>(e),
        },
{
    proof {
        lemma_byte_bits(preamble);
        assert(old(reader).remaining().skip(0) == old(reader).remaining());
    }
    let first = (preamble & 0x0f) as u128;
    let value = if preamble & 0x10 != 0 {
        match read_continuation(first, reader) {
            Ok(Some(value)) => value,
            Ok(None) => {
                return Err(DecodeError::UnexpectedEof);
            },
            Err(e) => {
                return Err(e);
            },
        }
    } else {
        first
    };
    if value > usize::MAX as u128 {
        return Err(DecodeError::UnexpectedEof);
    }
    Ok(value as usize)
}

/// Reads the continuation bytes of a signed integer whose header byte
/// `preamble` has already been consumed, and returns the integer.
pub fn parse_integer(preamble: u8, reader: &mut ByteReader<'_>) -> (r: Result<i128, DecodeError>)
    ensures
        final(reader).source() == old(reader).source(),
        final(reader).consumed() >= old(reader).consumed(),
        match decode_integer(preamble, old(reader).remaining()) {
            Ok((value, used)) => {
                &&& r == Ok::<i128, DecodeError>(value as i128)
                &&& i128::MIN <= value <= i128::MAX
                &&& used <= old(reader).remaining().len()
                &&& final(reader).remaining() == old(reader).remaining().skip(used as int)
                &&& final(reader).consumed() == old(reader).consumed() + used
            },
            Err(e) => r == Err::<i128, DecodeError>(e),
        },
{
    proof {
        lemma_byte_bits(preamble);
        assert(old(reader).remaining().skip(0) == old(reader).remaining());
    }
    let first = (preamble & 0x07) as u128;
    let value = if preamble & 0x10 != 0 {
        match read_continuation(first, reader) {
            Ok(Some(value)) => value,
            Ok(None) => {
                return Err(DecodeError::Unsupported);
            },
            Err(e) => {
                return Err(e);
            },
        }
    } else {
        first
    };
    let half: u128 = 0x8000_0000_0000_0000_0000_0000_0000_0000u128;
    if preamble & 0x08 != 0 {
        if value < half {
            Ok(-(value as i128))
        } else if value == half {
            Ok(i128::MIN)
        } else {
            Err(DecodeError::Unsupported)
        }
    } else {
        if value < half {
            Ok(value as i128)
        } else {
            Err(DecodeError::Unsupported)
        }
    }
}

/// Dropping a group first and `count` groups after it drops `count + 1`.
proof fn lemma_drop_one_more(n: nat, count: nat)
    ensures
        drop_groups(n / 128, count) == drop_groups(n, count + 1),
    decreases count,
{
    reveal_with_fuel(drop_groups, 3);
    if count > 0 {
        lemma_drop_one_more(n, (count - 1) as nat);
    }
}

/// The number of continuation bytes is the least that will do: with that
/// many, what is left of the magnitude fits the header byte, and with any
/// fewer it does not.
pub proof fn lemma_count_is_least(n: nat, lead: nat)
    requires
        lead > 0,
    ensures
        drop_groups(n, continuation_count(n, lead)) < lead,
        forall|fewer: nat|
            fewer < continuation_count(n, lead) ==> #[trigger] drop_groups(n, fewer) >= lead,
    decreases n,
{
    if n >= lead {
        let inner = continuation_count(n / 128, lead);
        lemma_count_is_least(n / 128, lead);
        lemma_drop_one_more(n, inner);
        assert forall|fewer: nat| fewer < 1 + inner implies #[trigger] drop_groups(n, fewer)
            >= lead by {
            if fewer > 0 {
                lemma_drop_one_more(n, (fewer - 1) as nat);
            }
        }
    }
}

/// Each continuation byte read adds one group: dropping as many groups from
/// the magnitude as bytes were read gives back what the reading started from.
pub(crate) proof fn lemma_read_adds_groups(acc: nat, bytes: Seq<u8>)
    ensures
        continuation_value(acc, bytes) matches Some((value, used)) ==> used > 0 && used
            <= bytes.len() && drop_groups(value, used) == acc,
    decreases bytes.len(),
{
    reveal_with_fuel(drop_groups, 2);
    if bytes.len() > 0 && bytes[0] >= 128 {
        lemma_read_adds_groups(acc * 128 + (bytes[0] % 128) as nat, bytes.skip(1));
    }
}

/// No magnitude can be read from fewer continuation bytes than its preamble
/// has: whatever bytes announce the magnitude `value` behind a header byte
/// that holds `first`, they are at least `continuation_count(value, lead)`.
pub proof fn lemma_no_shorter_preamble(first: nat, more: bool, rest: Seq<u8>, lead: nat)
    requires
        first < lead,
    ensures
        decode_magnitude(first, more, rest) matches Some((value, used)) ==> used
            >= continuation_count(value, lead),
{
    match decode_magnitude(first, more, rest) {
        Some((value, used)) => {
            lemma_count_is_least(value, lead);
            if more {
                lemma_read_adds_groups(first, rest);
            }
        },
        None => {},
    }
}

/// Continuation bytes begin with the most significant of their groups, and
/// go on as the continuation bytes of one group fewer.
proof fn lemma_continuation_front(n: nat, count: nat)
    requires
        count > 0,
    ensures
        continuation_bytes(n, count).len() == count,
        continuation_bytes(n, count)[0] == drop_groups(n, (count - 1) as nat) % 128 + if count
            > 1 {
            128nat
        } else {
            0nat
        },
        continuation_bytes(n, count).skip(1) == continuation_bytes(n, (count - 1) as nat),
{
    assert(continuation_bytes(n, count).skip(1) =~= continuation_bytes(n, (count - 1) as nat));
}

/// Reading the continuation bytes of `n` onto what `n` is without their
/// groups gives `n`.
pub proof fn lemma_continuation_round_trip(n: nat, count: nat, rest: Seq<u8>)
    requires
        count > 0,
    ensures
        continuation_value(drop_groups(n, count), continuation_bytes(n, count) + rest) == Some(
            (n, count),
        ),
    decreases count,
{
    let bytes = continuation_bytes(n, count) + rest;
    lemma_continuation_front(n, count);
    assert(bytes[0] == continuation_bytes(n, count)[0]);
    assert(bytes.skip(1) == continuation_bytes(n, (count - 1) as nat) + rest);
    reveal_with_fuel(drop_groups, 2);
    if count > 1 {
        lemma_continuation_round_trip(n, (count - 1) as nat, rest);
    }
}

/// What the low five bits of a header byte say, where they were joined to a
/// tag that leaves them clear.
proof fn lemma_header_fields(header: u8, low: u8)
    requires
        header % 32 == 0,
        low < 32,
    ensures
        (header | low) / 32 == header / 32,
        (header | low) % 32 == low,
        (header | low) % 16 == low % 16,
        (header | low) % 8 == low % 8,
        (header | low) / 16 % 2 == low / 16,
        (header | low) / 8 % 2 == low / 8 % 2,
{
    assert((header | low) / 32 == header / 32 && (header | low) % 32 == low) by (bit_vector)
        requires
            header % 32 == 0,
            low < 32,
    ;
}

/// The length of a preamble, and what its header byte holds.
proof fn lemma_preamble_shape(header: u8, sign: nat, lead: nat, n: nat)
    requires
        (sign == 0 && lead == 16) || (sign == 0 && lead == 8) || (sign == 8 && lead == 8),
    ensures
        preamble_bytes(header, sign, lead, n).len() == 1 + continuation_count(n, lead),
        preamble_bytes(header, sign, lead, n).skip(1) == continuation_bytes(
            n,
            continuation_count(n, lead),
        ),
        header % 32 == 0 ==> {
            let head = preamble_bytes(header, sign, lead, n)[0];
            &&& head / 32 == header / 32
            &&& head / 16 % 2 == 1 <==> continuation_count(n, lead) > 0
            &&& lead == 8 ==> (head / 8 % 2 == 1 <==> sign == 8)
            &&& head as int % lead as int == drop_groups(n, continuation_count(n, lead))
        },
{
    let count = continuation_count(n, lead);
    let bytes = preamble_bytes(header, sign, lead, n);
    lemma_count_is_least(n, lead);
    assert(bytes.skip(1) =~= continuation_bytes(n, count));
    if header % 32 == 0 {
        let more: nat = if count > 0 {
            16
        } else {
            0
        };
        let low = (more + sign + drop_groups(n, count)) as u8;
        lemma_header_fields(header, low);
        let head = bytes[0];
        assert(head == header | low);
        if lead == 16 {
            assert(head as int % 16 == drop_groups(n, count));
        } else {
            assert(head as int % 8 == drop_groups(n, count));
        }
    }
}

/// Decoding the preamble of a length gives the length back, for every length
/// that fits a machine word, whatever follows the preamble.
pub proof fn lemma_length_round_trip(header: u8, n: nat, rest: Seq<u8>)
    requires
        header % 32 == 0,
        n <= usize::MAX,
    ensures
        decode_length(unsigned_preamble(header, n)[0], unsigned_preamble(header, n).skip(1) + rest)
            == Ok::<(nat, nat), DecodeError>((n, continuation_count(n, 16))),
        unsigned_preamble(header, n).len() == 1 + continuation_count(n, 16),
        unsigned_preamble(header, n)[0] / 32 == header / 32,
{
    let count = continuation_count(n, 16);
    lemma_preamble_shape(header, 0, 16, n);
    if count > 0 {
        lemma_continuation_round_trip(n, count, rest);
    }
}

/// Decoding the preamble of a signed integer gives the integer back, for
/// every integer of 128 bits, whatever follows the preamble.
pub proof fn lemma_integer_round_trip(header: u8, v: int, rest: Seq<u8>)
    requires
        header % 32 == 0,
        i128::MIN <= v <= i128::MAX,
    ensures
        decode_integer(signed_preamble(header, v)[0], signed_preamble(header, v).skip(1) + rest)
            == Ok::<(int, nat), DecodeError>((v, continuation_count(magnitude(v), 8))),
        signed_preamble(header, v).len() == 1 + continuation_count(magnitude(v), 8),
        signed_preamble(header, v)[0] / 32 == header / 32,
{
    let n = magnitude(v);
    let sign: nat = if v < 0 {
        8
    } else {
        0
    };
    let count = continuation_count(n, 8);
    lemma_preamble_shape(header, sign, 8, n);
    if count > 0 {
        lemma_continuation_round_trip(n, count, rest);
    }
}

/// Zero is one byte: the tag and nothing else, with neither a sign nor
/// continuation bytes.
pub proof fn lemma_zero_is_one_byte(header: u8)
    ensures
        signed_preamble(header, 0) == seq![header],
        unsigned_preamble(header, 0) == seq![header],
{
    assert(header | 0u8 == header) by (bit_vector);
    assert(signed_preamble(header, 0) =~= seq![header]);
    assert(unsigned_preamble(header, 0) =~= seq![header]);
}

/// No preamble has a sign bit over a magnitude of zero, and the preamble of a
/// number below zero has the sign bit.
pub proof fn lemma_sign_bit(header: u8, v: int)
    requires
        header % 32 == 0,
    ensures
        signed_preamble(header, v)[0] / 8 % 2 == 1 <==> v < 0,
{
    lemma_preamble_shape(
        header,
        if v < 0 {
            8
        } else {
            0
        },
        8,
        magnitude(v),
    );
}

/// The preambles of a number and of its negation differ in the sign bit of
/// the header byte and in nothing else.
pub proof fn lemma_negation_flips_sign_bit(header: u8, v: int)
    requires
        v > 0,
    ensures
        signed_preamble(header, -v).len() == signed_preamble(header, v).len(),
        signed_preamble(header, -v).skip(1) == signed_preamble(header, v).skip(1),
        signed_preamble(header, -v)[0] == signed_preamble(header, v)[0] | 0x08,
        header & 0x08 == 0 ==> signed_preamble(header, v)[0] & 0x08 == 0,
{
    let n = magnitude(v);
    let count = continuation_count(n, 8);
    lemma_preamble_shape(header, 0, 8, n);
    lemma_preamble_shape(header, 8, 8, n);
    lemma_count_is_least(n, 8);
    let more: nat = if count > 0 {
        16
    } else {
        0
    };
    let low = (more + drop_groups(n, count)) as u8;
    let signed = (more + 8 + drop_groups(n, count)) as u8;
    assert(header | signed == (header | low) | 0x08 && (header & 0x08 == 0 ==> (header | low)
        & 0x08 == 0)) by (bit_vector)
        requires
            low < 8 || 16 <= low < 24,
            signed == low + 8,
    ;
}

/// What one continuation byte in front of `tail` adds to a reading.
pub(crate) proof fn lemma_continuation_step(acc: nat, first: u8, tail: Seq<u8>)
    ensures
        continuation_value(acc, seq![first] + tail) == if first < 128 {
            Some((acc * 128 + first as nat, 1nat))
        } else {
            read_further(continuation_value(acc * 128 + (first - 128) as nat, tail), 1)
        },
{
    assert((seq![first] + tail).skip(1) == tail);
}

/// A run of continuation bytes that is cut short does not end: reading it
/// finds no last byte.
proof fn lemma_continuation_cut(acc: nat, n: nat, count: nat, kept: nat)
    requires
        kept < count,
    ensures
        continuation_value(acc, continuation_bytes(n, count).take(kept as int)) is None,
    decreases kept,
{
    let bytes = continuation_bytes(n, count).take(kept as int);
    if kept > 0 {
        lemma_continuation_front(n, count);
        assert(bytes[0] == continuation_bytes(n, count)[0]);
        assert(bytes.skip(1) == continuation_bytes(n, (count - 1) as nat).take(kept - 1));
        lemma_continuation_cut(
            acc * 128 + (bytes[0] % 128) as nat,
            n,
            (count - 1) as nat,
            (kept - 1) as nat,
        );
    }
}

/// A preamble that is cut short behind its header byte announces nothing:
/// the input ends inside its continuation bytes.
proof fn lemma_preamble_cut(header: u8, sign: nat, lead: nat, n: nat, kept: nat)
    requires
        (sign == 0 && lead == 16) || (sign == 0 && lead == 8) || (sign == 8 && lead == 8),
        header % 32 == 0,
        1 <= kept < preamble_bytes(header, sign, lead, n).len(),
    ensures
        ({
            let cut = preamble_bytes(header, sign, lead, n).take(kept as int);
            &&& cut[0] / 32 == header / 32
            &&& decode_magnitude((cut[0] as int % lead as int) as nat, cut[0] / 16 % 2 == 1, cut.skip(1))
                is None
        }),
{
    let whole = preamble_bytes(header, sign, lead, n);
    let cut = whole.take(kept as int);
    let count = continuation_count(n, lead);
    lemma_preamble_shape(header, sign, lead, n);
    assert(cut[0] == whole[0]);
    assert(cut.skip(1) == continuation_bytes(n, count).take(kept - 1)) by {
        assert(cut.skip(1) =~= whole.skip(1).take(kept - 1));
    }
    lemma_continuation_cut(drop_groups(n, count), n, count, (kept - 1) as nat);
}

/// The preamble of a length, cut short behind its header byte, is input that
/// ends early.
pub proof fn lemma_length_cut(header: u8, n: nat, kept: nat)
    requires
        header % 32 == 0,
        1 <= kept < unsigned_preamble(header, n).len(),
    ensures
        ({
            let cut = unsigned_preamble(header, n).take(kept as int);
            &&& cut[0] / 32 == header / 32
            &&& decode_length(cut[0], cut.skip(1)) == Err::<(nat, nat), DecodeError>(
                DecodeError::UnexpectedEof,
            )
        }),
{
    lemma_preamble_cut(header, 0, 16, n, kept);
}

/// The preamble of an integer, cut short behind its header byte, is input
/// that ends early.
pub proof fn lemma_integer_cut(header: u8, v: int, kept: nat)
    requires
        header % 32 == 0,
        1 <= kept < signed_preamble(header, v).len(),
    ensures
        ({
            let cut = signed_preamble(header, v).take(kept as int);
            &&& cut[0] / 32 == header / 32
            &&& decode_integer(cut[0], cut.skip(1)) == Err::<(int, nat), DecodeError>(
                DecodeError::UnexpectedEof,
            )
        }),
{
    lemma_preamble_cut(
        header,
        if v < 0 {
            8
        } else {
            0
        },
        8,
        magnitude(v),
        kept,
    );
}

} // verus!
