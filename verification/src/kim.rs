//! The code-point codec of text payloads. A Unicode scalar value is written
//! in groups of seven bits, most significant group first, in as few bytes as
//! hold it, up to three; bit 7 is set on every byte but the last.

use vstd::prelude::*;
use crate::error::DecodeError;
use crate::preamble::{continuation_value, lemma_continuation_step, read_continuation};
use crate::reader::ByteReader;

verus! {

/// The bytes of one scalar value: one byte below `0x80`, two below `0x4000`,
/// three from there on.
pub open spec fn kim_bytes(c: char) -> Seq<u8> {
    let code = c as u32;
    if code < 0x80 {
        seq![code as u8]
    } else if code < 0x4000 {
        seq![(128 + code / 128) as u8, (code % 128) as u8]
    } else {
        seq![(128 + code / 16384) as u8, (128 + code / 128 % 128) as u8, (code % 128) as u8]
    }
}

/// Whether `code` is a Unicode scalar value: a code point that is no
/// surrogate.
pub open spec fn is_scalar_value(code: nat) -> bool {
    code < 0xD800 || 0xE000 <= code <= 0x10FFFF
}

/// The scalar value at the front of `bytes` and the number of bytes it takes.
/// The groups of seven bits are gathered up to the first byte with bit 7
/// clear. Input that ends before such a byte is an end-of-input error; a
/// number that is no scalar value, however large, is a data-validity error.
pub open spec fn decode_char(bytes: Seq<u8>) -> Result<(char, nat), DecodeError> {
    match continuation_value(0, bytes) {
        None => Err(DecodeError::UnexpectedEof),
        Some((value, used)) => {
            if is_scalar_value(value) {
                Ok((value as char, used))
            } else {
                Err(DecodeError::InvalidData)
            }
        },
    }
}

/// `char::from_u32`: the scalar value with that number, or `None` where the
/// number is a surrogate or lies past `0x10FFFF`.
pub assume_specification[ char::from_u32 ](code: u32) -> (r: Option<char>)
    ensures
        is_scalar_value(code as nat) ==> r == Some(code as char),
        !is_scalar_value(code as nat) ==> r.is_none(),
;

/// The groups of seven bits of a scalar value, by shift and mask.
proof fn lemma_groups(code: u32)
    by (bit_vector)
    requires
        code <= 0x10FFFF,
    ensures
        code & 0x7f == code % 128,
        (code >> 7u32) & 0x7f == code / 128 % 128,
        code >> 14u32 == code / 16384,
        code >> 14u32 < 128,
        code < 0x4000 ==> (code >> 7u32) & 0x7f == code / 128,
{
}

/// Setting bit 7 of a byte that holds seven bits adds 128.
proof fn lemma_flag(group: u8)
    by (bit_vector)
    requires
        group < 128,
    ensures
        0x80 | group == group + 128,
{
}

/// Appends the bytes of `code_point` to `into`.
pub fn write_kim_char(code_point: char, into: &mut Vec<u8>)
    ensures
        final(into)@ == old(into)@ + kim_bytes(code_point),
{
    let code = code_point as u32;
    proof {
        lemma_groups(code);
    }
    if code < 0x80 {
        into.push(code as u8);
        assert(into@ == old(into)@ + kim_bytes(code_point));
    } else {
        let high = (code >> 14u32) as u8;
        let middle = ((code >> 7u32) & 0x7f) as u8;
        let low = (code & 0x7f) as u8;
        proof {
            lemma_flag(high);
            lemma_flag(middle);
        }
        if code >= 0x4000 {
            into.push(0x80 | high);
        }
        into.push(0x80 | middle);
        into.push(low);
        assert(into@ == old(into)@ + kim_bytes(code_point));
    }
}

/// Reads one scalar value.
pub fn read_kim_char(reader: &mut ByteReader<'_>) -> (r: Result<char, DecodeError>)
    ensures
        final(reader).source() == old(reader).source(),
        final(reader).consumed() >= old(reader).consumed(),
        match decode_char(old(reader).remaining()) {
            Ok((c, used)) => {
                &&& r == Ok::<char, DecodeError>(c)
                &&& 0 < used <= old(reader).remaining().len()
                &&& final(reader).remaining() == old(reader).remaining().skip(used as int)
                &&& final(reader).consumed() == old(reader).consumed() + used
            },
            Err(e) => r == Err::<char, DecodeError>(e),
        },
{
    let value = match read_continuation(0, reader) {
        Ok(Some(value)) => value,
        Ok(None) => {
            return Err(DecodeError::InvalidData);
        },
        Err(e) => {
            return Err(e);
        },
    };
    if value > 0x10FFFF {
        return Err(DecodeError::InvalidData);
    }
    match char::from_u32(value as u32) {
        Some(c) => Ok(c),
        None => Err(DecodeError::InvalidData),
    }
}

/// Decoding the bytes of a scalar value gives it back, whatever follows them.
pub proof fn lemma_char_round_trip(c: char, rest: Seq<u8>)
    ensures
        decode_char(kim_bytes(c) + rest) == Ok::<(char, nat), DecodeError>(
            (c, kim_bytes(c).len()),
        ),
        0 < kim_bytes(c).len() <= 3,
{
    let code = c as u32;
    let bytes = kim_bytes(c) + rest;
    if code < 0x80 {
        assert(bytes == seq![code as u8] + rest);
        lemma_continuation_step(0, code as u8, rest);
    } else if code < 0x4000 {
        let high = (128 + code / 128) as u8;
        let low = (code % 128) as u8;
        assert(bytes == seq![high] + (seq![low] + rest));
        lemma_continuation_step(0, high, seq![low] + rest);
        lemma_continuation_step((code / 128) as nat, low, rest);
    } else {
        let high = (128 + code / 16384) as u8;
        let middle = (128 + code / 128 % 128) as u8;
        let low = (code % 128) as u8;
        assert(bytes == seq![high] + (seq![middle] + (seq![low] + rest)));
        lemma_continuation_step(0, high, seq![middle] + (seq![low] + rest));
        lemma_continuation_step((code / 16384) as nat, middle, seq![low] + rest);
        lemma_continuation_step((code / 128) as nat, low, rest);
    }
    assert(continuation_value(0, bytes) == Some((code as nat, kim_bytes(c).len())));
    assert(code as char == c);
}

/// The bytes of a scalar value, cut short, are input that ends early.
pub proof fn lemma_char_cut(c: char, kept: nat)
    requires
        kept < kim_bytes(c).len(),
    ensures
        decode_char(kim_bytes(c).take(kept as int)) == Err::<(char, nat), DecodeError>(
            DecodeError::UnexpectedEof,
        ),
{
    let code = c as u32;
    let cut = kim_bytes(c).take(kept as int);
    let none = Seq::<u8>::empty();
    if kept == 0 {
        assert(cut.len() == 0);
    } else if code < 0x4000 {
        let high = (128 + code / 128) as u8;
        assert(cut == seq![high] + none);
        lemma_continuation_step(0, high, none);
    } else {
        let high = (128 + code / 16384) as u8;
        let middle = (128 + code / 128 % 128) as u8;
        if kept == 1 {
            assert(cut == seq![high] + none);
            lemma_continuation_step(0, high, none);
        } else {
            assert(cut == seq![high] + (seq![middle] + none));
            lemma_continuation_step(0, high, seq![middle] + none);
            lemma_continuation_step((code / 16384) as nat, middle, none);
        }
    }
}

} // verus!
