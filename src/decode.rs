//! The mode dispatcher: reads 4-bit mode tags and the segments they
//! announce until a terminator or the end of the buffer.

use crate::bits::{bits_value, can_read, lemma_bits_value_bound, BitCursor};
use vstd::arithmetic::power2::lemma2_to64;
use crate::error::DecodeError;
use crate::segments::{
    alphanumeric, alphanumeric_chars, byte_values, eight_bit, numeric, numeric_digits, segment, Mode,
};
use vstd::prelude::*;

verus! {

/// The segment kind announced by a 4-bit mode tag; `None` for the
/// terminator `0000` and for every tag this decoder does not support.
pub open spec fn mode_of_tag(tag: nat) -> Option<Mode> {
    if tag == 1 {
        Some(Mode::Numeric)
    } else if tag == 2 {
        Some(Mode::Alphanumeric)
    } else if tag == 4 {
        Some(Mode::Byte)
    } else {
        None
    }
}

proof fn lemma_numeric_digits_end(buf: Seq<u8>, pos: int, count: nat)
    requires
        0 <= pos <= 8 * buf.len(),
    ensures
        numeric_digits(buf, pos, count) matches Ok((_, p)) ==> pos <= p <= 8 * buf.len(),
    decreases count,
{
    if count >= 3 && can_read(buf, pos, 10) {
        lemma_numeric_digits_end(buf, pos + 10, (count - 3) as nat);
    } else if count == 2 && can_read(buf, pos, 7) {
        lemma_numeric_digits_end(buf, pos + 7, 0);
    } else if count == 1 && can_read(buf, pos, 4) {
        lemma_numeric_digits_end(buf, pos + 4, 0);
    }
}

proof fn lemma_alphanumeric_chars_end(buf: Seq<u8>, pos: int, count: nat)
    requires
        0 <= pos <= 8 * buf.len(),
    ensures
        alphanumeric_chars(buf, pos, count) matches Ok((_, p)) ==> pos <= p <= 8 * buf.len(),
    decreases count,
{
    if count >= 2 && can_read(buf, pos, 11) {
        lemma_alphanumeric_chars_end(buf, pos + 11, (count - 2) as nat);
    }
}

proof fn lemma_byte_values_end(buf: Seq<u8>, pos: int, count: nat)
    requires
        0 <= pos <= 8 * buf.len(),
    ensures
        byte_values(buf, pos, count) matches Ok((_, p)) ==> pos <= p <= 8 * buf.len(),
    decreases count,
{
    if count > 0 && can_read(buf, pos, 8) {
        lemma_byte_values_end(buf, pos + 8, (count - 1) as nat);
    }
}

/// A decoded segment ends inside the buffer, no earlier than it began.
pub proof fn lemma_segment_end(mode: Mode, buf: Seq<u8>, pos: int, version: u32)
    requires
        0 <= pos <= 8 * buf.len(),
    ensures
        segment(mode, buf, pos, version) matches Ok((_, p)) ==> pos <= p <= 8 * buf.len(),
{
    if let Ok(w) = crate::segments::length_bits_spec(mode, version) {
        if can_read(buf, pos, w as nat) {
            let count = bits_value(buf, pos, w as nat);
            match mode {
                Mode::Numeric => lemma_numeric_digits_end(buf, pos + w, count),
                Mode::Alphanumeric => lemma_alphanumeric_chars_end(buf, pos + w, count),
                Mode::Byte => lemma_byte_values_end(buf, pos + w, count),
            }
        }
    }
}

/// The bytes decoded from bit `pos` on: mode tags and their segments until a
/// terminator tag, or until fewer than 4 bits are left, which ends the
/// stream as a terminator would.
#[verifier::opaque]
pub open spec fn decode_from(buf: Seq<u8>, pos: int, version: u32) -> Result<Seq<u8>, DecodeError>
    decreases 8 * buf.len() - pos,
{
    if !can_read(buf, pos, 4) {
        Ok(seq![])
    } else {
        let tag = bits_value(buf, pos, 4);
        if tag == 0 {
            Ok(seq![])
        } else {
            match mode_of_tag(tag) {
                None => Err(DecodeError::UnsupportedMode(tag as u8)),
                Some(mode) => match segment(mode, buf, pos + 4, version) {
                    Err(e) => Err(e),
                    Ok((s, p)) => {
                        proof {
                            lemma_segment_end(mode, buf, pos + 4, version);
                        }
                        match decode_from(buf, p, version) {
                            Ok(t) => Ok(s + t),
                            Err(e) => Err(e),
                        }
                    },
                },
            }
        }
    }
}

/// The bytes that a whole buffer decodes to, for a symbol of `version`.
pub open spec fn decode_spec(buf: Seq<u8>, version: u32) -> Result<Seq<u8>, DecodeError> {
    decode_from(buf, 0, version)
}

/// `r` with `pre` put in front of its bytes.
pub open spec fn then_append(pre: Seq<u8>, r: Result<Seq<u8>, DecodeError>) -> Result<Seq<u8>, DecodeError> {
    match r {
        Ok(t) => Ok(pre + t),
        Err(e) => Err(e),
    }
}

proof fn lemma_decode_stops(buf: Seq<u8>, pos: int, version: u32)
    requires
        !can_read(buf, pos, 4) || bits_value(buf, pos, 4) == 0,
    ensures
        decode_from(buf, pos, version) == Ok::<Seq<u8>, DecodeError>(seq![]),
{
    reveal(decode_from);
}

proof fn lemma_decode_unsupported(buf: Seq<u8>, pos: int, version: u32)
    requires
        can_read(buf, pos, 4),
        bits_value(buf, pos, 4) != 0,
        mode_of_tag(bits_value(buf, pos, 4)) is None,
    ensures
        decode_from(buf, pos, version) == Err::<Seq<u8>, DecodeError>(
            DecodeError::UnsupportedMode(bits_value(buf, pos, 4) as u8),
        ),
{
    reveal(decode_from);
}

proof fn lemma_decode_segment(buf: Seq<u8>, pos: int, version: u32, mode: Mode)
    requires
        can_read(buf, pos, 4),
        mode_of_tag(bits_value(buf, pos, 4)) == Some(mode),
    ensures
        decode_from(buf, pos, version) == match segment(mode, buf, pos + 4, version) {
            Err(e) => Err(e),
            Ok((s, p)) => then_append(s, decode_from(buf, p, version)),
        },
{
    reveal(decode_from);
}

/// Decodes the data region `input` of a symbol of `version` into the
/// concatenated content of its segments. Any failure is returned alone,
/// without the content decoded before it.
pub fn data(input: Vec<u8>, version: u32) -> (r: Result<Vec<u8>, DecodeError>)
    ensures
        match decode_spec(input@, version) {
            Ok(s) => r.is_ok() && r.unwrap()@ == s,
            Err(e) => r == Err::<Vec<u8>, DecodeError>(e),
        },
{
    let ghost buf = input@;
    let mut cursor = BitCursor::new(input);
    let mut result: Vec<u8> = Vec::new();
    assert(result@ + seq![] =~= seq![]);
    loop
        invariant
            cursor.wf(),
            cursor.buffer() == buf,
            buf == input@,
            0 <= cursor.pos() <= 8 * buf.len(),
            decode_spec(buf, version) == then_append(result@, decode_from(buf, cursor.pos(), version)),
        decreases 8 * buf.len() - cursor.pos(),
    {
        let ghost pos = cursor.pos();
        let mode = match cursor.read(4) {
            Some(m) => m,
            None => {
                proof {
                    lemma_decode_stops(buf, pos, version);
                }
                assert(result@ + seq![] =~= result@);
                return Ok(result);
            },
        };
        let ghost before = result@;
        let ghost cursor_at_segment = cursor;
        let segment_result = if mode == 0b0001 {
            numeric(&mut cursor, version)
        } else if mode == 0b0010 {
            alphanumeric(&mut cursor, version)
        } else if mode == 0b0100 {
            eight_bit(&mut cursor, version)
        } else if mode == 0b0000 {
            proof {
                lemma_decode_stops(buf, pos, version);
            }
            assert(result@ + seq![] =~= result@);
            return Ok(result);
        } else {
            proof {
                lemma_decode_unsupported(buf, pos, version);
                lemma_bits_value_bound(buf, pos, 4);
                lemma2_to64();
            }
            return Err(DecodeError::UnsupportedMode(mode as u8));
        };
        let ghost m = mode_of_tag(mode as nat).unwrap();
        proof {
            lemma_decode_segment(buf, pos, version, m);
            lemma_segment_end(m, buf, pos + 4, version);
        }
        let mut fragment = match segment_result {
            Ok(f) => f,
            Err(e) => return Err(e),
        };
        let ghost frag = fragment@;
        result.append(&mut fragment);
        proof {
            let rest = decode_from(buf, cursor.pos(), version);
            match rest {
                Ok(t) => {
                    assert(before + (frag + t) =~= (before + frag) + t);
                },
                Err(e) => {},
            }
        }
    }
}

} // verus!
