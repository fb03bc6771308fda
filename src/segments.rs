//! The three segment decoders: numeric, alphanumeric and byte mode. Each
//! reads a length field whose width depends on the symbol version, then
//! that many characters or bytes.

use crate::bits::{bits_value, can_read, lemma_bits_value_bound, BitCursor};
use vstd::arithmetic::power2::{lemma2_to64, lemma_pow2_strictly_increases};
use crate::error::DecodeError;
use vstd::prelude::*;

verus! {

/// The segment kinds this decoder understands.
#[derive(Clone, Copy, Debug, PartialEq, Eq, Structural)]
pub enum Mode {
    Numeric,
    Alphanumeric,
    Byte,
}

/// Width in bits of the length field of a `mode` segment in a symbol of
/// `version`: versions 1-9, 10-26 and 27-40 form three bands.
pub open spec fn length_bits_spec(mode: Mode, version: u32) -> Result<u8, DecodeError> {
    if 1 <= version <= 9 {
        Ok(
            match mode {
                Mode::Numeric => 10u8,
                Mode::Alphanumeric => 9u8,
                Mode::Byte => 8u8,
            },
        )
    } else if 10 <= version <= 26 {
        Ok(
            match mode {
                Mode::Numeric => 12u8,
                Mode::Alphanumeric => 11u8,
                Mode::Byte => 16u8,
            },
        )
    } else if 27 <= version <= 40 {
        Ok(
            match mode {
                Mode::Numeric => 14u8,
                Mode::Alphanumeric => 13u8,
                Mode::Byte => 16u8,
            },
        )
    } else {
        Err(DecodeError::UnsupportedVersion(version))
    }
}

/// The length-field width of a `mode` segment for `version`; an error for a
/// version outside 1..=40.
pub fn length_bits(mode: Mode, version: u32) -> (r: Result<u8, DecodeError>)
    ensures
        r == length_bits_spec(mode, version),
{
    if 1 <= version && version <= 9 {
        Ok(
            match mode {
                Mode::Numeric => 10,
                Mode::Alphanumeric => 9,
                Mode::Byte => 8,
            },
        )
    } else if 10 <= version && version <= 26 {
        Ok(
            match mode {
                Mode::Numeric => 12,
                Mode::Alphanumeric => 11,
                Mode::Byte => 16,
            },
        )
    } else if 27 <= version && version <= 40 {
        Ok(
            match mode {
                Mode::Numeric => 14,
                Mode::Alphanumeric => 13,
                Mode::Byte => 16,
            },
        )
    } else {
        Err(DecodeError::UnsupportedVersion(version))
    }
}

/// The ASCII digit for `d` (0-9).
pub open spec fn digit(d: nat) -> u8 {
    (48 + d) as u8
}

/// The decimal digits of `v`, padded on the left with `0` to at least
/// `width` characters.
pub open spec fn zero_padded(v: nat, width: nat) -> Seq<u8>
    decreases v + width,
{
    if v < 10 && width <= 1 {
        seq![digit(v)]
    } else {
        zero_padded(v / 10, if width > 0 { (width - 1) as nat } else { 0 }).push(digit(v % 10))
    }
}

/// Appends the decimal digits of `v`, padded on the left with `0` to at
/// least `width` characters.
pub fn push_zero_padded(out: &mut Vec<u8>, v: u16, width: u8)
    ensures
        final(out)@ == old(out)@ + zero_padded(v as nat, width as nat),
    decreases v + width,
{
    if v < 10 && width <= 1 {
        out.push(48 + v as u8);
    } else {
        push_zero_padded(out, v / 10, if width > 0 { width - 1 } else { 0 });
        out.push(48 + (v % 10) as u8);
        assert(final(out)@ =~= old(out)@ + zero_padded(v as nat, width as nat));
    }
}

/// The outcome of decoding part of a stream: the decoded bytes and the bit
/// position just after them, or the failure.
pub type Decoded = Result<(Seq<u8>, int), DecodeError>;

/// `r` with `pre` put in front of its bytes.
pub open spec fn prefixed(pre: Seq<u8>, r: Decoded) -> Decoded {
    match r {
        Ok((s, p)) => Ok((pre + s, p)),
        Err(e) => Err(e),
    }
}

/// Putting `b` and then `a` in front is putting `a + b` in front.
pub proof fn lemma_prefixed_assoc(a: Seq<u8>, b: Seq<u8>, r: Decoded)
    ensures
        prefixed(a, prefixed(b, r)) == prefixed(a + b, r),
{
    match r {
        Ok((s, p)) => {
            assert(a + (b + s) =~= (a + b) + s);
        },
        Err(e) => {},
    }
}

/// The digits of `count` numeric characters at bit `pos`: groups of three
/// digits in 10 bits, a final pair in 7 bits or a final digit in 4 bits.
pub open spec fn numeric_digits(buf: Seq<u8>, pos: int, count: nat) -> Decoded
    decreases count,
{
    if count == 0 {
        Ok((seq![], pos))
    } else {
        let w: nat = if count >= 3 { 10 } else if count == 2 { 7 } else { 4 };
        let n: nat = if count >= 3 { 3 } else { count };
        if !can_read(buf, pos, w) {
            Err(DecodeError::InsufficientBits(w as u8))
        } else {
            prefixed(
                zero_padded(bits_value(buf, pos, w), n),
                numeric_digits(buf, pos + w, (count - n) as nat),
            )
        }
    }
}

/// The symbol of index `i` (0-44) in the alphanumeric alphabet
/// `0123456789ABCDEFGHIJKLMNOPQRSTUVWXYZ $%*+-./:`.
pub open spec fn alphanumeric_symbol_spec(i: nat) -> u8 {
    if i < 10 {
        (48 + i) as u8
    } else if i < 36 {
        (65 + i - 10) as u8
    } else if i == 36 {
        32u8
    } else if i == 37 {
        36u8
    } else if i == 38 {
        37u8
    } else if i == 39 {
        42u8
    } else if i == 40 {
        43u8
    } else if i == 41 {
        45u8
    } else if i == 42 {
        46u8
    } else if i == 43 {
        47u8
    } else {
        58u8
    }
}

/// The symbol of index `i` in the alphanumeric alphabet, as an ASCII byte.
pub fn alphanumeric_symbol(i: u16) -> (r: u8)
    requires
        i < 45,
    ensures
        r == alphanumeric_symbol_spec(i as nat),
{
    if i < 10 {
        48 + i as u8
    } else if i < 36 {
        65 + (i - 10) as u8
    } else if i == 36 {
        32  // space
    } else if i == 37 {
        36  // '$'
    } else if i == 38 {
        37  // '%'
    } else if i == 39 {
        42  // '*'
    } else if i == 40 {
        43  // '+'
    } else if i == 41 {
        45  // '-'
    } else if i == 42 {
        46  // '.'
    } else if i == 43 {
        47  // '/'
    } else {
        58  // ':'
    }
}

/// The characters of `count` alphanumeric symbols at bit `pos`: pairs in 11
/// bits as `45 * first + second`, a final single symbol in 6 bits.
pub open spec fn alphanumeric_chars(buf: Seq<u8>, pos: int, count: nat) -> Decoded
    decreases count,
{
    if count == 0 {
        Ok((seq![], pos))
    } else if count >= 2 {
        if !can_read(buf, pos, 11) {
            Err(DecodeError::InsufficientBits(11))
        } else {
            let v = bits_value(buf, pos, 11);
            if v / 45 > 44 {
                Err(DecodeError::InvalidAlphanumericValue((v / 45) as u16))
            } else {
                prefixed(
                    seq![alphanumeric_symbol_spec(v / 45), alphanumeric_symbol_spec(v % 45)],
                    alphanumeric_chars(buf, pos + 11, (count - 2) as nat),
                )
            }
        }
    } else {
        if !can_read(buf, pos, 6) {
            Err(DecodeError::InsufficientBits(6))
        } else {
            let i = bits_value(buf, pos, 6);
            if i > 44 {
                Err(DecodeError::InvalidAlphanumericValue(i as u16))
            } else {
                Ok((seq![alphanumeric_symbol_spec(i)], pos + 6))
            }
        }
    }
}

/// The `count` bytes at bit `pos`, 8 bits each, as they stand.
pub open spec fn byte_values(buf: Seq<u8>, pos: int, count: nat) -> Decoded
    decreases count,
{
    if count == 0 {
        Ok((seq![], pos))
    } else if !can_read(buf, pos, 8) {
        Err(DecodeError::InsufficientBits(8))
    } else {
        prefixed(seq![bits_value(buf, pos, 8) as u8], byte_values(buf, pos + 8, (count - 1) as nat))
    }
}

/// A whole `mode` segment whose length field starts at bit `pos`: the
/// length field, then the characters or bytes it counts.
pub open spec fn segment(mode: Mode, buf: Seq<u8>, pos: int, version: u32) -> Decoded {
    match length_bits_spec(mode, version) {
        Err(e) => Err(e),
        Ok(w) => if !can_read(buf, pos, w as nat) {
            Err(DecodeError::InsufficientBits(w))
        } else {
            let count = bits_value(buf, pos, w as nat);
            let p = pos + w;
            match mode {
                Mode::Numeric => numeric_digits(buf, p, count),
                Mode::Alphanumeric => alphanumeric_chars(buf, p, count),
                Mode::Byte => byte_values(buf, p, count),
            }
        },
    }
}

/// A segment decoder that started at cursor `old`, returned `r` and left the
/// cursor at `new` did what the model outcome `d` says: on success it
/// returned the decoded bytes and stopped just after them, on failure it
/// returned the same error.
pub open spec fn agrees(d: Decoded, old: BitCursor, new: BitCursor, r: Result<Vec<u8>, DecodeError>) -> bool {
    &&& new.wf()
    &&& new.buffer() == old.buffer()
    &&& 0 <= new.pos() <= 8 * new.buffer().len()
    &&& match d {
        Ok((s, p)) => r.is_ok() && r.unwrap()@ == s && new.pos() == p,
        Err(e) => r == Err::<Vec<u8>, DecodeError>(e),
    }
}

/// Reads `bits` (1-16) bits; an `InsufficientBits` error naming the width
/// when fewer are left.
pub fn read_bits_u16(cursor: &mut BitCursor, bits: u8) -> (r: Result<u16, DecodeError>)
    requires
        old(cursor).wf(),
        1 <= bits <= 16,
    ensures
        final(cursor).wf(),
        final(cursor).buffer() == old(cursor).buffer(),
        0 <= final(cursor).pos() <= 8 * final(cursor).buffer().len(),
        match r {
            Ok(v) => {
                &&& can_read(old(cursor).buffer(), old(cursor).pos(), bits as nat)
                &&& v as nat == bits_value(old(cursor).buffer(), old(cursor).pos(), bits as nat)
                &&& final(cursor).pos() == old(cursor).pos() + bits
            },
            Err(e) => {
                &&& !can_read(old(cursor).buffer(), old(cursor).pos(), bits as nat)
                &&& e == DecodeError::InsufficientBits(bits)
                &&& final(cursor).pos() == old(cursor).pos()
            },
        },
{
    match cursor.read(bits) {
        Some(v) => Ok(v),
        None => Err(DecodeError::InsufficientBits(bits)),
    }
}

/// Reads `bits` (1-8) bits into a byte; an `InsufficientBits` error naming
/// the width when fewer are left.
pub fn read_bits(cursor: &mut BitCursor, bits: u8) -> (r: Result<u8, DecodeError>)
    requires
        old(cursor).wf(),
        1 <= bits <= 8,
    ensures
        final(cursor).wf(),
        final(cursor).buffer() == old(cursor).buffer(),
        0 <= final(cursor).pos() <= 8 * final(cursor).buffer().len(),
        match r {
            Ok(v) => {
                &&& can_read(old(cursor).buffer(), old(cursor).pos(), bits as nat)
                &&& v as nat == bits_value(old(cursor).buffer(), old(cursor).pos(), bits as nat)
                &&& final(cursor).pos() == old(cursor).pos() + bits
            },
            Err(e) => {
                &&& !can_read(old(cursor).buffer(), old(cursor).pos(), bits as nat)
                &&& e == DecodeError::InsufficientBits(bits)
                &&& final(cursor).pos() == old(cursor).pos()
            },
        },
{
    let v = read_bits_u16(cursor, bits)?;
    proof {
        lemma_bits_value_bound(old(cursor).buffer(), old(cursor).pos(), bits as nat);
        if bits < 8 {
            lemma_pow2_strictly_increases(bits as nat, 8);
        }
        lemma2_to64();
    }
    Ok(v as u8)
}

/// Decodes a numeric segment whose length field is next in `cursor`, into
/// its decimal digits as ASCII.
pub fn numeric(cursor: &mut BitCursor, version: u32) -> (r: Result<Vec<u8>, DecodeError>)
    requires
        old(cursor).wf(),
    ensures
        agrees(
            segment(Mode::Numeric, old(cursor).buffer(), old(cursor).pos(), version),
            *old(cursor),
            *final(cursor),
            r,
        ),
{
    proof {
        cursor.lemma_pos_bounds();
    }
    let length_bits = length_bits(Mode::Numeric, version)?;
    let count = read_bits_u16(cursor, length_bits)?;
    let ghost buf = cursor.buffer();
    let ghost start = cursor.pos();
    let mut left: u16 = count;
    let mut result: Vec<u8> = Vec::new();
    assert(result@ + seq![] =~= seq![]);
    while left > 0
        invariant
            cursor.wf(),
            cursor.buffer() == buf,
            buf == old(cursor).buffer(),
            0 <= cursor.pos() <= 8 * buf.len(),
            segment(Mode::Numeric, old(cursor).buffer(), old(cursor).pos(), version) == numeric_digits(
                buf,
                start,
                count as nat,
            ),
            numeric_digits(buf, start, count as nat) == prefixed(
                result@,
                numeric_digits(buf, cursor.pos(), left as nat),
            ),
        decreases left,
    {
        let ghost before = result@;
        let ghost pos = cursor.pos();
        if left >= 3 {
            let digits = match read_bits_u16(cursor, 10) {
                Ok(v) => v,
                Err(e) => {
                    assert(numeric_digits(buf, pos, left as nat) == Err::<(Seq<u8>, int), DecodeError>(e));
                    return Err(e);
                },
            };
            push_zero_padded(&mut result, digits, 3);
            left = left - 3;
            proof {
                lemma_prefixed_assoc(before, zero_padded(digits as nat, 3), numeric_digits(buf, pos + 10, left as nat));
            }
        } else if left == 2 {
            let digits = match read_bits_u16(cursor, 7) {
                Ok(v) => v,
                Err(e) => {
                    assert(numeric_digits(buf, pos, left as nat) == Err::<(Seq<u8>, int), DecodeError>(e));
                    return Err(e);
                },
            };
            push_zero_padded(&mut result, digits, 2);
            left = 0;
            proof {
                lemma_prefixed_assoc(before, zero_padded(digits as nat, 2), numeric_digits(buf, pos + 7, 0));
            }
        } else {
            let digits = match read_bits_u16(cursor, 4) {
                Ok(v) => v,
                Err(e) => {
                    assert(numeric_digits(buf, pos, left as nat) == Err::<(Seq<u8>, int), DecodeError>(e));
                    return Err(e);
                },
            };
            push_zero_padded(&mut result, digits, 1);
            left = 0;
            proof {
                lemma_prefixed_assoc(before, zero_padded(digits as nat, 1), numeric_digits(buf, pos + 4, 0));
            }
        }
    }
    assert(result@ + seq![] =~= result@);
    Ok(result)
}

/// Decodes an alphanumeric segment whose length field is next in `cursor`,
/// into its symbols as ASCII.
pub fn alphanumeric(cursor: &mut BitCursor, version: u32) -> (r: Result<Vec<u8>, DecodeError>)
    requires
        old(cursor).wf(),
    ensures
        agrees(
            segment(Mode::Alphanumeric, old(cursor).buffer(), old(cursor).pos(), version),
            *old(cursor),
            *final(cursor),
            r,
        ),
{
    proof {
        cursor.lemma_pos_bounds();
    }
    let length_bits = length_bits(Mode::Alphanumeric, version)?;
    let count = read_bits_u16(cursor, length_bits)?;
    let ghost buf = cursor.buffer();
    let ghost start = cursor.pos();
    let mut left: u16 = count;
    let mut result: Vec<u8> = Vec::new();
    assert(result@ + seq![] =~= seq![]);
    while left > 0
        invariant
            cursor.wf(),
            cursor.buffer() == buf,
            buf == old(cursor).buffer(),
            0 <= cursor.pos() <= 8 * buf.len(),
            segment(Mode::Alphanumeric, old(cursor).buffer(), old(cursor).pos(), version) == alphanumeric_chars(
                buf,
                start,
                count as nat,
            ),
            alphanumeric_chars(buf, start, count as nat) == prefixed(
                result@,
                alphanumeric_chars(buf, cursor.pos(), left as nat),
            ),
        decreases left,
    {
        let ghost before = result@;
        let ghost pos = cursor.pos();
        if left >= 2 {
            let chars = match read_bits_u16(cursor, 11) {
                Ok(v) => v,
                Err(e) => {
                    assert(alphanumeric_chars(buf, pos, left as nat) == Err::<(Seq<u8>, int), DecodeError>(e));
                    return Err(e);
                },
            };
            let first = chars / 45;
            let second = chars % 45;
            if first > 44 {
                assert(alphanumeric_chars(buf, pos, left as nat) == Err::<(Seq<u8>, int), DecodeError>(
                    DecodeError::InvalidAlphanumericValue(first),
                ));
                return Err(DecodeError::InvalidAlphanumericValue(first));
            }
            result.push(alphanumeric_symbol(first));
            result.push(alphanumeric_symbol(second));
            left = left - 2;
            proof {
                let pair = seq![alphanumeric_symbol_spec(first as nat), alphanumeric_symbol_spec(second as nat)];
                assert(result@ =~= before + pair);
                lemma_prefixed_assoc(before, pair, alphanumeric_chars(buf, pos + 11, left as nat));
            }
        } else {
            let index = match read_bits_u16(cursor, 6) {
                Ok(v) => v,
                Err(e) => {
                    assert(alphanumeric_chars(buf, pos, left as nat) == Err::<(Seq<u8>, int), DecodeError>(e));
                    return Err(e);
                },
            };
            if index > 44 {
                assert(alphanumeric_chars(buf, pos, left as nat) == Err::<(Seq<u8>, int), DecodeError>(
                    DecodeError::InvalidAlphanumericValue(index),
                ));
                return Err(DecodeError::InvalidAlphanumericValue(index));
            }
            result.push(alphanumeric_symbol(index));
            left = 0;
            assert(result@ + seq![] =~= before + seq![alphanumeric_symbol_spec(index as nat)]);
        }
    }
    assert(result@ + seq![] =~= result@);
    Ok(result)
}

/// Decodes a byte segment whose length field is next in `cursor`, into its
/// bytes as they stand.
pub fn eight_bit(cursor: &mut BitCursor, version: u32) -> (r: Result<Vec<u8>, DecodeError>)
    requires
        old(cursor).wf(),
    ensures
        agrees(
            segment(Mode::Byte, old(cursor).buffer(), old(cursor).pos(), version),
            *old(cursor),
            *final(cursor),
            r,
        ),
{
    proof {
        cursor.lemma_pos_bounds();
    }
    let length_bits = length_bits(Mode::Byte, version)?;
    let count = read_bits_u16(cursor, length_bits)?;
    let ghost buf = cursor.buffer();
    let ghost start = cursor.pos();
    let mut left: u16 = count;
    let mut result: Vec<u8> = Vec::new();
    assert(result@ + seq![] =~= seq![]);
    while left > 0
        invariant
            cursor.wf(),
            cursor.buffer() == buf,
            buf == old(cursor).buffer(),
            0 <= cursor.pos() <= 8 * buf.len(),
            segment(Mode::Byte, old(cursor).buffer(), old(cursor).pos(), version) == byte_values(
                buf,
                start,
                count as nat,
            ),
            byte_values(buf, start, count as nat) == prefixed(
                result@,
                byte_values(buf, cursor.pos(), left as nat),
            ),
        decreases left,
    {
        let ghost before = result@;
        let ghost pos = cursor.pos();
        let byte = match read_bits(cursor, 8) {
            Ok(v) => v,
            Err(e) => {
                assert(byte_values(buf, pos, left as nat) == Err::<(Seq<u8>, int), DecodeError>(e));
                return Err(e);
            },
        };
        result.push(byte);
        left = left - 1;
        proof {
            assert(result@ =~= before + seq![byte]);
            lemma_prefixed_assoc(before, seq![byte], byte_values(buf, pos + 8, left as nat));
        }
    }
    assert(result@ + seq![] =~= result@);
    Ok(result)
}

} // verus!
