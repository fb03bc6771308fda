//! Properties of the decoder, stated over the models of `segments` and
//! `decode` and proved from them.

use crate::bits::{bit_at, bits_value, can_read};
use crate::decode::{decode_from, mode_of_tag};
use crate::error::DecodeError;
use crate::segments::{
    alphanumeric_chars, alphanumeric_symbol_spec, byte_values, digit, length_bits_spec,
    numeric_digits, prefixed, segment, zero_padded, Mode,
};
use vstd::prelude::*;

verus! {

/// Whether every byte of `d` is an ASCII decimal digit.
pub open spec fn all_digits(d: Seq<u8>) -> bool {
    forall|i: int| 0 <= i < d.len() ==> 48 <= #[trigger] d[i] <= 57
}

/// The number that the ASCII decimal digits `d` spell.
pub open spec fn digits_value(d: Seq<u8>) -> nat
    decreases d.len(),
{
    if d.len() == 0 {
        0
    } else {
        10 * digits_value(d.drop_last()) + (d.last() - 48) as nat
    }
}

/// The width in bits of a numeric group of `n` (1-3) digits.
pub open spec fn numeric_group_bits(n: nat) -> nat {
    if n >= 3 {
        10
    } else if n == 2 {
        7
    } else {
        4
    }
}

/// A version outside 1..=40 has no length-field width, for every mode.
pub proof fn lemma_unsupported_version(mode: Mode, buf: Seq<u8>, pos: int, version: u32)
    requires
        version == 0 || version > 40,
    ensures
        length_bits_spec(mode, version) == Err::<u8, DecodeError>(
            DecodeError::UnsupportedVersion(version),
        ),
        segment(mode, buf, pos, version) == Err::<(Seq<u8>, int), DecodeError>(
            DecodeError::UnsupportedVersion(version),
        ),
{
}

/// With a version outside 1..=40, a stream whose first tag announces a
/// segment fails with `UnsupportedVersion`.
pub proof fn lemma_decode_unsupported_version(buf: Seq<u8>, version: u32)
    requires
        version == 0 || version > 40,
        can_read(buf, 0, 4),
        mode_of_tag(bits_value(buf, 0, 4)) is Some,
    ensures
        decode_from(buf, 0, version) == Err::<Seq<u8>, DecodeError>(
            DecodeError::UnsupportedVersion(version),
        ),
{
    reveal(decode_from);
}

/// Zero-padded formatting of the number that `d` spells gives `d` back,
/// leading zeros included.
pub proof fn lemma_zero_padded_digits(d: Seq<u8>)
    requires
        d.len() >= 1,
        all_digits(d),
    ensures
        zero_padded(digits_value(d), d.len()) == d,
    decreases d.len(),
{
    let v = digits_value(d);
    let last = (d.last() - 48) as nat;
    assert(d.last() == d[d.len() - 1]);
    if d.len() == 1 {
        assert(d.drop_last().len() == 0);
        assert(zero_padded(v, 1) =~= d);
    } else {
        let front = d.drop_last();
        assert(all_digits(front)) by {
            assert forall|i: int| 0 <= i < front.len() implies 48 <= #[trigger] front[i] <= 57 by {
                assert(front[i] == d[i]);
            }
        }
        lemma_zero_padded_digits(front);
        let vf = digits_value(front);
        assert(v == 10 * vf + last);
        assert(v / 10 == vf && v % 10 == last) by (nonlinear_arith)
            requires
                v == 10 * vf + last,
                last < 10,
        ;
        assert(zero_padded(v, d.len()) == zero_padded(vf, front.len()).push(digit(last)));
        assert(digit(last) == d.last());
        assert(front.push(d.last()) =~= d);
    }
}

/// A final numeric group of one to three digits, packed into its width as
/// the number they spell, decodes to exactly those digits.
pub proof fn lemma_numeric_group_round_trip(buf: Seq<u8>, pos: int, d: Seq<u8>)
    requires
        1 <= d.len() <= 3,
        all_digits(d),
        can_read(buf, pos, numeric_group_bits(d.len())),
        bits_value(buf, pos, numeric_group_bits(d.len())) == digits_value(d),
    ensures
        numeric_digits(buf, pos, d.len()) == Ok::<(Seq<u8>, int), DecodeError>(
            (d, pos + numeric_group_bits(d.len())),
        ),
{
    lemma_zero_padded_digits(d);
    let w = numeric_group_bits(d.len());
    assert(numeric_digits(buf, pos + w, 0) == Ok::<(Seq<u8>, int), DecodeError>((seq![], pos + w)));
    assert(d + seq![] =~= d);
}

/// An 11-bit alphanumeric code `45 * c1 + c2` decodes to the symbols of
/// indices `c1` and `c2`, or fails with `InvalidAlphanumericValue` when
/// `c1` is 45 or more.
pub proof fn lemma_alphanumeric_pair(buf: Seq<u8>, pos: int, count: nat, c1: nat, c2: nat)
    requires
        count >= 2,
        c2 < 45,
        can_read(buf, pos, 11),
        bits_value(buf, pos, 11) == 45 * c1 + c2,
    ensures
        c1 <= 44 ==> alphanumeric_chars(buf, pos, count) == prefixed(
            seq![alphanumeric_symbol_spec(c1), alphanumeric_symbol_spec(c2)],
            alphanumeric_chars(buf, pos + 11, (count - 2) as nat),
        ),
        c1 >= 45 ==> alphanumeric_chars(buf, pos, count) == Err::<(Seq<u8>, int), DecodeError>(
            DecodeError::InvalidAlphanumericValue(c1 as u16),
        ),
{
    let v = bits_value(buf, pos, 11);
    assert(v / 45 == c1 && v % 45 == c2) by (nonlinear_arith)
        requires
            v == 45 * c1 + c2,
            c2 < 45,
    ;
}

/// Byte mode hands each 8-bit value on unchanged and in order.
pub proof fn lemma_byte_values_identity(buf: Seq<u8>, pos: int, b: Seq<u8>)
    requires
        can_read(buf, pos, 8 * b.len()),
        forall|j: int| 0 <= j < b.len() ==> bits_value(buf, pos + 8 * j, 8) == b[j],
    ensures
        byte_values(buf, pos, b.len()) == Ok::<(Seq<u8>, int), DecodeError>((b, pos + 8 * b.len())),
    decreases b.len(),
{
    if b.len() > 0 {
        let rest = b.drop_first();
        assert forall|j: int| 0 <= j < rest.len() implies bits_value(buf, (pos + 8) + 8 * j, 8)
            == rest[j] by {
            assert(bits_value(buf, pos + 8 * (j + 1), 8) == b[j + 1]);
            assert((pos + 8) + 8 * j == pos + 8 * (j + 1));
        }
        lemma_byte_values_identity(buf, pos + 8, rest);
        assert(bits_value(buf, pos + 8 * 0, 8) == b[0]);
        assert(seq![b[0]] + rest =~= b);
    } else {
        assert(b =~= seq![]);
    }
}

proof fn lemma_bit_in_byte(buf: Seq<u8>, k: int, i: int)
    requires
        0 <= k < buf.len(),
        0 <= i < 8,
    ensures
        bit_at(buf, 8 * k + i) == (buf[k] >> ((7 - i) as u8)) & 1u8,
{
    assert((8 * k + i) / 8 == k && (8 * k + i) % 8 == i) by (nonlinear_arith)
        requires
            0 <= i < 8,
    ;
}

/// The 8 bits that start on a byte boundary are that byte.
pub proof fn lemma_aligned_byte(buf: Seq<u8>, k: int)
    requires
        0 <= k < buf.len(),
    ensures
        bits_value(buf, 8 * k, 8) == buf[k],
{
    let x = buf[k];
    lemma_bit_in_byte(buf, k, 0);
    lemma_bit_in_byte(buf, k, 1);
    lemma_bit_in_byte(buf, k, 2);
    lemma_bit_in_byte(buf, k, 3);
    lemma_bit_in_byte(buf, k, 4);
    lemma_bit_in_byte(buf, k, 5);
    lemma_bit_in_byte(buf, k, 6);
    lemma_bit_in_byte(buf, k, 7);
    reveal_with_fuel(bits_value, 9);
    assert(x as nat == 2 * (2 * (2 * (2 * (2 * (2 * (2 * ((x >> 7u8) & 1u8) as nat + ((x >> 6u8) & 1u8) as nat)
        + ((x >> 5u8) & 1u8) as nat) + ((x >> 4u8) & 1u8) as nat) + ((x >> 3u8) & 1u8) as nat)
        + ((x >> 2u8) & 1u8) as nat) + ((x >> 1u8) & 1u8) as nat) + ((x >> 0u8) & 1u8) as nat) by {
        assert(x as u32 == 2 * (2 * (2 * (2 * (2 * (2 * (2 * ((x >> 7u8) & 1u8) as u32 + ((x >> 6u8) & 1u8) as u32)
            + ((x >> 5u8) & 1u8) as u32) + ((x >> 4u8) & 1u8) as u32) + ((x >> 3u8) & 1u8) as u32)
            + ((x >> 2u8) & 1u8) as u32) + ((x >> 1u8) & 1u8) as u32) + ((x >> 0u8) & 1u8) as u32)
            by (bit_vector);
    }
}

/// Byte mode on a byte boundary returns the buffer's own bytes.
pub proof fn lemma_aligned_bytes_identity(buf: Seq<u8>, k: int, count: nat)
    requires
        0 <= k,
        k + count <= buf.len(),
    ensures
        byte_values(buf, 8 * k, count) == Ok::<(Seq<u8>, int), DecodeError>(
            (buf.subrange(k, k + count), 8 * (k + count)),
        ),
{
    let b = buf.subrange(k, k + count);
    assert forall|j: int| 0 <= j < b.len() implies bits_value(buf, 8 * k + 8 * j, 8) == b[j] by {
        lemma_aligned_byte(buf, k + j);
        assert(8 * k + 8 * j == 8 * (k + j));
    }
    lemma_byte_values_identity(buf, 8 * k, b);
}

/// A terminator tag ends the decode at once: whatever follows it, nothing
/// more is read and no further content is added.
pub proof fn lemma_terminator_stops(buf: Seq<u8>, pos: int, version: u32)
    requires
        can_read(buf, pos, 4),
        bits_value(buf, pos, 4) == 0,
    ensures
        decode_from(buf, pos, version) == Ok::<Seq<u8>, DecodeError>(seq![]),
{
    reveal(decode_from);
}

/// A numeric tag followed by fewer bits than any length field needs fails
/// with `InsufficientBits` naming the field's width.
pub proof fn lemma_truncated_numeric(buf: Seq<u8>, pos: int, version: u32)
    requires
        1 <= version <= 40,
        can_read(buf, pos, 4),
        bits_value(buf, pos, 4) == 1,
        8 * buf.len() - (pos + 4) < 10,
    ensures
        decode_from(buf, pos, version) == Err::<Seq<u8>, DecodeError>(
            DecodeError::InsufficientBits(length_bits_spec(Mode::Numeric, version).unwrap()),
        ),
{
    reveal(decode_from);
}

} // verus!
