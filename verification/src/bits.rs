//! Bit-level packing of sensor values into lines of bytes.
//!
//! A line is a byte buffer; bit position `p` of a line is bit `p % 8`
//! (counted from the least significant bit) of byte `p / 8`. A field of
//! `length` bits starting at bit `offset` holds an unsigned value whose bit
//! `j` is stored at line bit `offset + j`.
use vstd::arithmetic::div_mod::*;
use vstd::arithmetic::power2::*;
use vstd::prelude::*;

verus! {

/// Bit `pos` of `line`.
pub open spec fn line_bit(line: Seq<u8>, pos: int) -> bool {
    (line[pos / 8] >> ((pos % 8) as u8)) & 1u8 == 1u8
}

/// Bit `j` of the number `value`.
pub open spec fn value_bit(value: nat, j: nat) -> bool {
    (value / pow2(j)) % 2 == 1
}

/// The unsigned value held by the `length` bits of `line` that start at bit `offset`.
pub open spec fn decoded_value(line: Seq<u8>, offset: int, length: nat) -> nat
    decreases length,
{
    if length == 0 {
        0
    } else {
        (if line_bit(line, offset) { 1nat } else { 0nat }) + 2 * decoded_value(
            line,
            offset + 1,
            (length - 1) as nat,
        )
    }
}

/// `out` is `line` with the `length` bits starting at bit `offset` replaced by the
/// low `length` bits of `value`, and every other bit left as it was.
pub open spec fn is_encoding(
    out: Seq<u8>,
    line: Seq<u8>,
    value: nat,
    offset: int,
    length: nat,
) -> bool {
    &&& out.len() == line.len()
    &&& forall|p: int|
        0 <= p < 8 * line.len() ==> #[trigger] line_bit(out, p) == (if offset <= p < offset
            + length {
            value_bit(value, (p - offset) as nat)
        } else {
            line_bit(line, p)
        })
}

/// A field of `length` bits at `offset` lies inside a line of `n_bytes` bytes and
/// fits a `u32`.
pub open spec fn field_fits(offset: int, length: int, n_bytes: int) -> bool {
    0 <= offset && 0 <= length <= 32 && offset + length <= 8 * n_bytes
}

proof fn lemma_bit_is_zero_or_one(x: u8, s: u8)
    requires
        s < 8,
    ensures
        (x >> s) & 1u8 == 0u8 || (x >> s) & 1u8 == 1u8,
{
    assert((x >> s) & 1u8 == 0u8 || (x >> s) & 1u8 == 1u8) by (bit_vector);
}

proof fn lemma_set_bit(x: u8, s: u8, t: u8)
    requires
        s < 8,
        t < 8,
    ensures
        ((x | (1u8 << s)) >> t) & 1u8 == (if t == s { 1u8 } else { (x >> t) & 1u8 }),
        ((x & !(1u8 << s)) >> t) & 1u8 == (if t == s { 0u8 } else { (x >> t) & 1u8 }),
{
    assert(((x | (1u8 << s)) >> t) & 1u8 == (if t == s { 1u8 } else { (x >> t) & 1u8 }))
        by (bit_vector)
        requires
            s < 8,
            t < 8,
    ;
    assert(((x & !(1u8 << s)) >> t) & 1u8 == (if t == s { 0u8 } else { (x >> t) & 1u8 }))
        by (bit_vector)
        requires
            s < 8,
            t < 8,
    ;
}

/// The value decoded from `length` bits is below `2^length`.
pub proof fn lemma_decoded_value_bound(line: Seq<u8>, offset: int, length: nat)
    ensures
        decoded_value(line, offset, length) < pow2(length),
    decreases length,
{
    if length == 0 {
        lemma2_to64();
    } else {
        lemma_decoded_value_bound(line, offset + 1, (length - 1) as nat);
        lemma_pow2_unfold(length);
    }
}

/// Decoding only looks at the bits of the field.
pub proof fn lemma_decoded_value_depends_on_field(
    a: Seq<u8>,
    b: Seq<u8>,
    offset: int,
    length: nat,
)
    requires
        forall|p: int| offset <= p < offset + length ==> line_bit(a, p) == line_bit(b, p),
    ensures
        decoded_value(a, offset, length) == decoded_value(b, offset, length),
    decreases length,
{
    if length > 0 {
        assert(line_bit(a, offset) == line_bit(b, offset));
        lemma_decoded_value_depends_on_field(a, b, offset + 1, (length - 1) as nat);
    }
}

/// Reading a field whose bits are those of `value` gives `value` modulo `2^length`.
pub proof fn lemma_decode_bits_of_value(line: Seq<u8>, offset: int, length: nat, value: nat)
    requires
        forall|j: nat| j < length ==> line_bit(line, offset + j) == #[trigger] value_bit(value, j),
    ensures
        decoded_value(line, offset, length) == value % pow2(length),
    decreases length,
{
    if length == 0 {
        lemma2_to64();
    } else {
        let rest = (length - 1) as nat;
        assert forall|j: nat| j < rest implies line_bit(line, offset + 1 + j) == #[trigger] value_bit(
            value / 2,
            j,
        ) by {
            assert(line_bit(line, offset + (j + 1) as nat) == value_bit(value, (j + 1) as nat));
            assert(offset + (j + 1) as nat == offset + 1 + j);
            lemma_pow2_unfold((j + 1) as nat);
            lemma_pow2_pos(j);
            lemma_div_denominator(value as int, 2, pow2(j) as int);
        }
        lemma_decode_bits_of_value(line, offset + 1, rest, value / 2);
        assert(line_bit(line, offset + 0nat) == value_bit(value, 0));
        lemma2_to64();
        lemma_pow2_unfold(length);
        lemma_pow2_pos(rest);
        lemma_mod_breakdown(value as int, 2, pow2(rest) as int);
    }
}

/// Bit `j` of a decoded field is line bit `offset + j`.
pub proof fn lemma_bits_of_decoded_value(line: Seq<u8>, offset: int, length: nat, j: nat)
    requires
        j < length,
    ensures
        value_bit(decoded_value(line, offset, length), j) == line_bit(line, offset + j),
    decreases j,
{
    let d = decoded_value(line, offset, length);
    let rest = decoded_value(line, offset + 1, (length - 1) as nat);
    assert(d == (if line_bit(line, offset) { 1nat } else { 0nat }) + 2 * rest);
    lemma2_to64();
    if j == 0 {
        assert(d / pow2(0) == d);
    } else {
        lemma_bits_of_decoded_value(line, offset + 1, (length - 1) as nat, (j - 1) as nat);
        lemma_pow2_unfold(j);
        lemma_pow2_pos((j - 1) as nat);
        lemma_div_denominator(d as int, 2, pow2((j - 1) as nat) as int);
        assert(d / 2 == rest);
        assert(offset + 1 + (j - 1) as nat == offset + j);
    }
}

/// Reads the `length`-bit field at bit `offset` of `line`.
pub fn decode(line: &[u8], offset: u8, length: u8) -> (value: u32)
    requires
        field_fits(offset as int, length as int, line@.len() as int),
    ensures
        value as nat == decoded_value(line@, offset as int, length as nat),
{
    let mut acc: u32 = 0;
    let mut j: u8 = length;
    while j > 0
        invariant
            j <= length,
            field_fits(offset as int, length as int, line@.len() as int),
            acc as nat == decoded_value(line@, offset + j, (length - j) as nat),
        decreases j,
    {
        j = j - 1;
        let pos: usize = offset as usize + j as usize;
        let shift: u8 = (pos % 8) as u8;
        let byte: u8 = line[pos / 8];
        let bit: u8 = (byte >> shift) & 1u8;
        proof {
            lemma_bit_is_zero_or_one(byte, shift);
            lemma_decoded_value_bound(line@, offset + j + 1, (length - j - 1) as nat);
            lemma_pow2_strictly_increases((length - j - 1) as nat, 32);
            lemma2_to64();
            assert(decoded_value(line@, offset + j, (length - j) as nat) == (if line_bit(
                line@,
                offset + j,
            ) {
                1nat
            } else {
                0nat
            }) + 2 * decoded_value(line@, offset + j + 1, (length - j - 1) as nat));
        }
        acc = 2 * acc + bit as u32;
    }
    acc
}

/// Stores the low `length` bits of `value` in the field at bit `offset` of `line`,
/// leaving every other bit of the line unchanged.
pub fn encode(value: u32, line: &mut [u8], offset: u8, length: u8)
    requires
        field_fits(offset as int, length as int, old(line)@.len() as int),
    ensures
        is_encoding(final(line)@, old(line)@, value as nat, offset as int, length as nat),
{
    let ghost initial = line@;
    let mut rest: u32 = value;
    let mut j: u8 = 0;
    proof {
        lemma2_to64();
    }
    while j < length
        invariant
            j <= length,
            field_fits(offset as int, length as int, initial.len() as int),
            line@.len() == initial.len(),
            rest as nat == value as nat / pow2(j as nat),
            forall|p: int|
                0 <= p < 8 * initial.len() ==> #[trigger] line_bit(line@, p) == (if offset <= p
                    < offset + j {
                    value_bit(value as nat, (p - offset) as nat)
                } else {
                    line_bit(initial, p)
                }),
        decreases length - j,
    {
        let pos: usize = offset as usize + j as usize;
        let idx: usize = pos / 8;
        let shift: u8 = (pos % 8) as u8;
        let byte: u8 = line[idx];
        let new_byte: u8 = if rest % 2 == 1 {
            byte | (1u8 << shift)
        } else {
            byte & !(1u8 << shift)
        };
        let ghost before = line@;
        line[idx] = new_byte;
        proof {
            assert forall|p: int| 0 <= p < 8 * initial.len() implies #[trigger] line_bit(
                line@,
                p,
            ) == (if offset <= p < offset + j + 1 {
                value_bit(value as nat, (p - offset) as nat)
            } else {
                line_bit(initial, p)
            }) by {
                if p / 8 == idx as int {
                    lemma_set_bit(byte, shift, (p % 8) as u8);
                    if p == pos as int {
                        assert(value_bit(value as nat, j as nat) == (rest % 2 == 1));
                    } else {
                        assert(line_bit(line@, p) == line_bit(before, p));
                    }
                } else {
                    assert(line@[p / 8] == before[p / 8]);
                    assert(line_bit(line@, p) == line_bit(before, p));
                }
            }
            lemma_pow2_unfold((j + 1) as nat);
            lemma_pow2_pos(j as nat);
            lemma_div_denominator(value as int, pow2(j as nat) as int, 2);
            assert(pow2(j as nat) * 2 == pow2((j + 1) as nat));
        }
        rest = rest / 2;
        j = j + 1;
    }
}

/// Reading back a field that was just written gives the written value, cut to the
/// field's width.
pub proof fn lemma_decode_encode(out: Seq<u8>, line: Seq<u8>, value: nat, offset: int, length: nat)
    requires
        is_encoding(out, line, value, offset, length),
        field_fits(offset, length as int, line.len() as int),
    ensures
        decoded_value(out, offset, length) == value % pow2(length),
{
    assert forall|j: nat| j < length implies line_bit(out, offset + j) == #[trigger] value_bit(value, j) by {
        assert(line_bit(out, offset + j) == (if offset <= offset + j < offset + length {
            value_bit(value, ((offset + j) - offset) as nat)
        } else {
            line_bit(line, offset + j)
        }));
    }
    lemma_decode_bits_of_value(out, offset, length, value);
}

/// Writing a field leaves every other field that does not overlap it readable as before.
pub proof fn lemma_encode_keeps_other_fields(
    out: Seq<u8>,
    line: Seq<u8>,
    value: nat,
    offset: int,
    length: nat,
    other_offset: int,
    other_length: nat,
)
    requires
        is_encoding(out, line, value, offset, length),
        field_fits(other_offset, other_length as int, line.len() as int),
        other_offset + other_length <= offset || offset + length <= other_offset,
    ensures
        decoded_value(out, other_offset, other_length) == decoded_value(
            line,
            other_offset,
            other_length,
        ),
{
    assert forall|p: int| other_offset <= p < other_offset + other_length implies line_bit(
        out,
        p,
    ) == line_bit(line, p) by {
        assert(line_bit(out, p) == (if offset <= p < offset + length {
            value_bit(value, (p - offset) as nat)
        } else {
            line_bit(line, p)
        }));
    }
    lemma_decoded_value_depends_on_field(out, line, other_offset, other_length);
}

} // verus!
