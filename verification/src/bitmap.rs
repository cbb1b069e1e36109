//! The presence bitmap: blocks of sixteen hexadecimal digits, each digit
//! holding four flags, most significant first. Flag `k` of the bitmap speaks
//! of the position `k` places after the bitmap's own; flag 0 of the first
//! block is reserved and says that a second block follows.

use vstd::prelude::*;
use crate::bit_block;
use crate::numeral;

verus! {

/// The value of the hexadecimal digit that four flags from `o` on make.
#[verifier::opaque]
pub open spec fn nibble_of(bits: Seq<bool>, o: int) -> nat {
    8 * bit_block::flag_value(bits[o]) + 4 * bit_block::flag_value(bits[o + 1]) + 2
        * bit_block::flag_value(bits[o + 2]) + bit_block::flag_value(bits[o + 3])
}

/// The upper-case hexadecimal text of a sequence of flags, one digit for
/// every four flags.
pub open spec fn bits_text(bits: Seq<bool>) -> Seq<u8> {
    Seq::new(bits.len() / 4, |j: int| numeral::upper_hex_char(nibble_of(bits, 4 * j)))
}

/// The flags that a text of hexadecimal digits holds.
pub open spec fn text_bits(text: Seq<u8>) -> Seq<bool> {
    Seq::new(4 * text.len(), |k: int| numeral::text_bit(text, k))
}

/// Whether every byte of a text is a hexadecimal digit that is not a
/// lower-case letter.
pub open spec fn is_upper_hex_text(text: Seq<u8>) -> bool {
    forall|i: int| 0 <= i < text.len() ==> numeral::is_upper_hex_digit(#[trigger] text[i])
}

/// Number of bytes that the bitmap starting at `at` takes: one block, or two
/// where the reserved flag of the first is set. There is none where the
/// blocks are cut short or hold a byte that is no hexadecimal digit.
pub open spec fn bitmap_len_at(input: Seq<u8>, at: int) -> Option<nat> {
    if 0 <= at && at + 16 <= input.len() && numeral::is_hex_text(input.subrange(at, at + 16)) {
        if numeral::text_bit(input.subrange(at, at + 16), 0) {
            if at + 32 <= input.len() && numeral::is_hex_text(input.subrange(at + 16, at + 32)) {
                Some(32)
            } else {
                None
            }
        } else {
            Some(16)
        }
    } else {
        None
    }
}

/// The 128 presence flags that a bitmap text of one or two blocks holds.
/// Flag 0 is reserved and never counts as presence; flags that the text does
/// not reach are clear.
pub open spec fn bitmap_flags(text: Seq<u8>) -> Seq<bool> {
    Seq::new(128, |k: int| 1 <= k < 4 * text.len() && numeral::text_bit(text, k))
}

/// Whether any flag of the second block is set.
pub open spec fn needs_second(flags: Seq<bool>) -> bool {
    exists|k: int| 64 <= k < 128 && #[trigger] flags[k]
}

/// The flags as they go on the wire: flag 0 says whether a second block
/// follows.
pub open spec fn wire_flags(flags: Seq<bool>) -> Seq<bool> {
    flags.update(0, needs_second(flags))
}

/// The bitmap text of 128 presence flags: one block where no flag of the
/// second block is set, two blocks otherwise.
pub open spec fn bitmap_text(flags: Seq<bool>) -> Seq<u8> {
    if needs_second(flags) {
        bits_text(wire_flags(flags))
    } else {
        bits_text(wire_flags(flags).subrange(0, 64))
    }
}

/// Whether flag `k` of a bitmap text is set; flags that the text does not
/// reach are clear.
pub open spec fn bitmap_bit(text: Seq<u8>, k: int) -> bool {
    0 <= k < 4 * text.len() && numeral::text_bit(text, k)
}

/// Whether a bitmap text is in the form that encoding gives: upper-case
/// digits, one or two blocks, and a second block exactly where the reserved
/// flag is set and the second block holds a set flag.
pub open spec fn is_canonical_bitmap(text: Seq<u8>) -> bool {
    &&& text.len() == 16 || text.len() == 32
    &&& is_upper_hex_text(text)
    &&& numeral::text_bit(text, 0) <==> text.len() == 32
    &&& text.len() == 32 ==> exists|k: int| 64 <= k < 128 && #[trigger] numeral::text_bit(text, k)
}

/// A digit made of four flags holds each of them at its place, and is below
/// sixteen.
pub proof fn lemma_nibble_bits(bits: Seq<bool>, o: int)
    requires
        0 <= o,
        o + 4 <= bits.len(),
    ensures
        nibble_of(bits, o) < 16,
        forall|j: int| 0 <= j < 4 ==> numeral::nibble_bit(nibble_of(bits, o), j) == bits[o + j],
        numeral::hex_value(numeral::upper_hex_char(nibble_of(bits, o))) == nibble_of(bits, o),
        numeral::is_upper_hex_digit(numeral::upper_hex_char(nibble_of(bits, o))),
        nibble_of(bits, o) == 8 * bit_block::flag_value(bits[o]) + 4 * bit_block::flag_value(
            bits[o + 1],
        ) + 2 * bit_block::flag_value(bits[o + 2]) + bit_block::flag_value(bits[o + 3]),
{
    reveal(nibble_of);
}

/// The text of a sequence of flags holds every one of them at its place.
pub proof fn lemma_text_of_bits(bits: Seq<bool>)
    requires
        bits.len() % 4 == 0,
    ensures
        bits_text(bits).len() * 4 == bits.len(),
        is_upper_hex_text(bits_text(bits)),
        numeral::is_hex_text(bits_text(bits)),
        forall|k: int|
            0 <= k < bits.len() ==> #[trigger] numeral::text_bit(bits_text(bits), k) == bits[k],
        text_bits(bits_text(bits)) == bits,
{
    reveal(numeral::text_bit);
    let text = bits_text(bits);
    assert forall|i: int| 0 <= i < text.len() implies numeral::is_upper_hex_digit(
        #[trigger] text[i],
    ) && numeral::is_hex_digit(text[i]) by {
        lemma_nibble_bits(bits, 4 * i);
    }
    assert forall|k: int| 0 <= k < bits.len() implies #[trigger] numeral::text_bit(text, k)
        == bits[k] by {
        let j = k / 4;
        lemma_nibble_bits(bits, 4 * j);
        assert(k == 4 * j + k % 4);
        assert(numeral::nibble_bit(nibble_of(bits, 4 * j), k % 4) == bits[4 * j + k % 4]);
    }
    assert(text_bits(text) =~= bits);
}

/// An upper-case hexadecimal digit is the digit of its own value.
pub proof fn lemma_upper_hex_of_value(c: u8)
    requires
        numeral::is_upper_hex_digit(c),
    ensures
        numeral::hex_value(c) < 16,
        numeral::upper_hex_char(numeral::hex_value(c)) == c,
        8 * bit_block::flag_value(numeral::nibble_bit(numeral::hex_value(c), 0)) + 4
            * bit_block::flag_value(numeral::nibble_bit(numeral::hex_value(c), 1)) + 2
            * bit_block::flag_value(numeral::nibble_bit(numeral::hex_value(c), 2))
            + bit_block::flag_value(numeral::nibble_bit(numeral::hex_value(c), 3))
            == numeral::hex_value(c),
{
}

/// An upper-case text is the text of the flags that it holds.
pub proof fn lemma_bits_of_text(text: Seq<u8>)
    requires
        is_upper_hex_text(text),
    ensures
        bits_text(text_bits(text)) == text,
{
    reveal(numeral::text_bit);
    reveal(nibble_of);
    let bits = text_bits(text);
    let back = bits_text(bits);
    assert(back.len() == text.len());
    assert forall|j: int| 0 <= j < text.len() implies back[j] == text[j] by {
        lemma_upper_hex_of_value(text[j]);
        assert((4 * j) / 4 == j && (4 * j + 1) / 4 == j && (4 * j + 2) / 4 == j && (4 * j + 3) / 4
            == j);
        assert((4 * j) % 4 == 0 && (4 * j + 1) % 4 == 1 && (4 * j + 2) % 4 == 2 && (4 * j + 3) % 4
            == 3);
        assert(bits[4 * j] == numeral::nibble_bit(numeral::hex_value(text[j]), 0));
        assert(bits[4 * j + 1] == numeral::nibble_bit(numeral::hex_value(text[j]), 1));
        assert(bits[4 * j + 2] == numeral::nibble_bit(numeral::hex_value(text[j]), 2));
        assert(bits[4 * j + 3] == numeral::nibble_bit(numeral::hex_value(text[j]), 3));
    }
    assert(back =~= text);
}

/// The bitmap text of 128 presence flags has one or two blocks of upper-case
/// digits, says in its reserved flag whether it has two, and holds every
/// presence flag at its place.
pub proof fn lemma_bitmap_text(flags: Seq<bool>)
    requires
        flags.len() == 128,
    ensures
        bitmap_text(flags).len() == (if needs_second(flags) {
            32nat
        } else {
            16nat
        }),
        is_upper_hex_text(bitmap_text(flags)),
        numeral::is_hex_text(bitmap_text(flags)),
        numeral::text_bit(bitmap_text(flags), 0) == needs_second(flags),
        forall|k: int| 1 <= k < 128 ==> #[trigger] bitmap_bit(bitmap_text(flags), k) == flags[k],
        is_canonical_bitmap(bitmap_text(flags)),
{
    let wire = wire_flags(flags);
    let text = bitmap_text(flags);
    if needs_second(flags) {
        lemma_text_of_bits(wire);
        let w = choose|k: int| 64 <= k < 128 && #[trigger] flags[k];
        assert(numeral::text_bit(text, w) == wire[w]);
        assert(numeral::text_bit(text, 0) == wire[0]);
        assert forall|k: int| 1 <= k < 128 implies #[trigger] bitmap_bit(text, k) == flags[k] by {
            assert(numeral::text_bit(text, k) == wire[k]);
        }
    } else {
        lemma_text_of_bits(wire.subrange(0, 64));
        assert forall|k: int| 1 <= k < 128 implies #[trigger] bitmap_bit(text, k) == flags[k] by {
            if k < 64 {
                assert(wire.subrange(0, 64)[k] == flags[k]);
                assert(numeral::text_bit(text, k) == wire.subrange(0, 64)[k]);
            } else {
                assert(!flags[k]);
            }
        }
        assert(numeral::text_bit(text, 0) == wire.subrange(0, 64)[0]);
    }
}

/// Decoding the bitmap text of presence flags gives the flags back.
pub proof fn lemma_flags_of_bitmap_text(flags: Seq<bool>)
    requires
        flags.len() == 128,
        !flags[0],
    ensures
        bitmap_flags(bitmap_text(flags)) == flags,
{
    lemma_bitmap_text(flags);
    let text = bitmap_text(flags);
    assert forall|k: int| 0 <= k < 128 implies bitmap_flags(text)[k] == flags[k] by {
        if k >= 1 {
            assert(bitmap_bit(text, k) == flags[k]);
        }
    }
    assert(bitmap_flags(text) =~= flags);
}

/// Encoding the flags that a canonical bitmap text holds gives the text
/// back.
pub proof fn lemma_bitmap_text_of_flags(text: Seq<u8>)
    requires
        is_canonical_bitmap(text),
    ensures
        bitmap_text(bitmap_flags(text)) == text,
{
    let flags = bitmap_flags(text);
    let wire = wire_flags(flags);
    lemma_bits_of_text(text);
    if text.len() == 32 {
        let w = choose|k: int| 64 <= k < 128 && #[trigger] numeral::text_bit(text, k);
        assert(flags[w]);
        assert(needs_second(flags));
        assert(wire =~= text_bits(text));
    } else {
        assert(!needs_second(flags)) by {
            if needs_second(flags) {
                let w = choose|k: int| 64 <= k < 128 && #[trigger] flags[k];
                assert(flags[w]);
            }
        }
        assert(wire.subrange(0, 64) =~= text_bits(text));
    }
}

/// Flag `k` of a part of a text is the flag of the whole text that lies
/// four flags further for every byte before the part.
pub proof fn lemma_text_bit_part(text: Seq<u8>, a: int, b: int, k: int)
    requires
        0 <= a <= b <= text.len(),
        0 <= k < 4 * (b - a),
    ensures
        numeral::text_bit(text.subrange(a, b), k) == numeral::text_bit(text, 4 * a + k),
{
    reveal(numeral::text_bit);
    assert((4 * a + k) / 4 == a + k / 4);
    assert((4 * a + k) % 4 == k % 4);
}

/// The text of flags is the text of their first part followed by the text
/// of the rest, where the first part ends on a digit.
pub proof fn lemma_bits_text_split(bits: Seq<bool>, mid: int)
    requires
        0 <= mid <= bits.len(),
        mid % 4 == 0,
        bits.len() % 4 == 0,
    ensures
        bits_text(bits) == bits_text(bits.subrange(0, mid)) + bits_text(
            bits.subrange(mid, bits.len() as int),
        ),
{
    reveal(nibble_of);
    let left = bits.subrange(0, mid);
    let right = bits.subrange(mid, bits.len() as int);
    let whole = bits_text(bits);
    let joined = bits_text(left) + bits_text(right);
    assert(whole.len() == joined.len());
    assert forall|j: int| 0 <= j < whole.len() implies whole[j] == joined[j] by {
        if 4 * j < mid {
            assert(nibble_of(bits, 4 * j) == nibble_of(left, 4 * j));
        } else {
            let i = j - mid / 4;
            assert(4 * i == 4 * j - mid);
            assert(nibble_of(bits, 4 * j) == nibble_of(right, 4 * i));
            assert(joined[j] == bits_text(right)[i]);
        }
    }
    assert(whole =~= joined);
}

/// The number that four bytes make, first byte most significant.
pub open spec fn be_value(b0: nat, b1: nat, b2: nat, b3: nat) -> nat {
    0x100_0000 * b0 + 0x1_0000 * b1 + 0x100 * b2 + b3
}

/// The number that the 32 flags from `o` on make when they are packed into
/// four bytes and read with the first byte most significant.
pub open spec fn group_value(bits: Seq<bool>, o: int) -> nat {
    be_value(
        bit_block::byte_of_flags(bits, o),
        bit_block::byte_of_flags(bits, o + 8),
        bit_block::byte_of_flags(bits, o + 16),
        bit_block::byte_of_flags(bits, o + 24),
    )
}

proof fn lemma_hex_step(v: nat, width: nat, rest: nat, d: nat)
    requires
        width >= 1,
        d < 16,
        v == 16 * rest + d,
    ensures
        numeral::hex_text(v, width) == numeral::hex_text(rest, (width - 1) as nat).push(
            numeral::upper_hex_char(d),
        ),
{
    assert(v / 16 == rest);
    assert(v % 16 == d);
}

proof fn lemma_hex_text_of_digits(
    n0: nat,
    n1: nat,
    n2: nat,
    n3: nat,
    n4: nat,
    n5: nat,
    n6: nat,
    n7: nat,
)
    requires
        n0 < 16,
        n1 < 16,
        n2 < 16,
        n3 < 16,
        n4 < 16,
        n5 < 16,
        n6 < 16,
        n7 < 16,
    ensures
        be_value(16 * n0 + n1, 16 * n2 + n3, 16 * n4 + n5, 16 * n6 + n7) < 0x1_0000_0000,
        numeral::hex_text(
            be_value(16 * n0 + n1, 16 * n2 + n3, 16 * n4 + n5, 16 * n6 + n7),
            8,
        ) == seq![
            numeral::upper_hex_char(n0),
            numeral::upper_hex_char(n1),
            numeral::upper_hex_char(n2),
            numeral::upper_hex_char(n3),
            numeral::upper_hex_char(n4),
            numeral::upper_hex_char(n5),
            numeral::upper_hex_char(n6),
            numeral::upper_hex_char(n7),
        ],
{
    let v7 = be_value(16 * n0 + n1, 16 * n2 + n3, 16 * n4 + n5, 16 * n6 + n7);
    let v6: nat = 0x100_0000 * n0 + 0x10_0000 * n1 + 0x1_0000 * n2 + 0x1000 * n3 + 0x100 * n4 + 0x10
        * n5 + n6;
    let v5: nat = 0x10_0000 * n0 + 0x1_0000 * n1 + 0x1000 * n2 + 0x100 * n3 + 0x10 * n4 + n5;
    let v4: nat = 0x1_0000 * n0 + 0x1000 * n1 + 0x100 * n2 + 0x10 * n3 + n4;
    let v3: nat = 0x1000 * n0 + 0x100 * n1 + 0x10 * n2 + n3;
    let v2: nat = 0x100 * n0 + 0x10 * n1 + n2;
    let v1: nat = 0x10 * n0 + n1;
    lemma_hex_step(v7, 8, v6, n7);
    lemma_hex_step(v6, 7, v5, n6);
    lemma_hex_step(v5, 6, v4, n5);
    lemma_hex_step(v4, 5, v3, n4);
    lemma_hex_step(v3, 4, v2, n3);
    lemma_hex_step(v2, 3, v1, n2);
    lemma_hex_step(v1, 2, n0, n1);
    lemma_hex_step(n0, 1, 0, n0);
    assert(numeral::hex_text(0, 0) =~= Seq::<u8>::empty());
    assert(numeral::hex_text(v7, 8) =~= seq![
        numeral::upper_hex_char(n0),
        numeral::upper_hex_char(n1),
        numeral::upper_hex_char(n2),
        numeral::upper_hex_char(n3),
        numeral::upper_hex_char(n4),
        numeral::upper_hex_char(n5),
        numeral::upper_hex_char(n6),
        numeral::upper_hex_char(n7),
    ]);
}

/// A byte made of eight flags is made of two hexadecimal digits of four
/// flags each.
pub proof fn lemma_byte_of_nibbles(bits: Seq<bool>, o: int)
    ensures
        bit_block::byte_of_flags(bits, o) == 16 * nibble_of(bits, o) + nibble_of(bits, o + 4),
        nibble_of(bits, o) < 16,
        nibble_of(bits, o + 4) < 16,
{
    reveal(nibble_of);
    reveal(bit_block::byte_of_flags);
}

proof fn lemma_nibble_of_part(bits: Seq<bool>, o: int, i: int)
    requires
        0 <= o,
        o + 32 <= bits.len(),
        0 <= i,
        i + 4 <= 32,
    ensures
        nibble_of(bits.subrange(o, o + 32), i) == nibble_of(bits, o + i),
{
    reveal(nibble_of);
}

/// The eight hexadecimal digits of the number that 32 flags make are the
/// text of those flags.
pub proof fn lemma_group_text(bits: Seq<bool>, o: int)
    requires
        0 <= o,
        o + 32 <= bits.len(),
    ensures
        group_value(bits, o) < 0x1_0000_0000,
        numeral::hex_text(group_value(bits, o), 8) == bits_text(bits.subrange(o, o + 32)),
{
    let part = bits.subrange(o, o + 32);
    lemma_byte_of_nibbles(bits, o);
    lemma_byte_of_nibbles(bits, o + 8);
    lemma_byte_of_nibbles(bits, o + 16);
    lemma_byte_of_nibbles(bits, o + 24);
    lemma_hex_text_of_digits(
        nibble_of(bits, o),
        nibble_of(bits, o + 4),
        nibble_of(bits, o + 8),
        nibble_of(bits, o + 12),
        nibble_of(bits, o + 16),
        nibble_of(bits, o + 20),
        nibble_of(bits, o + 24),
        nibble_of(bits, o + 28),
    );
    let want = bits_text(part);
    assert(want.len() == 8);
    lemma_nibble_of_part(bits, o, 0);
    lemma_nibble_of_part(bits, o, 4);
    lemma_nibble_of_part(bits, o, 8);
    lemma_nibble_of_part(bits, o, 12);
    lemma_nibble_of_part(bits, o, 16);
    lemma_nibble_of_part(bits, o, 20);
    lemma_nibble_of_part(bits, o, 24);
    lemma_nibble_of_part(bits, o, 28);
    assert(numeral::hex_text(group_value(bits, o), 8) =~= want);
}

} // verus!
