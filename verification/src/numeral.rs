//! Decimal and hexadecimal numerals as they stand on the wire: ASCII digits,
//! most significant digit first.

use vstd::prelude::*;

verus! {

/// The ASCII character `0`.
pub const ZERO: u8 = 0x30;

/// The ASCII character `A`.
pub const UPPER_A: u8 = 0x41;

/// The ASCII character `a`.
pub const LOWER_A: u8 = 0x61;

/// Whether a byte is an ASCII decimal digit.
pub open spec fn is_digit(c: u8) -> bool {
    0x30 <= c <= 0x39
}

/// The value of an ASCII decimal digit.
pub open spec fn digit_value(c: u8) -> nat {
    (c - 0x30) as nat
}

/// The ASCII decimal digit of a value below ten.
pub open spec fn digit_char(d: nat) -> u8 {
    (0x30 + d) as u8
}

/// The decimal numeral of a number, without leading zeros.
pub open spec fn decimal_text(n: nat) -> Seq<u8>
    decreases n,
{
    if n < 10 {
        seq![digit_char(n)]
    } else {
        decimal_text(n / 10).push(digit_char(n % 10))
    }
}

/// The decimal numeral of a number, with zeros in front where it has fewer
/// than `width` digits.
pub open spec fn padded_decimal(n: nat, width: nat) -> Seq<u8> {
    let text = decimal_text(n);
    if text.len() >= width {
        text
    } else {
        Seq::new((width - text.len()) as nat, |i: int| 0x30u8) + text
    }
}

/// The number that three decimal digits at `at` denote, if three digits stand
/// there.
pub open spec fn three_digits_at(s: Seq<u8>, at: int) -> Option<nat> {
    if 0 <= at && at + 3 <= s.len() && is_digit(s[at]) && is_digit(s[at + 1]) && is_digit(
        s[at + 2],
    ) {
        Some(100 * digit_value(s[at]) + 10 * digit_value(s[at + 1]) + digit_value(s[at + 2]))
    } else {
        None
    }
}

/// Whether a byte is an ASCII hexadecimal digit, in either case.
pub open spec fn is_hex_digit(c: u8) -> bool {
    (0x30 <= c <= 0x39) || (0x41 <= c <= 0x46) || (0x61 <= c <= 0x66)
}

/// Whether a byte is an ASCII hexadecimal digit that is not a lower-case
/// letter.
pub open spec fn is_upper_hex_digit(c: u8) -> bool {
    (0x30 <= c <= 0x39) || (0x41 <= c <= 0x46)
}

/// The value of an ASCII hexadecimal digit.
pub open spec fn hex_value(c: u8) -> nat {
    if 0x30 <= c <= 0x39 {
        (c - 0x30) as nat
    } else if 0x41 <= c <= 0x46 {
        (c - 0x41 + 10) as nat
    } else {
        (c - 0x61 + 10) as nat
    }
}

/// The upper-case ASCII hexadecimal digit of a value below sixteen.
pub open spec fn upper_hex_char(v: nat) -> u8 {
    if v < 10 {
        (0x30 + v) as u8
    } else {
        (0x41 + v - 10) as u8
    }
}

/// Whether every byte of a text is a hexadecimal digit.
pub open spec fn is_hex_text(s: Seq<u8>) -> bool {
    forall|i: int| 0 <= i < s.len() ==> is_hex_digit(#[trigger] s[i])
}

/// The number that a text of hexadecimal digits denotes.
pub open spec fn hex_text_value(s: Seq<u8>) -> nat
    decreases s.len(),
{
    if s.len() == 0 {
        0
    } else {
        16 * hex_text_value(s.drop_last()) + hex_value(s.last())
    }
}

/// The last `width` upper-case hexadecimal digits of a number, zeros in
/// front included.
pub open spec fn hex_text(v: nat, width: nat) -> Seq<u8>
    decreases width,
{
    if width == 0 {
        Seq::empty()
    } else {
        hex_text(v / 16, (width - 1) as nat).push(upper_hex_char(v % 16))
    }
}

/// The decimal numeral of a number has at least one digit, and every byte of
/// it is a digit.
pub proof fn lemma_decimal_text_digits(n: nat)
    ensures
        decimal_text(n).len() >= 1,
        forall|i: int| 0 <= i < decimal_text(n).len() ==> is_digit(#[trigger] decimal_text(n)[i]),
        n < 10 ==> decimal_text(n).len() == 1,
        10 <= n < 100 ==> decimal_text(n).len() == 2,
        100 <= n < 1000 ==> decimal_text(n).len() == 3,
        n >= 1000 ==> decimal_text(n).len() >= 4,
    decreases n,
{
    if n >= 10 {
        lemma_decimal_text_digits(n / 10);
    }
}

/// A padded numeral is at least as wide as asked, and exactly so where the
/// number has no more digits than that.
pub proof fn lemma_padded_decimal_len(n: nat, width: nat)
    ensures
        padded_decimal(n, width).len() >= width,
        padded_decimal(n, width).len() >= 1,
        decimal_text(n).len() <= width ==> padded_decimal(n, width).len() == width,
        decimal_text(n).len() >= width ==> padded_decimal(n, width) == decimal_text(n),
{
    lemma_decimal_text_digits(n);
}

/// Below a thousand, the numeral padded to three digits is made of the
/// hundreds, the tens and the units, and reads back as the number.
pub proof fn lemma_three_digit_prefix(n: nat, rest: Seq<u8>)
    requires
        n < 1000,
    ensures
        padded_decimal(n, 3) == seq![
            digit_char(n / 100),
            digit_char(n / 10 % 10),
            digit_char(n % 10),
        ],
        padded_decimal(n, 3).len() == 3,
        three_digits_at(padded_decimal(n, 3) + rest, 0) == Some(n),
{
    lemma_decimal_text_digits(n);
    let text = decimal_text(n);
    let want = seq![digit_char(n / 100), digit_char(n / 10 % 10), digit_char(n % 10)];
    if n < 10 {
        assert(text == seq![digit_char(n)]);
    } else if n < 100 {
        assert(decimal_text(n / 10) == seq![digit_char(n / 10)]);
        assert(text == seq![digit_char(n / 10), digit_char(n % 10)]);
    } else {
        assert(decimal_text(n / 100) == seq![digit_char(n / 100)]);
        assert(decimal_text(n / 10) == decimal_text(n / 10 / 10).push(digit_char(n / 10 % 10)));
        assert(n / 10 / 10 == n / 100);
        assert(text == want);
    }
    assert(padded_decimal(n, 3) =~= want);
    let whole = padded_decimal(n, 3) + rest;
    assert(whole[0] == want[0] && whole[1] == want[1] && whole[2] == want[2]);
}

/// The digits of a number, most significant first.
pub fn decimal_digits(n: usize) -> (digits: Vec<u8>)
    ensures
        digits@ == decimal_text(n as nat),
    decreases n,
{
    if n < 10 {
        let mut digits: Vec<u8> = Vec::new();
        digits.push(ZERO + (n as u8));
        assert(digits@ =~= seq![digit_char(n as nat)]);
        digits
    } else {
        let mut digits = decimal_digits(n / 10);
        digits.push(ZERO + ((n % 10) as u8));
        digits
    }
}

/// Appends the decimal numeral of `n`, with zeros in front up to `width`
/// digits.
pub fn push_padded_decimal(out: &mut Vec<u8>, n: usize, width: usize)
    ensures
        final(out)@ == old(out)@ + padded_decimal(n as nat, width as nat),
{
    let digits = decimal_digits(n);
    let ghost before = out@;
    let ghost text = decimal_text(n as nat);
    let mut k: usize = digits.len();
    while k < width
        invariant
            digits@ == text,
            digits@.len() <= k,
            k <= width || k == digits@.len(),
            out@ == before + Seq::new((k - digits@.len()) as nat, |i: int| 0x30u8),
        decreases width - k,
    {
        out.push(ZERO);
        k += 1;
        assert(out@ =~= before + Seq::new((k - digits@.len()) as nat, |i: int| 0x30u8));
    }
    let mut j: usize = 0;
    let ghost padding = out@;
    while j < digits.len()
        invariant
            j <= digits@.len(),
            out@ == padding + digits@.subrange(0, j as int),
        decreases digits@.len() - j,
    {
        out.push(digits[j]);
        j += 1;
        assert(out@ =~= padding + digits@.subrange(0, j as int));
    }
    assert(digits@.subrange(0, j as int) =~= digits@);
    assert(out@ =~= before + padded_decimal(n as nat, width as nat));
}

/// Reads the three decimal digits at `at`.
pub fn read_three_digits(buf: &[u8], at: usize) -> (r: Option<usize>)
    ensures
        r == (match three_digits_at(buf@, at as int) {
            Some(v) => Some(v as usize),
            None => None,
        }),
        r matches Some(v) ==> v < 1000,
{
    if buf.len() < 3 || at > buf.len() - 3 {
        return None;
    }
    let a = buf[at];
    let b = buf[at + 1];
    let c = buf[at + 2];
    if ZERO <= a && a <= 0x39 && ZERO <= b && b <= 0x39 && ZERO <= c && c <= 0x39 {
        let v: usize = 100 * ((a - ZERO) as usize) + 10 * ((b - ZERO) as usize) + ((c
            - ZERO) as usize);
        Some(v)
    } else {
        None
    }
}

/// The value of a hexadecimal digit, if the byte is one.
pub fn hex_digit(c: u8) -> (r: Option<u8>)
    ensures
        r is Some <==> is_hex_digit(c),
        r matches Some(v) ==> v == hex_value(c) && v < 16,
{
    if ZERO <= c && c <= 0x39 {
        Some(c - ZERO)
    } else if UPPER_A <= c && c <= 0x46 {
        Some(c - UPPER_A + 10)
    } else if LOWER_A <= c && c <= 0x66 {
        Some(c - LOWER_A + 10)
    } else {
        None
    }
}

/// Whether bit `x` of `v` is set, counted from the least significant bit.
pub open spec fn bit_set(v: u32, x: u32) -> bool {
    x < 32 && (v & (1u32 << x)) != 0
}

/// Whether the bit of a hexadecimal digit's value is set; bit 0 is the most
/// significant of the four.
pub open spec fn nibble_bit(v: nat, j: int) -> bool {
    if j == 0 {
        v / 8 % 2 == 1
    } else if j == 1 {
        v / 4 % 2 == 1
    } else if j == 2 {
        v / 2 % 2 == 1
    } else {
        v % 2 == 1
    }
}

/// Whether bit `k` of a text of hexadecimal digits is set; bit 0 is the most
/// significant bit of the first digit.
#[verifier::opaque]
pub open spec fn text_bit(text: Seq<u8>, k: int) -> bool {
    nibble_bit(hex_value(text[k / 4]), k % 4)
}

/// Whether bit `n` of `input` is set, counted from the least significant
/// bit; no bit is set from `n` = 32 on.
pub fn bit_is_set(input: u32, n: u8) -> (set: bool)
    ensures
        set == bit_set(input, n as u32),
{
    if n < 32 {
        let shift: u32 = n as u32;
        input & (1u32 << shift) != 0
    } else {
        false
    }
}

proof fn lemma_shift_in_digit(acc: u32, d: u32, x: u32)
    requires
        acc < 0x1000_0000,
        d < 16,
        x < 32,
    ensures
        bit_set((acc * 16 + d) as u32, x) == (if x < 4 {
            bit_set(d, x)
        } else {
            bit_set(acc, (x - 4) as u32)
        }),
{
    let v = (acc * 16 + d) as u32;
    assert(v == (acc << 4) | d) by (bit_vector)
        requires
            acc < 0x1000_0000,
            d < 16,
            v == (acc * 16 + d) as u32,
    ;
    if x < 4 {
        assert((((acc << 4) | d) & (1u32 << x) != 0) == (d & (1u32 << x) != 0)) by (bit_vector)
            requires
                d < 16,
                x < 4,
        ;
    } else {
        let y = (x - 4) as u32;
        assert((((acc << 4) | d) & (1u32 << x) != 0) == (acc & (1u32 << y) != 0)) by (bit_vector)
            requires
                acc < 0x1000_0000,
                d < 16,
                4 <= x < 32,
                y == x - 4,
        ;
    }
}

proof fn lemma_digit_bits(d: u32, x: u32)
    requires
        d < 16,
        x < 4,
    ensures
        bit_set(d, x) == nibble_bit(d as nat, 3 - x),
{
    assert((d & (1u32 << 0) != 0) == (d % 2 == 1)) by (bit_vector);
    assert((d & (1u32 << 1) != 0) == (d / 2 % 2 == 1)) by (bit_vector);
    assert((d & (1u32 << 2) != 0) == (d / 4 % 2 == 1)) by (bit_vector);
    assert((d & (1u32 << 3) != 0) == (d / 8 % 2 == 1)) by (bit_vector);
}

/// Reads the eight hexadecimal digits at `at` as one number, most
/// significant digit first. Bit `x` of the number, counted from the least
/// significant, is bit `31 - x` of the text.
pub fn read_hex_group(buf: &[u8], at: usize) -> (r: Option<u32>)
    ensures
        r is Some <==> (at + 8 <= buf@.len() && is_hex_text(
            buf@.subrange(at as int, at + 8),
        )),
        r matches Some(v) ==> {
            &&& v == hex_text_value(buf@.subrange(at as int, at + 8))
            &&& forall|x: u32|
                x < 32 ==> #[trigger] bit_set(v, x) == text_bit(
                    buf@.subrange(at as int, at + 8),
                    31 - x,
                )
        },
{
    if buf.len() < 8 || at > buf.len() - 8 {
        return None;
    }
    let ghost group = buf@.subrange(at as int, at + 8);
    let mut acc: u32 = 0;
    let mut i: usize = 0;
    while i < 8
        invariant
            i <= 8,
            at + 8 <= buf@.len() <= usize::MAX,
            group == buf@.subrange(at as int, at + 8),
            i < 8 ==> acc < 0x1000_0000,
            acc == hex_text_value(group.subrange(0, i as int)),
            is_hex_text(group.subrange(0, i as int)),
            forall|x: u32|
                x < 4 * i ==> #[trigger] bit_set(acc, x) == nibble_bit(
                    hex_value(group[i - 1 - x / 4]),
                    3 - x % 4,
                ),
            i == 0 ==> acc == 0,
            i == 1 ==> acc < 0x10,
            i == 2 ==> acc < 0x100,
            i == 3 ==> acc < 0x1000,
            i == 4 ==> acc < 0x1_0000,
            i == 5 ==> acc < 0x10_0000,
            i == 6 ==> acc < 0x100_0000,
            i == 7 ==> acc < 0x1000_0000,
        decreases 8 - i,
    {
        let c = buf[at + i];
        assert(c == group[i as int]);
        match hex_digit(c) {
            None => {
                proof {
                    let whole = buf@.subrange(at as int, at + 8);
                    assert(!is_hex_digit(whole[i as int]));
                }
                return None;
            },
            Some(d) => {
                let ghost before = acc;
                let next: u32 = acc * 16 + (d as u32);
                proof {
                    let shorter = group.subrange(0, i as int);
                    let longer = group.subrange(0, i + 1);
                    assert(longer.drop_last() =~= shorter);
                    assert(longer.last() == c);
                    assert forall|k: int| 0 <= k < longer.len() implies is_hex_digit(
                        #[trigger] longer[k],
                    ) by {
                        if k < i {
                            assert(longer[k] == shorter[k]);
                        }
                    }
                    assert forall|x: u32| x < 4 * (i + 1) implies #[trigger] bit_set(next, x)
                        == nibble_bit(hex_value(group[i + 1 - 1 - x / 4]), 3 - x % 4) by {
                        lemma_shift_in_digit(before, d as u32, x);
                        if x < 4 {
                            lemma_digit_bits(d as u32, x);
                        } else {
                            let y = (x - 4) as u32;
                            assert(bit_set(before, y) == nibble_bit(
                                hex_value(group[i - 1 - y / 4]),
                                3 - y % 4,
                            ));
                        }
                    }
                }
                acc = next;
                i += 1;
            },
        }
    }
    proof {
        reveal(text_bit);
        assert(group.subrange(0, 8) =~= group);
        assert forall|x: u32| x < 32 implies #[trigger] bit_set(acc, x) == text_bit(
            group,
            31 - x,
        ) by {
            assert(bit_set(acc, x) == nibble_bit(hex_value(group[8 - 1 - x / 4]), 3 - x % 4));
            assert((31 - x) / 4 == 7 - x / 4);
            assert((31 - x) % 4 == 3 - x % 4);
        }
    }
    Some(acc)
}

/// The upper-case hexadecimal digit of a value below sixteen.
pub fn upper_hex(v: u8) -> (c: u8)
    requires
        v < 16,
    ensures
        c == upper_hex_char(v as nat),
        is_upper_hex_digit(c),
        hex_value(c) == v,
{
    if v < 10 {
        ZERO + v
    } else {
        UPPER_A + (v - 10)
    }
}

/// Appends the eight upper-case hexadecimal digits of `v`, most significant
/// digit first.
pub fn push_hex_group(out: &mut Vec<u8>, v: u32)
    ensures
        final(out)@ == old(out)@ + hex_text(v as nat, 8),
{
    let ghost before = out@;
    let mut digits: [u8; 8] = [ZERO; 8];
    let mut rest: u32 = v;
    let mut i: usize = 8;
    proof {
        lemma_hex_text_len(v as nat, 8);
        assert(hex_text(v as nat, 8).subrange(0, 8) =~= hex_text(v as nat, 8));
    }
    while i > 0
        invariant
            i <= 8,
            forall|k: int|
                i <= k < 8 ==> #[trigger] digits@[k] == hex_text(v as nat, 8)[k],
            hex_text(v as nat, 8).len() == 8,
            hex_text(rest as nat, i as nat) == hex_text(v as nat, 8).subrange(0, i as int),
        decreases i,
    {
        let d: u8 = (rest % 16) as u8;
        let c = upper_hex(d);
        proof {
            let whole = hex_text(v as nat, 8);
            let part = hex_text(rest as nat, i as nat);
            assert(part == hex_text((rest / 16) as nat, (i - 1) as nat).push(
                upper_hex_char((rest % 16) as nat),
            ));
            lemma_hex_text_len((rest / 16) as nat, (i - 1) as nat);
            assert(part[i - 1] == c);
            assert(whole.subrange(0, i as int)[i - 1] == whole[i - 1]);
            assert(hex_text((rest / 16) as nat, (i - 1) as nat) =~= whole.subrange(0, i - 1));
        }
        i -= 1;
        digits[i] = c;
        rest = rest / 16;
    }
    let mut j: usize = 0;
    while j < 8
        invariant
            j <= 8,
            hex_text(v as nat, 8).len() == 8,
            forall|k: int| 0 <= k < 8 ==> #[trigger] digits@[k] == hex_text(v as nat, 8)[k],
            out@ == before + hex_text(v as nat, 8).subrange(0, j as int),
        decreases 8 - j,
    {
        out.push(digits[j]);
        j += 1;
        assert(out@ =~= before + hex_text(v as nat, 8).subrange(0, j as int));
    }
    assert(hex_text(v as nat, 8).subrange(0, 8) =~= hex_text(v as nat, 8));
}

/// A text of hexadecimal digits has as many digits as asked.
pub proof fn lemma_hex_text_len(v: nat, width: nat)
    ensures
        hex_text(v, width).len() == width,
        forall|i: int|
            0 <= i < width ==> is_upper_hex_digit(#[trigger] hex_text(v, width)[i]),
    decreases width,
{
    if width > 0 {
        lemma_hex_text_len(v / 16, (width - 1) as nat);
    }
}

} // verus!
