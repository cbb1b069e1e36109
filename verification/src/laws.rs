//! What holds of every message: decoding and encoding undo each other,
//! reads see what was written, and the encoded bitmap says which fields are
//! present.

use vstd::prelude::*;
use crate::bitmap;
use crate::codec;
use crate::codec::MsgView;
use crate::error::IsoError;
use crate::iso_field::FieldView;
use crate::iso_field::IsoField;
use crate::numeral;

verus! {

/// The message that decoding a payload gives.
pub open spec fn decoded_message(spec: Seq<IsoField>, input: Seq<u8>) -> MsgView {
    MsgView { spec, payload: input, fields: codec::decode_result(spec, input)->Ok_0 }
}

/// The bitmap text of a decoded payload: the part of the payload that the
/// locator of the bitmap's position covers.
pub open spec fn payload_bitmap(spec: Seq<IsoField>, input: Seq<u8>, b: int) -> Seq<u8> {
    let field = decoded_message(spec, input).fields[b];
    input.subrange(field.index as int, (field.index + field.len) as int)
}

/// Whether a payload is in the form that encoding gives: it decodes, it
/// ends where its last field ends, and its bitmap, where the specification
/// has one, is in canonical form and sets no flag for a position that the
/// specification does not have.
pub open spec fn is_canonical_payload(spec: Seq<IsoField>, input: Seq<u8>) -> bool {
    &&& codec::decode_result(spec, input) is Ok
    &&& codec::decode_upto(spec, input, spec.len())->0.cursor == input.len()
    &&& match codec::first_bitmap(spec) {
        Some(b) => {
            &&& bitmap::is_canonical_bitmap(payload_bitmap(spec, input, b))
            &&& forall|k: int|
                1 <= k < 128 && b + k >= spec.len() ==> !#[trigger] bitmap::bitmap_bit(
                    payload_bitmap(spec, input, b),
                    k,
                )
        },
        None => true,
    }
}

/// What decoding one more position adds: the locator of that position stays
/// to the end; a present field starts where the one before ended and the
/// next starts where it ends; an absent field takes no bytes; after the
/// bitmap, a field is present exactly where its flag is set.
pub proof fn lemma_decode_step_shape(spec: Seq<IsoField>, input: Seq<u8>, p: nat)
    requires
        p < spec.len(),
        codec::decode_upto(spec, input, spec.len()) is Some,
    ensures
        codec::decode_upto(spec, input, p) is Some,
        codec::decode_upto(spec, input, p + 1) is Some,
        ({
            let before = codec::decode_upto(spec, input, p)->0;
            let after = codec::decode_upto(spec, input, p + 1)->0;
            let field = codec::decode_upto(spec, input, spec.len())->0.fields[p as int];
            &&& field.new_payload is None
            &&& field.exist ==> field.index == before.cursor && after.cursor == before.cursor
                + field.len
            &&& !field.exist ==> after.cursor == before.cursor
            &&& after.cursor <= input.len()
            &&& match before.flags {
                Some((b, bits)) => field.exist == (0 <= p - b < bits.len() && bits[p - b]),
                None => field.exist,
            }
            &&& before.flags is None && spec[p as int].char_type.marks_bitmap() ==> after.flags
                == Some(
                (
                    p as int,
                    bitmap::bitmap_flags(
                        input.subrange(field.index as int, (field.index + field.len) as int),
                    ),
                ),
            ) && bitmap::bitmap_len_at(input, field.index as int) == Some(field.len)
            &&& !(before.flags is None && spec[p as int].char_type.marks_bitmap()) ==> after.flags
                == before.flags
        }),
{
    codec::lemma_decode_prefix(spec, input, p, spec.len());
    codec::lemma_decode_prefix(spec, input, p + 1, spec.len());
    codec::lemma_decode_bounds(spec, input, p);
    codec::lemma_decode_bounds(spec, input, p + 1);
    codec::lemma_decode_bounds(spec, input, spec.len());
    let whole = codec::decode_upto(spec, input, spec.len())->0;
    let before = codec::decode_upto(spec, input, p)->0;
    let after = codec::decode_upto(spec, input, p + 1)->0;
    assert(codec::decode_upto(spec, input, p + 1) == codec::decode_step(
        spec[p as int],
        p as int,
        input,
        before,
    ));
    assert(after.fields[p as int] == whole.fields.take((p + 1) as int)[p as int]);
    assert(after.fields[p as int] == whole.fields[p as int]);
}

/// The flags that decoding met at the bitmap stay to the end.
pub proof fn lemma_decode_flags_stay(spec: Seq<IsoField>, input: Seq<u8>, b: nat, n: nat)
    requires
        b < n <= spec.len(),
        codec::first_bitmap(spec) == Some(b as int),
        codec::decode_result(spec, input) is Ok,
    ensures
        codec::decode_upto(spec, input, n) is Some,
        codec::decode_upto(spec, input, n)->0.flags == Some(
            (b as int, bitmap::bitmap_flags(payload_bitmap(spec, input, b as int))),
        ),
    decreases n,
{
    codec::lemma_first_bitmap(spec);
    if n == b + 1 {
        lemma_decode_step_shape(spec, input, b);
        codec::lemma_decode_bounds(spec, input, b);
        codec::lemma_first_bitmap_take(spec, b as int);
        codec::lemma_first_bitmap(spec.take(b as int));
    } else {
        lemma_decode_flags_stay(spec, input, b, (n - 1) as nat);
        lemma_decode_step_shape(spec, input, (n - 1) as nat);
    }
}

/// The presence flags of a decoded message are the flags of its bitmap, as
/// far as the specification has positions for them.
pub proof fn lemma_decoded_presence(spec: Seq<IsoField>, input: Seq<u8>, b: int, k: int)
    requires
        codec::decode_result(spec, input) is Ok,
        codec::first_bitmap(spec) == Some(b),
        1 <= k < 128,
        b + k < spec.len(),
    ensures
        codec::presence_flags(decoded_message(spec, input))[k] == bitmap::bitmap_flags(
            payload_bitmap(spec, input, b),
        )[k],
{
    codec::lemma_first_bitmap(spec);
    codec::lemma_decode_bounds(spec, input, spec.len());
    lemma_decode_flags_stay(spec, input, b as nat, (b + k) as nat);
    lemma_decode_step_shape(spec, input, (b + k) as nat);
}

/// Encoding a decoded message gives, position by position, the payload up
/// to where decoding had read.
proof fn lemma_round_trip_upto(spec: Seq<IsoField>, input: Seq<u8>, n: nat)
    requires
        is_canonical_payload(spec, input),
        n <= spec.len(),
    ensures
        codec::decode_upto(spec, input, n) is Some,
        codec::encode_upto(decoded_message(spec, input), n) == input.subrange(
            0,
            codec::decode_upto(spec, input, n)->0.cursor as int,
        ),
    decreases n,
{
    let m = decoded_message(spec, input);
    codec::lemma_decode_prefix(spec, input, n, spec.len());
    if n == 0 {
        assert(input.subrange(0, 0) =~= Seq::<u8>::empty());
    } else {
        let p = (n - 1) as nat;
        lemma_round_trip_upto(spec, input, p);
        lemma_decode_step_shape(spec, input, p);
        codec::lemma_first_bitmap(spec);
        let before = codec::decode_upto(spec, input, p)->0;
        let after = codec::decode_upto(spec, input, n)->0;
        let field = m.fields[p as int];
        if codec::first_bitmap(spec) == Some(p as int) {
            let text = payload_bitmap(spec, input, p as int);
            let flags = codec::presence_flags(m);
            codec::lemma_decode_bounds(spec, input, p);
            codec::lemma_first_bitmap_take(spec, p as int);
            codec::lemma_first_bitmap(spec.take(p as int));
            codec::lemma_decode_bounds(spec, input, spec.len());
            assert forall|k: int| 0 <= k < 128 implies flags[k] == bitmap::bitmap_flags(text)[k] by {
                if 1 <= k {
                    if p + k < spec.len() {
                        lemma_decoded_presence(spec, input, p as int, k);
                    } else {
                        assert(!bitmap::bitmap_bit(text, k));
                    }
                }
            }
            assert(flags =~= bitmap::bitmap_flags(text));
            bitmap::lemma_bitmap_text_of_flags(text);
            assert(codec::piece(m, p as int) == text);
            assert(field.exist);
        } else if field.exist {
            assert(codec::piece(m, p as int) == input.subrange(
                field.index as int,
                (field.index + field.len) as int,
            ));
        } else {
            assert(codec::piece(m, p as int) =~= Seq::<u8>::empty());
        }
        assert(codec::encode_upto(m, n) =~= input.subrange(0, after.cursor as int));
    }
}

/// Decoding and encoding undo each other: a payload in canonical form,
/// decoded and encoded again with nothing written or removed, comes back
/// byte for byte.
pub proof fn lemma_round_trip(spec: Seq<IsoField>, input: Seq<u8>)
    requires
        is_canonical_payload(spec, input),
    ensures
        codec::encoded(decoded_message(spec, input)) == input,
{
    lemma_round_trip_upto(spec, input, spec.len());
    codec::lemma_decode_bounds(spec, input, spec.len());
    assert(input.subrange(0, input.len() as int) =~= input);
}

/// Writing keeps a message well formed.
pub proof fn lemma_written_wf(m: MsgView, p: int, c: Seq<u8>)
    requires
        codec::wf(m),
        0 <= p < m.fields.len(),
    ensures
        codec::wf(codec::written(m, p, c)),
{
    let w = codec::written(m, p, c);
    numeral::lemma_padded_decimal_len(c.len(), m.spec[p].prefix_width());
    assert forall|q: int| 0 <= q < w.fields.len() implies #[trigger] codec::locator_ok(w, q) by {
        assert(codec::locator_ok(m, q));
    }
}

/// Removing keeps a message well formed.
pub proof fn lemma_removed_wf(m: MsgView, p: int)
    requires
        codec::wf(m),
        0 <= p < m.fields.len(),
    ensures
        codec::wf(codec::removed(m, p)),
{
    let r = codec::removed(m, p);
    assert forall|q: int| 0 <= q < r.fields.len() implies #[trigger] codec::locator_ok(r, q) by {
        assert(codec::locator_ok(m, q));
    }
}

/// Reads see what was written: after content no longer than the field's
/// maximum length was written to a position, the position is present and
/// reading it gives the content back. For a field with a length prefix the
/// content has to be shorter than a thousand bytes, so that its length fits
/// the three digits of the prefix.
pub proof fn lemma_write_then_read(m: MsgView, p: int, c: Seq<u8>, capacity: nat)
    requires
        codec::wf(m),
        0 <= p < m.fields.len(),
        c.len() <= m.spec[p].length,
        m.spec[p].prefix_width() > 0 ==> c.len() < 1000,
        c.len() <= capacity,
    ensures
        codec::write_result(m, p, c) == Ok::<MsgView, IsoError>(codec::written(m, p, c)),
        codec::written(m, p, c).fields[p].exist,
        codec::read_result(codec::written(m, p, c), p, capacity) == Ok::<Seq<u8>, IsoError>(c),
{
    let w = codec::written(m, p, c);
    let width = m.spec[p].prefix_width();
    let prefix = codec::length_prefix(c.len(), width);
    if width > 0 {
        numeral::lemma_three_digit_prefix(c.len(), c);
    }
    assert(prefix.len() == width);
    assert((prefix + c).skip(width as int) =~= c);
}

/// A removed field cannot be read, and a later write makes it readable
/// again.
pub proof fn lemma_remove_then_read(m: MsgView, p: int, c: Seq<u8>, capacity: nat)
    requires
        codec::wf(m),
        0 <= p < m.fields.len(),
    ensures
        codec::remove_result(m, p) == Ok::<MsgView, IsoError>(codec::removed(m, p)),
        codec::read_result(codec::removed(m, p), p, capacity) == Err::<Seq<u8>, IsoError>(
            IsoError::FieldAbsent,
        ),
        capacity >= codec::content(codec::written(codec::removed(m, p), p, c), p).len()
            ==> codec::read_result(codec::written(codec::removed(m, p), p, c), p, capacity)
            is Ok,
{
}

/// The encoding of the first positions is the start of the encoding of the
/// whole message.
pub proof fn lemma_encode_upto_prefix(m: MsgView, n: nat, k: nat)
    requires
        n <= k,
    ensures
        codec::encode_upto(m, n).len() <= codec::encode_upto(m, k).len(),
        codec::encode_upto(m, k).subrange(0, codec::encode_upto(m, n).len() as int)
            == codec::encode_upto(m, n),
    decreases k,
{
    if n == k {
        assert(codec::encode_upto(m, k).subrange(0, codec::encode_upto(m, n).len() as int)
            =~= codec::encode_upto(m, n));
    } else {
        lemma_encode_upto_prefix(m, n, (k - 1) as nat);
        assert(codec::encode_upto(m, k).subrange(0, codec::encode_upto(m, n).len() as int)
            =~= codec::encode_upto(m, (k - 1) as nat).subrange(
            0,
            codec::encode_upto(m, n).len() as int,
        ));
    }
}

/// The encoded bitmap says which fields are present: in the encoding of a
/// well-formed message the bitmap text stands where the fields before the
/// bitmap end, and its flag for every position after the bitmap is set
/// exactly where that position is present.
pub proof fn lemma_bitmap_matches_presence(m: MsgView, b: int)
    requires
        codec::wf(m),
        codec::first_bitmap(m.spec) == Some(b),
    ensures
        ({
            let start = codec::encode_upto(m, b as nat).len() as int;
            let text = codec::encoded_bitmap(m);
            &&& start + text.len() <= codec::encoded(m).len()
            &&& codec::encoded(m).subrange(start, start + text.len()) == text
            &&& forall|p: int|
                b < p < m.fields.len() ==> #[trigger] bitmap::bitmap_bit(text, p - b)
                    == m.fields[p].exist
        }),
{
    codec::lemma_first_bitmap(m.spec);
    let flags = codec::presence_flags(m);
    let text = codec::encoded_bitmap(m);
    let start = codec::encode_upto(m, b as nat).len() as int;
    bitmap::lemma_bitmap_text(flags);
    lemma_encode_upto_prefix(m, (b + 1) as nat, m.fields.len());
    assert(codec::encode_upto(m, (b + 1) as nat) == codec::encode_upto(m, b as nat) + text);
    assert(codec::encoded(m).subrange(start, start + text.len()) =~= text) by {
        let longer = codec::encoded(m);
        let shorter = codec::encode_upto(m, (b + 1) as nat);
        assert(longer.subrange(0, shorter.len() as int) == shorter);
        assert forall|i: int| 0 <= i < text.len() implies longer[start + i] == text[i] by {
            assert(longer.subrange(0, shorter.len() as int)[start + i] == shorter[start + i]);
        }
    }
    assert forall|p: int| b < p < m.fields.len() implies #[trigger] bitmap::bitmap_bit(
        text,
        p - b,
    ) == m.fields[p].exist by {
        assert(flags[p - b] == codec::present_after(m.fields, b, p - b));
    }
}

/// The second block goes with the fields from the 64th place after the
/// bitmap on: where none of them is present, the encoded bitmap is one
/// block and its reserved flag is clear; where one of them is present, it
/// is two blocks and its reserved flag is set.
pub proof fn lemma_second_block(m: MsgView, b: int)
    requires
        codec::wf(m),
        codec::first_bitmap(m.spec) == Some(b),
    ensures
        (forall|p: int| b + 64 <= p < m.fields.len() ==> !(#[trigger] m.fields[p]).exist) ==> {
            &&& codec::encoded_bitmap(m).len() == 16
            &&& !numeral::text_bit(codec::encoded_bitmap(m), 0)
        },
        (exists|p: int| b + 64 <= p < m.fields.len() && (#[trigger] m.fields[p]).exist) ==> {
            &&& codec::encoded_bitmap(m).len() == 32
            &&& numeral::text_bit(codec::encoded_bitmap(m), 0)
        },
{
    codec::lemma_first_bitmap(m.spec);
    let flags = codec::presence_flags(m);
    bitmap::lemma_bitmap_text(flags);
    if forall|p: int| b + 64 <= p < m.fields.len() ==> !(#[trigger] m.fields[p]).exist {
        if bitmap::needs_second(flags) {
            let k = choose|k: int| 64 <= k < 128 && #[trigger] flags[k];
            assert(codec::present_after(m.fields, b, k));
            assert(!m.fields[b + k].exist);
        }
    }
    if exists|p: int| b + 64 <= p < m.fields.len() && (#[trigger] m.fields[p]).exist {
        let p = choose|p: int| b + 64 <= p < m.fields.len() && (#[trigger] m.fields[p]).exist;
        assert(codec::present_after(m.fields, b, p - b));
        assert(flags[p - b]);
    }
}

} // verus!
