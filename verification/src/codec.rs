//! What a message is and what decoding, reading, writing, removing and
//! encoding do to it, over plain values. The executable message type is held
//! to these definitions.

use vstd::prelude::*;
use crate::bitmap;
use crate::error::IsoError;
use crate::iso_field::FieldPayload;
use crate::iso_field::FieldSizeType;
use crate::iso_field::FieldView;
use crate::iso_field::IsoField;
use crate::numeral;

verus! {

/// A message: its specification, the payload it was decoded from, and one
/// locator for every position of the specification.
pub struct MsgView {
    pub spec: Seq<IsoField>,
    pub payload: Seq<u8>,
    pub fields: Seq<FieldView>,
}

/// The locators of a sequence of fields, over plain values.
pub open spec fn locators(fields: Seq<FieldPayload>) -> Seq<FieldView> {
    Seq::new(fields.len(), |i: int| fields[i]@)
}

/// The first position whose content class marks a bitmap, if there is one.
pub open spec fn first_bitmap(spec: Seq<IsoField>) -> Option<int>
    decreases spec.len(),
{
    if spec.len() == 0 {
        None
    } else {
        match first_bitmap(spec.drop_last()) {
            Some(p) => Some(p),
            None => if spec.last().char_type.marks_bitmap() {
                Some(spec.len() - 1)
            } else {
                None
            },
        }
    }
}

/// Whether the bitmap reaches every position of the specification: a bitmap
/// speaks of the 127 positions that follow its own.
pub open spec fn spec_fits(spec: Seq<IsoField>) -> bool {
    match first_bitmap(spec) {
        Some(b) => spec.len() - b <= 128,
        None => true,
    }
}

/// What decoding has found after some positions: their locators, the place
/// in the payload where the next field starts, and the position and flags of
/// the bitmap once it has been met.
pub struct DecodeState {
    pub fields: Seq<FieldView>,
    pub cursor: nat,
    pub flags: Option<(int, Seq<bool>)>,
}

/// Number of bytes that a present field takes in the payload from `cursor`
/// on, length prefix included: the maximum length of a fixed field, the
/// three-digit prefix plus the length it states for a variable field, and
/// nothing for any other. There is none where the prefix is malformed.
pub open spec fn field_len_at(field: IsoField, input: Seq<u8>, cursor: int) -> Option<nat> {
    match field.size_type {
        FieldSizeType::Fixed => Some(field.length as nat),
        FieldSizeType::LlVar | FieldSizeType::LllVar | FieldSizeType::LlllVar => {
            match numeral::three_digits_at(input, cursor) {
                Some(v) => Some(v + 3),
                None => None,
            }
        },
        FieldSizeType::BitMap => Some(0),
    }
}

/// Whether the flags met so far say that position `p` is present. Before
/// any bitmap every position is.
pub open spec fn flagged(flags: Option<(int, Seq<bool>)>, p: int) -> bool {
    match flags {
        None => true,
        Some((b, bits)) => 0 <= p - b < bits.len() && bits[p - b],
    }
}

/// Decoding the field at position `p`, which is the next one.
pub open spec fn decode_step(field: IsoField, p: int, input: Seq<u8>, st: DecodeState) -> Option<
    DecodeState,
> {
    if st.flags is None && field.char_type.marks_bitmap() {
        match bitmap::bitmap_len_at(input, st.cursor as int) {
            Some(len) => Some(
                DecodeState {
                    fields: st.fields.push(FieldView::found(st.cursor, len)),
                    cursor: st.cursor + len,
                    flags: Some(
                        (
                            p,
                            bitmap::bitmap_flags(
                                input.subrange(st.cursor as int, (st.cursor + len) as int),
                            ),
                        ),
                    ),
                },
            ),
            None => None,
        }
    } else if flagged(st.flags, p) {
        match field_len_at(field, input, st.cursor as int) {
            Some(len) => if st.cursor + len <= input.len() {
                Some(
                    DecodeState {
                        fields: st.fields.push(FieldView::found(st.cursor, len)),
                        cursor: st.cursor + len,
                        flags: st.flags,
                    },
                )
            } else {
                None
            },
            None => None,
        }
    } else {
        Some(
            DecodeState {
                fields: st.fields.push(FieldView::absent()),
                cursor: st.cursor,
                flags: st.flags,
            },
        )
    }
}

/// Decoding the first `n` positions of a specification, in order.
pub open spec fn decode_upto(spec: Seq<IsoField>, input: Seq<u8>, n: nat) -> Option<DecodeState>
    decreases n,
{
    if n == 0 {
        Some(DecodeState { fields: Seq::empty(), cursor: 0, flags: None })
    } else {
        match decode_upto(spec, input, (n - 1) as nat) {
            Some(st) => decode_step(spec[n - 1], n - 1, input, st),
            None => None,
        }
    }
}

/// The locators that decoding a payload gives, or the reason why it gives
/// none: a specification that reaches further than a bitmap can is refused,
/// and so is a payload with a malformed bitmap or length prefix, or one that
/// ends before a field that it announces.
pub open spec fn decode_result(spec: Seq<IsoField>, input: Seq<u8>) -> Result<
    Seq<FieldView>,
    IsoError,
> {
    if !spec_fits(spec) {
        Err(IsoError::InvalidPosition)
    } else {
        match decode_upto(spec, input, spec.len()) {
            Some(st) => Ok(st.fields),
            None => Err(IsoError::DecodeError),
        }
    }
}

/// Whether a locator can be read: bytes that replace a field are at least as
/// long as its prefix, and a present field that was not replaced lies in the
/// payload and is at least as long as its prefix.
pub open spec fn locator_ok(m: MsgView, p: int) -> bool {
    match m.fields[p].new_payload {
        Some(bytes) => bytes.len() >= m.spec[p].prefix_width(),
        None => m.fields[p].exist ==> {
            &&& m.fields[p].index + m.fields[p].len <= m.payload.len()
            &&& m.fields[p].len >= m.spec[p].prefix_width()
        },
    }
}

/// Whether a message is well formed.
pub open spec fn wf(m: MsgView) -> bool {
    &&& m.fields.len() == m.spec.len()
    &&& spec_fits(m.spec)
    &&& forall|p: int| 0 <= p < m.fields.len() ==> #[trigger] locator_ok(m, p)
}

/// The bytes of a field as they go on the wire, length prefix included: the
/// bytes that replace it where it was written, its part of the payload
/// otherwise.
pub open spec fn wire_form(m: MsgView, p: int) -> Seq<u8> {
    match m.fields[p].new_payload {
        Some(bytes) => bytes,
        None => m.payload.subrange(
            m.fields[p].index as int,
            (m.fields[p].index + m.fields[p].len) as int,
        ),
    }
}

/// The content of a field: its wire form without the length prefix.
pub open spec fn content(m: MsgView, p: int) -> Seq<u8> {
    wire_form(m, p).skip(m.spec[p].prefix_width() as int)
}

/// What reading position `p` into a buffer of `capacity` bytes gives.
pub open spec fn read_result(m: MsgView, p: int, capacity: nat) -> Result<Seq<u8>, IsoError> {
    if !(0 <= p < m.fields.len()) {
        Err(IsoError::InvalidPosition)
    } else if !m.fields[p].exist {
        Err(IsoError::FieldAbsent)
    } else if content(m, p).len() > capacity {
        Err(IsoError::BufferTooSmall)
    } else {
        Ok(content(m, p))
    }
}

/// What reading the wire form of position `p` into a buffer of `capacity`
/// bytes gives.
pub open spec fn read_raw_result(m: MsgView, p: int, capacity: nat) -> Result<
    Seq<u8>,
    IsoError,
> {
    if !(0 <= p < m.fields.len()) {
        Err(IsoError::InvalidPosition)
    } else if !m.fields[p].exist {
        Err(IsoError::FieldAbsent)
    } else if wire_form(m, p).len() > capacity {
        Err(IsoError::BufferTooSmall)
    } else {
        Ok(wire_form(m, p))
    }
}

/// The length prefix that goes before content of `len` bytes in a field
/// whose prefix is `width` bytes wide: the decimal numeral of `len`, with
/// zeros in front up to `width` digits, and nothing where the field has no
/// prefix.
pub open spec fn length_prefix(len: nat, width: nat) -> Seq<u8> {
    if width > 0 {
        numeral::padded_decimal(len, width)
    } else {
        Seq::empty()
    }
}

/// The message after content was written to position `p`: the position is
/// present and its wire form is the prefix and the content.
pub open spec fn written(m: MsgView, p: int, c: Seq<u8>) -> MsgView {
    MsgView {
        fields: m.fields.update(
            p,
            FieldView {
                exist: true,
                new_payload: Some(length_prefix(c.len(), m.spec[p].prefix_width()) + c),
                ..m.fields[p]
            },
        ),
        ..m
    }
}

/// What writing content to position `p` gives.
pub open spec fn write_result(m: MsgView, p: int, c: Seq<u8>) -> Result<MsgView, IsoError> {
    if !(0 <= p < m.fields.len()) {
        Err(IsoError::InvalidPosition)
    } else if c.len() > m.spec[p].length {
        Err(IsoError::FieldTooLong)
    } else {
        Ok(written(m, p, c))
    }
}

/// The message after position `p` was removed: the position is absent and
/// the rest of its locator stays.
pub open spec fn removed(m: MsgView, p: int) -> MsgView {
    MsgView { fields: m.fields.update(p, FieldView { exist: false, ..m.fields[p] }), ..m }
}

/// What removing position `p` gives.
pub open spec fn remove_result(m: MsgView, p: int) -> Result<MsgView, IsoError> {
    if !(0 <= p < m.fields.len()) {
        Err(IsoError::InvalidPosition)
    } else {
        Ok(removed(m, p))
    }
}

/// Whether the position `k` places after the bitmap at `b` is present.
pub open spec fn present_after(fields: Seq<FieldView>, b: int, k: int) -> bool {
    1 <= k && b + k < fields.len() && fields[b + k].exist
}

/// The 128 presence flags of a message: flag `k` says whether the position
/// `k` places after the bitmap is present. Flag 0 is clear.
pub open spec fn presence_flags(m: MsgView) -> Seq<bool> {
    match first_bitmap(m.spec) {
        Some(b) => Seq::new(128, |k: int| present_after(m.fields, b, k)),
        None => Seq::new(128, |k: int| false),
    }
}

/// The bitmap text that encoding a message gives.
pub open spec fn encoded_bitmap(m: MsgView) -> Seq<u8> {
    bitmap::bitmap_text(presence_flags(m))
}

/// The bytes that position `p` adds to the encoded message: the bitmap
/// text at the bitmap's position, the wire form of a present field, and
/// nothing for an absent one.
pub open spec fn piece(m: MsgView, p: int) -> Seq<u8> {
    if first_bitmap(m.spec) == Some(p) {
        encoded_bitmap(m)
    } else if m.fields[p].exist {
        wire_form(m, p)
    } else {
        Seq::empty()
    }
}

/// The encoding of the first `n` positions of a message, in order.
pub open spec fn encode_upto(m: MsgView, n: nat) -> Seq<u8>
    decreases n,
{
    if n == 0 {
        Seq::empty()
    } else {
        encode_upto(m, (n - 1) as nat) + piece(m, n - 1)
    }
}

/// The encoding of a message.
pub open spec fn encoded(m: MsgView) -> Seq<u8> {
    encode_upto(m, m.fields.len())
}

/// What encoding a message into a buffer of `capacity` bytes gives.
pub open spec fn encode_result(m: MsgView, capacity: nat) -> Result<Seq<u8>, IsoError> {
    if encoded(m).len() > capacity {
        Err(IsoError::BufferTooSmall)
    } else {
        Ok(encoded(m))
    }
}

/// The first bitmap position of a specification is a position of it, marks a
/// bitmap, and no position before it does; where there is none, no position
/// marks a bitmap.
pub proof fn lemma_first_bitmap(spec: Seq<IsoField>)
    ensures
        match first_bitmap(spec) {
            Some(b) => {
                &&& 0 <= b < spec.len()
                &&& spec[b].char_type.marks_bitmap()
                &&& forall|q: int| 0 <= q < b ==> !(#[trigger] spec[q]).char_type.marks_bitmap()
            },
            None => forall|q: int|
                0 <= q < spec.len() ==> !(#[trigger] spec[q]).char_type.marks_bitmap(),
        },
    decreases spec.len(),
{
    if spec.len() > 0 {
        let shorter = spec.drop_last();
        lemma_first_bitmap(shorter);
        match first_bitmap(shorter) {
            Some(b) => {
                assert(spec[b] == shorter[b]);
                assert forall|q: int| 0 <= q < b implies !(#[trigger] spec[q]).char_type.marks_bitmap() by {
                    assert(spec[q] == shorter[q]);
                }
            },
            None => {
                assert forall|q: int| 0 <= q < spec.len() - 1 implies !(#[trigger] spec[q]).char_type.marks_bitmap() by {
                    assert(spec[q] == shorter[q]);
                }
            },
        }
    }
}

/// The first bitmap position among the first `n` positions stays the first
/// bitmap position of the whole specification.
pub proof fn lemma_first_bitmap_take(spec: Seq<IsoField>, n: int)
    requires
        0 <= n <= spec.len(),
    ensures
        first_bitmap(spec.take(n)) is Some ==> first_bitmap(spec) == first_bitmap(spec.take(n)),
        first_bitmap(spec.take(n)) is None ==> (match first_bitmap(spec) {
            Some(b) => b >= n,
            None => true,
        }),
    decreases spec.len() - n,
{
    if n == spec.len() {
        assert(spec.take(n) =~= spec);
        lemma_first_bitmap(spec);
    } else {
        lemma_first_bitmap_take(spec, n + 1);
        assert(spec.take(n + 1).drop_last() =~= spec.take(n));
        lemma_first_bitmap(spec);
    }
}

/// Once decoding has failed at some position, it has failed for good.
pub proof fn lemma_decode_failure_stays(spec: Seq<IsoField>, input: Seq<u8>, n: nat, m: nat)
    requires
        n <= m,
        decode_upto(spec, input, n) is None,
    ensures
        decode_upto(spec, input, m) is None,
    decreases m,
{
    if n < m {
        lemma_decode_failure_stays(spec, input, n, (m - 1) as nat);
    }
}

/// What decoding finds lies in the payload: after `n` positions there are
/// `n` locators, none of them replaced, every present one inside the part of
/// the payload that was read and at least as long as its prefix. The flags,
/// once met, are 128 and belong to the first bitmap position.
pub proof fn lemma_decode_bounds(spec: Seq<IsoField>, input: Seq<u8>, n: nat)
    requires
        n <= spec.len(),
        decode_upto(spec, input, n) is Some,
    ensures
        ({
            let st = decode_upto(spec, input, n)->0;
            &&& st.fields.len() == n
            &&& st.cursor <= input.len()
            &&& forall|p: int|
                0 <= p < n ==> {
                    &&& (#[trigger] st.fields[p]).new_payload is None
                    &&& st.fields[p].exist ==> st.fields[p].index + st.fields[p].len <= st.cursor
                        && st.fields[p].len >= spec[p].prefix_width()
                }
            &&& match st.flags {
                Some((b, bits)) => bits.len() == 128 && first_bitmap(spec.take(n as int)) == Some(b),
                None => first_bitmap(spec.take(n as int)) is None,
            }
        }),
    decreases n,
{
    if n == 0 {
        assert(spec.take(0).len() == 0);
    } else {
        let before = decode_upto(spec, input, (n - 1) as nat);
        lemma_decode_bounds(spec, input, (n - 1) as nat);
        let prev = before->0;
        let st = decode_upto(spec, input, n)->0;
        assert(spec.take(n as int).drop_last() =~= spec.take(n - 1));
        assert(spec.take(n as int).last() == spec[n - 1]);
        assert forall|p: int| 0 <= p < n implies {
            &&& (#[trigger] st.fields[p]).new_payload is None
            &&& st.fields[p].exist ==> st.fields[p].index + st.fields[p].len <= st.cursor
                && st.fields[p].len >= spec[p].prefix_width()
        } by {
            if p < n - 1 {
                assert(st.fields[p] == prev.fields[p]);
            }
        }
    }
}

/// The locators found for the first positions stay as decoding goes on.
pub proof fn lemma_decode_prefix(spec: Seq<IsoField>, input: Seq<u8>, n: nat, m: nat)
    requires
        n <= m <= spec.len(),
        decode_upto(spec, input, m) is Some,
    ensures
        decode_upto(spec, input, n) is Some,
        decode_upto(spec, input, n)->0.fields == decode_upto(spec, input, m)->0.fields.take(
            n as int,
        ),
        decode_upto(spec, input, n)->0.flags is Some ==> decode_upto(spec, input, m)->0.flags
            == decode_upto(spec, input, n)->0.flags,
    decreases m,
{
    lemma_decode_bounds(spec, input, m);
    if n == m {
        assert(decode_upto(spec, input, m)->0.fields.take(n as int) =~= decode_upto(
            spec,
            input,
            m,
        )->0.fields);
    } else {
        lemma_decode_prefix(spec, input, n, (m - 1) as nat);
        lemma_decode_bounds(spec, input, (m - 1) as nat);
        let prev = decode_upto(spec, input, (m - 1) as nat)->0;
        let last = decode_upto(spec, input, m)->0;
        assert(last.fields.take(n as int) =~= prev.fields.take(n as int));
    }
}

/// A decoded message is well formed.
pub proof fn lemma_decoded_wf(spec: Seq<IsoField>, input: Seq<u8>)
    requires
        decode_result(spec, input) is Ok,
    ensures
        wf(MsgView { spec, payload: input, fields: decode_result(spec, input)->Ok_0 }),
{
    lemma_decode_bounds(spec, input, spec.len());
    let m = MsgView { spec, payload: input, fields: decode_result(spec, input)->Ok_0 };
    assert forall|p: int| 0 <= p < m.fields.len() implies #[trigger] locator_ok(m, p) by {
        assert(m.fields[p].new_payload is None);
    }
}

} // verus!
