//! The message: decoded once from a payload against a specification, read,
//! written and removed field by field, and encoded again on demand.

use vstd::prelude::*;
use vstd::slice::slice_subrange;
use crate::bit_block;
use crate::bit_block::BitBlock;
use crate::bitmap;
use crate::codec;
use crate::codec::MsgView;
use crate::error::IsoError;
use crate::iso_field::FieldPayload;
use crate::iso_field::FieldSizeType;
use crate::iso_field::FieldView;
use crate::iso_field::IsoField;
use crate::numeral;

verus! {

/// A specification: the ordered fields of a message format, position 0
/// first.
pub trait IsoSpecs {
    fn get_handle(&self) -> &Vec<IsoField>;
}

/// A list of fields is a specification: it hands itself out.
impl IsoSpecs for Vec<IsoField> {
    fn get_handle(&self) -> (handle: &Vec<IsoField>)
        ensures
            *handle == *self,
    {
        self
    }
}

/// A message decoded from a payload. It borrows the payload and the fields of
/// the specification, and owns one locator for every position.
pub struct IsoMsg<'a, 'b> {
    payload: &'a [u8],
    iso_spec: &'b Vec<IsoField>,
    fields: Vec<FieldPayload>,
}

/// Sets `count` flags from `start` on to the lowest `count` bits of `v`, the
/// highest of them first.
fn set_flags(block: &mut BitBlock, v: u32, start: usize, count: u8)
    requires
        count <= 32,
        start + count <= 128,
        bit_block::block_bits(*old(block)).len() == 128,
    ensures
        bit_block::block_bits(*final(block)) == Seq::new(
            128,
            |k: int|
                if start <= k < start + count {
                    numeral::bit_set(v, (start + count - 1 - k) as u32)
                } else {
                    bit_block::block_bits(*old(block))[k]
                },
        ),
{
    let ghost before = bit_block::block_bits(*block);
    let mut x: u8 = count;
    let mut k: usize = start;
    while x > 0
        invariant
            x <= count <= 32,
            start + count <= 128,
            k == start + (count - x),
            before.len() == 128,
            bit_block::block_bits(*block) == Seq::new(
                128,
                |j: int|
                    if start <= j < k {
                        numeral::bit_set(v, (start + count - 1 - j) as u32)
                    } else {
                        before[j]
                    },
            ),
        decreases x,
    {
        x -= 1;
        let bit = numeral::bit_is_set(v, x);
        block.set(k, bit);
        k += 1;
        assert(bit_block::block_bits(*block) =~= Seq::new(
            128,
            |j: int|
                if start <= j < k {
                    numeral::bit_set(v, (start + count - 1 - j) as u32)
                } else {
                    before[j]
                },
        ));
    }
}

/// The first position of a specification whose content class marks a
/// bitmap.
fn find_bitmap(handle: &Vec<IsoField>) -> (r: Option<usize>)
    ensures
        match r {
            Some(b) => codec::first_bitmap(handle@) == Some(b as int),
            None => codec::first_bitmap(handle@) is None,
        },
{
    let mut i: usize = 0;
    while i < handle.len()
        invariant
            i <= handle@.len(),
            codec::first_bitmap(handle@.take(i as int)) is None,
        decreases handle@.len() - i,
    {
        proof {
            assert(handle@.take(i + 1).drop_last() =~= handle@.take(i as int));
        }
        if handle[i].char_type.is_bitmap() {
            proof {
                codec::lemma_first_bitmap_take(handle@, i + 1);
            }
            return Some(i);
        }
        i += 1;
    }
    proof {
        assert(handle@.take(i as int) =~= handle@);
    }
    None
}

/// Marks the locator at `index` as absent; the rest of it stays.
fn mark_absent(
    fields: &mut Vec<FieldPayload>,
    index: usize,
    Ghost(spec): Ghost<Seq<IsoField>>,
    Ghost(payload): Ghost<Seq<u8>>,
)
    requires
        index < old(fields)@.len(),
        codec::wf(MsgView { spec, payload, fields: codec::locators(old(fields)@) }),
    ensures
        codec::locators(final(fields)@) == codec::removed(
            MsgView { spec, payload, fields: codec::locators(old(fields)@) },
            index as int,
        ).fields,
        codec::wf(MsgView { spec, payload, fields: codec::locators(final(fields)@) }),
    no_unwind
{
    let ghost before = MsgView { spec, payload, fields: codec::locators(fields@) };
    fields[index].exist = false;
    proof {
        let after = MsgView { spec, payload, fields: codec::locators(fields@) };
        assert(after.fields =~= codec::removed(before, index as int).fields);
        assert forall|p: int| 0 <= p < after.fields.len() implies #[trigger] codec::locator_ok(
            after,
            p,
        ) by {
            assert(codec::locator_ok(before, p));
        }
    }
}

/// Marks the locator at `index` as present and replaced by `bytes`; its
/// place in the payload stays.
fn replace_field(
    fields: &mut Vec<FieldPayload>,
    index: usize,
    bytes: Vec<u8>,
    Ghost(spec): Ghost<Seq<IsoField>>,
    Ghost(payload): Ghost<Seq<u8>>,
)
    requires
        index < old(fields)@.len(),
        codec::wf(MsgView { spec, payload, fields: codec::locators(old(fields)@) }),
        bytes@.len() >= spec[index as int].prefix_width(),
    ensures
        codec::locators(final(fields)@) == codec::locators(old(fields)@).update(
            index as int,
            FieldView {
                exist: true,
                new_payload: Some(bytes@),
                ..codec::locators(old(fields)@)[index as int]
            },
        ),
        codec::wf(MsgView { spec, payload, fields: codec::locators(final(fields)@) }),
    no_unwind
{
    let ghost before = MsgView { spec, payload, fields: codec::locators(fields@) };
    let ghost text = bytes@;
    fields[index].new_payload = Some(bytes);
    fields[index].exist = true;
    proof {
        let after = MsgView { spec, payload, fields: codec::locators(fields@) };
        assert(after.fields =~= before.fields.update(
            index as int,
            FieldView { exist: true, new_payload: Some(text), ..before.fields[index as int] },
        ));
        assert forall|p: int| 0 <= p < after.fields.len() implies #[trigger] codec::locator_ok(
            after,
            p,
        ) by {
            assert(codec::locator_ok(before, p));
        }
    }
}

/// Copies `len` bytes of `src`, from `from` on, to the start of `dst`.
fn copy_bytes(dst: &mut [u8], src: &[u8], from: usize, len: usize)
    requires
        from + len <= src@.len(),
        len <= old(dst)@.len(),
    ensures
        final(dst)@ == src@.subrange(from as int, from + len) + old(dst)@.skip(len as int),
{
    let ghost before = dst@;
    let size = src.len();
    let mut i: usize = 0;
    while i < len
        invariant
            i <= len,
            from + len <= src@.len() == size,
            len <= before.len(),
            dst@.len() == before.len(),
            dst@ == src@.subrange(from as int, from + i) + before.skip(i as int),
        decreases len - i,
    {
        dst[i] = src[from + i];
        i += 1;
        assert(dst@ =~= src@.subrange(from as int, from + i) + before.skip(i as int));
    }
}

/// Appends to `out` the text of the first 64 flags of a block, and of all
/// 128 where `second` is set, in groups of 32 flags: each group is packed
/// into four bytes, read as a number with the first byte most significant,
/// and written as eight upper-case hexadecimal digits.
fn push_flags_text(out: &mut Vec<u8>, block: &BitBlock, second: bool)
    requires
        bit_block::block_bits(*block).len() == 128,
    ensures
        final(out)@ == old(out)@ + bitmap::bits_text(
            bit_block::block_bits(*block).subrange(
                0,
                if second {
                    128int
                } else {
                    64int
                },
            ),
        ),
{
    let ghost before = out@;
    let ghost bits = bit_block::block_bits(*block);
    let bytes = block.to_bytes();
    let groups: usize = if second {
        4
    } else {
        2
    };
    let mut g: usize = 0;
    proof {
        assert(bitmap::bits_text(bits.subrange(0, 0)) =~= Seq::<u8>::empty());
    }
    while g < groups
        invariant
            g <= groups <= 4,
            bits.len() == 128,
            bits == bit_block::block_bits(*block),
            bytes@.len() == 16,
            forall|j: int|
                0 <= j < 16 ==> #[trigger] bytes@[j] as nat == bit_block::byte_of_flags(
                    bits,
                    8 * j,
                ),
            out@ == before + bitmap::bits_text(bits.subrange(0, 32 * g)),
        decreases groups - g,
    {
        let chunk = slice_subrange(bytes.as_slice(), 4 * g, 4 * g + 4);
        let v = IsoMsg::convert_u32_be(chunk);
        proof {
            let o = 32 * g as int;
            assert(chunk@[0] == bytes@[4 * g + 0] && chunk@[1] == bytes@[4 * g + 1] && chunk@[2]
                == bytes@[4 * g + 2] && chunk@[3] == bytes@[4 * g + 3]);
            assert(v == bitmap::group_value(bits, o));
            bitmap::lemma_group_text(bits, o);
            let longer = bits.subrange(0, o + 32);
            bitmap::lemma_bits_text_split(longer, o);
            assert(longer.subrange(0, o) =~= bits.subrange(0, o));
            assert(longer.subrange(o, o + 32) =~= bits.subrange(o, o + 32));
        }
        numeral::push_hex_group(out, v);
        g += 1;
    }
}

impl<'a, 'b> IsoMsg<'a, 'b> {
    #[verifier::type_invariant]
    spec fn well_formed(self) -> bool {
        codec::wf(self@)
    }

    /// The message over plain values.
    pub closed spec fn view(&self) -> MsgView {
        MsgView {
            spec: self.iso_spec@,
            payload: self.payload@,
            fields: codec::locators(self.fields@),
        }
    }

    /// Decodes a payload against the fields that a specification hands
    /// out. Whatever fields those are, the message is the one that
    /// `from_handle` gives for them.
    pub fn new<S: IsoSpecs + ?Sized>(iso_spec: &'b S, payload: &'a [u8]) -> (r: Result<
        IsoMsg<'a, 'b>,
        IsoError,
    >)
        ensures
            match r {
                Ok(msg) => {
                    &&& codec::decode_result(msg@.spec, payload@) == Ok::<
                        Seq<FieldView>,
                        IsoError,
                    >(msg@.fields)
                    &&& msg@.payload == payload@
                    &&& codec::wf(msg@)
                },
                Err(e) => e == IsoError::DecodeError || e == IsoError::InvalidPosition,
            },
    {
        IsoMsg::from_handle(iso_spec.get_handle(), payload)
    }

    /// Decodes a payload against the fields of a specification.
    pub fn from_handle(handle: &'b Vec<IsoField>, payload: &'a [u8]) -> (r: Result<
        IsoMsg<'a, 'b>,
        IsoError,
    >)
        ensures
            match r {
                Ok(msg) => {
                    &&& codec::decode_result(handle@, payload@) == Ok::<Seq<FieldView>, IsoError>(
                        msg@.fields,
                    )
                    &&& msg@.spec == handle@
                    &&& msg@.payload == payload@
                    &&& codec::wf(msg@)
                },
                Err(e) => codec::decode_result(handle@, payload@) == Err::<
                    Seq<FieldView>,
                    IsoError,
                >(e),
            },
    {
        let mut fields: Vec<FieldPayload> = Vec::new();
        let decoded = IsoMsg::decode_fields(handle, &mut fields, payload);
        match decoded {
            Err(e) => Err(e),
            Ok(_) => {
                proof {
                    codec::lemma_decoded_wf(handle@, payload@);
                    assert(fields@.subrange(0, fields@.len() as int) =~= fields@);
                }
                Ok(IsoMsg { payload, iso_spec: handle, fields })
            },
        }
    }

    pub fn is_bit_set(input: u32, n: u8) -> (set: bool)
        ensures
            set == numeral::bit_set(input, n as u32),
    {
        numeral::bit_is_set(input, n)
    }

    /// Decodes the bitmap whose text starts at byte `index` of
    /// `bitmap_bytes`: one block of sixteen hexadecimal digits, and a second
    /// one where the reserved flag of the first is set. Gives the 128
    /// presence flags as one block, and the number of bytes that the text
    /// takes.
    pub fn process_bitmap<S: IsoSpecs + ?Sized>(
        _iso_spec: &S,
        index: usize,
        bitmap_bytes: &[u8],
    ) -> (r: Result<(Vec<BitBlock>, usize), IsoError>)
        ensures
            match r {
                Ok((blocks, len)) => {
                    &&& bitmap::bitmap_len_at(bitmap_bytes@, index as int) == Some(len as nat)
                    &&& blocks@.len() == 1
                    &&& bit_block::block_bits(blocks@[0]) == bitmap::bitmap_flags(
                        bitmap_bytes@.subrange(index as int, index + len),
                    )
                },
                Err(e) => e == IsoError::DecodeError && bitmap::bitmap_len_at(
                    bitmap_bytes@,
                    index as int,
                ) is None,
            },
    {
        let ghost input = bitmap_bytes@;
        let ghost first = input.subrange(index as int, index + 16);
        let size = bitmap_bytes.len();
        let mut block = BitBlock::cleared();
        let ms = match numeral::read_hex_group(bitmap_bytes, index) {
            Some(v) => v,
            None => {
                proof {
                    if index + 16 <= input.len() && numeral::is_hex_text(first) {
                        let a = input.subrange(index as int, index + 8);
                        assert forall|i: int| 0 <= i < 8 implies numeral::is_hex_digit(
                            #[trigger] a[i],
                        ) by {
                            assert(a[i] == first[i]);
                        }
                    }
                }
                return Err(IsoError::DecodeError);
            },
        };
        let ls = match numeral::read_hex_group(bitmap_bytes, index + 8) {
            Some(v) => v,
            None => {
                proof {
                    if index + 16 <= input.len() && numeral::is_hex_text(first) {
                        let a = input.subrange(index + 8, index + 16);
                        assert forall|i: int| 0 <= i < 8 implies numeral::is_hex_digit(
                            #[trigger] a[i],
                        ) by {
                            assert(a[i] == first[i + 8]);
                        }
                    }
                }
                return Err(IsoError::DecodeError);
            },
        };
        proof {
            let a = input.subrange(index as int, index + 8);
            let b = input.subrange(index + 8, index + 16);
            assert forall|i: int| 0 <= i < 16 implies numeral::is_hex_digit(
                #[trigger] first[i],
            ) by {
                if i < 8 {
                    assert(first[i] == a[i]);
                } else {
                    assert(first[i] == b[i - 8]);
                }
            }
        }
        // Flag 0 is reserved: it takes no part in the presence flags.
        set_flags(&mut block, ms, 1, 31);
        set_flags(&mut block, ls, 32, 32);
        let second = IsoMsg::is_bit_set(ms, 31);
        proof {
            let a = input.subrange(index as int, index + 8);
            assert(first.subrange(0, 8) =~= a);
            bitmap::lemma_text_bit_part(first, 0, 8, 0);
            assert(second == numeral::text_bit(first, 0));
        }
        if !second {
            proof {
                let a = input.subrange(index as int, index + 8);
                let b = input.subrange(index + 8, index + 16);
                assert(first.subrange(0, 8) =~= a);
                assert(first.subrange(8, 16) =~= b);
                let want = bitmap::bitmap_flags(first);
                let got = bit_block::block_bits(block);
                assert forall|k: int| 0 <= k < 128 implies got[k] == want[k] by {
                    if 1 <= k < 32 {
                        bitmap::lemma_text_bit_part(first, 0, 8, k);
                        assert(got[k] == numeral::bit_set(ms, (31 - k) as u32));
                    } else if 32 <= k < 64 {
                        bitmap::lemma_text_bit_part(first, 8, 16, k - 32);
                        assert(got[k] == numeral::bit_set(ls, (63 - k) as u32));
                    }
                }
                assert(got =~= want);
            }
            let mut blocks: Vec<BitBlock> = Vec::new();
            blocks.push(block);
            return Ok((blocks, 16));
        }
        let ghost second_text = input.subrange(index + 16, index + 32);
        let ms2 = match numeral::read_hex_group(bitmap_bytes, index + 16) {
            Some(v) => v,
            None => {
                proof {
                    if index + 32 <= input.len() && numeral::is_hex_text(second_text) {
                        let a = input.subrange(index + 16, index + 24);
                        assert forall|i: int| 0 <= i < 8 implies numeral::is_hex_digit(
                            #[trigger] a[i],
                        ) by {
                            assert(a[i] == second_text[i]);
                        }
                    }
                }
                return Err(IsoError::DecodeError);
            },
        };
        let ls2 = match numeral::read_hex_group(bitmap_bytes, index + 24) {
            Some(v) => v,
            None => {
                proof {
                    if index + 32 <= input.len() && numeral::is_hex_text(second_text) {
                        let a = input.subrange(index + 24, index + 32);
                        assert forall|i: int| 0 <= i < 8 implies numeral::is_hex_digit(
                            #[trigger] a[i],
                        ) by {
                            assert(a[i] == second_text[i + 8]);
                        }
                    }
                }
                return Err(IsoError::DecodeError);
            },
        };
        set_flags(&mut block, ms2, 64, 32);
        set_flags(&mut block, ls2, 96, 32);
        proof {
            let whole = input.subrange(index as int, index + 32);
            let a = input.subrange(index as int, index + 8);
            let b = input.subrange(index + 8, index + 16);
            let c = input.subrange(index + 16, index + 24);
            let d = input.subrange(index + 24, index + 32);
            assert forall|i: int| 0 <= i < 16 implies numeral::is_hex_digit(
                #[trigger] second_text[i],
            ) by {
                if i < 8 {
                    assert(second_text[i] == c[i]);
                } else {
                    assert(second_text[i] == d[i - 8]);
                }
            }
            assert(whole.subrange(0, 8) =~= a);
            assert(whole.subrange(8, 16) =~= b);
            assert(whole.subrange(16, 24) =~= c);
            assert(whole.subrange(24, 32) =~= d);
            let want = bitmap::bitmap_flags(whole);
            let got = bit_block::block_bits(block);
            assert forall|k: int| 0 <= k < 128 implies got[k] == want[k] by {
                if 1 <= k < 32 {
                    bitmap::lemma_text_bit_part(whole, 0, 8, k);
                    assert(got[k] == numeral::bit_set(ms, (31 - k) as u32));
                } else if 32 <= k < 64 {
                    bitmap::lemma_text_bit_part(whole, 8, 16, k - 32);
                    assert(got[k] == numeral::bit_set(ls, (63 - k) as u32));
                } else if 64 <= k < 96 {
                    bitmap::lemma_text_bit_part(whole, 16, 24, k - 64);
                    assert(got[k] == numeral::bit_set(ms2, (95 - k) as u32));
                } else if 96 <= k {
                    bitmap::lemma_text_bit_part(whole, 24, 32, k - 96);
                    assert(got[k] == numeral::bit_set(ls2, (127 - k) as u32));
                }
            }
            assert(got =~= want);
        }
        let mut blocks: Vec<BitBlock> = Vec::new();
        blocks.push(block);
        Ok((blocks, 32))
    }

    /// The number that four bytes make, the first byte most significant.
    pub fn convert_u32_be(array: &[u8]) -> (v: u32)
        requires
            array@.len() == 4,
        ensures
            v == bitmap::be_value(
                array@[0] as nat,
                array@[1] as nat,
                array@[2] as nat,
                array@[3] as nat,
            ),
    {
        let a: u32 = array[0] as u32;
        let b: u32 = array[1] as u32;
        let c: u32 = array[2] as u32;
        let d: u32 = array[3] as u32;
        assert((a << 24) == a * 0x100_0000 && (b << 16) == b * 0x1_0000 && (c << 8) == c * 0x100)
            by (bit_vector)
            requires
                a < 256,
                b < 256,
                c < 256,
        ;
        (a << 24) + (b << 16) + (c << 8) + d
    }

    /// The number that four bytes make, the first byte least significant.
    pub fn convert_u32_le(array: &[u8]) -> (v: u32)
        requires
            array@.len() == 4,
        ensures
            v == bitmap::be_value(
                array@[3] as nat,
                array@[2] as nat,
                array@[1] as nat,
                array@[0] as nat,
            ),
    {
        let a: u32 = array[0] as u32;
        let b: u32 = array[1] as u32;
        let c: u32 = array[2] as u32;
        let d: u32 = array[3] as u32;
        assert((d << 24) == d * 0x100_0000 && (c << 16) == c * 0x1_0000 && (b << 8) == b * 0x100)
            by (bit_vector)
            requires
                d < 256,
                c < 256,
                b < 256,
        ;
        a + (b << 8) + (c << 16) + (d << 24)
    }

    /// Number of bytes that a present field takes at the start of
    /// `input_buffer`, length prefix included.
    pub fn get_field_length(iso_field: &IsoField, input_buffer: &[u8]) -> (r: Result<
        usize,
        IsoError,
    >)
        ensures
            match r {
                Ok(len) => codec::field_len_at(*iso_field, input_buffer@, 0) == Some(len as nat),
                Err(e) => e == IsoError::DecodeError && codec::field_len_at(
                    *iso_field,
                    input_buffer@,
                    0,
                ) is None,
            },
    {
        match iso_field.size_type {
            FieldSizeType::Fixed => Ok(iso_field.length),
            FieldSizeType::LlVar | FieldSizeType::LllVar | FieldSizeType::LlllVar => {
                match numeral::read_three_digits(input_buffer, 0) {
                    Some(v) => Ok(v + 3),
                    None => Err(IsoError::DecodeError),
                }
            },
            _ => Ok(0),
        }
    }

    /// Decodes a payload against the fields that a specification hands out
    /// and appends one locator for every position to `fields`. Whatever
    /// fields those are, the locators or the error are the ones that
    /// decoding gives for them, as `decode_fields` does. Where decoding
    /// fails, `fields` stays as it was.
    pub fn from_byte_array<S: IsoSpecs + ?Sized>(
        iso_spec: &S,
        fields: &mut Vec<FieldPayload>,
        input_buffer: &[u8],
    ) -> (r: Result<(), IsoError>)
        ensures
            r is Ok ==> {
                &&& final(fields)@.len() >= old(fields)@.len()
                &&& final(fields)@.subrange(0, old(fields)@.len() as int) == old(fields)@
                &&& exists|spec: Seq<IsoField>|
                    {
                        &&& final(fields)@.len() == old(fields)@.len() + spec.len()
                        &&& #[trigger] codec::decode_result(spec, input_buffer@) == Ok::<
                            Seq<FieldView>,
                            IsoError,
                        >(
                            codec::locators(
                                final(fields)@.subrange(
                                    old(fields)@.len() as int,
                                    final(fields)@.len() as int,
                                ),
                            ),
                        )
                    }
            },
            r is Err ==> {
                &&& r->Err_0 == IsoError::DecodeError || r->Err_0 == IsoError::InvalidPosition
                &&& final(fields)@ == old(fields)@
                &&& exists|spec: Seq<IsoField>|
                    #[trigger] codec::decode_result(spec, input_buffer@) == Err::<
                        Seq<FieldView>,
                        IsoError,
                    >(r->Err_0)
            },
    {
        let handle = iso_spec.get_handle();
        let r = IsoMsg::decode_fields(handle, fields, input_buffer);
        proof {
            let spec = handle@;
            if r is Ok {
                assert(codec::decode_result(spec, input_buffer@) == Ok::<Seq<FieldView>, IsoError>(
                    codec::locators(
                        fields@.subrange(old(fields)@.len() as int, fields@.len() as int),
                    ),
                ));
            } else {
                assert(codec::decode_result(spec, input_buffer@) == Err::<
                    Seq<FieldView>,
                    IsoError,
                >(r->Err_0));
            }
        }
        r
    }

    /// Decodes a payload against the fields of a specification and appends
    /// one locator for every position to `fields`. Where decoding fails,
    /// `fields` stays as it was.
    pub fn decode_fields(
        handle: &Vec<IsoField>,
        fields: &mut Vec<FieldPayload>,
        input_buffer: &[u8],
    ) -> (r: Result<(), IsoError>)
        ensures
            r is Ok ==> {
                &&& codec::decode_result(handle@, input_buffer@) is Ok
                &&& final(fields)@.len() == old(fields)@.len() + handle@.len()
                &&& final(fields)@.subrange(0, old(fields)@.len() as int) == old(fields)@
                &&& codec::locators(
                    final(fields)@.subrange(old(fields)@.len() as int, final(fields)@.len() as int),
                ) == codec::decode_result(handle@, input_buffer@)->Ok_0
            },
            r is Err ==> {
                &&& codec::decode_result(handle@, input_buffer@) == Err::<
                    Seq<FieldView>,
                    IsoError,
                >(r->Err_0)
                &&& final(fields)@ == old(fields)@
            },
    {
        let ghost spec = handle@;
        let ghost input = input_buffer@;
        let count = handle.len();
        let bitmap_at = find_bitmap(handle);
        proof {
            codec::lemma_first_bitmap(spec);
        }
        match bitmap_at {
            Some(b) => {
                if count - b > 128 {
                    return Err(IsoError::InvalidPosition);
                }
            },
            None => {},
        }
        let size = input_buffer.len();
        let mut found: Vec<FieldPayload> = Vec::new();
        let mut payload_index: usize = 0;
        let mut found_bitmap = false;
        let mut bitmap_field_index: usize = 0;
        let mut bit_arrays: Vec<BitBlock> = Vec::new();
        let mut i: usize = 0;
        while i < count
            invariant
                i <= count,
                count == spec.len(),
                spec == handle@,
                *fields == *old(fields),
                size == input.len(),
                found@.len() == i,
                input == input_buffer@,
                codec::spec_fits(spec),
                codec::decode_upto(spec, input, i as nat) is Some,
                codec::decode_upto(spec, input, i as nat)->0.fields == codec::locators(found@),
                codec::decode_upto(spec, input, i as nat)->0.cursor == payload_index,
                payload_index <= input.len(),
                found_bitmap ==> bit_arrays@.len() == 1 && bitmap_field_index < i
                    && codec::first_bitmap(spec) == Some(bitmap_field_index as int),
                codec::decode_upto(spec, input, i as nat)->0.flags == (if found_bitmap {
                    Some((bitmap_field_index as int, bit_block::block_bits(bit_arrays@[0])))
                } else {
                    None
                }),
            decreases count - i,
        {
            let iso_field = &handle[i];
            let ghost st = codec::decode_upto(spec, input, i as nat)->0;
            let ghost next = codec::decode_step(spec[i as int], i as int, input, st);
            assert(codec::decode_upto(spec, input, (i + 1) as nat) == next);
            proof {
                codec::lemma_decode_bounds(spec, input, i as nat);
            }
            let mut field = FieldPayload::default();
            if !found_bitmap && iso_field.char_type.is_bitmap() {
                match IsoMsg::process_bitmap(handle, payload_index, input_buffer) {
                    Err(_) => {
                        proof {
                            codec::lemma_decode_failure_stays(
                                spec,
                                input,
                                (i + 1) as nat,
                                count as nat,
                            );
                        }
                        return Err(IsoError::DecodeError);
                    },
                    Ok((bitarrays, len)) => {
                        found_bitmap = true;
                        field.index = payload_index;
                        field.exist = true;
                        bitmap_field_index = i;
                        field.len = len;
                        bit_arrays = bitarrays;
                        payload_index += len;
                        proof {
                            codec::lemma_first_bitmap_take(spec, i as int);
                            codec::lemma_first_bitmap_take(spec, i + 1);
                            assert(spec.take(i + 1).drop_last() =~= spec.take(i as int));
                        }
                    },
                }
            } else {
                let mut field_exist = true;
                if found_bitmap {
                    field_exist = bit_arrays[0].is_set(i - bitmap_field_index);
                }
                if field_exist {
                    let rest = slice_subrange(input_buffer, payload_index, input_buffer.len());
                    let len = match IsoMsg::get_field_length(iso_field, rest) {
                        Ok(len) => len,
                        Err(_) => {
                            proof {
                                assert(numeral::three_digits_at(rest@, 0)
                                    == numeral::three_digits_at(input, payload_index as int));
                                codec::lemma_decode_failure_stays(
                                    spec,
                                    input,
                                    (i + 1) as nat,
                                    count as nat,
                                );
                            }
                            return Err(IsoError::DecodeError);
                        },
                    };
                    proof {
                        assert(numeral::three_digits_at(rest@, 0) == numeral::three_digits_at(
                            input,
                            payload_index as int,
                        ));
                    }
                    if len > input_buffer.len() - payload_index {
                        proof {
                            codec::lemma_decode_failure_stays(
                                spec,
                                input,
                                (i + 1) as nat,
                                count as nat,
                            );
                        }
                        return Err(IsoError::DecodeError);
                    }
                    field.index = payload_index;
                    field.len = len;
                    field.exist = true;
                    payload_index += len;
                }
            }
            found.push(field);
            proof {
                assert(codec::locators(found@) =~= next->0.fields);
            }
            i += 1;
        }
        let ghost before = fields@;
        fields.append(&mut found);
        proof {
            assert(fields@.subrange(0, before.len() as int) =~= before);
            assert(codec::locators(fields@.subrange(before.len() as int, fields@.len() as int))
                =~= codec::decode_upto(spec, input, count as nat)->0.fields);
        }
        Ok(())
    }

    /// Marks a field as absent. The rest of its locator stays, and a later
    /// write makes the field present again.
    pub fn remove_field(&mut self, index: usize) -> (r: Result<(), IsoError>)
        ensures
            match codec::remove_result(old(self)@, index as int) {
                Ok(m) => r is Ok && final(self)@ == m,
                Err(e) => r == Err::<(), IsoError>(e) && final(self)@ == old(self)@,
            },
    {
        proof {
            use_type_invariant(&*self);
        }
        if index >= self.fields.len() {
            return Err(IsoError::InvalidPosition);
        }
        let ghost before = self@;
        mark_absent(&mut self.fields, index, Ghost(self.iso_spec@), Ghost(self.payload@));
        proof {
            assert(self@.fields =~= codec::removed(before, index as int).fields);
        }
        Ok(())
    }

    /// Writes the content of a field: the field becomes present, and its
    /// wire form becomes the length prefix that its length class asks for,
    /// followed by the content.
    pub fn set_field(&mut self, index: usize, buffer: &[u8]) -> (r: Result<(), IsoError>)
        ensures
            match codec::write_result(old(self)@, index as int, buffer@) {
                Ok(m) => r is Ok && final(self)@ == m,
                Err(e) => r == Err::<(), IsoError>(e) && final(self)@ == old(self)@,
            },
    {
        proof {
            use_type_invariant(&*self);
        }
        if index >= self.fields.len() {
            return Err(IsoError::InvalidPosition);
        }
        if buffer.len() > self.iso_spec[index].length {
            return Err(IsoError::FieldTooLong);
        }
        let ghost before = self@;
        let len_prefix = self.iso_spec[index].size_type.prefix_len();
        let mut v: Vec<u8> = Vec::new();
        if len_prefix > 0 {
            numeral::push_padded_decimal(&mut v, buffer.len(), len_prefix);
        }
        proof {
            numeral::lemma_padded_decimal_len(buffer@.len(), len_prefix as nat);
            assert(v@ =~= codec::length_prefix(buffer@.len(), len_prefix as nat));
        }
        let mut k: usize = 0;
        let ghost prefix = v@;
        while k < buffer.len()
            invariant
                k <= buffer@.len(),
                v@ == prefix + buffer@.subrange(0, k as int),
            decreases buffer@.len() - k,
        {
            v.push(buffer[k]);
            k += 1;
            assert(v@ =~= prefix + buffer@.subrange(0, k as int));
        }
        proof {
            assert(buffer@.subrange(0, k as int) =~= buffer@);
        }
        replace_field(&mut self.fields, index, v, Ghost(self.iso_spec@), Ghost(self.payload@));
        proof {
            assert(self@.fields =~= codec::written(before, index as int, buffer@).fields);
        }
        Ok(())
    }

    /// Number of bytes of length prefix that the field at a position
    /// carries on the wire.
    pub fn get_field_length_prefix(&self, index: usize) -> (r: Result<usize, IsoError>)
        ensures
            r == (if index < self@.spec.len() {
                Ok::<usize, IsoError>(self@.spec[index as int].prefix_width() as usize)
            } else {
                Err::<usize, IsoError>(IsoError::InvalidPosition)
            }),
    {
        if index < self.iso_spec.len() {
            Ok(self.iso_spec[index].size_type.prefix_len())
        } else {
            Err(IsoError::InvalidPosition)
        }
    }

    /// Reads the content of a field into the start of `buffer` and gives
    /// its length. The rest of the buffer stays, and so does all of it
    /// where reading fails.
    pub fn get_field(&self, index: usize, buffer: &mut [u8]) -> (r: Result<usize, IsoError>)
        ensures
            match codec::read_result(self@, index as int, old(buffer)@.len()) {
                Ok(c) => r == Ok::<usize, IsoError>(c.len() as usize) && final(buffer)@ == c
                    + old(buffer)@.skip(c.len() as int),
                Err(e) => r == Err::<usize, IsoError>(e) && final(buffer)@ == old(buffer)@,
            },
    {
        proof {
            use_type_invariant(self);
        }
        if index >= self.fields.len() {
            return Err(IsoError::InvalidPosition);
        }
        let size = self.payload.len();
        assert(codec::locator_ok(self@, index as int));
        let field = &self.fields[index];
        if !field.exist {
            return Err(IsoError::FieldAbsent);
        }
        let len_prefix = self.iso_spec[index].size_type.prefix_len();
        match &field.new_payload {
            Some(m) => {
                let len = m.len() - len_prefix;
                if buffer.len() < len {
                    return Err(IsoError::BufferTooSmall);
                }
                copy_bytes(buffer, m.as_slice(), len_prefix, len);
                proof {
                    assert(m@.subrange(len_prefix as int, len_prefix + len) =~= m@.skip(
                        len_prefix as int,
                    ));
                }
                Ok(len)
            },
            None => {
                let len = field.len - len_prefix;
                if buffer.len() < len {
                    return Err(IsoError::BufferTooSmall);
                }
                copy_bytes(buffer, self.payload, field.index + len_prefix, len);
                proof {
                    assert(self.payload@.subrange(field.index + len_prefix, field.index + len_prefix + len)
                        =~= self.payload@.subrange(
                        field.index as int,
                        field.index + field.len,
                    ).skip(len_prefix as int));
                }
                Ok(len)
            },
        }
    }

    /// Reads the wire form of a field, length prefix included, into the
    /// start of `buffer`, and gives its length and the width of its prefix.
    /// The rest of the buffer stays, and so does all of it where reading
    /// fails.
    pub fn get_field_raw(&self, index: usize, buffer: &mut [u8]) -> (r: Result<
        (usize, usize),
        IsoError,
    >)
        ensures
            match codec::read_raw_result(self@, index as int, old(buffer)@.len()) {
                Ok(w) => r == Ok::<(usize, usize), IsoError>(
                    (w.len() as usize, self@.spec[index as int].prefix_width() as usize),
                ) && final(buffer)@ == w + old(buffer)@.skip(w.len() as int),
                Err(e) => r == Err::<(usize, usize), IsoError>(e) && final(buffer)@ == old(
                    buffer,
                )@,
            },
    {
        proof {
            use_type_invariant(self);
        }
        if index >= self.fields.len() {
            return Err(IsoError::InvalidPosition);
        }
        let size = self.payload.len();
        assert(codec::locator_ok(self@, index as int));
        let field = &self.fields[index];
        if !field.exist {
            return Err(IsoError::FieldAbsent);
        }
        let len_prefix = self.iso_spec[index].size_type.prefix_len();
        match &field.new_payload {
            Some(m) => {
                if buffer.len() < m.len() {
                    return Err(IsoError::BufferTooSmall);
                }
                copy_bytes(buffer, m.as_slice(), 0, m.len());
                proof {
                    assert(m@.subrange(0, m@.len() as int) =~= m@);
                }
                Ok((m.len(), len_prefix))
            },
            None => {
                if buffer.len() < field.len {
                    return Err(IsoError::BufferTooSmall);
                }
                copy_bytes(buffer, self.payload, field.index, field.len);
                Ok((field.len, len_prefix))
            },
        }
    }

    /// Encodes the message: every present field in order, and at the
    /// bitmap's position the bitmap text of the fields that are present.
    pub fn encode(&self) -> (out: Vec<u8>)
        ensures
            out@ == codec::encoded(self@),
    {
        proof {
            use_type_invariant(self);
            codec::lemma_first_bitmap(self.iso_spec@);
        }
        let ghost m = self@;
        let count = self.fields.len();
        let size = self.payload.len();
        let bitmap_at = find_bitmap(self.iso_spec);
        let mut bit_array = BitBlock::cleared();
        let mut second = false;
        match bitmap_at {
            Some(b) => {
                let mut index: usize = b + 1;
                while index < count
                    invariant
                        b < index <= count || (index == b + 1 && index == count + 1),
                        b < count,
                        count - b <= 128,
                        count == m.fields.len(),
                        m == self@,
                        bit_block::block_bits(bit_array) == Seq::new(
                            128,
                            |k: int| k < index - b && codec::present_after(m.fields, b as int, k),
                        ),
                        second == (exists|k: int|
                            64 <= k < index - b && #[trigger] codec::present_after(
                                m.fields,
                                b as int,
                                k,
                            )),
                    decreases count - index,
                {
                    let ghost was = second;
                    if self.fields[index].exist {
                        bit_array.set(index - b, true);
                        if index - b >= 64 {
                            second = true;
                        }
                    }
                    proof {
                        let k0 = index - b;
                        assert(m.fields[index as int].exist == self.fields@[index as int].exist);
                        assert(codec::present_after(m.fields, b as int, k0)
                            == self.fields@[index as int].exist);
                        assert(bit_block::block_bits(bit_array) =~= Seq::new(
                            128,
                            |k: int|
                                k < index + 1 - b && codec::present_after(m.fields, b as int, k),
                        ));
                        if second {
                            if was {
                                let w = choose|k: int|
                                    64 <= k < index - b && #[trigger] codec::present_after(
                                        m.fields,
                                        b as int,
                                        k,
                                    );
                                assert(64 <= w < index + 1 - b && codec::present_after(
                                    m.fields,
                                    b as int,
                                    w,
                                ));
                            } else {
                                assert(64 <= k0 < index + 1 - b && codec::present_after(
                                    m.fields,
                                    b as int,
                                    k0,
                                ));
                            }
                        } else {
                            assert forall|k: int| 64 <= k < index + 1 - b implies !(
                            #[trigger] codec::present_after(m.fields, b as int, k)) by {
                                if k < index - b {
                                } else {
                                    assert(k == k0);
                                }
                            }
                        }
                    }
                    index += 1;
                }
            },
            None => {},
        }
        proof {
            let flags = codec::presence_flags(m);
            let got = bit_block::block_bits(bit_array);
            assert(got =~= flags);
            if second {
                let w = choose|k: int|
                    64 <= k && #[trigger] codec::present_after(
                        m.fields,
                        bitmap_at->0 as int,
                        k,
                    ) && k < count - bitmap_at->0;
                assert(flags[w]);
            } else {
                assert forall|k: int| 64 <= k < 128 implies !(#[trigger] flags[k]) by {
                    if bitmap_at is Some {
                        assert(flags[k] == codec::present_after(m.fields, bitmap_at->0 as int, k));
                    }
                }
            }
            assert(second == bitmap::needs_second(flags));
        }
        if second {
            bit_array.set(0, true);
        }
        proof {
            let flags = codec::presence_flags(m);
            assert(bit_block::block_bits(bit_array) =~= bitmap::wire_flags(flags));
        }
        let mut out: Vec<u8> = Vec::new();
        let mut index: usize = 0;
        while index < count
            invariant
                index <= count,
                count == m.fields.len(),
                count == self.fields@.len(),
                size == self.payload@.len(),
                m == self@,
                codec::wf(m),
                second == bitmap::needs_second(codec::presence_flags(m)),
                bit_block::block_bits(bit_array) == bitmap::wire_flags(codec::presence_flags(m)),
                match bitmap_at {
                    Some(b) => codec::first_bitmap(m.spec) == Some(b as int),
                    None => codec::first_bitmap(m.spec) is None,
                },
                out@ == codec::encode_upto(m, index as nat),
            decreases count - index,
        {
            let ghost before = out@;
            let at_bitmap = match bitmap_at {
                Some(b) => b == index,
                None => false,
            };
            assert(codec::locator_ok(m, index as int));
            if at_bitmap {
                push_flags_text(&mut out, &bit_array, second);
                proof {
                    let flags = codec::presence_flags(m);
                    assert(bitmap::wire_flags(flags).subrange(0, 128) =~= bitmap::wire_flags(
                        flags,
                    ));
                }
            } else if self.fields[index].exist {
                let field = &self.fields[index];
                match &field.new_payload {
                    Some(v) => {
                        out.extend_from_slice(v.as_slice());
                    },
                    None => {
                        let part = slice_subrange(
                            self.payload,
                            field.index,
                            field.index + field.len,
                        );
                        out.extend_from_slice(part);
                    },
                }
            }
            proof {
                assert(out@ =~= before + codec::piece(m, index as int));
            }
            index += 1;
        }
        out
    }

    /// Encodes the message into the start of `buffer` and gives the number
    /// of bytes written. The rest of the buffer stays, and so does all of
    /// it where the buffer is too small.
    pub fn to_byte_array(&self, buffer: &mut [u8]) -> (r: Result<usize, IsoError>)
        ensures
            match codec::encode_result(self@, old(buffer)@.len()) {
                Ok(bytes) => r == Ok::<usize, IsoError>(bytes.len() as usize) && final(buffer)@
                    == bytes + old(buffer)@.skip(bytes.len() as int),
                Err(e) => r == Err::<usize, IsoError>(e) && final(buffer)@ == old(buffer)@,
            },
    {
        let bytes = self.encode();
        if bytes.len() > buffer.len() {
            return Err(IsoError::BufferTooSmall);
        }
        copy_bytes(buffer, bytes.as_slice(), 0, bytes.len());
        proof {
            assert(bytes@.subrange(0, bytes@.len() as int) =~= bytes@);
        }
        Ok(bytes.len())
    }
}

} // verus!
