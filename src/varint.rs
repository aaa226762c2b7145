use vstd::prelude::*;

verus! {

/// The varint encoding of `v`: seven bits per byte, least significant group
/// first, the high bit set on every byte but the last.
pub open spec fn varint(v: u32) -> Seq<u8>
    decreases v,
{
    if v < 128 {
        seq![v as u8]
    } else {
        seq![((v % 128) + 128) as u8] + varint(v / 128)
    }
}

/// Whether `data` holds the encoding of `v` at offset `pos`.
pub open spec fn encodes_at(data: Seq<u8>, pos: int, v: u32) -> bool {
    &&& 0 <= pos
    &&& pos + varint(v).len() <= data.len()
    &&& data.subrange(pos, pos + varint(v).len()) == varint(v)
}

/// An encoding takes one to five bytes.
pub proof fn lemma_varint_len(v: u32)
    ensures
        1 <= varint(v).len() <= 5,
{
    reveal_with_fuel(varint, 6);
    assert(v / 128 / 128 / 128 / 128 < 16);
}

/// Relies on vint32::encode_varint_into: it pushes the varint encoding of
/// `value` onto `output`.
#[verifier::external_body]
pub(crate) fn push_varint(output: &mut Vec<u8>, value: u32)
    ensures
        final(output)@ == old(output)@ + varint(value),
{
    vint32::encode_varint_into(output, value);
}

/// Relies on vint32::decode_varint_slice: where `data` holds an encoding at
/// `*pos`, it returns the encoded value and moves `*pos` past the encoding.
#[verifier::external_body]
pub(crate) fn read_varint(data: &[u8], pos: &mut usize) -> (r: Option<u32>)
    requires
        exists|v: u32| #[trigger] encodes_at(data@, *old(pos) as int, v),
    ensures
        forall|v: u32| #[trigger]
            encodes_at(data@, *old(pos) as int, v) ==> r == Some(v) && *final(pos) == *old(pos)
                + varint(v).len(),
{
    vint32::decode_varint_slice(data, pos)
}

} // verus!
