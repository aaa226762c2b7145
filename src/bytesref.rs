use vstd::prelude::*;

verus! {

/// The address that marks a slot without a key.
pub const NULL_ADDR: u32 = 0xFFFF_FFFFu32;

/// `BytesRef` refers to a slice in the string data of a map: the offset of
/// its length prefix.
#[derive(Copy, Clone, Debug)]
pub struct BytesRef(pub(crate) u32);

impl View for BytesRef {
    type V = u32;

    closed spec fn view(&self) -> u32 {
        self.0
    }
}

impl BytesRef {
    /// A reference to the data at offset `addr`.
    pub(crate) fn at(addr: u32) -> (r: BytesRef)
        ensures
            r@ == addr,
    {
        BytesRef(addr)
    }

    /// Whether this reference marks an unused slot.
    pub fn is_null(&self) -> (r: bool)
        ensures
            r == (self@ == NULL_ADDR),
    {
        self.0 == NULL_ADDR
    }

    /// The byte offset this reference points at.
    pub fn addr(&self) -> (r: u32)
        ensures
            r == self@,
    {
        self.0
    }
}

impl Default for BytesRef {
    fn default() -> (r: BytesRef)
        ensures
            r@ == NULL_ADDR,
    {
        BytesRef(NULL_ADDR)
    }
}

} // verus!
