use vstd::prelude::*;

verus! {

/// A read-only view over a caller-supplied key together with an offset
/// marking how many leading bytes have already been matched.  Advancing the
/// cursor is O(1) and never copies the underlying bytes.
///
/// The view (`@`) of a cursor is the still-unconsumed suffix of the key.
pub struct SearchKey {
    base: Vec<u8>,
    offset: usize,
}

impl View for SearchKey {
    type V = Seq<u8>;

    closed spec fn view(&self) -> Seq<u8> {
        self.base@.skip(self.offset as int)
    }
}

impl SearchKey {
    /// The offset never runs past the end of the underlying bytes.
    pub closed spec fn wf(&self) -> bool {
        self.offset <= self.base@.len()
    }

    /// Wraps an owned key; nothing is consumed yet.
    pub fn new(key: Vec<u8>) -> (r: SearchKey)
        ensures
            r.wf(),
            r@ == key@,
    {
        SearchKey { base: key, offset: 0 }
    }

    /// Wraps a borrowed key; nothing is consumed yet.
    pub fn borrow(key: &[u8]) -> (r: SearchKey)
        ensures
            r.wf(),
            r@ == key@,
    {
        SearchKey { base: vstd::slice::slice_to_vec(key), offset: 0 }
    }

    /// Advances the cursor past `size` already-matched bytes.
    pub fn consume(&mut self, size: usize)
        requires
            old(self).wf(),
            size <= old(self)@.len(),
        ensures
            final(self).wf(),
            final(self)@ == old(self)@.skip(size as int),
    {
        let n = self.base.len();
        proof {
            assert(self.base@.len() == n);
            assert(old(self)@.len() == self.base@.len() - self.offset);
        }
        self.offset += size;
    }

    /// The first still-unconsumed byte.
    pub fn first(&self) -> (r: u8)
        requires
            self.wf(),
            self@.len() > 0,
        ensures
            r == self@[0],
    {
        self.base[self.offset]
    }

    /// Whether the whole key has been consumed.
    pub fn is_empty(&self) -> (b: bool)
        requires
            self.wf(),
        ensures
            b == (self@.len() == 0),
    {
        self.base.len() == self.offset
    }
}

} // verus!
