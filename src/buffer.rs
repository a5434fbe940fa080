//! Fixed-capacity staging area for inbound bytes that are not yet parsed.
use vstd::prelude::*;

use crate::MAX_BUFFER_SIZE;

verus! {

/// Bytes read from a peer, kept at the front of a fixed-size array until a
/// whole frame can be decoded from them.
pub struct NetworkBuffer {
    data: Vec<u8>,
    offset: usize,
}

impl View for NetworkBuffer {
    type V = Seq<u8>;

    /// The valid bytes, oldest first.
    closed spec fn view(&self) -> Seq<u8> {
        self.data@.subrange(0, self.offset as int)
    }
}

impl NetworkBuffer {
    /// The backing array has the fixed capacity and the valid prefix fits in it.
    pub closed spec fn wf(&self) -> bool {
        &&& self.data@.len() == MAX_BUFFER_SIZE
        &&& self.offset <= MAX_BUFFER_SIZE
    }

    pub fn new() -> (r: Self)
        ensures
            r.wf(),
            r@ == Seq::<u8>::empty(),
    {
        let r = NetworkBuffer { data: vec![0u8; MAX_BUFFER_SIZE], offset: 0 };
        assert(r@ =~= Seq::<u8>::empty());
        r
    }

    /// Number of valid bytes at the front.
    pub fn filled(&self) -> (r: usize)
        requires
            self.wf(),
        ensures
            r == self@.len(),
    {
        self.offset
    }

    /// The valid bytes.
    pub fn as_slice(&self) -> (r: &[u8])
        requires
            self.wf(),
        ensures
            r@ == self@,
    {
        vstd::slice::slice_subrange(self.data.as_slice(), 0, self.offset)
    }

    /// Appends freshly read bytes after the valid ones. Returns false, and
    /// leaves the buffer as it was, when they would not fit.
    pub fn append(&mut self, bytes: &[u8]) -> (r: bool)
        requires
            old(self).wf(),
        ensures
            final(self).wf(),
            r == (old(self)@.len() + bytes@.len() <= MAX_BUFFER_SIZE),
            r ==> final(self)@ == old(self)@ + bytes@,
            !r ==> final(self)@ == old(self)@,
    {
        if bytes.len() > MAX_BUFFER_SIZE - self.offset {
            return false;
        }
        let start = self.offset;
        let mut i: usize = 0;
        while i < bytes.len()
            invariant
                self.data@.len() == MAX_BUFFER_SIZE,
                start == old(self).offset,
                self.offset == start,
                start + bytes@.len() <= MAX_BUFFER_SIZE,
                i <= bytes@.len(),
                forall|k: int| 0 <= k < start ==> self.data@[k] == old(self).data@[k],
                forall|k: int| 0 <= k < i ==> self.data@[start + k] == bytes@[k],
            decreases bytes@.len() - i,
        {
            self.data.set(start + i, bytes[i]);
            i += 1;
        }
        self.offset = start + bytes.len();
        assert(self@ =~= old(self)@ + bytes@);
        true
    }

    /// Removes the first `count` valid bytes and moves the rest to the front.
    pub fn drain(&mut self, count: usize)
        requires
            old(self).wf(),
            count <= old(self)@.len(),
        ensures
            final(self).wf(),
            final(self)@ == old(self)@.skip(count as int),
    {
        let remaining = self.offset - count;
        let mut i: usize = 0;
        while i < remaining
            invariant
                self.data@.len() == MAX_BUFFER_SIZE,
                self.offset == old(self).offset,
                remaining == self.offset - count,
                count <= self.offset <= MAX_BUFFER_SIZE,
                i <= remaining,
                forall|k: int| 0 <= k < i ==> self.data@[k] == old(self).data@[count + k],
                forall|k: int| i + count <= k < MAX_BUFFER_SIZE ==> self.data@[k] == old(self).data@[k],
            decreases remaining - i,
        {
            let b = self.data[count + i];
            self.data.set(i, b);
            i += 1;
        }
        self.offset = remaining;
        assert(self@ =~= old(self)@.skip(count as int));
    }

    /// Forgets every valid byte.
    pub fn clear(&mut self)
        requires
            old(self).wf(),
        ensures
            final(self).wf(),
            final(self)@ == Seq::<u8>::empty(),
    {
        self.data = vec![0u8; MAX_BUFFER_SIZE];
        self.offset = 0;
        assert(self@ =~= Seq::<u8>::empty());
    }
}

} // verus!
