use vstd::prelude::*;

verus! {

/// Errors of the byte buffer.
#[derive(Clone, Copy, Debug, PartialEq, Eq, Structural)]
pub enum DataError {
    /// Growing the visible region would need bytes that were not reserved.
    NotEnoughReservedBytes,
}

/// A heap-allocated byte region with a visible window and reserved bytes
/// before and after it.
///
/// Layers that add headers can shrink the window to the payload and later
/// grow it back over the reserved bytes without reallocating.
pub struct Data {
    storage: Vec<u8>,
    start: usize,
    end: usize,
}

impl View for Data {
    type V = Seq<u8>;

    /// The visible bytes.
    closed spec fn view(&self) -> Seq<u8> {
        self.storage@.subrange(self.start as int, self.end as int)
    }
}

impl Data {
    /// The window lies within the allocation.
    pub closed spec fn wf(&self) -> bool {
        self.start <= self.end <= self.storage@.len()
    }

    /// Reserved bytes before the visible window.
    pub closed spec fn spec_prefix_bytes(&self) -> nat {
        self.start as nat
    }

    /// Reserved bytes after the visible window.
    pub closed spec fn spec_suffix_bytes(&self) -> nat {
        (self.storage@.len() - self.end) as nat
    }

    /// A buffer showing exactly the bytes of `v`, with nothing reserved.
    pub fn from_vec(v: Vec<u8>) -> (r: Data)
        ensures
            r.wf(),
            r@ == v@,
            r.spec_prefix_bytes() == 0,
            r.spec_suffix_bytes() == 0,
    {
        let end = v.len();
        let r = Data { storage: v, start: 0, end };
        assert(r@ =~= r.storage@);
        r
    }

    /// A buffer showing `size` zero bytes, with `prefix` bytes reserved
    /// before them and `suffix` bytes after them.
    pub fn allocate(prefix: usize, size: usize, suffix: usize) -> (r: Data)
        requires
            prefix + size + suffix <= usize::MAX,
        ensures
            r.wf(),
            r@ == Seq::new(size as nat, |i: int| 0u8),
            r.spec_prefix_bytes() == prefix,
            r.spec_suffix_bytes() == suffix,
    {
        let total = prefix + size + suffix;
        let mut storage: Vec<u8> = Vec::with_capacity(total);
        let mut i: usize = 0;
        while i < total
            invariant
                i <= total,
                storage@.len() == i,
                forall|j: int| 0 <= j < i ==> storage@[j] == 0u8,
            decreases total - i,
        {
            storage.push(0u8);
            i = i + 1;
        }
        let r = Data { storage, start: prefix, end: prefix + size };
        assert(r@ =~= Seq::new(size as nat, |i: int| 0u8));
        r
    }

    /// A buffer showing the bytes of `content`, with `prefix` bytes reserved
    /// before them.
    pub fn copy_with_prefix(prefix: usize, content: &[u8]) -> (r: Data)
        requires
            prefix + content@.len() <= usize::MAX,
        ensures
            r.wf(),
            r@ == content@,
            r.spec_prefix_bytes() == prefix,
            r.spec_suffix_bytes() == 0,
    {
        let mut r = Data::allocate(prefix, content.len(), 0);
        r.copy_from_slice_at(0, content);
        assert(r@ =~= content@);
        r
    }

    /// The number of visible bytes.
    pub fn len(&self) -> (r: usize)
        requires
            self.wf(),
        ensures
            r == self@.len(),
    {
        self.end - self.start
    }

    /// The number of bytes reserved before the visible window.
    pub fn prefix_bytes(&self) -> (r: usize)
        requires
            self.wf(),
        ensures
            r == self.spec_prefix_bytes(),
    {
        self.start
    }

    /// The number of bytes reserved after the visible window.
    pub fn suffix_bytes(&self) -> (r: usize)
        requires
            self.wf(),
        ensures
            r == self.spec_suffix_bytes(),
    {
        self.storage.len() - self.end
    }

    /// The visible bytes.
    pub fn as_slice(&self) -> (r: &[u8])
        requires
            self.wf(),
        ensures
            r@ == self@,
    {
        vstd::slice::slice_subrange(self.storage.as_slice(), self.start, self.end)
    }

    /// A fresh vector holding the visible bytes.
    pub fn to_vec(&self) -> (r: Vec<u8>)
        requires
            self.wf(),
        ensures
            r@ == self@,
    {
        vstd::slice::slice_to_vec(self.as_slice())
    }

    /// Whether the visible bytes begin with `prefix`.
    pub fn starts_with(&self, prefix: &[u8]) -> (r: bool)
        requires
            self.wf(),
        ensures
            r == (prefix@.len() <= self@.len() && self@.subrange(0, prefix@.len() as int)
                == prefix@),
    {
        if prefix.len() > self.end - self.start {
            return false;
        }
        let mut i: usize = 0;
        while i < prefix.len()
            invariant
                i <= prefix@.len() <= self@.len(),
                self.wf(),
                forall|j: int| 0 <= j < i ==> self@[j] == prefix@[j],
            decreases prefix@.len() - i,
        {
            if self.storage[self.start + i] != prefix[i] {
                assert(self@.subrange(0, prefix@.len() as int)[i as int] != prefix@[i as int]);
                return false;
            }
            i = i + 1;
        }
        assert(self@.subrange(0, prefix@.len() as int) =~= prefix@);
        true
    }

    /// Overwrites the visible bytes from `offset` on with `src`.
    pub fn copy_from_slice_at(&mut self, offset: usize, src: &[u8])
        requires
            old(self).wf(),
            offset + src@.len() <= old(self)@.len(),
        ensures
            final(self).wf(),
            final(self)@.len() == old(self)@.len(),
            final(self)@ == old(self)@.subrange(0, offset as int) + src@ + old(self)@.subrange(
                offset + src@.len(),
                old(self)@.len() as int,
            ),
            final(self).spec_prefix_bytes() == old(self).spec_prefix_bytes(),
            final(self).spec_suffix_bytes() == old(self).spec_suffix_bytes(),
    {
        let ghost before = self@;
        let mut i: usize = 0;
        while i < src.len()
            invariant
                i <= src@.len(),
                offset + src@.len() <= before.len(),
                self.wf(),
                self.start == old(self).start,
                self.end == old(self).end,
                self.storage@.len() == old(self).storage@.len(),
                before == old(self)@,
                self@.len() == before.len(),
                forall|j: int|
                    0 <= j < offset ==> #[trigger] self.storage@[self.start + j] == before[j],
                forall|j: int|
                    offset <= j < offset + i ==> #[trigger] self.storage@[self.start + j] == src@[j
                        - offset],
                forall|j: int|
                    offset + i <= j < before.len() ==> #[trigger] self.storage@[self.start + j]
                        == before[j],
            decreases src@.len() - i,
        {
            let pos = self.start + offset + i;
            self.storage.set(pos, src[i]);
            i = i + 1;
        }
        let ghost target = before.subrange(0, offset as int) + src@ + before.subrange(
            offset + src@.len(),
            before.len() as int,
        );
        assert forall|j: int| 0 <= j < before.len() implies self@[j] == target[j] by {
            assert(self@[j] == self.storage@[self.start + j]);
        }
        assert(self@ =~= target);
    }

    /// Narrows the visible window to its bytes `start .. end`; the bytes cut
    /// off stay reserved.
    pub fn shrink_to_subregion(&mut self, start: usize, end: usize)
        requires
            old(self).wf(),
            start <= end <= old(self)@.len(),
        ensures
            final(self).wf(),
            final(self)@ == old(self)@.subrange(start as int, end as int),
            final(self).spec_prefix_bytes() == old(self).spec_prefix_bytes() + start,
            final(self).spec_suffix_bytes() == old(self).spec_suffix_bytes() + (old(self)@.len()
                - end),
    {
        let old_start = self.start;
        self.end = old_start + end;
        self.start = old_start + start;
    }

    /// Widens the visible window by `prefix` bytes in front and `suffix`
    /// bytes at the back, over reserved bytes only; fails, leaving the
    /// buffer as it was, where fewer bytes are reserved.
    pub fn grow_region_fail_if_reallocation_necessary(&mut self, prefix: usize, suffix: usize) -> (r:
        Result<(), DataError>)
        requires
            old(self).wf(),
        ensures
            final(self).wf(),
            r is Ok <==> (prefix <= old(self).spec_prefix_bytes() && suffix
                <= old(self).spec_suffix_bytes()),
            r is Ok ==> {
                &&& final(self)@.len() == prefix + old(self)@.len() + suffix
                &&& final(self)@.subrange(prefix as int, prefix + old(self)@.len()) == old(self)@
                &&& final(self).spec_prefix_bytes() == old(self).spec_prefix_bytes() - prefix
                &&& final(self).spec_suffix_bytes() == old(self).spec_suffix_bytes() - suffix
            },
            r is Err ==> *final(self) == *old(self),
    {
        if prefix > self.start || suffix > self.storage.len() - self.end {
            return Err(DataError::NotEnoughReservedBytes);
        }
        let ghost before = self@;
        self.start = self.start - prefix;
        self.end = self.end + suffix;
        assert(self@.subrange(prefix as int, prefix + before.len()) =~= before);
        Ok(())
    }
}

} // verus!
