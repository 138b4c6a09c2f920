//! A link word that carries a pointer together with a one-bit tag in its
//! lowest bit. Tag 1 on a node's link at some level marks that the node is
//! being unlinked at that level.

use vstd::prelude::*;

verus! {

/// Largest pointer value that a link word can carry next to its tag.
pub const MAX_PTR: usize = usize::MAX / 2;

/// The bits of a link word that hold the tag.
pub const TAG_MASK: usize = 1;

pub struct MaybeTagged {
    raw: usize,
}

/// The pointer part of a raw link word.
pub open spec fn word_ptr(raw: usize) -> usize {
    (raw / 2) as usize
}

/// The tag part of a raw link word.
pub open spec fn word_tag(raw: usize) -> usize {
    (raw % 2) as usize
}

impl MaybeTagged {
    /// The pointer held by the link; 0 is the null pointer.
    pub closed spec fn ptr(self) -> usize {
        word_ptr(self.raw)
    }

    /// The tag held by the link, 0 or 1.
    pub closed spec fn tag(self) -> usize {
        word_tag(self.raw)
    }

    pub proof fn lemma_tag_bit(self)
        ensures
            self.tag() < 2,
            self.ptr() <= MAX_PTR,
    {
    }

    /// A null, untagged link.
    pub fn null() -> (r: Self)
        ensures
            r.ptr() == 0,
            r.tag() == 0,
    {
        MaybeTagged { raw: 0 }
    }

    pub fn load_ptr(&self) -> (r: usize)
        ensures
            r == self.ptr(),
    {
        self.load_decomposed().0
    }

    pub fn load_decomposed(&self) -> (r: (usize, usize))
        ensures
            r == (self.ptr(), self.tag()),
    {
        Self::decompose_raw(self.raw)
    }

    pub fn load_tag(&self) -> (r: usize)
        ensures
            r == self.tag(),
    {
        self.load_decomposed().1
    }

    fn decompose_raw(raw: usize) -> (r: (usize, usize))
        ensures
            r == (word_ptr(raw), word_tag(raw)),
    {
        (raw / 2, raw % 2)
    }

    fn compose_raw(ptr: usize, tag: usize) -> (r: usize)
        requires
            ptr <= MAX_PTR,
        ensures
            word_ptr(r) == ptr,
            word_tag(r) == tag % 2,
    {
        ptr * 2 + (tag % 2)
    }

    pub fn store_composed(&mut self, ptr: usize, tag: usize)
        requires
            ptr <= MAX_PTR,
        ensures
            final(self).ptr() == ptr,
            final(self).tag() == tag % 2,
    {
        self.raw = Self::compose_raw(ptr, tag);
    }

    pub fn store_ptr(&mut self, ptr: usize)
        requires
            ptr <= MAX_PTR,
        ensures
            final(self).ptr() == ptr,
            final(self).tag() == 0,
    {
        self.store_composed(ptr, 0);
    }

    /// Replaces the link by `new` (untagged) if it holds `expected`
    /// (untagged). Returns the pointer and tag it held, as `Ok` when the
    /// exchange took place and as `Err` when it did not.
    pub fn compare_exchange(&mut self, expected: usize, new: usize) -> (r: Result<
        (usize, usize),
        (usize, usize),
    >)
        requires
            expected <= MAX_PTR,
            new <= MAX_PTR,
        ensures
            old(self).ptr() == expected && old(self).tag() == 0 ==> {
                &&& r == Ok::<(usize, usize), (usize, usize)>((expected, 0))
                &&& final(self).ptr() == new
                &&& final(self).tag() == 0
            },
            !(old(self).ptr() == expected && old(self).tag() == 0) ==> {
                &&& r == Err::<(usize, usize), (usize, usize)>((old(self).ptr(), old(self).tag()))
                &&& *final(self) == *old(self)
            },
    {
        self.compare_exchange_with_tag(expected, 0, new, 0)
    }

    /// Replaces the link by (`new`, `n_tag`) if it holds (`expected`,
    /// `e_tag`). Returns the pointer and tag it held, as `Ok` when the
    /// exchange took place and as `Err` when it did not.
    pub fn compare_exchange_with_tag(
        &mut self,
        expected: usize,
        e_tag: usize,
        new: usize,
        n_tag: usize,
    ) -> (r: Result<(usize, usize), (usize, usize)>)
        requires
            expected <= MAX_PTR,
            new <= MAX_PTR,
        ensures
            old(self).ptr() == expected && old(self).tag() == e_tag % 2 ==> {
                &&& r == Ok::<(usize, usize), (usize, usize)>((expected, e_tag % 2))
                &&& final(self).ptr() == new
                &&& final(self).tag() == n_tag % 2
            },
            !(old(self).ptr() == expected && old(self).tag() == e_tag % 2) ==> {
                &&& r == Err::<(usize, usize), (usize, usize)>((old(self).ptr(), old(self).tag()))
                &&& *final(self) == *old(self)
            },
    {
        let current = self.raw;
        if current == Self::compose_raw(expected, e_tag) {
            self.raw = Self::compose_raw(new, n_tag);
            Ok(Self::decompose_raw(current))
        } else {
            Err(Self::decompose_raw(current))
        }
    }

    /// Changes the tag from `e_tag` to `tag`, keeping whatever pointer the
    /// link holds. Fails with the tag found when it is not `e_tag`.
    pub fn compare_exchange_tag(&mut self, e_tag: usize, tag: usize) -> (r: Result<usize, usize>)
        requires
            e_tag < 2,
            tag < 2,
        ensures
            old(self).tag() == e_tag ==> {
                &&& r == Ok::<usize, usize>(tag)
                &&& final(self).ptr() == old(self).ptr()
                &&& final(self).tag() == tag
            },
            old(self).tag() != e_tag ==> {
                &&& r == Err::<usize, usize>(old(self).tag())
                &&& *final(self) == *old(self)
            },
    {
        let mut ptr = self.load_ptr();
        loop
            invariant
                ptr == self.ptr(),
                *self == *old(self),
                e_tag < 2,
                tag < 2,
            decreases 0nat,
        {
            match self.compare_exchange_with_tag(ptr, e_tag, ptr, tag) {
                Ok(_) => {
                    return Ok(tag);
                },
                Err((other_ptr, other_tag)) => {
                    if other_tag != e_tag {
                        return Err(other_tag);
                    }
                    ptr = other_ptr;
                },
            }
        }
    }
}

} // verus!
