//! Nodes of the skip list: a key, a value, a header word and a tower of
//! tagged links, one per level that the node takes part in.
//!
//! The header packs three fields into one word: the height in its low
//! bits, the reference count above them, and the removed flag in the top
//! bit.

use vstd::prelude::*;
use crate::tagged::MaybeTagged;
use crate::skiplist::SkipList;

verus! {

pub const HEIGHT_BITS: usize = 5;

/// Height of the tallest tower; the head has this height.
pub const HEIGHT: usize = 32;

pub const HEIGHT_MASK: u64 = 63;

/// One reference in the header word.
pub const REF_UNIT: u64 = 64;

pub const REMOVED_MASK: u64 = 0x8000_0000_0000_0000;

/// The largest reference count that the header can hold.
pub const MAX_REFS: u64 = 0x01ff_ffff_ffff_ffff;

pub open spec fn hdr_height(hdr: u64) -> nat {
    (hdr % 64) as nat
}

pub open spec fn hdr_refs(hdr: u64) -> nat {
    ((hdr % 0x8000_0000_0000_0000) / 64) as nat
}

pub open spec fn hdr_removed(hdr: u64) -> bool {
    hdr >= 0x8000_0000_0000_0000
}

/// The header word made of a height, a reference count and a flag.
pub open spec fn hdr_of(height: nat, refs: nat, removed: bool) -> int {
    (if removed {
        0x8000_0000_0000_0000int
    } else {
        0int
    }) + refs * 64 + height
}

proof fn lemma_hdr_decode(hdr: u64)
    ensures
        hdr as int == hdr_of(hdr_height(hdr), hdr_refs(hdr), hdr_removed(hdr)),
        hdr_refs(hdr) <= MAX_REFS,
{
}

proof fn lemma_hdr_encode(height: nat, refs: nat, removed: bool)
    requires
        height < 64,
        refs <= MAX_REFS,
    ensures
        0 <= hdr_of(height, refs, removed) <= u64::MAX,
        hdr_height(hdr_of(height, refs, removed) as u64) == height,
        hdr_refs(hdr_of(height, refs, removed) as u64) == refs,
        hdr_removed(hdr_of(height, refs, removed) as u64) == removed,
{
}

/// The header word with the removed flag set.
fn with_removed_bit(hdr: u64) -> (r: u64)
    ensures
        r == (hdr | REMOVED_MASK),
{
    hdr | REMOVED_MASK
}

pub struct Node<K, V> {
    pub key: K,
    pub val: V,
    pub hdr: u64,
    pub levels: Vec<MaybeTagged>,
}

impl<K, V> Node<K, V> {
    pub open spec fn spec_height(&self) -> nat {
        hdr_height(self.hdr)
    }

    pub open spec fn spec_refs(&self) -> nat {
        hdr_refs(self.hdr)
    }

    pub open spec fn spec_removed(&self) -> bool {
        hdr_removed(self.hdr)
    }

    /// The tower as (pointer, tag) pairs, lowest level first.
    pub open spec fn links(&self) -> Seq<(usize, usize)> {
        self.levels@.map_values(|t: MaybeTagged| (t.ptr(), t.tag()))
    }

    pub open spec fn wf(&self) -> bool {
        &&& 1 <= self.spec_height() <= HEIGHT
        &&& self.levels@.len() == self.spec_height()
    }

    /// The header is left as it was.
    pub open spec fn same_header(&self, other: &Self) -> bool {
        &&& self.spec_height() == other.spec_height()
        &&& self.spec_refs() == other.spec_refs()
        &&& self.spec_removed() == other.spec_removed()
    }

    pub proof fn lemma_links(&self)
        requires
            self.wf(),
        ensures
            self.links().len() == self.spec_height(),
            forall|l: int|
                0 <= l < self.links().len() ==> (#[trigger] self.links()[l]).1 < 2
                    && self.links()[l].0 <= crate::tagged::MAX_PTR,
    {
        assert forall|l: int| 0 <= l < self.links().len() implies #[trigger] self.links()[l].1 < 2
            && self.links()[l].0 <= crate::tagged::MAX_PTR by {
            self.levels@[l].lemma_tag_bit();
        }
    }

    /// A node of the given height with all links null and untagged, no
    /// references, and not removed.
    pub fn new(key: K, val: V, height: usize) -> (r: Self)
        requires
            1 <= height <= HEIGHT,
        ensures
            r.wf(),
            r.key == key,
            r.val == val,
            r.spec_height() == height,
            r.spec_refs() == 0,
            !r.spec_removed(),
            r.links() == Seq::new(height as nat, |l: int| (0usize, 0usize)),
    {
        let mut levels: Vec<MaybeTagged> = Vec::new();
        let mut i: usize = 0;
        while i < height
            invariant
                i <= height,
                levels@.len() == i,
                forall|l: int| 0 <= l < i ==> #[trigger] levels@[l].ptr() == 0 && levels@[l].tag() == 0,
            decreases height - i,
        {
            levels.push(MaybeTagged::null());
            i += 1;
        }
        proof {
            lemma_hdr_encode(height as nat, 0, false);
        }
        let r = Node { key, val, hdr: height as u64, levels };
        assert(r.links() =~= Seq::new(height as nat, |l: int| (0usize, 0usize)));
        r
    }

    /// A node whose height the list draws from its seed.
    pub fn new_rand_height(key: K, val: V, list: &mut SkipList<K, V>) -> (r: Self)
        requires
            old(list).levels_ok(),
        ensures
            r.wf(),
            r.key == key,
            r.val == val,
            r.spec_refs() == 0,
            !r.spec_removed(),
            final(list).drawn(old(list), r.spec_height()),
            final(list).levels_ok(),
            final(list).grown_from(old(list), r.spec_height()),
            final(list)@ == old(list)@,
    {
        let height = list.gen_height();
        Self::new(key, val, height)
    }

    pub fn height(&self) -> (r: usize)
        ensures
            r == self.spec_height(),
    {
        let h = self.hdr;
        assert(h & 63 == h % 64) by (bit_vector);
        (self.hdr & HEIGHT_MASK) as usize
    }

    pub fn refs(&self) -> (r: u64)
        ensures
            r == self.spec_refs(),
    {
        let h = self.hdr;
        assert((h & !0x8000_0000_0000_0000u64) >> 6u64 == (h % 0x8000_0000_0000_0000u64) / 64)
            by (bit_vector);
        (self.hdr & !REMOVED_MASK) >> 6
    }

    pub fn removed(&self) -> (r: bool)
        ensures
            r == self.spec_removed(),
    {
        self.hdr >= REMOVED_MASK
    }

    /// Adds one reference; returns the count before.
    pub fn add_ref(&mut self) -> (r: u64)
        requires
            old(self).spec_refs() < MAX_REFS,
        ensures
            r == old(self).spec_refs(),
            final(self).spec_refs() == old(self).spec_refs() + 1,
            final(self).spec_height() == old(self).spec_height(),
            final(self).spec_removed() == old(self).spec_removed(),
            final(self).key == old(self).key,
            final(self).val == old(self).val,
            final(self).levels == old(self).levels,
    {
        let r = self.refs();
        proof {
            lemma_hdr_decode(self.hdr);
            lemma_hdr_encode(self.spec_height(), self.spec_refs() + 1, self.spec_removed());
        }
        self.hdr = self.hdr + REF_UNIT;
        r
    }

    /// Adds one reference unless the count is zero, which it then returns
    /// as the error; returns the count after.
    pub fn try_add_ref(&mut self) -> (r: Result<u64, u64>)
        requires
            old(self).spec_refs() < MAX_REFS,
        ensures
            old(self).spec_refs() == 0 ==> r == Err::<u64, u64>(0) && *final(self) == *old(
                self,
            ),
            old(self).spec_refs() > 0 ==> {
                &&& r == Ok::<u64, u64>((old(self).spec_refs() + 1) as u64)
                &&& final(self).spec_refs() == old(self).spec_refs() + 1
                &&& final(self).spec_height() == old(self).spec_height()
                &&& final(self).spec_removed() == old(self).spec_removed()
                &&& final(self).key == old(self).key
                &&& final(self).val == old(self).val
                &&& final(self).levels == old(self).levels
            },
    {
        let refs = self.refs();
        if refs == 0 {
            return Err(refs);
        }
        self.add_ref();
        Ok(refs + 1)
    }

    /// Drops one reference; returns the count after.
    pub fn sub_ref(&mut self) -> (r: u64)
        requires
            old(self).spec_refs() > 0,
        ensures
            r == old(self).spec_refs() - 1,
            final(self).spec_refs() == old(self).spec_refs() - 1,
            final(self).spec_height() == old(self).spec_height(),
            final(self).spec_removed() == old(self).spec_removed(),
            final(self).key == old(self).key,
            final(self).val == old(self).val,
            final(self).levels == old(self).levels,
    {
        let r = self.refs();
        proof {
            lemma_hdr_decode(self.hdr);
            lemma_hdr_encode(self.spec_height(), (self.spec_refs() - 1) as nat, self.spec_removed());
        }
        self.hdr = self.hdr - REF_UNIT;
        r - 1
    }
    /// Sets the header word to `f` of its current value. Fails, leaving the
    /// node as it was, when that value is unchanged; returns the word before.
    fn set_har_with<F: Fn(u64) -> u64>(&mut self, f: F) -> (r: Result<u64, ()>)
        requires
            f.requires((old(self).hdr,)),
        ensures
            exists|n: u64|
                {
                    &&& #[trigger] f.ensures((old(self).hdr,), n)
                    &&& n == old(self).hdr ==> r == Err::<u64, ()>(()) && *final(self) == *old(
                        self,
                    )
                    &&& n != old(self).hdr ==> {
                        &&& r == Ok::<u64, ()>(old(self).hdr)
                        &&& final(self).hdr == n
                        &&& final(self).key == old(self).key
                        &&& final(self).val == old(self).val
                        &&& final(self).levels == old(self).levels
                    }
                },
    {
        let height_and_removed = self.hdr;
        let new_height_and_removed = f(height_and_removed);
        if new_height_and_removed == height_and_removed {
            return Err(());
        }
        self.hdr = new_height_and_removed;
        Ok(height_and_removed)
    }

    /// Sets the removed flag. Fails if it is set already.
    pub fn set_removed(&mut self) -> (r: Result<u64, ()>)
        ensures
            old(self).spec_removed() ==> r == Err::<u64, ()>(()) && *final(self) == *old(self),
            !old(self).spec_removed() ==> {
                &&& r is Ok
                &&& final(self).spec_removed()
                &&& final(self).spec_height() == old(self).spec_height()
                &&& final(self).spec_refs() == old(self).spec_refs()
                &&& final(self).key == old(self).key
                &&& final(self).val == old(self).val
                &&& final(self).levels == old(self).levels
            },
    {
        let r = self.set_har_with(with_removed_bit);
        proof {
            let h = old(self).hdr;
            assert(h >= 0x8000_0000_0000_0000u64 ==> h | 0x8000_0000_0000_0000u64 == h)
                by (bit_vector);
            assert(h < 0x8000_0000_0000_0000u64 ==> h | 0x8000_0000_0000_0000u64 == h
                + 0x8000_0000_0000_0000u64) by (bit_vector);
            lemma_hdr_decode(h);
            if !hdr_removed(h) {
                lemma_hdr_encode(hdr_height(h), hdr_refs(h), true);
            }
        }
        r
    }

    /// Tags the links from the top level down, changing each tag from 0 to
    /// `tag`. Stops at the first link whose tag is not 0 and returns that
    /// tag; returns the top level when every link was changed.
    pub fn tag_levels(&mut self, tag: usize) -> (r: Result<usize, usize>)
        requires
            old(self).wf(),
            tag < 2,
        ensures
            final(self).wf(),
            final(self).hdr == old(self).hdr,
            final(self).key == old(self).key,
            final(self).val == old(self).val,
            (forall|l: int| 0 <= l < old(self).links().len() ==> #[trigger] old(self).links()[l].1
                == 0) ==> {
                &&& r == Ok::<usize, usize>((old(self).spec_height() - 1) as usize)
                &&& final(self).links() == old(self).links().map_values(
                    |e: (usize, usize)| (e.0, tag),
                )
            },
            (forall|l: int| 0 <= l < old(self).links().len() ==> #[trigger] old(self).links()[l].1
                == 0) <==> r is Ok,
            r matches Err(o) ==> exists|j: int|
                {
                    &&& 0 <= j < old(self).links().len()
                    &&& o == old(self).links()[j].1
                    &&& o != 0
                    &&& forall|l: int|
                        j < l < old(self).links().len() ==> #[trigger] old(self).links()[l].1 == 0
                    &&& final(self).links() == Seq::new(
                        old(self).links().len(),
                        |l: int|
                            if l > j {
                                (old(self).links()[l].0, tag)
                            } else {
                                old(self).links()[l]
                            },
                    )
                },
    {
        let height = self.height();
        let mut level = height;
        proof {
            self.lemma_links();
        }
        while level > 0
            invariant
                level <= height,
                height == old(self).spec_height(),
                old(self).wf(),
                self.wf(),
                self.hdr == old(self).hdr,
                self.key == old(self).key,
                self.val == old(self).val,
                tag < 2,
                self.links().len() == old(self).links().len(),
                forall|l: int| level <= l < height ==> #[trigger] old(self).links()[l].1 == 0,
                forall|l: int|
                    0 <= l < height ==> #[trigger] self.links()[l] == if l >= level {
                        (old(self).links()[l].0, tag)
                    } else {
                        old(self).links()[l]
                    },
            decreases level,
        {
            level -= 1;
            proof {
                old(self).lemma_links();
            }
            let ghost before = self.links();
            let ghost before_level = self.levels@[level as int];
            assert(before[level as int] == (before_level.ptr(), before_level.tag()));
            let res = self.levels[level].compare_exchange_tag(0, tag);
            match res {
                Err(o_tag) => {
                    assert(self.links() =~= before);
                    assert(before[level as int] == old(self).links()[level as int]);
                    assert(before_level.tag() != 0);
                    assert(old(self).links()[level as int].1 != 0);
                    let ghost j = level as int;
                    assert(self.links() =~= Seq::new(
                        old(self).links().len(),
                        |l: int|
                            if l > j {
                                (old(self).links()[l].0, tag)
                            } else {
                                old(self).links()[l]
                            },
                    ));
                    return Err(o_tag);
                },
                Ok(_) => {
                    assert(self.links() =~= before.update(level as int, (before[level as int].0, tag)));
                },
            }
        }
        assert(self.links() =~= old(self).links().map_values(|e: (usize, usize)| (e.0, tag)));
        Ok(height - 1)
    }

    /// Sets the removed flag, then tags every level with 1. Fails if the
    /// flag was set already, or if some level was tagged already; in the
    /// latter case the flag stays set.
    pub fn try_remove_and_tag(&mut self) -> (r: Result<(), ()>)
        requires
            old(self).wf(),
        ensures
            final(self).wf(),
            final(self).key == old(self).key,
            final(self).val == old(self).val,
            final(self).spec_height() == old(self).spec_height(),
            final(self).spec_refs() == old(self).spec_refs(),
            old(self).spec_removed() ==> r is Err && *final(self) == *old(self),
            !old(self).spec_removed() ==> final(self).spec_removed(),
            !old(self).spec_removed() && (forall|l: int|
                0 <= l < old(self).links().len() ==> #[trigger] old(self).links()[l].1 == 0) ==> {
                &&& r is Ok
                &&& final(self).links() == old(self).links().map_values(
                    |e: (usize, usize)| (e.0, 1usize),
                )
            },
            !old(self).spec_removed() && !(forall|l: int|
                0 <= l < old(self).links().len() ==> #[trigger] old(self).links()[l].1 == 0)
                ==> r is Err,
    {
        if self.set_removed().is_err() {
            return Err(());
        }
        assert(self.links() == old(self).links());
        match self.tag_levels(1) {
            Ok(_) => Ok(()),
            Err(_) => Err(()),
        }
    }
}

} // verus!
