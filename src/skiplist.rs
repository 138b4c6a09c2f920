//! The skip list: an ordered map from keys to values.
//!
//! Towers live in an arena of node slots and link to each other by arena
//! address (index + 1; address 0 is the head, or the null pointer). The
//! mathematical shape of the links is in [`crate::towers`]: the list keeps
//! it exact between calls, so every search from the head finds, at each
//! level, the last tower before the key.
//!
//! Mutation takes `&mut self`. With exclusive access a removal finishes its
//! unlinking inside the call, so no search meets an edge tagged for
//! unlinking, and the storage of a removed node goes back to the caller as
//! the returned key and value.

use vstd::prelude::*;
use core::cmp::Ordering;
use crate::key::SkipKey;
use crate::node::{Node, HEIGHT};
use crate::tagged::{MaybeTagged, MAX_PTR};
use crate::towers::{
    towers_ok,
    prev_ok,
    succ,
    lemma_add_level,
    lemma_drop_level,
    lemma_chain_change,
    lemma_level0,
    lemma_prev0,
    lemma_prev_keep,
    lemma_prev_link,
    lemma_rank_unique,
    lemma_towers_agree,
    lemma_prev_targets,
};

verus! {

/// The largest number of entries a list can hold.
pub const MAX_LEN: usize = usize::MAX / 4;

/// Keys strictly increase along the sequence.
pub open spec fn key_sorted<K: SkipKey, V>(s: Seq<(K, V)>) -> bool {
    forall|i: int, j: int| 0 <= i < j < s.len() ==> s[i].0.rank() < s[j].0.rank()
}

/// The first position of `s` whose key has rank `r` or more.
pub open spec fn lower_bound<K: SkipKey, V>(s: Seq<(K, V)>, r: int) -> int
    decreases s.len(),
{
    if s.len() == 0 {
        0
    } else if s[0].0.rank() >= r {
        0
    } else {
        1 + lower_bound(s.drop_first(), r)
    }
}

/// The sequence after putting `v` under `k`: it replaces the pair with
/// key `k`, or goes where the key order puts it.
pub open spec fn inserted<K: SkipKey, V>(s: Seq<(K, V)>, k: K, v: V) -> Seq<(K, V)> {
    let p = lower_bound(s, k.rank());
    if key_at(s, p, k) {
        s.update(p, (k, v))
    } else {
        s.insert(p, (k, v))
    }
}

/// The sequence without the pair with key `k`.
pub open spec fn removed<K: SkipKey, V>(s: Seq<(K, V)>, k: K) -> Seq<(K, V)> {
    let p = lower_bound(s, k.rank());
    if key_at(s, p, k) {
        s.remove(p)
    } else {
        s
    }
}

/// The pair with key `k`, if `s` has one.
pub open spec fn found<K: SkipKey, V>(s: Seq<(K, V)>, k: K) -> Option<(K, V)> {
    let p = lower_bound(s, k.rank());
    if key_at(s, p, k) {
        Some(s[p])
    } else {
        None
    }
}

/// The sequence after putting each pair of `ps` in turn into an empty one.
pub open spec fn inserted_all<K: SkipKey, V>(ps: Seq<(K, V)>) -> Seq<(K, V)>
    decreases ps.len(),
{
    if ps.len() == 0 {
        Seq::empty()
    } else {
        inserted(inserted_all(ps.drop_last()), ps.last().0, ps.last().1)
    }
}

/// `s` holds key `k` at position `p`.
pub open spec fn key_at<K, V>(s: Seq<(K, V)>, p: int, k: K) -> bool {
    0 <= p < s.len() && s[p].0 == k
}

pub proof fn lemma_lower_bound<K: SkipKey, V>(s: Seq<(K, V)>, r: int, p: int)
    requires
        0 <= p <= s.len(),
        forall|j: int| 0 <= j < p ==> (#[trigger] s[j]).0.rank() < r,
        forall|j: int| p <= j < s.len() ==> (#[trigger] s[j]).0.rank() >= r,
    ensures
        lower_bound(s, r) == p,
    decreases s.len(),
{
    if s.len() > 0 && p > 0 {
        let t = s.drop_first();
        assert forall|j: int| 0 <= j < p - 1 implies (#[trigger] t[j]).0.rank() < r by {
            assert(t[j] == s[j + 1]);
        }
        assert forall|j: int| p - 1 <= j < t.len() implies (#[trigger] t[j]).0.rank() >= r by {
            assert(t[j] == s[j + 1]);
        }
        lemma_lower_bound(t, r, p - 1);
    } else if s.len() > 0 {
        assert(s[0].0.rank() >= r);
    }
}

/// Rank of the key held by each arena slot.
pub open spec fn rank_fn<K: SkipKey, V>(nodes: Seq<Option<Node<K, V>>>) -> spec_fn(usize) -> int {
    |i: usize|
        if i < nodes.len() && nodes[i as int] is Some {
            nodes[i as int]->Some_0.key.rank()
        } else {
            0
        }
}

/// Height of each arena slot, with the height of one node `ov.0` taken as
/// `ov.1` while it is being linked or unlinked.
pub open spec fn ht_fn<K, V>(nodes: Seq<Option<Node<K, V>>>, ov: Option<(usize, nat)>) -> spec_fn(
    usize,
) -> nat {
    |i: usize|
        if ov is Some && i == ov->Some_0.0 {
            ov->Some_0.1
        } else if i < nodes.len() && nodes[i as int] is Some {
            nodes[i as int]->Some_0.spec_height()
        } else {
            0
        }
}

/// The link held at each address and level.
pub open spec fn link_fn<K, V>(head: Seq<MaybeTagged>, nodes: Seq<Option<Node<K, V>>>) -> spec_fn(
    usize,
    int,
) -> usize {
    |a: usize, l: int|
        if a == 0 {
            if 0 <= l < head.len() {
                head[l].ptr()
            } else {
                0
            }
        } else if a - 1 < nodes.len() && nodes[a - 1] is Some && 0 <= l < nodes[a
            - 1]->Some_0.levels@.len() {
            nodes[a - 1]->Some_0.links()[l].0
        } else {
            0
        }
}

struct Head {
    levels: Vec<MaybeTagged>,
}

struct ListState {
    len: usize,
    max_height: usize,
    seed: u64,
}

/// A sorted map from keys to values, kept in a skip list.
pub struct SkipList<K, V> {
    head: Head,
    nodes: Vec<Option<Node<K, V>>>,
    free: Vec<usize>,
    state: ListState,
    chain: Ghost<Seq<usize>>,
}

/// A shared view of one key/value pair of a list.
pub struct Entry<'a, K, V> {
    pub key: &'a K,
    pub val: &'a V,
}

impl<'a, K, V> Entry<'a, K, V> {
    /// The entry shows the pair `kv`.
    pub open spec fn shows(&self, kv: (K, V)) -> bool {
        *self.key == kv.0 && *self.val == kv.1
    }

    pub fn key(&self) -> (r: &'a K)
        ensures
            *r == *self.key,
    {
        self.key
    }

    pub fn val(&self) -> (r: &'a V)
        ensures
            *r == *self.val,
    {
        self.val
    }
}

/// Where a search for a key ended: the last tower before the key at each
/// level, the node holding the key if there is one, and (as a ghost) the
/// position in the list where the key is or would go.
struct SearchResult {
    prev: Vec<usize>,
    target: Option<usize>,
    pos: Ghost<int>,
}

/// Relies on rand's `OsRng::try_fill_bytes`: eight bytes from the operating
/// system's random source, read as a seed for the heights of towers, or
/// `None` when the source fails. Nothing is known of the value.
#[verifier::external_body]
fn random_seed() -> (r: Option<u64>) {
    let mut bytes = [0u8; 8];
    match rand::RngCore::try_fill_bytes(&mut rand::rngs::OsRng, &mut bytes) {
        Ok(()) => Some(u64::from_le_bytes(bytes)),
        Err(_) => None,
    }
}

/// The seed used when the operating system gives none; any non-zero value
/// keeps the xorshift sequence from sticking at zero.
pub const FALLBACK_SEED: u64 = 0x9e37_79b9_7f4a_7c15;

/// One xorshift step of the seed.
pub open spec fn xorshift(x: u64) -> u64 {
    let a = x ^ (x << 13u64);
    let b = a ^ (a >> 17u64);
    b ^ (b << 5u64)
}

/// The height a seed asks for: one more than its trailing zero bits, at most
/// `HEIGHT`.
pub open spec fn candidate_height(seed: u64) -> int {
    let t = seed.trailing_zeros() as int + 1;
    if t < HEIGHT {
        t
    } else {
        HEIGHT as int
    }
}

impl<K, V> View for SkipList<K, V> {
    type V = Seq<(K, V)>;

    closed spec fn view(&self) -> Seq<(K, V)> {
        self.chain@.map_values(
            |i: usize| (self.nodes@[i as int]->Some_0.key, self.nodes@[i as int]->Some_0.val),
        )
    }
}

impl<K, V> SkipList<K, V> {
    /// The head has a link per level, and the levels in use are counted.
    pub closed spec fn levels_ok(&self) -> bool {
        &&& self.head.levels@.len() == HEIGHT
        &&& 1 <= self.state.max_height <= HEIGHT
    }

    /// Only the seed changed since `before`, and the count of levels in use,
    /// which now covers `h`.
    pub closed spec fn grown_from(&self, before: &Self, h: nat) -> bool {
        &&& self.head == before.head
        &&& self.nodes == before.nodes
        &&& self.free == before.free
        &&& self.chain == before.chain
        &&& self.state.len == before.state.len
        &&& self.state.max_height >= h
        &&& self.state.max_height >= before.state.max_height
    }

    /// The seed from which tower heights are drawn.
    pub closed spec fn seed(&self) -> u64 {
        self.state.seed
    }

    /// The head's link at level `l` is null: no tower reaches that level.
    pub closed spec fn head_null(&self, l: int) -> bool {
        self.head.levels@[l].ptr() == 0
    }

    /// `h` is the height drawn by one step from `before`: the seed took one
    /// xorshift step, and the height asked for by the new seed was lowered
    /// while the head's level below the top of the tower was null, so a
    /// tower reaches at most one level above the levels in use.
    pub open spec fn drawn(&self, before: &Self, h: nat) -> bool {
        let c = candidate_height(xorshift(before.seed()));
        &&& self.seed() == xorshift(before.seed())
        &&& 1 <= h <= c
        &&& (h == c || self.head_null(h - 1))
        &&& (h == 1 || !self.head_null(h - 2))
    }

    /// The list was just made: no nodes, and a null, untagged head.
    pub closed spec fn fresh(&self) -> bool {
        &&& self.levels_ok()
        &&& self.state.max_height == 1
        &&& self.state.len == 0
        &&& self.nodes@.len() == 0
        &&& self.free@.len() == 0
        &&& self.chain@.len() == 0
        &&& forall|l: int|
            0 <= l < HEIGHT ==> (#[trigger] self.head.levels@[l]).ptr() == 0
                && self.head.levels@[l].tag() == 0
    }

    /// An empty list.
    pub fn new() -> (r: Self)
        ensures
            r.fresh(),
            r.levels_ok(),
            r@ == Seq::<(K, V)>::empty(),
    {
        let seed = match random_seed() {
            Some(s) => s,
            None => FALLBACK_SEED,
        };
        let mut levels: Vec<MaybeTagged> = Vec::new();
        let mut i: usize = 0;
        while i < HEIGHT
            invariant
                i <= HEIGHT,
                levels@.len() == i,
                forall|l: int| 0 <= l < i ==> (#[trigger] levels@[l]).ptr() == 0 && levels@[l].tag() == 0,
            decreases HEIGHT - i,
        {
            levels.push(MaybeTagged::null());
            i += 1;
        }
        let r = SkipList {
            head: Head { levels },
            nodes: Vec::new(),
            free: Vec::new(),
            state: ListState { len: 0, max_height: 1, seed },
            chain: Ghost(Seq::empty()),
        };
        assert(r@ =~= Seq::<(K, V)>::empty());
        r
    }

    /// Generates the height of a new tower from the list's seed (an
    /// xorshift step) and updates the seed; a tower grows at most one level
    /// above the levels in use.
    pub(crate) fn gen_height(&mut self) -> (r: usize)
        requires
            old(self).levels_ok(),
        ensures
            1 <= r <= HEIGHT,
            final(self).drawn(old(self), r as nat),
            final(self).levels_ok(),
            final(self).grown_from(old(self), r as nat),
            final(self)@ == old(self)@,
    {
        let mut seed = self.state.seed;
        seed = seed ^ (seed << 13u64);
        seed = seed ^ (seed >> 17u64);
        seed = seed ^ (seed << 5u64);
        self.state.seed = seed;
        let tz = seed.trailing_zeros() as usize;
        let mut height: usize = if tz < HEIGHT {
            tz + 1
        } else {
            HEIGHT
        };
        proof {
            assert(seed == xorshift(old(self).seed()));
        }
        while height >= 2 && self.head.levels[height - 2].load_ptr() == 0
            invariant
                1 <= height <= candidate_height(seed),
                candidate_height(seed) <= HEIGHT,
                self.head.levels@.len() == HEIGHT,
                height == candidate_height(seed) || self.head_null(height - 1),
            decreases height,
        {
            height -= 1;
        }
        if height > self.state.max_height {
            self.state.max_height = height;
        }
        height
    }

}

impl<K: SkipKey, V> SkipList<K, V> {
    closed spec fn node_at(&self, i: usize) -> Node<K, V> {
        self.nodes@[i as int]->Some_0
    }

    closed spec fn rank(&self) -> spec_fn(usize) -> int {
        rank_fn(self.nodes@)
    }

    closed spec fn ht(&self, ov: Option<(usize, nat)>) -> spec_fn(usize) -> nat {
        ht_fn(self.nodes@, ov)
    }

    closed spec fn link(&self) -> spec_fn(usize, int) -> usize {
        link_fn(self.head.levels@, self.nodes@)
    }

    /// The arena, the head and the counters are in order; node `ov.0`, if
    /// any, is being linked or unlinked and takes part in `ov.1` levels.
    closed spec fn shape_ok(&self, ov: Option<(usize, nat)>) -> bool {
        self.shape_at(ov, 0)
    }

    /// As `shape_ok`, with `extra` references on node `ov.0` beyond its
    /// levels.
    closed spec fn shape_at(&self, ov: Option<(usize, nat)>, extra: nat) -> bool {
        let chain = self.chain@;
        &&& self.head.levels@.len() == HEIGHT
        &&& forall|l: int| 0 <= l < HEIGHT ==> #[trigger] self.head.levels@[l].tag() == 0
        &&& 1 <= self.state.max_height <= HEIGHT
        &&& forall|l: int|
            self.state.max_height <= l < HEIGHT ==> #[trigger] self.head.levels@[l].ptr() == 0
        &&& self.nodes@.len() <= MAX_LEN
        &&& self.nodes@.len() <= chain.len() + self.free@.len()
        &&& self.state.len == chain.len()
        &&& forall|j: int|
            0 <= j < chain.len() ==> {
                &&& #[trigger] chain[j] < self.nodes@.len()
                &&& self.nodes@[chain[j] as int] is Some
                &&& self.node_at(chain[j]).wf()
            }
        &&& forall|j: int|
            0 <= j < chain.len() && !(ov is Some && chain[j] == ov->Some_0.0) ==> {
                let n = #[trigger] self.node_at(chain[j]);
                &&& n.spec_refs() == n.spec_height()
                &&& !n.spec_removed()
                &&& forall|l: int| 0 <= l < n.links().len() ==> #[trigger] n.links()[l].1 == 0
            }
        &&& ov is Some ==> {
            &&& chain.contains(ov->Some_0.0)
            &&& self.node_at(ov->Some_0.0).spec_refs() == ov->Some_0.1 + extra
            &&& ov->Some_0.1 + extra <= self.node_at(ov->Some_0.0).spec_height()
        }
        &&& forall|f: int|
            0 <= f < self.free@.len() ==> {
                &&& #[trigger] self.free@[f] < self.nodes@.len()
                &&& self.nodes@[self.free@[f] as int] is None
            }
        &&& self.free@.no_duplicates()
    }

    closed spec fn inv(&self, ov: Option<(usize, nat)>) -> bool {
        &&& self.shape_ok(ov)
        &&& towers_ok(self.chain@, self.rank(), self.ht(ov), self.link())
    }

    /// Every slot but `skip` is as full as in `other`, with the same key
    /// and value.
    closed spec fn entries_kept(&self, other: &Self, skip: int) -> bool {
        &&& self.nodes@.len() == other.nodes@.len()
        &&& forall|j: usize|
            #![trigger self.nodes@[j as int]]
            j < self.nodes@.len() && j != skip ==> {
                &&& (self.nodes@[j as int] is Some <==> other.nodes@[j as int] is Some)
                &&& self.nodes@[j as int] is Some ==> {
                    &&& self.node_at(j).key == other.node_at(j).key
                    &&& self.node_at(j).val == other.node_at(j).val
                    &&& self.node_at(j).spec_height() == other.node_at(j).spec_height()
                }
            }
    }

    proof fn lemma_entries_trans(&self, b: &Self, c: &Self, skip: int)
        requires
            self.entries_kept(b, skip),
            b.entries_kept(c, skip),
        ensures
            self.entries_kept(c, skip),
    {
        assert forall|j: usize| #![trigger self.nodes@[j as int]] j < self.nodes@.len() && j != skip implies {
            &&& (self.nodes@[j as int] is Some <==> c.nodes@[j as int] is Some)
            &&& self.nodes@[j as int] is Some ==> {
                &&& self.node_at(j).key == c.node_at(j).key
                &&& self.node_at(j).val == c.node_at(j).val
                &&& self.node_at(j).spec_height() == c.node_at(j).spec_height()
            }
        } by {
            assert(j < b.nodes@.len());
            assert(b.nodes@[j as int] == b.nodes@[j as int]);
        }
    }

    /// Keys stay where they were, so ranks do too.
    proof fn lemma_entries_rank(&self, b: &Self, x: usize)
        requires
            self.entries_kept(b, x as int),
            x < self.nodes@.len(),
            self.nodes@[x as int] is Some,
            b.nodes@[x as int] is Some,
            self.node_at(x).key == b.node_at(x).key,
        ensures
            self.rank() == b.rank(),
    {
        assert forall|n: usize| #[trigger] self.rank()(n) == b.rank()(n) by {
            if n < self.nodes@.len() && n != x {
                assert(self.nodes@[n as int] == self.nodes@[n as int]);
            }
        }
        assert(self.rank() =~= b.rank());
    }

    /// The list is well formed.
    pub closed spec fn wf(&self) -> bool {
        self.inv(None)
    }

    proof fn lemma_view(&self)
        requires
            self.wf(),
        ensures
            key_sorted(self@),
            self@.len() == self.chain@.len(),
            forall|j: int|
                0 <= j < self.chain@.len() ==> #[trigger] self@[j] == (
                    self.node_at(self.chain@[j]).key,
                    self.node_at(self.chain@[j]).val,
                ),
            forall|j: int|
                0 <= j < self.chain@.len() ==> #[trigger] self.node_at(self.chain@[j]).spec_height()
                    > 0,
    {
        assert forall|j: int| 0 <= j < self.chain@.len() implies #[trigger] self.node_at(
            self.chain@[j],
        ).spec_height() > 0 by {
            assert(self.chain@[j] < self.nodes@.len());
        }
    }

    /// A list just made is well formed.
    pub proof fn lemma_fresh(&self)
        requires
            self.fresh(),
        ensures
            self.wf(),
    {
        assert forall|l: int| 0 <= l < HEIGHT implies #[trigger] succ(
            self.chain@,
            self.rank(),
            self.ht(None),
            0,
            l,
            self.link()(0, l),
        ) by {
            assert(self.link()(0, l) == 0);
        }
        assert(self.free@ =~= Seq::<usize>::empty());
        assert(self.shape_ok(None));
    }

    /// The keys of a well-formed list strictly increase.
    pub proof fn lemma_sorted(&self)
        requires
            self.wf(),
        ensures
            key_sorted(self@),
    {
        self.lemma_view();
    }

    /// The number of entries.
    pub fn len(&self) -> (r: usize)
        requires
            self.wf(),
        ensures
            r == self@.len(),
    {
        self.state.len
    }

    pub fn is_empty(&self) -> (r: bool)
        requires
            self.wf(),
        ensures
            r == (self@.len() == 0),
    {
        self.state.len < 1
    }

    fn node_ref(&self, i: usize) -> (r: &Node<K, V>)
        requires
            i < self.nodes@.len(),
            self.nodes@[i as int] is Some,
        ensures
            *r == self.node_at(i),
    {
        self.nodes[i].as_ref().unwrap()
    }

    /// The pointer held at address `a`, level `l`.
    fn level_ptr(&self, a: usize, l: usize) -> (r: usize)
        requires
            self.head.levels@.len() == HEIGHT,
            l < HEIGHT,
            a != 0 ==> {
                &&& a - 1 < self.nodes@.len()
                &&& self.nodes@[a - 1] is Some
                &&& self.node_at((a - 1) as usize).wf()
                &&& l < self.node_at((a - 1) as usize).spec_height()
            },
        ensures
            r == self.link()(a, l as int),
    {
        if a == 0 {
            self.head.levels[l].load_ptr()
        } else {
            let n = self.node_ref(a - 1);
            proof {
                n.lemma_links();
            }
            n.levels[l].load_ptr()
        }
    }

    /// Swings the link at address `a`, level `l`, from `expected` to `new`.
    fn swing_link(&mut self, a: usize, l: usize, expected: usize, new: usize)
        requires
            old(self).head.levels@.len() == HEIGHT,
            l < HEIGHT,
            new <= MAX_PTR,
            expected <= MAX_PTR,
            a == 0 ==> old(self).head.levels@[l as int].tag() == 0,
            a != 0 ==> {
                &&& a - 1 < old(self).nodes@.len()
                &&& old(self).nodes@[a - 1] is Some
                &&& old(self).node_at((a - 1) as usize).wf()
                &&& l < old(self).node_at((a - 1) as usize).spec_height()
                &&& old(self).node_at((a - 1) as usize).links()[l as int].1 == 0
            },
            old(self).link()(a, l as int) == expected,
        ensures
            final(self).chain == old(self).chain,
            final(self).free == old(self).free,
            final(self).state == old(self).state,
            final(self).head.levels@.len() == HEIGHT,
            final(self).nodes@.len() == old(self).nodes@.len(),
            forall|i: int|
                0 <= i < old(self).nodes@.len() && i != a - 1 ==> #[trigger] final(self).nodes@[i]
                    == old(self).nodes@[i],
            a != 0 ==> {
                let n1 = old(self).node_at((a - 1) as usize);
                let n2 = final(self).node_at((a - 1) as usize);
                &&& final(self).nodes@[a - 1] is Some
                &&& n2.key == n1.key
                &&& n2.val == n1.val
                &&& n2.hdr == n1.hdr
                &&& n2.wf()
                &&& n2.links() == n1.links().update(l as int, (new, 0usize))
            },
            a != 0 ==> final(self).head == old(self).head,
            a == 0 ==> final(self).nodes == old(self).nodes,
            forall|m: int|
                0 <= m < HEIGHT ==> (#[trigger] final(self).head.levels@[m]).tag() == if a == 0
                    && m == l {
                    0
                } else {
                    old(self).head.levels@[m].tag()
                },
            forall|m: int|
                0 <= m < HEIGHT ==> (#[trigger] final(self).head.levels@[m]).ptr() == if a == 0
                    && m == l {
                    new
                } else {
                    old(self).head.levels@[m].ptr()
                },
            forall|b: usize, m: int|
                #[trigger] final(self).link()(b, m) == if b == a && m == l {
                    new
                } else {
                    old(self).link()(b, m)
                },
    {
        if a == 0 {
            let _ = self.head.levels[l].compare_exchange(expected, new);
            assert(self.nodes == old(self).nodes);
            assert forall|b: usize, m: int| #[trigger] self.link()(b, m) == if b == a && m == l {
                new
            } else {
                old(self).link()(b, m)
            } by {}
        } else {
            let mut n = self.nodes[a - 1].take().unwrap();
            proof {
                n.lemma_links();
            }
            let ghost n1 = n;
            let _ = n.levels[l].compare_exchange(expected, new);
            assert(n.links() =~= n1.links().update(l as int, (new, 0usize)));
            self.nodes.set(a - 1, Some(n));
            assert forall|b: usize, m: int| #[trigger] self.link()(b, m) == if b == a && m == l {
                new
            } else {
                old(self).link()(b, m)
            } by {}
        }
    }

    /// Puts a fresh node into a free arena slot (or a new one) and into the
    /// chain at position `pos`, taking part in no level yet.
    fn place_node(&mut self, node: Node<K, V>, Ghost(pos): Ghost<int>) -> (x: usize)
        requires
            old(self).wf(),
            old(self)@.len() < MAX_LEN,
            node.wf(),
            node.spec_refs() == 0,
            !node.spec_removed(),
            forall|l: int| 0 <= l < node.links().len() ==> #[trigger] node.links()[l] == (0usize, 0usize),
            0 <= pos <= old(self).chain@.len(),
            forall|j: int| 0 <= j < pos ==> old(self).rank()(#[trigger] old(self).chain@[j]) < node.key.rank(),
            forall|j: int|
                pos <= j < old(self).chain@.len() ==> old(self).rank()(#[trigger] old(self).chain@[j])
                    > node.key.rank(),
        ensures
            final(self).inv(Some((x, 0))),
            final(self).chain@ == old(self).chain@.insert(pos, x),
            x < final(self).nodes@.len(),
            final(self).nodes@[x as int] == Some(node),
            final(self).state.max_height == old(self).state.max_height,
            forall|j: int|
                0 <= j < old(self).chain@.len() ==> #[trigger] final(self).node_at(old(self).chain@[j])
                    == old(self).node_at(old(self).chain@[j]),
    {
        let ghost old_chain = self.chain@;
        proof {
            self.lemma_view();
        }
        let x: usize;
        if self.free.len() > 0 {
            x = self.free.pop().unwrap();
            proof {
                assert(old(self).free@[old(self).free@.len() - 1] == x);
                assert forall|f: int| 0 <= f < self.free@.len() implies #[trigger] self.free@[f] != x by {
                    assert(old(self).free@[f] == self.free@[f]);
                }
            }
            self.nodes.set(x, Some(node));
        } else {
            x = self.nodes.len();
            self.nodes.push(Some(node));
        }
        proof {
            assert forall|j: int| 0 <= j < old_chain.len() implies #[trigger] old_chain[j] != x by {
                assert(old_chain[j] < old(self).nodes@.len());
                assert(old(self).nodes@[old_chain[j] as int] is Some);
            }
        }
        self.chain = Ghost(old_chain.insert(pos, x));
        self.state.len = self.state.len + 1;
        proof {
            let ov = Some((x, 0nat));
            let rank2 = self.rank();
            let ht2 = self.ht(ov);
            let link2 = self.link();
            assert forall|j: int| 0 <= j < old_chain.len() implies #[trigger] self.node_at(old_chain[j])
                == old(self).node_at(old_chain[j]) by {
                assert(old_chain[j] != x);
            }
            assert forall|j: int, l: int|
                0 <= j < old_chain.len() && 0 <= l < HEIGHT implies #[trigger] link2(
                (old_chain[j] + 1) as usize,
                l,
            ) == old(self).link()((old_chain[j] + 1) as usize, l) by {
                assert(old_chain[j] != x);
            }
            assert forall|l: int| 0 <= l < HEIGHT implies #[trigger] link2(0, l) == old(self).link()(
                0,
                l,
            ) by {}
            assert forall|j: int| 0 <= j < old_chain.len() implies #[trigger] rank2(old_chain[j])
                == old(self).rank()(old_chain[j]) by {
                assert(old_chain[j] != x);
            }
            assert forall|j: int| 0 <= j < old_chain.len() implies #[trigger] ht2(old_chain[j])
                == old(self).ht(None)(old_chain[j]) by {
                assert(old_chain[j] != x);
            }
            lemma_towers_agree(old_chain, old(self).rank(), old(self).ht(None), old(self).link(), rank2, ht2, link2);
            let chain2 = self.chain@;
            assert forall|i: int, j: int| 0 <= i < j < chain2.len() implies rank2(chain2[i]) < rank2(chain2[j]) by {
                if i < pos {
                    assert(chain2[i] == old_chain[i]);
                }
                if i > pos {
                    assert(chain2[i] == old_chain[i - 1]);
                }
                if j < pos {
                    assert(chain2[j] == old_chain[j]);
                }
                if j > pos {
                    assert(chain2[j] == old_chain[j - 1]);
                }
                if i < pos && j < pos {
                    assert(old(self).rank()(old_chain[i]) < old(self).rank()(old_chain[j]));
                }
                if i > pos && j > pos {
                    assert(old(self).rank()(old_chain[i - 1]) < old(self).rank()(old_chain[j - 1]));
                }
            }
            assert forall|j2: int| 0 <= j2 < chain2.len() && #[trigger] ht2(chain2[j2]) > 0 implies old_chain.contains(chain2[j2]) by {
                if j2 < pos {
                    assert(chain2[j2] == old_chain[j2]);
                } else if j2 > pos {
                    assert(chain2[j2] == old_chain[j2 - 1]);
                }
            }
            assert forall|j: int| 0 <= j < old_chain.len() && #[trigger] ht2(old_chain[j]) > 0 implies chain2.contains(old_chain[j]) by {
                if j < pos {
                    assert(chain2[j] == old_chain[j]);
                } else {
                    assert(chain2[j + 1] == old_chain[j]);
                }
            }
            assert forall|j2: int| 0 <= j2 < chain2.len() implies #[trigger] chain2[j2] < MAX_PTR by {
                if j2 < pos {
                    assert(chain2[j2] == old_chain[j2]);
                } else if j2 > pos {
                    assert(chain2[j2] == old_chain[j2 - 1]);
                }
            }
            lemma_chain_change(old_chain, chain2, rank2, ht2, link2);
            assert forall|j: int| 0 <= j < chain2.len() implies {
                &&& #[trigger] chain2[j] < self.nodes@.len()
                &&& self.nodes@[chain2[j] as int] is Some
                &&& self.node_at(chain2[j]).wf()
            } by {
                if j < pos {
                    assert(chain2[j] == old_chain[j]);
                } else if j > pos {
                    assert(chain2[j] == old_chain[j - 1]);
                }
            }
            assert forall|j: int|
                0 <= j < chain2.len() && !(ov is Some && chain2[j] == ov->Some_0.0) implies {
                let n = #[trigger] self.node_at(chain2[j]);
                &&& n.spec_refs() == n.spec_height()
                &&& !n.spec_removed()
                &&& forall|l: int| 0 <= l < n.links().len() ==> #[trigger] n.links()[l].1 == 0
            } by {
                if j < pos {
                    assert(chain2[j] == old_chain[j]);
                } else if j > pos {
                    assert(chain2[j] == old_chain[j - 1]);
                }
            }
            assert(chain2[pos] == x);
            assert forall|f: int| 0 <= f < self.free@.len() implies {
                &&& #[trigger] self.free@[f] < self.nodes@.len()
                &&& self.nodes@[self.free@[f] as int] is None
            } by {
                assert(old(self).free@.contains(self.free@[f]));
            }
            assert(self.shape_ok(ov));
        }
        x
    }

    /// Links node `x`, already in the chain, into the levels from
    /// `start_height` up to its height, each right after the tower that
    /// `prev` gives for that level.
    fn link_nodes(&mut self, x: usize, prev: &Vec<usize>, start_height: usize)
        requires
            old(self).inv(Some((x, start_height as nat))),
            x < old(self).nodes@.len(),
            old(self).nodes@[x as int] is Some,
            start_height <= old(self).node_at(x).spec_height() <= old(self).state.max_height,
            !old(self).node_at(x).spec_removed(),
            forall|l: int|
                0 <= l < old(self).node_at(x).spec_height() ==> #[trigger] old(self).node_at(
                    x,
                ).links()[l].1 == 0,
            prev@.len() == HEIGHT,
            forall|l: int|
                start_height <= l < HEIGHT ==> #[trigger] prev_ok(
                    old(self).chain@,
                    old(self).rank(),
                    old(self).ht(Some((x, start_height as nat))),
                    prev@[l],
                    l,
                    old(self).node_at(x).key.rank(),
                ),
        ensures
            final(self).wf(),
            final(self).chain == old(self).chain,
            final(self).free == old(self).free,
            final(self).state == old(self).state,
            final(self).nodes@.len() == old(self).nodes@.len(),
            forall|i: int|
                0 <= i < old(self).nodes@.len() ==> (#[trigger] final(self).nodes@[i] is Some
                    <==> old(self).nodes@[i] is Some),
            forall|i: usize|
                i < old(self).nodes@.len() && old(self).nodes@[i as int] is Some ==> {
                    &&& #[trigger] final(self).node_at(i).key == old(self).node_at(i).key
                    &&& final(self).node_at(i).val == old(self).node_at(i).val
                },
    {
        let h = self.node_ref(x).height();
        let ghost k = self.node_at(x).key.rank();
        let ghost rank0 = self.rank();
        let mut i = start_height;
        while i < h
            invariant
                self.inv(Some((x, i as nat))),
                start_height <= i <= h,
                h == self.node_at(x).spec_height(),
                h <= self.state.max_height,
                x < self.nodes@.len(),
                self.nodes@[x as int] is Some,
                !self.node_at(x).spec_removed(),
                forall|l: int| 0 <= l < h ==> #[trigger] self.node_at(x).links()[l].1 == 0,
                k == self.node_at(x).key.rank(),
                rank0 == self.rank(),
                self.chain == old(self).chain,
                self.free == old(self).free,
                self.state == old(self).state,
                self.nodes@.len() == old(self).nodes@.len(),
                forall|j: int|
                    0 <= j < old(self).nodes@.len() ==> (#[trigger] self.nodes@[j] is Some
                        <==> old(self).nodes@[j] is Some),
                forall|j: usize|
                    j < old(self).nodes@.len() && old(self).nodes@[j as int] is Some ==> {
                        &&& #[trigger] self.node_at(j).key == old(self).node_at(j).key
                        &&& self.node_at(j).val == old(self).node_at(j).val
                    },
                prev@.len() == HEIGHT,
                forall|l: int|
                    i <= l < HEIGHT ==> #[trigger] prev_ok(
                        self.chain@,
                        self.rank(),
                        self.ht(Some((x, i as nat))),
                        prev@[l],
                        l,
                        k,
                    ),
            decreases h - i,
        {
            let ghost s0 = *self;
            let ghost chain = self.chain@;
            let ghost ov = Some((x, i as nat));
            let a = prev[i];
            proof {
                assert(prev_ok(chain, rank0, self.ht(ov), a, i as int, k));
                if a != 0 {
                    let q = choose|q: int| 0 <= q < chain.len() && chain[q] == (a - 1) as usize;
                    assert(chain[q] < self.nodes@.len());
                    assert((a - 1) as usize != x);
                }
                lemma_prev_link(chain, rank0, self.ht(ov), self.link(), a, i as int);
                let qx = choose|q: int| 0 <= q < chain.len() && chain[q] == x;
                assert(chain[qx] < MAX_PTR);
                assert(chain[qx] < self.nodes@.len());
                self.node_at(x).lemma_links();
                assert(self.node_at(x).links()[i as int].0 <= MAX_PTR);
                let p = self.link()(a, i as int);
                if p != 0 {
                    let q = choose|q: int| 0 <= q < chain.len() && chain[q] == (p - 1) as usize;
                    assert(chain[q] < MAX_PTR);
                }
            }
            let next = self.level_ptr(a, i);
            let curr_next = self.level_ptr(x + 1, i);
            self.swing_link(x + 1, i, curr_next, next);
            let ghost s1 = *self;
            let mut n = self.nodes[x].take().unwrap();
            if i == 0 {
                n.add_ref();
            } else {
                let _ = n.try_add_ref();
            }
            self.nodes.set(x, Some(n));
            let ghost s2 = *self;
            proof {
                if a != 0 {
                    assert(s2.nodes@[a - 1] == s0.nodes@[a - 1]);
                }
                assert(s2.link()(a, i as int) == next);
            }
            self.swing_link(a, i, next, x + 1);
            proof {
                let ov2 = Some((x, (i + 1) as nat));
                assert(self.rank() =~= rank0) by {
                    assert forall|n: usize| #[trigger] self.rank()(n) == rank0(n) by {
                        if n < self.nodes@.len() && self.nodes@[n as int] is Some {
                            assert(s0.nodes@[n as int] is Some);
                        }
                    }
                }
                assert forall|n: usize| n != x implies #[trigger] self.ht(ov2)(n) == s0.ht(ov)(n) by {
                    if n < self.nodes@.len() && self.nodes@[n as int] is Some {
                        assert(s0.nodes@[n as int] is Some);
                    }
                }
                assert forall|b: usize, l: int|
                    !(b == (x + 1) as usize && l == i) && !(b == a && l == i) implies #[trigger] self.link()(
                    b,
                    l,
                ) == s0.link()(b, l) by {
                    assert(s2.link()(b, l) == s1.link()(b, l));
                }
                assert(self.link()((x + 1) as usize, i as int) == next) by {
                    assert(s2.link()((x + 1) as usize, i as int) == s1.link()((x + 1) as usize, i as int));
                }
                lemma_add_level(
                    chain,
                    rank0,
                    s0.ht(ov),
                    s0.link(),
                    self.ht(ov2),
                    self.link(),
                    x,
                    i as int,
                    a,
                );
                assert forall|l: int| i + 1 <= l < HEIGHT implies #[trigger] prev_ok(
                    self.chain@,
                    self.rank(),
                    self.ht(ov2),
                    prev@[l],
                    l,
                    k,
                ) by {
                    assert(prev_ok(chain, rank0, s0.ht(ov), prev@[l], l, k));
                    if prev@[l] != 0 {
                        let q = choose|q: int| 0 <= q < chain.len() && chain[q] == (prev@[l] - 1) as usize;
                        assert(chain[q] < self.nodes@.len());
                    }
                    lemma_prev_keep(chain, chain, rank0, rank0, s0.ht(ov), self.ht(ov2), prev@[l], l, k);
                }
                assert forall|j: int| 0 <= j < chain.len() implies {
                    &&& #[trigger] chain[j] < self.nodes@.len()
                    &&& self.nodes@[chain[j] as int] is Some
                    &&& self.node_at(chain[j]).wf()
                } by {
                    assert(s0.node_at(chain[j]).wf());
                }
                assert forall|j: int|
                    0 <= j < chain.len() && !(ov2 is Some && chain[j] == ov2->Some_0.0) implies {
                    let n = #[trigger] self.node_at(chain[j]);
                    &&& n.spec_refs() == n.spec_height()
                    &&& !n.spec_removed()
                    &&& forall|l: int| 0 <= l < n.links().len() ==> #[trigger] n.links()[l].1 == 0
                } by {
                    let n0 = s0.node_at(chain[j]);
                    let n = self.node_at(chain[j]);
                    assert(chain[j] < self.nodes@.len());
                    if chain[j] == (a - 1) as usize && a != 0 {
                        assert forall|l: int| 0 <= l < n.links().len() implies #[trigger] n.links()[l].1 == 0 by {
                            assert(n0.links()[l].1 == 0);
                        }
                    }
                }
                assert forall|f: int| 0 <= f < self.free@.len() implies {
                    &&& #[trigger] self.free@[f] < self.nodes@.len()
                    &&& self.nodes@[self.free@[f] as int] is None
                } by {
                    assert(s0.nodes@[self.free@[f] as int] is None);
                }
                assert(forall|l: int| 0 <= l < h ==> #[trigger] self.node_at(x).links()[l].1 == 0);
                assert(self.shape_ok(ov2));
                assert forall|j: usize|
                    j < old(self).nodes@.len() && old(self).nodes@[j as int] is Some implies {
                        &&& #[trigger] self.node_at(j).key == old(self).node_at(j).key
                        &&& self.node_at(j).val == old(self).node_at(j).val
                    } by {
                    assert(s0.node_at(j).key == old(self).node_at(j).key);
                    assert(s1.node_at(j).key == s0.node_at(j).key);
                    assert(s2.node_at(j).key == s1.node_at(j).key);
                    assert(s1.node_at(j).val == s0.node_at(j).val);
                    assert(s2.node_at(j).val == s1.node_at(j).val);
                }
            }
            i += 1;
        }
        proof {
            assert(self.ht(Some((x, h as nat))) =~= self.ht(None));
        }
    }

    /// Flags node `x` removed and tags its levels for unlinking.
    fn mark_removed(&mut self, x: usize) -> (r: Result<(), ()>)
        requires
            old(self).wf(),
            old(self).chain@.contains(x),
        ensures
            r is Ok,
            final(self).inv(Some((x, old(self).node_at(x).spec_height()))),
            final(self).chain == old(self).chain,
            final(self).free == old(self).free,
            final(self).state == old(self).state,
            final(self).head == old(self).head,
            final(self).nodes@.len() == old(self).nodes@.len(),
            final(self).node_at(x).spec_height() == old(self).node_at(x).spec_height(),
            final(self).node_at(x).spec_removed(),
            final(self).node_at(x).key == old(self).node_at(x).key,
            final(self).node_at(x).val == old(self).node_at(x).val,
            forall|i: int|
                0 <= i < old(self).nodes@.len() && i != x ==> #[trigger] final(self).nodes@[i]
                    == old(self).nodes@[i],
            final(self)@ == old(self)@,
            final(self).rank() == old(self).rank(),
            final(self).ht(Some((x, old(self).node_at(x).spec_height()))) == old(self).ht(None),
            final(self).link() == old(self).link(),
            final(self).entries_kept(old(self), -1),
    {
        let ghost chain = self.chain@;
        let ghost px = choose|q: int| 0 <= q < chain.len() && chain[q] == x;
        proof {
            assert(chain[px] < self.nodes@.len());
        }
        let mut n = self.nodes[x].take().unwrap();
        let ghost n0 = n;
        let r = n.try_remove_and_tag();
        proof {
            assert(n.links().len() == n0.links().len());
            assert forall|l: int| 0 <= l < n.links().len() implies #[trigger] n.links()[l].0
                == n0.links()[l].0 by {
                assert(n.links()[l] == n0.links().map_values(|e: (usize, usize)| (e.0, 1usize))[l]);
            }
        }
        self.nodes.set(x, Some(n));
        proof {
            let h = n0.spec_height();
            let ov = Some((x, h));
            assert(self.rank() =~= old(self).rank());
            assert(self.ht(ov) =~= old(self).ht(None));
            assert forall|b: usize, l: int| #[trigger] self.link()(b, l) == old(self).link()(b, l) by {}
            assert(self.link() =~= old(self).link());
            assert forall|j: int|
                0 <= j < chain.len() && !(ov is Some && chain[j] == ov->Some_0.0) implies {
                let n = #[trigger] self.node_at(chain[j]);
                &&& n.spec_refs() == n.spec_height()
                &&& !n.spec_removed()
                &&& forall|l: int| 0 <= l < n.links().len() ==> #[trigger] n.links()[l].1 == 0
            } by {
                assert(chain[j] < self.nodes@.len());
                assert(old(self).node_at(chain[j]) == self.node_at(chain[j]));
            }
            assert forall|j: int| 0 <= j < chain.len() implies {
                &&& #[trigger] chain[j] < self.nodes@.len()
                &&& self.nodes@[chain[j] as int] is Some
                &&& self.node_at(chain[j]).wf()
            } by {
                assert(old(self).node_at(chain[j]).wf());
            }
            assert forall|f: int| 0 <= f < self.free@.len() implies {
                &&& #[trigger] self.free@[f] < self.nodes@.len()
                &&& self.nodes@[self.free@[f] as int] is None
            } by {
                assert(old(self).nodes@[self.free@[f] as int] is None);
            }
            assert(self.shape_ok(ov));
            assert(self@ =~= old(self)@);
            assert forall|j: usize| #![trigger self.nodes@[j as int]] j < self.nodes@.len() && j != -1 implies {
                &&& (self.nodes@[j as int] is Some <==> old(self).nodes@[j as int] is Some)
                &&& self.nodes@[j as int] is Some ==> {
                    &&& self.node_at(j).key == old(self).node_at(j).key
                    &&& self.node_at(j).val == old(self).node_at(j).val
                    &&& self.node_at(j).spec_height() == old(self).node_at(j).spec_height()
                }
            } by {
                if j != x {
                    assert(self.nodes@[j as int] == old(self).nodes@[j as int]);
                }
            }
        }
        r
    }

    /// Drops one reference of node `x`, which has left all levels above
    /// `i`. When none is left, the node leaves the chain, its slot goes
    /// back to the free list, and its key and value are returned.
    fn sub_ref(&mut self, x: usize, i: Ghost<nat>, px: Ghost<int>) -> (r: Option<(K, V)>)
        requires
            old(self).shape_at(Some((x, i@)), 1),
            towers_ok(old(self).chain@, old(self).rank(), old(self).ht(Some((x, i@))), old(self).link()),
            0 <= px@ < old(self).chain@.len(),
            old(self).chain@[px@] == x,
        ensures
            final(self).nodes@.len() == old(self).nodes@.len(),
            final(self).head == old(self).head,
            i@ > 0 ==> {
                &&& r is None
                &&& final(self).inv(Some((x, i@)))
                &&& final(self).chain == old(self).chain
                &&& final(self).nodes@.len() == old(self).nodes@.len()
                &&& forall|j: int|
                    0 <= j < old(self).nodes@.len() && j != x ==> #[trigger] final(self).nodes@[j]
                        == old(self).nodes@[j]
                &&& final(self).nodes@[x as int] is Some
                &&& final(self).node_at(x).key == old(self).node_at(x).key
                &&& final(self).node_at(x).val == old(self).node_at(x).val
                &&& final(self).node_at(x).levels == old(self).node_at(x).levels
                &&& final(self).node_at(x).spec_height() == old(self).node_at(x).spec_height()
                &&& final(self).node_at(x).spec_removed() == old(self).node_at(x).spec_removed()
                &&& final(self).head == old(self).head
                &&& final(self).state == old(self).state
            },
            i@ == 0 ==> {
                &&& r == Some((old(self).node_at(x).key, old(self).node_at(x).val))
                &&& final(self).wf()
                &&& final(self).chain@ == old(self).chain@.remove(px@)
                &&& forall|j: int|
                    0 <= j < old(self).nodes@.len() && j != x ==> #[trigger] final(self).nodes@[j]
                        == old(self).nodes@[j]
                &&& final(self).state.max_height == old(self).state.max_height
            },
    {
        let ghost chain = self.chain@;
        let mut n = self.nodes[x].take().unwrap();
        let refs = n.sub_ref();
        if refs == 0 {
            self.state.len = self.state.len - 1;
            self.free.push(x);
            proof {
                let ov = Some((x, 0nat));
                let chain2 = chain.remove(px@);
                self.chain = Ghost(chain2);
                let s1 = *old(self);
                assert forall|i: int, j: int| 0 <= i < j < chain2.len() implies s1.rank()(chain2[i]) < s1.rank()(chain2[j]) by {
                    if i >= px@ {
                        assert(chain2[i] == chain[i + 1]);
                    } else {
                        assert(chain2[i] == chain[i]);
                    }
                    if j >= px@ {
                        assert(chain2[j] == chain[j + 1]);
                    } else {
                        assert(chain2[j] == chain[j]);
                    }
                }
                assert forall|j2: int| 0 <= j2 < chain2.len() && #[trigger] s1.ht(ov)(chain2[j2]) > 0 implies chain.contains(chain2[j2]) by {
                    if j2 >= px@ {
                        assert(chain2[j2] == chain[j2 + 1]);
                    } else {
                        assert(chain2[j2] == chain[j2]);
                    }
                }
                assert forall|j: int| 0 <= j < chain.len() && #[trigger] s1.ht(ov)(chain[j]) > 0 implies chain2.contains(chain[j]) by {
                    assert(j != px@);
                    if j > px@ {
                        assert(chain2[j - 1] == chain[j]);
                    } else {
                        assert(chain2[j] == chain[j]);
                    }
                }
                assert forall|j2: int| 0 <= j2 < chain2.len() implies #[trigger] chain2[j2] < MAX_PTR by {
                    if j2 >= px@ {
                        assert(chain2[j2] == chain[j2 + 1]);
                    } else {
                        assert(chain2[j2] == chain[j2]);
                    }
                }
                lemma_chain_change(chain, chain2, s1.rank(), s1.ht(ov), s1.link());
                assert forall|j: int| 0 <= j < chain2.len() implies #[trigger] chain2[j] != x by {
                    if j >= px@ {
                        assert(chain2[j] == chain[j + 1]);
                        assert(s1.rank()(chain[px@]) < s1.rank()(chain[j + 1]));
                    } else {
                        assert(chain2[j] == chain[j]);
                        assert(s1.rank()(chain[j]) < s1.rank()(chain[px@]));
                    }
                }
                assert forall|j: int| 0 <= j < chain2.len() implies #[trigger] self.rank()(chain2[j]) == s1.rank()(chain2[j]) by {}
                assert forall|j: int| 0 <= j < chain2.len() implies #[trigger] self.ht(None)(chain2[j]) == s1.ht(ov)(chain2[j]) by {}
                assert forall|j: int, l: int| 0 <= j < chain2.len() && 0 <= l < HEIGHT implies #[trigger] self.link()(
                    (chain2[j] + 1) as usize,
                    l,
                ) == s1.link()((chain2[j] + 1) as usize, l) by {}
                assert forall|l: int| 0 <= l < HEIGHT implies #[trigger] self.link()(0, l) == s1.link()(0, l) by {}
                lemma_towers_agree(chain2, s1.rank(), s1.ht(ov), s1.link(), self.rank(), self.ht(None), self.link());
                assert forall|j: int| 0 <= j < chain2.len() implies {
                    &&& #[trigger] chain2[j] < self.nodes@.len()
                    &&& self.nodes@[chain2[j] as int] is Some
                    &&& self.node_at(chain2[j]).wf()
                } by {
                    if j >= px@ {
                        assert(chain2[j] == chain[j + 1]);
                    } else {
                        assert(chain2[j] == chain[j]);
                    }
                }
                assert forall|j: int| 0 <= j < chain2.len() implies {
                    let n = #[trigger] self.node_at(chain2[j]);
                    &&& n.spec_refs() == n.spec_height()
                    &&& !n.spec_removed()
                    &&& forall|l: int| 0 <= l < n.links().len() ==> #[trigger] n.links()[l].1 == 0
                } by {
                    if j >= px@ {
                        assert(chain2[j] == chain[j + 1]);
                    } else {
                        assert(chain2[j] == chain[j]);
                    }
                }
                assert forall|f: int| 0 <= f < self.free@.len() implies {
                    &&& #[trigger] self.free@[f] < self.nodes@.len()
                    &&& self.nodes@[self.free@[f] as int] is None
                } by {
                    if f < s1.free@.len() {
                        assert(s1.free@[f] == self.free@[f]);
                    }
                }
                assert forall|f: int| 0 <= f < s1.free@.len() implies #[trigger] s1.free@[f] != x by {
                    assert(s1.nodes@[s1.free@[f] as int] is None);
                }
                assert(self.free@.no_duplicates()) by {
                    assert forall|f: int, g: int| 0 <= f < g < self.free@.len() implies self.free@[f] != self.free@[g] by {
                        if g < s1.free@.len() {
                            assert(s1.free@[f] == self.free@[f]);
                            assert(s1.free@[g] == self.free@[g]);
                        } else {
                            assert(s1.free@[f] == self.free@[f]);
                        }
                    }
                }
                assert(self.shape_ok(None));
            }
            Some((n.key, n.val))
        } else {
            self.nodes.set(x, Some(n));
            proof {
                let ov = Some((x, i@));
                assert(self.rank() =~= old(self).rank());
                assert(self.ht(ov) =~= old(self).ht(ov));
                assert forall|b: usize, l: int| #[trigger] self.link()(b, l) == old(self).link()(b, l) by {}
                assert(self.link() =~= old(self).link());
                assert forall|j: int|
                    0 <= j < chain.len() && !(ov is Some && chain[j] == ov->Some_0.0) implies {
                    let n = #[trigger] self.node_at(chain[j]);
                    &&& n.spec_refs() == n.spec_height()
                    &&& !n.spec_removed()
                    &&& forall|l: int| 0 <= l < n.links().len() ==> #[trigger] n.links()[l].1 == 0
                } by {
                    assert(old(self).node_at(chain[j]) == self.node_at(chain[j]));
                }
                assert forall|j: int| 0 <= j < chain.len() implies {
                    &&& #[trigger] chain[j] < self.nodes@.len()
                    &&& self.nodes@[chain[j] as int] is Some
                    &&& self.node_at(chain[j]).wf()
                } by {
                    assert(old(self).node_at(chain[j]).wf());
                }
                assert forall|f: int| 0 <= f < self.free@.len() implies {
                    &&& #[trigger] self.free@[f] < self.nodes@.len()
                    &&& self.nodes@[self.free@[f] as int] is None
                } by {
                    assert(old(self).nodes@[self.free@[f] as int] is None);
                }
                assert(self.shape_ok(ov));
            }
            None
        }
    }

    /// Unlinks node `x` from `level` behind the tower at `a`: swings that
    /// tower's link from `x` to the next node of `x`, and drops the
    /// reference that the level held. Fails, changing nothing, when the
    /// link at `a` does not hold `x`. On success returns the new link, and
    /// the key and value of `x` when no reference is left.
    fn unlink_level(&mut self, a: usize, x: usize, level: usize, px: Ghost<int>) -> (r: Result<
        (usize, Option<(K, V)>),
        (),
    >)
        requires
            old(self).inv(Some((x, (level + 1) as nat))),
            0 <= px@ < old(self).chain@.len(),
            old(self).chain@[px@] == x,
            level < HEIGHT,
            a == 0 || (old(self).chain@.contains((a - 1) as usize) && old(self).ht(
                Some((x, (level + 1) as nat)),
            )((a - 1) as usize) > level),
        ensures
            old(self).link()(a, level as int) != (x + 1) as usize ==> r is Err && *final(self)
                == *old(self),
            old(self).link()(a, level as int) == (x + 1) as usize ==> {
                &&& r matches Ok((next, retired))
                &&& next == old(self).link()((x + 1) as usize, level as int)
                &&& final(self).link()(a, level as int) == next
                &&& final(self).entries_kept(old(self), x as int)
                &&& final(self).state.max_height == old(self).state.max_height
                &&& level > 0 ==> {
                    &&& retired is None
                    &&& final(self).inv(Some((x, level as nat)))
                    &&& final(self).chain == old(self).chain
                    &&& final(self).nodes@[x as int] is Some
                    &&& final(self).node_at(x).key == old(self).node_at(x).key
                    &&& final(self).node_at(x).val == old(self).node_at(x).val
                    &&& final(self).state.len == old(self).state.len
                }
                &&& level == 0 ==> {
                    &&& retired == Some((old(self).node_at(x).key, old(self).node_at(x).val))
                    &&& final(self).wf()
                    &&& final(self).chain@ == old(self).chain@.remove(px@)
                }
            },
    {
        let ghost chain = self.chain@;
        let ghost ov = Some((x, (level + 1) as nat));
        let ghost ov2 = Some((x, level as nat));
        proof {
            assert(chain[px@] < self.nodes@.len());
            assert(chain[px@] < MAX_PTR);
            self.node_at(x).lemma_links();
            assert(self.node_at(x).links()[level as int].0 <= MAX_PTR);
            if a != 0 {
                let q = choose|q: int| 0 <= q < chain.len() && chain[q] == (a - 1) as usize;
                assert(chain[q] < self.nodes@.len());
                assert(chain[q] < MAX_PTR);
                assert(self.node_at(chain[q]).wf());
            }
        }
        if self.level_ptr(a, level) != x + 1 {
            return Err(());
        }
        proof {
            if a != 0 {
                let q = choose|q: int| 0 <= q < chain.len() && chain[q] == (a - 1) as usize;
                if (a - 1) as usize == x {
                    assert(self.link()(a, level as int) == (x + 1) as usize);
                    assert(succ(chain, self.rank(), self.ht(ov), (chain[px@] + 1) as usize, level as int, self.link()(a, level as int)));
                }
            }
        }
        let (new_next, _tag) = self.node_ref(x).levels[level].load_decomposed();
        let ghost s0 = *self;
        self.swing_link(a, level, x + 1, new_next);
        proof {
            assert forall|n: usize| n != x implies #[trigger] self.ht(ov2)(n) == s0.ht(ov)(n) by {
                if n < self.nodes@.len() && self.nodes@[n as int] is Some {
                    assert(s0.nodes@[n as int] is Some);
                }
            }
            assert(self.rank() =~= s0.rank()) by {
                assert forall|n: usize| #[trigger] self.rank()(n) == s0.rank()(n) by {
                    if n < self.nodes@.len() && self.nodes@[n as int] is Some {
                        assert(s0.nodes@[n as int] is Some);
                    }
                }
            }
            assert(self.link()(a, level as int) == s0.link()((x + 1) as usize, level as int));
            lemma_drop_level(chain, s0.rank(), s0.ht(ov), s0.link(), self.ht(ov2), self.link(), x, level as int, a);
            assert forall|j: int| 0 <= j < chain.len() implies {
                &&& #[trigger] chain[j] < self.nodes@.len()
                &&& self.nodes@[chain[j] as int] is Some
                &&& self.node_at(chain[j]).wf()
            } by {
                assert(s0.node_at(chain[j]).wf());
            }
            assert forall|j: int|
                0 <= j < chain.len() && !(ov2 is Some && chain[j] == ov2->Some_0.0) implies {
                let n = #[trigger] self.node_at(chain[j]);
                &&& n.spec_refs() == n.spec_height()
                &&& !n.spec_removed()
                &&& forall|l: int| 0 <= l < n.links().len() ==> #[trigger] n.links()[l].1 == 0
            } by {
                let n0 = s0.node_at(chain[j]);
                let n = self.node_at(chain[j]);
                if a != 0 && chain[j] == (a - 1) as usize {
                    assert forall|l: int| 0 <= l < n.links().len() implies #[trigger] n.links()[l].1 == 0 by {
                        assert(n0.links()[l].1 == 0);
                    }
                }
            }
            assert forall|f: int| 0 <= f < self.free@.len() implies {
                &&& #[trigger] self.free@[f] < self.nodes@.len()
                &&& self.nodes@[self.free@[f] as int] is None
            } by {
                assert(s0.nodes@[self.free@[f] as int] is None);
            }
            assert(self.shape_at(ov2, 1));
        }
        let ghost s1 = *self;
        let retired = self.sub_ref(x, Ghost(level as nat), px);
        proof {
            assert(self.link()(a, level as int) == new_next) by {
                if a != 0 {
                    assert(self.nodes@[a - 1] == s1.nodes@[a - 1]);
                }
            }
            assert forall|j: usize| #![trigger self.nodes@[j as int]] j < self.nodes@.len() && j != x implies {
                &&& (self.nodes@[j as int] is Some <==> old(self).nodes@[j as int] is Some)
                &&& self.nodes@[j as int] is Some ==> {
                    &&& self.node_at(j).key == old(self).node_at(j).key
                    &&& self.node_at(j).val == old(self).node_at(j).val
                    &&& self.node_at(j).spec_height() == old(self).node_at(j).spec_height()
                }
            } by {
                assert(self.nodes@[j as int] == s1.nodes@[j as int]);
                if !(a != 0 && j == (a - 1) as usize) {
                    assert(s1.nodes@[j as int] == s0.nodes@[j as int]);
                }
            }
        }
        Ok((new_next, retired))
    }

    /// Unlinks the removed node `x`, still linked on its lowest `height`
    /// levels, from those levels top down, each behind the tower that
    /// `prev` gives. Returns its key and value once no level holds it. When
    /// a tower of `prev` does not link to `x`, stops with `Err(i)`: the
    /// levels from `i` up are unlinked and `x` stays linked on the lowest
    /// `i`. With the predecessors that a search finds it always succeeds.
    fn unlink(&mut self, x: usize, height: usize, prev: &Vec<usize>, px: Ghost<int>) -> (r: Result<
        (K, V),
        usize,
    >)
        requires
            old(self).inv(Some((x, height as nat))),
            0 <= px@ < old(self).chain@.len(),
            old(self).chain@[px@] == x,
            1 <= height,
            prev@.len() == HEIGHT,
            forall|l: int|
                0 <= l < height ==> #[trigger] prev@[l] == 0 || {
                    &&& old(self).chain@.contains((prev@[l] - 1) as usize)
                    &&& (prev@[l] - 1) as usize != x
                    &&& old(self).ht(Some((x, height as nat)))((prev@[l] - 1) as usize) > l
                },
        ensures
            (forall|l: int|
                0 <= l < height ==> #[trigger] prev_ok(
                    old(self).chain@,
                    old(self).rank(),
                    old(self).ht(Some((x, height as nat))),
                    prev@[l],
                    l,
                    old(self).rank()(x),
                )) ==> r is Ok,
            r matches Ok(kv) ==> {
                &&& kv == (old(self).node_at(x).key, old(self).node_at(x).val)
                &&& final(self).wf()
                &&& final(self).chain@ == old(self).chain@.remove(px@)
                &&& final(self).entries_kept(old(self), x as int)
                &&& final(self).state.max_height == old(self).state.max_height
            },
            r matches Err(i) ==> {
                &&& 1 <= i <= height
                &&& final(self).inv(Some((x, i as nat)))
                &&& final(self).link()(prev@[i - 1], i - 1) != (x + 1) as usize
                &&& final(self).chain == old(self).chain
                &&& final(self).entries_kept(old(self), x as int)
                &&& final(self).nodes@[x as int] is Some
                &&& final(self).node_at(x).key == old(self).node_at(x).key
                &&& final(self).node_at(x).val == old(self).node_at(x).val
                &&& final(self).state.len == old(self).state.len
                &&& final(self).state.max_height == old(self).state.max_height
            },
    {
        let ghost chain = self.chain@;
        let ghost rank0 = self.rank();
        let ghost k = rank0(x);
        let ghost ht0 = self.ht(Some((x, height as nat)));
        let ghost good = forall|l: int|
            0 <= l < height ==> #[trigger] prev_ok(chain, rank0, ht0, prev@[l], l, k);
        let mut i = height;
        proof {
            assert(chain[px@] < self.nodes@.len());
            assert(self.node_at(x).wf());
        }
        while i > 1
            invariant
                1 <= i <= height,
                height <= HEIGHT,
                self.inv(Some((x, i as nat))),
                self.chain@ == chain,
                0 <= px@ < chain.len(),
                chain[px@] == x,
                self.rank() == rank0,
                k == rank0(x),
                ht0 == old(self).ht(Some((x, height as nat))),
                old(self).inv(Some((x, height as nat))),
                chain == old(self).chain@,
                rank0 == old(self).rank(),
                good == forall|l: int|
                    0 <= l < height ==> #[trigger] prev_ok(chain, rank0, ht0, prev@[l], l, k),
                self.nodes@[x as int] is Some,
                self.node_at(x).key == old(self).node_at(x).key,
                self.node_at(x).val == old(self).node_at(x).val,
                self.entries_kept(old(self), x as int),
                self.state.len == old(self).state.len,
                self.state.max_height == old(self).state.max_height,
                prev@.len() == HEIGHT,
                forall|l: int|
                    0 <= l < height ==> #[trigger] prev@[l] == 0 || {
                        &&& chain.contains((prev@[l] - 1) as usize)
                        &&& (prev@[l] - 1) as usize != x
                        &&& ht0((prev@[l] - 1) as usize) > l
                    },
                good ==> forall|l: int|
                    0 <= l < i ==> #[trigger] prev_ok(
                        chain,
                        rank0,
                        self.ht(Some((x, i as nat))),
                        prev@[l],
                        l,
                        k,
                    ),
            decreases i,
        {
            let level = i - 1;
            let ghost s0 = *self;
            let a = prev[level];
            proof {
                let ov = Some((x, i as nat));
                self.lemma_valid_prev(old(self), x, height as nat, i as nat, a, level as int);
                if good {
                    assert(prev_ok(chain, rank0, self.ht(ov), a, level as int, k));
                    assert(chain.contains(x));
                    assert(self.ht(ov)(x) == i);
                    lemma_prev_targets(chain, rank0, self.ht(ov), self.link(), a, level as int, x);
                }
            }
            match self.unlink_level(a, x, level, px) {
                Err(()) => {
                    return Err(i);
                },
                Ok(_) => {},
            }
            proof {
                self.lemma_entries_rank(&s0, x);
                self.lemma_entries_trans(&s0, old(self), x as int);
                if good {
                    assert forall|l: int| 0 <= l < level implies #[trigger] prev_ok(
                        chain,
                        rank0,
                        self.ht(Some((x, level as nat))),
                        prev@[l],
                        l,
                        k,
                    ) by {
                        let ov = Some((x, i as nat));
                        assert(prev_ok(chain, rank0, s0.ht(ov), prev@[l], l, k));
                        assert forall|j2: int|
                            0 <= j2 < chain.len() && #[trigger] self.ht(Some((x, level as nat)))(chain[j2]) > l implies chain.contains(chain[j2])
                                && s0.ht(ov)(chain[j2]) > l && rank0(chain[j2]) == rank0(chain[j2]) by {
                            assert(chain[j2] < self.nodes@.len());
                            if chain[j2] != x {
                                assert(self.nodes@[chain[j2] as int] == self.nodes@[chain[j2] as int]);
                            }
                        }
                        if prev@[l] != 0 {
                            let q = choose|q: int| 0 <= q < chain.len() && chain[q] == (prev@[l] - 1) as usize;
                            assert(chain[q] < self.nodes@.len());
                            if chain[q] != x {
                                assert(self.nodes@[chain[q] as int] == self.nodes@[chain[q] as int]);
                            }
                        }
                        lemma_prev_keep(chain, chain, rank0, rank0, s0.ht(ov), self.ht(Some((x, level as nat))), prev@[l], l, k);
                    }
                }
            }
            i = level;
        }
        let ghost s0 = *self;
        let a = prev[0];
        proof {
            let ov = Some((x, 1nat));
            self.lemma_valid_prev(old(self), x, height as nat, 1, a, 0);
            if good {
                assert(prev_ok(chain, rank0, self.ht(ov), a, 0, k));
                assert(chain.contains(x));
                lemma_prev_targets(chain, rank0, self.ht(ov), self.link(), a, 0, x);
            }
        }
        match self.unlink_level(a, x, 0, px) {
            Err(()) => Err(1),
            Ok((_, retired)) => {
                proof {
                    self.lemma_entries_trans(&s0, old(self), x as int);
                }
                Ok(retired.unwrap())
            },
        }
    }

    /// A tower of `prev` that `unlink` may swing at `level` still takes part
    /// in that level.
    proof fn lemma_valid_prev(&self, before: &Self, x: usize, height: nat, i: nat, a: usize, level: int)
        requires
            self.inv(Some((x, i))),
            self.entries_kept(before, x as int),
            self.chain@ == before.chain@,
            0 <= level < i <= height,
            a == 0 || {
                &&& before.chain@.contains((a - 1) as usize)
                &&& (a - 1) as usize != x
                &&& before.ht(Some((x, height)))((a - 1) as usize) > level
            },
            before.inv(Some((x, height))),
        ensures
            a == 0 || (self.chain@.contains((a - 1) as usize) && self.ht(Some((x, i)))((a - 1) as usize) > level),
    {
        if a != 0 {
            let c = self.chain@;
            let q = choose|q: int| 0 <= q < c.len() && c[q] == (a - 1) as usize;
            assert(c[q] < self.nodes@.len());
            assert(before.chain@[q] < before.nodes@.len());
            assert(self.nodes@[(a - 1) as int] == self.nodes@[(a - 1) as int]);
        }
    }

    /// The view after node `chain[px]` left a list whose other entries
    /// stayed.
    proof fn lemma_view_removed(&self, before: &Self, px: int)
        requires
            before.wf(),
            0 <= px < before.chain@.len(),
            self.chain@ == before.chain@.remove(px),
            self.entries_kept(before, before.chain@[px] as int),
        ensures
            self@ == before@.remove(px),
    {
        let c = before.chain@;
        before.lemma_view();
        assert forall|j: int| 0 <= j < self.chain@.len() implies #[trigger] self@[j] == before@.remove(px)[j] by {
            let i = if j < px { j } else { j + 1 };
            assert(self.chain@[j] == c[i]);
            assert(c[i] < before.nodes@.len());
            if c[i] == c[px] {
                lemma_rank_unique(c, before.rank(), i, px);
            }
            assert(before.nodes@[c[i] as int] == before.nodes@[c[i] as int]);
            assert(self.nodes@[c[i] as int] == self.nodes@[c[i] as int]);
        }
        assert(self@ =~= before@.remove(px));
    }

    /// Removes node `x`, found at position `px` with the predecessors
    /// `prev`: flags it, tags its levels, unlinks it, and returns its entry.
    fn remove_node(&mut self, x: usize, prev: &Vec<usize>, px: Ghost<int>) -> (r: (K, V))
        requires
            old(self).wf(),
            0 <= px@ < old(self).chain@.len(),
            old(self).chain@[px@] == x,
            prev@.len() == HEIGHT,
            forall|l: int|
                0 <= l < HEIGHT ==> #[trigger] prev_ok(
                    old(self).chain@,
                    old(self).rank(),
                    old(self).ht(None),
                    prev@[l],
                    l,
                    old(self).rank()(x),
                ),
        ensures
            final(self).wf(),
            r == old(self)@[px@],
            final(self)@ == old(self)@.remove(px@),
            final(self).state.max_height == old(self).state.max_height,
    {
        let ghost s0 = *self;
        proof {
            self.lemma_view();
            assert(self.chain@[px@] < self.nodes@.len());
            assert(self.chain@.contains(x));
        }
        let _ = self.mark_removed(x);
        let height = self.node_ref(x).height();
        let ghost s1 = *self;
        proof {
            assert(s0.node_at(x).wf());
        }
        proof {
            let ov = Some((x, height as nat));
            assert forall|l: int| 0 <= l < height implies #[trigger] prev@[l] == 0 || {
                &&& self.chain@.contains((prev@[l] - 1) as usize)
                &&& (prev@[l] - 1) as usize != x
                &&& self.ht(ov)((prev@[l] - 1) as usize) > l
            } by {
                assert(prev_ok(s0.chain@, s0.rank(), s0.ht(None), prev@[l], l, s0.rank()(x)));
            }
        }
        let kv = self.unlink(x, height, prev, px).unwrap();
        proof {
            self.lemma_entries_trans(&s1, &s0, x as int);
            self.lemma_view_removed(&s0, px@);
        }
        kv
    }

    /// Adds a new node for `key` at position `p`, where no key equals it,
    /// after the predecessors `prev`.
    fn insert_new(&mut self, key: K, val: V, prev: &Vec<usize>, p: Ghost<int>)
        requires
            old(self).wf(),
            old(self)@.len() < MAX_LEN,
            0 <= p@ <= old(self)@.len(),
            forall|j: int| 0 <= j < p@ ==> #[trigger] old(self)@[j].0.rank() < key.rank(),
            forall|j: int| p@ <= j < old(self)@.len() ==> #[trigger] old(self)@[j].0.rank() > key.rank(),
            prev@.len() == HEIGHT,
            forall|l: int|
                0 <= l < HEIGHT ==> #[trigger] prev_ok(
                    old(self).chain@,
                    old(self).rank(),
                    old(self).ht(None),
                    prev@[l],
                    l,
                    key.rank(),
                ),
        ensures
            final(self).wf(),
            final(self)@ == old(self)@.insert(p@, (key, val)),
    {
        let ghost k = key.rank();
        let ghost pos = p@;
        proof {
            self.lemma_view();
        }
        let ghost s2 = *self;
        let height = self.gen_height();
        proof {
            assert(self.rank() == s2.rank());
            assert(self.ht(None) == s2.ht(None));
            assert(self.link() == s2.link());
            assert(self.shape_ok(None));
        }
        let node = Node::new(key, val, height);
        proof {
            assert forall|j: int| 0 <= j < pos implies self.rank()(#[trigger] self.chain@[j]) < node.key.rank() by {
                assert(self@[j].0.rank() == self.rank()(self.chain@[j]));
            }
            assert forall|j: int| pos <= j < self.chain@.len() implies self.rank()(#[trigger] self.chain@[j]) > node.key.rank() by {
                assert(self@[j].0.rank() == self.rank()(self.chain@[j]));
            }
        }
        let ghost s3 = *self;
        let x = self.place_node(node, p);
        proof {
            let ov = Some((x, 0nat));
            assert forall|l: int| 0 <= l < HEIGHT implies #[trigger] prev_ok(
                self.chain@,
                self.rank(),
                self.ht(ov),
                prev@[l],
                l,
                k,
            ) by {
                assert(prev_ok(s3.chain@, s3.rank(), s3.ht(None), prev@[l], l, k));
                let c = s3.chain@;
                let c2 = self.chain@;
                assert forall|j2: int| 0 <= j2 < c2.len() && #[trigger] self.ht(ov)(c2[j2]) > l implies c.contains(c2[j2])
                    && s3.ht(None)(c2[j2]) > l && self.rank()(c2[j2]) == s3.rank()(c2[j2]) by {
                    if j2 < pos {
                        assert(c2[j2] == c[j2]);
                    } else if j2 > pos {
                        assert(c2[j2] == c[j2 - 1]);
                    }
                    assert(c.contains(c2[j2]));
                }
                let a = prev@[l];
                if a != 0 {
                    let q = choose|q: int| 0 <= q < c.len() && c[q] == (a - 1) as usize;
                    assert(self.node_at(c[q]) == s3.node_at(c[q]));
                    if q < pos {
                        assert(c2[q] == c[q]);
                    } else {
                        assert(c2[q + 1] == c[q]);
                    }
                }
                lemma_prev_keep(c, c2, s3.rank(), self.rank(), s3.ht(None), self.ht(ov), a, l, k);
            }
            assert(self@ =~= s3@.insert(pos, (key, val))) by {
                assert forall|j: int| 0 <= j < self@.len() implies #[trigger] self@[j] == s3@.insert(pos, (key, val))[j] by {
                    if j < pos {
                        assert(self.chain@[j] == s3.chain@[j]);
                    } else if j > pos {
                        assert(self.chain@[j] == s3.chain@[j - 1]);
                    }
                }
            }
        }
        let ghost s4 = *self;
        self.link_nodes(x, prev, 0);
        proof {
            assert(self@ =~= s4@) by {
                assert forall|j: int| 0 <= j < self@.len() implies #[trigger] self@[j] == s4@[j] by {
                    assert(s4.chain@[j] < s4.nodes@.len());
                }
            }
        }
    }

    /// Removes the entry with `key`, returning it, if there is one.
    pub fn remove(&mut self, key: &K) -> (r: Option<(K, V)>)
        requires
            old(self).wf(),
        ensures
            final(self).wf(),
            r == found(old(self)@, *key),
            final(self)@ == removed(old(self)@, *key),
    {
        let sr = self.find(key);
        match sr.target {
            None => None,
            Some(t) => {
                proof {
                    self.lemma_view();
                    assert(self.rank()(self.chain@[sr.pos@]) == key.rank());
                }
                Some(self.remove_node(t - 1, &sr.prev, sr.pos))
            },
        }
    }

    /// Inserts `val` under `key`. An entry with an equal key is replaced,
    /// and returned.
    pub fn insert(&mut self, key: K, val: V) -> (r: Option<(K, V)>)
        requires
            old(self).wf(),
            old(self)@.len() < MAX_LEN,
        ensures
            final(self).wf(),
            r == found(old(self)@, key),
            final(self)@ == inserted(old(self)@, key, val),
    {
        let ghost k = key.rank();
        let ghost p = lower_bound(self@, k);
        let ghost s0 = *self;
        proof {
            self.lemma_view();
        }
        let mut sr = self.find(&key);
        let mut existing: Option<(K, V)> = None;
        if let Some(t) = sr.target {
            proof {
                assert(self.rank()(self.chain@[sr.pos@]) == k);
            }
            existing = Some(self.remove_node(t - 1, &sr.prev, sr.pos));
            sr = self.find(&key);
            proof {
                self.lemma_view();
                let q = sr.pos@;
                if q < p {
                    assert(self@[q] == s0@[q]);
                }
                if q > p {
                    assert(self@[p] == s0@[p + 1]);
                    assert(s0@[p].0.rank() < s0@[p + 1].0.rank());
                }
            }
        }
        proof {
            self.lemma_view();
            assert(sr.pos@ == p);
            assert forall|j: int| p <= j < self@.len() implies #[trigger] self@[j].0.rank() > k by {
                if self@[j].0.rank() == k {
                    if existing is Some {
                        assert(self@[j] == s0@[j + 1]);
                        assert(s0@[p].0.rank() < s0@[j + 1].0.rank());
                    } else {
                        if j > p {
                            assert(self@[p].0.rank() < self@[j].0.rank());
                        }
                        K::lemma_rank_injective(&self@[p].0, &key);
                    }
                }
            }
        }
        self.insert_new(key, val, &sr.prev, sr.pos);
        proof {
            if existing is Some {
                assert(self@ =~= s0@.update(p, (key, val)));
            }
        }
        existing
    }

    fn entry_at<'a>(&'a self, i: usize) -> (r: Entry<'a, K, V>)
        requires
            i < self.nodes@.len(),
            self.nodes@[i as int] is Some,
        ensures
            r.shows((self.node_at(i).key, self.node_at(i).val)),
    {
        let n = self.node_ref(i);
        Entry { key: &n.key, val: &n.val }
    }

    /// The address of the node after the one at address `at` (0 for the
    /// head), or 0 at the end.
    fn next_node(&self, at: usize, j: Ghost<int>) -> (r: usize)
        requires
            self.wf(),
            -1 <= j@ < self.chain@.len(),
            j@ == -1 ==> at == 0,
            j@ >= 0 ==> at == self.chain@[j@] + 1,
        ensures
            r == if j@ + 1 < self.chain@.len() {
                (self.chain@[j@ + 1] + 1) as usize
            } else {
                0usize
            },
            j@ + 1 < self.chain@.len() ==> r - 1 < self.nodes@.len() && self.nodes@[r - 1] is Some,
    {
        proof {
            self.lemma_view();
            lemma_level0(self.chain@, self.rank(), self.ht(None), self.link(), j@);
            if j@ >= 0 {
                assert(self.chain@[j@] < self.nodes@.len());
            }
            if j@ + 1 < self.chain@.len() {
                assert(self.chain@[j@ + 1] < self.nodes@.len());
            }
        }
        self.level_ptr(at, 0)
    }

    /// The entry with `key`, if there is one.
    pub fn get<'a>(&'a self, key: &K) -> (r: Option<Entry<'a, K, V>>)
        requires
            self.wf(),
        ensures
            found(self@, *key) matches Some(kv) ==> (r matches Some(e) && e.shows(kv)),
            found(self@, *key) is None ==> r is None,
    {
        proof {
            self.lemma_view();
        }
        if self.is_empty() {
            return None;
        }
        let sr = self.find(key);
        match sr.target {
            Some(t) => {
                proof {
                    assert(self.chain@[sr.pos@] < self.nodes@.len());
                }
                Some(self.entry_at(t - 1))
            },
            None => None,
        }
    }

    /// The entry with the smallest key, if the list is not empty.
    pub fn get_first<'a>(&'a self) -> (r: Option<Entry<'a, K, V>>)
        requires
            self.wf(),
        ensures
            self@.len() > 0 ==> (r matches Some(e) && e.shows(self@[0])),
            self@.len() == 0 ==> r is None,
    {
        proof {
            self.lemma_view();
        }
        if self.is_empty() {
            return None;
        }
        let first = self.next_node(0, Ghost(-1));
        Some(self.entry_at(first - 1))
    }

    /// The entry with the largest key, if the list is not empty. Walks the
    /// bottom level.
    pub fn get_last<'a>(&'a self) -> (r: Option<Entry<'a, K, V>>)
        requires
            self.wf(),
        ensures
            self@.len() > 0 ==> (r matches Some(e) && e.shows(self@[self@.len() - 1])),
            self@.len() == 0 ==> r is None,
    {
        proof {
            self.lemma_view();
        }
        if self.is_empty() {
            return None;
        }
        let mut curr = self.next_node(0, Ghost(-1));
        let ghost mut j: int = 0;
        loop
            invariant
                self.wf(),
                0 <= j < self.chain@.len(),
                curr == self.chain@[j] + 1,
                self@.len() == self.chain@.len(),
            ensures
                j == self.chain@.len() - 1,
                curr == self.chain@[j] + 1,
            decreases self.chain@.len() - j,
        {
            let next = self.next_node(curr, Ghost(j));
            if next == 0 {
                break;
            }
            curr = next;
            proof {
                j = j + 1;
            }
        }
        proof {
            self.lemma_view();
            assert(self.chain@[j] < self.nodes@.len());
        }
        Some(self.entry_at(curr - 1))
    }

    /// Removes and returns the entry with the smallest key, if any.
    pub fn pop_first(&mut self) -> (r: Option<(K, V)>)
        requires
            old(self).wf(),
        ensures
            final(self).wf(),
            old(self)@.len() > 0 ==> r == Some(old(self)@[0]) && final(self)@ == old(self)@.remove(0),
            old(self)@.len() == 0 ==> r is None && final(self)@ == old(self)@,
    {
        proof {
            self.lemma_view();
        }
        if self.is_empty() {
            return None;
        }
        let first = self.next_node(0, Ghost(-1));
        self.pop_at(first, Ghost(0))
    }

    /// Removes and returns the entry with the largest key, if any.
    pub fn pop_last(&mut self) -> (r: Option<(K, V)>)
        requires
            old(self).wf(),
        ensures
            final(self).wf(),
            old(self)@.len() > 0 ==> r == Some(old(self)@[old(self)@.len() - 1]) && final(self)@
                == old(self)@.remove(old(self)@.len() - 1),
            old(self)@.len() == 0 ==> r is None && final(self)@ == old(self)@,
    {
        proof {
            self.lemma_view();
        }
        if self.is_empty() {
            return None;
        }
        let mut curr = self.next_node(0, Ghost(-1));
        let ghost mut j: int = 0;
        loop
            invariant
                self.wf(),
                0 <= j < self.chain@.len(),
                curr == self.chain@[j] + 1,
            ensures
                j == self.chain@.len() - 1,
                curr == self.chain@[j] + 1,
            decreases self.chain@.len() - j,
        {
            let next = self.next_node(curr, Ghost(j));
            if next == 0 {
                break;
            }
            curr = next;
            proof {
                j = j + 1;
            }
        }
        self.pop_at(curr, Ghost(j))
    }

    /// Removes the node at address `at`, position `j`, found again by its
    /// key.
    fn pop_at(&mut self, at: usize, j: Ghost<int>) -> (r: Option<(K, V)>)
        requires
            old(self).wf(),
            0 <= j@ < old(self).chain@.len(),
            at == old(self).chain@[j@] + 1,
        ensures
            final(self).wf(),
            r == Some(old(self)@[j@]),
            final(self)@ == old(self)@.remove(j@),
    {
        proof {
            self.lemma_view();
            assert(self.chain@[j@] < self.nodes@.len());
        }
        let sr = {
            let n = self.node_ref(at - 1);
            self.find(&n.key)
        };
        proof {
            let p = sr.pos@;
            let k = self.rank()(self.chain@[j@]);
            assert(self@[j@].0.rank() == k);
            if p < j@ {
                assert(self@[p].0.rank() < self@[j@].0.rank());
            }
            if p > j@ {
                assert(self@[j@].0.rank() >= k);
            }
            assert(p == j@);
        }
        Some(self.remove_node(at - 1, &sr.prev, j))
    }

    /// A borrowing iterator over the entries, in key order.
    pub fn iter<'a>(&'a self) -> (r: Iter<'a, K, V>)
        requires
            self.wf(),
        ensures
            r.wf(),
            r.remaining() == self@,
    {
        Iter::from_list(self)
    }

    /// An owning iterator over the entries, in key order.
    pub fn into_iter(self) -> (r: IntoIter<K, V>)
        requires
            self.wf(),
        ensures
            r.wf(),
            r.remaining() == self@,
    {
        IntoIter::from_list(self)
    }

    /// A list of the pairs of `pairs`, put in turn: a later pair replaces
    /// an earlier one with an equal key.
    pub fn from_iter(pairs: Vec<(K, V)>) -> (r: Self)
        requires
            pairs@.len() < MAX_LEN,
        ensures
            r.wf(),
            r@ == inserted_all(pairs@),
    {
        let ghost ps = pairs@;
        let mut rest = pairs;
        let mut rev: Vec<(K, V)> = Vec::new();
        while rest.len() > 0
            invariant
                rest@.len() <= ps.len(),
                rest@ == ps.subrange(0, rest@.len() as int),
                rev@ == ps.subrange(rest@.len() as int, ps.len() as int).reverse(),
            decreases rest@.len(),
        {
            let kv = rest.pop().unwrap();
            rev.push(kv);
            assert(rev@ =~= ps.subrange(rest@.len() as int, ps.len() as int).reverse());
        }
        let mut list = Self::new();
        proof {
            list.lemma_fresh();
            assert(ps.subrange(0, 0) =~= Seq::<(K, V)>::empty());
        }
        let ghost mut done: int = 0;
        while rev.len() > 0
            invariant
                list.wf(),
                0 <= done <= ps.len(),
                ps.len() < MAX_LEN,
                rev@ == ps.subrange(done, ps.len() as int).reverse(),
                list@ == inserted_all(ps.subrange(0, done)),
                list@.len() <= done,
            decreases rev@.len(),
        {
            let ghost before = rev@;
            let (k, v) = rev.pop().unwrap();
            let ghost prior = list@;
            proof {
                assert(before[before.len() - 1] == ps[done]);
                list.lemma_sorted();
                crate::laws::lemma_lower_bound_split(prior, k.rank());
            }
            list.insert(k, v);
            proof {
                assert(ps.subrange(0, done + 1).drop_last() =~= ps.subrange(0, done));
                done = done + 1;
                assert(rev@ =~= ps.subrange(done, ps.len() as int).reverse());
            }
        }
        proof {
            assert(ps.subrange(0, done) =~= ps);
        }
        list
    }

    /// Searches for `key`, keeping the last tower before it at each level.
    fn find(&self, key: &K) -> (r: SearchResult)
        requires
            self.wf(),
        ensures
            r.prev@.len() == HEIGHT,
            forall|l: int|
                0 <= l < HEIGHT ==> #[trigger] prev_ok(
                    self.chain@,
                    self.rank(),
                    self.ht(None),
                    r.prev@[l],
                    l,
                    key.rank(),
                ),
            0 <= r.pos@ <= self@.len(),
            r.pos@ == lower_bound(self@, key.rank()),
            forall|j: int| 0 <= j < r.pos@ ==> #[trigger] self@[j].0.rank() < key.rank(),
            forall|j: int| r.pos@ <= j < self@.len() ==> #[trigger] self@[j].0.rank() >= key.rank(),
            r.target == if key_at(self@, r.pos@, *key) {
                Some((self.chain@[r.pos@] + 1) as usize)
            } else {
                None::<usize>
            },
    {
        let ghost chain = self.chain@;
        let ghost rank = self.rank();
        let ghost ht = self.ht(None);
        let ghost link = self.link();
        let ghost k = key.rank();
        proof {
            self.lemma_view();
        }
        let mut prev: Vec<usize> = Vec::new();
        let mut i: usize = 0;
        while i < HEIGHT
            invariant
                i <= HEIGHT,
                prev@.len() == i,
                forall|l: int| 0 <= l < i ==> #[trigger] prev@[l] == 0,
            decreases HEIGHT - i,
        {
            prev.push(0);
            i += 1;
        }
        let mut level = self.state.max_height;
        while level > 1 && self.head.levels[level - 1].load_ptr() == 0
            invariant
                self.wf(),
                1 <= level <= HEIGHT,
                forall|l: int| level <= l < HEIGHT ==> #[trigger] self.head.levels@[l].ptr() == 0,
            decreases level,
        {
            level -= 1;
        }
        proof {
            assert forall|l: int| level <= l < HEIGHT implies #[trigger] prev_ok(
                chain,
                rank,
                ht,
                prev@[l],
                l,
                k,
            ) by {
                assert(succ(chain, rank, ht, 0, l, link(0, l)));
                assert(link(0, l) == 0);
            }
        }
        let mut curr: usize = 0;
        let ghost mut pc: int = -1;
        while level > 0
            invariant
                self.wf(),
                chain == self.chain@,
                rank == self.rank(),
                ht == self.ht(None),
                link == self.link(),
                k == key.rank(),
                level <= HEIGHT,
                prev@.len() == HEIGHT,
                -1 <= pc < chain.len(),
                pc == -1 ==> curr == 0,
                pc >= 0 ==> {
                    &&& curr == chain[pc] + 1
                    &&& ht(chain[pc]) >= level
                    &&& rank(chain[pc]) < k
                },
                forall|l: int| level <= l < HEIGHT ==> #[trigger] prev_ok(chain, rank, ht, prev@[l], l, k),
            decreases level, chain.len() - pc,
        {
            proof {
                if pc >= 0 {
                    assert(chain[pc] < MAX_PTR);
                    assert(chain.contains(chain[pc]));
                }
                lemma_prev_link(chain, rank, ht, link, curr, level - 1);
            }
            let next = self.level_ptr(curr, level - 1);
            let mut advance = false;
            if next != 0 {
                proof {
                    let q = choose|q: int| 0 <= q < chain.len() && chain[q] == (next - 1) as usize;
                    assert(chain[q] < self.nodes@.len());
                }
                let n = self.node_ref(next - 1);
                if let Ordering::Less = n.key.compare(key) {
                    advance = true;
                }
            }
            if advance {
                proof {
                    let q = choose|q: int| 0 <= q < chain.len() && chain[q] == (next - 1) as usize;
                    if pc >= 0 && q <= pc {
                        if q < pc {
                            assert(rank(chain[q]) < rank(chain[pc]));
                        }
                    }
                    pc = q;
                }
                curr = next;
            } else {
                proof {
                    if pc >= 0 {
                        assert(chain.contains(chain[pc]));
                    }
                }
                prev.set(level - 1, curr);
                level -= 1;
            }
        }
        let p0 = prev[0];
        let ghost mut pos: int = 0;
        proof {
            assert(prev_ok(chain, rank, ht, prev@[0], 0, k));
            pos = lemma_prev0(chain, rank, ht, link, p0, k);
            assert forall|j: int| 0 <= j < pos implies #[trigger] self@[j].0.rank() < k by {
                assert(rank(chain[j]) < k);
            }
            assert forall|j: int| pos <= j < self@.len() implies #[trigger] self@[j].0.rank() >= k by {
                assert(rank(chain[j]) >= k);
            }
            lemma_lower_bound(self@, k, pos);
            if p0 != 0 {
                assert(chain[pos - 1] < MAX_PTR);
                assert(ht(chain[pos - 1]) > 0);
            }
        }
        let next = self.level_ptr(p0, 0);
        let mut target: Option<usize> = None;
        if next != 0 {
            proof {
                assert(chain[pos] < self.nodes@.len());
            }
            let n = self.node_ref(next - 1);
            if let Ordering::Equal = n.key.compare(key) {
                if !n.removed() {
                    target = Some(next);
                }
            }
            proof {
                if n.key == *key {
                    assert(n.key.rank() == k);
                } else if n.key.rank() == k {
                    K::lemma_rank_injective(&n.key, key);
                }
            }
        }
        SearchResult { prev, target, pos: Ghost(pos) }
    }
}

impl<K: SkipKey, V> Default for SkipList<K, V> {
    fn default() -> (r: Self)
        ensures
            r.wf(),
            r@ == Seq::<(K, V)>::empty(),
    {
        let r = Self::new();
        proof {
            r.lemma_fresh();
        }
        r
    }
}

/// A borrowing iterator over the entries of a list, in key order.
pub struct Iter<'a, K, V> {
    list: &'a SkipList<K, V>,
    next: usize,
    pos: Ghost<int>,
}

impl<'a, K: SkipKey, V> Iter<'a, K, V> {
    pub closed spec fn wf(&self) -> bool {
        &&& self.list.wf()
        &&& 0 <= self.pos@ <= self.list.chain@.len()
        &&& self.next == if self.pos@ < self.list.chain@.len() {
            (self.list.chain@[self.pos@] + 1) as usize
        } else {
            0usize
        }
    }

    /// The entries still to come.
    pub closed spec fn remaining(&self) -> Seq<(K, V)> {
        self.list@.subrange(self.pos@, self.list@.len() as int)
    }

    pub fn from_list(list: &'a SkipList<K, V>) -> (r: Self)
        requires
            list.wf(),
        ensures
            r.wf(),
            r.remaining() == list@,
    {
        proof {
            list.lemma_view();
        }
        let next = list.next_node(0, Ghost(-1));
        let r = Iter { list, next, pos: Ghost(0) };
        assert(r.remaining() =~= list@);
        r
    }

    /// The next entry, if any.
    pub fn next(&mut self) -> (r: Option<Entry<'a, K, V>>)
        requires
            old(self).wf(),
        ensures
            final(self).wf(),
            old(self).remaining().len() == 0 ==> r is None && final(self).remaining() == old(
                self,
            ).remaining(),
            old(self).remaining().len() > 0 ==> {
                &&& r matches Some(e) && e.shows(old(self).remaining()[0])
                &&& final(self).remaining() == old(self).remaining().drop_first()
            },
    {
        proof {
            self.list.lemma_view();
        }
        if self.next == 0 {
            return None;
        }
        let at = self.next;
        let list = self.list;
        proof {
            assert(list.chain@[self.pos@] < list.nodes@.len());
        }
        self.next = list.next_node(at, Ghost(self.pos@));
        let e = list.entry_at(at - 1);
        let ghost p = self.pos@;
        self.pos = Ghost(p + 1);
        assert(self.remaining() =~= old(self).remaining().drop_first());
        Some(e)
    }
}

/// An owning iterator over the entries of a list, in key order.
pub struct IntoIter<K, V> {
    nodes: Vec<Option<Node<K, V>>>,
    next: usize,
    chain: Ghost<Seq<usize>>,
    pos: Ghost<int>,
}

impl<K: SkipKey, V> IntoIter<K, V> {
    pub closed spec fn wf(&self) -> bool {
        let c = self.chain@;
        &&& 0 <= self.pos@ <= c.len()
        &&& c.no_duplicates()
        &&& forall|j: int|
            self.pos@ <= j < c.len() ==> {
                &&& #[trigger] c[j] < self.nodes@.len()
                &&& c[j] < MAX_PTR
                &&& self.nodes@[c[j] as int] is Some
                &&& self.nodes@[c[j] as int]->Some_0.wf()
                &&& self.nodes@[c[j] as int]->Some_0.links()[0].0 == if j + 1 < c.len() {
                    (c[j + 1] + 1) as usize
                } else {
                    0usize
                }
            }
        &&& self.next == if self.pos@ < c.len() {
            (c[self.pos@] + 1) as usize
        } else {
            0usize
        }
    }

    /// The entries still to come.
    pub closed spec fn remaining(&self) -> Seq<(K, V)> {
        self.chain@.subrange(self.pos@, self.chain@.len() as int).map_values(
            |i: usize| (self.nodes@[i as int]->Some_0.key, self.nodes@[i as int]->Some_0.val),
        )
    }

    /// Takes the entries of `list`, detaching them from its head.
    pub fn from_list(list: SkipList<K, V>) -> (r: Self)
        requires
            list.wf(),
        ensures
            r.wf(),
            r.remaining() == list@,
    {
        proof {
            list.lemma_view();
        }
        let next = list.next_node(0, Ghost(-1));
        let ghost c = list.chain@;
        proof {
            assert forall|j: int| 0 <= j < c.len() implies {
                &&& #[trigger] c[j] < list.nodes@.len()
                &&& c[j] < MAX_PTR
                &&& list.nodes@[c[j] as int] is Some
                &&& list.nodes@[c[j] as int]->Some_0.wf()
                &&& list.nodes@[c[j] as int]->Some_0.links()[0].0 == if j + 1 < c.len() {
                    (c[j + 1] + 1) as usize
                } else {
                    0usize
                }
            } by {
                assert(c[j] < list.nodes@.len());
                assert(c[j] < MAX_PTR);
                lemma_level0(c, list.rank(), list.ht(None), list.link(), j);
                list.node_at(c[j]).lemma_links();
            }
            assert forall|i: int, j: int| 0 <= i < j < c.len() implies c[i] != c[j] by {
                assert(list.rank()(c[i]) < list.rank()(c[j]));
            }
        }
        let r = IntoIter { nodes: list.nodes, next, chain: Ghost(c), pos: Ghost(0) };
        assert(r.remaining() =~= list@);
        r
    }

    /// The next entry, moved out, if any.
    pub fn next(&mut self) -> (r: Option<(K, V)>)
        requires
            old(self).wf(),
        ensures
            final(self).wf(),
            old(self).remaining().len() == 0 ==> r is None && final(self).remaining() == old(
                self,
            ).remaining(),
            old(self).remaining().len() > 0 ==> {
                &&& r == Some(old(self).remaining()[0])
                &&& final(self).remaining() == old(self).remaining().drop_first()
            },
    {
        let ghost c = self.chain@;
        let ghost p = self.pos@;
        proof {
            if p < c.len() {
                assert(c[p] < self.nodes@.len());
            }
        }
        if self.next == 0 {
            return None;
        }
        let at = self.next;
        let n = self.nodes[at - 1].take().unwrap();
        proof {
            n.lemma_links();
        }
        self.next = n.levels[0].load_ptr();
        self.pos = Ghost(p + 1);
        proof {
            assert forall|j: int| p + 1 <= j < c.len() implies #[trigger] self.nodes@[c[j] as int] == old(
                self,
            ).nodes@[c[j] as int] by {
                assert(c[j] != c[p]);
            }
            assert(self.remaining() =~= old(self).remaining().drop_first());
        }
        Some((n.key, n.val))
    }
}

} // verus!
