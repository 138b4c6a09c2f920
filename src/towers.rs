//! The shape of a skip list as mathematics: the level-0 order of the nodes
//! (`chain`, by arena index), the order of their keys (`rank`), the number
//! of levels each takes part in (`ht`), and the link held at each address
//! and level (`link`; address 0 is the head and the null pointer, address
//! `i + 1` is the node at arena index `i`).
//!
//! At every level, each tower's link points at the nearest later node that
//! is tall enough for that level, or is null when there is none.

use vstd::prelude::*;
use crate::node::HEIGHT;
use crate::tagged::MAX_PTR;

verus! {


/// Keys strictly increase along the chain.
pub open spec fn sorted_by(chain: Seq<usize>, rank: spec_fn(usize) -> int) -> bool {
    forall|i: int, j: int| 0 <= i < j < chain.len() ==> rank(chain[i]) < rank(chain[j])
}

/// A key of rank `r` lies after the tower at address `a`.
pub open spec fn after(rank: spec_fn(usize) -> int, a: usize, r: int) -> bool {
    a == 0 || r > rank((a - 1) as usize)
}

/// `p` is the right link for the tower at address `a` at level `l`: the
/// nearest node after `a` that takes part in level `l`, or null.
pub open spec fn succ(
    chain: Seq<usize>,
    rank: spec_fn(usize) -> int,
    ht: spec_fn(usize) -> nat,
    a: usize,
    l: int,
    p: usize,
) -> bool {
    if p == 0 {
        forall|j: int|
            0 <= j < chain.len() && #[trigger] ht(chain[j]) > l ==> !after(rank, a, rank(chain[j]))
    } else {
        &&& chain.contains((p - 1) as usize)
        &&& ht((p - 1) as usize) > l
        &&& after(rank, a, rank((p - 1) as usize))
        &&& forall|j: int|
            0 <= j < chain.len() && #[trigger] ht(chain[j]) > l && after(rank, a, rank(chain[j]))
                ==> rank(chain[j]) >= rank((p - 1) as usize)
    }
}

/// Every link of the head and of every tower in the chain is right.
pub open spec fn towers_ok(
    chain: Seq<usize>,
    rank: spec_fn(usize) -> int,
    ht: spec_fn(usize) -> nat,
    link: spec_fn(usize, int) -> usize,
) -> bool {
    &&& sorted_by(chain, rank)
    &&& forall|l: int| 0 <= l < HEIGHT ==> #[trigger] succ(chain, rank, ht, 0, l, link(0, l))
    &&& forall|j: int, l: int|
        0 <= j < chain.len() && 0 <= l < ht(chain[j]) ==> #[trigger] succ(
            chain,
            rank,
            ht,
            (chain[j] + 1) as usize,
            l,
            link((chain[j] + 1) as usize, l),
        )
    &&& forall|j: int| 0 <= j < chain.len() ==> #[trigger] ht(chain[j]) <= HEIGHT
    &&& forall|j: int| 0 <= j < chain.len() ==> #[trigger] chain[j] < MAX_PTR
}

/// The tower at address `a` may precede a key of rank `k` at level `l`:
/// it is the head or a tower of that level before `k`, and no node of
/// that level lies between it and `k`.
pub open spec fn prev_ok(
    chain: Seq<usize>,
    rank: spec_fn(usize) -> int,
    ht: spec_fn(usize) -> nat,
    a: usize,
    l: int,
    k: int,
) -> bool {
    &&& a == 0 || (chain.contains((a - 1) as usize) && ht((a - 1) as usize) > l && rank(
        (a - 1) as usize,
    ) < k)
    &&& forall|j: int|
        0 <= j < chain.len() && #[trigger] ht(chain[j]) > l && after(rank, a, rank(chain[j]))
            ==> rank(chain[j]) >= k
}

/// Two positions of a sorted chain with equal ranks are one position.
pub proof fn lemma_rank_unique(chain: Seq<usize>, rank: spec_fn(usize) -> int, i: int, j: int)
    requires
        sorted_by(chain, rank),
        0 <= i < chain.len(),
        0 <= j < chain.len(),
        rank(chain[i]) == rank(chain[j]),
    ensures
        i == j,
{
    if i < j {
        assert(rank(chain[i]) < rank(chain[j]));
    } else if j < i {
        assert(rank(chain[j]) < rank(chain[i]));
    }
}

/// Node `x` of the chain, of rank `k`, joins level `i` right after `a`.
pub proof fn lemma_add_level(
    chain: Seq<usize>,
    rank: spec_fn(usize) -> int,
    ht: spec_fn(usize) -> nat,
    link: spec_fn(usize, int) -> usize,
    ht2: spec_fn(usize) -> nat,
    link2: spec_fn(usize, int) -> usize,
    x: usize,
    i: int,
    a: usize,
)
    requires
        towers_ok(chain, rank, ht, link),
        chain.contains(x),
        ht(x) == i,
        0 <= i < HEIGHT,
        prev_ok(chain, rank, ht, a, i, rank(x)),
        forall|n: usize| n != x ==> #[trigger] ht2(n) == ht(n),
        ht2(x) == i + 1,
        link2((x + 1) as usize, i) == link(a, i),
        link2(a, i) == (x + 1) as usize,
        forall|b: usize, l: int|
            !(b == (x + 1) as usize && l == i) && !(b == a && l == i) ==> #[trigger] link2(b, l)
                == link(b, l),
    ensures
        towers_ok(chain, rank, ht2, link2),
{
    let k = rank(x);
    let px = choose|q: int| 0 <= q < chain.len() && chain[q] == x;
    assert(chain[px] < MAX_PTR);
    // The links at level `i` are the ones that change meaning.
    assert forall|l: int| 0 <= l < HEIGHT implies #[trigger] succ(
        chain,
        rank,
        ht2,
        0,
        l,
        link2(0, l),
    ) by {
        lemma_succ_after_add(chain, rank, ht, link, ht2, link2, x, i, a, 0, l);
    }
    assert forall|j: int, l: int| 0 <= j < chain.len() && 0 <= l < ht2(chain[j]) implies #[trigger] succ(
        chain,
        rank,
        ht2,
        (chain[j] + 1) as usize,
        l,
        link2((chain[j] + 1) as usize, l),
    ) by {
        if chain[j] == x && l == i {
            lemma_new_link(chain, rank, ht, link, ht2, link2, x, i, a);
        } else {
            lemma_succ_after_add(chain, rank, ht, link, ht2, link2, x, i, a, (chain[j] + 1) as usize, l);
        }
    }
    assert(x < MAX_PTR);
    assert forall|j: int| 0 <= j < chain.len() implies #[trigger] ht2(chain[j]) <= HEIGHT by {
        if chain[j] != x {
            assert(ht2(chain[j]) == ht(chain[j]));
        }
    }
}

/// The link that `x` itself takes at level `i` is right.
proof fn lemma_new_link(
    chain: Seq<usize>,
    rank: spec_fn(usize) -> int,
    ht: spec_fn(usize) -> nat,
    link: spec_fn(usize, int) -> usize,
    ht2: spec_fn(usize) -> nat,
    link2: spec_fn(usize, int) -> usize,
    x: usize,
    i: int,
    a: usize,
)
    requires
        towers_ok(chain, rank, ht, link),
        chain.contains(x),
        ht(x) == i,
        0 <= i < HEIGHT,
        prev_ok(chain, rank, ht, a, i, rank(x)),
        forall|n: usize| n != x ==> #[trigger] ht2(n) == ht(n),
        ht2(x) == i + 1,
        link2((x + 1) as usize, i) == link(a, i),
    ensures
        succ(chain, rank, ht2, (x + 1) as usize, i, link2((x + 1) as usize, i)),
{
    let k = rank(x);
    let p = link(a, i);
    let px = choose|q: int| 0 <= q < chain.len() && chain[q] == x;
    assert(chain[px] < MAX_PTR);
    lemma_prev_link(chain, rank, ht, link, a, i);
    if p == 0 {
        assert forall|j: int|
            0 <= j < chain.len() && #[trigger] ht2(chain[j]) > i implies !after(
            rank,
            (x + 1) as usize,
            rank(chain[j]),
        ) by {
            if chain[j] != x {
                assert(ht(chain[j]) > i);
                assert(!after(rank, a, rank(chain[j])));
            }
        }
    } else {
        let t = (p - 1) as usize;
        assert(ht(t) > i);
        assert(t != x);
        let qt = choose|q: int| 0 <= q < chain.len() && chain[q] == t;
        assert(ht(chain[qt]) > i);
        assert(rank(t) >= k);
        if rank(t) == k {
            lemma_rank_unique(chain, rank, qt, px);
        }
        assert(ht2(t) == ht(t));
        assert forall|j: int|
            0 <= j < chain.len() && #[trigger] ht2(chain[j]) > i && after(
                rank,
                (x + 1) as usize,
                rank(chain[j]),
            ) implies rank(chain[j]) >= rank(t) by {
            assert(chain[j] != x);
            assert(ht(chain[j]) > i);
        }
    }
}

/// What the links of a predecessor say at its level.
pub proof fn lemma_prev_link(
    chain: Seq<usize>,
    rank: spec_fn(usize) -> int,
    ht: spec_fn(usize) -> nat,
    link: spec_fn(usize, int) -> usize,
    a: usize,
    i: int,
)
    requires
        towers_ok(chain, rank, ht, link),
        0 <= i < HEIGHT,
        a == 0 || (chain.contains((a - 1) as usize) && ht((a - 1) as usize) > i),
    ensures
        succ(chain, rank, ht, a, i, link(a, i)),
{
    if a != 0 {
        let q = choose|q: int| 0 <= q < chain.len() && chain[q] == (a - 1) as usize;
        assert(succ(chain, rank, ht, (chain[q] + 1) as usize, i, link((chain[q] + 1) as usize, i)));
    }
}

/// A link other than the one of `x` at level `i` is still right after `x`
/// joins level `i` behind `a`.
proof fn lemma_succ_after_add(
    chain: Seq<usize>,
    rank: spec_fn(usize) -> int,
    ht: spec_fn(usize) -> nat,
    link: spec_fn(usize, int) -> usize,
    ht2: spec_fn(usize) -> nat,
    link2: spec_fn(usize, int) -> usize,
    x: usize,
    i: int,
    a: usize,
    b: usize,
    l: int,
)
    requires
        towers_ok(chain, rank, ht, link),
        chain.contains(x),
        ht(x) == i,
        0 <= i < HEIGHT,
        0 <= l < HEIGHT,
        prev_ok(chain, rank, ht, a, i, rank(x)),
        forall|n: usize| n != x ==> #[trigger] ht2(n) == ht(n),
        ht2(x) == i + 1,
        link2((x + 1) as usize, i) == link(a, i),
        link2(a, i) == (x + 1) as usize,
        forall|bb: usize, ll: int|
            !(bb == (x + 1) as usize && ll == i) && !(bb == a && ll == i) ==> #[trigger] link2(
                bb,
                ll,
            ) == link(bb, ll),
        b == 0 || (chain.contains((b - 1) as usize) && ht2((b - 1) as usize) > l),
        !(b == (x + 1) as usize && l == i),
    ensures
        succ(chain, rank, ht2, b, l, link2(b, l)),
{
    let k = rank(x);
    let px = choose|q: int| 0 <= q < chain.len() && chain[q] == x;
    assert(chain[px] < MAX_PTR);
    if b != 0 {
        let qb = choose|q: int| 0 <= q < chain.len() && chain[q] == (b - 1) as usize;
        if (b - 1) as usize == x {
            assert(l < i);
        }
        assert(ht((b - 1) as usize) > l);
    }
    lemma_prev_link(chain, rank, ht, link, b, l);
    if l != i {
        let p = link(b, l);
        assert(link2(b, l) == p);
        if p == 0 {
            assert forall|j: int|
                0 <= j < chain.len() && #[trigger] ht2(chain[j]) > l implies !after(
                rank,
                b,
                rank(chain[j]),
            ) by {
                if chain[j] != x {
                    assert(ht(chain[j]) > l);
                } else {
                    assert(ht(chain[px]) > l);
                }
            }
        } else {
            let t = (p - 1) as usize;
            if t == x {
                assert(ht2(t) > l);
            } else {
                assert(ht2(t) == ht(t));
            }
            assert forall|j: int|
                0 <= j < chain.len() && #[trigger] ht2(chain[j]) > l && after(rank, b, rank(chain[j]))
                    implies rank(chain[j]) >= rank(t) by {
                if chain[j] != x {
                    assert(ht(chain[j]) > l);
                } else {
                    assert(ht(chain[px]) > l);
                }
            }
        }
    } else if b == a {
        // the predecessor now links to x
        assert(link2(b, l) == (x + 1) as usize);
        assert(chain.contains(x));
        assert forall|j: int|
            0 <= j < chain.len() && #[trigger] ht2(chain[j]) > l && after(rank, b, rank(chain[j]))
                implies rank(chain[j]) >= k by {
            if chain[j] != x {
                assert(ht(chain[j]) > l);
            }
        }
    } else {
        // another tower of level i keeps its link: x is not between it and its target
        let p = link(b, l);
        assert(link2(b, l) == p);
        if a != 0 {
            let qa = choose|q: int| 0 <= q < chain.len() && chain[q] == (a - 1) as usize;
            assert(ht(chain[qa]) > i);
        }
        if b != 0 {
            let qb = choose|q: int| 0 <= q < chain.len() && chain[q] == (b - 1) as usize;
            assert(ht(chain[qb]) > i);
            if a != 0 && rank((b - 1) as usize) == rank((a - 1) as usize) {
                let qa = choose|q: int| 0 <= q < chain.len() && chain[q] == (a - 1) as usize;
                lemma_rank_unique(chain, rank, qa, qb);
            }
            if (b - 1) as usize != x && rank((b - 1) as usize) == k {
                lemma_rank_unique(chain, rank, px, qb);
            }
        }
        if p == 0 {
            assert forall|j: int|
                0 <= j < chain.len() && #[trigger] ht2(chain[j]) > l implies !after(
                rank,
                b,
                rank(chain[j]),
            ) by {
                if chain[j] != x {
                    assert(ht(chain[j]) > l);
                } else if after(rank, b, k) {
                    if a != 0 {
                        let qa = choose|q: int| 0 <= q < chain.len() && chain[q] == (a - 1) as usize;
                        assert(ht(chain[qa]) > i);
                    }
                }
            }
        } else {
            let t = (p - 1) as usize;
            if t == x {
                assert(ht(t) > l);
            }
            assert(ht2(t) == ht(t));
            assert forall|j: int|
                0 <= j < chain.len() && #[trigger] ht2(chain[j]) > l && after(rank, b, rank(chain[j]))
                    implies rank(chain[j]) >= rank(t) by {
                if chain[j] != x {
                    assert(ht(chain[j]) > l);
                } else {
                    if a != 0 {
                        let qa = choose|q: int| 0 <= q < chain.len() && chain[q] == (a - 1) as usize;
                        assert(ht(chain[qa]) > i);
                    }
                }
            }
        }
    }
}

/// Node `x` of the chain leaves level `i`, where `a` linked to it; `a`
/// takes over the link of `x`.
pub proof fn lemma_drop_level(
    chain: Seq<usize>,
    rank: spec_fn(usize) -> int,
    ht: spec_fn(usize) -> nat,
    link: spec_fn(usize, int) -> usize,
    ht2: spec_fn(usize) -> nat,
    link2: spec_fn(usize, int) -> usize,
    x: usize,
    i: int,
    a: usize,
)
    requires
        towers_ok(chain, rank, ht, link),
        chain.contains(x),
        ht(x) == i + 1,
        0 <= i < HEIGHT,
        a == 0 || (chain.contains((a - 1) as usize) && ht((a - 1) as usize) > i),
        link(a, i) == (x + 1) as usize,
        forall|n: usize| n != x ==> #[trigger] ht2(n) == ht(n),
        ht2(x) == i,
        link2(a, i) == link((x + 1) as usize, i),
        forall|b: usize, l: int| !(b == a && l == i) ==> #[trigger] link2(b, l) == link(b, l),
    ensures
        towers_ok(chain, rank, ht2, link2),
{
    let px = choose|q: int| 0 <= q < chain.len() && chain[q] == x;
    assert(chain[px] < MAX_PTR);
    assert forall|l: int| 0 <= l < HEIGHT implies #[trigger] succ(
        chain,
        rank,
        ht2,
        0,
        l,
        link2(0, l),
    ) by {
        lemma_succ_after_drop(chain, rank, ht, link, ht2, link2, x, i, a, 0, l);
    }
    assert forall|j: int, l: int| 0 <= j < chain.len() && 0 <= l < ht2(chain[j]) implies #[trigger] succ(
        chain,
        rank,
        ht2,
        (chain[j] + 1) as usize,
        l,
        link2((chain[j] + 1) as usize, l),
    ) by {
        assert(chain[j] < MAX_PTR);
        if chain[j] != x {
            assert(ht(chain[j]) == ht2(chain[j]));
        }
        assert(chain.contains(chain[j]));
        lemma_succ_after_drop(chain, rank, ht, link, ht2, link2, x, i, a, (chain[j] + 1) as usize, l);
    }
    assert forall|j: int| 0 <= j < chain.len() implies #[trigger] ht2(chain[j]) <= HEIGHT by {
        if chain[j] != x {
            assert(ht2(chain[j]) == ht(chain[j]));
        }
    }
}

proof fn lemma_succ_after_drop(
    chain: Seq<usize>,
    rank: spec_fn(usize) -> int,
    ht: spec_fn(usize) -> nat,
    link: spec_fn(usize, int) -> usize,
    ht2: spec_fn(usize) -> nat,
    link2: spec_fn(usize, int) -> usize,
    x: usize,
    i: int,
    a: usize,
    b: usize,
    l: int,
)
    requires
        towers_ok(chain, rank, ht, link),
        chain.contains(x),
        x < MAX_PTR,
        ht(x) == i + 1,
        0 <= i < HEIGHT,
        0 <= l < HEIGHT,
        a == 0 || (chain.contains((a - 1) as usize) && ht((a - 1) as usize) > i),
        link(a, i) == (x + 1) as usize,
        forall|n: usize| n != x ==> #[trigger] ht2(n) == ht(n),
        ht2(x) == i,
        link2(a, i) == link((x + 1) as usize, i),
        forall|bb: usize, ll: int| !(bb == a && ll == i) ==> #[trigger] link2(bb, ll) == link(bb, ll),
        b == 0 || (chain.contains((b - 1) as usize) && ht2((b - 1) as usize) > l),
    ensures
        succ(chain, rank, ht2, b, l, link2(b, l)),
{
    let k = rank(x);
    let px = choose|q: int| 0 <= q < chain.len() && chain[q] == x;
    if b != 0 {
        let qb = choose|q: int| 0 <= q < chain.len() && chain[q] == (b - 1) as usize;
        if (b - 1) as usize == x {
            assert(l < i);
        }
        assert(ht((b - 1) as usize) > l);
    }
    lemma_prev_link(chain, rank, ht, link, b, l);
    lemma_prev_link(chain, rank, ht, link, a, i);
    assert(ht(chain[px]) > i);
    lemma_prev_link(chain, rank, ht, link, (x + 1) as usize, i);
    if l != i {
        let p = link(b, l);
        assert(link2(b, l) == p);
        if p == 0 {
            assert forall|j: int|
                0 <= j < chain.len() && #[trigger] ht2(chain[j]) > l implies !after(
                rank,
                b,
                rank(chain[j]),
            ) by {
                if chain[j] != x {
                    assert(ht(chain[j]) > l);
                } else {
                    assert(ht(chain[px]) > l);
                }
            }
        } else {
            let t = (p - 1) as usize;
            if t == x {
                assert(l < i);
            } else {
                assert(ht2(t) == ht(t));
            }
            assert forall|j: int|
                0 <= j < chain.len() && #[trigger] ht2(chain[j]) > l && after(rank, b, rank(chain[j]))
                    implies rank(chain[j]) >= rank(t) by {
                if chain[j] != x {
                    assert(ht(chain[j]) > l);
                } else {
                    assert(ht(chain[px]) > l);
                }
            }
        }
    } else if b == a {
        let p = link((x + 1) as usize, i);
        assert(link2(b, l) == p);
        if p == 0 {
            assert forall|j: int|
                0 <= j < chain.len() && #[trigger] ht2(chain[j]) > l implies !after(
                rank,
                b,
                rank(chain[j]),
            ) by {
                if chain[j] != x {
                    assert(ht(chain[j]) > l);
                    if after(rank, b, rank(chain[j])) {
                        assert(rank(chain[j]) >= k);
                        if rank(chain[j]) == k {
                            lemma_rank_unique(chain, rank, j, px);
                        }
                        assert(after(rank, (x + 1) as usize, rank(chain[j])));
                    }
                }
            }
        } else {
            let t = (p - 1) as usize;
            assert(rank(t) > k);
            assert(t != x);
            assert(ht2(t) == ht(t));
            assert forall|j: int|
                0 <= j < chain.len() && #[trigger] ht2(chain[j]) > l && after(rank, b, rank(chain[j]))
                    implies rank(chain[j]) >= rank(t) by {
                if chain[j] != x {
                    assert(ht(chain[j]) > l);
                    assert(rank(chain[j]) >= k);
                    if rank(chain[j]) == k {
                        lemma_rank_unique(chain, rank, j, px);
                    }
                    assert(after(rank, (x + 1) as usize, rank(chain[j])));
                }
            }
        }
    } else {
        // another tower of level i: its target is not x, since only one
        // tower of the level links to x
        let p = link(b, l);
        assert(link2(b, l) == p);
        if b != 0 {
            let qb = choose|q: int| 0 <= q < chain.len() && chain[q] == (b - 1) as usize;
            assert(ht(chain[qb]) > i);
            if (b - 1) as usize == x {
                assert(false);
            }
        }
        if a != 0 {
            let qa = choose|q: int| 0 <= q < chain.len() && chain[q] == (a - 1) as usize;
            assert(ht(chain[qa]) > i);
            if b != 0 && rank((b - 1) as usize) == rank((a - 1) as usize) {
                let qb = choose|q: int| 0 <= q < chain.len() && chain[q] == (b - 1) as usize;
                lemma_rank_unique(chain, rank, qa, qb);
            }
        }
        if p == (x + 1) as usize {
            if a != 0 {
                let qa = choose|q: int| 0 <= q < chain.len() && chain[q] == (a - 1) as usize;
                assert(ht(chain[qa]) > i);
            }
            if b != 0 {
                let qb = choose|q: int| 0 <= q < chain.len() && chain[q] == (b - 1) as usize;
                assert(ht(chain[qb]) > i);
            }
            assert(false);
        }
        if p == 0 {
            assert forall|j: int|
                0 <= j < chain.len() && #[trigger] ht2(chain[j]) > l implies !after(
                rank,
                b,
                rank(chain[j]),
            ) by {
                if chain[j] != x {
                    assert(ht(chain[j]) > l);
                }
            }
        } else {
            let t = (p - 1) as usize;
            assert(t != x);
            assert(ht2(t) == ht(t));
            assert forall|j: int|
                0 <= j < chain.len() && #[trigger] ht2(chain[j]) > l && after(rank, b, rank(chain[j]))
                    implies rank(chain[j]) >= rank(t) by {
                if chain[j] != x {
                    assert(ht(chain[j]) > l);
                }
            }
        }
    }
}

/// A right link stays right in a chain that keeps every node of level `l`
/// and adds none.
proof fn lemma_succ_transfer(
    chain: Seq<usize>,
    chain2: Seq<usize>,
    rank: spec_fn(usize) -> int,
    ht: spec_fn(usize) -> nat,
    a: usize,
    l: int,
    p: usize,
)
    requires
        succ(chain, rank, ht, a, l, p),
        0 <= l,
        forall|j2: int| 0 <= j2 < chain2.len() && #[trigger] ht(chain2[j2]) > 0 ==> chain.contains(chain2[j2]),
        forall|j: int| 0 <= j < chain.len() && #[trigger] ht(chain[j]) > 0 ==> chain2.contains(chain[j]),
    ensures
        succ(chain2, rank, ht, a, l, p),
{
    if p == 0 {
        assert forall|j2: int|
            0 <= j2 < chain2.len() && #[trigger] ht(chain2[j2]) > l implies !after(rank, a, rank(chain2[j2])) by {
            let j = choose|j: int| 0 <= j < chain.len() && chain[j] == chain2[j2];
            assert(ht(chain[j]) > l);
        }
    } else {
        let t = (p - 1) as usize;
        let q = choose|q: int| 0 <= q < chain.len() && chain[q] == t;
        assert(ht(chain[q]) > 0);
        assert forall|j2: int|
            0 <= j2 < chain2.len() && #[trigger] ht(chain2[j2]) > l && after(rank, a, rank(chain2[j2]))
                implies rank(chain2[j2]) >= rank(t) by {
            let j = choose|j: int| 0 <= j < chain.len() && chain[j] == chain2[j2];
            assert(ht(chain[j]) > l);
        }
    }
}

/// The links stay right when the chain gains or loses nodes that take part
/// in no level.
pub proof fn lemma_chain_change(
    chain: Seq<usize>,
    chain2: Seq<usize>,
    rank: spec_fn(usize) -> int,
    ht: spec_fn(usize) -> nat,
    link: spec_fn(usize, int) -> usize,
)
    requires
        towers_ok(chain, rank, ht, link),
        sorted_by(chain2, rank),
        forall|j2: int| 0 <= j2 < chain2.len() && #[trigger] ht(chain2[j2]) > 0 ==> chain.contains(chain2[j2]),
        forall|j: int| 0 <= j < chain.len() && #[trigger] ht(chain[j]) > 0 ==> chain2.contains(chain[j]),
        forall|j2: int| 0 <= j2 < chain2.len() ==> #[trigger] chain2[j2] < MAX_PTR,
    ensures
        towers_ok(chain2, rank, ht, link),
{
    assert forall|l: int| 0 <= l < HEIGHT implies #[trigger] succ(chain2, rank, ht, 0, l, link(0, l)) by {
        lemma_succ_transfer(chain, chain2, rank, ht, 0, l, link(0, l));
    }
    assert forall|j2: int, l: int| 0 <= j2 < chain2.len() && 0 <= l < ht(chain2[j2]) implies #[trigger] succ(
        chain2,
        rank,
        ht,
        (chain2[j2] + 1) as usize,
        l,
        link((chain2[j2] + 1) as usize, l),
    ) by {
        let j = choose|j: int| 0 <= j < chain.len() && chain[j] == chain2[j2];
        assert(succ(chain, rank, ht, (chain[j] + 1) as usize, l, link((chain[j] + 1) as usize, l)));
        lemma_succ_transfer(chain, chain2, rank, ht, (chain2[j2] + 1) as usize, l, link((chain2[j2] + 1) as usize, l));
    }
    assert forall|j2: int| 0 <= j2 < chain2.len() implies #[trigger] ht(chain2[j2]) <= HEIGHT by {
        if ht(chain2[j2]) > 0 {
            let j = choose|j: int| 0 <= j < chain.len() && chain[j] == chain2[j2];
            assert(ht(chain[j]) <= HEIGHT);
        }
    }
}

/// At level 0, where every node takes part, the head links to the first
/// node and each node to the next one.
pub proof fn lemma_level0(
    chain: Seq<usize>,
    rank: spec_fn(usize) -> int,
    ht: spec_fn(usize) -> nat,
    link: spec_fn(usize, int) -> usize,
    j: int,
)
    requires
        towers_ok(chain, rank, ht, link),
        forall|q: int| 0 <= q < chain.len() ==> #[trigger] ht(chain[q]) > 0,
        -1 <= j < chain.len(),
    ensures
        ({
            let a = if j < 0 { 0usize } else { (chain[j] + 1) as usize };
            link(a, 0) == if j + 1 < chain.len() { (chain[j + 1] + 1) as usize } else { 0usize }
        }),
{
    let a = if j < 0 { 0usize } else { (chain[j] + 1) as usize };
    if j >= 0 {
        assert(ht(chain[j]) > 0);
        assert(chain[j] < MAX_PTR);
    }
    assert(succ(chain, rank, ht, a, 0, link(a, 0)));
    let p = link(a, 0);
    if p == 0 {
        if j + 1 < chain.len() {
            assert(ht(chain[j + 1]) > 0);
        }
    } else {
        let t = (p - 1) as usize;
        let q = choose|q: int| 0 <= q < chain.len() && chain[q] == t;
        if q <= j {
            if q < j {
                assert(rank(chain[q]) < rank(chain[j]));
            }
        }
        assert(j + 1 < chain.len());
        assert(ht(chain[j + 1]) > 0);
        if j + 1 < q {
            assert(rank(chain[j + 1]) < rank(chain[q]));
        }
        assert(q == j + 1);
        assert(chain[q] < MAX_PTR);
    }
}

/// A predecessor at level 0 of a key of rank `k` stands right before the
/// first position whose key is not below `k`.
pub proof fn lemma_prev0(
    chain: Seq<usize>,
    rank: spec_fn(usize) -> int,
    ht: spec_fn(usize) -> nat,
    link: spec_fn(usize, int) -> usize,
    a: usize,
    k: int,
) -> (pos: int)
    requires
        towers_ok(chain, rank, ht, link),
        forall|q: int| 0 <= q < chain.len() ==> #[trigger] ht(chain[q]) > 0,
        prev_ok(chain, rank, ht, a, 0, k),
    ensures
        0 <= pos <= chain.len(),
        forall|j: int| 0 <= j < pos ==> rank(#[trigger] chain[j]) < k,
        forall|j: int| pos <= j < chain.len() ==> rank(#[trigger] chain[j]) >= k,
        link(a, 0) == if pos < chain.len() { (chain[pos] + 1) as usize } else { 0usize },
        a == 0 ==> pos == 0,
        a != 0 ==> pos >= 1 && chain[pos - 1] == (a - 1) as usize,
{
    if a == 0 {
        lemma_level0(chain, rank, ht, link, -1);
        assert forall|j: int| 0 <= j < chain.len() implies rank(#[trigger] chain[j]) >= k by {
            assert(ht(chain[j]) > 0);
        }
        0
    } else {
        let q = choose|q: int| 0 <= q < chain.len() && chain[q] == (a - 1) as usize;
        assert(chain[q] < MAX_PTR);
        lemma_level0(chain, rank, ht, link, q);
        assert forall|j: int| 0 <= j < q + 1 implies rank(#[trigger] chain[j]) < k by {
            if j < q {
                assert(rank(chain[j]) < rank(chain[q]));
            }
        }
        assert forall|j: int| q + 1 <= j < chain.len() implies rank(#[trigger] chain[j]) >= k by {
            assert(ht(chain[j]) > 0);
            assert(rank(chain[q]) < rank(chain[j]));
        }
        q + 1
    }
}

/// A predecessor stays one when the nodes of level `l` and their keys stay.
pub proof fn lemma_prev_keep(
    chain: Seq<usize>,
    chain2: Seq<usize>,
    rank: spec_fn(usize) -> int,
    rank2: spec_fn(usize) -> int,
    ht: spec_fn(usize) -> nat,
    ht2: spec_fn(usize) -> nat,
    a: usize,
    l: int,
    k: int,
)
    requires
        prev_ok(chain, rank, ht, a, l, k),
        forall|j2: int|
            0 <= j2 < chain2.len() && #[trigger] ht2(chain2[j2]) > l ==> chain.contains(chain2[j2])
                && ht(chain2[j2]) > l && rank2(chain2[j2]) == rank(chain2[j2]),
        a != 0 ==> chain2.contains((a - 1) as usize) && ht2((a - 1) as usize) > l && rank2(
            (a - 1) as usize,
        ) == rank((a - 1) as usize),
    ensures
        prev_ok(chain2, rank2, ht2, a, l, k),
{
    assert forall|j2: int|
        0 <= j2 < chain2.len() && #[trigger] ht2(chain2[j2]) > l && after(rank2, a, rank2(chain2[j2]))
            implies rank2(chain2[j2]) >= k by {
        let j = choose|j: int| 0 <= j < chain.len() && chain[j] == chain2[j2];
        assert(ht(chain[j]) > l);
    }
}

/// The predecessor of `x` at a level of `x` links to `x`.
pub proof fn lemma_prev_targets(
    chain: Seq<usize>,
    rank: spec_fn(usize) -> int,
    ht: spec_fn(usize) -> nat,
    link: spec_fn(usize, int) -> usize,
    a: usize,
    l: int,
    x: usize,
)
    requires
        towers_ok(chain, rank, ht, link),
        chain.contains(x),
        0 <= l < ht(x),
        prev_ok(chain, rank, ht, a, l, rank(x)),
    ensures
        link(a, l) == (x + 1) as usize,
{
    let px = choose|q: int| 0 <= q < chain.len() && chain[q] == x;
    assert(chain[px] < MAX_PTR);
    assert(ht(chain[px]) <= HEIGHT);
    lemma_prev_link(chain, rank, ht, link, a, l);
    let p = link(a, l);
    assert(ht(chain[px]) > l);
    if p != 0 {
        let t = (p - 1) as usize;
        let q = choose|q: int| 0 <= q < chain.len() && chain[q] == t;
        assert(ht(chain[q]) > l);
        assert(rank(t) >= rank(x));
        assert(rank(x) >= rank(t));
        lemma_rank_unique(chain, rank, q, px);
    }
}

/// The links stay right under functions that agree on the chain.
pub proof fn lemma_towers_agree(
    chain: Seq<usize>,
    rank: spec_fn(usize) -> int,
    ht: spec_fn(usize) -> nat,
    link: spec_fn(usize, int) -> usize,
    rank2: spec_fn(usize) -> int,
    ht2: spec_fn(usize) -> nat,
    link2: spec_fn(usize, int) -> usize,
)
    requires
        towers_ok(chain, rank, ht, link),
        forall|j: int| 0 <= j < chain.len() ==> #[trigger] rank2(chain[j]) == rank(chain[j]),
        forall|j: int| 0 <= j < chain.len() ==> #[trigger] ht2(chain[j]) == ht(chain[j]),
        forall|l: int| 0 <= l < HEIGHT ==> #[trigger] link2(0, l) == link(0, l),
        forall|j: int, l: int|
            0 <= j < chain.len() && 0 <= l < HEIGHT ==> #[trigger] link2((chain[j] + 1) as usize, l)
                == link((chain[j] + 1) as usize, l),
    ensures
        towers_ok(chain, rank2, ht2, link2),
{
    assert forall|l: int| 0 <= l < HEIGHT implies #[trigger] succ(chain, rank2, ht2, 0, l, link2(0, l)) by {
        lemma_succ_agree(chain, rank, ht, rank2, ht2, 0, l, link(0, l));
    }
    assert forall|j: int, l: int| 0 <= j < chain.len() && 0 <= l < ht2(chain[j]) implies #[trigger] succ(
        chain,
        rank2,
        ht2,
        (chain[j] + 1) as usize,
        l,
        link2((chain[j] + 1) as usize, l),
    ) by {
        assert(ht(chain[j]) <= HEIGHT);
        assert(chain[j] < MAX_PTR);
        assert(succ(chain, rank, ht, (chain[j] + 1) as usize, l, link((chain[j] + 1) as usize, l)));
        lemma_succ_agree(chain, rank, ht, rank2, ht2, (chain[j] + 1) as usize, l, link((chain[j] + 1) as usize, l));
    }
    assert forall|i: int, j: int| 0 <= i < j < chain.len() implies rank2(chain[i]) < rank2(chain[j]) by {
        assert(rank2(chain[i]) == rank(chain[i]));
        assert(rank2(chain[j]) == rank(chain[j]));
    }
    assert forall|j: int| 0 <= j < chain.len() implies #[trigger] ht2(chain[j]) <= HEIGHT by {
        assert(ht(chain[j]) <= HEIGHT);
    }
}

proof fn lemma_succ_agree(
    chain: Seq<usize>,
    rank: spec_fn(usize) -> int,
    ht: spec_fn(usize) -> nat,
    rank2: spec_fn(usize) -> int,
    ht2: spec_fn(usize) -> nat,
    a: usize,
    l: int,
    p: usize,
)
    requires
        succ(chain, rank, ht, a, l, p),
        a == 0 || chain.contains((a - 1) as usize),
        forall|j: int| 0 <= j < chain.len() ==> #[trigger] rank2(chain[j]) == rank(chain[j]),
        forall|j: int| 0 <= j < chain.len() ==> #[trigger] ht2(chain[j]) == ht(chain[j]),
    ensures
        succ(chain, rank2, ht2, a, l, p),
{
    if a != 0 {
        let q = choose|q: int| 0 <= q < chain.len() && chain[q] == (a - 1) as usize;
        assert(rank2(chain[q]) == rank(chain[q]));
    }
    if p == 0 {
        assert forall|j: int| 0 <= j < chain.len() && #[trigger] ht2(chain[j]) > l implies !after(
            rank2,
            a,
            rank2(chain[j]),
        ) by {
            assert(ht(chain[j]) > l);
        }
    } else {
        let t = (p - 1) as usize;
        let q = choose|q: int| 0 <= q < chain.len() && chain[q] == t;
        assert(rank2(chain[q]) == rank(chain[q]));
        assert(ht2(chain[q]) == ht(chain[q]));
        assert forall|j: int|
            0 <= j < chain.len() && #[trigger] ht2(chain[j]) > l && after(rank2, a, rank2(chain[j]))
                implies rank2(chain[j]) >= rank2(t) by {
            assert(ht(chain[j]) > l);
            assert(rank2(chain[j]) == rank(chain[j]));
        }
    }
}

} // verus!
