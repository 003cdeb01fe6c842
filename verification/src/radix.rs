//! A sparse radix-tree counter store over a dense 16-bit keyspace.
//!
//! The tree has a fan-out of 64: a bucket id is split into three little-endian
//! base-64 digits, each digit selecting a child slot on the path from the
//! root. Nodes live in a grow-only arena and are addressed by stable indices,
//! so child slots hold indices rather than owning pointers; node 0 is the
//! root, and a path is created lazily the first time its bucket id is
//! incremented. Counters never decrease and nodes are never removed.

use vstd::prelude::*;

verus! {

/// Number of low bits a tree level consumes from a bucket id.
const FANFACTOR: usize = 6;

/// Child slots per node.
const FANOUT: usize = 64;

/// Mask selecting the bits a single level consumes.
const FAN_MASK: usize = 63;

/// Splits an id into the child slot for the current tree level (the low six
/// bits) and the remainder that the levels below it consume.
pub fn split_fanout(i: usize) -> (r: (usize, usize))
    ensures
        r.0 == i % 64,
        r.1 == i / 64,
{
    let first = i & FAN_MASK;
    let rem = i >> FANFACTOR;
    proof {
        assert(i & 63 == i % 64) by (bit_vector);
        assert(i >> 6 == i / 64) by (bit_vector);
    }
    (first, rem)
}

/// The slot a bucket id selects at the first tree level.
pub open spec fn digit0(id: u16) -> int {
    id as int % 64
}

/// The slot a bucket id selects at the second tree level.
pub open spec fn digit1(id: u16) -> int {
    (id as int / 64) % 64
}

/// The slot a bucket id selects at the third tree level.
pub open spec fn digit2(id: u16) -> int {
    (id as int / 64) / 64
}

/// A sparse radix tree mapping each 16-bit bucket id to a counter.
///
/// Nodes are kept in a flat arena: `counts[n]` is the counter cell of node
/// `n`, and `children[n * 64 + d]` is slot `d` of node `n`, holding the index
/// of the child node reached through that slot, if one exists. Every bucket
/// id reaches its counter through exactly three slots.
pub struct Radix {
    counts: Vec<usize>,
    children: Vec<Option<usize>>,
}

impl Radix {
    /// Number of nodes in the arena; node 0 is the root.
    pub closed spec fn num_nodes(self) -> int {
        self.counts@.len() as int
    }

    /// Child slot `d` of node `n`.
    pub closed spec fn slot_of(self, n: int, d: int) -> Option<usize> {
        self.children@[n * 64 + d]
    }

    /// The counter cell of node `n`.
    pub closed spec fn count_at(self, n: int) -> nat {
        self.counts@[n] as nat
    }

    /// Structural invariant: the arena holds a root, every node has exactly
    /// 64 slots, slots point at nodes of the arena, and no node is reachable
    /// through two different slots, so paths never share their endpoint.
    pub closed spec fn wf(self) -> bool {
        &&& self.counts@.len() >= 1
        &&& self.children@.len() == 64 * self.counts@.len()
        &&& (forall|n: int, d: int|
            0 <= n < self.num_nodes() && 0 <= d < 64 && (#[trigger] self.slot_of(n, d)) is Some
                ==> self.slot_of(n, d)->Some_0 < self.num_nodes())
        &&& (forall|n1: int, d1: int, n2: int, d2: int|
            0 <= n1 < self.num_nodes() && 0 <= d1 < 64 && 0 <= n2 < self.num_nodes() && 0 <= d2
                < 64 && (#[trigger] self.slot_of(n1, d1)) is Some && self.slot_of(n1, d1)
                == (#[trigger] self.slot_of(n2, d2)) ==> n1 == n2 && d1 == d2)
    }

    /// The count recorded for a bucket id: the counter at the end of its
    /// three-slot path, or zero wherever the path has not been created.
    pub closed spec fn count_spec(self, id: u16) -> nat {
        match self.slot_of(0, digit0(id)) {
            Option::None => 0,
            Option::Some(a) => match self.slot_of(a as int, digit1(id)) {
                Option::None => 0,
                Option::Some(b) => match self.slot_of(b as int, digit2(id)) {
                    Option::None => 0,
                    Option::Some(c) => self.count_at(c as int),
                },
            },
        }
    }

    /// Reads the counter for a bucket id. An id that was never incremented
    /// reads as zero; reading never fails and never changes the tree.
    pub fn get(&self, id: u16) -> (r: usize)
        requires
            self.wf(),
        ensures
            r == self.count_spec(id),
    {
        let (q0, rest) = split_fanout(id as usize);
        let (q1, q2) = split_fanout(rest);
        let a = match self.children[q0] {
            Option::Some(a) => a,
            Option::None => {
                return 0;
            },
        };
        let clen = self.children.len();
        proof {
            assert(self.slot_of(0, digit0(id)) == Option::Some(a));
            assert(a < self.num_nodes());
            assert((a as int) * 64 + (q1 as int) < clen as int);
        }
        let b = match self.children[a * FANOUT + q1] {
            Option::Some(b) => b,
            Option::None => {
                return 0;
            },
        };
        proof {
            assert(self.slot_of(a as int, digit1(id)) == Option::Some(b));
            assert(b < self.num_nodes());
            assert((b as int) * 64 + (q2 as int) < clen as int);
        }
        let c = match self.children[b * FANOUT + q2] {
            Option::Some(c) => c,
            Option::None => {
                return 0;
            },
        };
        proof {
            assert(self.slot_of(b as int, digit2(id)) == Option::Some(c));
            assert(c < self.num_nodes());
        }
        self.counts[c]
    }

    /// Returns the child of node `n` through slot `d`, linking a fresh empty
    /// node into the slot first when it is empty. No counter changes.
    fn get_or_create(&mut self, n: usize, d: usize) -> (c: usize)
        requires
            old(self).wf(),
            n < old(self).num_nodes(),
            d < 64,
        ensures
            final(self).wf(),
            final(self).num_nodes() >= old(self).num_nodes(),
            c < final(self).num_nodes(),
            final(self).slot_of(n as int, d as int) == Option::Some(c),
            old(self).slot_of(n as int, d as int) is Some ==> *final(self) == *old(self)
                && Option::Some(c) == old(self).slot_of(n as int, d as int),
            forall|m: int, e: int|
                0 <= m < old(self).num_nodes() && 0 <= e < 64 && !(m == n && e == d)
                    ==> final(self).slot_of(m, e) == old(self).slot_of(m, e),
            forall|m: int|
                0 <= m < old(self).num_nodes() ==> final(self).count_at(m) == old(
                    self,
                ).count_at(m),
            forall|k: u16| final(self).count_spec(k) == old(self).count_spec(k),
    {
        let clen = self.children.len();
        proof {
            assert((n as int) * 64 + (d as int) < clen as int);
        }
        let idx = n * FANOUT + d;
        match self.children[idx] {
            Option::Some(c) => {
                proof {
                    assert(self.slot_of(n as int, d as int) == Option::Some(c));
                }
                c
            },
            Option::None => {
                let c = self.counts.len();
                self.counts.push(0);
                let ghost s0 = *self;
                let mut k: usize = 0;
                while k < FANOUT
                    invariant
                        k <= 64,
                        self.counts@ == s0.counts@,
                        self.children@.len() == s0.children@.len() + k,
                        forall|j: int|
                            0 <= j < s0.children@.len() ==> self.children@[j] == s0.children@[j],
                        forall|j: int|
                            s0.children@.len() <= j < self.children@.len() ==> self.children@[j]
                                is None,
                    decreases 64 - k,
                {
                    self.children.push(Option::None);
                    k = k + 1;
                }
                proof {
                    assert(idx < old(self).children@.len());
                }
                self.children.set(idx, Option::Some(c));
                proof {
                    let pre = *old(self);
                    let post = *self;
                    assert(post.num_nodes() == pre.num_nodes() + 1);
                    assert forall|m: int, e: int|
                        0 <= m < pre.num_nodes() && 0 <= e < 64 && !(m == n && e
                            == d) implies post.slot_of(m, e) == pre.slot_of(m, e) by {
                        assert(m * 64 + e != n as int * 64 + d as int);
                        assert(m * 64 + e < pre.children@.len());
                    }
                    assert(post.slot_of(n as int, d as int) == Option::Some(c));
                    assert forall|e: int| 0 <= e < 64 implies post.slot_of(c as int, e)
                        is None by {
                        assert(c as int * 64 + e >= pre.children@.len());
                        assert(c as int * 64 + e != n as int * 64 + d as int);
                    }
                    assert forall|m: int, e: int|
                        0 <= m < post.num_nodes() && 0 <= e < 64 && (#[trigger] post.slot_of(m, e))
                            is Some implies post.slot_of(m, e)->Some_0 < post.num_nodes() by {
                        if m == n as int && e == d as int {
                        } else if m < pre.num_nodes() {
                            assert(post.slot_of(m, e) == pre.slot_of(m, e));
                        } else {
                            assert(post.slot_of(m, e) is None);
                        }
                    }
                    assert forall|m1: int, e1: int, m2: int, e2: int|
                        0 <= m1 < post.num_nodes() && 0 <= e1 < 64 && 0 <= m2 < post.num_nodes()
                            && 0 <= e2 < 64 && (#[trigger] post.slot_of(m1, e1)) is Some
                            && post.slot_of(m1, e1) == (#[trigger] post.slot_of(
                            m2,
                            e2,
                        )) implies m1 == m2 && e1 == e2 by {
                        if m1 == c as int {
                            assert(post.slot_of(m1, e1) is None);
                        } else if m2 == c as int {
                            assert(post.slot_of(m2, e2) is None);
                        } else if m1 == n as int && e1 == d as int && m2 == n as int && e2
                            == d as int {
                        } else if m1 == n as int && e1 == d as int {
                            assert(post.slot_of(m2, e2) == pre.slot_of(m2, e2));
                            assert(pre.slot_of(m2, e2)->Some_0 < pre.num_nodes());
                        } else if m2 == n as int && e2 == d as int {
                            assert(post.slot_of(m1, e1) == pre.slot_of(m1, e1));
                            assert(pre.slot_of(m1, e1)->Some_0 < pre.num_nodes());
                        } else {
                            assert(post.slot_of(m1, e1) == pre.slot_of(m1, e1));
                            assert(post.slot_of(m2, e2) == pre.slot_of(m2, e2));
                        }
                    }
                    assert(post.wf());
                    assert forall|q: u16| post.count_spec(q) == pre.count_spec(q) by {
                        lemma_link_preserves_counts(pre, post, n as int, d as int, c, q);
                    }
                }
                c
            },
        }
    }

    /// Increments the counter for a bucket id, creating its path on first
    /// use, and returns the new count. Every other bucket id keeps its count.
    pub fn incr(&mut self, id: u16) -> (r: usize)
        requires
            old(self).wf(),
            old(self).count_spec(id) < usize::MAX,
        ensures
            final(self).wf(),
            r == final(self).count_spec(id),
            final(self).count_spec(id) == old(self).count_spec(id) + 1,
            forall|k: u16| k != id ==> final(self).count_spec(k) == old(self).count_spec(k),
    {
        let (q0, rest) = split_fanout(id as usize);
        let (q1, q2) = split_fanout(rest);
        let a = self.get_or_create(0, q0);
        let b = self.get_or_create(a, q1);
        let c = self.get_or_create(b, q2);
        proof {
            assert(self.slot_of(0, digit0(id)) == Option::Some(a));
            assert(self.slot_of(a as int, digit1(id)) == Option::Some(b));
            assert(self.slot_of(b as int, digit2(id)) == Option::Some(c));
            assert(self.count_spec(id) == self.count_at(c as int));
            assert(self.count_spec(id) == old(self).count_spec(id));
        }
        let cur = self.counts[c];
        let ghost mid = *self;
        self.counts.set(c, cur + 1);
        proof {
            assert(self.children@ == mid.children@);
            assert(self.num_nodes() == mid.num_nodes());
            assert forall|m: int, e: int| #[trigger] self.slot_of(m, e) == mid.slot_of(m, e) by {}
            assert(self.wf());
            assert(self.count_spec(id) == cur + 1);
            assert forall|k: u16| k != id implies self.count_spec(k) == mid.count_spec(k) by {
                lemma_bump_preserves_counts(mid, *self, c, id, k);
            }
        }
        cur + 1
    }
}

/// Linking a fresh, empty, never-referenced node into an empty slot leaves
/// the count of every bucket id unchanged: a path that used the slot was
/// broken before and now ends in a node that counts zero.
proof fn lemma_link_preserves_counts(pre: Radix, post: Radix, n: int, d: int, c: usize, q: u16)
    requires
        pre.wf(),
        post.wf(),
        0 <= n < pre.num_nodes(),
        0 <= d < 64,
        c as int == pre.num_nodes(),
        post.num_nodes() == pre.num_nodes() + 1,
        pre.slot_of(n, d) is None,
        post.slot_of(n, d) == Option::Some(c),
        forall|m: int, e: int|
            0 <= m < pre.num_nodes() && 0 <= e < 64 && !(m == n && e == d) ==> post.slot_of(m, e)
                == pre.slot_of(m, e),
        forall|e: int| 0 <= e < 64 ==> post.slot_of(c as int, e) is None,
        forall|m: int| 0 <= m < pre.num_nodes() ==> post.count_at(m) == pre.count_at(m),
        post.count_at(c as int) == 0,
    ensures
        post.count_spec(q) == pre.count_spec(q),
{
    let d0 = digit0(q);
    let d1 = digit1(q);
    let d2 = digit2(q);
    if n == 0 && d == d0 {
        assert(pre.count_spec(q) == 0);
        assert(post.slot_of(0, d0) == Option::Some(c));
        assert(post.slot_of(c as int, d1) is None);
        assert(post.count_spec(q) == 0);
    } else {
        assert(post.slot_of(0, d0) == pre.slot_of(0, d0));
        if pre.slot_of(0, d0) is Some {
            let a = pre.slot_of(0, d0)->Some_0 as int;
            assert(a < pre.num_nodes());
            if a == n && d1 == d {
                assert(pre.count_spec(q) == 0);
                assert(post.slot_of(a, d1) == Option::Some(c));
                assert(post.slot_of(c as int, d2) is None);
                assert(post.count_spec(q) == 0);
            } else {
                assert(post.slot_of(a, d1) == pre.slot_of(a, d1));
                if pre.slot_of(a, d1) is Some {
                    let b = pre.slot_of(a, d1)->Some_0 as int;
                    assert(b < pre.num_nodes());
                    if b == n && d2 == d {
                        assert(pre.count_spec(q) == 0);
                        assert(post.slot_of(b, d2) == Option::Some(c));
                        assert(post.count_at(c as int) == 0);
                        assert(post.count_spec(q) == 0);
                    } else {
                        assert(post.slot_of(b, d2) == pre.slot_of(b, d2));
                        if pre.slot_of(b, d2) is Some {
                            let ep = pre.slot_of(b, d2)->Some_0 as int;
                            assert(ep < pre.num_nodes());
                            assert(post.count_at(ep) == pre.count_at(ep));
                        }
                    }
                }
            }
        }
    }
}

/// Raising the counter of the node at the end of one bucket id's path leaves
/// every other bucket id's count unchanged: by the single-parent invariant,
/// two distinct ids never share the endpoint of their paths.
proof fn lemma_bump_preserves_counts(pre: Radix, post: Radix, c: usize, id: u16, k: u16)
    requires
        pre.wf(),
        (c as int) < pre.num_nodes(),
        pre.slot_of(0, digit0(id)) is Some,
        pre.slot_of(pre.slot_of(0, digit0(id))->Some_0 as int, digit1(id)) is Some,
        pre.slot_of(
            pre.slot_of(pre.slot_of(0, digit0(id))->Some_0 as int, digit1(id))->Some_0 as int,
            digit2(id),
        ) == Option::Some(c),
        post.num_nodes() == pre.num_nodes(),
        forall|m: int, e: int|
            0 <= m < pre.num_nodes() && 0 <= e < 64 ==> post.slot_of(m, e) == pre.slot_of(m, e),
        forall|m: int|
            0 <= m < pre.num_nodes() && m != c as int ==> post.count_at(m) == pre.count_at(m),
        k != id,
    ensures
        post.count_spec(k) == pre.count_spec(k),
{
    let a_id = pre.slot_of(0, digit0(id))->Some_0 as int;
    let b_id = pre.slot_of(a_id, digit1(id))->Some_0 as int;
    assert(id as int == digit0(id) + 64 * digit1(id) + 4096 * digit2(id)) by {
        assert(id as int == 64 * (id as int / 64) + id as int % 64);
        assert(id as int / 64 == 64 * ((id as int / 64) / 64) + (id as int / 64) % 64);
    }
    assert(k as int == digit0(k) + 64 * digit1(k) + 4096 * digit2(k)) by {
        assert(k as int == 64 * (k as int / 64) + k as int % 64);
        assert(k as int / 64 == 64 * ((k as int / 64) / 64) + (k as int / 64) % 64);
    }
    if pre.slot_of(0, digit0(k)) is Some {
        let a_k = pre.slot_of(0, digit0(k))->Some_0 as int;
        if pre.slot_of(a_k, digit1(k)) is Some {
            let b_k = pre.slot_of(a_k, digit1(k))->Some_0 as int;
            if pre.slot_of(b_k, digit2(k)) is Some {
                let c_k = pre.slot_of(b_k, digit2(k))->Some_0 as int;
                if digit0(k) == digit0(id) && digit1(k) == digit1(id) && digit2(k) == digit2(id) {
                    assert(false);
                } else {
                    // the paths part at their first differing digit and, by
                    // the single-parent invariant, never rejoin
                    if digit0(k) != digit0(id) {
                        assert(a_k != a_id);
                        assert(b_k != b_id);
                        assert(c_k != c as int);
                    } else if digit1(k) != digit1(id) {
                        assert(a_k == a_id);
                        assert(b_k != b_id);
                        assert(c_k != c as int);
                    } else {
                        assert(a_k == a_id && b_k == b_id);
                        assert(c_k != c as int);
                    }
                }
            }
        }
    }
}

impl Default for Radix {
    /// An empty store: a lone root node whose slots are all empty, so every
    /// bucket id counts zero.
    fn default() -> (r: Radix)
        ensures
            r.wf(),
            r.num_nodes() == 1,
            forall|id: u16| r.count_spec(id) == 0,
    {
        let counts: Vec<usize> = vec![0];
        let children: Vec<Option<usize>> = vec![Option::None;64];
        Radix { counts, children }
    }
}

} // verus!
