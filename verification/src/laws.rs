use vstd::prelude::*;
use vstd::set_lib::lemma_int_range;
use vstd::set_lib::lemma_subset_equality;
use vstd::set_lib::set_int_range;

use crate::list::DoubleList;

verus! {

impl<T> DoubleList<T> {
    /// Is `i` the arena index of a live node of the list?
    pub closed spec fn is_node(&self, i: int) -> bool {
        0 <= i < self.data@.len() && self.data@[i] is Some
    }

    /// The arena index of the head node (meaningful for a non-empty
    /// list).
    pub closed spec fn head_node(&self) -> int {
        self.head->0 as int
    }

    /// The arena index held by the `next` link of node `i`.
    pub closed spec fn next_of(&self, i: int) -> int {
        self.next@[i] as int
    }

    /// The arena index held by the `prev` link of node `i`.
    pub closed spec fn prev_of(&self, i: int) -> int {
        self.prev@[i] as int
    }

    /// The node reached from the head by following `next` exactly `k`
    /// times.
    pub open spec fn walk_next(&self, k: nat) -> int
        decreases k,
    {
        if k == 0 {
            self.head_node()
        } else {
            self.next_of(self.walk_next((k - 1) as nat))
        }
    }

    /// The node reached from the head by following `prev` exactly `k`
    /// times.
    pub open spec fn walk_prev(&self, k: nat) -> int
        decreases k,
    {
        if k == 0 {
            self.head_node()
        } else {
            self.prev_of(self.walk_prev((k - 1) as nat))
        }
    }

    /// Every live arena index appears on the ring: the ring and the free
    /// list are disjoint, duplicate-free and together exactly fill the
    /// arena, and free slots hold no value.
    proof fn lemma_ring_covers(&self)
        requires
            self.wf(),
        ensures
            forall|x: int|
                #[trigger] self.is_node(x) ==> exists|p: int|
                    0 <= p < self.ring@.len() && self.ring@[p] == x,
    {
        self.lemma_wf_unfold();
        let r = self.ring@;
        let f = self.free@;
        let n = r.len() as int;
        let len = self.data@.len() as int;
        let s = r + f.map_values(|u: usize| u as int);
        assert(s.len() == len);
        assert forall|i: int| 0 <= i < len implies 0 <= #[trigger] s[i] < len by {
            if i < n {
                assert(s[i] == r[i]);
            } else {
                assert(s[i] == f[i - n] as int);
            }
        }
        assert forall|i: int, j: int|
            0 <= i < len && 0 <= j < len && i != j implies s[i] != s[j] by {
            if i < n && j < n {
                assert(s[i] == r[i] && s[j] == r[j]);
            } else if i < n && j >= n {
                assert(s[i] == r[i] && s[j] == f[j - n] as int);
            } else if i >= n && j < n {
                assert(s[i] == f[i - n] as int && s[j] == r[j]);
            } else {
                assert(s[i] == f[i - n] as int && s[j] == f[j - n] as int);
                assert(f[i - n] != f[j - n]);
            }
        }
        assert(s.no_duplicates());
        s.unique_seq_to_set();
        lemma_int_range(0, len);
        assert(s.to_set().subset_of(set_int_range(0, len))) by {
            assert forall|x: int| s.to_set().contains(x) implies set_int_range(
                0,
                len,
            ).contains(x) by {
                assert(s.contains(x));
                let i = choose|i: int| 0 <= i < s.len() && s[i] == x;
                assert(0 <= s[i] < len);
            }
        }
        lemma_subset_equality(s.to_set(), set_int_range(0, len));
        assert forall|x: int| #[trigger] self.is_node(x) implies exists|p: int|
            0 <= p < r.len() && r[p] == x by {
            assert(set_int_range(0, len).contains(x));
            assert(s.to_set().contains(x));
            assert(s.contains(x));
            let i = choose|i: int| 0 <= i < s.len() && s[i] == x;
            if i >= n {
                assert(s[i] == f[i - n] as int);
                assert(self.data@[f[i - n] as int] is None);
                assert(false);
            }
            assert(s[i] == r[i]);
        }
    }

    /// Doubly-linked consistency: every live node's links lead to live
    /// nodes, its successor's `prev` link points back at it, and its
    /// predecessor's `next` link points back at it.
    pub proof fn lemma_links_consistent(&self)
        requires
            self.wf(),
        ensures
            forall|x: int|
                #[trigger] self.is_node(x) ==> {
                    &&& self.is_node(self.next_of(x))
                    &&& self.is_node(self.prev_of(x))
                    &&& self.prev_of(self.next_of(x)) == x
                    &&& self.next_of(self.prev_of(x)) == x
                },
    {
        self.lemma_wf_unfold();
        self.lemma_ring_covers();
        let r = self.ring@;
        let n = r.len() as int;
        assert forall|x: int| #[trigger] self.is_node(x) implies {
            &&& self.is_node(self.next_of(x))
            &&& self.is_node(self.prev_of(x))
            &&& self.prev_of(self.next_of(x)) == x
            &&& self.next_of(self.prev_of(x)) == x
        } by {
            let p = choose|p: int| 0 <= p < n && r[p] == x;
            let pn: int = if p == n - 1 {
                0
            } else {
                p + 1
            };
            let pp: int = if p == 0 {
                n - 1
            } else {
                p - 1
            };
            assert(self.next_of(x) == r[pn]);
            assert(self.prev_of(x) == r[pp]);
            assert(self.is_node(r[pn]));
            assert(self.is_node(r[pp]));
            assert(self.prev_of(r[pn]) == r[p]);
            assert(self.next_of(r[pp]) == r[p]);
        }
    }

    /// Following `next` from the head lands on ring position `k` (and
    /// back on the head after one full lap).
    proof fn lemma_walk_next_at(&self, k: nat)
        requires
            self.wf(),
            self@.len() > 0,
            k <= self@.len(),
        ensures
            self.walk_next(k) == if k < self@.len() {
                self.ring@[k as int]
            } else {
                self.ring@[0]
            },
        decreases k,
    {
        self.lemma_wf_unfold();
        self.lemma_view_unfold();
        let r = self.ring@;
        let n = r.len() as int;
        if k > 0 {
            self.lemma_walk_next_at((k - 1) as nat);
            if k < n {
                assert(self.next@[r[k - 1]] as int == r[k as int]);
            } else {
                assert(self.next@[r[n - 1]] as int == r[0]);
            }
        }
    }

    /// Following `prev` from the head lands on ring position `n - k` (and
    /// back on the head after one full lap).
    proof fn lemma_walk_prev_at(&self, k: nat)
        requires
            self.wf(),
            self@.len() > 0,
            k <= self@.len(),
        ensures
            self.walk_prev(k) == if k == 0 {
                self.ring@[0]
            } else {
                self.ring@[self@.len() - k]
            },
        decreases k,
    {
        self.lemma_wf_unfold();
        self.lemma_view_unfold();
        let r = self.ring@;
        let n = r.len() as int;
        if k > 0 {
            self.lemma_walk_prev_at((k - 1) as nat);
            if k == 1 {
                assert(self.walk_prev(0) == r[0]);
                assert(self.prev@[r[0]] as int == r[n - 1]);
            } else {
                assert(self.walk_prev((k - 1) as nat) == r[n - (k - 1)]);
                assert(1 <= n - (k - 1) < n);
                assert(self.prev@[r[n - (k - 1)]] as int == r[n - (k - 1) - 1]);
            }
        }
    }

    /// The ring invariant, seen from the links alone: in a non-empty
    /// list, walking `next` from the head for exactly `n` steps (`n` the
    /// number of elements) returns to the head, the first `n` steps visit
    /// pairwise distinct nodes, and every live node is visited.  The same
    /// walk backwards along `prev` returns to the head as well.
    pub proof fn lemma_ring_walk(&self)
        requires
            self.wf(),
            self@.len() > 0,
        ensures
            self.walk_next(self@.len()) == self.head_node(),
            self.walk_prev(self@.len()) == self.head_node(),
            forall|k1: nat, k2: nat|
                k1 < k2 < self@.len() ==> self.walk_next(k1) != self.walk_next(k2),
            forall|x: int|
                #[trigger] self.is_node(x) ==> exists|k: nat|
                    k < self@.len() && self.walk_next(k) == x,
    {
        self.lemma_wf_unfold();
        self.lemma_view_unfold();
        self.lemma_ring_covers();
        let r = self.ring@;
        let n = self@.len() as nat;
        self.lemma_walk_next_at(n);
        self.lemma_walk_prev_at(n);
        assert(r[0] == self.head_node());
        assert forall|k1: nat, k2: nat|
            k1 < k2 < self@.len() implies self.walk_next(k1) != self.walk_next(k2) by {
            self.lemma_walk_next_at(k1);
            self.lemma_walk_next_at(k2);
        }
        assert forall|x: int| #[trigger] self.is_node(x) implies exists|k: nat|
            k < self@.len() && self.walk_next(k) == x by {
            let p = choose|p: int| 0 <= p < r.len() && r[p] == x;
            self.lemma_walk_next_at(p as nat);
            assert(self.walk_next(p as nat) == x);
        }
    }

    /// A list holding exactly one element is a ring of one node: the
    /// node's `next` and `prev` links both reference the node itself.
    pub proof fn lemma_single_node(&self)
        requires
            self.wf(),
            self@.len() == 1,
        ensures
            self.is_node(self.head_node()),
            self.next_of(self.head_node()) == self.head_node(),
            self.prev_of(self.head_node()) == self.head_node(),
    {
        self.lemma_wf_unfold();
        self.lemma_view_unfold();
        let r = self.ring@;
        assert(self.head_node() == r[0]);
        assert(self.next@[r[0]] as int == r[0]);
        assert(self.prev@[r[0]] as int == r[0]);
        assert(self.data@[r[0]] is Some);
    }
}

} // verus!
