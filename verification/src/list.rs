use vstd::prelude::*;
use vstd::std_specs::cmp::PartialEqSpec;

verus! {

/// The one recoverable failure: `delete` was asked for a value that no
/// node of the list holds.
#[derive(Debug, Clone, Copy, PartialEq, Eq, Structural)]
pub enum ListError {
    NodeNotFound,
}

impl ListError {
    /// A human-readable description of the error.
    pub fn message(&self) -> (r: String)
        ensures
            r@ == "Value could not be found in the list"@,
    {
        match self {
            ListError::NodeNotFound => "Value could not be found in the list".to_string(),
        }
    }
}

/// A circular doubly-linked list.
///
/// The nodes live in an arena owned by the list: three parallel vectors
/// hold, for the node at arena index `i`, its value (`data[i]`), the
/// arena index of its successor (`next[i]`) and of its predecessor
/// (`prev[i]`).  A slot whose value is `None` is unallocated; `free`
/// lists exactly those slots, so an index stays stable for as long as its
/// node lives.  `head` is the arena index of the designated head node, or
/// `None` for an empty list.
///
/// The ghost field `ring` records the arena indices of the live nodes in
/// ring order, starting at the head: it ties the link structure to the
/// abstract sequence of values that `view` exposes.
pub struct DoubleList<T> {
    pub(crate) data: Vec<Option<T>>,
    pub(crate) next: Vec<usize>,
    pub(crate) prev: Vec<usize>,
    pub(crate) free: Vec<usize>,
    pub(crate) head: Option<usize>,
    pub(crate) ring: Ghost<Seq<int>>,
}

impl<T> DoubleList<T> {
    /// The allocation discipline of the arena: the link vectors run
    /// parallel to `data`, every slot is live (on the ring, holding a
    /// value) or free (on the free list, holding none), and no slot is
    /// both, so each node is destroyed exactly once.
    pub(crate) open spec fn arena_ok(&self) -> bool {
        let len = self.data@.len() as int;
        let n = self.ring@.len() as int;
        let r = self.ring@;
        let f = self.free@;
        &&& self.next@.len() == len
        &&& self.prev@.len() == len
        &&& n + f.len() == len
        &&& (forall|i: int| 0 <= i < f.len() ==> 0 <= #[trigger] f[i] < len)
        &&& (forall|i: int, j: int|
            0 <= i < f.len() && 0 <= j < f.len() && i != j ==> f[i] != f[j])
        &&& (forall|i: int, j: int|
            #![trigger r[i], f[j]]
            0 <= i < n && 0 <= j < f.len() ==> r[i] != f[j] as int)
        &&& (forall|i: int| 0 <= i < n ==> (#[trigger] self.data@[r[i]]) is Some)
        &&& (forall|i: int| 0 <= i < f.len() ==> self.data@[#[trigger] f[i] as int] is None)
    }

    /// The ring structure: `ring` is a duplicate-free listing of the live
    /// arena indices that starts at the head, and the `next`/`prev` links
    /// of ring neighbours point at each other, wrapping around at the
    /// ends.  A single node is its own neighbour in both directions.
    pub(crate) open spec fn links_ok(&self) -> bool {
        let len = self.data@.len() as int;
        let n = self.ring@.len() as int;
        let r = self.ring@;
        &&& (forall|i: int| 0 <= i < n ==> 0 <= #[trigger] r[i] < len)
        &&& (forall|i: int, j: int|
            0 <= i < n && 0 <= j < n && i != j ==> r[i] != r[j])
        &&& (n == 0 <==> self.head is None)
        &&& (n > 0 ==> self.head->0 as int == r[0])
        &&& (forall|i: int| 0 <= i < n - 1 ==> (#[trigger] self.next@[r[i]]) as int == r[i + 1])
        &&& (n > 0 ==> self.next@[r[n - 1]] as int == r[0])
        &&& (forall|i: int| 1 <= i < n ==> (#[trigger] self.prev@[r[i]]) as int == r[i - 1])
        &&& (n > 0 ==> self.prev@[r[0]] as int == r[n - 1])
    }

    /// Well-formedness of the whole structure.
    pub closed spec fn wf(&self) -> bool {
        self.arena_ok() && self.links_ok()
    }

    /// Unfolds `wf` for the other modules of the crate, which cannot see
    /// the body of a closed spec function defined here.
    pub(crate) proof fn lemma_wf_unfold(&self)
        ensures
            self.wf() <==> self.arena_ok() && self.links_ok(),
    {
    }

    /// Unfolds `view` for the other modules of the crate, which cannot
    /// see the body of a closed spec function defined here.
    pub(crate) proof fn lemma_view_unfold(&self)
        ensures
            self@ == Seq::new(self.ring@.len(), |i: int| self.data@[self.ring@[i]].unwrap()),
    {
    }

    /// Returns an empty list.
    pub fn new() -> (l: Self)
        ensures
            l.wf(),
            l@ == Seq::<T>::empty(),
    {
        let l = DoubleList {
            data: Vec::new(),
            next: Vec::new(),
            prev: Vec::new(),
            free: Vec::new(),
            head: None,
            ring: Ghost(Seq::empty()),
        };
        proof {
            assert(l@ =~= Seq::<T>::empty());
        }
        l
    }

    /// Is the list empty?
    pub fn is_empty(&self) -> (r: bool)
        requires
            self.wf(),
        ensures
            r <==> self@.len() == 0,
    {
        self.head.is_none()
    }

    /// Allocates an arena slot for a new node holding `new_data`: a slot
    /// is taken from the free list, or the arena grows by one.  The new
    /// node is not yet linked into the ring, so the caller must splice it
    /// in to restore well-formedness.
    fn create_node(&mut self, new_data: T) -> (k: usize)
        requires
            old(self).wf(),
        ensures
            final(self).ring@ == old(self).ring@,
            final(self).head == old(self).head,
            (k as int) < final(self).data@.len(),
            old(self).data@.len() <= final(self).data@.len(),
            final(self).next@.len() == final(self).data@.len(),
            final(self).prev@.len() == final(self).data@.len(),
            final(self).data@[k as int] == Some(new_data),
            forall|x: int|
                0 <= x < old(self).data@.len() && x != k ==> final(self).data@[x] == old(self).data@[x],
            forall|x: int|
                0 <= x < old(self).data@.len() && x != k ==> final(self).next@[x] == old(self).next@[x],
            forall|x: int|
                0 <= x < old(self).data@.len() && x != k ==> final(self).prev@[x] == old(self).prev@[x],
            forall|i: int| 0 <= i < old(self).ring@.len() ==> old(self).ring@[i] != k,
            final(self).ring@.len() + final(self).free@.len() + 1 == final(self).data@.len(),
            forall|i: int|
                0 <= i < final(self).free@.len() ==> 0 <= #[trigger] final(self).free@[i]
                    < final(self).data@.len(),
            forall|i: int| 0 <= i < final(self).free@.len() ==> final(self).free@[i] != k,
            forall|i: int, j: int|
                0 <= i < final(self).free@.len() && 0 <= j < final(self).free@.len() && i != j
                    ==> final(self).free@[i] != final(self).free@[j],
            forall|i: int, j: int|
                #![trigger final(self).ring@[i], final(self).free@[j]]
                0 <= i < final(self).ring@.len() && 0 <= j < final(self).free@.len()
                    ==> final(self).ring@[i] != final(self).free@[j] as int,
            forall|i: int|
                0 <= i < final(self).free@.len() ==> final(self).data@[#[trigger] final(self).free@[i] as int] is None,
    {
        match self.free.pop() {
            Some(f) => {
                self.data[f] = Some(new_data);
                f
            },
            None => {
                let k = self.data.len();
                self.data.push(Some(new_data));
                self.next.push(0);
                self.prev.push(0);
                k
            },
        }
    }

    /// Inserts an element at the front of the list: the new node becomes
    /// the head, spliced in between the old tail and the old head.
    pub fn insert_front(&mut self, new_data: T)
        requires
            old(self).wf(),
        ensures
            final(self).wf(),
            final(self)@ == seq![new_data] + old(self)@,
    {
        let k = self.create_node(new_data);
        match self.head {
            None => {
                self.next[k] = k;
                self.prev[k] = k;
                self.head = Some(k);
                proof {
                    self.ring@ = seq![k as int];
                    assert(self@ =~= seq![new_data] + old(self)@);
                }
            },
            Some(h) => {
                let t = self.prev[h];
                self.next[k] = h;
                self.prev[k] = t;
                self.next[t] = k;
                self.prev[h] = k;
                self.head = Some(k);
                proof {
                    self.ring@ = seq![k as int] + old(self).ring@;
                    self.lemma_splice_front(*old(self), k as int);
                    assert(self@ =~= seq![new_data] + old(self)@);
                }
            },
        }
    }

    /// Inserts an element at the back of the list: the new node becomes
    /// the tail (`head.prev`), spliced in between the old tail and the
    /// head; the head itself does not change.
    pub fn insert_back(&mut self, new_data: T)
        requires
            old(self).wf(),
        ensures
            final(self).wf(),
            final(self)@ == old(self)@.push(new_data),
    {
        let k = self.create_node(new_data);
        match self.head {
            None => {
                self.next[k] = k;
                self.prev[k] = k;
                self.head = Some(k);
                proof {
                    self.ring@ = seq![k as int];
                    assert(self@ =~= old(self)@.push(new_data));
                }
            },
            Some(h) => {
                let t = self.prev[h];
                self.next[k] = h;
                self.prev[k] = t;
                self.next[t] = k;
                self.prev[h] = k;
                proof {
                    self.ring@ = old(self).ring@ + seq![k as int];
                    self.lemma_splice_back(*old(self), k as int);
                    assert(self@ =~= old(self)@.push(new_data));
                }
            },
        }
    }

    /// Removes the element at forward position `index`, counted from the
    /// head, reaching it by following `next` links.  Returns `true` when
    /// such a position exists; `false` when `index` is negative or not
    /// smaller than the number of elements, in which case the list is
    /// left unchanged.
    pub fn remove(&mut self, index: i32) -> (removed: bool)
        requires
            old(self).wf(),
        ensures
            final(self).wf(),
            0 <= index < old(self)@.len() ==> removed && final(self)@ == old(self)@.remove(
                index as int,
            ),
            !(0 <= index < old(self)@.len()) ==> !removed && *final(self) == *old(self),
    {
        if index < 0 {
            return false;
        }
        let idx = index as usize;
        if self.head.is_none() {
            return false;
        }
        let ghost r = self.ring@;
        let ghost n = self@.len() as int;
        let mut cur = self.head.unwrap();
        let mut k: usize = 0;
        loop
            invariant
                self.wf(),
                *self == *old(self),
                r == self.ring@,
                n == self@.len(),
                n > 0,
                idx == index,
                0 <= index,
                k <= idx,
                (k as int) < n,
                cur as int == r[k as int],
            decreases idx - k,
        {
            if k == idx {
                self.remove_node(cur, Ghost(k as int));
                return true;
            }
            cur = self.next[cur];
            k = k + 1;
            proof {
                if (k as int) < n {
                    assert(cur as int == r[k as int]);
                } else {
                    assert(cur as int == r[0]);
                }
            }
            if cur == self.head.unwrap() {
                proof {
                    if (k as int) < n {
                        assert(r[k as int] != r[0]);
                        assert(false);
                    }
                }
                return false;
            }
            proof {
                if k as int == n {
                    assert(cur as int == r[0]);
                    assert(false);
                }
            }
        }
    }

    /// Tears the list down: starting at the head, destroys one node per
    /// step until none is left, and returns how many nodes were freed --
    /// exactly one per element the list held.
    pub fn clear(&mut self) -> (count: usize)
        requires
            old(self).wf(),
        ensures
            final(self).wf(),
            count == old(self)@.len(),
            final(self)@ == Seq::<T>::empty(),
    {
        proof {
            // the element count is bounded by the arena length, a vector
            // length, so `count` cannot overflow
            assert(self.data@.len() == self.data.len());
        }
        let mut count: usize = 0;
        while !self.is_empty()
            invariant
                self.wf(),
                count + self@.len() == old(self)@.len(),
                old(self)@.len() <= usize::MAX,
            decreases self@.len(),
        {
            let h = self.head.unwrap();
            self.remove_node(h, Ghost(0));
            count = count + 1;
        }
        proof {
            assert(self@ =~= Seq::<T>::empty());
        }
        count
    }

    /// Unlinks the node at arena index `cur` (ring position `pos`) from
    /// the ring, destroys its value and returns its slot to the free
    /// list.
    fn remove_node(&mut self, cur: usize, pos: Ghost<int>)
        requires
            old(self).wf(),
            0 <= pos@ < old(self)@.len(),
            cur as int == old(self).ring@[pos@],
        ensures
            final(self).wf(),
            final(self)@ == old(self)@.remove(pos@),
    {
        let ghost r = self.ring@;
        let ghost n = r.len() as int;
        let h = self.head.unwrap();
        if self.next[h] == h {
            // sole node of the list: no links need rewriting
            proof {
                if n >= 2 {
                    assert(self.next@[r[0]] as int == r[1]);
                    assert(false);
                }
            }
            self.data[cur] = None;
            self.free.push(cur);
            self.head = None;
            proof {
                self.ring@ = Seq::empty();
                assert forall|i: int, j: int|
                    0 <= i < self.free@.len() && 0 <= j < self.free@.len() && i != j implies self
                    .free@[i] != self.free@[j] by {
                    if i < self.free@.len() - 1 && j < self.free@.len() - 1 {
                    } else {
                        assert(r[0] == cur);
                    }
                }
                assert(self@ =~= old(self)@.remove(pos@));
            }
        } else {
            proof {
                assert(n >= 2) by {
                    if n == 1 {
                        assert(self.next@[r[0]] as int == r[0]);
                    }
                }
            }
            let p = self.prev[cur];
            let nx = self.next[cur];
            self.next[p] = nx;
            self.prev[nx] = p;
            if h == cur {
                self.head = Some(nx);
            }
            self.data[cur] = None;
            self.free.push(cur);
            proof {
                self.ring@ = r.remove(pos@);
                self.lemma_unlink(*old(self), pos@);
                let r2 = self.ring@;
                let f2 = self.free@;
                assert forall|i: int, j: int|
                    0 <= i < f2.len() && 0 <= j < f2.len() && i != j implies f2[i] != f2[j] by {
                    if i == f2.len() - 1 {
                        assert(old(self).free@[j] != cur);
                    } else if j == f2.len() - 1 {
                        assert(old(self).free@[i] != cur);
                    }
                }
                assert forall|i: int, j: int|
                    #![trigger r2[i], f2[j]]
                    0 <= i < r2.len() && 0 <= j < f2.len() implies r2[i] != f2[j] as int by {
                    let i0: int = if i < pos@ {
                        i
                    } else {
                        i + 1
                    };
                    assert(r2[i] == r[i0]);
                    if j == f2.len() - 1 {
                        assert(r[i0] != r[pos@]);
                    }
                }
                assert forall|i: int| 0 <= i < r2.len() implies (#[trigger] self.data@[r2[i]])
                    is Some by {
                    let i0: int = if i < pos@ {
                        i
                    } else {
                        i + 1
                    };
                    assert(r2[i] == r[i0]);
                    assert(r[i0] != r[pos@]);
                }
                assert forall|i: int| 0 <= i < f2.len() implies self.data@[#[trigger] f2[i] as int]
                    is None by {
                    if i < f2.len() - 1 {
                        assert(old(self).free@[i] != cur);
                        assert(old(self).data@[f2[i] as int] is None);
                    }
                }
                assert forall|i: int| 0 <= i < r2.len() implies old(self)@.remove(pos@)[i]
                    == self@[i] by {
                    let i0: int = if i < pos@ {
                        i
                    } else {
                        i + 1
                    };
                    assert(r2[i] == r[i0]);
                    assert(r[i0] != r[pos@]);
                    assert(self.data@[r2[i]] == old(self).data@[r[i0]]);
                }
                assert(self@ =~= old(self)@.remove(pos@));
            }
        }
    }

    /// Unlinking one node keeps the rest of the ring well linked: `pre`
    /// is the list before the call, `self` the state after the two
    /// neighbours of the node at ring position `pos` were linked to each
    /// other (and the head moved off it if it was the head), with
    /// `self.ring` already set to the shortened order.  The arena slot of
    /// the unlinked node is left alone here.
    proof fn lemma_unlink(&self, pre: Self, pos: int)
        requires
            pre.wf(),
            pre.ring@.len() >= 2,
            0 <= pos < pre.ring@.len(),
            self.data@.len() == pre.data@.len(),
            self.next@.len() == pre.next@.len(),
            self.prev@.len() == pre.prev@.len(),
            self.next@[pre.ring@[if pos == 0 {
                pre.ring@.len() - 1
            } else {
                pos - 1
            }]] as int == pre.ring@[if pos == pre.ring@.len() - 1 {
                0
            } else {
                pos + 1
            }],
            self.prev@[pre.ring@[if pos == pre.ring@.len() - 1 {
                0
            } else {
                pos + 1
            }]] as int == pre.ring@[if pos == 0 {
                pre.ring@.len() - 1
            } else {
                pos - 1
            }],
            forall|x: int|
                0 <= x < pre.next@.len() && x != pre.ring@[if pos == 0 {
                    pre.ring@.len() - 1
                } else {
                    pos - 1
                }] ==> self.next@[x] == pre.next@[x],
            forall|x: int|
                0 <= x < pre.prev@.len() && x != pre.ring@[if pos == pre.ring@.len() - 1 {
                    0
                } else {
                    pos + 1
                }] ==> self.prev@[x] == pre.prev@[x],
            self.ring@ == pre.ring@.remove(pos),
            pos == 0 ==> self.head is Some && self.head->0 as int == pre.ring@[1],
            pos != 0 ==> self.head == pre.head,
        ensures
            self.links_ok(),
    {
        let n = pre.ring@.len() as int;
        let r = pre.ring@;
        let r2 = self.ring@;
        let m = n - 1;
        let p = r[if pos == 0 {
            n - 1
        } else {
            pos - 1
        }];
        let nx = r[if pos == n - 1 {
            0
        } else {
            pos + 1
        }];
        assert(r2.len() == m);
        assert forall|i: int| 0 <= i < m implies r2[i] == r[if i < pos {
            i
        } else {
            i + 1
        }] by {}
        assert forall|i: int| 0 <= i < m implies 0 <= #[trigger] r2[i] < self.data@.len() by {
            assert(r2[i] == r[if i < pos {
                i
            } else {
                i + 1
            }]);
        }
        assert forall|i: int, j: int|
            0 <= i < m && 0 <= j < m && i != j implies r2[i] != r2[j] by {
            assert(r2[i] == r[if i < pos {
                i
            } else {
                i + 1
            }]);
            assert(r2[j] == r[if j < pos {
                j
            } else {
                j + 1
            }]);
        }
        assert(m > 0);
        assert(self.head is Some && self.head->0 as int == r2[0]) by {
            if pos == 0 {
                assert(r2[0] == r[1]);
            } else {
                assert(r2[0] == r[0]);
            }
        }
        assert forall|i: int| 0 <= i < m - 1 implies (#[trigger] self.next@[r2[i]]) as int == r2[i
            + 1] by {
            let i0: int = if i < pos {
                i
            } else {
                i + 1
            };
            let i1: int = if i + 1 < pos {
                i + 1
            } else {
                i + 2
            };
            assert(r2[i] == r[i0]);
            assert(r2[i + 1] == r[i1]);
            if i + 1 == pos {
                assert(i0 == pos - 1 && i1 == pos + 1);
                assert(r[i0] == p);
                assert(self.next@[p] as int == nx);
                assert(nx == r[i1]);
            } else {
                assert(i1 == i0 + 1);
                if r[i0] == p {
                    assert(false);
                }
                assert(self.next@[r[i0]] == pre.next@[r[i0]]);
                assert(pre.next@[r[i0]] as int == r[i0 + 1]);
            }
        }
        assert((#[trigger] self.next@[r2[m - 1]]) as int == r2[0]) by {
            let i0: int = if m - 1 < pos {
                m - 1
            } else {
                m
            };
            assert(r2[m - 1] == r[i0]);
            if pos == m {
                assert(i0 == m - 1);
                assert(r[i0] == p);
                assert(self.next@[p] as int == nx);
                assert(nx == r[0]);
                assert(r2[0] == r[0]);
            } else if pos == 0 {
                assert(i0 == m);
                assert(r[i0] == p);
                assert(self.next@[p] as int == nx);
                assert(nx == r[1]);
                assert(r2[0] == r[1]);
            } else {
                assert(i0 == m);
                if r[i0] == p {
                    assert(false);
                }
                assert(self.next@[r[i0]] == pre.next@[r[i0]]);
                assert(pre.next@[r[m]] as int == r[0]);
                assert(r2[0] == r[0]);
            }
        }
        assert forall|i: int| 1 <= i < m implies (#[trigger] self.prev@[r2[i]]) as int == r2[i
            - 1] by {
            let i0: int = if i < pos {
                i
            } else {
                i + 1
            };
            let i1: int = if i - 1 < pos {
                i - 1
            } else {
                i
            };
            assert(r2[i] == r[i0]);
            assert(r2[i - 1] == r[i1]);
            if i == pos {
                assert(i0 == pos + 1 && i1 == pos - 1);
                assert(r[i0] == nx);
                assert(self.prev@[nx] as int == p);
                assert(p == r[i1]);
            } else {
                assert(i1 == i0 - 1);
                if r[i0] == nx {
                    assert(false);
                }
                assert(self.prev@[r[i0]] == pre.prev@[r[i0]]);
                assert(pre.prev@[r[i0]] as int == r[i0 - 1]);
            }
        }
        assert((#[trigger] self.prev@[r2[0]]) as int == r2[m - 1]) by {
            let i0: int = if 0 < pos {
                0
            } else {
                1
            };
            assert(r2[0] == r[i0]);
            let j0: int = if m - 1 < pos {
                m - 1
            } else {
                m
            };
            assert(r2[m - 1] == r[j0]);
            if pos == 0 {
                assert(i0 == 1);
                assert(r[i0] == nx);
                assert(self.prev@[nx] as int == p);
                assert(p == r[m]);
                assert(j0 == m);
            } else if pos == m {
                assert(i0 == 0);
                assert(r[0] == nx);
                assert(self.prev@[nx] as int == p);
                assert(p == r[m - 1]);
                assert(j0 == m - 1);
            } else {
                assert(i0 == 0);
                if r[0] == nx {
                    assert(false);
                }
                assert(self.prev@[r[0]] == pre.prev@[r[0]]);
                assert(pre.prev@[r[0]] as int == r[m]);
                assert(j0 == m);
            }
        }
    }

    /// The splice that `insert_front` performs keeps the ring well
    /// linked: `pre` is the list before the call, `self` the state after
    /// a fresh node `k` was allocated, the four links around it were
    /// rewritten and `k` became the head, with `self.ring` already set to
    /// the new order.
    proof fn lemma_splice_front(&self, pre: Self, k: int)
        requires
            pre.wf(),
            pre.ring@.len() > 0,
            0 <= k < self.data@.len(),
            pre.data@.len() <= self.data@.len(),
            self.next@.len() == self.data@.len(),
            self.prev@.len() == self.data@.len(),
            forall|i: int| 0 <= i < pre.ring@.len() ==> pre.ring@[i] != k,
            self.next@[k] as int == pre.head->0 as int,
            self.prev@[k] as int == pre.prev@[pre.head->0 as int] as int,
            self.next@[pre.prev@[pre.head->0 as int] as int] as int == k,
            self.prev@[pre.head->0 as int] as int == k,
            forall|x: int|
                0 <= x < pre.data@.len() && x != k && x != pre.prev@[pre.head->0 as int] as int
                    ==> self.next@[x] == pre.next@[x],
            forall|x: int|
                0 <= x < pre.data@.len() && x != k && x != pre.head->0 as int ==> self.prev@[x]
                    == pre.prev@[x],
            self.ring@ == seq![k] + pre.ring@,
            self.head is Some && self.head->0 as int == k,
        ensures
            self.links_ok(),
    {
        let n = pre.ring@.len() as int;
        let r = pre.ring@;
        let r2 = self.ring@;
        let h = pre.head->0 as int;
        let t = r[n - 1];
        assert(h == r[0]);
        assert(pre.next@[t] as int == r[0]);
        assert(pre.prev@[r[0]] as int == t);
        assert forall|i: int| 0 <= i < n + 1 implies 0 <= #[trigger] r2[i] < self.data@.len() by {
            if i > 0 {
                assert(r2[i] == r[i - 1]);
            }
        }
        assert forall|i: int, j: int|
            0 <= i < n + 1 && 0 <= j < n + 1 && i != j implies r2[i] != r2[j] by {
            if i > 0 && j > 0 {
                assert(r2[i] == r[i - 1]);
                assert(r2[j] == r[j - 1]);
            } else if i == 0 && j > 0 {
                assert(r2[j] == r[j - 1]);
            } else if j == 0 && i > 0 {
                assert(r2[i] == r[i - 1]);
            }
        }
        assert forall|i: int| 0 <= i < n implies (#[trigger] self.next@[r2[i]]) as int == r2[i
            + 1] by {
            if i == 0 {
                assert(r2[0] == k);
                assert(r2[1] == r[0]);
            } else {
                assert(r2[i] == r[i - 1]);
                assert(r2[i + 1] == r[i]);
                if r[i - 1] == t {
                    assert(i - 1 == n - 1);
                    assert(false);
                }
                assert(self.next@[r[i - 1]] == pre.next@[r[i - 1]]);
            }
        }
        assert(r2[n] == r[n - 1]);
        assert(self.next@[r2[n]] as int == r2[0]);
        assert forall|i: int| 1 <= i < n + 1 implies (#[trigger] self.prev@[r2[i]]) as int == r2[i
            - 1] by {
            if i == 1 {
                assert(r2[1] == r[0]);
                assert(self.prev@[r[0]] as int == k);
            } else {
                assert(r2[i] == r[i - 1]);
                assert(r2[i - 1] == r[i - 2]);
                if r[i - 1] == r[0] {
                    assert(false);
                }
                assert(self.prev@[r[i - 1]] == pre.prev@[r[i - 1]]);
            }
        }
        assert(r2[0] == k);
        assert(self.prev@[r2[0]] as int == r2[n]);
    }

    /// The splice that `insert_back` performs keeps the ring well linked:
    /// `pre` is the list before the call, `self` the state after a fresh
    /// node `k` was allocated and the four links around it were
    /// rewritten, the head left in place, with `self.ring` already set to
    /// the new order.
    proof fn lemma_splice_back(&self, pre: Self, k: int)
        requires
            pre.wf(),
            pre.ring@.len() > 0,
            0 <= k < self.data@.len(),
            pre.data@.len() <= self.data@.len(),
            self.next@.len() == self.data@.len(),
            self.prev@.len() == self.data@.len(),
            forall|i: int| 0 <= i < pre.ring@.len() ==> pre.ring@[i] != k,
            self.next@[k] as int == pre.head->0 as int,
            self.prev@[k] as int == pre.prev@[pre.head->0 as int] as int,
            self.next@[pre.prev@[pre.head->0 as int] as int] as int == k,
            self.prev@[pre.head->0 as int] as int == k,
            forall|x: int|
                0 <= x < pre.data@.len() && x != k && x != pre.prev@[pre.head->0 as int] as int
                    ==> self.next@[x] == pre.next@[x],
            forall|x: int|
                0 <= x < pre.data@.len() && x != k && x != pre.head->0 as int ==> self.prev@[x]
                    == pre.prev@[x],
            self.ring@ == pre.ring@ + seq![k],
            self.head == pre.head,
        ensures
            self.links_ok(),
    {
        let n = pre.ring@.len() as int;
        let r = pre.ring@;
        let r2 = self.ring@;
        let h = pre.head->0 as int;
        let t = r[n - 1];
        assert(h == r[0]);
        assert(pre.next@[t] as int == r[0]);
        assert(pre.prev@[r[0]] as int == t);
        assert forall|i: int| 0 <= i < n + 1 implies 0 <= #[trigger] r2[i] < self.data@.len() by {
            if i < n {
                assert(r2[i] == r[i]);
            }
        }
        assert forall|i: int, j: int|
            0 <= i < n + 1 && 0 <= j < n + 1 && i != j implies r2[i] != r2[j] by {
            if i < n && j < n {
                assert(r2[i] == r[i]);
                assert(r2[j] == r[j]);
            } else if i == n && j < n {
                assert(r2[j] == r[j]);
            } else if j == n && i < n {
                assert(r2[i] == r[i]);
            }
        }
        assert forall|i: int| 0 <= i < n implies (#[trigger] self.next@[r2[i]]) as int == r2[i
            + 1] by {
            assert(r2[i] == r[i]);
            if i < n - 1 {
                assert(r2[i + 1] == r[i + 1]);
                if r[i] == t {
                    assert(false);
                }
                assert(self.next@[r[i]] == pre.next@[r[i]]);
            } else {
                assert(r2[i + 1] == k);
                assert(self.next@[t] as int == k);
            }
        }
        assert(r2[n] == k);
        assert(self.next@[r2[n]] as int == r2[0]);
        assert forall|i: int| 1 <= i < n + 1 implies (#[trigger] self.prev@[r2[i]]) as int == r2[i
            - 1] by {
            if i < n {
                assert(r2[i] == r[i]);
                assert(r2[i - 1] == r[i - 1]);
                if r[i] == r[0] {
                    assert(false);
                }
                assert(self.prev@[r[i]] == pre.prev@[r[i]]);
            } else {
                assert(r2[n] == k);
                assert(r2[n - 1] == r[n - 1]);
                assert(self.prev@[k] as int == t);
            }
        }
        assert(self.prev@[r2[0]] as int == r2[n]);
    }
}

impl<T: PartialEq> DoubleList<T> {
    /// Deletes the first element, in forward order from the head, that
    /// compares equal to `element`: the traversal follows `next` links
    /// and stops after one full cycle.  When no element compares equal
    /// (in particular when the list is empty), `NodeNotFound` is
    /// returned and the list is left unchanged.
    ///
    /// The exact clauses about which element goes hold whenever the
    /// `==` of `T` agrees with its mathematical meaning (`obeys_eq_spec`,
    /// true of the primitive types); for any other `T`, whatever `==`
    /// answered, one element is removed on success and nothing changes on
    /// failure.
    pub fn delete(&mut self, element: &T) -> (res: Result<(), ListError>)
        requires
            old(self).wf(),
        ensures
            final(self).wf(),
            res is Ok ==> old(self)@.len() > 0 && exists|i: int|
                0 <= i < old(self)@.len() && final(self)@ == old(self)@.remove(i),
            res matches Err(e) ==> *final(self) == *old(self) && e == ListError::NodeNotFound,
            T::obeys_eq_spec() ==> match res {
                Ok(()) => exists|i: int|
                    {
                        &&& 0 <= i < old(self)@.len()
                        &&& (#[trigger] old(self)@[i]).eq_spec(element)
                        &&& (forall|j: int|
                            0 <= j < i ==> !(#[trigger] old(self)@[j]).eq_spec(element))
                        &&& final(self)@ == old(self)@.remove(i)
                    },
                Err(_) => forall|i: int|
                    0 <= i < old(self)@.len() ==> !(#[trigger] old(self)@[i]).eq_spec(element),
            },
    {
        if self.head.is_none() {
            return Err(ListError::NodeNotFound);
        }
        let ghost r = self.ring@;
        let ghost n = self@.len() as int;
        let mut cur = self.head.unwrap();
        let ghost mut i: int = 0;
        loop
            invariant_except_break
                0 <= i < n,
                cur as int == r[i],
            invariant
                self.wf(),
                *self == *old(self),
                r == self.ring@,
                n == self@.len(),
                n > 0,
                0 <= i <= n,
                T::obeys_eq_spec() ==> forall|j: int|
                    0 <= j < i ==> !(#[trigger] old(self)@[j]).eq_spec(element),
            ensures
                T::obeys_eq_spec() ==> forall|j: int|
                    0 <= j < n ==> !(#[trigger] old(self)@[j]).eq_spec(element),
                *self == *old(self),
            decreases n - i,
        {
            let matched = {
                let v = self.data[cur].as_ref().unwrap();
                *v == *element
            };
            if matched {
                proof {
                    assert(old(self)@[i] == self.data@[cur as int].unwrap());
                }
                self.remove_node(cur, Ghost(i));
                return Ok(());
            }
            cur = self.next[cur];
            proof {
                i = i + 1;
                if i < n {
                    assert(cur as int == r[i]);
                } else {
                    assert(cur as int == r[0]);
                }
            }
            if cur == self.head.unwrap() {
                proof {
                    if i < n {
                        assert(r[i] != r[0]);
                        assert(false);
                    }
                }
                break;
            }
            proof {
                if i == n {
                    assert(cur as int == r[0]);
                    assert(false);
                }
            }
        }
        Err(ListError::NodeNotFound)
    }
}

impl<T> Default for DoubleList<T> {
    /// The default list is the empty list.
    fn default() -> (l: Self)
        ensures
            l.wf(),
            l@ == Seq::<T>::empty(),
    {
        Self::new()
    }
}

impl<T> View for DoubleList<T> {
    type V = Seq<T>;

    /// The values of the list in forward order: the head node's value
    /// first, then its successors around the ring.
    closed spec fn view(&self) -> Seq<T> {
        Seq::new(self.ring@.len(), |i: int| self.data@[self.ring@[i]].unwrap())
    }
}

} // verus!
