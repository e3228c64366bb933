use vstd::prelude::*;

use crate::list::DoubleList;

verus! {

/// A forward iterator: a read-only cursor that starts at the head of the
/// list and yields one value per step, following `next` links, until it
/// has gone once around the ring.
///
/// The iterator borrows the list for its whole lifetime, so the borrow
/// checker rules out mutating the list while an iterator is live: the
/// ring cannot change under a cursor.
pub struct ListIterator<'a, T> {
    list: &'a DoubleList<T>,
    cur: usize,
    done: bool,
    pos: Ghost<int>,
}

/// A reverse iterator: a read-only cursor that starts at the tail of the
/// list (`head.prev`) and yields one value per step, following `prev`
/// links, until it has gone once around the ring.
pub struct RevListIterator<'a, T> {
    list: &'a DoubleList<T>,
    cur: usize,
    done: bool,
    pos: Ghost<int>,
}

impl<'a, T> ListIterator<'a, T> {
    /// Well-formedness: the cursor stands on the ring of a well-formed
    /// list at the position of the next value to yield, or the iteration
    /// is over.
    pub closed spec fn wf(&self) -> bool {
        &&& self.list.wf()
        &&& 0 <= self.pos@ <= self.list@.len()
        &&& (self.done <==> self.pos@ == self.list@.len())
        &&& (!self.done ==> self.cur as int == self.list.ring@[self.pos@])
    }

    /// The sequence of values the iterator was constructed over.
    pub closed spec fn items(&self) -> Seq<T> {
        self.list@
    }

    /// How many values have been yielded so far.
    pub closed spec fn pos(&self) -> int {
        self.pos@
    }

    /// Creates an iterator standing at the head of `list`.
    pub fn new(list: &'a DoubleList<T>) -> (it: Self)
        requires
            list.wf(),
        ensures
            it.wf(),
            it.items() == list@,
            it.pos() == 0,
    {
        proof {
            list.lemma_wf_unfold();
            list.lemma_view_unfold();
        }
        match list.head {
            Some(h) => ListIterator { list, cur: h, done: false, pos: Ghost(0) },
            None => ListIterator { list, cur: 0, done: true, pos: Ghost(0) },
        }
    }

    /// Yields a reference to the next value in forward order, or `None`
    /// once every value has been yielded.
    pub fn next(&mut self) -> (r: Option<&'a T>)
        requires
            old(self).wf(),
        ensures
            final(self).wf(),
            final(self).items() == old(self).items(),
            old(self).pos() < old(self).items().len() ==> {
                &&& r matches Some(v) && *v == old(self).items()[old(self).pos()]
                &&& final(self).pos() == old(self).pos() + 1
            },
            old(self).pos() >= old(self).items().len() ==> r is None && final(self).pos() == old(
                self,
            ).pos(),
    {
        if self.done {
            return None;
        }
        let list = self.list;
        let ghost r = list.ring@;
        let ghost n = list@.len() as int;
        proof {
            list.lemma_wf_unfold();
            list.lemma_view_unfold();
            assert(0 <= r[self.pos@] < list.data@.len());
            assert(list.data@[r[self.pos@]] is Some);
        }
        let v = list.data[self.cur].as_ref().unwrap();
        let nxt = list.next[self.cur];
        if nxt == list.head.unwrap() {
            self.done = true;
        } else {
            self.cur = nxt;
        }
        proof {
            self.pos@ = self.pos@ + 1;
            if self.pos@ < n {
                assert(nxt as int == r[self.pos@]);
                assert(r[self.pos@] != r[0]);
            } else {
                assert(nxt as int == r[0]);
            }
        }
        Some(v)
    }
}

impl<'a, T> RevListIterator<'a, T> {
    /// Well-formedness: the cursor stands on the ring of a well-formed
    /// list at the position of the next value to yield, counted from the
    /// tail, or the iteration is over.
    pub closed spec fn wf(&self) -> bool {
        &&& self.list.wf()
        &&& 0 <= self.pos@ <= self.list@.len()
        &&& (self.done <==> self.pos@ == self.list@.len())
        &&& (!self.done ==> self.cur as int == self.list.ring@[self.list@.len() - 1 - self.pos@])
    }

    /// The sequence of values the iterator was constructed over, still in
    /// forward order: the iterator yields it back to front.
    pub closed spec fn items(&self) -> Seq<T> {
        self.list@
    }

    /// How many values have been yielded so far.
    pub closed spec fn pos(&self) -> int {
        self.pos@
    }

    /// Creates an iterator standing at the tail of `list`.
    pub fn new(list: &'a DoubleList<T>) -> (it: Self)
        requires
            list.wf(),
        ensures
            it.wf(),
            it.items() == list@,
            it.pos() == 0,
    {
        proof {
            list.lemma_wf_unfold();
            list.lemma_view_unfold();
        }
        match list.head {
            Some(h) => {
                let t = list.prev[h];
                RevListIterator { list, cur: t, done: false, pos: Ghost(0) }
            },
            None => RevListIterator { list, cur: 0, done: true, pos: Ghost(0) },
        }
    }

    /// Yields a reference to the next value in reverse order -- the tail
    /// first, the head last -- or `None` once every value has been
    /// yielded.
    pub fn next(&mut self) -> (r: Option<&'a T>)
        requires
            old(self).wf(),
        ensures
            final(self).wf(),
            final(self).items() == old(self).items(),
            old(self).pos() < old(self).items().len() ==> {
                &&& r matches Some(v) && *v == old(self).items()[old(self).items().len() - 1 - old(
                    self,
                ).pos()]
                &&& final(self).pos() == old(self).pos() + 1
            },
            old(self).pos() >= old(self).items().len() ==> r is None && final(self).pos() == old(
                self,
            ).pos(),
    {
        if self.done {
            return None;
        }
        let list = self.list;
        let ghost r = list.ring@;
        let ghost n = list@.len() as int;
        proof {
            list.lemma_wf_unfold();
            list.lemma_view_unfold();
            assert(0 <= r[n - 1 - self.pos@] < list.data@.len());
            assert(list.data@[r[n - 1 - self.pos@]] is Some);
        }
        let v = list.data[self.cur].as_ref().unwrap();
        if self.cur == list.head.unwrap() {
            self.done = true;
            proof {
                assert(self.cur as int == r[0]);
                assert(n - 1 - self.pos@ == 0);
            }
        } else {
            proof {
                assert(n - 1 - self.pos@ >= 1) by {
                    if n - 1 - self.pos@ == 0 {
                        assert(self.cur as int == r[0]);
                    }
                }
            }
            self.cur = list.prev[self.cur];
            proof {
                assert(self.cur as int == r[n - 1 - self.pos@ - 1]);
            }
        }
        proof {
            self.pos@ = self.pos@ + 1;
        }
        Some(v)
    }
}

impl<T> DoubleList<T> {
    /// Returns a forward iterator over the values of the list.
    pub fn iter<'a>(&'a self) -> (it: ListIterator<'a, T>)
        requires
            self.wf(),
        ensures
            it.wf(),
            it.items() == self@,
            it.pos() == 0,
    {
        ListIterator::new(self)
    }

    /// Returns a reverse iterator over the values of the list.
    pub fn iter_rev<'a>(&'a self) -> (it: RevListIterator<'a, T>)
        requires
            self.wf(),
        ensures
            it.wf(),
            it.items() == self@,
            it.pos() == 0,
    {
        RevListIterator::new(self)
    }
}

} // verus!
