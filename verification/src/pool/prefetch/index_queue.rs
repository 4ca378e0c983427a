//! A bounded FIFO of distinct indices with removal from the middle.

use vstd::prelude::*;

verus! {

#[derive(Debug, Clone, Copy, PartialEq, Eq, Structural)]
struct Links {
    previous: Option<u32>,
    next: Option<u32>,
}

pub struct IndexQueue {
    links: Vec<Option<Links>>,
    first: Option<u32>,
    last: Option<u32>,
    order: Ghost<Seq<u32>>,
}

/// `queue` with `index` behind it, unless it is already queued.
pub open spec fn queued(queue: Seq<u32>, index: u32) -> Seq<u32> {
    if queue.contains(index) {
        queue
    } else {
        queue.push(index)
    }
}

/// `queue` with every index of `list` queued in order.
pub open spec fn queued_all(queue: Seq<u32>, list: Seq<u32>) -> Seq<u32>
    decreases list.len(),
{
    if list.len() == 0 {
        queue
    } else {
        queued(queued_all(queue, list.drop_last()), list.last())
    }
}

/// `queue` without `index`.
pub open spec fn unqueued(queue: Seq<u32>, index: u32) -> Seq<u32> {
    if queue.contains(index) {
        queue.remove(queue.index_of(index))
    } else {
        queue
    }
}

impl IndexQueue {
    /// The queued indices, first in first.
    pub closed spec fn view(&self) -> Seq<u32> {
        self.order@
    }

    pub closed spec fn room(self) -> nat {
        self.links@.len()
    }

    spec fn before(self, k: int) -> Option<u32> {
        if k > 0 {
            Some(self@[k - 1])
        } else {
            None
        }
    }

    spec fn after(self, k: int) -> Option<u32> {
        if k + 1 < self@.len() {
            Some(self@[k + 1])
        } else {
            None
        }
    }

    pub closed spec fn wf(self) -> bool {
        &&& self.room() <= u32::MAX
        &&& self@.no_duplicates()
        &&& self.first == (if self@.len() == 0 {
            None
        } else {
            Some(self@[0])
        })
        &&& self.last == (if self@.len() == 0 {
            None
        } else {
            Some(self@[self@.len() - 1])
        })
        &&& forall|k: int|
            0 <= k < self@.len() ==> (#[trigger] self@[k]) < self.room()
                && self.links@[self@[k] as int] == Some(
                Links { previous: self.before(k), next: self.after(k) },
            )
        &&& forall|i: int|
            0 <= i < self.room() && (#[trigger] self.links@[i]) is Some ==> self@.contains(i as u32)
    }

    /// A queue holds distinct indices below its capacity.
    pub proof fn lemma_members(self)
        requires
            self.wf(),
        ensures
            self@.no_duplicates(),
            forall|i: u32| #[trigger] self@.contains(i) ==> i < self.room(),
    {
    }

    pub fn new(capacity: u32) -> (queue: Self)
        ensures
            queue.wf(),
            queue.room() == capacity,
            queue@ == Seq::<u32>::empty(),
    {
        let mut links: Vec<Option<Links>> = Vec::new();
        let mut i: u32 = 0;
        while i < capacity
            invariant
                i <= capacity,
                links@.len() == i,
                forall|k: int| 0 <= k < i ==> (#[trigger] links@[k]) is None,
            decreases capacity - i,
        {
            links.push(None);
            i = i + 1;
        }
        IndexQueue { links, first: None, last: None, order: Ghost(Seq::empty()) }
    }

    pub fn front(&self) -> (front: Option<u32>)
        requires
            self.wf(),
        ensures
            front == (if self@.len() == 0 {
                None
            } else {
                Some(self@[0])
            }),
    {
        self.first
    }

    /// Whether `index` is queued.
    pub fn contains(&self, index: u32) -> (found: bool)
        requires
            self.wf(),
            index < self.room(),
        ensures
            found == self@.contains(index),
    {
        let found: bool = self.links[index as usize].is_some();
        proof {
            if self@.contains(index) {
                let k = choose|k: int| 0 <= k < self@.len() && self@[k] == index;
                assert(self.links@[self@[k] as int] is Some);
            }
        }
        found
    }

    /// Queues `index` behind the others, once.
    pub fn push(&mut self, index: u32)
        requires
            old(self).wf(),
            index < old(self).room(),
        ensures
            final(self).wf(),
            final(self).room() == old(self).room(),
            final(self)@ == queued(old(self)@, index),
    {
        if self.contains(index) {
            return;
        }
        let ghost start = *self;
        let ghost n = self@.len() as int;
        self.links.set(index as usize, Some(Links { previous: self.last, next: None }));
        match self.last {
            Some(last) => {
                proof {
                    assert(start@[n - 1] == last);
                    assert(start@.contains(last));
                }
                if let Some(tail) = self.links[last as usize] {
                    self.links.set(last as usize, Some(Links { next: Some(index), ..tail }));
                }
            },
            None => {
                self.first = Some(index);
            },
        }
        self.last = Some(index);
        proof {
            self.order@ = self.order@.push(index);
            assert forall|k: int| 0 <= k < self@.len() implies (#[trigger] self@[k]) < self.room()
                && self.links@[self@[k] as int] == Some(
                Links { previous: self.before(k), next: self.after(k) },
            ) by {
                if k < n {
                    assert(start@[k] == self@[k]);
                    assert(start@.contains(start@[k]));
                    if k > 0 {
                        assert(start@[k - 1] == self@[k - 1]);
                    }
                    if k < n - 1 {
                        assert(start@[k] != start@[n - 1]);
                    }
                }
            }
            assert(self@.no_duplicates()) by {
                assert forall|a: int, b: int|
                    0 <= a < self@.len() && 0 <= b < self@.len() && a != b implies self@[a]
                    != self@[b] by {
                    if a < n {
                        assert(start@.contains(start@[a]));
                    }
                    if b < n {
                        assert(start@.contains(start@[b]));
                    }
                }
            }
            assert forall|i: int|
                0 <= i < self.room() && (#[trigger] self.links@[i]) is Some implies self@.contains(
                i as u32,
            ) by {
                if i == index {
                    assert(self@[n] == index);
                } else {
                    assert(start.links@[i] is Some);
                    let k = choose|k: int| 0 <= k < start@.len() && start@[k] == i as u32;
                    assert(self@[k] == i as u32);
                }
            }
        }
    }

    /// Takes `index` out, wherever it stands.
    #[verifier::spinoff_prover]
    #[verifier::rlimit(40)]
    pub fn remove(&mut self, index: u32)
        requires
            old(self).wf(),
            index < old(self).room(),
        ensures
            final(self).wf(),
            final(self).room() == old(self).room(),
            final(self)@ == unqueued(old(self)@, index),
    {
        if !self.contains(index) {
            return;
        }
        let ghost start = *self;
        let ghost n = self@.len() as int;
        let ghost at = self@.index_of(index);
        proof {
            assert(start@[at] == index);
            if at > 0 {
                assert(start@[at - 1] != start@[at]);
            }
            if at + 1 < n {
                assert(start@[at + 1] != start@[at]);
            }
            if 0 < at && at + 1 < n {
                assert(start@[at - 1] != start@[at + 1]);
            }
        }
        if let Some(links) = self.links[index as usize] {
            self.links.set(index as usize, None);
            match links.previous {
                Some(previous) => {
                    if let Some(node) = self.links[previous as usize] {
                        self.links.set(previous as usize, Some(Links { next: links.next, ..node }));
                    }
                },
                None => {
                    self.first = links.next;
                },
            }
            match links.next {
                Some(next) => {
                    if let Some(node) = self.links[next as usize] {
                        self.links.set(
                            next as usize,
                            Some(Links { previous: links.previous, ..node }),
                        );
                    }
                },
                None => {
                    self.last = links.previous;
                },
            }
        }
        proof {
            self.order@ = start@.remove(at);
            let from = |k: int|
                if k < at {
                    k
                } else {
                    k + 1
                };
            assert forall|k: int| 0 <= k < self@.len() implies #[trigger] self@[k] == start@[from(
                k,
            )] by {}
            assert forall|k: int| 0 <= k < self@.len() implies (#[trigger] self@[k]) < self.room()
                && self.links@[self@[k] as int] == Some(
                Links { previous: self.before(k), next: self.after(k) },
            ) by {
                let j = from(k);
                assert(start@[j] == self@[k]);
                assert(start@[j] != start@[at]);
                if at > 0 && j != at - 1 {
                    assert(start@[j] != start@[at - 1]);
                }
                if at + 1 < n && j != at + 1 {
                    assert(start@[j] != start@[at + 1]);
                }
                if k > 0 {
                    assert(self@[k - 1] == start@[from(k - 1)]);
                }
                if k + 1 < self@.len() {
                    assert(self@[k + 1] == start@[from(k + 1)]);
                }
            }
            assert(self@.no_duplicates()) by {
                assert forall|a: int, b: int|
                    0 <= a < self@.len() && 0 <= b < self@.len() && a != b implies self@[a]
                    != self@[b] by {
                    assert(start@[from(a)] != start@[from(b)]);
                }
            }
            assert forall|i: int|
                0 <= i < self.room() && (#[trigger] self.links@[i]) is Some implies self@.contains(
                i as u32,
            ) by {
                assert(start.links@[i] is Some);
                let k = choose|k: int| 0 <= k < start@.len() && start@[k] == i as u32;
                if k < at {
                    assert(self@[k] == i as u32);
                } else {
                    assert(k != at);
                    assert(self@[k - 1] == i as u32);
                }
            }
            if self@.len() > 0 {
                assert(self@[0] == start@[from(0)]);
                assert(self@[self@.len() - 1] == start@[from(self@.len() - 1)]);
            }
        }
    }

    /// Takes the first index.
    pub fn pop(&mut self) -> (index: Option<u32>)
        requires
            old(self).wf(),
        ensures
            final(self).wf(),
            final(self).room() == old(self).room(),
            match index {
                Some(i) => old(self)@.len() > 0 && i == old(self)@[0] && final(self)@ == old(
                    self,
                )@.subrange(1, old(self)@.len() as int),
                None => old(self)@.len() == 0 && final(self)@ == old(self)@,
            },
    {
        match self.first {
            Some(index) => {
                assert(self@[0] == index);
                assert(self@.contains(index));
                self.remove(index);
                proof {
                    let at = old(self)@.index_of(index);
                    assert(old(self)@[at] == index);
                    assert(at == 0);
                    assert(self@ =~= old(self)@.subrange(1, old(self)@.len() as int));
                }
                Some(index)
            },
            None => None,
        }
    }
}

/// An index waits once: queueing it puts it behind all others unless it waits
/// already, taking it out leaves the others in their order, and a queue without
/// duplicates stays so.
pub proof fn an_index_waits_once(queue: Seq<u32>, index: u32, other: u32)
    requires
        queue.no_duplicates(),
    ensures
        queued(queue, index).contains(index),
        queued(queue, index).no_duplicates(),
        queue.contains(index) ==> queued(queue, index) == queue,
        !queue.contains(index) ==> queued(queue, index).len() == queue.len() + 1 && queued(
            queue,
            index,
        ).last() == index && queued(queue, index).drop_last() == queue,
        !unqueued(queue, index).contains(index),
        other != index ==> unqueued(queue, index).contains(other) == queue.contains(other),
        unqueued(queue, index).no_duplicates(),
        queue.contains(index) ==> unqueued(queue, index).len() == queue.len() - 1,
{
    if queue.contains(index) {
        let at = queue.index_of(index);
        let rest = unqueued(queue, index);
        assert forall|i: int| 0 <= i < rest.len() implies #[trigger] rest[i] == (if i < at {
            queue[i]
        } else {
            queue[i + 1]
        }) by {}
        if rest.contains(index) {
            let i = choose|i: int| 0 <= i < rest.len() && rest[i] == index;
            assert(queue[at] == index);
        }
        if other != index {
            if queue.contains(other) {
                let i = choose|i: int| 0 <= i < queue.len() && queue[i] == other;
                assert(rest[if i < at {
                    i
                } else {
                    i - 1
                }] == other);
            }
            if rest.contains(other) {
                let i = choose|i: int| 0 <= i < rest.len() && rest[i] == other;
                assert(queue[if i < at {
                    i
                } else {
                    i + 1
                }] == other);
            }
        }
    } else {
        let grown = queued(queue, index);
        assert(grown[queue.len() as int] == index);
        assert(grown.drop_last() =~= queue);
    }
}

} // verus!
