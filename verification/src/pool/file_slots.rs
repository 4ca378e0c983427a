//! Fixed slots with intrusive per-file membership.
//!
//! Every occupied slot is threaded, newest first, on the list of the file slot
//! that owns its value, so a file's members are found without scanning.

use crate::driver::FileId;
use vstd::prelude::*;

verus! {

/// A value owned by one slot of the file table.
pub trait FileOwned: Copy {
    spec fn owner(self) -> u32;

    fn file_slot(self) -> (slot: u32)
        ensures
            slot == self.owner(),
    ;

    /// A value for slots that were never occupied.
    fn blank() -> (value: Self);
}

/// A list link: zero is vacancy, `index + 1` names a slot.
#[derive(Clone, Copy, Debug, PartialEq, Eq, Structural)]
pub struct SlotLink(pub u32);

impl SlotLink {
    pub fn from_index(index: usize) -> (link: Self)
        requires
            index < u32::MAX,
        ensures
            link.0 == index + 1,
    {
        SlotLink(index as u32 + 1)
    }

    pub fn index(self) -> (index: Option<usize>)
        ensures
            self.0 == 0 ==> index is None,
            self.0 != 0 ==> index == Some((self.0 - 1) as usize),
    {
        if self.0 == 0 {
            None
        } else {
            Some((self.0 - 1) as usize)
        }
    }
}

impl Default for SlotLink {
    fn default() -> (link: Self)
        ensures
            link.0 == 0,
    {
        SlotLink(0)
    }
}

/// One slot: its two links and its value. A slot whose `next` is zero is
/// vacant, whatever value is left in it; the ends of a list link to themselves.
#[derive(Debug)]
pub struct FileSlot<T: Copy> {
    previous: SlotLink,
    next: SlotLink,
    value: T,
}

impl<T: Copy> FileSlot<T> {
    pub closed spec fn content(self) -> Option<T> {
        if self.next.0 == 0 {
            None
        } else {
            Some(self.value)
        }
    }

    fn vacant(value: T) -> (slot: Self)
        ensures
            slot.content() is None,
            slot.next.0 == 0,
    {
        FileSlot { previous: SlotLink(0), next: SlotLink(0), value }
    }

    fn copied(&self) -> (slot: Self)
        ensures
            slot == *self,
    {
        FileSlot { previous: self.previous, next: self.next, value: self.value }
    }

    pub fn get(&self) -> (value: Option<T>)
        ensures
            value == self.content(),
    {
        if self.next.0 == 0 {
            None
        } else {
            Some(self.value)
        }
    }

    pub fn is_none(&self) -> (vacant: bool)
        ensures
            vacant == (self.content() is None),
    {
        self.next.0 == 0
    }
}

pub struct FileSlots<T: FileOwned> {
    slots: Vec<FileSlot<T>>,
    heads: Vec<SlotLink>,
    order: Ghost<Seq<Seq<int>>>,
}

impl<T: FileOwned> FileSlots<T> {
    /// The number of slots.
    pub closed spec fn capacity(self) -> nat {
        self.slots@.len()
    }

    /// The number of file slots that can own values.
    pub closed spec fn file_capacity(self) -> nat {
        self.heads@.len()
    }

    /// The value in slot `index`, if it is occupied.
    pub closed spec fn at(self, index: int) -> Option<T> {
        self.slots@[index].content()
    }

    /// The occupied slots owned by file slot `owner`, newest first.
    pub closed spec fn members(self, owner: int) -> Seq<int> {
        self.order@[owner]
    }

    spec fn after(self, owner: int, position: int) -> int {
        let list = self.members(owner);
        if position + 1 < list.len() {
            list[position + 1] + 1
        } else {
            list[position] + 1
        }
    }

    spec fn before(self, owner: int, position: int) -> int {
        let list = self.members(owner);
        if position > 0 {
            list[position - 1] + 1
        } else {
            list[position] + 1
        }
    }

    spec fn threaded(self, owner: int) -> bool {
        let list = self.members(owner);
        &&& list.no_duplicates()
        &&& self.heads@[owner].0 == (if list.len() == 0 {
            0
        } else {
            list[0] + 1
        })
        &&& forall|k: int|
            #![trigger list[k]]
            0 <= k < list.len() ==> {
                &&& 0 <= list[k] < self.capacity()
                &&& self.at(list[k]) is Some
                &&& self.at(list[k])->0.owner() == owner
                &&& self.slots@[list[k]].next.0 == self.after(owner, k)
                &&& self.slots@[list[k]].previous.0 == self.before(owner, k)
            }
    }

    pub closed spec fn wf(self) -> bool {
        &&& 0 < self.capacity() <= u32::MAX
        &&& self.file_capacity() <= u32::MAX
        &&& self.order@.len() == self.file_capacity()
        &&& forall|owner: int| 0 <= owner < self.file_capacity() ==> #[trigger] self.threaded(owner)
        &&& forall|i: int|
            0 <= i < self.capacity() ==> {
                (#[trigger] self.slots@[i]).content() is Some ==> {
                    &&& self.slots@[i].content()->0.owner() < self.file_capacity()
                    &&& self.members(self.slots@[i].content()->0.owner() as int).contains(i)
                }
            }
    }

    /// A list holds exactly the occupied slots of its owner, each once.
    pub proof fn lemma_members(self, owner: int)
        requires
            self.wf(),
            0 <= owner < self.file_capacity(),
        ensures
            self.members(owner).no_duplicates(),
            forall|i: int|
                #[trigger] self.members(owner).contains(i) <==> 0 <= i < self.capacity() && self.at(
                    i,
                ) is Some && self.at(i)->0.owner() == owner,
            self.members(owner).len() <= self.capacity(),
    {
        assert(self.threaded(owner));
        let list = self.members(owner);
        assert forall|i: int|
            #[trigger] self.members(owner).contains(i) <==> 0 <= i < self.capacity() && self.at(
                i,
            ) is Some && self.at(i)->0.owner() == owner by {
            if list.contains(i) {
                let k = choose|k: int| 0 <= k < list.len() && list[k] == i;
                assert(list[k] == i);
            }
            if 0 <= i < self.capacity() {
                assert(self.at(i) == self.slots@[i].content());
            }
        }
        assert(list.to_set().subset_of(vstd::set_lib::set_int_range(0, self.capacity() as int)));
        vstd::set_lib::lemma_int_range(0, self.capacity() as int);
        vstd::set_lib::lemma_len_subset(
            list.to_set(),
            vstd::set_lib::set_int_range(0, self.capacity() as int),
        );
        list.unique_seq_to_set();
    }

    pub fn try_new(capacity: u32, file_capacity: u32) -> (slots: Option<Self>)
        requires
            capacity > 0,
        ensures
            slots matches Some(s) && s.wf() && s.capacity() == capacity && s.file_capacity()
                == file_capacity && (forall|i: int|
                0 <= i < capacity ==> #[trigger] s.at(i) is None) && (forall|o: int|
                0 <= o < file_capacity ==> #[trigger] s.members(o) == Seq::<int>::empty()),
    {
        Some(Self::new(capacity, file_capacity))
    }

    /// Vacant slots under `file_capacity` empty lists.
    pub fn new(capacity: u32, file_capacity: u32) -> (slots: Self)
        requires
            capacity > 0,
        ensures
            slots.wf(),
            slots.capacity() == capacity,
            slots.file_capacity() == file_capacity,
            forall|i: int| 0 <= i < capacity ==> #[trigger] slots.at(i) is None,
            forall|o: int|
                0 <= o < file_capacity ==> #[trigger] slots.members(o) == Seq::<int>::empty(),
    {
        let mut slots: Vec<FileSlot<T>> = Vec::new();
        let mut i: u32 = 0;
        while i < capacity
            invariant
                i <= capacity,
                slots@.len() == i,
                forall|k: int| 0 <= k < i ==> (#[trigger] slots@[k]).content() is None,
            decreases capacity - i,
        {
            slots.push(FileSlot::vacant(T::blank()));
            i = i + 1;
        }
        let mut heads: Vec<SlotLink> = Vec::new();
        let mut o: u32 = 0;
        while o < file_capacity
            invariant
                o <= file_capacity,
                heads@.len() == o,
                forall|k: int| 0 <= k < o ==> (#[trigger] heads@[k]).0 == 0,
            decreases file_capacity - o,
        {
            heads.push(SlotLink(0));
            o = o + 1;
        }
        FileSlots { slots, heads, order: Ghost(Seq::new(heads@.len(), |k: int| Seq::<int>::empty())) }
    }

    /// The number of slots.
    pub fn len(&self) -> (len: usize)
        ensures
            len == self.capacity(),
    {
        self.slots.len()
    }

    /// The value in slot `index`, if it is occupied.
    pub fn get(&self, index: usize) -> (value: Option<T>)
        requires
            index < self.capacity(),
        ensures
            value == self.at(index as int),
    {
        self.slots[index].get()
    }

    /// Whether slot `index` is vacant.
    pub fn is_none(&self, index: usize) -> (vacant: bool)
        requires
            index < self.capacity(),
        ensures
            vacant == (self.at(index as int) is None),
    {
        self.slots[index].is_none()
    }

    /// Replaces the value of an occupied slot by one of the same owner.
    pub fn set(&mut self, index: usize, value: T)
        requires
            old(self).wf(),
            index < old(self).capacity(),
            old(self).at(index as int) is Some,
            old(self).at(index as int)->0.owner() == value.owner(),
        ensures
            final(self).wf(),
            final(self).capacity() == old(self).capacity(),
            final(self).file_capacity() == old(self).file_capacity(),
            final(self).at(index as int) == Some(value),
            forall|i: int|
                0 <= i < old(self).capacity() && i != index ==> #[trigger] final(self).at(i)
                    == old(self).at(i),
            forall|o: int|
                0 <= o < old(self).file_capacity() ==> #[trigger] final(self).members(o) == old(
                    self,
                ).members(o),
    {
        let mut slot: FileSlot<T> = self.slots[index].copied();
        slot.value = value;
        self.slots.set(index, slot);
        proof {
            assert forall|owner: int| 0 <= owner < self.file_capacity() implies #[trigger] self.threaded(
                owner,
            ) by {
                assert(old(self).threaded(owner));
                let list = self.members(owner);
                assert forall|k: int| #![trigger list[k]] 0 <= k < list.len() implies {
                    &&& 0 <= list[k] < self.capacity()
                    &&& self.at(list[k]) is Some
                    &&& self.at(list[k])->0.owner() == owner
                    &&& self.slots@[list[k]].next.0 == self.after(owner, k)
                    &&& self.slots@[list[k]].previous.0 == self.before(owner, k)
                } by {
                    assert(old(self).members(owner)[k] == list[k]);
                }
            }
            assert forall|i: int| 0 <= i < self.capacity() implies {
                (#[trigger] self.slots@[i]).content() is Some ==> {
                    &&& self.slots@[i].content()->0.owner() < self.file_capacity()
                    &&& self.members(self.slots@[i].content()->0.owner() as int).contains(i)
                }
            } by {
                assert(old(self).at(i) == old(self).slots@[i].content());
            }
        }
    }

    /// `self` is `other` with `value` in slot `index`, first among its owner's.
    pub open spec fn gained(self, other: Self, index: int, value: T) -> bool {
        &&& self.capacity() == other.capacity()
        &&& self.file_capacity() == other.file_capacity()
        &&& self.at(index) == Some(value)
        &&& forall|i: int|
            0 <= i < other.capacity() && i != index ==> #[trigger] self.at(i) == other.at(i)
        &&& forall|o: int|
            0 <= o < other.file_capacity() ==> #[trigger] self.members(o) == (if o == value.owner() {
                seq![index] + other.members(o)
            } else {
                other.members(o)
            })
    }

    /// Occupies a vacant slot and puts it at the front of its owner's list.
    pub fn insert(&mut self, index: usize, value: T)
        requires
            old(self).wf(),
            index < old(self).capacity(),
            old(self).at(index as int) is None,
            value.owner() < old(self).file_capacity(),
        ensures
            final(self).wf(),
            final(self).gained(*old(self), index as int, value),
    {
        let ghost start = *self;
        let owner: usize = value.file_slot() as usize;
        proof {
            start.lemma_members(owner as int);
            assert(start.threaded(owner as int));
            assert(start.at(index as int) == start.slots@[index as int].content());
            assert(!start.members(owner as int).contains(index as int));
        }
        let link = SlotLink::from_index(index);
        let old_head: SlotLink = self.heads[owner];
        let next: SlotLink = if old_head.0 == 0 {
            link
        } else {
            old_head
        };
        self.slots.set(index, FileSlot { previous: link, next, value });
        if let Some(head) = old_head.index() {
            assert(start.members(owner as int)[0] == head);
            let mut slot: FileSlot<T> = self.slots[head].copied();
            slot.previous = link;
            self.slots.set(head, slot);
        }
        self.heads.set(owner, link);
        proof {
            let fresh = seq![index as int] + start.members(owner as int);
            self.order@ = self.order@.update(owner as int, fresh);
            assert forall|o: int| 0 <= o < self.file_capacity() implies #[trigger] self.threaded(
                o,
            ) by {
                start.lemma_members(o);
                assert(start.threaded(o));
                let list = self.members(o);
                let prior = start.members(o);
                if o == owner {
                    assert(list == fresh);
                    assert forall|k: int| 0 <= k < prior.len() implies #[trigger] prior[k]
                        != index by {
                        assert(prior.contains(prior[k]));
                    }
                    assert(list.no_duplicates()) by {
                        assert forall|a: int, b: int|
                            0 <= a < list.len() && 0 <= b < list.len() && a != b implies list[a]
                            != list[b] by {
                            if a > 0 {
                                assert(list[a] == prior[a - 1]);
                            }
                            if b > 0 {
                                assert(list[b] == prior[b - 1]);
                            }
                        }
                    }
                    assert forall|k: int| #![trigger list[k]] 0 <= k < list.len() implies {
                        &&& 0 <= list[k] < self.capacity()
                        &&& self.at(list[k]) is Some
                        &&& self.at(list[k])->0.owner() == o
                        &&& self.slots@[list[k]].next.0 == self.after(o, k)
                        &&& self.slots@[list[k]].previous.0 == self.before(o, k)
                    } by {
                        if k > 0 {
                            assert(list[k] == prior[k - 1]);
                            if k + 1 < list.len() {
                                assert(list[k + 1] == prior[k]);
                            }
                            if k > 1 {
                                assert(list[k - 1] == prior[k - 2]);
                                assert(prior[k - 1] != prior[0]);
                            }
                        } else {
                            if list.len() > 1 {
                                assert(list[1] == prior[0]);
                            }
                        }
                    }
                } else {
                    assert(list == prior);
                    assert forall|k: int| #![trigger list[k]] 0 <= k < list.len() implies {
                        &&& 0 <= list[k] < self.capacity()
                        &&& self.at(list[k]) is Some
                        &&& self.at(list[k])->0.owner() == o
                        &&& self.slots@[list[k]].next.0 == self.after(o, k)
                        &&& self.slots@[list[k]].previous.0 == self.before(o, k)
                    } by {
                        assert(prior.contains(prior[k]));
                        assert(prior[k] != index);
                        if start.members(owner as int).len() > 0 {
                            assert(start.members(owner as int).contains(
                                start.members(owner as int)[0],
                            ));
                        }
                    }
                }
            }
            assert forall|i: int| 0 <= i < self.capacity() implies {
                (#[trigger] self.slots@[i]).content() is Some ==> {
                    &&& self.slots@[i].content()->0.owner() < self.file_capacity()
                    &&& self.members(self.slots@[i].content()->0.owner() as int).contains(i)
                }
            } by {
                assert(start.at(i) == start.slots@[i].content());
                assert(fresh[0] == index);
                if i != index && start.at(i) is Some && start.at(i)->0.owner() == owner {
                    let prior = start.members(owner as int);
                    let k = choose|k: int| 0 <= k < prior.len() && prior[k] == i;
                    assert(fresh[k + 1] == i);
                }
            }
        }
    }

    /// Vacates an occupied slot and unlinks it from its owner's list.
    #[verifier::rlimit(60)]
    #[verifier::spinoff_prover]
    pub fn remove(&mut self, index: usize)
        requires
            old(self).wf(),
            index < old(self).capacity(),
            old(self).at(index as int) is Some,
        ensures
            final(self).wf(),
            final(self).capacity() == old(self).capacity(),
            final(self).file_capacity() == old(self).file_capacity(),
            final(self).at(index as int) is None,
            forall|i: int|
                0 <= i < old(self).capacity() && i != index ==> #[trigger] final(self).at(i)
                    == old(self).at(i),
            forall|o: int|
                0 <= o < old(self).file_capacity() ==> #[trigger] final(self).members(o) == (if o
                    == old(self).at(index as int)->0.owner() {
                    old(self).members(o).remove(old(self).members(o).index_of(index as int))
                } else {
                    old(self).members(o)
                }),
    {
        let ghost start = *self;
        let removed: FileSlot<T> = self.slots[index].copied();
        proof {
            assert(start.at(index as int) == start.slots@[index as int].content());
        }
        match removed.get() {
            Some(value) => {
                let owner: usize = value.file_slot() as usize;
                let ghost prior = start.members(owner as int);
                let ghost at = prior.index_of(index as int);
                proof {
                    start.lemma_members(owner as int);
                    assert(start.threaded(owner as int));
                    assert(prior.contains(index as int));
                    assert(prior[at] == index);
                    if at > 0 {
                        assert(prior[at - 1] != prior[at]);
                    }
                    if at + 1 < prior.len() {
                        assert(prior[at + 1] != prior[at]);
                    }
                }
                let link = SlotLink::from_index(index);
                let previous: SlotLink = removed.previous;
                let next: SlotLink = removed.next;
                if previous.0 == link.0 {
                    self.heads.set(
                        owner,
                        if next.0 == link.0 {
                            SlotLink(0)
                        } else {
                            next
                        },
                    );
                } else {
                    let position: usize = (previous.0 - 1) as usize;
                    let mut slot: FileSlot<T> = self.slots[position].copied();
                    slot.next = if next.0 == link.0 {
                        previous
                    } else {
                        next
                    };
                    self.slots.set(position, slot);
                }
                if next.0 != link.0 {
                    let position: usize = (next.0 - 1) as usize;
                    let mut slot: FileSlot<T> = self.slots[position].copied();
                    slot.previous = if previous.0 == link.0 {
                        next
                    } else {
                        previous
                    };
                    self.slots.set(position, slot);
                }
                self.slots.set(index, FileSlot::vacant(value));
                proof {
                    let left = prior.remove(at);
                    self.order@ = self.order@.update(owner as int, left);
                    assert forall|k: int| 0 <= k < left.len() implies #[trigger] left[k] == prior[(
                    if k < at {
                        k
                    } else {
                        k + 1
                    })] by {}
                    self.lemma_unlinked(start, owner as int, at);
                }
            },
            None => {},
        }
    }

    /// The lists stay threaded when the slot at position `at` of `owner`'s
    /// list is vacated and its neighbours are joined.
    #[verifier::rlimit(60)]
    #[verifier::spinoff_prover]
    proof fn lemma_unlinked(self, start: Self, owner: int, at: int)
        requires
            start.wf(),
            0 <= owner < start.file_capacity(),
            0 <= at < start.members(owner).len(),
            self.capacity() == start.capacity(),
            self.file_capacity() == start.file_capacity(),
            self.order@ == start.order@.update(owner, start.members(owner).remove(at)),
            forall|o: int|
                0 <= o < start.file_capacity() && o != owner ==> #[trigger] self.heads@[o]
                    == start.heads@[o],
            ({
                let prior = start.members(owner);
                let index = prior[at];
                &&& self.slots@[index].next.0 == 0
                &&& self.heads@[owner].0 == (if at > 0 {
                    start.heads@[owner].0 as int
                } else if prior.len() > 1 {
                    prior[1] + 1
                } else {
                    0
                })
                &&& forall|i: int|
                    #![trigger self.slots@[i]]
                    0 <= i < start.capacity() && i != index ==> {
                        &&& self.slots@[i].value == start.slots@[i].value
                        &&& self.slots@[i].next.0 == (if at > 0 && i == prior[at - 1] {
                            if at + 1 < prior.len() {
                                prior[at + 1] + 1
                            } else {
                                prior[at - 1] + 1
                            }
                        } else {
                            start.slots@[i].next.0 as int
                        })
                        &&& self.slots@[i].previous.0 == (if at + 1 < prior.len() && i == prior[at
                            + 1] {
                            if at > 0 {
                                prior[at - 1] + 1
                            } else {
                                prior[at + 1] + 1
                            }
                        } else {
                            start.slots@[i].previous.0 as int
                        })
                    }
            }),
        ensures
            self.wf(),
    {
        let prior = start.members(owner);
        let index = prior[at];
        let left = prior.remove(at);
        start.lemma_members(owner);
        assert(start.threaded(owner));
        assert(prior.contains(index));
        assert(self.members(owner) == left);
        assert forall|k: int| 0 <= k < left.len() implies #[trigger] left[k] == prior[(if k < at {
            k
        } else {
            k + 1
        })] by {}
        assert forall|o: int| 0 <= o < self.file_capacity() implies #[trigger] self.threaded(o) by {
            start.lemma_members(o);
            assert(start.threaded(o));
            let list = self.members(o);
            if o == owner {
                assert forall|k: int| #![trigger list[k]] 0 <= k < list.len() implies {
                    &&& 0 <= list[k] < self.capacity()
                    &&& self.at(list[k]) is Some
                    &&& self.at(list[k])->0.owner() == o
                    &&& self.slots@[list[k]].next.0 == self.after(o, k)
                    &&& self.slots@[list[k]].previous.0 == self.before(o, k)
                } by {
                    let j = if k < at {
                        k
                    } else {
                        k + 1
                    };
                    assert(list[k] == prior[j]);
                    assert(prior[j] != index);
                    if k + 1 < list.len() {
                        assert(list[k + 1] == prior[(if k + 1 < at {
                            k + 1
                        } else {
                            k + 2
                        })]);
                    }
                    if k > 0 {
                        assert(list[k - 1] == prior[(if k - 1 < at {
                            k - 1
                        } else {
                            k
                        })]);
                    }
                    if at > 0 && j != at - 1 {
                        assert(prior[j] != prior[at - 1]);
                    }
                    if at + 1 < prior.len() && j != at + 1 {
                        assert(prior[j] != prior[at + 1]);
                    }
                    assert(self.slots@[prior[j]].value == start.slots@[prior[j]].value);
                }
                assert(list.no_duplicates()) by {
                    assert forall|a: int, b: int|
                        0 <= a < list.len() && 0 <= b < list.len() && a != b implies list[a]
                        != list[b] by {
                        let ja = if a < at {
                            a
                        } else {
                            a + 1
                        };
                        let jb = if b < at {
                            b
                        } else {
                            b + 1
                        };
                        assert(list[a] == prior[ja] && list[b] == prior[jb]);
                        assert(prior[ja] != prior[jb]);
                    }
                }
                if list.len() > 0 {
                    assert(list[0] == prior[(if 0 < at {
                        0
                    } else {
                        1int
                    })]);
                }
            } else {
                let mine = start.members(o);
                assert(list == mine);
                assert forall|k: int| #![trigger list[k]] 0 <= k < list.len() implies {
                    &&& 0 <= list[k] < self.capacity()
                    &&& self.at(list[k]) is Some
                    &&& self.at(list[k])->0.owner() == o
                    &&& self.slots@[list[k]].next.0 == self.after(o, k)
                    &&& self.slots@[list[k]].previous.0 == self.before(o, k)
                } by {
                    assert(mine.contains(mine[k]));
                    assert(list[k] != index);
                    if at > 0 {
                        assert(prior.contains(prior[at - 1]));
                    }
                    if at + 1 < prior.len() {
                        assert(prior.contains(prior[at + 1]));
                    }
                }
            }
        }
        assert forall|i: int| 0 <= i < self.capacity() implies {
            (#[trigger] self.slots@[i]).content() is Some ==> {
                &&& self.slots@[i].content()->0.owner() < self.file_capacity()
                &&& self.members(self.slots@[i].content()->0.owner() as int).contains(i)
            }
        } by {
            assert(start.at(i) == start.slots@[i].content());
            if i != index && start.at(i) is Some && start.at(i)->0.owner() == owner {
                let k = choose|k: int| 0 <= k < prior.len() && prior[k] == i;
                if k < at {
                    assert(left[k] == i);
                } else {
                    assert(left[k - 1] == i);
                }
            }
        }
    }

    /// The members of `file`'s slot with their values, newest first.
    pub fn for_file(&self, file: FileId) -> (found: Vec<(usize, T)>)
        requires
            self.wf(),
            file.slot < self.file_capacity(),
        ensures
            found@.len() == self.members(file.slot as int).len(),
            forall|k: int|
                0 <= k < found@.len() ==> (#[trigger] found@[k]).0 == self.members(
                    file.slot as int,
                )[k] && self.at(found@[k].0 as int) == Some(found@[k].1),
    {
        self.owned_by(file.slot())
    }

    /// The members of file slot `owner` with their values, newest first.
    pub fn owned_by(&self, owner: u32) -> (found: Vec<(usize, T)>)
        requires
            self.wf(),
            owner < self.file_capacity(),
        ensures
            found@.len() == self.members(owner as int).len(),
            forall|k: int|
                0 <= k < found@.len() ==> (#[trigger] found@[k]).0 == self.members(owner as int)[k]
                    && self.at(found@[k].0 as int) == Some(found@[k].1),
    {
        let ghost list = self.members(owner as int);
        let mut found: Vec<(usize, T)> = Vec::new();
        let mut cursor: SlotLink = self.heads[owner as usize];
        proof {
            assert(self.threaded(owner as int));
        }
        while cursor.0 != 0
            invariant
                self.wf(),
                owner < self.file_capacity(),
                self.threaded(owner as int),
                list == self.members(owner as int),
                found@.len() <= list.len(),
                cursor.0 == (if found@.len() < list.len() {
                    list[found@.len() as int] + 1
                } else {
                    0
                }),
                forall|k: int|
                    0 <= k < found@.len() ==> (#[trigger] found@[k]).0 == list[k] && self.at(
                        found@[k].0 as int,
                    ) == Some(found@[k].1),
            decreases list.len() - found@.len(),
        {
            let index: usize = (cursor.0 - 1) as usize;
            assert(list[found@.len() as int] == index);
            proof {
                if found@.len() + 1 < list.len() {
                    assert(list[found@.len() as int + 1] != index);
                }
            }
            let slot: FileSlot<T> = self.slots[index].copied();
            cursor = if slot.next.0 == cursor.0 {
                SlotLink(0)
            } else {
                slot.next
            };
            if let Some(value) = slot.get() {
                found.push((index, value));
            }
        }
        found
    }

    /// Every slot's value in index order.
    pub fn values(&self) -> (values: Vec<Option<T>>)
        ensures
            values@.len() == self.capacity(),
            forall|i: int| 0 <= i < values@.len() ==> #[trigger] values@[i] == self.at(i),
    {
        let mut values: Vec<Option<T>> = Vec::new();
        let mut i: usize = 0;
        while i < self.slots.len()
            invariant
                i <= self.slots@.len(),
                values@.len() == i,
                forall|k: int| 0 <= k < i ==> #[trigger] values@[k] == self.at(k),
            decreases self.slots@.len() - i,
        {
            values.push(self.slots[i].get());
            i = i + 1;
        }
        values
    }
}

} // verus!
