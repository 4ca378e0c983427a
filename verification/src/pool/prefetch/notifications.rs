//! Fixed-height dirty-frame bitmap: an idle poll reads one root word, and a
//! drain descends only into words that hold a dirty frame.

use crate::pool::frames::ReadFrameIdx;
use vstd::prelude::*;

verus! {

/// Bit `bit` of `word` is set.
pub open spec fn bit_set(word: u64, bit: int) -> bool {
    0 <= bit < 64 && (word >> (bit as u64)) & 1 == 1
}

spec fn ceil64(n: int) -> int {
    (n + 63) / 64
}

proof fn lemma_bit_ops(word: u64, bit: u32)
    requires
        bit < 64,
    ensures
        forall|b: int|
            0 <= b < 64 ==> (#[trigger] bit_set(word | (1u64 << bit), b) <==> bit_set(word, b) || b
                == bit),
        (word | (1u64 << bit)) != 0,
{
    let wide = bit as u64;
    assert(1u64 << bit == 1u64 << wide) by (bit_vector)
        requires
            wide == bit as u64,
            bit < 64,
    ;
    assert forall|b: int| 0 <= b < 64 implies (#[trigger] bit_set(word | (1u64 << bit), b)
        <==> bit_set(word, b) || b == bit) by {
        let c = b as u64;
        assert(((word | (1u64 << wide)) >> c) & 1 == 1 <==> (word >> c) & 1 == 1 || c == wide)
            by (bit_vector)
            requires
                wide < 64,
                c < 64,
        ;
    }
    assert((word | (1u64 << wide)) != 0) by (bit_vector)
        requires
            wide < 64,
    ;
}

proof fn lemma_zero_has_none()
    ensures
        forall|b: int| !#[trigger] bit_set(0, b),
{
    assert forall|b: int| !#[trigger] bit_set(0, b) by {
        if 0 <= b < 64 {
            let c = b as u64;
            assert((0u64 >> c) & 1 == 0) by (bit_vector);
        }
    }
}

#[derive(Debug)]
pub struct DirtyFrames {
    levels: Vec<Vec<u64>>,
    frames: u32,
}

impl DirtyFrames {
    spec fn width(self, level: int) -> int {
        if level < 0 {
            self.frames as int
        } else {
            self.levels@[level]@.len() as int
        }
    }

    spec fn shaped(self) -> bool {
        &&& self.frames > 0
        &&& 1 <= self.levels@.len() <= 6
        &&& forall|l: int|
            0 <= l < self.levels@.len() ==> #[trigger] self.width(l) == ceil64(self.width(l - 1))
        &&& self.width(self.levels@.len() - 1) == 1
    }

    spec fn word(self, level: int, index: int) -> u64 {
        self.levels@[level]@[index]
    }

    /// Bit `index` of level `level`, over the whole level.
    spec fn marked(self, level: int, index: int) -> bool {
        bit_set(self.word(level, index / 64), index % 64)
    }

    /// Every mark names a child, and every child with marks is marked.
    spec fn linked(self) -> bool {
        &&& forall|l: int, i: int|
            0 <= l < self.levels@.len() && 0 <= i < 64 * self.width(l) && #[trigger] self.marked(
                l,
                i,
            ) ==> i < self.width(l - 1)
        &&& forall|l: int, i: int|
            1 <= l < self.levels@.len() && 0 <= i < self.width(l - 1) && #[trigger] self.word(
                l - 1,
                i,
            ) != 0 ==> self.marked(l, i)
    }

    pub closed spec fn wf(self) -> bool {
        self.shaped() && self.linked()
    }

    /// The number of frames the bitmap covers.
    pub closed spec fn frame_count(self) -> nat {
        self.frames as nat
    }

    /// The frames notified since the last drain.
    pub closed spec fn view(&self) -> Set<ReadFrameIdx> {
        Set::new(|frame: ReadFrameIdx| frame.0 < self.frames && self.marked(0, frame.0 as int))
    }

    /// Only frames the bitmap covers are dirty.
    pub proof fn lemma_bounded(self, frame: ReadFrameIdx)
        ensures
            self@.contains(frame) ==> frame.0 < self.frame_count(),
    {
    }

    pub fn try_new(frames: u32) -> (dirty: Option<Self>)
        requires
            frames > 0,
        ensures
            dirty matches Some(d) && d.wf() && d.frame_count() == frames && d@ == Set::<
                ReadFrameIdx,
            >::empty(),
    {
        Some(Self::new(frames))
    }

    /// An empty bitmap over `frames` frames.
    pub fn new(frames: u32) -> (dirty: Self)
        requires
            frames > 0,
        ensures
            dirty.wf(),
            dirty.frame_count() == frames,
            dirty@ == Set::<ReadFrameIdx>::empty(),
    {
        let mut levels: Vec<Vec<u64>> = Vec::new();
        let mut count: u32 = frames;
        let mut full: bool = false;
        while !full
            invariant
                frames > 0,
                count >= 1,
                levels@.len() <= 6,
                levels@.len() == 0 ==> count == frames && !full,
                levels@.len() > 0 ==> count == levels@[levels@.len() - 1]@.len(),
                levels@.len() == 1 ==> count <= 0x400_0000,
                levels@.len() == 2 ==> count <= 0x10_0000,
                levels@.len() == 3 ==> count <= 0x4000,
                levels@.len() == 4 ==> count <= 0x100,
                levels@.len() == 5 ==> count <= 4,
                levels@.len() == 6 ==> full,
                full ==> count == 1,
                forall|l: int|
                    0 <= l < levels@.len() ==> (#[trigger] levels@[l])@.len() == ceil64(
                        if l == 0 {
                            frames as int
                        } else {
                            levels@[l - 1]@.len() as int
                        },
                    ),
                forall|l: int, i: int|
                    0 <= l < levels@.len() && 0 <= i < levels@[l]@.len()
                        ==> #[trigger] levels@[l]@[i] == 0,
            decreases 6 - levels@.len(),
        {
            count = count / 64 + (if count % 64 == 0 {
                0
            } else {
                1
            });
            let level: Vec<u64> = vec![0u64; count as usize];
            levels.push(level);
            full = count == 1;
        }
        let dirty = DirtyFrames { levels, frames };
        proof {
            lemma_zero_has_none();
            assert forall|l: int| 0 <= l < dirty.levels@.len() implies #[trigger] dirty.width(l)
                == ceil64(dirty.width(l - 1)) by {
                assert(dirty.levels@[l]@.len() == levels@[l]@.len());
            }
            assert forall|l: int, i: int|
                0 <= l < dirty.levels@.len() && 0 <= i < 64 * dirty.width(l) implies
                !#[trigger] dirty.marked(l, i) by {
                assert(dirty.levels@[l]@[i / 64] == 0);
            }
            assert(dirty@ =~= Set::empty()) by {
                assert(dirty.width(0) == ceil64(dirty.width(-1)));
            }
        }
        dirty
    }

    /// Marks `frame` and every ancestor word.
    pub fn notify(&mut self, frame: ReadFrameIdx)
        requires
            old(self).wf(),
            frame.0 < old(self).frame_count(),
        ensures
            final(self).wf(),
            final(self).frame_count() == old(self).frame_count(),
            final(self)@ == old(self)@.insert(frame),
    {
        let mut index: u32 = frame.0;
        let mut level: usize = 0;
        let ghost start = *self;
        while level < self.levels.len()
            invariant
                level <= self.levels@.len(),
                self.levels@.len() == start.levels@.len(),
                self.frames == start.frames,
                self.shaped(),
                start.wf(),
                forall|l: int| 0 <= l < self.levels@.len() ==> #[trigger] self.width(l) == start.width(l),
                level < self.levels@.len() ==> index < self.width(level - 1),
                level == 0 ==> index == frame.0 && *self == start,
                frame.0 < start.frames,
                forall|l: int, i: int|
                    level <= l < self.levels@.len() && 0 <= i < self.width(l) ==> #[trigger] self.word(l, i)
                        == start.word(l, i),
                forall|l: int, i: int|
                    0 <= l < self.levels@.len() && 0 <= i < 64 * self.width(l) && #[trigger] self.marked(
                        l,
                        i,
                    ) ==> i < self.width(l - 1),
                forall|l: int, i: int|
                    1 <= l < self.levels@.len() && 0 <= i < self.width(l - 1)
                        && #[trigger] self.word(l - 1, i) != 0 ==> self.marked(l, i) || (l == level
                        && i == index),
                level > 0 ==> forall|i: int|
                    0 <= i < self.frames ==> (#[trigger] self.marked(0, i) <==> start.marked(0, i) || i
                        == frame.0),
            decreases self.levels@.len() - level,
        {
            let word: u32 = index / 64;
            let bit: u32 = index % 64;
            let ghost before = *self;
            proof {
                assert(self.width(level as int) == ceil64(self.width(level - 1)));
                lemma_bit_ops(self.word(level as int, word as int), bit);
            }
            let marked: u64 = self.levels[level][word as usize] | (1u64 << bit);
            self.levels[level][word as usize] = marked;
            proof {
                assert forall|l: int| 0 <= l < self.levels@.len() implies #[trigger] self.width(l)
                    == before.width(l) by {}
                assert forall|l: int, i: int|
                    0 <= l < self.levels@.len() && 0 <= i < self.width(l) && !(l == level && i
                        == word) implies #[trigger] self.word(l, i) == before.word(l, i) by {}
                assert forall|l: int, i: int|
                    0 <= l < self.levels@.len() && 0 <= i < 64 * self.width(l) implies (
                #[trigger] self.marked(l, i) <==> before.marked(l, i) || (l == level && i
                    == index)) by {
                    if l == level && i / 64 == word {
                        assert(i == index <==> i % 64 == bit);
                    } else {
                        assert(self.word(l, i / 64) == before.word(l, i / 64));
                    }
                }
                assert forall|l: int| 0 <= l < self.levels@.len() implies #[trigger] self.width(l)
                    == ceil64(self.width(l - 1)) by {
                    assert(before.width(l) == ceil64(before.width(l - 1)));
                    if l > 0 {
                        assert(self.width(l - 1) == before.width(l - 1));
                    }
                }
                assert forall|l: int, i: int|
                    0 <= l < self.levels@.len() && 0 <= i < 64 * self.width(l) && #[trigger] self.marked(
                        l,
                        i,
                    ) implies i < self.width(l - 1) by {
                    if l > 0 {
                        assert(self.width(l - 1) == before.width(l - 1));
                    }
                    assert(before.marked(l, i) || (l == level && i == index));
                }
                assert forall|l: int, i: int|
                    1 <= l < self.levels@.len() && 0 <= i < self.width(l - 1)
                        && #[trigger] self.word(l - 1, i) != 0 implies self.marked(l, i) || (l
                    == level + 1 && i == word) by {
                    assert(self.width(l) == ceil64(self.width(l - 1)));
                    assert(before.width(l - 1) == self.width(l - 1));
                    if !(l - 1 == level && i == word) {
                        assert(before.word(l - 1, i) != 0);
                        assert(before.marked(l, i) || (l == level && i == index));
                    }
                    assert(self.marked(l, i) <==> before.marked(l, i) || (l == level && i
                        == index));
                }
                assert forall|i: int| 0 <= i < self.frames implies (#[trigger] self.marked(0, i)
                    <==> start.marked(0, i) || i == frame.0) by {
                    assert(self.width(0) == ceil64(self.width(-1)));
                    assert(self.marked(0, i) <==> before.marked(0, i) || (0 == level && i == index));
                }
            }
            index = word;
            level = level + 1;
        }
        proof {
            let top = self.levels@.len() - 1;
            assert forall|l: int, i: int|
                1 <= l < self.levels@.len() && 0 <= i < self.width(l - 1) && #[trigger] self.word(
                    l - 1,
                    i,
                ) != 0 implies self.marked(l, i) by {}
            assert(self@ =~= old(self)@.insert(frame)) by {
                assert(self.width(0) == ceil64(self.width(-1)));
            }
        }
    }

    /// Takes every word of `level` named by `active` and hands out the marked
    /// indices below them in order.
    fn take_level(&mut self, level: usize, active: &Vec<u32>) -> (below: Vec<u32>)
        requires
            old(self).shaped(),
            level < old(self).levels@.len(),
            increasing(active@),
            forall|k: int|
                0 <= k < active@.len() ==> #[trigger] active@[k] < old(self).width(level as int),
            forall|i: int|
                0 <= i < old(self).width(level as int) && #[trigger] old(self).word(
                    level as int,
                    i,
                ) != 0 ==> active@.contains(i as u32),
            old(self).width(level as int) <= 0x400_0000,
        ensures
            final(self).frames == old(self).frames,
            final(self).levels@.len() == old(self).levels@.len(),
            forall|l: int|
                0 <= l < final(self).levels@.len() ==> #[trigger] final(self).width(l) == old(
                    self,
                ).width(l),
            forall|l: int, i: int|
                0 <= l < final(self).levels@.len() && 0 <= i < final(self).width(l)
                    ==> #[trigger] final(self).word(l, i) == (if l == level {
                    0
                } else {
                    old(self).word(l, i)
                }),
            increasing(below@),
            forall|i: u32|
                #[trigger] below@.contains(i) <==> i < 64 * old(self).width(level as int) && old(
                    self,
                ).marked(level as int, i as int),
    {
        let mut below: Vec<u32> = Vec::new();
        let mut k: usize = 0;
        let ghost start = *self;
        let ghost mut done: int = 0;
        proof {
            lemma_zero_has_none();
        }
        while k < active.len()
            invariant
                k <= active@.len(),
                start.shaped(),
                level < start.levels@.len(),
                start.width(level as int) <= 0x400_0000,
                increasing(active@),
                forall|j: int|
                    0 <= j < active@.len() ==> #[trigger] active@[j] < start.width(level as int),
                forall|i: int|
                    0 <= i < start.width(level as int) && #[trigger] start.word(level as int, i)
                        != 0 ==> active@.contains(i as u32),
                self.frames == start.frames,
                self.levels@.len() == start.levels@.len(),
                forall|l: int|
                    0 <= l < self.levels@.len() ==> #[trigger] self.width(l) == start.width(l),
                0 <= done <= start.width(level as int),
                forall|j: int| 0 <= j < k ==> #[trigger] active@[j] < done,
                forall|j: int| k <= j < active@.len() ==> #[trigger] active@[j] >= done,
                forall|l: int, i: int|
                    0 <= l < self.levels@.len() && 0 <= i < self.width(l) ==> #[trigger] self.word(
                        l,
                        i,
                    ) == (if l == level && i < done {
                        0
                    } else {
                        start.word(l, i)
                    }),
                increasing(below@),
                forall|i: u32|
                    #[trigger] below@.contains(i) <==> i < 64 * done && start.marked(
                        level as int,
                        i as int,
                    ),
            decreases active@.len() - k,
        {
            let index: u32 = active[k];
            let ghost before = *self;
            assert(self.width(level as int) == start.width(level as int));
            let bits: u64 = self.levels[level][index as usize];
            self.levels[level][index as usize] = 0;
            proof {
                assert(self.levels@[level as int]@ == before.levels@[level as int]@.update(
                    index as int,
                    0,
                ));
                assert forall|l: int| 0 <= l < self.levels@.len() implies #[trigger] self.width(l)
                    == start.width(l) by {
                    assert(self.width(l) == before.width(l));
                }
                assert forall|i: int| done <= i < index implies start.word(level as int, i)
                    == 0 by {
                    if start.word(level as int, i) != 0 {
                        let j = choose|j: int| 0 <= j < active@.len() && active@[j] == i as u32;
                        assert(active@[j] == i);
                    }
                }
                assert forall|l: int, i: int|
                    0 <= l < self.levels@.len() && 0 <= i < self.width(l) implies #[trigger] self.word(
                    l,
                    i,
                ) == (if l == level && i < index + 1 {
                    0
                } else {
                    start.word(l, i)
                }) by {
                    assert(before.width(l) == start.width(l));
                    assert(before.word(l, i) == (if l == level && i < done {
                        0
                    } else {
                        start.word(l, i)
                    }));
                }
                assert(bits == start.word(level as int, index as int)) by {
                    assert(before.word(level as int, index as int) == start.word(
                        level as int,
                        index as int,
                    ));
                }
                lemma_zero_has_none();
                assert forall|i: u32|
                    #[trigger] below@.contains(i) <==> i < 64 * index && start.marked(
                        level as int,
                        i as int,
                    ) by {
                    if 64 * done <= i < 64 * index {
                        assert(start.word(level as int, i as int / 64) == 0);
                    }
                }
            }
            let mut bit: u32 = 0;
            while bit < 64
                invariant
                    bit <= 64,
                    index < 0x400_0000,
                    bits == start.word(level as int, index as int),
                    increasing(below@),
                    forall|i: u32|
                        #[trigger] below@.contains(i) <==> i < 64 * index + bit && start.marked(
                            level as int,
                            i as int,
                        ),
                decreases 64 - bit,
            {
                let child: u32 = index * 64 + bit;
                let ghost prior = below@;
                assert(child as int / 64 == index && child as int % 64 == bit);
                assert(start.marked(level as int, child as int) == bit_set(bits, bit as int));
                if (bits >> (bit as u64)) & 1 == 1 {
                    below.push(child);
                    proof {
                        lemma_push_larger(prior, child);
                    }
                }
                assert forall|i: u32|
                    #[trigger] below@.contains(i) <==> i < 64 * index + bit + 1 && start.marked(
                        level as int,
                        i as int,
                    ) by {
                    assert(prior.contains(i) <==> i < 64 * index + bit && start.marked(
                        level as int,
                        i as int,
                    ));
                }
                bit = bit + 1;
            }
            proof {
                done = index + 1;
            }
            k = k + 1;
        }
        proof {
            assert forall|i: int| done <= i < start.width(level as int) implies start.word(
                level as int,
                i,
            ) == 0 by {
                if start.word(level as int, i) != 0 {
                    let j = choose|j: int| 0 <= j < active@.len() && active@[j] == i as u32;
                    assert(active@[j] == i);
                }
            }
            assert forall|i: u32|
                #[trigger] below@.contains(i) <==> i < 64 * start.width(level as int)
                    && start.marked(level as int, i as int) by {
                if 64 * done <= i < 64 * start.width(level as int) {
                    assert(start.word(level as int, i as int / 64) == 0);
                }
            }
        }
        below
    }

    proof fn lemma_width(self, level: int)
        requires
            self.shaped(),
            -1 <= level < self.levels@.len(),
        ensures
            1 <= self.width(level) <= self.frames,
            level >= 0 ==> self.width(level) <= 0x400_0000,
            level >= 0 ==> self.width(level - 1) <= 64 * self.width(level),
        decreases level + 1,
    {
        if level >= 0 {
            self.lemma_width(level - 1);
            assert(self.width(level) == ceil64(self.width(level - 1)));
        }
    }

    /// Hands out the dirty frames in index order and clears the bitmap.
    pub fn drain(&mut self) -> (visited: Vec<ReadFrameIdx>)
        requires
            old(self).wf(),
        ensures
            final(self).wf(),
            final(self).frame_count() == old(self).frame_count(),
            final(self)@ == Set::<ReadFrameIdx>::empty(),
            forall|i: int, j: int|
                0 <= i < j < visited@.len() ==> (#[trigger] visited@[i]).0 < (
                #[trigger] visited@[j]).0,
            forall|frame: ReadFrameIdx| visited@.contains(frame) <==> old(self)@.contains(frame),
    {
        let ghost start = *self;
        let mut active: Vec<u32> = Vec::new();
        active.push(0);
        let mut level: usize = self.levels.len();
        assert(active@.contains(0u32)) by {
            assert(active@[0] == 0u32);
        }
        while level > 0
            invariant
                level <= start.levels@.len(),
                start.wf(),
                self.frames == start.frames,
                self.levels@.len() == start.levels@.len(),
                forall|l: int|
                    0 <= l < self.levels@.len() ==> #[trigger] self.width(l) == start.width(l),
                forall|l: int, i: int|
                    0 <= l < self.levels@.len() && 0 <= i < self.width(l) ==> #[trigger] self.word(
                        l,
                        i,
                    ) == (if l < level {
                        start.word(l, i)
                    } else {
                        0
                    }),
                increasing(active@),
                forall|k: int|
                    0 <= k < active@.len() ==> #[trigger] active@[k] < start.width(level - 1),
                level > 0 ==> forall|i: int|
                    0 <= i < start.width(level - 1) && #[trigger] start.word(level - 1, i) != 0
                        ==> active@.contains(i as u32),
                level == 0 ==> forall|i: u32|
                    #[trigger] active@.contains(i) <==> i < start.frames && start.marked(
                        0,
                        i as int,
                    ),
            decreases level,
        {
            level = level - 1;
            let ghost before = *self;
            proof {
                start.lemma_width(level as int);
                assert(self.width(level as int) == start.width(level as int));
                assert forall|l: int| 0 <= l < self.levels@.len() implies #[trigger] self.width(l)
                    == ceil64(self.width(l - 1)) by {
                    assert(start.width(l) == ceil64(start.width(l - 1)));
                    if l > 0 {
                        assert(self.width(l - 1) == start.width(l - 1));
                    }
                }
                assert(self.width(self.levels@.len() - 1) == start.width(
                    start.levels@.len() - 1,
                ));
                assert forall|i: int|
                    0 <= i < self.width(level as int) && #[trigger] self.word(level as int, i)
                        != 0 implies active@.contains(i as u32) by {
                    assert(start.word(level as int, i) != 0);
                }
            }
            active = self.take_level(level, &active);
            proof {
                assert forall|i: u32| #[trigger] active@.contains(i) implies start.marked(
                    level as int,
                    i as int,
                ) && i < start.width(level - 1) by {
                    assert(before.marked(level as int, i as int));
                    assert(before.word(level as int, i as int / 64) == start.word(
                        level as int,
                        i as int / 64,
                    ));
                    assert(start.marked(level as int, i as int));
                }
                assert forall|k: int| 0 <= k < active@.len() implies #[trigger] active@[k]
                    < start.width(level - 1) by {
                    assert(active@.contains(active@[k]));
                }
                assert forall|i: u32|
                    i < start.width(level - 1) && start.marked(
                        level as int,
                        i as int,
                    ) implies #[trigger] active@.contains(i) by {
                    assert(before.word(level as int, i as int / 64) == start.word(
                        level as int,
                        i as int / 64,
                    ));
                    assert(before.marked(level as int, i as int));
                }
                if level > 0 {
                    start.lemma_width(level - 1);
                    assert forall|i: int|
                        0 <= i < start.width(level - 1) && #[trigger] start.word(level - 1, i)
                            != 0 implies active@.contains(i as u32) by {
                        assert(start.marked(level as int, i));
                    }
                }
                assert forall|l: int| 0 <= l < self.levels@.len() implies #[trigger] self.width(l)
                    == start.width(l) by {
                    assert(self.width(l) == before.width(l));
                }
                assert forall|l: int, i: int|
                    0 <= l < self.levels@.len() && 0 <= i < self.width(l) implies #[trigger] self.word(
                    l,
                    i,
                ) == (if l < level {
                    start.word(l, i)
                } else {
                    0
                }) by {
                    assert(before.width(l) == start.width(l));
                    assert(before.word(l, i) == (if l < level + 1 {
                        start.word(l, i)
                    } else {
                        0
                    }));
                }
            }
        }
        let mut visited: Vec<ReadFrameIdx> = Vec::new();
        let mut k: usize = 0;
        while k < active.len()
            invariant
                k <= active@.len(),
                visited@.len() == k,
                forall|j: int| 0 <= j < k ==> (#[trigger] visited@[j]).0 == active@[j],
            decreases active@.len() - k,
        {
            visited.push(ReadFrameIdx(active[k]));
            k = k + 1;
        }
        proof {
            lemma_zero_has_none();
            self.lemma_cleared(start);
            assert forall|frame: ReadFrameIdx|
                visited@.contains(frame) <==> old(self)@.contains(frame) by {
                assert(active@.contains(frame.0) <==> old(self)@.contains(frame));
                if visited@.contains(frame) {
                    let j = choose|j: int| 0 <= j < visited@.len() && visited@[j] == frame;
                    assert(active@[j] == frame.0);
                }
                if active@.contains(frame.0) {
                    let j = choose|j: int| 0 <= j < active@.len() && active@[j] == frame.0;
                    assert(visited@[j] == frame);
                }
            }
        }
        visited
    }

    proof fn lemma_cleared(self, start: Self)
        requires
            start.wf(),
            self.frames == start.frames,
            self.levels@.len() == start.levels@.len(),
            forall|l: int| 0 <= l < self.levels@.len() ==> #[trigger] self.width(l) == start.width(l),
            forall|l: int, i: int|
                0 <= l < self.levels@.len() && 0 <= i < self.width(l) ==> #[trigger] self.word(l, i)
                    == 0,
        ensures
            self.wf(),
            self@ == Set::<ReadFrameIdx>::empty(),
    {
        lemma_zero_has_none();
        assert forall|l: int| 0 <= l < self.levels@.len() implies #[trigger] self.width(l)
            == ceil64(self.width(l - 1)) by {
            assert(start.width(l) == ceil64(start.width(l - 1)));
            if l > 0 {
                assert(self.width(l - 1) == start.width(l - 1));
            }
        }
        assert(self.width(self.levels@.len() - 1) == start.width(start.levels@.len() - 1));
        assert forall|l: int, i: int|
            0 <= l < self.levels@.len() && 0 <= i < 64 * self.width(l) implies
            !#[trigger] self.marked(l, i) by {
            assert(self.word(l, i / 64) == 0);
        }
        assert(self@ =~= Set::empty()) by {
            assert(self.width(0) == ceil64(self.width(-1)));
        }
    }
}

spec fn increasing(s: Seq<u32>) -> bool {
    forall|i: int, j: int| 0 <= i < j < s.len() ==> #[trigger] s[i] < #[trigger] s[j]
}

proof fn lemma_push_larger(s: Seq<u32>, x: u32)
    requires
        increasing(s),
        forall|i: u32| #[trigger] s.contains(i) ==> i < x,
    ensures
        increasing(s.push(x)),
        forall|i: u32| #[trigger] s.push(x).contains(i) <==> s.contains(i) || i == x,
{
    assert forall|i: int, j: int| 0 <= i < j < s.push(x).len() implies #[trigger] s.push(x)[i]
        < #[trigger] s.push(x)[j] by {
        if j == s.len() {
            assert(s.contains(s[i]));
        }
    }
    assert forall|i: u32| #[trigger] s.push(x).contains(i) <==> s.contains(i) || i == x by {
        if s.contains(i) {
            let j = choose|j: int| 0 <= j < s.len() && s[j] == i;
            assert(s.push(x)[j] == i);
        }
        assert(s.push(x)[s.len() as int] == x);
    }
}

} // verus!
