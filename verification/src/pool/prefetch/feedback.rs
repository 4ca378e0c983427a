//! Consumption feedback in the order a reader's stream must see it.

use crate::pool::PageId;
use vstd::prelude::*;
use vstd::seq_lib::*;

verus! {

/// One speculative page its own reader consumed.
#[derive(Debug, Clone, Copy, PartialEq, Eq, Structural)]
pub struct Feedback {
    pub reader: u32,
    pub incarnation: u64,
    pub page: PageId,
}

/// Byte `ordinal` of the sixteen-byte key, least significant first: the
/// granule, the incarnation, the reader.
pub open spec fn key_byte(feedback: Feedback, ordinal: int) -> int {
    if ordinal < 4 {
        byte_of(feedback.page.granule_idx as int, ordinal)
    } else if ordinal < 12 {
        byte_of(feedback.incarnation as int, ordinal - 4)
    } else {
        byte_of(feedback.reader as int, ordinal - 12)
    }
}

/// Byte `place` of `value`.
pub open spec fn byte_of(value: int, place: int) -> int {
    if place == 0 {
        value % 0x100
    } else if place == 1 {
        value / 0x100 % 0x100
    } else if place == 2 {
        value / 0x1_0000 % 0x100
    } else if place == 3 {
        value / 0x100_0000 % 0x100
    } else if place == 4 {
        value / 0x1_0000_0000 % 0x100
    } else if place == 5 {
        value / 0x100_0000_0000 % 0x100
    } else if place == 6 {
        value / 0x1_0000_0000_0000 % 0x100
    } else {
        value / 0x100_0000_0000_0000 % 0x100
    }
}

/// `a` comes no later than `b`: by reader, then incarnation, then granule.
pub open spec fn no_later(a: Feedback, b: Feedback) -> bool {
    ||| a.reader < b.reader
    ||| a.reader == b.reader && a.incarnation < b.incarnation
    ||| a.reader == b.reader && a.incarnation == b.incarnation && a.page.granule_idx
        <= b.page.granule_idx
}

pub open spec fn in_order(list: Seq<Feedback>) -> bool {
    forall|i: int, j: int|
        0 <= i <= j < list.len() ==> no_later(#[trigger] list[i], #[trigger] list[j])
}

/// Comparison of the low `bytes` bytes of two keys.
spec fn low_le(a: Feedback, b: Feedback, bytes: nat) -> bool
    decreases bytes,
{
    if bytes == 0 {
        true
    } else {
        let top = (bytes - 1) as int;
        ||| key_byte(a, top) < key_byte(b, top)
        ||| key_byte(a, top) == key_byte(b, top) && low_le(a, b, (bytes - 1) as nat)
    }
}

spec fn low_sorted(list: Seq<Feedback>, bytes: nat) -> bool {
    forall|i: int, j: int|
        0 <= i <= j < list.len() ==> low_le(#[trigger] list[i], #[trigger] list[j], bytes)
}

proof fn lemma_bytes_order(a: u32, b: u32)
    ensures
        ({
            let lower = |k: int| byte_of(a as int, k) < byte_of(b as int, k);
            let equal = |k: int| byte_of(a as int, k) == byte_of(b as int, k);
            &&& (lower(3) || (equal(3) && (lower(2) || (equal(2) && (lower(1) || (equal(1) && (
            lower(0) || equal(0)))))))) <==> a <= b
            &&& equal(3) && equal(2) && equal(1) && equal(0) <==> a == b
        }),
{
}

proof fn lemma_wide_bytes_order(a: u64, b: u64)
    ensures
        ({
            let lower = |k: int| byte_of(a as int, k) < byte_of(b as int, k);
            let equal = |k: int| byte_of(a as int, k) == byte_of(b as int, k);
            let low_equal = equal(3) && equal(2) && equal(1) && equal(0);
            let low_below = lower(3) || (equal(3) && (lower(2) || (equal(2) && (lower(1) || (equal(
                1,
            ) && lower(0))))));
            &&& (lower(7) || (equal(7) && (lower(6) || (equal(6) && (lower(5) || (equal(5) && (
            lower(4) || (equal(4) && low_below)))))))) <==> a < b
            &&& equal(7) && equal(6) && equal(5) && equal(4) && low_equal <==> a == b
        }),
{
    let a_high = (a / 0x1_0000_0000) as u32;
    let b_high = (b / 0x1_0000_0000) as u32;
    let a_low = (a % 0x1_0000_0000) as u32;
    let b_low = (b % 0x1_0000_0000) as u32;
    lemma_bytes_order(a_high, b_high);
    lemma_bytes_order(a_low, b_low);
    lemma_bytes_order(b_high, a_high);
    lemma_bytes_order(b_low, a_low);
    lemma_halves(a);
    lemma_halves(b);
}

proof fn lemma_halves(a: u64)
    ensures
        ({
            let high = (a / 0x1_0000_0000) as int;
            let low = (a % 0x1_0000_0000) as int;
            &&& byte_of(a as int, 0) == byte_of(low, 0)
            &&& byte_of(a as int, 1) == byte_of(low, 1)
            &&& byte_of(a as int, 2) == byte_of(low, 2)
            &&& byte_of(a as int, 3) == byte_of(low, 3)
            &&& byte_of(a as int, 4) == byte_of(high, 0)
            &&& byte_of(a as int, 5) == byte_of(high, 1)
            &&& byte_of(a as int, 6) == byte_of(high, 2)
            &&& byte_of(a as int, 7) == byte_of(high, 3)
        }),
{
    assert({
        let high = a / 0x1_0000_0000;
        let low = a % 0x1_0000_0000;
        &&& a % 0x100 == low % 0x100
        &&& a / 0x100 % 0x100 == low / 0x100 % 0x100
        &&& a / 0x1_0000 % 0x100 == low / 0x1_0000 % 0x100
        &&& a / 0x100_0000 % 0x100 == low / 0x100_0000 % 0x100
        &&& a / 0x1_0000_0000 % 0x100 == high % 0x100
        &&& a / 0x100_0000_0000 % 0x100 == high / 0x100 % 0x100
        &&& a / 0x1_0000_0000_0000 % 0x100 == high / 0x1_0000 % 0x100
        &&& a / 0x100_0000_0000_0000 % 0x100 == high / 0x100_0000 % 0x100
    }) by (bit_vector);
}

proof fn lemma_low_le_is_order(a: Feedback, b: Feedback)
    requires
        low_le(a, b, 16),
    ensures
        no_later(a, b),
{
    reveal_with_fuel(low_le, 17);
    lemma_bytes_order(a.page.granule_idx, b.page.granule_idx);
    lemma_bytes_order(a.reader, b.reader);
    lemma_wide_bytes_order(a.incarnation, b.incarnation);
}

/// Byte `place` of `value`.
fn byte_at(value: u64, place: u32) -> (byte: usize)
    requires
        place < 8,
    ensures
        byte == byte_of(value as int, place as int),
        byte < 256,
{
    let shifted: u64 = if place == 0 {
        value
    } else if place == 1 {
        value / 0x100
    } else if place == 2 {
        value / 0x1_0000
    } else if place == 3 {
        value / 0x100_0000
    } else if place == 4 {
        value / 0x1_0000_0000
    } else if place == 5 {
        value / 0x100_0000_0000
    } else if place == 6 {
        value / 0x1_0000_0000_0000
    } else {
        value / 0x100_0000_0000_0000
    };
    (shifted % 0x100) as usize
}

impl Feedback {
    pub fn byte(self, ordinal: u32) -> (byte: usize)
        requires
            ordinal < 16,
        ensures
            byte == key_byte(self, ordinal as int),
            byte < 256,
    {
        if ordinal < 4 {
            byte_at(self.page.granule_idx() as u64, ordinal)
        } else if ordinal < 12 {
            byte_at(self.incarnation, ordinal - 4)
        } else {
            byte_at(self.reader as u64, ordinal - 12)
        }
    }
}

/// The first `n` buckets end to end.
spec fn joined(buckets: Seq<Vec<Feedback>>, n: nat) -> Seq<Feedback>
    decreases n,
{
    if n == 0 {
        Seq::empty()
    } else {
        joined(buckets, (n - 1) as nat) + buckets[n - 1]@
    }
}

proof fn lemma_joined_same(a: Seq<Vec<Feedback>>, b: Seq<Vec<Feedback>>, n: nat)
    requires
        n <= a.len(),
        n <= b.len(),
        forall|k: int| 0 <= k < n ==> (#[trigger] a[k])@ == b[k]@,
    ensures
        joined(a, n) == joined(b, n),
    decreases n,
{
    if n > 0 {
        lemma_joined_same(a, b, (n - 1) as nat);
    }
}

/// A feedback pushed into bucket `at` is one more feedback in all.
proof fn lemma_joined_push(
    before: Seq<Vec<Feedback>>,
    after: Seq<Vec<Feedback>>,
    at: int,
    x: Feedback,
    n: nat,
)
    requires
        before.len() == after.len(),
        0 <= at < n <= before.len(),
        after[at]@ == before[at]@.push(x),
        forall|k: int| 0 <= k < before.len() && k != at ==> (#[trigger] after[k])@ == before[k]@,
    ensures
        joined(after, n).to_multiset() == joined(before, n).to_multiset().insert(x),
    decreases n,
{
    lemma_multiset_commutative(joined(after, (n - 1) as nat), after[n - 1]@);
    lemma_multiset_commutative(joined(before, (n - 1) as nat), before[n - 1]@);
    if n - 1 == at {
        lemma_joined_same(after, before, (n - 1) as nat);
        before[at]@.to_multiset_ensures();
        assert(after[at]@.to_multiset() =~= before[at]@.to_multiset().insert(x));
        assert(joined(after, n).to_multiset() =~= joined(before, n).to_multiset().insert(x));
    } else {
        lemma_joined_push(before, after, at, x, (n - 1) as nat);
        assert(joined(after, n).to_multiset() =~= joined(before, n).to_multiset().insert(x));
    }
}

/// One distribution pass: a stable sort by byte `ordinal`.
fn distribute(list: &Vec<Feedback>, ordinal: u32) -> (sorted: Vec<Feedback>)
    requires
        ordinal < 16,
        low_sorted(list@, ordinal as nat),
    ensures
        sorted@.to_multiset() == list@.to_multiset(),
        sorted@.len() == list@.len(),
        low_sorted(sorted@, (ordinal + 1) as nat),
{
    let mut buckets: Vec<Vec<Feedback>> = Vec::new();
    let mut b: usize = 0;
    while b < 256
        invariant
            b <= 256,
            buckets@.len() == b,
            forall|k: int| 0 <= k < b ==> (#[trigger] buckets@[k])@ == Seq::<Feedback>::empty(),
            joined(buckets@, b as nat) == Seq::<Feedback>::empty(),
        decreases 256 - b,
    {
        let ghost shorter = buckets@;
        buckets.push(Vec::new());
        proof {
            lemma_joined_same(shorter, buckets@, b as nat);
            assert(joined(buckets@, (b + 1) as nat) =~= Seq::empty());
        }
        b = b + 1;
    }
    let mut i: usize = 0;
    assert(list@.take(0) =~= Seq::empty());
    proof {
        Seq::<Feedback>::empty().to_multiset_ensures();
    }
    while i < list.len()
        invariant
            i <= list@.len(),
            ordinal < 16,
            low_sorted(list@, ordinal as nat),
            buckets@.len() == 256,
            joined(buckets@, 256).to_multiset() == list@.take(i as int).to_multiset(),
            forall|b: int, k: int|
                0 <= b < 256 && 0 <= k < buckets@[b]@.len() ==> key_byte(
                    #[trigger] buckets@[b]@[k],
                    ordinal as int,
                ) == b,
            forall|b: int, k: int, j: int|
                #![trigger buckets@[b]@[k], list@[j]]
                0 <= b < 256 && 0 <= k < buckets@[b]@.len() && i <= j < list@.len() ==> low_le(
                    buckets@[b]@[k],
                    list@[j],
                    ordinal as nat,
                ),
            forall|b: int, k: int, j: int|
                #![trigger buckets@[b]@[k], buckets@[b]@[j]]
                0 <= b < 256 && 0 <= k <= j < buckets@[b]@.len() ==> low_le(
                    buckets@[b]@[k],
                    buckets@[b]@[j],
                    ordinal as nat,
                ),
        decreases list@.len() - i,
    {
        let item: Feedback = list[i];
        let byte: usize = item.byte(ordinal);
        let ghost before = buckets@;
        buckets[byte].push(item);
        proof {
            assert(buckets@[byte as int]@ == before[byte as int]@.push(item));
            assert(forall|k: int|
                0 <= k < 256 && k != byte ==> (#[trigger] buckets@[k])@ == before[k]@);
            lemma_joined_push(before, buckets@, byte as int, item, 256);
            list@.take(i as int).to_multiset_ensures();
            assert(list@.take(i + 1) =~= list@.take(i as int).push(item));
            assert(low_le(item, item, ordinal as nat)) by {
                assert(low_le(list@[i as int], list@[i as int], ordinal as nat));
            }
            assert forall|b: int, k: int|
                0 <= b < 256 && 0 <= k < buckets@[b]@.len() implies key_byte(
                #[trigger] buckets@[b]@[k],
                ordinal as int,
            ) == b by {
                if b != byte || k < before[b]@.len() {
                    assert(buckets@[b]@[k] == before[b]@[k]);
                }
            }
            assert forall|b: int, k: int, j: int|
                #![trigger buckets@[b]@[k], list@[j]]
                0 <= b < 256 && 0 <= k < buckets@[b]@.len() && i + 1 <= j < list@.len() implies low_le(
                buckets@[b]@[k],
                list@[j],
                ordinal as nat,
            ) by {
                if b != byte || k < before[b]@.len() {
                    assert(buckets@[b]@[k] == before[b]@[k]);
                } else {
                    assert(low_le(list@[i as int], list@[j], ordinal as nat));
                }
            }
            assert forall|b: int, k: int, j: int|
                #![trigger buckets@[b]@[k], buckets@[b]@[j]]
                0 <= b < 256 && 0 <= k <= j < buckets@[b]@.len() implies low_le(
                buckets@[b]@[k],
                buckets@[b]@[j],
                ordinal as nat,
            ) by {
                if b != byte || k < before[b]@.len() {
                    assert(buckets@[b]@[k] == before[b]@[k]);
                }
                if b != byte || j < before[b]@.len() {
                    assert(buckets@[b]@[j] == before[b]@[j]);
                } else if k < before[b]@.len() {
                    assert(low_le(before[b]@[k], list@[i as int], ordinal as nat));
                }
            }
        }
        i = i + 1;
    }
    assert(list@.take(i as int) =~= list@);
    let mut sorted: Vec<Feedback> = Vec::new();
    let mut b: usize = 0;
    while b < 256
        invariant
            b <= 256,
            ordinal < 16,
            buckets@.len() == 256,
            sorted@ == joined(buckets@, b as nat),
            low_sorted(sorted@, (ordinal + 1) as nat),
            forall|k: int|
                0 <= k < sorted@.len() ==> key_byte(#[trigger] sorted@[k], ordinal as int) < b,
            forall|b: int, k: int|
                0 <= b < 256 && 0 <= k < buckets@[b]@.len() ==> key_byte(
                    #[trigger] buckets@[b]@[k],
                    ordinal as int,
                ) == b,
            forall|b: int, k: int, j: int|
                #![trigger buckets@[b]@[k], buckets@[b]@[j]]
                0 <= b < 256 && 0 <= k <= j < buckets@[b]@.len() ==> low_le(
                    buckets@[b]@[k],
                    buckets@[b]@[j],
                    ordinal as nat,
                ),
        decreases 256 - b,
    {
        let mut k: usize = 0;
        let ghost head = sorted@;
        while k < buckets[b].len()
            invariant
                b < 256,
                buckets@.len() == 256,
                k <= buckets@[b as int]@.len(),
                sorted@ == head + buckets@[b as int]@.take(k as int),
            decreases buckets@[b as int]@.len() - k,
        {
            sorted.push(buckets[b][k]);
            proof {
                assert(buckets@[b as int]@.take(k + 1) =~= buckets@[b as int]@.take(k as int).push(
                    buckets@[b as int]@[k as int],
                ));
                assert(sorted@ =~= head + buckets@[b as int]@.take(k + 1));
            }
            k = k + 1;
        }
        proof {
            let bucket = buckets@[b as int]@;
            assert(bucket.take(k as int) =~= bucket);
            assert forall|i: int, j: int| 0 <= i <= j < sorted@.len() implies low_le(
                #[trigger] sorted@[i],
                #[trigger] sorted@[j],
                (ordinal + 1) as nat,
            ) by {
                if j < head.len() {
                    assert(sorted@[i] == head[i] && sorted@[j] == head[j]);
                } else {
                    assert(sorted@[j] == bucket[j - head.len()]);
                    if i < head.len() {
                        assert(sorted@[i] == head[i]);
                    } else {
                        assert(sorted@[i] == bucket[i - head.len()]);
                    }
                }
            }
            assert forall|m: int| 0 <= m < sorted@.len() implies key_byte(
                #[trigger] sorted@[m],
                ordinal as int,
            ) < b + 1 by {
                if m < head.len() {
                    assert(sorted@[m] == head[m]);
                } else {
                    assert(sorted@[m] == bucket[m - head.len()]);
                }
            }
        }
        b = b + 1;
    }
    proof {
        sorted@.to_multiset_ensures();
        list@.to_multiset_ensures();
    }
    sorted
}

/// Sorts feedback by reader, incarnation and granule: one distribution pass
/// per key byte, least significant first.
pub fn sort_feedback(list: Vec<Feedback>) -> (sorted: Vec<Feedback>)
    ensures
        sorted@.to_multiset() == list@.to_multiset(),
        sorted@.len() == list@.len(),
        in_order(sorted@),
{
    let ghost given = list@;
    let mut sorted: Vec<Feedback> = list;
    let mut ordinal: u32 = 0;
    while ordinal < 16
        invariant
            ordinal <= 16,
            sorted@.to_multiset() == given.to_multiset(),
            sorted@.len() == given.len(),
            low_sorted(sorted@, ordinal as nat),
        decreases 16 - ordinal,
    {
        sorted = distribute(&sorted, ordinal);
        ordinal = ordinal + 1;
    }
    proof {
        assert forall|i: int, j: int| 0 <= i <= j < sorted@.len() implies no_later(
            #[trigger] sorted@[i],
            #[trigger] sorted@[j],
        ) by {
            lemma_low_le_is_order(sorted@[i], sorted@[j]);
        }
    }
    sorted
}

/// Feedback comes stream by stream and page by page: the order tells any two
/// apart that differ in reader, incarnation or granule, pages of one stream come
/// in file order, and it can be followed through.
pub proof fn feedback_comes_in_stream_order(a: Feedback, b: Feedback, c: Feedback)
    ensures
        no_later(a, b) || no_later(b, a),
        no_later(a, b) && no_later(b, a) ==> a.reader == b.reader && a.incarnation == b.incarnation
            && a.page.granule_idx == b.page.granule_idx,
        no_later(a, b) && no_later(b, c) ==> no_later(a, c),
        a.reader == b.reader && a.incarnation == b.incarnation && a.page.granule_idx
            < b.page.granule_idx ==> no_later(a, b) && !no_later(b, a),
        a.reader == b.reader && a.incarnation < b.incarnation ==> no_later(a, b) && !no_later(b, a),
        a.reader < b.reader ==> no_later(a, b) && !no_later(b, a),
{
}

} // verus!
