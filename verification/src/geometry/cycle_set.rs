//! Sets of cycle ids, held as bitsets over CYCLESET_LENGTH words: bit i of the whole
//! array (bit i % 64 of word i / 64) is set when cycle i is in the set.

use crate::geometry::bits::{
    bit, count_bits, lemma_bit_clear, lemma_bit_low_mask, lemma_bit_max, lemma_bit_ops,
    lemma_bit_set, lemma_bit_zero_single, popcount,
};
use crate::geometry::constants::{CYCLESET_LENGTH, NCYCLES};
use crate::geometry::cycle::CycleId;
use crate::text::{decimal_digits, push_decimal, string_push};
use vstd::prelude::*;

verus! {

/// Sum of the population counts of the first `k` words.
pub open spec fn popcount_words(words: Seq<u64>, k: int) -> nat
    decreases k,
{
    if k <= 0 {
        0
    } else {
        popcount_words(words, k - 1) + popcount(words[k - 1])
    }
}

/// A set of cycle ids as a bitset of CYCLESET_LENGTH words.
#[derive(Debug, Clone, Copy, PartialEq, Eq, Hash)]
pub struct CycleSet([u64; 7]);

impl CycleSet {
    /// The words of the bitset.
    pub closed spec fn spec_words(self) -> Seq<u64> {
        self.0@
    }

    /// The word sequence always has CYCLESET_LENGTH words.
    pub proof fn lemma_words_len(self)
        ensures
            self.spec_words().len() == CYCLESET_LENGTH,
    {
    }

    /// Whether bit `id` of the set is set (ids up to 64 * CYCLESET_LENGTH).
    pub open spec fn has(self, id: int) -> bool {
        0 <= id < 64 * CYCLESET_LENGTH && bit(self.spec_words()[id / 64], (id % 64) as u64)
    }

    /// The empty set.
    pub fn empty() -> (r: Self)
        ensures
            forall|k: int| 0 <= k < CYCLESET_LENGTH ==> #[trigger] r.spec_words()[k] == 0,
            forall|id: int| !r.has(id),
    {
        let r = Self([0u64; 7]);
        proof {
            assert forall|id: int| !r.has(id) by {
                if 0 <= id < 448 {
                    lemma_bit_zero_single(0, (id % 64) as u64);
                }
            }
        }
        r
    }

    /// The set of all NCYCLES cycle ids.
    pub fn full() -> (r: Self)
        ensures
            forall|id: int| r.has(id) <==> 0 <= id < NCYCLES,
    {
        let mut words = [0u64; 7];
        let complete_words: usize = NCYCLES / 64;
        let mut i: usize = 0;
        while i < complete_words
            invariant
                complete_words == 6,
                i <= complete_words,
                forall|k: int| 0 <= k < i ==> #[trigger] words@[k] == 0xffff_ffff_ffff_ffffu64,
                forall|k: int| i <= k < 7 ==> #[trigger] words@[k] == 0,
            decreases complete_words - i,
        {
            words[i] = u64::MAX;
            i = i + 1;
        }
        let remaining_bits: u64 = (NCYCLES % 64) as u64;
        assert(remaining_bits == 10);
        assert(1u64 << 10u64 == 1024) by (bit_vector);
        words[complete_words] = (1u64 << remaining_bits) - 1;
        let r = Self(words);
        proof {
            assert forall|id: int| r.has(id) <==> 0 <= id < NCYCLES by {
                if 0 <= id < 448 {
                    let k = id / 64;
                    let b = (id % 64) as u64;
                    if k < 6 {
                        lemma_bit_max(b);
                    } else {
                        lemma_bit_low_mask(10, b);
                    }
                }
            }
        }
        r
    }

    /// The set with the given words.
    pub fn from_words(words: [u64; 7]) -> (r: Self)
        ensures
            r.spec_words() == words@,
    {
        Self(words)
    }

    /// Whether the cycle is in the set.
    pub fn contains(&self, id: CycleId) -> (r: bool)
        requires
            id < NCYCLES,
        ensures
            r == self.has(id as int),
    {
        let word_idx = (id / 64) as usize;
        let bit_idx = id % 64;
        let w = self.0[word_idx];
        assert(((w >> bit_idx) & 1u64 != 0) == ((w >> bit_idx) & 1u64 == 1u64)) by (bit_vector);
        (w >> bit_idx) & 1 != 0
    }

    /// Whether the id is in the set; false for any id beyond the set's words.
    pub fn contains_any(&self, id: u64) -> (r: bool)
        ensures
            r == self.has(id as int),
    {
        if id >= 448 {
            false
        } else {
            let word_idx = (id / 64) as usize;
            let bit_idx = id % 64;
            let w = self.0[word_idx];
            assert(((w >> bit_idx) & 1u64 != 0) == ((w >> bit_idx) & 1u64 == 1u64)) by (bit_vector);
            (w >> bit_idx) & 1 != 0
        }
    }

    /// Add a cycle.
    pub fn insert(&mut self, id: CycleId)
        requires
            id < NCYCLES,
        ensures
            forall|i: int| final(self).has(i) <==> (old(self).has(i) || i == id),
    {
        let word_idx = (id / 64) as usize;
        let bit_idx = id % 64;
        let ghost before = *self;
        let w = self.0[word_idx];
        self.0[word_idx] = w | (1u64 << bit_idx);
        proof {
            assert forall|i: int| self.has(i) <==> (before.has(i) || i == id) by {
                if 0 <= i < 448 {
                    lemma_bit_set(w, bit_idx, (i % 64) as u64);
                    if i / 64 == word_idx && i % 64 == bit_idx {
                        assert(i == id);
                    }
                }
            }
        }
    }

    /// Remove a cycle.
    pub fn remove(&mut self, id: CycleId)
        requires
            id < NCYCLES,
        ensures
            forall|i: int| final(self).has(i) <==> (old(self).has(i) && i != id),
    {
        let word_idx = (id / 64) as usize;
        let bit_idx = id % 64;
        let ghost before = *self;
        let w = self.0[word_idx];
        self.0[word_idx] = w & !(1u64 << bit_idx);
        proof {
            assert forall|i: int| self.has(i) <==> (before.has(i) && i != id) by {
                if 0 <= i < 448 {
                    lemma_bit_clear(w, bit_idx, (i % 64) as u64);
                    if i / 64 == word_idx && i % 64 == bit_idx {
                        assert(i == id);
                    }
                }
            }
        }
    }

    /// The number of members: the population count summed over the words.
    pub fn len(&self) -> (r: usize)
        ensures
            r == popcount_words(self.spec_words(), CYCLESET_LENGTH as int),
    {
        let mut total: usize = 0;
        let mut k: usize = 0;
        while k < 7
            invariant
                k <= 7,
                total == popcount_words(self.spec_words(), k as int),
                total <= 64 * k,
            decreases 7 - k,
        {
            let c = count_bits(self.0[k]);
            total = total + c as usize;
            k = k + 1;
        }
        total
    }

    /// Whether no word has a bit set.
    pub fn is_empty(&self) -> (r: bool)
        ensures
            r <==> forall|k: int| 0 <= k < CYCLESET_LENGTH ==> #[trigger] self.spec_words()[k] == 0,
            r ==> forall|id: int| !self.has(id),
    {
        let mut k: usize = 0;
        while k < 7
            invariant
                k <= 7,
                forall|j: int| 0 <= j < k ==> #[trigger] self.spec_words()[j] == 0,
            decreases 7 - k,
        {
            if self.0[k] != 0 {
                assert(self.spec_words()[k as int] != 0);
                return false;
            }
            k = k + 1;
        }
        proof {
            assert forall|id: int| !self.has(id) by {
                if 0 <= id < 448 {
                    lemma_bit_zero_single(0, (id % 64) as u64);
                }
            }
        }
        true
    }

    /// The words of the bitset.
    pub fn words(&self) -> (r: &[u64; 7])
        ensures
            r@ == self.spec_words(),
    {
        &self.0
    }

    /// The set with word `w` replaced by `value`.
    pub fn with_word(&self, w: usize, value: u64) -> (r: Self)
        requires
            w < CYCLESET_LENGTH,
        ensures
            r.spec_words() == self.spec_words().update(w as int, value),
    {
        let mut words = self.0;
        words[w] = value;
        Self(words)
    }

    /// The member ids below NCYCLES, in increasing order.
    /// The members below `n`, in increasing order.
    pub open spec fn members_below(self, n: nat) -> Seq<nat>
        decreases n,
    {
        if n == 0 {
            seq![]
        } else {
            self.members_below((n - 1) as nat) + if self.has(n - 1) {
                seq![(n - 1) as nat]
            } else {
                seq![]
            }
        }
    }

    /// The text of the set: its members in increasing order, in decimal, separated by
    /// ", " and between braces.
    pub open spec fn text(self) -> Seq<char> {
        seq!['{'] + joined_decimals(self.members_below(NCYCLES as nat)) + seq!['}']
    }

    pub fn iter(&self) -> (r: Vec<CycleId>)
        ensures
            r@.len() == self.members_below(NCYCLES as nat).len(),
            forall|j: int| 0 <= j < r@.len() ==> (#[trigger] r@[j]) as nat == self.members_below(NCYCLES as nat)[j],
            forall|j: int| 0 <= j < r@.len() ==> (#[trigger] r@[j]) < NCYCLES && self.has(r@[j] as int),
            forall|j: int, k: int| 0 <= j < k < r@.len() ==> (#[trigger] r@[j]) < (#[trigger] r@[k]),
            forall|id: int| 0 <= id < NCYCLES && self.has(id) ==> exists|j: int| 0 <= j < r@.len() && (#[trigger] r@[j]) == id,
    {
        let mut out: Vec<CycleId> = Vec::new();
        let mut id: u64 = 0;
        while id < NCYCLES as u64
            invariant
                id <= NCYCLES,
                forall|j: int| 0 <= j < out@.len() ==> (#[trigger] out@[j]) < id && self.has(out@[j] as int),
                forall|j: int, k: int| 0 <= j < k < out@.len() ==> (#[trigger] out@[j]) < (#[trigger] out@[k]),
                forall|i: int| 0 <= i < id && self.has(i) ==> exists|j: int| 0 <= j < out@.len() && (#[trigger] out@[j]) == i,
                out@.len() == self.members_below(id as nat).len(),
                forall|j: int| 0 <= j < out@.len() ==> (#[trigger] out@[j]) as nat == self.members_below(id as nat)[j],
            decreases NCYCLES - id,
        {
            let ghost before = out@;
            if self.contains(id) {
                out.push(id);
            }
            proof {
                let m0 = self.members_below(id as nat);
                assert(self.members_below((id + 1) as nat) == m0 + if self.has(id as int) {
                    seq![id as nat]
                } else {
                    seq![]
                });
                assert forall|j: int| 0 <= j < out@.len() implies (#[trigger] out@[j]) as nat == self.members_below((id + 1) as nat)[j] by {
                    if j < before.len() {
                        assert(out@[j] == before[j]);
                    }
                }
                assert forall|i: int| 0 <= i < id + 1 && self.has(i) implies exists|j: int| 0 <= j < out@.len() && (#[trigger] out@[j]) == i by {
                    if i < id {
                        let j = choose|j: int| 0 <= j < before.len() && (#[trigger] before[j]) == i;
                        assert(out@[j] == before[j]);
                    } else {
                        assert(out@[out@.len() - 1] == i);
                    }
                }
            }
            id = id + 1;
        }
        out
    }

    /// The union of two sets.
    pub fn union(&self, other: &Self) -> (r: Self)
        ensures
            forall|k: int| 0 <= k < CYCLESET_LENGTH ==> #[trigger] r.spec_words()[k] == self.spec_words()[k] | other.spec_words()[k],
            forall|id: int| r.has(id) <==> (self.has(id) || other.has(id)),
    {
        let mut result = [0u64; 7];
        let mut i: usize = 0;
        while i < 7
            invariant
                i <= 7,
                forall|k: int| 0 <= k < i ==> #[trigger] result@[k] == self.0@[k] | other.0@[k],
            decreases 7 - i,
        {
            result[i] = self.0[i] | other.0[i];
            i = i + 1;
        }
        let r = Self(result);
        proof {
            assert forall|id: int| r.has(id) <==> (self.has(id) || other.has(id)) by {
                if 0 <= id < 448 {
                    lemma_bit_ops(self.0@[id / 64], other.0@[id / 64], (id % 64) as u64);
                }
            }
        }
        r
    }

    /// The intersection of two sets.
    pub fn intersection(&self, other: &Self) -> (r: Self)
        ensures
            forall|k: int| 0 <= k < CYCLESET_LENGTH ==> #[trigger] r.spec_words()[k] == self.spec_words()[k] & other.spec_words()[k],
            forall|id: int| r.has(id) <==> (self.has(id) && other.has(id)),
    {
        let mut result = [0u64; 7];
        let mut i: usize = 0;
        while i < 7
            invariant
                i <= 7,
                forall|k: int| 0 <= k < i ==> #[trigger] result@[k] == self.0@[k] & other.0@[k],
            decreases 7 - i,
        {
            result[i] = self.0[i] & other.0[i];
            i = i + 1;
        }
        let r = Self(result);
        proof {
            assert forall|id: int| r.has(id) <==> (self.has(id) && other.has(id)) by {
                if 0 <= id < 448 {
                    lemma_bit_ops(self.0@[id / 64], other.0@[id / 64], (id % 64) as u64);
                }
            }
        }
        r
    }

    /// The difference of two sets (members of `self` not in `other`).
    pub fn difference(&self, other: &Self) -> (r: Self)
        ensures
            forall|k: int| 0 <= k < CYCLESET_LENGTH ==> #[trigger] r.spec_words()[k] == self.spec_words()[k] & !other.spec_words()[k],
            forall|id: int| r.has(id) <==> (self.has(id) && !other.has(id)),
    {
        let mut result = [0u64; 7];
        let mut i: usize = 0;
        while i < 7
            invariant
                i <= 7,
                forall|k: int| 0 <= k < i ==> #[trigger] result@[k] == self.0@[k] & !other.0@[k],
            decreases 7 - i,
        {
            result[i] = self.0[i] & !other.0[i];
            i = i + 1;
        }
        let r = Self(result);
        proof {
            assert forall|id: int| r.has(id) <==> (self.has(id) && !other.has(id)) by {
                if 0 <= id < 448 {
                    lemma_bit_ops(self.0@[id / 64], other.0@[id / 64], (id % 64) as u64);
                }
            }
        }
        r
    }

    /// Whether two sets have the same words.
    pub fn same_words(&self, other: &Self) -> (r: bool)
        ensures
            r <==> self.spec_words() == other.spec_words(),
    {
        let mut k: usize = 0;
        while k < 7
            invariant
                k <= 7,
                forall|j: int| 0 <= j < k ==> #[trigger] self.0@[j] == other.0@[j],
            decreases 7 - k,
        {
            if self.0[k] != other.0[k] {
                return false;
            }
            k = k + 1;
        }
        proof {
            assert(self.0@ =~= other.0@);
        }
        true
    }

    /// The set holding the given ids.
    pub fn from_ids(ids: &[CycleId]) -> (r: Self)
        requires
            forall|j: int| 0 <= j < ids@.len() ==> #[trigger] ids@[j] < NCYCLES,
        ensures
            forall|id: int| r.has(id) <==> exists|j: int| 0 <= j < ids@.len() && (#[trigger] ids@[j]) == id,
    {
        let mut set = Self::empty();
        let mut k: usize = 0;
        while k < ids.len()
            invariant
                k <= ids@.len(),
                forall|id: int| set.has(id) <==> exists|j: int| 0 <= j < k && (#[trigger] ids@[j]) == id,
            decreases ids@.len() - k,
        {
            let ghost before = set;
            set.insert(ids[k]);
            proof {
                assert forall|id: int| set.has(id) <==> exists|j: int| 0 <= j < k + 1 && (#[trigger] ids@[j]) == id by {
                    if set.has(id) && !before.has(id) {
                        assert(ids@[k as int] == id);
                    }
                    if exists|j: int| 0 <= j < k + 1 && (#[trigger] ids@[j]) == id {
                        let j = choose|j: int| 0 <= j < k + 1 && (#[trigger] ids@[j]) == id;
                        if j < k {
                            assert(before.has(id));
                        }
                    }
                }
            }
            k = k + 1;
        }
        set
    }

    /// The text form: the member ids in increasing order, as in "{0, 5, 12}".
    pub fn to_display_string(&self) -> (r: String)
        ensures
            r@ == self.text(),
    {
        let mut s = String::new();
        string_push(&mut s, '{');
        let ids = self.iter();
        let ghost m = self.members_below(NCYCLES as nat);
        let mut k: usize = 0;
        while k < ids.len()
            invariant
                k <= ids@.len(),
                ids@.len() == m.len(),
                forall|j: int| 0 <= j < ids@.len() ==> (#[trigger] ids@[j]) as nat == m[j],
                s@ == seq!['{'] + joined_decimals(m.take(k as int)),
            decreases ids@.len() - k,
        {
            if k > 0 {
                string_push(&mut s, ',');
                string_push(&mut s, ' ');
            }
            push_decimal(&mut s, ids[k]);
            proof {
                let t = m.take(k as int + 1);
                assert(t.drop_last() =~= m.take(k as int));
                assert(t.last() == m[k as int]);
                if k == 0 {
                    assert(joined_decimals(m.take(0)) =~= Seq::<char>::empty());
                    assert(s@ =~= seq!['{'] + joined_decimals(t));
                } else {
                    assert(s@ =~= seq!['{'] + joined_decimals(t));
                }
            }
            k = k + 1;
        }
        string_push(&mut s, '}');
        proof {
            assert(m.take(m.len() as int) =~= m);
            assert(s@ =~= self.text());
        }
        s
    }
}

/// Numbers in decimal, separated by ", ".
pub open spec fn joined_decimals(ns: Seq<nat>) -> Seq<char>
    decreases ns.len(),
{
    if ns.len() == 0 {
        seq![]
    } else if ns.len() == 1 {
        decimal_digits(ns[0])
    } else {
        joined_decimals(ns.drop_last()) + seq![',', ' '] + decimal_digits(ns.last())
    }
}

} // verus!
