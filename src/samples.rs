//! Collections of distinct samples, kept free of repeats by looking each new
//! sample up in the bucket of its fingerprint.
use crate::codec::encode;
use crate::compressed_coloring::CompressedColoring;
use std::collections::HashMap;
use vstd::prelude::*;

verus! {

broadcast use vstd::std_specs::hash::group_hash_axioms;

/// The modulus of the bucket fingerprint (the largest prime below 2^32).
pub const FINGERPRINT_MODULUS: u64 = 4294967291;

/// The multiplier of the bucket fingerprint.
pub const FINGERPRINT_BASE: u64 = 65599;

/// A polynomial hash of a sample's size and words, used to find the bucket
/// of samples that may equal it.
pub open spec fn fingerprint(words: Seq<u32>, size: nat) -> u64
    decreases words.len(),
{
    if words.len() == 0 {
        (size % (FINGERPRINT_MODULUS as nat)) as u64
    } else {
        ((fingerprint(words.drop_last(), size) as nat * (FINGERPRINT_BASE as nat) + words.last() as nat)
            % (FINGERPRINT_MODULUS as nat)) as u64
    }
}

pub open spec fn key_of(c: CompressedColoring) -> u64 {
    fingerprint(c.spec_words(), c.spec_size())
}

/// Two samples are the same: equal words, size and colour count.
pub open spec fn same_sample(a: CompressedColoring, b: CompressedColoring) -> bool {
    &&& a.spec_words() == b.spec_words()
    &&& a.spec_size() == b.spec_size()
    &&& a.spec_n_colors() == b.spec_n_colors()
}

/// `c` is the sample of a sequence: well formed, and its words are exactly
/// the packing of that sequence, with no padding.
pub open spec fn canonical(c: CompressedColoring) -> bool {
    &&& c.wf()
    &&& c.spec_words() == encode(c.spec_n_colors(), c.decoded())
}

/// `x` equals one of the samples of `s`.
pub open spec fn holds_sample(s: Seq<CompressedColoring>, x: CompressedColoring) -> bool {
    exists|i: int| 0 <= i < s.len() && same_sample(#[trigger] s[i], x)
}

/// Distinct samples of one colour count, each the exact packing of its
/// sequence, stand for distinct colour sequences: no two decode alike.
pub proof fn lemma_distinct_samples_distinct_sequences(s: Seq<CompressedColoring>, n_colors: nat)
    requires
        forall|i: int, j: int| 0 <= i < j < s.len() ==> !same_sample(#[trigger] s[i], #[trigger] s[j]),
        forall|i: int| 0 <= i < s.len() ==> canonical(#[trigger] s[i]),
        forall|i: int| 0 <= i < s.len() ==> (#[trigger] s[i]).spec_n_colors() == n_colors,
    ensures
        forall|i: int, j: int|
            0 <= i < j < s.len() ==> (#[trigger] s[i]).decoded() != (#[trigger] s[j]).decoded(),
{
    assert forall|i: int, j: int| 0 <= i < j < s.len() implies (#[trigger] s[i]).decoded() != (
    #[trigger] s[j]).decoded() by {
        if s[i].decoded() == s[j].decoded() {
            assert(s[i].spec_size() == s[i].decoded().len());
            assert(s[j].spec_size() == s[j].decoded().len());
            assert(same_sample(s[i], s[j]));
        }
    }
}

/// The samples of a set are pairwise distinct.
pub proof fn lemma_set_distinct(set: &SampleSet)
    requires
        set.wf(),
    ensures
        forall|i: int, j: int|
            0 <= i < j < set@.len() ==> !same_sample(#[trigger] set@[i], #[trigger] set@[j]),
{
}

fn fingerprint_of(c: &CompressedColoring) -> (r: u64)
    ensures
        r == key_of(*c),
{
    let words = c.words();
    let mut h: u64 = (c.size() as u64) % FINGERPRINT_MODULUS;
    let mut i: usize = 0;
    proof {
        assert(words@.subrange(0, 0) =~= Seq::<u32>::empty());
    }
    while i < words.len()
        invariant
            i <= words@.len(),
            words@ == c.spec_words(),
            h == fingerprint(words@.subrange(0, i as int), c.spec_size()),
            h < FINGERPRINT_MODULUS,
        decreases words@.len() - i,
    {
        proof {
            assert(words@.subrange(0, i + 1).drop_last() =~= words@.subrange(0, i as int));
        }
        h = (h * FINGERPRINT_BASE + words[i] as u64) % FINGERPRINT_MODULUS;
        i += 1;
    }
    proof {
        assert(words@.subrange(0, i as int) =~= words@);
    }
    h
}

/// Samples with no two the same, in the order they were first added.
pub struct SampleSet {
    items: Vec<CompressedColoring>,
    buckets: HashMap<u64, Vec<usize>>,
}

impl View for SampleSet {
    type V = Seq<CompressedColoring>;

    closed spec fn view(&self) -> Seq<CompressedColoring> {
        self.items@
    }
}

impl SampleSet {
    /// No two samples are the same, and each one is listed in the bucket of
    /// its fingerprint, which lists nothing else.
    pub closed spec fn wf(&self) -> bool {
        let items = self.items@;
        let buckets = self.buckets@;
        &&& forall|i: int, j: int|
            0 <= i < j < items.len() ==> !same_sample(#[trigger] items[i], #[trigger] items[j])
        &&& forall|i: int|
            0 <= i < items.len() ==> buckets.contains_key(key_of(#[trigger] items[i]))
                && buckets[key_of(items[i])]@.contains(i as usize)
        &&& forall|k: u64, t: int|
            buckets.contains_key(k) && 0 <= t < buckets[k]@.len() ==> {
                let idx = #[trigger] buckets[k]@[t];
                &&& idx < items.len()
                &&& key_of(items[idx as int]) == k
            }
    }

    pub fn new() -> (r: SampleSet)
        ensures
            r.wf(),
            r@ == Seq::<CompressedColoring>::empty(),
    {
        SampleSet { items: Vec::new(), buckets: HashMap::new() }
    }

    /// Number of distinct samples held.
    pub fn len(&self) -> (r: usize)
        ensures
            r == self@.len(),
    {
        self.items.len()
    }

    /// Adds `item` unless the same sample is already held; says whether it
    /// was added.
    pub fn insert(&mut self, item: CompressedColoring) -> (r: bool)
        requires
            old(self).wf(),
        ensures
            final(self).wf(),
            r == !holds_sample(old(self)@, item),
            r ==> final(self)@ == old(self)@.push(item),
            !r ==> final(self)@ == old(self)@,
    {
        let key = fingerprint_of(&item);
        let idx = self.items.len();
        let ghost old_buckets = self.buckets@;
        let ghost items = self.items@;
        let found = self.buckets.remove(&key);
        let had_bucket = found.is_some();
        let mut bucket = match found {
            Some(b) => b,
            None => Vec::new(),
        };
        let mut t: usize = 0;
        while t < bucket.len()
            invariant
                old(self).wf(),
                items == old(self).items@,
                old_buckets == old(self).buckets@,
                self.items@ == items,
                self.buckets@ == old_buckets.remove(key),
                had_bucket ==> old_buckets.contains_key(key) && bucket == old_buckets[key],
                !had_bucket ==> !old_buckets.contains_key(key) && bucket@.len() == 0,
                t <= bucket@.len(),
                forall|u: int| 0 <= u < t ==> !same_sample(items[bucket@[u] as int], item),
                forall|k: u64, u: int|
                    old_buckets.contains_key(k) && 0 <= u < old_buckets[k]@.len() ==> {
                        let i = #[trigger] old_buckets[k]@[u];
                        &&& i < items.len()
                        &&& key_of(items[i as int]) == k
                    },
            decreases bucket@.len() - t,
        {
            let i = bucket[t];
            proof {
                assert(old_buckets[key]@[t as int] == i);
            }
            if self.items[i].same_as(&item) {
                self.buckets.insert(key, bucket);
                proof {
                    assert(self.buckets@ =~= old_buckets);
                    assert(same_sample(items[i as int], item));
                    assert(holds_sample(items, item));
                }
                return false;
            }
            t += 1;
        }
        proof {
            assert forall|i: int| 0 <= i < items.len() implies !same_sample(
                #[trigger] items[i],
                item,
            ) by {
                if same_sample(items[i], item) {
                    assert(key_of(items[i]) == key);
                    let u = choose|u: int| 0 <= u < old_buckets[key]@.len() && old_buckets[key]@[u]
                        == i as usize;
                }
            }
        }
        let ghost old_bucket = bucket@;
        bucket.push(idx);
        self.buckets.insert(key, bucket);
        self.items.push(item);
        proof {
            let new_items = self.items@;
            let nb = self.buckets@;
            assert(nb =~= old_buckets.insert(key, bucket));
            assert forall|i: int, j: int|
                0 <= i < j < new_items.len() implies !same_sample(
                #[trigger] new_items[i],
                #[trigger] new_items[j],
            ) by {
                if j == idx {
                    assert(new_items[i] == items[i]);
                } else {
                    assert(new_items[i] == items[i] && new_items[j] == items[j]);
                }
            }
            assert forall|i: int| 0 <= i < new_items.len() implies nb.contains_key(
                key_of(#[trigger] new_items[i]),
            ) && nb[key_of(new_items[i])]@.contains(i as usize) by {
                if i == idx {
                    assert(nb[key]@[nb[key]@.len() - 1] == idx);
                } else {
                    assert(new_items[i] == items[i]);
                    let k = key_of(items[i]);
                    if k == key {
                        let u = choose|u: int| 0 <= u < old_buckets[key]@.len() && old_buckets[key]@[u]
                            == i as usize;
                        assert(nb[key]@[u] == i as usize);
                    }
                }
            }
            assert forall|k: u64, t: int| nb.contains_key(k) && 0 <= t < nb[k]@.len() implies {
                let i = #[trigger] nb[k]@[t];
                &&& i < new_items.len()
                &&& key_of(new_items[i as int]) == k
            } by {
                if k == key {
                    if t < old_bucket.len() {
                        assert(nb[k]@[t] == old_buckets[k]@[t]);
                    }
                }
            }
        }
        true
    }

    /// Adds every sample of `other` that is not held yet.
    pub fn extend(&mut self, other: SampleSet)
        requires
            old(self).wf(),
        ensures
            final(self).wf(),
            final(self)@.len() >= old(self)@.len(),
            final(self)@.subrange(0, old(self)@.len() as int) == old(self)@,
            forall|i: int| 0 <= i < other@.len() ==> holds_sample(final(self)@, #[trigger] other@[i]),
            forall|i: int|
                0 <= i < final(self)@.len() ==> old(self)@.contains(#[trigger] final(self)@[i])
                    || other@.contains(final(self)@[i]),
    {
        let ghost theirs = other@;
        let mut items = other.into_vec();
        let ghost start = self@;
        proof {
            assert(items@ == theirs);
        }
        while items.len() > 0
            invariant
                self.wf(),
                self@.len() >= start.len(),
                self@.subrange(0, start.len() as int) == start,
                forall|i: int|
                    items@.len() <= i < theirs.len() ==> holds_sample(self@, #[trigger] theirs[i]),
                items@.len() <= theirs.len(),
                items@ == theirs.subrange(0, items@.len() as int),
                forall|i: int|
                    0 <= i < self@.len() ==> start.contains(#[trigger] self@[i]) || theirs.contains(
                        self@[i],
                    ),
            decreases items@.len(),
        {
            let ghost before = self@;
            let ghost prev_items = items@;
            let popped = items.pop();
            let item = popped.unwrap();
            let ghost pos = items@.len() as int;
            proof {
                assert(prev_items[pos] == theirs[pos]);
                assert(item == prev_items.last());
                assert(theirs[pos] == item);
            }
            let added = self.insert(item);
            proof {
                assert forall|i: int| items@.len() <= i < theirs.len() implies holds_sample(
                    self@,
                    #[trigger] theirs[i],
                ) by {
                    if i == pos {
                        if added {
                            assert(same_sample(self@[before.len() as int], item));
                        }
                    } else {
                        let w = choose|w: int| 0 <= w < before.len() && same_sample(
                            #[trigger] before[w],
                            theirs[i],
                        );
                        assert(self@[w] == before[w]);
                    }
                }
                assert(self@.subrange(0, start.len() as int) =~= start) by {
                    assert(before.subrange(0, start.len() as int) == start);
                }
                assert(items@ =~= theirs.subrange(0, items@.len() as int));
                assert forall|i: int| 0 <= i < self@.len() implies start.contains(
                    #[trigger] self@[i],
                ) || theirs.contains(self@[i]) by {
                    if i < before.len() {
                        assert(self@[i] == before[i]);
                    } else {
                        assert(self@[i] == theirs[pos]);
                    }
                }
            }
        }
    }

    /// The samples, in the order they were added.
    pub fn into_vec(self) -> (r: Vec<CompressedColoring>)
        ensures
            r@ == self@,
    {
        self.items
    }
}

} // verus!
