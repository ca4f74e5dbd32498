//! A colour sequence packed into 32-bit words, the form in which samples
//! are deduplicated and stored.
use crate::codec::{
    chunk_of, colors_per_word, decode, digit, encode, lemma_colors_per_word,
    lemma_decode_ignores_extra_words, lemma_radix_pow_monotone, lemma_radix_pow_positive,
    lemma_round_trip, max_digits_from, radix_pow, valid_radix, word_count,
    word_value, WORD_RANGE,
};
use crate::coloring::Coloring;
use vstd::arithmetic::div_mod::{lemma_div_denominator, lemma_fundamental_div_mod_converse};
use vstd::prelude::*;

verus! {

/// A colour sequence of `size` colours out of `n_colors`, packed into words.
///
/// Words past those the sequence needs (added by padding) are zero and are
/// never read.
#[derive(Clone, Debug, PartialEq, Eq, Hash)]
pub struct CompressedColoring {
    compressed: Vec<u32>,
    size: usize,
    n_colors: usize,
}

impl CompressedColoring {
    /// The packed words, padding included.
    pub closed spec fn spec_words(&self) -> Seq<u32> {
        self.compressed@
    }

    pub closed spec fn spec_size(&self) -> nat {
        self.size as nat
    }

    pub closed spec fn spec_n_colors(&self) -> nat {
        self.n_colors as nat
    }

    /// The colour sequence the words stand for.
    pub open spec fn decoded(&self) -> Seq<usize> {
        decode(self.spec_n_colors(), self.spec_words(), self.spec_size())
    }

    /// The colour count is supported and the words cover all `size` colours.
    pub open spec fn wf(&self) -> bool {
        &&& valid_radix(self.spec_n_colors())
        &&& self.spec_words().len() >= word_count(self.spec_size(), colors_per_word(self.spec_n_colors()))
    }

    /// How many colours one word holds for `n_colors` colours: the largest
    /// `k <= 32` with `n_colors^k <= 2^32`.
    pub fn colors_per_word(n_colors: usize) -> (r: usize)
        requires
            valid_radix(n_colors as nat),
        ensures
            r == colors_per_word(n_colors as nat),
            1 <= r <= 32,
            radix_pow(n_colors as nat, r as nat) <= WORD_RANGE,
    {
        proof {
            lemma_colors_per_word(n_colors as nat);
        }
        let n = n_colors as u128;
        let mut k: usize = 0;
        let mut p: u128 = 1;
        while k < 32 && p * n <= WORD_RANGE as u128
            invariant
                valid_radix(n_colors as nat),
                n == n_colors,
                k <= 32,
                p == radix_pow(n_colors as nat, k as nat),
                p <= WORD_RANGE,
                p * n <= 0x1_0000_0000_0000_0000,
                max_digits_from(n_colors as nat, k as nat) == colors_per_word(n_colors as nat),
            decreases 32 - k,
        {
            proof {
                assert(radix_pow(n_colors as nat, (k + 1) as nat) == n * p);
                assert(p * n * n <= 0x1_0000_0000_0000_0000) by (nonlinear_arith)
                    requires
                        p * n <= WORD_RANGE,
                        n <= WORD_RANGE,
                ;
            }
            p = p * n;
            k += 1;
        }
        proof {
            assert(radix_pow(n_colors as nat, (k + 1) as nat) == n * p);
        }
        k
    }

    /// Packs `coloring`: each chunk of colours folded into one word, the
    /// first colour of the chunk in the lowest digit.
    pub fn from_coloring(coloring: &Coloring) -> (r: CompressedColoring)
        requires
            coloring.wf(),
        ensures
            r.wf(),
            r.spec_words() == encode(coloring.spec_n_colors(), coloring@),
            r.spec_size() == coloring@.len(),
            r.spec_n_colors() == coloring.spec_n_colors(),
            r.decoded() == coloring@,
    {
        let n_colors = coloring.n_colors();
        let ghost nn = n_colors as nat;
        proof {
            coloring.lemma_wf();
        }
        let k = CompressedColoring::colors_per_word(n_colors);
        let n = n_colors as u64;
        let colors = coloring.colors();
        let ghost s = colors@;
        let len = colors.len();
        let mut words: Vec<u32> = Vec::new();
        let mut start: usize = 0;
        proof {
            assert(words@.len() == 0);
            assert(0 * k == 0);
        }
        while start < len
            invariant
                valid_radix(nn),
                n == nn,
                k == colors_per_word(nn),
                1 <= k <= 32,
                radix_pow(nn, k as nat) <= WORD_RANGE,
                len == s.len(),
                colors@ == s,
                forall|i: int| 0 <= i < s.len() ==> #[trigger] s[i] < nn,
                start <= len,
                start == if words.len() * k <= len {
                    words.len() * k
                } else {
                    len as int
                },
                start < len ==> words.len() * k == start,
                words.len() >= 1 ==> (words.len() - 1) * k < len,
                forall|j: int|
                    0 <= j < words.len() ==> #[trigger] words@[j] == word_value(
                        nn,
                        chunk_of(s, k as nat, j),
                    ) as u32,
            decreases len - start,
        {
            let end = if len - start > k {
                start + k
            } else {
                len
            };
            let mut acc: u64 = 0;
            let mut t = end;
            while t > start
                invariant
                    valid_radix(nn),
                    n == nn,
                    start <= t <= end,
                    end <= len,
                    end - start <= k,
                    radix_pow(nn, k as nat) <= WORD_RANGE,
                    len == s.len(),
                    colors@ == s,
                    forall|i: int| 0 <= i < s.len() ==> #[trigger] s[i] < nn,
                    acc == word_value(nn, s.subrange(t as int, end as int)),
                    acc < radix_pow(nn, (end - t) as nat),
                decreases t - start,
            {
                t -= 1;
                let c = colors[t] as u64;
                proof {
                    let tail = s.subrange(t as int, end as int);
                    assert(tail.drop_first() =~= s.subrange(t + 1, end as int));
                    assert(word_value(nn, tail) == tail[0] + nn * word_value(nn, tail.drop_first()));
                    let p = radix_pow(nn, (end - t - 1) as nat);
                    assert(radix_pow(nn, (end - t) as nat) == nn * p);
                    lemma_radix_pow_monotone(nn, (end - t) as nat, k as nat);
                    assert(acc * nn + c < nn * p) by (nonlinear_arith)
                        requires
                            acc < p,
                            c < nn,
                    ;
                    assert(acc * nn + c == c + nn * acc) by (nonlinear_arith);
                }
                acc = acc * n + c;
            }
            proof {
                lemma_radix_pow_monotone(nn, (end - start) as nat, k as nat);
                let j = words.len() as int;
                assert((j + 1) * k == j * k + k) by (nonlinear_arith);
                assert(chunk_of(s, k as nat, j) =~= s.subrange(start as int, end as int));
            }
            words.push(acc as u32);
            proof {
                let j = words.len() as int;
                assert(j * k == (j - 1) * k + k) by (nonlinear_arith);
            }
            start = end;
        }
        proof {
            let j = words.len() as int;
            let r = len + k - 1 - k * j;
            assert(0 <= r < k && len + k - 1 == k * j + r) by (nonlinear_arith)
                requires
                    k >= 1,
                    r == len + k - 1 - k * j,
                    j >= 1 ==> (j - 1) * k < len,
                    j * k >= len,
                    j >= 0,
            ;
            lemma_fundamental_div_mod_converse(len + k - 1, k as int, j, r);
            let enc = encode(nn, s);
            assert(words@ =~= enc);
            lemma_round_trip(nn, s);
        }
        CompressedColoring { compressed: words, size: len, n_colors }
    }

    /// Number of colours in the sequence (not counting padding).
    pub fn size(&self) -> (r: usize)
        ensures
            r == self.spec_size(),
    {
        self.size
    }

    /// Number of words, padding included.
    pub fn compressed_len(&self) -> (r: usize)
        ensures
            r == self.spec_words().len(),
    {
        self.compressed.len()
    }

    pub fn n_colors(&self) -> (r: usize)
        ensures
            r == self.spec_n_colors(),
    {
        self.n_colors
    }

    /// The packed words, padding included.
    pub fn words(&self) -> (r: &Vec<u32>)
        ensures
            r@ == self.spec_words(),
    {
        &self.compressed
    }

    /// The colour sequence, read digit by digit from the first `size`
    /// positions; padding words are not read.
    pub fn decompress(&self) -> (r: Vec<usize>)
        requires
            self.wf(),
        ensures
            r@ == self.decoded(),
    {
        let n_colors = self.n_colors;
        let ghost nn = n_colors as nat;
        let k = CompressedColoring::colors_per_word(n_colors);
        let n = n_colors as u64;
        let ghost words = self.compressed@;
        let mut out: Vec<usize> = Vec::new();
        let mut q: usize = 0;
        let mut rest: u64 = 0;
        while q < self.size
            invariant
                valid_radix(nn),
                n == nn,
                k == colors_per_word(nn),
                1 <= k <= 32,
                words == self.compressed@,
                nn == self.n_colors,
                self.wf(),
                q <= self.size,
                out@.len() == q,
                q % k != 0 ==> rest == (words[(q / k) as int] as int) / (radix_pow(nn, (q % k) as nat) as int),
                forall|i: int| 0 <= i < q ==> #[trigger] out@[i] == digit(
                    nn,
                    words[i / (k as int)] as nat,
                    (i % (k as int)) as nat,
                ) as usize,
            decreases self.size - q,
        {
            proof {
                let s = Seq::new(self.size as nat, |i: int| 0usize);
                crate::codec::lemma_chunk_position_public(s, k as nat, q as int);
            }
            if q % k == 0 {
                rest = self.compressed[q / k] as u64;
                proof {
                    assert(radix_pow(nn, 0) == 1);
                }
            }
            let t = q % k;
            proof {
                lemma_radix_pow_positive(nn, t as nat);
                let p = radix_pow(nn, t as nat);
                lemma_div_denominator(words[(q / k) as int] as int, p as int, nn as int);
                assert(radix_pow(nn, (t + 1) as nat) == nn * p);
                assert(p * nn == nn * p) by (nonlinear_arith);
            }
            out.push((rest % n) as usize);
            rest = rest / n;
            proof {
                let q1 = q + 1;
                let d = (q / k) as int;
                if t + 1 < k {
                    lemma_fundamental_div_mod_converse(q1 as int, k as int, d, (t + 1) as int);
                } else {
                    assert((d + 1) * k == d * k + k) by (nonlinear_arith);
                    lemma_fundamental_div_mod_converse(q1 as int, k as int, d + 1, 0);
                }
            }
            q += 1;
        }
        proof {
            assert(out@ =~= self.decoded());
        }
        out
    }

    /// Appends zero words until there are `len` of them; the size and the
    /// colour sequence are unchanged.
    pub fn pad_to(&mut self, len: usize)
        requires
            old(self).wf(),
        ensures
            final(self).wf(),
            final(self).spec_words() == if old(self).spec_words().len() < len {
                old(self).spec_words() + zero_words((len - old(self).spec_words().len()) as nat)
            } else {
                old(self).spec_words()
            },
            final(self).spec_size() == old(self).spec_size(),
            final(self).spec_n_colors() == old(self).spec_n_colors(),
            final(self).decoded() == old(self).decoded(),
    {
        let ghost old_words = self.compressed@;
        if self.compressed.len() < len {
            let count = len - self.compressed.len();
            let mut i: usize = 0;
            while i < count
                invariant
                    count == len - old_words.len(),
                    i <= count,
                    self.compressed@ == old_words + zero_words(i as nat),
                    self.size == old(self).size,
                    self.n_colors == old(self).n_colors,
                decreases count - i,
            {
                self.compressed.push(0);
                proof {
                    assert(self.compressed@ =~= old_words + zero_words((i + 1) as nat));
                }
                i += 1;
            }
            proof {
                lemma_decode_ignores_extra_words(
                    self.n_colors as nat,
                    old_words,
                    zero_words(count as nat),
                    self.size as nat,
                );
            }
        }
    }

    /// Pads every sample to the word count of the longest one.
    pub fn pad_to_longest(colorings: &mut Vec<CompressedColoring>)
        requires
            old(colorings)@.len() > 0,
            forall|i: int| 0 <= i < old(colorings)@.len() ==> (#[trigger] old(colorings)@[i]).wf(),
        ensures
            final(colorings)@.len() == old(colorings)@.len(),
            forall|i: int|
                0 <= i < final(colorings)@.len() ==> padded_from(
                    #[trigger] final(colorings)@[i],
                    old(colorings)@[i],
                    longest_words(old(colorings)@),
                ),
    {
        let count = colorings.len();
        let mut max_len: usize = 0;
        let mut i: usize = 0;
        while i < count
            invariant
                count == colorings@.len(),
                colorings@ == old(colorings)@,
                i <= count,
                max_len == longest_words(colorings@.subrange(0, i as int)),
            decreases count - i,
        {
            proof {
                assert(colorings@.subrange(0, i + 1).drop_last() =~= colorings@.subrange(0, i as int));
            }
            let l = colorings[i].compressed_len();
            if l > max_len {
                max_len = l;
            }
            i += 1;
        }
        proof {
            assert(colorings@.subrange(0, count as int) =~= colorings@);
            lemma_longest_words(colorings@);
        }
        let ghost before = colorings@;
        let mut j: usize = 0;
        while j < count
            invariant
                count == colorings@.len(),
                count == before.len(),
                before == old(colorings)@,
                j <= count,
                max_len == longest_words(before),
                forall|i: int| 0 <= i < count ==> (#[trigger] before[i]).spec_words().len() <= max_len,
                forall|i: int| 0 <= i < count ==> (#[trigger] before[i]).wf(),
                forall|i: int| j <= i < count ==> #[trigger] colorings@[i] == before[i],
                forall|i: int|
                    0 <= i < j ==> padded_from(#[trigger] colorings@[i], before[i], max_len as nat),
            decreases count - j,
        {
            let ghost prev = colorings@;
            let mut item = CompressedColoring { compressed: Vec::new(), size: 0, n_colors: 1 };
            colorings.set_and_swap(j, &mut item);
            let ghost b = item;
            item.pad_to(max_len);
            proof {
                assert(b == before[j as int]);
                assert(item.spec_words() =~= b.spec_words() + zero_words(
                    (item.spec_words().len() - b.spec_words().len()) as nat,
                ));
                assert(padded_from(item, b, max_len as nat));
            }
            colorings.set_and_swap(j, &mut item);
            proof {
                assert forall|i: int| 0 <= i < j + 1 implies padded_from(
                    #[trigger] colorings@[i],
                    before[i],
                    max_len as nat,
                ) by {
                    if i < j {
                        assert(colorings@[i] == prev[i]);
                    }
                }
            }
            j += 1;
        }
    }

    /// Whether two samples hold the same words, size and colour count.
    pub fn same_as(&self, other: &CompressedColoring) -> (r: bool)
        ensures
            r == (self.spec_words() == other.spec_words() && self.spec_size() == other.spec_size()
                && self.spec_n_colors() == other.spec_n_colors()),
    {
        if self.size != other.size || self.n_colors != other.n_colors || self.compressed.len()
            != other.compressed.len() {
            return false;
        }
        let mut i: usize = 0;
        while i < self.compressed.len()
            invariant
                i <= self.compressed@.len(),
                self.compressed@.len() == other.compressed@.len(),
                forall|j: int| 0 <= j < i ==> self.compressed@[j] == other.compressed@[j],
            decreases self.compressed@.len() - i,
        {
            if self.compressed[i] != other.compressed[i] {
                return false;
            }
            i += 1;
        }
        proof {
            assert(self.compressed@ =~= other.compressed@);
        }
        true
    }
}

/// `len` zero words, as padding appends them.
pub open spec fn zero_words(len: nat) -> Seq<u32> {
    Seq::new(len, |i: int| 0u32)
}

/// `after` is `before` padded with zero words to `len` words: same size,
/// colour count and colour sequence.
pub open spec fn padded_from(after: CompressedColoring, before: CompressedColoring, len: nat) -> bool {
    &&& after.wf()
    &&& after.spec_size() == before.spec_size()
    &&& after.spec_n_colors() == before.spec_n_colors()
    &&& after.decoded() == before.decoded()
    &&& after.spec_words().len() == len
    &&& after.spec_words() == before.spec_words() + zero_words(
        (after.spec_words().len() - before.spec_words().len()) as nat,
    )
}

/// The largest word count in a batch (0 for an empty batch).
pub open spec fn longest_words(batch: Seq<CompressedColoring>) -> nat
    decreases batch.len(),
{
    if batch.len() == 0 {
        0
    } else {
        let rest = longest_words(batch.drop_last());
        let last = batch.last().spec_words().len();
        if last > rest {
            last
        } else {
            rest
        }
    }
}

/// No sample of a batch has more words than the longest one.
pub proof fn lemma_longest_words(batch: Seq<CompressedColoring>)
    ensures
        forall|i: int| 0 <= i < batch.len() ==> (#[trigger] batch[i]).spec_words().len() <= longest_words(
            batch,
        ),
    decreases batch.len(),
{
    if batch.len() > 0 {
        lemma_longest_words(batch.drop_last());
        assert forall|i: int| 0 <= i < batch.len() implies (#[trigger] batch[i]).spec_words().len()
            <= longest_words(batch) by {
            if i < batch.len() - 1 {
                assert(batch[i] == batch.drop_last()[i]);
            }
        }
    }
}

} // verus!
