//! The fixed-radix packing of colour sequences into 32-bit words, stated
//! over plain sequences.
//!
//! With `n` colours, a word holds `k` colours, `k` being the largest count
//! (at most 32) with `n^k <= 2^32`. The sequence is cut into chunks of `k`
//! colours; the first colour of a chunk is the lowest digit of its word.
use vstd::arithmetic::div_mod::{
    lemma_div_denominator, lemma_div_multiples_vanish_fancy, lemma_fundamental_div_mod_converse,
    lemma_mod_multiples_vanish, lemma_small_mod,
};
use vstd::prelude::*;

verus! {

/// The number of values a 32-bit word can hold.
pub const WORD_RANGE: u64 = 0x1_0000_0000;

/// `n` to the power `e`.
pub open spec fn radix_pow(n: nat, e: nat) -> nat
    decreases e,
{
    if e == 0 {
        1
    } else {
        n * radix_pow(n, (e - 1) as nat)
    }
}

/// The largest `k'` with `k <= k' <= 32` such that `n^j` fits a word's range
/// for every `j` up to `k'`, scanning upwards from `k`.
pub open spec fn max_digits_from(n: nat, k: nat) -> nat
    decreases 32 - k,
{
    if k >= 32 || radix_pow(n, k + 1) > WORD_RANGE {
        k
    } else {
        max_digits_from(n, k + 1)
    }
}

/// How many colours one word holds.
pub open spec fn colors_per_word(n: nat) -> nat {
    max_digits_from(n, 0)
}

/// The colour count is one the packing supports.
pub open spec fn valid_radix(n: nat) -> bool {
    1 <= n <= WORD_RANGE
}

/// The value of a chunk read as base-`n` digits, lowest digit first.
pub open spec fn word_value(n: nat, chunk: Seq<usize>) -> nat
    decreases chunk.len(),
{
    if chunk.len() == 0 {
        0
    } else {
        chunk[0] as nat + n * word_value(n, chunk.drop_first())
    }
}

/// The `j`-th chunk of `k` colours of `s` (the last one may be shorter).
pub open spec fn chunk_of(s: Seq<usize>, k: nat, j: int) -> Seq<usize> {
    let end = if (j + 1) * k <= s.len() {
        (j + 1) * k
    } else {
        s.len() as int
    };
    s.subrange(j * k, end)
}

/// Words needed for `len` colours, `k` to a word.
pub open spec fn word_count(len: nat, k: nat) -> nat {
    ((len + k - 1) / (k as int)) as nat
}

/// The packed words of `s`.
pub open spec fn encode(n: nat, s: Seq<usize>) -> Seq<u32> {
    let k = colors_per_word(n);
    Seq::new(word_count(s.len(), k), |j: int| word_value(n, chunk_of(s, k, j)) as u32)
}

/// Digit `t` of `w` in base `n`.
pub open spec fn digit(n: nat, w: nat, t: nat) -> nat {
    ((w as int / (radix_pow(n, t) as int)) % (n as int)) as nat
}

/// The first `size` colours stored in `words`.
pub open spec fn decode(n: nat, words: Seq<u32>, size: nat) -> Seq<usize> {
    let k = colors_per_word(n);
    Seq::new(size, |q: int| digit(n, words[q / (k as int)] as nat, (q % (k as int)) as nat) as usize)
}

pub proof fn lemma_radix_pow_positive(n: nat, e: nat)
    requires
        n >= 1,
    ensures
        radix_pow(n, e) >= 1,
    decreases e,
{
    if e > 0 {
        lemma_radix_pow_positive(n, (e - 1) as nat);
        assert(n * radix_pow(n, (e - 1) as nat) >= 1) by (nonlinear_arith)
            requires
                n >= 1,
                radix_pow(n, (e - 1) as nat) >= 1,
        ;
    }
}

pub proof fn lemma_radix_pow_monotone(n: nat, a: nat, b: nat)
    requires
        n >= 1,
        a <= b,
    ensures
        radix_pow(n, a) <= radix_pow(n, b),
    decreases b,
{
    if a < b {
        lemma_radix_pow_monotone(n, a, (b - 1) as nat);
        lemma_radix_pow_positive(n, (b - 1) as nat);
        assert(radix_pow(n, (b - 1) as nat) <= n * radix_pow(n, (b - 1) as nat)) by (nonlinear_arith)
            requires
                n >= 1,
        ;
    }
}

proof fn lemma_max_digits_from(n: nat, k: nat)
    requires
        valid_radix(n),
        k <= 32,
        radix_pow(n, k) <= WORD_RANGE,
    ensures
        k <= max_digits_from(n, k) <= 32,
        radix_pow(n, max_digits_from(n, k)) <= WORD_RANGE,
    decreases 32 - k,
{
    if !(k >= 32 || radix_pow(n, k + 1) > WORD_RANGE) {
        lemma_max_digits_from(n, k + 1);
    }
}

/// A supported colour count puts between 1 and 32 colours in a word, and
/// `n^k` fits the word's range.
pub proof fn lemma_colors_per_word(n: nat)
    requires
        valid_radix(n),
    ensures
        1 <= colors_per_word(n) <= 32,
        radix_pow(n, colors_per_word(n)) <= WORD_RANGE,
{
    assert(radix_pow(n, 0) == 1);
    assert(radix_pow(n, 1) == n * radix_pow(n, 0));
    assert(radix_pow(n, 0 + 1) <= WORD_RANGE);
    lemma_max_digits_from(n, 1);
    assert(max_digits_from(n, 0) == max_digits_from(n, 1));
}

/// A chunk of colours below `n` has a value below `n^len`.
pub proof fn lemma_word_value_bound(n: nat, chunk: Seq<usize>)
    requires
        n >= 1,
        forall|i: int| 0 <= i < chunk.len() ==> chunk[i] < n,
    ensures
        word_value(n, chunk) < radix_pow(n, chunk.len()),
    decreases chunk.len(),
{
    if chunk.len() > 0 {
        let rest = chunk.drop_first();
        lemma_word_value_bound(n, rest);
        let w = word_value(n, rest);
        let p = radix_pow(n, rest.len());
        let c = chunk[0] as nat;
        assert(c + n * w < n * p) by (nonlinear_arith)
            requires
                c < n,
                w < p,
        ;
    }
}

/// Digit `t` of a chunk's value is the chunk's colour `t`.
pub proof fn lemma_digit_of_word_value(n: nat, chunk: Seq<usize>, t: nat)
    requires
        n >= 1,
        forall|i: int| 0 <= i < chunk.len() ==> chunk[i] < n,
        t < chunk.len(),
    ensures
        digit(n, word_value(n, chunk), t) == chunk[t as int],
    decreases t,
{
    let rest = chunk.drop_first();
    let w = word_value(n, rest);
    let c = chunk[0] as nat;
    let v = word_value(n, chunk);
    assert(v == n * w + c);
    if t == 0 {
        assert(radix_pow(n, 0) == 1);
        lemma_mod_multiples_vanish(w as int, c as int, n as int);
        lemma_small_mod(c, n);
    } else {
        lemma_digit_of_word_value(n, rest, (t - 1) as nat);
        lemma_radix_pow_positive(n, (t - 1) as nat);
        let p = radix_pow(n, (t - 1) as nat);
        lemma_div_denominator(v as int, n as int, p as int);
        lemma_div_multiples_vanish_fancy(w as int, c as int, n as int);
        assert(v as int / (n as int) == w);
        assert(radix_pow(n, t) == n * p);
    }
}

/// Position `q` of `s` sits in chunk `q / k` at offset `q % k`.
proof fn lemma_chunk_position(s: Seq<usize>, k: nat, q: int)
    requires
        k >= 1,
        0 <= q < s.len(),
    ensures
        0 <= q / (k as int) < word_count(s.len(), k),
        q % (k as int) < chunk_of(s, k, q / (k as int)).len(),
        chunk_of(s, k, q / (k as int))[q % (k as int)] == s[q],
        (q / (k as int)) * k + q % (k as int) == q,
        0 <= (q / (k as int)) * k <= q,
        (q / (k as int) + 1) * k == (q / (k as int)) * k + k,
{
    let j = q / (k as int);
    let t = q % (k as int);
    assert(q == k * j + t && 0 <= t < k && 0 <= j) by (nonlinear_arith)
        requires
            k >= 1,
            0 <= q,
            j == q / (k as int),
            t == q % (k as int),
    ;
    assert(j * k + t < s.len() && j * k + t == q && 0 <= j * k) by (nonlinear_arith)
        requires
            q == k * j + t,
            q < s.len(),
            0 <= j,
    ;
    assert((j + 1) * k == j * k + k) by (nonlinear_arith);
    let r = s.len() + k - 1 - k * j - k;
    assert(s.len() + k - 1 == k * (j + 1) + r) by (nonlinear_arith)
        requires
            r == s.len() + k - 1 - k * j - k,
    ;
    if r < k {
        lemma_fundamental_div_mod_converse(s.len() + k - 1, k as int, j + 1, r);
    } else {
        let j2 = (s.len() + k - 1) / (k as int);
        assert(j2 >= j + 1) by (nonlinear_arith)
            requires
                s.len() + k - 1 == k * (j + 1) + r,
                r >= k,
                k >= 1,
                j2 == (s.len() + k - 1) / (k as int),
        ;
    }
}

/// Position `q` of a sequence of `len` colours lies in a word that the
/// sequence needs, at offset `q % k`.
pub proof fn lemma_chunk_position_public(s: Seq<usize>, k: nat, q: int)
    requires
        k >= 1,
        0 <= q < s.len(),
    ensures
        0 <= q / (k as int) < word_count(s.len(), k),
        0 <= q % (k as int) < k,
        (q / (k as int)) * k + q % (k as int) == q,
{
    lemma_chunk_position(s, k, q);
}

/// Decoding the packed words of a sequence gives the sequence back.
pub proof fn lemma_round_trip(n: nat, s: Seq<usize>)
    requires
        valid_radix(n),
        forall|i: int| 0 <= i < s.len() ==> s[i] < n,
    ensures
        decode(n, encode(n, s), s.len()) == s,
{
    let k = colors_per_word(n);
    lemma_colors_per_word(n);
    let words = encode(n, s);
    assert forall|q: int| 0 <= q < s.len() implies #[trigger] decode(n, words, s.len())[q] == s[q] by {
        let j = q / (k as int);
        let t = q % (k as int);
        lemma_chunk_position(s, k, q);
        let chunk = chunk_of(s, k, j);
        assert forall|i: int| 0 <= i < chunk.len() implies chunk[i] < n by {
            assert(chunk[i] == s[j * k + i]);
        }
        assert(chunk.len() <= k) by (nonlinear_arith)
            requires
                chunk.len() == (if (j + 1) * k <= s.len() { (j + 1) * k } else { s.len() as int }) - j * k,
                j * k < s.len() || chunk.len() == 0,
        ;
        lemma_word_value_bound(n, chunk);
        lemma_radix_pow_monotone(n, chunk.len(), k);
        lemma_digit_of_word_value(n, chunk, t as nat);
        assert(words[j] as nat == word_value(n, chunk));
    }
    assert(decode(n, words, s.len()) =~= s);
}

/// Words appended past those a sequence needs leave its decoding unchanged.
pub proof fn lemma_decode_ignores_extra_words(n: nat, words: Seq<u32>, extra: Seq<u32>, size: nat)
    requires
        valid_radix(n),
        words.len() >= word_count(size, colors_per_word(n)),
    ensures
        decode(n, words + extra, size) == decode(n, words, size),
{
    let k = colors_per_word(n);
    lemma_colors_per_word(n);
    assert forall|q: int| 0 <= q < size implies #[trigger] decode(n, words + extra, size)[q] == decode(
        n,
        words,
        size,
    )[q] by {
        let s = Seq::new(size, |i: int| 0usize);
        lemma_chunk_position(s, k, q);
    }
    assert(decode(n, words + extra, size) =~= decode(n, words, size));
}

} // verus!
