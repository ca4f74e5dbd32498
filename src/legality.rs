//! The forbidden additive relations, stated over plain colour sequences.
//!
//! A colour sequence `s` colours the numbers `1..=s.len()`: number `k` has
//! colour `s[k - 1]`.
use vstd::prelude::*;

verus! {

/// The shape of the equation `x + y = z` that no colour class may solve.
#[derive(Clone, Copy, Debug, PartialEq, Eq, Hash, Structural)]
pub enum Equation {
    /// Operands may coincide: a class holding `x` may not hold `2x`.
    Sum,
    /// Operands must differ: `x < y`.
    DistinctSum,
}

/// Whether `(x, y)` is a pair of operands the equation constrains.
pub open spec fn operands_allowed(eq: Equation, x: int, y: int) -> bool {
    match eq {
        Equation::Sum => 1 <= x <= y,
        Equation::DistinctSum => 1 <= x < y,
    }
}

/// Numbers `x` and `y` are both coloured `c` in `s` and form a constrained pair.
pub open spec fn sum_pair(eq: Equation, s: Seq<usize>, c: int, x: int, y: int) -> bool {
    &&& operands_allowed(eq, x, y)
    &&& y <= s.len()
    &&& s[x - 1] == c
    &&& s[y - 1] == c
}

/// Number `z` may not receive colour `c`: two numbers of that colour sum to `z`.
pub open spec fn blocked(eq: Equation, s: Seq<usize>, c: int, z: int) -> bool {
    exists|x: int| #[trigger] sum_pair(eq, s, c, x, z - x)
}

/// No colour class of `s` holds a solution `x + y = z` of the equation.
pub open spec fn sum_free(eq: Equation, s: Seq<usize>) -> bool {
    forall|x: int, y: int|
        #![trigger s[x - 1], s[y - 1]]
        operands_allowed(eq, x, y) && x + y <= s.len() && s[x - 1] == s[y - 1] ==> s[x + y
            - 1] != s[x - 1]
}

/// Every colour of `s` is below `n_colors`.
pub open spec fn colors_below(s: Seq<usize>, n_colors: nat) -> bool {
    forall|i: int| 0 <= i < s.len() ==> #[trigger] s[i] < n_colors
}

/// A sequence of moves a game could have played: within the bound, every
/// colour in range, and no forbidden relation inside a class.
pub open spec fn legal_sequence(eq: Equation, n_colors: nat, bound: nat, s: Seq<usize>) -> bool {
    &&& s.len() <= bound
    &&& colors_below(s, n_colors)
    &&& sum_free(eq, s)
}

/// Colour `c` may be played next after `s`.
pub open spec fn legal_next(eq: Equation, n_colors: nat, bound: nat, s: Seq<usize>, c: int) -> bool {
    &&& 0 <= c < n_colors
    &&& s.len() < bound
    &&& !blocked(eq, s, c, s.len() + 1 as int)
}

/// No colour may be played after `s`.
pub open spec fn terminal(eq: Equation, n_colors: nat, bound: nat, s: Seq<usize>) -> bool {
    forall|c: int| 0 <= c < n_colors ==> !legal_next(eq, n_colors, bound, s, c)
}

/// One past the last position whose legality can change when number `m`
/// (the `m`-th move) is coloured: its sums with the smaller numbers of its
/// class, capped at the capacity `bound`.
pub open spec fn window_end(eq: Equation, m: nat, bound: nat) -> nat {
    let reach: nat = match eq {
        Equation::Sum => 2 * m,
        Equation::DistinctSum => (2 * m - 1) as nat,
    };
    if reach <= bound {
        reach
    } else {
        bound
    }
}

impl Equation {
    /// The end of the window of positions that the `size`-th move updates.
    pub fn window_end(&self, size: usize, bound: usize) -> (r: usize)
        requires
            1 <= size <= bound,
        ensures
            r == window_end(*self, size as nat, bound as nat),
            size <= r <= bound,
    {
        match self {
            Equation::Sum => {
                if size <= bound - size {
                    2 * size
                } else {
                    bound
                }
            },
            Equation::DistinctSum => {
                if size - 1 <= bound - size {
                    size + (size - 1)
                } else {
                    bound
                }
            },
        }
    }
}

/// Appending colour `c` to `s` adds exactly the pairs whose larger operand is
/// the new number `m = s.len() + 1`.
pub proof fn lemma_blocked_push(eq: Equation, s: Seq<usize>, c: usize, d: int, z: int)
    ensures
        blocked(eq, s.push(c), d, z) <==> (blocked(eq, s, d, z) || (d == c && operands_allowed(
            eq,
            z - (s.len() + 1),
            s.len() + 1 as int,
        ) && s.push(c)[z - (s.len() + 1) - 1] == c)),
{
    let t = s.push(c);
    let m = s.len() + 1 as int;
    if blocked(eq, t, d, z) {
        let x = choose|x: int| #[trigger] sum_pair(eq, t, d, x, z - x);
        if z - x < m {
            assert(sum_pair(eq, s, d, x, z - x));
        }
    }
    if blocked(eq, s, d, z) {
        let x = choose|x: int| #[trigger] sum_pair(eq, s, d, x, z - x);
        assert(sum_pair(eq, t, d, x, z - x));
    }
    if d == c && operands_allowed(eq, z - m, m) && t[z - m - 1] == c {
        assert(sum_pair(eq, t, d, z - m, z - (z - m)));
    }
}

/// Playing a colour that is not blocked keeps the sequence free of solutions.
pub proof fn lemma_push_sum_free(eq: Equation, s: Seq<usize>, c: usize)
    requires
        sum_free(eq, s),
        !blocked(eq, s, c as int, s.len() + 1 as int),
    ensures
        sum_free(eq, s.push(c)),
{
    let t = s.push(c);
    assert forall|x: int, y: int|
        operands_allowed(eq, x, y) && x + y <= t.len() && t[x - 1] == t[y - 1] implies t[x + y
            - 1] != t[x - 1] by {
        if x + y <= s.len() {
            assert(s[x - 1] == s[y - 1]);
        } else if t[x + y - 1] == t[x - 1] {
            assert(sum_pair(eq, s, c as int, x, (s.len() + 1) as int - x));
        }
    }
}

/// A blocked colour would create a solution: the two numbers that block it and
/// the new number form one.
pub proof fn lemma_blocked_breaks_sum_free(eq: Equation, s: Seq<usize>, c: usize)
    requires
        blocked(eq, s, c as int, s.len() + 1 as int),
    ensures
        !sum_free(eq, s.push(c)),
{
    let t = s.push(c);
    let x = choose|x: int| #[trigger] sum_pair(eq, s, c as int, x, s.len() + 1 as int - x);
    let y = s.len() + 1 - x;
    assert(t[x - 1] == t[y - 1] && t[x + y - 1] == t[x - 1]);
}

/// Legality of the next move, read off the incremental test, is the same as
/// asking of the extended sequence that no class solves the equation.
pub proof fn lemma_legal_next_iff_sum_free(
    eq: Equation,
    n_colors: nat,
    bound: nat,
    s: Seq<usize>,
    c: usize,
)
    requires
        legal_sequence(eq, n_colors, bound, s),
        s.len() < bound,
        c < n_colors,
    ensures
        legal_next(eq, n_colors, bound, s, c as int) <==> legal_sequence(
            eq,
            n_colors,
            bound,
            s.push(c),
        ),
{
    let t = s.push(c);
    if legal_next(eq, n_colors, bound, s, c as int) {
        lemma_push_sum_free(eq, s, c);
        assert forall|i: int| 0 <= i < t.len() implies #[trigger] t[i] < n_colors by {
            if i < s.len() {
                assert(s[i] < n_colors);
            }
        }
    } else {
        lemma_blocked_breaks_sum_free(eq, s, c);
    }
}

/// Every prefix of a legal sequence is legal.
pub proof fn lemma_prefix_legal(eq: Equation, n_colors: nat, bound: nat, s: Seq<usize>, len: int)
    requires
        legal_sequence(eq, n_colors, bound, s),
        0 <= len <= s.len(),
    ensures
        legal_sequence(eq, n_colors, bound, s.subrange(0, len)),
{
    let t = s.subrange(0, len);
    assert forall|x: int, y: int|
        operands_allowed(eq, x, y) && x + y <= t.len() && t[x - 1] == t[y - 1] implies t[x + y
            - 1] != t[x - 1] by {
        assert(s[x - 1] == s[y - 1]);
    }
    assert forall|i: int| 0 <= i < t.len() implies #[trigger] t[i] < n_colors by {
        assert(s[i] < n_colors);
    }
}

} // verus!
