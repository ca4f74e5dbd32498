//! The game state of one colouring in progress: which colour every played
//! number has, and which colours the next numbers may still take.
use crate::legality::{
    blocked, legal_next, legal_sequence, lemma_blocked_push, operands_allowed,
    sum_free, terminal, window_end, Equation,
};
use crate::problems::SequenceProblem;
use crate::random::choose_move;
use rand::rngs::ThreadRng;
use vstd::prelude::*;

verus! {

/// Why a move was refused.
#[derive(Clone, Copy, Debug, PartialEq, Eq, Hash, Structural)]
pub enum PlayError {
    /// The colour is not one of the problem's colours.
    InvalidColor,
    /// The sequence already fills the problem's capacity.
    LimitReached,
    /// The colour would complete a forbidden relation.
    IllegalMove,
}

/// Index of the cell for colour `c` and position `p` in a grid laid out one
/// colour after another, `bound` positions each.
pub open spec fn cell(bound: nat, c: int, p: int) -> int {
    c * bound + p
}

proof fn lemma_cell_in_grid(n: nat, b: nat, c: int, p: int)
    requires
        0 <= c < n,
        0 <= p < b,
    ensures
        0 <= cell(b, c, p) < n * b,
        c * b + b <= n * b,
{
    assert(0 <= c * b + p < n * b && c * b + b <= n * b) by (nonlinear_arith)
        requires
            0 <= c < n,
            0 <= p < b,
    ;
}

proof fn lemma_cell_injective(b: nat, c1: int, p1: int, c2: int, p2: int)
    requires
        0 <= c1,
        0 <= c2,
        0 <= p1 < b,
        0 <= p2 < b,
        cell(b, c1, p1) == cell(b, c2, p2),
    ensures
        c1 == c2,
        p1 == p2,
{
    assert(c1 == c2) by (nonlinear_arith)
        requires
            0 <= c1,
            0 <= c2,
            0 <= p1 < b,
            0 <= p2 < b,
            c1 * b + p1 == c2 * b + p2,
    ;
}

/// A vector of `len` copies of `value`.
fn filled(value: bool, len: usize) -> (r: Vec<bool>)
    ensures
        r@ == Seq::new(len as nat, |i: int| value),
{
    let mut r: Vec<bool> = Vec::with_capacity(len);
    let mut i: usize = 0;
    while i < len
        invariant
            i <= len,
            r@ == Seq::new(i as nat, |k: int| value),
        decreases len - i,
    {
        r.push(value);
        i += 1;
    }
    r
}

/// One colouring of `1..` under construction.
///
/// `partition` and `possible` hold one cell per colour and position:
/// `partition` marks the colour each played number took, and `possible`
/// whether a colour can still be given to a position.
pub struct SequenceColoring<P> {
    problem: P,
    size: usize,
    partition: Vec<bool>,
    possible: Vec<bool>,
    played: Ghost<Seq<usize>>,
}

impl<P: SequenceProblem> View for SequenceColoring<P> {
    type V = Seq<usize>;

    /// The colours played so far, in order.
    closed spec fn view(&self) -> Seq<usize> {
        self.played@
    }
}

impl<P: SequenceProblem> SequenceColoring<P> {
    /// The problem this game is played on.
    pub closed spec fn problem(&self) -> P {
        self.problem
    }

    pub open spec fn spec_equation(&self) -> Equation {
        self.problem().spec_equation()
    }

    pub open spec fn spec_n_colors(&self) -> nat {
        self.problem().spec_n_colors()
    }

    pub open spec fn spec_bound(&self) -> nat {
        self.problem().spec_bound()
    }

    /// Colour `c` may be played next.
    pub open spec fn is_legal(&self, c: int) -> bool {
        legal_next(self.spec_equation(), self.spec_n_colors(), self.spec_bound(), self@, c)
    }

    /// The grids agree with the colours played: `partition` records them, and
    /// `possible` is false exactly where two numbers of a colour sum to the
    /// position's number.
    pub closed spec fn wf(&self) -> bool {
        let n = self.problem.spec_n_colors();
        let b = self.problem.spec_bound();
        let eq = self.problem.spec_equation();
        let s = self.played@;
        &&& 1 <= n <= 0x1_0000_0000
        &&& n <= usize::MAX
        &&& b <= u32::MAX
        &&& n * b <= usize::MAX
        &&& self.partition@.len() == n * b
        &&& self.possible@.len() == n * b
        &&& self.size == s.len()
        &&& legal_sequence(eq, n, b, s)
        &&& forall|c: int, p: int|
            0 <= c < n && 0 <= p < b ==> #[trigger] self.partition@[cell(b, c, p)] == (p < s.len()
                && s[p] == c)
        &&& forall|c: int, p: int|
            0 <= c < n && 0 <= p < b ==> #[trigger] self.possible@[cell(b, c, p)] == !blocked(
                eq,
                s,
                c,
                p + 1,
            )
    }

    /// What a game state guarantees of its moves: they form a legal sequence.
    pub proof fn lemma_legal(&self)
        requires
            self.wf(),
        ensures
            legal_sequence(self.spec_equation(), self.spec_n_colors(), self.spec_bound(), self@),
            1 <= self.spec_n_colors() <= 0x1_0000_0000,
            self.spec_bound() <= u32::MAX,
    {
    }

    /// A colour that the state marks possible at the frontier extends the
    /// moves to a sequence in which still no class solves the equation.
    pub proof fn lemma_possible_move_keeps_sum_free(&self, c: usize)
        requires
            self.wf(),
            self.is_legal(c as int),
        ensures
            sum_free(self.spec_equation(), self@),
            sum_free(self.spec_equation(), self@.push(c)),
            legal_sequence(
                self.spec_equation(),
                self.spec_n_colors(),
                self.spec_bound(),
                self@.push(c),
            ),
    {
        crate::legality::lemma_legal_next_iff_sum_free(
            self.spec_equation(),
            self.spec_n_colors(),
            self.spec_bound(),
            self@,
            c,
        );
    }

    /// The empty colouring: nothing played, every colour possible everywhere.
    pub fn new(problem: P) -> (r: Self)
        ensures
            r.wf(),
            r@ == Seq::<usize>::empty(),
            r.problem() == problem,
    {
        proof {
            problem.lemma_grid_fits();
        }
        let n = problem.n_colors();
        let b = problem.bound();
        let cells = n * b;
        let partition = filled(false, cells);
        let possible = filled(true, cells);
        let r = SequenceColoring {
            problem,
            size: 0,
            partition,
            possible,
            played: Ghost(Seq::empty()),
        };
        proof {
            let eq = problem.spec_equation();
            let s = Seq::<usize>::empty();
            assert forall|c: int, p: int| 0 <= c < n && 0 <= p < b implies #[trigger] r.partition@[cell(
                b as nat,
                c,
                p,
            )] == (p < s.len() && s[p] == c) by {
                lemma_cell_in_grid(n as nat, b as nat, c, p);
            }
            assert forall|c: int, p: int| 0 <= c < n && 0 <= p < b implies #[trigger] r.possible@[cell(
                b as nat,
                c,
                p,
            )] == !blocked(eq, s, c, p + 1) by {
                lemma_cell_in_grid(n as nat, b as nat, c, p);
                if blocked(eq, s, c, p + 1) {
                    let x = choose|x: int| #[trigger]
                        crate::legality::sum_pair(eq, s, c, x, p + 1 - x);
                }
            }
            assert forall|x: int, y: int|
                operands_allowed(eq, x, y) && x + y <= s.len() && s[x - 1] == s[y - 1] implies s[x
                + y - 1] != s[x - 1] by {}
        }
        r
    }

    /// The problem this game is played on.
    pub fn get_problem(&self) -> (r: &P)
        ensures
            *r == self.problem(),
    {
        &self.problem
    }

    /// Number of moves played: the next number to colour is `size() + 1`.
    pub fn size(&self) -> (r: usize)
        requires
            self.wf(),
        ensures
            r == self@.len(),
    {
        self.size
    }

    /// Whether the sequence has reached the longest length known to be legal.
    pub fn is_full(&self) -> (r: bool)
        requires
            self.wf(),
        ensures
            r == (self@.len() + 1 == self.spec_bound()),
    {
        let b = self.problem.bound();
        b > 0 && self.size == b - 1
    }

    /// Colours the next number with `color`.
    ///
    /// Refused, leaving the state as it was, when the colour is out of range,
    /// when the capacity is reached, or when the colour would complete a
    /// forbidden relation; the conditions are tested in that order.
    pub fn play(&mut self, color: usize) -> (r: Result<(), PlayError>)
        requires
            old(self).wf(),
        ensures
            final(self).wf(),
            final(self).problem() == old(self).problem(),
            r is Ok <==> old(self).is_legal(color as int),
            r is Ok ==> final(self)@ == old(self)@.push(color),
            r is Err ==> final(self)@ == old(self)@,
            r == Err::<(), PlayError>(PlayError::InvalidColor) <==> color >= old(self).spec_n_colors(),
            r == Err::<(), PlayError>(PlayError::LimitReached) <==> (color < old(self).spec_n_colors()
                && old(self)@.len() >= old(self).spec_bound()),
            r == Err::<(), PlayError>(PlayError::IllegalMove) <==> (color < old(self).spec_n_colors()
                && old(self)@.len() < old(self).spec_bound() && blocked(
                old(self).spec_equation(),
                old(self)@,
                color as int,
                old(self)@.len() + 1 as int,
            )),
    {
        let n = self.problem.n_colors();
        let b = self.problem.bound();
        if color >= n {
            return Err(PlayError::InvalidColor);
        }
        if self.size >= b {
            return Err(PlayError::LimitReached);
        }
        proof {
            lemma_cell_in_grid(n as nat, b as nat, color as int, self.size as int);
        }
        if !self.possible[color * b + self.size] {
            return Err(PlayError::IllegalMove);
        }
        self.apply_move(color);
        Ok(())
    }

    /// Records `color` for the next number `m` and clears, in that colour's
    /// row, the positions whose number is `x + m` for an `x` of the class that
    /// the equation pairs with `m` (`x <= m`, or `x < m` for distinct operands).
    fn apply_move(&mut self, color: usize)
        requires
            old(self).wf(),
            old(self).is_legal(color as int),
        ensures
            final(self).wf(),
            final(self).problem == old(self).problem,
            final(self)@ == old(self)@.push(color),
    {
        let n = self.problem.n_colors();
        let b = self.problem.bound();
        let eq = self.problem.equation();
        let ghost s = self.played@;
        let ghost t = s.push(color);
        let ghost problem = self.problem;
        proof {
            lemma_cell_in_grid(n as nat, b as nat, color as int, self.size as int);
            crate::legality::lemma_legal_next_iff_sum_free(eq, n as nat, b as nat, s, color);
        }
        let row = color * b;
        let m = self.size + 1;
        self.partition.set(row + self.size, true);
        self.size = m;
        self.played = Ghost(t);
        proof {
            assert forall|c: int, p: int| 0 <= c < n && 0 <= p < b implies #[trigger] self.partition@[cell(
                b as nat,
                c,
                p,
            )] == (p < t.len() && t[p] == c) by {
                lemma_cell_in_grid(n as nat, b as nat, c, p);
                if cell(b as nat, c, p) == row + m - 1 {
                    lemma_cell_injective(b as nat, c, p, color as int, m - 1);
                }
            }
        }
        let end = eq.window_end(m, b);
        let span = end - m;
        let mut i: usize = 0;
        while i < span
            invariant
                n == problem.spec_n_colors(),
                b == problem.spec_bound(),
                eq == problem.spec_equation(),
                self.problem == problem,
                n * b <= usize::MAX,
                self.partition@.len() == n * b,
                self.possible@.len() == n * b,
                self.size == m,
                self.played@ == t,
                t == s.push(color),
                m == s.len() + 1,
                m <= b,
                color < n,
                row == color * b,
                row + b <= n * b,
                end == window_end(eq, m as nat, b as nat),
                m <= end <= b,
                span == end - m,
                i <= span,
                legal_sequence(eq, n as nat, b as nat, t),
                forall|c: int, p: int|
                    0 <= c < n && 0 <= p < b ==> #[trigger] self.partition@[cell(b as nat, c, p)]
                        == (p < t.len() && t[p] == c),
                forall|c: int, p: int|
                    0 <= c < n && 0 <= p < b ==> #[trigger] self.possible@[cell(b as nat, c, p)]
                        == if c == color && m <= p < m + i {
                        !blocked(eq, t, c, p + 1)
                    } else {
                        !blocked(eq, s, c, p + 1)
                    },
            decreases span - i,
        {
            proof {
                lemma_cell_in_grid(n as nat, b as nat, color as int, i as int);
                lemma_cell_in_grid(n as nat, b as nat, color as int, (m + i) as int);
                lemma_blocked_push(eq, s, color, color as int, (m + i + 1) as int);
                assert(self.partition@[cell(b as nat, color as int, i as int)] == (i < t.len()
                    && t[i as int] == color));
            }
            let ghost before = self.possible@;
            if self.partition[row + i] {
                self.possible.set(row + m + i, false);
            }
            proof {
                assert forall|c: int, p: int| 0 <= c < n && 0 <= p < b implies #[trigger] self.possible@[cell(
                    b as nat,
                    c,
                    p,
                )] == if c == color && m <= p < m + i + 1 {
                    !blocked(eq, t, c, p + 1)
                } else {
                    !blocked(eq, s, c, p + 1)
                } by {
                    lemma_cell_in_grid(n as nat, b as nat, c, p);
                    assert(before[cell(b as nat, c, p)] == if c == color && m <= p < m + i {
                        !blocked(eq, t, c, p + 1)
                    } else {
                        !blocked(eq, s, c, p + 1)
                    });
                    if cell(b as nat, c, p) == row + m + i {
                        lemma_cell_injective(b as nat, c, p, color as int, (m + i) as int);
                    }
                }
            }
            i += 1;
        }
        proof {
            assert forall|c: int, p: int| 0 <= c < n && 0 <= p < b implies #[trigger] self.possible@[cell(
                b as nat,
                c,
                p,
            )] == !blocked(eq, t, c, p + 1) by {
                lemma_blocked_push(eq, s, color, c, p + 1);
            }
        }
    }

    /// The colours that may be played next, in increasing order; empty at a
    /// terminal state.
    pub fn legal_moves(&self) -> (r: Vec<usize>)
        requires
            self.wf(),
        ensures
            forall|i: int, j: int| 0 <= i < j < r@.len() ==> r@[i] < r@[j],
            forall|c: usize| r@.contains(c) <==> self.is_legal(c as int),
    {
        let n = self.problem.n_colors();
        let b = self.problem.bound();
        let mut moves: Vec<usize> = Vec::new();
        if self.size >= b {
            return moves;
        }
        let mut c: usize = 0;
        while c < n
            invariant
                self.wf(),
                n == self.spec_n_colors(),
                b == self.spec_bound(),
                self.size < b,
                c <= n,
                forall|i: int, j: int| 0 <= i < j < moves@.len() ==> moves@[i] < moves@[j],
                forall|i: int| 0 <= i < moves@.len() ==> moves@[i] < c,
                forall|d: usize| moves@.contains(d) <==> (d < c && self.is_legal(d as int)),
            decreases n - c,
        {
            proof {
                lemma_cell_in_grid(n as nat, b as nat, c as int, self.size as int);
            }
            if self.possible[c * b + self.size] {
                let ghost old_moves = moves@;
                moves.push(c);
                proof {
                    assert forall|d: usize| moves@.contains(d) <==> (d < c + 1 && self.is_legal(
                        d as int,
                    )) by {
                        if moves@.contains(d) && d != c {
                            let k = choose|k: int| 0 <= k < moves@.len() && moves@[k] == d;
                            assert(old_moves[k] == d);
                        }
                        if d < c && self.is_legal(d as int) {
                            let k = choose|k: int| 0 <= k < old_moves.len() && old_moves[k] == d;
                            assert(moves@[k] == d);
                        }
                        if d == c {
                            assert(moves@[moves@.len() - 1] == d);
                        }
                    }
                }
            } else {
                proof {
                    assert forall|d: usize| moves@.contains(d) <==> (d < c + 1 && self.is_legal(
                        d as int,
                    )) by {
                        if moves@.contains(d) {
                            let k = choose|k: int| 0 <= k < moves@.len() && moves@[k] == d;
                        }
                    }
                }
            }
            c += 1;
        }
        moves
    }

    /// The colours played, handed out one number at a time.
    pub fn into_iter(self) -> (r: SequenceColoringIntoIter)
        requires
            self.wf(),
        ensures
            r.wf(),
            r@ == self@,
            r.spec_n_colors() == self.spec_n_colors(),
    {
        let n = self.problem.n_colors();
        let b = self.problem.bound();
        SequenceColoringIntoIter {
            num: 0,
            size: self.size,
            n_colors: n,
            bound: b,
            partition: self.partition,
            colors: self.played,
        }
    }

    /// A complete random playout of `problem`: legal moves drawn from `rng`
    /// until none is left.
    pub fn random_coloring(problem: P, rng: &mut ThreadRng) -> (r: Self)
        ensures
            r.wf(),
            r.problem() == problem,
            terminal(problem.spec_equation(), problem.spec_n_colors(), problem.spec_bound(), r@),
    {
        let mut state = SequenceColoring::new(problem);
        let mut done = false;
        while !done
            invariant
                state.wf(),
                state.problem() == problem,
                done ==> terminal(
                    problem.spec_equation(),
                    problem.spec_n_colors(),
                    problem.spec_bound(),
                    state@,
                ),
            decreases problem.spec_bound() - state@.len() + if done {
                0int
            } else {
                1int
            },
        {
            proof {
                state.lemma_legal();
            }
            match state.random_move(rng) {
                Some(color) => {
                    let played = state.play(color);
                    proof {
                        assert(played is Ok);
                    }
                },
                None => {
                    done = true;
                },
            }
        }
        state
    }

    /// One of the legal moves, drawn from `rng`; `None` at a terminal state.
    pub fn random_move(&self, rng: &mut ThreadRng) -> (r: Option<usize>)
        requires
            self.wf(),
        ensures
            r is None <==> terminal(self.spec_equation(), self.spec_n_colors(), self.spec_bound(), self@),
            r matches Some(c) ==> self.is_legal(c as int),
    {
        let moves = self.legal_moves();
        let r = choose_move(&moves, rng);
        proof {
            if r is None {
                assert forall|c: int| 0 <= c < self.spec_n_colors() implies !legal_next(
                    self.spec_equation(),
                    self.spec_n_colors(),
                    self.spec_bound(),
                    self@,
                    c,
                ) by {
                    if self.is_legal(c) {
                        assert(moves@.contains(c as usize));
                    }
                }
                assert(terminal(self.spec_equation(), self.spec_n_colors(), self.spec_bound(), self@));
            } else {
                let m = r->0;
                assert(moves@.contains(m));
                assert(self.is_legal(m as int));
                assert(!terminal(self.spec_equation(), self.spec_n_colors(), self.spec_bound(), self@));
            }
        }
        r
    }
}

/// Reads the colours of a finished game back, number by number, from the
/// grid that records them.
pub struct SequenceColoringIntoIter {
    num: usize,
    size: usize,
    n_colors: usize,
    bound: usize,
    partition: Vec<bool>,
    colors: Ghost<Seq<usize>>,
}

impl View for SequenceColoringIntoIter {
    type V = Seq<usize>;

    /// The colours not yet handed out.
    closed spec fn view(&self) -> Seq<usize> {
        self.colors@.subrange(self.num as int, self.size as int)
    }
}

impl SequenceColoringIntoIter {
    pub closed spec fn spec_n_colors(&self) -> nat {
        self.n_colors as nat
    }

    pub closed spec fn wf(&self) -> bool {
        let n = self.n_colors as nat;
        let b = self.bound as nat;
        let s = self.colors@;
        &&& 1 <= n <= 0x1_0000_0000
        &&& n * b <= usize::MAX
        &&& self.partition@.len() == n * b
        &&& self.num <= self.size
        &&& self.size == s.len()
        &&& s.len() <= b
        &&& forall|i: int| 0 <= i < s.len() ==> #[trigger] s[i] < n
        &&& forall|c: int, p: int|
            0 <= c < n && 0 <= p < b ==> #[trigger] self.partition@[cell(b, c, p)] == (p < s.len()
                && s[p] == c)
    }

    pub fn n_colors(&self) -> (r: usize)
        requires
            self.wf(),
        ensures
            r == self.spec_n_colors(),
    {
        self.n_colors
    }

    /// How many colours are left.
    pub fn len(&self) -> (r: usize)
        requires
            self.wf(),
        ensures
            r == self@.len(),
    {
        self.size - self.num
    }

    /// The colour of the next number, found as the one colour whose row marks it.
    pub fn next(&mut self) -> (r: Option<usize>)
        requires
            old(self).wf(),
        ensures
            final(self).wf(),
            final(self).spec_n_colors() == old(self).spec_n_colors(),
            old(self)@.len() == 0 ==> r is None && final(self)@ == old(self)@,
            old(self)@.len() > 0 ==> r == Some(old(self)@[0]) && final(self)@ == old(self)@.drop_first(),
    {
        if self.num == self.size {
            return None;
        }
        let n = self.n_colors;
        let b = self.bound;
        let ghost s = self.colors@;
        let p = self.num;
        let mut c: usize = 0;
        while c < n
            invariant
                self.wf(),
                *self == *old(self),
                n == self.n_colors,
                b == self.bound,
                s == self.colors@,
                p == self.num,
                p < self.size,
                c <= n,
                s[p as int] >= c,
            decreases n - c,
        {
            proof {
                lemma_cell_in_grid(n as nat, b as nat, c as int, p as int);
            }
            if self.partition[c * b + p] {
                self.num = p + 1;
                proof {
                    assert(self@ =~= old(self)@.drop_first());
                }
                return Some(c);
            }
            c += 1;
        }
        proof {
            assert(s[p as int] < n);
        }
        None
    }
}

} // verus!
