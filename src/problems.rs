//! The problem family: how many colours, how far a sequence may grow, and
//! which equation a colour class must avoid.
use crate::legality::Equation;
use vstd::prelude::*;

verus! {

/// A problem with a fixed capacity for the numbers it colours.
pub trait UpperBound {
    /// One more than the longest sequence known to admit a legal colouring.
    spec fn spec_bound(&self) -> nat;

    fn bound(&self) -> (r: usize)
        ensures
            r == self.spec_bound(),
    ;
}

/// A colouring problem on the numbers `1..bound`, forbidding monochromatic
/// solutions of one additive equation.
pub trait SequenceProblem: UpperBound {
    spec fn spec_n_colors(&self) -> nat;

    spec fn spec_equation(&self) -> Equation;

    /// There is at least one colour, a colour fits a 32-bit digit, the
    /// capacity is positive and fits 32 bits, and the grids of a game state (one cell per colour and
    /// position) fit in memory.
    proof fn lemma_grid_fits(&self)
        ensures
            1 <= self.spec_n_colors() <= 0x1_0000_0000,
            1 <= self.spec_bound() <= u32::MAX,
            self.spec_n_colors() * self.spec_bound() <= usize::MAX,
    ;

    fn n_colors(&self) -> (r: usize)
        ensures
            r == self.spec_n_colors(),
    ;

    fn equation(&self) -> (r: Equation)
        ensures
            r == self.spec_equation(),
    ;
}

/// The equation families a run can be asked for.
#[derive(Clone, Copy, Debug, PartialEq, Eq, Hash, Structural)]
pub enum Problem {
    Schur,
    WeakSchur,
    VanDerWaerden,
}

/// The colour count of a problem built by `new`, which accepts `1..=5`.
pub open spec fn supported_colors(n: usize) -> nat {
    if 1 <= n <= 5 {
        n as nat
    } else {
        1
    }
}

/// Capacity for Schur's problem with `n` colours: the Schur number plus one.
pub open spec fn schur_bound(n: nat) -> nat {
    if n == 1 {
        2
    } else if n == 2 {
        5
    } else if n == 3 {
        14
    } else if n == 4 {
        45
    } else if n == 5 {
        161
    } else {
        0
    }
}

/// Capacity for the weak Schur problem with `n` colours.
pub open spec fn weak_schur_bound(n: nat) -> nat {
    if n == 1 {
        3
    } else if n == 2 {
        9
    } else if n == 3 {
        24
    } else if n == 4 {
        67
    } else if n == 5 {
        201
    } else {
        0
    }
}

/// Capacity for van der Waerden's problem with `n` colours and progressions
/// of length `len`; zero where no value is known.
pub open spec fn van_der_waerden_bound(n: nat, len: nat) -> nat {
    if n == 1 && len > 1 {
        len
    } else if len == 2 && 1 < n < usize::MAX {
        n + 1
    } else if n == 2 && len == 3 {
        9
    } else if n == 2 && len == 4 {
        35
    } else if n == 2 && len == 5 {
        178
    } else if n == 3 && len == 3 {
        27
    } else if n == 3 && len == 4 {
        293
    } else if n == 4 && len == 3 {
        76
    } else if n == 5 && len == 3 {
        181
    } else if n == 6 && len == 3 {
        243
    } else {
        0
    }
}

fn schur_table(n: usize) -> (r: usize)
    ensures
        r == schur_bound(n as nat),
{
    match n {
        1 => 2,
        2 => 5,
        3 => 14,
        4 => 45,
        5 => 161,
        _ => 0,
    }
}

fn weak_schur_table(n: usize) -> (r: usize)
    ensures
        r == weak_schur_bound(n as nat),
{
    match n {
        1 => 3,
        2 => 9,
        3 => 24,
        4 => 67,
        5 => 201,
        _ => 0,
    }
}

/// Colour `1..` so that no class holds `x`, `y` and `x + y`, `x == y` included.
#[derive(Clone, Copy, Debug, PartialEq, Eq, Hash)]
pub struct Schur {
    n_colors: usize,
}

impl Schur {
    /// The problem with `n_colors` colours, where its capacity is known.
    pub fn new(n_colors: usize) -> (r: Option<Schur>)
        ensures
            r is Some <==> 1 <= n_colors <= 5,
            r matches Some(p) ==> p.spec_n_colors() == n_colors && p.spec_bound() == schur_bound(
                n_colors as nat,
            ),
    {
        if 1 <= n_colors && n_colors <= 5 {
            Some(Schur { n_colors })
        } else {
            None
        }
    }
}

impl UpperBound for Schur {
    closed spec fn spec_bound(&self) -> nat {
        schur_bound(supported_colors(self.n_colors))
    }

    fn bound(&self) -> (r: usize) {
        schur_table(self.n_colors())
    }
}

impl SequenceProblem for Schur {
    closed spec fn spec_n_colors(&self) -> nat {
        supported_colors(self.n_colors)
    }

    open spec fn spec_equation(&self) -> Equation {
        Equation::Sum
    }

    proof fn lemma_grid_fits(&self) {
        assert(supported_colors(self.n_colors) * schur_bound(supported_colors(self.n_colors)) <= 5 * 161);
    }

    fn n_colors(&self) -> (r: usize) {
        if 1 <= self.n_colors && self.n_colors <= 5 {
            self.n_colors
        } else {
            1
        }
    }

    fn equation(&self) -> (r: Equation) {
        Equation::Sum
    }
}

/// Colour `1..` so that no class holds `x`, `y` and `x + y` for `x != y`.
#[derive(Clone, Copy, Debug, PartialEq, Eq, Hash)]
pub struct WeakSchur {
    n_colors: usize,
}

impl WeakSchur {
    /// The problem with `n_colors` colours, where its capacity is known.
    pub fn new(n_colors: usize) -> (r: Option<WeakSchur>)
        ensures
            r is Some <==> 1 <= n_colors <= 5,
            r matches Some(p) ==> p.spec_n_colors() == n_colors && p.spec_bound()
                == weak_schur_bound(n_colors as nat),
    {
        if 1 <= n_colors && n_colors <= 5 {
            Some(WeakSchur { n_colors })
        } else {
            None
        }
    }
}

impl UpperBound for WeakSchur {
    closed spec fn spec_bound(&self) -> nat {
        weak_schur_bound(supported_colors(self.n_colors))
    }

    fn bound(&self) -> (r: usize) {
        weak_schur_table(self.n_colors())
    }
}

impl SequenceProblem for WeakSchur {
    closed spec fn spec_n_colors(&self) -> nat {
        supported_colors(self.n_colors)
    }

    open spec fn spec_equation(&self) -> Equation {
        Equation::DistinctSum
    }

    proof fn lemma_grid_fits(&self) {
        assert(supported_colors(self.n_colors) * weak_schur_bound(supported_colors(self.n_colors)) <= 5 * 201);
    }

    fn n_colors(&self) -> (r: usize) {
        if 1 <= self.n_colors && self.n_colors <= 5 {
            self.n_colors
        } else {
            1
        }
    }

    fn equation(&self) -> (r: Equation) {
        Equation::DistinctSum
    }
}

/// Colour `1..` with no monochromatic arithmetic progression of a given length.
/// Only its capacities are known here; no move rule is defined for it.
#[derive(Clone, Copy, Debug, PartialEq, Eq, Hash)]
pub struct VanDerWaerden {
    n_colors: usize,
    progression_len: usize,
}

impl VanDerWaerden {
    /// The problem for `n_colors` colours and progressions of `progression_len`
    /// numbers, where its capacity is known.
    pub fn new(n_colors: usize, progression_len: usize) -> (r: Option<VanDerWaerden>)
        ensures
            r is Some <==> van_der_waerden_bound(n_colors as nat, progression_len as nat) > 0,
            r matches Some(p) ==> p.spec_bound() == van_der_waerden_bound(
                n_colors as nat,
                progression_len as nat,
            ),
    {
        let p = VanDerWaerden { n_colors, progression_len };
        if p.bound() > 0 {
            Some(p)
        } else {
            None
        }
    }
}

impl UpperBound for VanDerWaerden {
    closed spec fn spec_bound(&self) -> nat {
        van_der_waerden_bound(self.n_colors as nat, self.progression_len as nat)
    }

    fn bound(&self) -> (r: usize) {
        let n = self.n_colors;
        let len = self.progression_len;
        if n == 1 && len > 1 {
            len
        } else if len == 2 && n > 1 {
            if n < usize::MAX {
                n + 1
            } else {
                0
            }
        } else if n == 2 && len == 3 {
            9
        } else if n == 2 && len == 4 {
            35
        } else if n == 2 && len == 5 {
            178
        } else if n == 3 && len == 3 {
            27
        } else if n == 3 && len == 4 {
            293
        } else if n == 4 && len == 3 {
            76
        } else if n == 5 && len == 3 {
            181
        } else if n == 6 && len == 3 {
            243
        } else {
            0
        }
    }
}

} // verus!
