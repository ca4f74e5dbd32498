//! A finished colour sequence, detached from the game that produced it.
use crate::codec::valid_radix;
use crate::legality::{colors_below, legal_sequence, lemma_prefix_legal, terminal};
use crate::problems::SequenceProblem;
use crate::random::gen_below;
use crate::sequence_coloring::SequenceColoring;
use rand::rngs::ThreadRng;
use vstd::prelude::*;

verus! {

/// A colour sequence over `n_colors` colours.
pub struct Coloring {
    colors: Vec<usize>,
    n_colors: usize,
}

impl View for Coloring {
    type V = Seq<usize>;

    closed spec fn view(&self) -> Seq<usize> {
        self.colors@
    }
}

/// Relies on std's `Vec::shrink_to_fit`: the contents stay as they are.
#[verifier::external_body]
fn shrink_vec(v: &mut Vec<usize>)
    ensures
        final(v)@ == old(v)@,
{
    v.shrink_to_fit()
}

/// Every value below `seen` is held by some entry of `order`, when the
/// entries hold distinct values below `seen` and `seen` of them are set.
proof fn lemma_value_taken(order: Seq<Option<usize>>, assigned: Set<int>, n: int, seen: int)
    requires
        order.len() == n,
        assigned.finite(),
        assigned.len() == seen,
        seen > 0,
        forall|d: int| 0 <= d < n ==> (assigned.contains(d) <==> (#[trigger] order[d]) is Some),
        assigned.subset_of(vstd::set_lib::set_int_range(0, n)),
        forall|d: int| 0 <= d < n && (#[trigger] order[d]) is Some ==> order[d]->0 < seen,
        forall|d1: int, d2: int|
            0 <= d1 < n && 0 <= d2 < n && (#[trigger] order[d1]) is Some && (#[trigger] order[d2]) is Some
                && order[d1]->0 == order[d2]->0 ==> d1 == d2,
    ensures
        exists|d: int| 0 <= d < n && order[d] == Some((seen - 1) as usize),
{
    let f = |d: int| order[d]->0 as int;
    let values = assigned.map(f);
    let range = vstd::set_lib::set_int_range(0, seen - 1);
    if !(exists|d: int| 0 <= d < n && order[d] == Some((seen - 1) as usize)) {
        assert(values.subset_of(range)) by {
            assert forall|v: int| values.contains(v) implies range.contains(v) by {
                let d = choose|d: int| assigned.contains(d) && f(d) == v;
                assert(vstd::set_lib::set_int_range(0, n).contains(d));
                assert(order[d] is Some);
                if v == seen - 1 {
                    assert(order[d] == Some((seen - 1) as usize));
                }
            }
        }
        assert(vstd::relations::injective_on(f, assigned)) by {
            assert forall|x1: int, x2: int|
                assigned.contains(x1) && assigned.contains(x2) && #[trigger] f(x1) == #[trigger] f(x2)
                    implies x1 == x2 by {
                assert(vstd::set_lib::set_int_range(0, n).contains(x1));
                assert(vstd::set_lib::set_int_range(0, n).contains(x2));
                assert(order[x1] is Some && order[x2] is Some);
            }
        }
        vstd::set_lib::lemma_map_size(assigned, values, f);
        vstd::set_lib::lemma_int_range(0, seen - 1);
        vstd::set_lib::lemma_len_subset(values, range);
    }
}

impl Coloring {
    pub closed spec fn spec_n_colors(&self) -> nat {
        self.n_colors as nat
    }

    /// Every colour is below the colour count, which the packing supports.
    pub closed spec fn wf(&self) -> bool {
        &&& valid_radix(self.n_colors as nat)
        &&& colors_below(self.colors@, self.n_colors as nat)
    }

    /// What a well-formed colouring guarantees: a supported colour count and
    /// every colour below it.
    pub proof fn lemma_wf(&self)
        requires
            self.wf(),
        ensures
            valid_radix(self.spec_n_colors()),
            colors_below(self@, self.spec_n_colors()),
    {
    }

    /// The sequence `colors` over `n_colors` colours, if every colour is in
    /// range and the count is between 1 and 2^32.
    pub fn from_colors(colors: Vec<usize>, n_colors: usize) -> (r: Option<Coloring>)
        ensures
            r is Some <==> valid_radix(n_colors as nat) && colors_below(colors@, n_colors as nat),
            r matches Some(c) ==> c.wf() && c@ == colors@ && c.spec_n_colors() == n_colors,
    {
        if n_colors == 0 || n_colors as u64 > crate::codec::WORD_RANGE {
            return None;
        }
        let mut i: usize = 0;
        while i < colors.len()
            invariant
                i <= colors.len(),
                forall|j: int| 0 <= j < i ==> #[trigger] colors@[j] < n_colors,
            decreases colors.len() - i,
        {
            if colors[i] >= n_colors {
                return None;
            }
            i += 1;
        }
        Some(Coloring { colors, n_colors })
    }

    /// The colours played in `coloring`, in order.
    pub fn from_sequence<P: SequenceProblem>(coloring: SequenceColoring<P>) -> (r: Coloring)
        requires
            coloring.wf(),
        ensures
            r.wf(),
            r@ == coloring@,
            r.spec_n_colors() == coloring.spec_n_colors(),
    {
        proof {
            coloring.lemma_legal();
        }
        let ghost s = coloring@;
        let mut iter = coloring.into_iter();
        let n = iter.n_colors();
        let mut colors: Vec<usize> = Vec::new();
        while iter.len() > 0
            invariant
                iter.wf(),
                iter.spec_n_colors() == n,
                colors@ + iter@ == s,
            decreases iter@.len(),
        {
            let ghost rest = iter@;
            let c = iter.next();
            match c {
                Some(c) => {
                    colors.push(c);
                    proof {
                        assert(colors@ + iter@ =~= s);
                    }
                },
                None => {},
            }
        }
        proof {
            assert(colors@ =~= s);
        }
        Coloring { colors, n_colors: n }
    }

    /// A complete random playout of `problem`: legal moves drawn from `rng`
    /// until none is left.
    pub fn random<P: SequenceProblem>(problem: P, rng: &mut ThreadRng) -> (r: Coloring)
        ensures
            r.wf(),
            r.spec_n_colors() == problem.spec_n_colors(),
            legal_sequence(
                problem.spec_equation(),
                problem.spec_n_colors(),
                problem.spec_bound(),
                r@,
            ),
            terminal(problem.spec_equation(), problem.spec_n_colors(), problem.spec_bound(), r@),
    {
        let state = SequenceColoring::random_coloring(problem, rng);
        proof {
            state.lemma_legal();
        }
        Coloring::from_sequence(state)
    }

    /// A random playout of `problem` cut to a prefix whose length is drawn
    /// uniformly below the playout's length (the empty playout stays empty).
    pub fn random_partial<P: SequenceProblem>(problem: P, rng: &mut ThreadRng) -> (r: Coloring)
        ensures
            r.wf(),
            r.spec_n_colors() == problem.spec_n_colors(),
            legal_sequence(
                problem.spec_equation(),
                problem.spec_n_colors(),
                problem.spec_bound(),
                r@,
            ),
            exists|full: Seq<usize>|
                {
                    &&& legal_sequence(
                        problem.spec_equation(),
                        problem.spec_n_colors(),
                        problem.spec_bound(),
                        full,
                    )
                    &&& terminal(
                        problem.spec_equation(),
                        problem.spec_n_colors(),
                        problem.spec_bound(),
                        full,
                    )
                    &&& (full.len() == 0 || r@.len() < full.len())
                    &&& r@.len() <= full.len()
                    &&& r@ == full.subrange(0, r@.len() as int)
                },
            r@.len() < problem.spec_bound(),
    {
        let mut coloring = Coloring::random(problem, rng);
        let ghost full = coloring@;
        let len = coloring.len();
        if len > 0 {
            let size = gen_below(rng, len);
            coloring.truncate(size);
            coloring.shrink_to_fit();
        }
        proof {
            problem.lemma_grid_fits();
            lemma_prefix_legal(
                problem.spec_equation(),
                problem.spec_n_colors(),
                problem.spec_bound(),
                full,
                coloring@.len() as int,
            );
            assert(coloring@ == full.subrange(0, coloring@.len() as int));
        }
        coloring
    }

    /// A random partial playout of `problem`, its colours renamed in order of
    /// first appearance.
    pub fn random_partial_coloring<P: SequenceProblem>(problem: P, rng: &mut ThreadRng) -> (r: Vec<
        usize,
    >)
        ensures
            exists|full: Seq<usize>|
                {
                    &&& legal_sequence(
                        problem.spec_equation(),
                        problem.spec_n_colors(),
                        problem.spec_bound(),
                        full,
                    )
                    &&& terminal(
                        problem.spec_equation(),
                        problem.spec_n_colors(),
                        problem.spec_bound(),
                        full,
                    )
                    &&& (full.len() == 0 || r@.len() < full.len())
                    &&& r@.len() <= full.len()
                    &&& forall|i: int, j: int|
                        0 <= i < r@.len() && 0 <= j < r@.len() ==> ((#[trigger] r@[i]
                            == #[trigger] r@[j]) <==> (full[i] == full[j]))
                },
            forall|i: int|
                0 <= i < r@.len() && #[trigger] r@[i] > 0 ==> exists|j: int|
                    0 <= j < i && r@[j] + 1 == r@[i],
            legal_sequence(
                problem.spec_equation(),
                problem.spec_n_colors(),
                problem.spec_bound(),
                r@,
            ),
            r@.len() < problem.spec_bound(),
    {
        let mut coloring = Coloring::random_partial(problem, rng);
        let ghost cut = coloring@;
        coloring.order_colors();
        let r = coloring.into_colors();
        proof {
            let full = choose|full: Seq<usize>|
                {
                    &&& legal_sequence(
                        problem.spec_equation(),
                        problem.spec_n_colors(),
                        problem.spec_bound(),
                        full,
                    )
                    &&& terminal(
                        problem.spec_equation(),
                        problem.spec_n_colors(),
                        problem.spec_bound(),
                        full,
                    )
                    &&& (full.len() == 0 || cut.len() < full.len())
                    &&& cut.len() <= full.len()
                    &&& cut == full.subrange(0, cut.len() as int)
                };
            assert forall|i: int, j: int|
                0 <= i < r@.len() && 0 <= j < r@.len() implies ((#[trigger] r@[i]
                == #[trigger] r@[j]) <==> (full[i] == full[j])) by {
                assert(cut[i] == full[i] && cut[j] == full[j]);
            }
            assert(full.len() == 0 || r@.len() < full.len());
            let eq = problem.spec_equation();
            assert forall|x: int, y: int|
                crate::legality::operands_allowed(eq, x, y) && x + y <= r@.len() && r@[x - 1]
                    == r@[y - 1] implies r@[x + y - 1] != r@[x - 1] by {
                assert(cut[x - 1] == cut[y - 1]);
                if r@[x + y - 1] == r@[x - 1] {
                    assert(cut[x + y - 1] == cut[x - 1]);
                }
            }
        }
        r
    }

    /// The colours, handed over.
    pub fn into_colors(self) -> (r: Vec<usize>)
        ensures
            r@ == self@,
    {
        self.colors
    }

    /// Number of colours in the sequence.
    pub fn len(&self) -> (r: usize)
        ensures
            r == self@.len(),
    {
        self.colors.len()
    }

    pub fn n_colors(&self) -> (r: usize)
        ensures
            r == self.spec_n_colors(),
    {
        self.n_colors
    }

    /// The colours, in order.
    pub fn colors(&self) -> (r: &Vec<usize>)
        ensures
            r@ == self@,
    {
        &self.colors
    }

    /// Keeps the first `size` colours (all of them if there are fewer).
    pub fn truncate(&mut self, size: usize)
        requires
            old(self).wf(),
        ensures
            final(self).wf(),
            final(self).spec_n_colors() == old(self).spec_n_colors(),
            final(self)@ == if size < old(self)@.len() {
                old(self)@.subrange(0, size as int)
            } else {
                old(self)@
            },
    {
        self.colors.truncate(size);
    }

    /// Renames the colours in order of first appearance: the first colour
    /// seen becomes 0, the next new one 1, and so on. Two positions share a
    /// colour afterwards exactly when they did before.
    pub fn order_colors(&mut self)
        requires
            old(self).wf(),
        ensures
            final(self).wf(),
            final(self).spec_n_colors() == old(self).spec_n_colors(),
            final(self)@.len() == old(self)@.len(),
            forall|i: int, j: int|
                0 <= i < final(self)@.len() && 0 <= j < final(self)@.len() ==> ((
                #[trigger] final(self)@[i] == #[trigger] final(self)@[j]) <==> (old(self)@[i]
                    == old(self)@[j])),
            forall|i: int|
                0 <= i < final(self)@.len() && #[trigger] final(self)@[i] > 0 ==> exists|j: int|
                    0 <= j < i && final(self)@[j] + 1 == final(self)@[i],
    {
        let n = self.n_colors;
        let ghost s = self.colors@;
        let len = self.colors.len();
        let mut order: Vec<Option<usize>> = Vec::new();
        let mut c: usize = 0;
        while c < n
            invariant
                c <= n,
                order@.len() == c,
                forall|d: int| 0 <= d < c ==> order@[d] is None,
            decreases n - c,
        {
            order.push(None);
            c += 1;
        }
        let ghost mut assigned: Set<int> = Set::empty();
        let mut seen: usize = 0;
        let mut i: usize = 0;
        while i < len
            invariant
                valid_radix(n as nat),
                n == self.n_colors,
                len == s.len(),
                self.colors@.len() == len,
                colors_below(s, n as nat),
                order@.len() == n,
                i <= len,
                assigned.finite(),
                assigned.subset_of(vstd::set_lib::set_int_range(0, n as int)),
                seen == assigned.len(),
                forall|d: int| 0 <= d < n ==> (assigned.contains(d) <==> (#[trigger] order@[d]) is Some),
                forall|d: int|
                    0 <= d < n && (#[trigger] order@[d]) is Some ==> exists|j: int|
                        0 <= j < i && s[j] == d,
                forall|j: int| 0 <= j < i ==> (#[trigger] order@[s[j] as int]) is Some,
                forall|d: int| 0 <= d < n && (#[trigger] order@[d]) is Some ==> order@[d]->0 < seen,
                forall|d1: int, d2: int|
                    0 <= d1 < n && 0 <= d2 < n && (#[trigger] order@[d1]) is Some && (
                    #[trigger] order@[d2]) is Some && order@[d1]->0 == order@[d2]->0 ==> d1 == d2,
                forall|j: int| 0 <= j < i ==> #[trigger] self.colors@[j] == order@[s[j] as int]->0,
                forall|j: int| i <= j < len ==> #[trigger] self.colors@[j] == s[j],
                forall|j: int|
                    0 <= j < i && #[trigger] self.colors@[j] > 0 ==> exists|k: int|
                        0 <= k < j && self.colors@[k] + 1 == self.colors@[j],
            decreases len - i,
        {
            let color = self.colors[i];
            proof {
                assert(s[i as int] < n);
            }
            let ghost prev_colors = self.colors@;
            let ghost order_before = order@;
            let ghost was_new = order@[color as int] is None;
            let ghost seen_before = seen;
            if order[color].is_none() {
                proof {
                    vstd::set_lib::lemma_int_range(0, n as int);
                    vstd::set_lib::lemma_len_subset(assigned, vstd::set_lib::set_int_range(0, n as int));
                    assert(!assigned.contains(color as int));
                    assert(assigned.insert(color as int).subset_of(vstd::set_lib::set_int_range(0, n as int)));
                    vstd::set_lib::lemma_len_subset(
                        assigned.insert(color as int),
                        vstd::set_lib::set_int_range(0, n as int),
                    );
                    if seen > 0 {
                        let prev = seen - 1;
                        assert(exists|d: int| 0 <= d < n && order@[d] == Some(prev as usize)) by {
                            assert(assigned.len() > 0);
                            lemma_value_taken(order@, assigned, n as int, seen as int);
                        }
                    }
                }
                let ghost prev_order = order@;
                order.set(color, Some(seen));
                proof {
                    assigned = assigned.insert(color as int);
                    assert forall|d: int|
                        0 <= d < n && (#[trigger] order@[d]) is Some implies exists|j: int|
                            0 <= j < i + 1 && s[j] == d by {
                        if d == color {
                            assert(s[i as int] == d);
                        } else {
                            assert(prev_order[d] is Some);
                            let j = choose|j: int| 0 <= j < i && s[j] == d;
                        }
                    }
                }
                seen += 1;
            }
            let v = order[color].unwrap();
            self.colors.set(i, v);
            proof {
                assert forall|j: int|
                    0 <= j < i + 1 && #[trigger] self.colors@[j] > 0 implies exists|k: int|
                        0 <= k < j && self.colors@[k] + 1 == self.colors@[j] by {
                    if j < i {
                        assert(self.colors@[j] == prev_colors[j]);
                        let k = choose|k: int| 0 <= k < j && prev_colors[k] + 1 == prev_colors[j];
                        assert(self.colors@[k] == prev_colors[k]);
                    } else if was_new {
                        assert(v == seen_before);
                        let d = choose|d: int| 0 <= d < n && order_before[d] == Some((seen_before - 1) as usize);
                        assert(order_before[d] is Some);
                        let k = choose|k: int| 0 <= k < i && s[k] == d;
                        assert(prev_colors[k] == order_before[s[k] as int]->0);
                        assert(self.colors@[k] == prev_colors[k]);
                    } else {
                        assert(order_before[color as int] is Some);
                        let j0 = choose|j0: int| 0 <= j0 < i && s[j0] == color;
                        assert(prev_colors[j0] == order_before[s[j0] as int]->0);
                        assert(prev_colors[j0] == v);
                        let k = choose|k: int| 0 <= k < j0 && prev_colors[k] + 1 == prev_colors[j0];
                        assert(self.colors@[k] == prev_colors[k]);
                    }
                }
            }
            i += 1;
        }
        proof {
            assert forall|j: int| 0 <= j < len implies #[trigger] self.colors@[j] < n by {
                assert(order@[s[j] as int] is Some);
                vstd::set_lib::lemma_int_range(0, n as int);
                vstd::set_lib::lemma_len_subset(assigned, vstd::set_lib::set_int_range(0, n as int));
            }
        }
    }

    /// Gives spare capacity back; the colours stay as they are.
    pub fn shrink_to_fit(&mut self)
        requires
            old(self).wf(),
        ensures
            final(self).wf(),
            final(self).spec_n_colors() == old(self).spec_n_colors(),
            final(self)@ == old(self)@,
    {
        shrink_vec(&mut self.colors);
    }
}

} // verus!
