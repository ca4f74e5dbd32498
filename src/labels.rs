//! Label reconstruction: replaying a sample from the empty colouring to
//! recover its length and the legal moves at its frontier.
use crate::compressed_coloring::CompressedColoring;
use crate::legality::{legal_next, legal_sequence, lemma_legal_next_iff_sum_free, lemma_prefix_legal};
use crate::problems::SequenceProblem;
use crate::sequence_coloring::{PlayError, SequenceColoring};
use vstd::prelude::*;

verus! {

/// The legal-move mask after `s`: entry `c` tells whether colour `c` may be
/// played next.
pub open spec fn move_mask(eq: crate::legality::Equation, n: nat, b: nat, s: Seq<usize>) -> Seq<bool> {
    Seq::new(n, |c: int| legal_next(eq, n, b, s, c))
}

/// The mask a replay reads off agrees with the brute-force test: after a
/// legal sequence, colour `c` is marked exactly when appending it leaves a
/// legal sequence, with no class solving the equation.
pub proof fn lemma_mask_is_brute_force(
    eq: crate::legality::Equation,
    n: nat,
    b: nat,
    s: Seq<usize>,
    c: usize,
)
    requires
        legal_sequence(eq, n, b, s),
        c < n,
    ensures
        move_mask(eq, n, b, s)[c as int] <==> (s.len() < b && legal_sequence(eq, n, b, s.push(c))),
{
    if s.len() < b {
        lemma_legal_next_iff_sum_free(eq, n, b, s, c);
    }
}

/// Plays `colors` in order from the empty colouring of `problem`; fails with
/// the first refused move's error.
pub fn replay<P: SequenceProblem>(problem: P, colors: &Vec<usize>) -> (r: Result<
    SequenceColoring<P>,
    PlayError,
>)
    ensures
        r is Ok <==> legal_sequence(
            problem.spec_equation(),
            problem.spec_n_colors(),
            problem.spec_bound(),
            colors@,
        ),
        r matches Ok(state) ==> state.wf() && state@ == colors@ && state.problem() == problem,
{
    let ghost eq = problem.spec_equation();
    let ghost n = problem.spec_n_colors();
    let ghost b = problem.spec_bound();
    let mut state = SequenceColoring::new(problem);
    let mut i: usize = 0;
    while i < colors.len()
        invariant
            state.wf(),
            state.problem() == problem,
            eq == problem.spec_equation(),
            n == problem.spec_n_colors(),
            b == problem.spec_bound(),
            i <= colors@.len(),
            state@ == colors@.subrange(0, i as int),
            legal_sequence(eq, n, b, state@),
        decreases colors@.len() - i,
    {
        proof {
            state.lemma_legal();
        }
        let played = state.play(colors[i]);
        match played {
            Ok(()) => {
                proof {
                    assert(state@ =~= colors@.subrange(0, i + 1));
                    state.lemma_legal();
                }
            },
            Err(e) => {
                proof {
                    let s = colors@.subrange(0, i as int);
                    let c = colors@[i as int];
                    if legal_sequence(eq, n, b, colors@) {
                        lemma_prefix_legal(eq, n, b, colors@, i + 1);
                        assert(colors@.subrange(0, i + 1) =~= s.push(c));
                        if s.len() < b && c < n {
                            lemma_legal_next_iff_sum_free(eq, n, b, s, c);
                        } else if c >= n {
                            assert(colors@[i as int] < n);
                        }
                    }
                }
                return Err(e);
            },
        }
        i += 1;
    }
    proof {
        assert(colors@.subrange(0, i as int) =~= colors@);
    }
    Ok(state)
}

/// The length and legal-move mask of every sample, in order; fails if some
/// sample is not a legal play of `problem`.
pub fn label_generation<P: SequenceProblem + Copy>(
    problem: P,
    colorings: &Vec<CompressedColoring>,
) -> (r: Result<(Vec<u32>, Vec<Vec<bool>>), PlayError>)
    requires
        forall|i: int| 0 <= i < colorings@.len() ==> (#[trigger] colorings@[i]).wf(),
    ensures
        r is Ok <==> forall|i: int|
            0 <= i < colorings@.len() ==> legal_sequence(
                problem.spec_equation(),
                problem.spec_n_colors(),
                problem.spec_bound(),
                (#[trigger] colorings@[i]).decoded(),
            ),
        r matches Ok((sizes, masks)) ==> {
            &&& sizes@.len() == colorings@.len()
            &&& masks@.len() == colorings@.len()
            &&& forall|i: int|
                0 <= i < colorings@.len() ==> sizes@[i] == (#[trigger] colorings@[i]).spec_size()
                    && masks@[i]@ == move_mask(
                    problem.spec_equation(),
                    problem.spec_n_colors(),
                    problem.spec_bound(),
                    colorings@[i].decoded(),
                )
        },
{
    let ghost eq = problem.spec_equation();
    let ghost nn = problem.spec_n_colors();
    let ghost bb = problem.spec_bound();
    let n = problem.n_colors();
    let mut sizes: Vec<u32> = Vec::new();
    let mut masks: Vec<Vec<bool>> = Vec::new();
    let mut i: usize = 0;
    while i < colorings.len()
        invariant
            n == nn,
            eq == problem.spec_equation(),
            nn == problem.spec_n_colors(),
            bb == problem.spec_bound(),
            forall|j: int| 0 <= j < colorings@.len() ==> (#[trigger] colorings@[j]).wf(),
            i <= colorings@.len(),
            sizes@.len() == i,
            masks@.len() == i,
            forall|j: int|
                0 <= j < i ==> legal_sequence(eq, nn, bb, (#[trigger] colorings@[j]).decoded()),
            forall|j: int|
                0 <= j < i ==> sizes@[j] == (#[trigger] colorings@[j]).spec_size() && masks@[j]@
                    == move_mask(eq, nn, bb, colorings@[j].decoded()),
        decreases colorings@.len() - i,
    {
        let colors = colorings[i].decompress();
        let state = match replay(problem, &colors) {
            Ok(state) => state,
            Err(e) => {
                return Err(e);
            },
        };
        proof {
            state.lemma_legal();
        }
        let moves = state.legal_moves();
        let mut mask: Vec<bool> = Vec::new();
        let mut c: usize = 0;
        let mut t: usize = 0;
        while c < n
            invariant
                n == nn,
                nn == state.spec_n_colors(),
                c <= n,
                t <= moves@.len(),
                mask@.len() == c,
                forall|u: int, v: int| 0 <= u < v < moves@.len() ==> moves@[u] < moves@[v],
                forall|d: usize| moves@.contains(d) <==> state.is_legal(d as int),
                forall|u: int| 0 <= u < t ==> moves@[u] < c,
                t < moves@.len() ==> moves@[t as int] >= c,
                forall|d: int| 0 <= d < c ==> mask@[d] == state.is_legal(d),
            decreases n - c,
        {
            let hit = t < moves.len() && moves[t] == c;
            proof {
                if state.is_legal(c as int) {
                    assert(moves@.contains(c));
                    let w = choose|w: int| 0 <= w < moves@.len() && moves@[w] == c;
                    if w < t {
                    } else if w > t {
                        assert(moves@[t as int] < moves@[w]);
                    }
                }
                if hit {
                    assert(moves@.contains(c));
                }
            }
            mask.push(hit);
            if hit {
                t += 1;
            }
            c += 1;
        }
        proof {
            assert(mask@ =~= move_mask(eq, nn, bb, colorings@[i as int].decoded()));
            assert(colors@.len() <= bb);
        }
        sizes.push(colorings[i].size() as u32);
        masks.push(mask);
        i += 1;
    }
    Ok((sizes, masks))
}

} // verus!
