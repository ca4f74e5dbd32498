//! Sampling: random partial playouts packed and gathered into a set of
//! distinct samples, the collector rule of a multi-worker run, and the
//! assembly of the labelled dataset.
use crate::coloring::Coloring;
use crate::compressed_coloring::{longest_words, padded_from, CompressedColoring};
use crate::labels::{label_generation, move_mask};
use crate::legality::legal_sequence;
use crate::problems::SequenceProblem;
use crate::samples::{canonical, holds_sample, SampleSet};
use crate::sequence_coloring::PlayError;
use rand::rngs::ThreadRng;
use vstd::prelude::*;

verus! {

/// `c` packs, without padding, a legal sequence of `problem` that is shorter
/// than the capacity.
pub open spec fn legal_sample<P: SequenceProblem>(c: CompressedColoring, problem: P) -> bool {
    &&& canonical(c)
    &&& c.spec_n_colors() == problem.spec_n_colors()
    &&& c.decoded().len() < problem.spec_bound()
    &&& legal_sequence(
        problem.spec_equation(),
        problem.spec_n_colors(),
        problem.spec_bound(),
        c.decoded(),
    )
}

/// Every sample of `s` packs a legal sequence of `problem`.
pub open spec fn legal_samples<P: SequenceProblem>(s: Seq<CompressedColoring>, problem: P) -> bool {
    forall|i: int| 0 <= i < s.len() ==> legal_sample(#[trigger] s[i], problem)
}

/// Draws random partial playouts of `problem`, packs each and adds it to
/// `samples`, until `samples` holds `target` samples or `max_draws` draws
/// have been made; returns the number of draws.
pub fn draw_samples<P: SequenceProblem + Copy>(
    samples: &mut SampleSet,
    problem: P,
    target: usize,
    max_draws: usize,
    rng: &mut ThreadRng,
) -> (drawn: usize)
    requires
        old(samples).wf(),
    ensures
        final(samples).wf(),
        legal_samples(old(samples)@, problem) ==> legal_samples(final(samples)@, problem),
        forall|i: int|
            old(samples)@.len() <= i < final(samples)@.len() ==> legal_sample(
                #[trigger] final(samples)@[i],
                problem,
            ),
        final(samples)@.len() >= old(samples)@.len(),
        final(samples)@.subrange(0, old(samples)@.len() as int) == old(samples)@,
        final(samples)@.len() <= old(samples)@.len() + max_draws,
        old(samples)@.len() < target ==> final(samples)@.len() <= target,
        old(samples)@.len() >= target ==> final(samples)@ == old(samples)@,
        drawn <= max_draws,
        final(samples)@.len() < target ==> drawn == max_draws,
        old(samples)@.len() < target ==> 0 < drawn || max_draws == 0,
        old(samples)@.len() == 0 && 0 < target && 0 < max_draws ==> final(samples)@.len() > 0,
{
    let mut drawn: usize = 0;
    while drawn < max_draws && samples.len() < target
        invariant
            samples.wf(),
            legal_samples(old(samples)@, problem) ==> legal_samples(samples@, problem),
            forall|i: int|
                old(samples)@.len() <= i < samples@.len() ==> legal_sample(
                    #[trigger] samples@[i],
                    problem,
                ),
            drawn <= max_draws,
            samples@.len() <= old(samples)@.len() + drawn,
            samples@.len() >= old(samples)@.len(),
            samples@.subrange(0, old(samples)@.len() as int) == old(samples)@,
            old(samples)@.len() < target ==> samples@.len() <= target,
            old(samples)@.len() >= target ==> samples@ == old(samples)@,
            old(samples)@.len() >= target ==> drawn == 0,
            old(samples)@.len() == 0 && 0 < drawn ==> samples@.len() > 0,
        decreases max_draws - drawn,
    {
        let coloring = Coloring::random_partial(problem, rng);
        let compressed = CompressedColoring::from_coloring(&coloring);
        let ghost before = samples@;
        let added = samples.insert(compressed);
        proof {
            if added {
                assert(legal_sample(compressed, problem));
                if legal_samples(old(samples)@, problem) {
                    assert forall|i: int| 0 <= i < samples@.len() implies legal_sample(
                        #[trigger] samples@[i],
                        problem,
                    ) by {
                        if i < before.len() {
                            assert(samples@[i] == before[i]);
                        }
                    }
                }
                assert forall|i: int| old(samples)@.len() <= i < samples@.len() implies legal_sample(
                    #[trigger] samples@[i],
                    problem,
                ) by {
                    if i < before.len() {
                        assert(samples@[i] == before[i]);
                    }
                }
                assert(samples@.subrange(0, old(samples)@.len() as int) =~= old(samples)@) by {
                    assert(before.subrange(0, old(samples)@.len() as int) == old(samples)@);
                }
            }
        }
        drawn += 1;
    }
    drawn
}

/// The collector of a multi-worker run: merges the batches the workers send
/// and tells, exactly once, when the workers should stop.
pub struct Collector {
    samples: SampleSet,
    target: usize,
    stop_sent: bool,
}

impl Collector {
    pub closed spec fn spec_samples(&self) -> Seq<CompressedColoring> {
        self.samples@
    }

    pub closed spec fn spec_target(&self) -> nat {
        self.target as nat
    }

    pub closed spec fn spec_stop_sent(&self) -> bool {
        self.stop_sent
    }

    /// The samples are distinct, and the stop was sent only once the target
    /// was reached.
    pub closed spec fn wf(&self) -> bool {
        &&& self.samples.wf()
        &&& self.stop_sent ==> self.samples@.len() >= self.target
    }

    /// A collector for `target` samples that has received nothing.
    pub fn new(target: usize) -> (r: Collector)
        ensures
            r.wf(),
            r.spec_samples() == Seq::<CompressedColoring>::empty(),
            r.spec_target() == target,
            !r.spec_stop_sent(),
    {
        Collector { samples: SampleSet::new(), target, stop_sent: false }
    }

    /// Merges `batch`; returns whether the workers must be told to stop now,
    /// which is the case the first time the merged set reaches the target.
    pub fn receive(&mut self, batch: SampleSet) -> (stop_now: bool)
        requires
            old(self).wf(),
        ensures
            final(self).wf(),
            final(self).spec_target() == old(self).spec_target(),
            stop_now == (!old(self).spec_stop_sent() && final(self).spec_samples().len()
                >= old(self).spec_target()),
            final(self).spec_stop_sent() == (old(self).spec_stop_sent() || stop_now),
            final(self).spec_samples().subrange(0, old(self).spec_samples().len() as int)
                == old(self).spec_samples(),
            forall|i: int|
                0 <= i < batch@.len() ==> holds_sample(
                    final(self).spec_samples(),
                    #[trigger] batch@[i],
                ),
            forall|i: int|
                0 <= i < final(self).spec_samples().len() ==> old(self).spec_samples().contains(
                    #[trigger] final(self).spec_samples()[i],
                ) || batch@.contains(final(self).spec_samples()[i]),
    {
        self.samples.extend(batch);
        if !self.stop_sent && self.samples.len() >= self.target {
            self.stop_sent = true;
            true
        } else {
            false
        }
    }

    /// Whether the stop has been sent.
    pub fn stop_sent(&self) -> (r: bool)
        ensures
            r == self.spec_stop_sent(),
    {
        self.stop_sent
    }

    /// Number of distinct samples merged so far.
    pub fn len(&self) -> (r: usize)
        ensures
            r == self.spec_samples().len(),
    {
        self.samples.len()
    }

    /// The merged samples.
    pub fn into_samples(self) -> (r: SampleSet)
        requires
            self.wf(),
        ensures
            r.wf(),
            r@ == self.spec_samples(),
            self.spec_stop_sent() ==> r@.len() >= self.spec_target(),
    {
        self.samples
    }
}

/// The dataset of a batch of samples: the samples padded to one word count,
/// their lengths, and the legal-move mask at each one's frontier, row for
/// row. Fails if some sample is not a legal play of `problem`.
pub fn generate_labels<P: SequenceProblem + Copy>(
    problem: P,
    colorings: Vec<CompressedColoring>,
) -> (r: Result<(Vec<CompressedColoring>, Vec<u32>, Vec<Vec<bool>>), PlayError>)
    requires
        colorings@.len() > 0,
        forall|i: int| 0 <= i < colorings@.len() ==> (#[trigger] colorings@[i]).wf(),
    ensures
        r is Ok <==> forall|i: int|
            0 <= i < colorings@.len() ==> legal_sequence(
                problem.spec_equation(),
                problem.spec_n_colors(),
                problem.spec_bound(),
                (#[trigger] colorings@[i]).decoded(),
            ),
        r matches Ok((rows, sizes, masks)) ==> {
            &&& rows@.len() == colorings@.len()
            &&& sizes@.len() == colorings@.len()
            &&& masks@.len() == colorings@.len()
            &&& forall|i: int|
                0 <= i < colorings@.len() ==> {
                    &&& padded_from(
                        #[trigger] rows@[i],
                        colorings@[i],
                        longest_words(colorings@),
                    )
                    &&& sizes@[i] == colorings@[i].spec_size()
                    &&& masks@[i]@ == move_mask(
                        problem.spec_equation(),
                        problem.spec_n_colors(),
                        problem.spec_bound(),
                        colorings@[i].decoded(),
                    )
                }
        },
{
    let labels = label_generation(problem, &colorings);
    match labels {
        Ok((sizes, masks)) => {
            let mut rows = colorings;
            CompressedColoring::pad_to_longest(&mut rows);
            Ok((rows, sizes, masks))
        },
        Err(e) => Err(e),
    }
}

} // verus!
