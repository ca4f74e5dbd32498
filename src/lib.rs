//! Generation of labelled training samples for sequence-colouring problems
//! of Schur type: legal-move tracking, a fixed-radix packed encoding of colour
//! sequences, deduplicated sampling and label replay.

pub mod codec;
pub mod coloring;
pub mod compressed_coloring;
pub mod generation;
pub mod labels;
pub mod legality;
pub mod problems;
mod random;
pub mod samples;
pub mod sequence_coloring;

pub use coloring::Coloring;
pub use compressed_coloring::CompressedColoring;
pub use generation::{draw_samples, generate_labels, Collector};
pub use labels::{label_generation, replay};
pub use legality::Equation;
pub use problems::{Problem, Schur, SequenceProblem, UpperBound, VanDerWaerden, WeakSchur};
pub use samples::SampleSet;
pub use sequence_coloring::{PlayError, SequenceColoring, SequenceColoringIntoIter};
