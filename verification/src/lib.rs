//! Ranked tags for an image: the decisions of a two-stage tagger.
//!
//! A network scores a vocabulary of general tags, and a linear model derives
//! scores for a vocabulary of character tags from them. This library holds
//! what stands between those computations: it prepares the image, selects and
//! ranks the tags, and assembles the prediction. Scores are carried as the
//! bit patterns of single-precision numbers.
//!
//! - `raster`: images, and how one is resampled, padded and laid out for the
//!   network;
//! - `score`: the total order of scores, and the threshold of one half;
//! - `select`: the selection of the highest scores;
//! - `classifier`: the stages of a prediction;
//! - `topk`: the greatest items of any ordered collection;
//! - `service` and `table`: rules of the service and pieces of the terminal
//!   output that are built around a classifier.

use vstd::prelude::*;

pub use classifier::{Classifier, Params, Prediction, Tag};

pub mod classifier;
pub mod raster;
pub mod score;
pub mod select;
pub mod service;
pub mod table;
pub mod topk;

verus! {

/// Why a prediction, or the construction of a classifier, failed.
#[derive(Debug, Clone, Copy, PartialEq, Eq, Structural)]
pub enum Error {
    /// The parts of a model do not agree with each other.
    Load,
    /// A vocabulary does not agree with the shape of a model.
    ConfigMismatch,
    /// A model handed back a vector of the wrong length.
    Inference,
    /// The resampled image neither equals the target nor matches it on one
    /// side while staying within it on the other.
    Resize,
}

} // verus!
