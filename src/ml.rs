//! The learning interfaces: classifiers and black-box optimizers.
use vstd::prelude::*;

verus! {

/// Something that learns to map inputs to labels.
pub trait Classifier {
    type Input;

    type Label;

    /// Learns from `samples`, the `i`-th of which has label `labels[i]`.
    fn train(&mut self, samples: &[Self::Input], labels: &[Self::Label]);

    /// The label predicted for `input`.
    fn classify(&self, input: &Self::Input) -> Self::Label;
}

/// Something that searches for an input with a high score.
pub trait Optimizer {
    type Input;

    type Score;

    /// Returns the best input found for the scoring function `f`.
    fn optimize<F: Fn(Self::Input) -> Self::Score>(&self, f: F) -> Self::Input;
}

/// A naive Bayes classifier over `k` classes.
pub struct NaiveBayes {
    k: usize,
}

impl NaiveBayes {
    /// Creates a classifier over `k` classes.
    pub fn new(k: usize) -> (r: Self)
        ensures
            r.classes() == k,
    {
        NaiveBayes { k }
    }

    /// The number of classes.
    pub closed spec fn classes(&self) -> nat {
        self.k as nat
    }
}

} // verus!
