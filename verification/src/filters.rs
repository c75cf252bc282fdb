//! Filters: which documents a query finds.

use vstd::prelude::*;
use crate::key_builder::{KeyBuilder, Path};

verus! {

/// How a text of the document is compared with a literal.
#[derive(Debug, Clone, Copy, PartialEq, Eq, Structural)]
pub enum Operator {
    /// The text is the literal, as it is written.
    Exact,
    /// The text holds the words of the literal, one behind the other.
    Stemmed,
    /// The text holds the words of the literal, at most this far apart.
    Distance(i64),
}

/// The comparison of the texts on a path with a literal.
#[derive(Debug)]
pub struct Comparison {
    pub operator: Operator,
    pub literal: String,
    pub kb: KeyBuilder,
}

/// A filter: a comparison, or two filters of which a document has to meet both or one.
/// The path of a pair is the one on which both were read.
#[derive(Debug)]
pub enum Filter {
    Compare(Comparison),
    And(Box<Filter>, Box<Filter>, KeyBuilder),
    Or(Box<Filter>, Box<Filter>, KeyBuilder),
}

/// The mathematical form of a `Filter`.
pub enum FilterView {
    Compare { operator: Operator, literal: Seq<char>, path: Path },
    And(Box<FilterView>, Box<FilterView>, Path),
    Or(Box<FilterView>, Box<FilterView>, Path),
}

/// The mathematical form of `filter`.
pub open spec fn filter_view(filter: Filter) -> FilterView
    decreases filter,
{
    match filter {
        Filter::Compare(comparison) => FilterView::Compare {
            operator: comparison.operator,
            literal: comparison.literal@,
            path: comparison.kb.deep_view(),
        },
        Filter::And(left, right, kb) => FilterView::And(
            Box::new(filter_view(*left)),
            Box::new(filter_view(*right)),
            kb.deep_view(),
        ),
        Filter::Or(left, right, kb) => FilterView::Or(
            Box::new(filter_view(*left)),
            Box::new(filter_view(*right)),
            kb.deep_view(),
        ),
    }
}

impl DeepView for Filter {
    type V = FilterView;

    open spec fn deep_view(&self) -> FilterView {
        filter_view(*self)
    }
}

/// The filter of one comparison, over the stems of the words of its literal.
#[derive(Debug)]
pub enum TermFilter<S> {
    /// The text has this one word as it is written.
    ExactMatch { stem: S, kb: KeyBuilder },
    /// The text has each of these words as it is written.
    ExactMatchAll { stems: Vec<S>, kb: KeyBuilder },
    /// The text has this one stem.
    StemmedWord { stem: S, kb: KeyBuilder },
    /// The text has these stems one behind the other.
    StemmedPhrase { stems: Vec<S>, kb: KeyBuilder },
    /// The text has these stems at most `distance` apart.
    Distance { stems: Vec<S>, kb: KeyBuilder, distance: i64 },
}

impl Comparison {
    /// Makes the filter of the comparison from the stems of the words of its literal, of
    /// which there has to be one at least. A single word needs no more than a look-up,
    /// save under a distance.
    pub fn with_stems<S>(self, stems: Vec<S>) -> (r: TermFilter<S>)
        requires
            stems@.len() > 0,
        ensures
            match self.operator {
                Operator::Exact => if stems@.len() == 1 {
                    r == (TermFilter::ExactMatch { stem: stems@[0], kb: self.kb })
                } else {
                    r == (TermFilter::ExactMatchAll { stems, kb: self.kb })
                },
                Operator::Stemmed => if stems@.len() == 1 {
                    r == (TermFilter::StemmedWord { stem: stems@[0], kb: self.kb })
                } else {
                    r == (TermFilter::StemmedPhrase { stems, kb: self.kb })
                },
                Operator::Distance(distance) => r == (TermFilter::Distance {
                    stems,
                    kb: self.kb,
                    distance,
                }),
            },
    {
        let mut stems = stems;
        let kb = self.kb;
        match self.operator {
            Operator::Exact => {
                if stems.len() == 1 {
                    let stem = stems.swap_remove(0);
                    TermFilter::ExactMatch { stem, kb }
                } else {
                    TermFilter::ExactMatchAll { stems, kb }
                }
            },
            Operator::Stemmed => {
                if stems.len() == 1 {
                    let stem = stems.swap_remove(0);
                    TermFilter::StemmedWord { stem, kb }
                } else {
                    TermFilter::StemmedPhrase { stems, kb }
                }
            },
            Operator::Distance(distance) => TermFilter::Distance { stems, kb, distance },
        }
    }
}

} // verus!
