//! The ranking methods that can order search results.
use vstd::prelude::*;

verus! {

/// Which ranker a search uses.
#[derive(Debug, Clone, Copy, PartialEq, Eq)]
pub enum RankerKind {
    Tfidf,
    Bm25,
}

/// The name of a ranker kind.
pub open spec fn ranker_label(kind: RankerKind) -> Seq<char> {
    match kind {
        RankerKind::Tfidf => seq!['t', 'f', 'i', 'd', 'f'],
        RankerKind::Bm25 => seq!['b', 'm', '2', '5'],
    }
}

impl RankerKind {
    pub fn label(self) -> (r: &'static str)
        ensures
            r@ == ranker_label(self),
    {
        match self {
            RankerKind::Tfidf => {
                proof {
                    reveal_strlit("tfidf");
                }
                "tfidf"
            },
            RankerKind::Bm25 => {
                proof {
                    reveal_strlit("bm25");
                }
                "bm25"
            },
        }
    }
}

/// Term frequency times smoothed inverse document frequency.
#[derive(Debug, Default, Clone, Copy)]
pub struct TfIdfRanker;

impl TfIdfRanker {
    /// The ranker's name, as results report it.
    pub fn name(&self) -> (r: &'static str)
        ensures
            r@ == ranker_label(RankerKind::Tfidf),
    {
        RankerKind::Tfidf.label()
    }
}

} // verus!
