//! Near-duplicate span detection over integer token sequences.
//!
//! A document and a query are sequences of 32-bit tokens. The library decides
//! whether the document contains a contiguous span whose weighted (multiset)
//! Jaccard similarity to the query reaches a threshold. A scan combines a
//! cheap n-gram fingerprint prefilter with an exact similarity check on
//! candidate windows; similarity values are exact rationals, given as an
//! intersection weight over a union weight, and thresholds are rational
//! pairs `num / den`.

pub mod fingerprint;
pub mod rolling;
pub mod scan;
pub mod similarity;

pub use fingerprint::{ngram, ngram_rolling};
pub use rolling::RollingHash;
pub use scan::{has_doc_duplicate, has_doc_duplicate_naive, has_doc_duplicate_rolling};
pub use similarity::{ratio_at_least, weighted_jaccard};
