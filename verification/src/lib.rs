//! Synthesis and scoring of character-to-code encoding schemes: random code
//! tables with frequency-ranked short-code disambiguation, length-bounded
//! sentence encoding, and edit-distance scoring of decoded output, bucketed
//! by sentence length and mergeable across runs.

pub mod corpus;
pub mod distance;
pub mod encoder;
pub mod lookup;
mod random;
pub mod repertoire;
pub mod scorer;
pub mod stats;
pub mod table;

pub use distance::levenshtein_distance;
pub use stats::Statistics;
pub use table::arrange_short_code;
