//! Greedy induction of a binary decision tree over categorical records.
//!
//! Records carry a two-valued class label and a fixed number of categorical
//! codes. A group of records is split by questions of the form "is the code at
//! facet `f` one of these values?", the question with the least weighted Gini
//! impurity wins, and the parts are split again until every leaf is pure.
pub mod choice;
pub mod impurity;
pub mod names;
pub mod question;
pub mod records;
pub mod render;
pub mod seqs;
pub mod split;
pub mod tree;

pub use choice::best_answer;
pub use impurity::{Impurity, Node};
pub use question::{questions, Question};
pub use records::{facet_vals, Mush, MAX_FACET_VALUES, MAX_RECORDS, NUM_FACETS};
pub use split::Answer;
pub use tree::{build_tree, Branch, BuildError, Page};
