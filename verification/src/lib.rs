//! Feature importance for categorical predictors and a boolean response:
//! a random forest of classification trees with permutation importance,
//! and the bookkeeping of the Boruta feature-selection procedure.
//!
//! - [`random_number_generator`]: the generator, its streams, and
//!   reservoir sampling.
//! - [`mask`]: rows in ascending order.
//! - [`data_interface`]: columns, the response, and tables of columns.
//! - [`gini`]: exact partition impurity.
//! - [`tree`]: growing a tree, predicting with it, and the importance it
//!   gives the columns, with predictions cached for permuted columns.
//! - [`random_forest`]: the trees of a forest, one after the other.
//! - [`boruta`]: tentative, confirmed and rejected columns.
//!
//! Every function here is verified against its contract; the one contract
//! that is taken on trust is that of the sort of the standard library, in
//! [`mask`]. No function computes with floating-point numbers: impurities
//! and shares are exact ratios, uniform numbers are handed out as the bits
//! they are made from, and the logarithms of reservoir sampling are handed
//! in by the caller.

pub mod boruta;
pub mod data_interface;
pub mod gini;
pub mod mask;
pub mod random_forest;
pub mod random_number_generator;
pub mod tree;
