//! Constraint propagation and backtracking search for 9×9 digit grids.
//!
//! A [`State`] holds the candidates of the 81 cells and the trail that undoes
//! narrowings. A [`Constraint`] narrows the state by its rule. The [`Engine`] runs the
//! rules to a fixpoint and searches depth first where propagation alone does not
//! finish the grid. Each function is specified against a model on plain sequences,
//! and the modules `solutions` and `fixpoint` prove what the models mean: the rules
//! remove no solution, and the search reports a solution exactly when there is one.

pub mod types;
pub mod domain;
pub mod state;
pub mod constraints;
pub mod engine;
pub mod search;
pub mod givens;
pub mod groups;
pub mod solutions;
pub mod fixpoint;

pub use constraints::Constraint;
pub use engine::Engine;
pub use givens::LoadError;
pub use groups::{add_all_sudoku_constraints, add_kropki_black, add_kropki_white};
pub use state::State;
pub use types::{
    box_of, col_of, row_of, CellIx, Contradiction, Domain, RuleError, Solve, DIGITS_MASK,
    EVEN_MASK, N, NN,
};
