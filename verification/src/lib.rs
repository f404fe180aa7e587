//! Statistical fault localization from line-coverage reports.
//!
//! Coverage reports of passing and of failing test runs are read into
//! records, counted per source statement, scored with the DStar metric and
//! ranked, the most suspicious statement first.

use vstd::prelude::*;

pub mod coverage;
pub mod statement;
pub mod ranking;
pub mod pipeline;

pub use crate::coverage::{parse_gcov_file, parse_gcov_line, Coverage, LineInfo, ParseError};
pub use crate::pipeline::{
    add_tests_to_statements,
    first_line_mismatch,
    initial_statements,
    rank,
    score_statements,
    RankError,
};
pub use crate::ranking::{comes_before, rank_statements};
pub use crate::statement::{add_test_to_statements, Score, StatementInfo};

verus! {

} // verus!
