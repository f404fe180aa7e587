//! Per-statement pass/fail counts and the DStar score drawn from them.

use vstd::prelude::*;
use crate::coverage::{Coverage, LineInfo};

verus! {

/// A suspiciousness score, held as the exact fraction
/// `numerator / denominator`.
///
/// A positive numerator over a zero denominator is positive infinity, the
/// highest score there is. Zero over zero has no value.
#[derive(Debug, Clone, Copy)]
pub struct Score {
    pub numerator: u64,
    pub denominator: u64,
}

impl Score {
    /// Zero over zero: the score of a statement that no report speaks of.
    pub open spec fn is_undefined(self) -> bool {
        self.numerator == 0 && self.denominator == 0
    }

    /// A positive numerator over zero.
    pub open spec fn is_infinite(self) -> bool {
        self.numerator > 0 && self.denominator == 0
    }

    /// Whether this score is at least as high as `other`, both having a value.
    pub open spec fn at_least(self, other: Score) -> bool {
        if self.is_infinite() {
            true
        } else if other.is_infinite() {
            false
        } else {
            self.numerator * other.denominator >= other.numerator * self.denominator
        }
    }

    /// Whether the two scores are the same number.
    pub open spec fn same_as(self, other: Score) -> bool {
        self.at_least(other) && other.at_least(self)
    }

    /// Tells whether the score has no value.
    pub fn has_no_value(&self) -> (r: bool)
        ensures
            r == self.is_undefined(),
    {
        self.numerator == 0 && self.denominator == 0
    }

    /// Tells whether the score is positive infinity.
    pub fn is_infinity(&self) -> (r: bool)
        ensures
            r == self.is_infinite(),
    {
        self.numerator > 0 && self.denominator == 0
    }

    /// Compares two scores that have a value.
    pub fn is_at_least(&self, other: &Score) -> (r: bool)
        requires
            !self.is_undefined(),
            !other.is_undefined(),
        ensures
            r == self.at_least(*other),
    {
        if self.denominator == 0 {
            true
        } else if other.denominator == 0 {
            false
        } else {
            let left_num: u128 = self.numerator as u128;
            let left_den: u128 = self.denominator as u128;
            let right_num: u128 = other.numerator as u128;
            let right_den: u128 = other.denominator as u128;
            assert(left_num * right_den <= 0xFFFF_FFFF_FFFF_FFFF * 0xFFFF_FFFF_FFFF_FFFF)
                by (nonlinear_arith)
                requires
                    left_num <= 0xFFFF_FFFF_FFFF_FFFF,
                    right_den <= 0xFFFF_FFFF_FFFF_FFFF,
            ;
            assert(right_num * left_den <= 0xFFFF_FFFF_FFFF_FFFF * 0xFFFF_FFFF_FFFF_FFFF)
                by (nonlinear_arith)
                requires
                    right_num <= 0xFFFF_FFFF_FFFF_FFFF,
                    left_den <= 0xFFFF_FFFF_FFFF_FFFF,
            ;
            left_num * right_den >= right_num * left_den
        }
    }
}

/// The DStar score, with exponent 2, of a statement that `failed` of the
/// `total_failed` failing tests and `passed` passing tests ran:
/// `failed² / (passed + total_failed − failed)`.
pub open spec fn dstar(passed: nat, failed: nat, total_failed: nat) -> Score {
    Score {
        numerator: (failed * failed) as u64,
        denominator: (passed + total_failed - failed) as u64,
    }
}

/// One source statement with its counts over all test runs.
#[derive(Debug)]
pub struct StatementInfo {
    pub line_number: u32,
    pub statement: String,
    pub failed_tests: u32,
    pub passed_tests: u32,
    pub total_failed: u32,
    pub suspiciousness: Score,
}

/// The mathematical value of a [`StatementInfo`].
pub struct StatementRecord {
    pub line_number: u32,
    pub statement: Seq<char>,
    pub failed_tests: nat,
    pub passed_tests: nat,
    pub total_failed: nat,
    pub suspiciousness: Score,
}

impl View for StatementInfo {
    type V = StatementRecord;

    open spec fn view(&self) -> StatementRecord {
        StatementRecord {
            line_number: self.line_number,
            statement: self.statement@,
            failed_tests: self.failed_tests as nat,
            passed_tests: self.passed_tests as nat,
            total_failed: self.total_failed as nat,
            suspiciousness: self.suspiciousness,
        }
    }
}

impl StatementRecord {
    /// The record after one more test that ran the statement.
    pub open spec fn counted(self, is_passing: bool) -> StatementRecord {
        if is_passing {
            StatementRecord { passed_tests: self.passed_tests + 1, ..self }
        } else {
            StatementRecord { failed_tests: self.failed_tests + 1, ..self }
        }
    }

    /// The record after one report that saw the statement in state `coverage`.
    pub open spec fn with_coverage(self, coverage: Coverage, is_passing: bool) -> StatementRecord {
        if coverage == Coverage::Covered {
            self.counted(is_passing)
        } else {
            self
        }
    }

    /// The record with the score that its counts give.
    pub open spec fn scored(self) -> StatementRecord {
        StatementRecord {
            suspiciousness: dstar(self.passed_tests, self.failed_tests, self.total_failed),
            ..self
        }
    }
}

/// Scoring a statement again changes nothing.
pub proof fn lemma_scoring_is_idempotent(r: StatementRecord)
    ensures
        r.scored().scored() == r.scored(),
{
}

/// The counts of a statement do not depend on the order in which two
/// reports are counted.
pub proof fn lemma_counting_commutes(
    r: StatementRecord,
    first: Coverage,
    first_passing: bool,
    second: Coverage,
    second_passing: bool,
)
    ensures
        r.with_coverage(first, first_passing).with_coverage(second, second_passing)
            == r.with_coverage(second, second_passing).with_coverage(first, first_passing),
{
}

/// The records that a sequence of [`StatementInfo`] stands for.
pub open spec fn statements_of(statements: Seq<StatementInfo>) -> Seq<StatementRecord> {
    Seq::new(statements.len(), |i: int| statements[i]@)
}

impl StatementInfo {
    /// A statement that no test has run yet, with a score of zero.
    pub fn new(line_number: u32, statement: String, total_failed: u32) -> (r: StatementInfo)
        ensures
            r@ == (StatementRecord {
                line_number,
                statement: statement@,
                failed_tests: 0,
                passed_tests: 0,
                total_failed: total_failed as nat,
                suspiciousness: Score { numerator: 0, denominator: 1 },
            }),
    {
        StatementInfo {
            line_number,
            statement,
            failed_tests: 0,
            passed_tests: 0,
            total_failed,
            suspiciousness: Score { numerator: 0, denominator: 1 },
        }
    }

    /// Counts one more passing test that ran the statement.
    pub fn add_passing_coverage(&mut self)
        requires
            old(self).passed_tests < u32::MAX,
        ensures
            final(self)@ == old(self)@.counted(true),
    {
        self.passed_tests += 1;
    }

    /// Counts one more failing test that ran the statement.
    pub fn add_failing_coverage(&mut self)
        requires
            old(self).failed_tests < u32::MAX,
        ensures
            final(self)@ == old(self)@.counted(false),
    {
        self.failed_tests += 1;
    }

    /// Sets the score to the DStar value of the present counts. The counts
    /// stay as they are, so a second call changes nothing.
    pub fn calculate_suspiciousness(&mut self)
        requires
            old(self).failed_tests <= old(self).total_failed,
        ensures
            final(self)@ == old(self)@.scored(),
    {
        let failed: u64 = self.failed_tests as u64;
        let passed: u64 = self.passed_tests as u64;
        let total_failed: u64 = self.total_failed as u64;
        assert(failed * failed <= 0xFFFF_FFFF * 0xFFFF_FFFF) by (nonlinear_arith)
            requires
                failed <= 0xFFFF_FFFF,
        ;
        self.suspiciousness =
        Score { numerator: failed * failed, denominator: passed + total_failed - failed };
    }
}

/// Folds one report into the table: every statement that the report saw
/// covered counts one more passing, or failing, test. The report must pair
/// with the table position by position.
pub fn add_test_to_statements(
    statements: &mut Vec<StatementInfo>,
    tests: &Vec<LineInfo>,
    is_passing: bool,
)
    requires
        old(statements)@.len() == tests@.len(),
        forall|i: int|
            0 <= i < tests@.len() && tests@[i].coverage == Coverage::Covered ==> if is_passing {
                (#[trigger] old(statements)@[i]).passed_tests < u32::MAX
            } else {
                old(statements)@[i].failed_tests < u32::MAX
            },
    ensures
        final(statements)@.len() == old(statements)@.len(),
        forall|i: int|
            0 <= i < tests@.len() ==> (#[trigger] final(statements)@[i])@ == old(
                statements,
            )@[i]@.with_coverage(tests@[i].coverage, is_passing),
{
    let n = statements.len();
    let mut i: usize = 0;
    while i < n
        invariant
            i <= n,
            n == tests@.len(),
            statements@.len() == n,
            old(statements)@.len() == n,
            forall|k: int|
                0 <= k < n && tests@[k].coverage == Coverage::Covered ==> if is_passing {
                    (#[trigger] old(statements)@[k]).passed_tests < u32::MAX
                } else {
                    old(statements)@[k].failed_tests < u32::MAX
                },
            forall|k: int|
                0 <= k < i ==> (#[trigger] statements@[k])@ == old(statements)@[k]@.with_coverage(
                    tests@[k].coverage,
                    is_passing,
                ),
            forall|k: int| i <= k < n ==> #[trigger] statements@[k] == old(statements)@[k],
        decreases n - i,
    {
        if tests[i].coverage == Coverage::Covered {
            if is_passing {
                statements[i].add_passing_coverage();
            } else {
                statements[i].add_failing_coverage();
            }
        }
        i += 1;
    }
}

} // verus!
