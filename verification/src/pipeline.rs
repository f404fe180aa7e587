//! From the reports of all test runs to the ranked statements.

use vstd::prelude::*;
use crate::coverage::{records_of, Coverage, LineInfo, LineRecord};
use crate::ranking::{
    all_scores_defined,
    is_ranked,
    lemma_ranked_member,
    rank_statements,
    ranked,
};
use crate::statement::{
    add_test_to_statements,
    dstar,
    statements_of,
    Score,
    StatementInfo,
    StatementRecord,
};

verus! {

/// Why a set of reports cannot be ranked.
#[derive(Debug, Clone, Copy, PartialEq, Eq, Structural)]
pub enum RankError {
    /// There is no passing report, so nothing names the statements.
    NoPassingReports,
    /// There are more reports of one kind than a 32-bit count can hold.
    TooManyReports,
    /// A report does not pair with the statements: it has another number of
    /// records, or another line number at some position. `report` counts the
    /// passing or the failing reports from zero, and `position` is the first
    /// place where the report and the statements part.
    MisalignedReport { passing: bool, report: usize, position: usize },
    /// A statement that no test ran, with no failing test at all, has a score
    /// of zero over zero.
    UndefinedScore,
}

/// The statement that a baseline record starts as.
pub open spec fn fresh_statement(r: LineRecord, total_failed: nat) -> StatementRecord {
    StatementRecord {
        line_number: r.line_number,
        statement: r.statement,
        failed_tests: 0,
        passed_tests: 0,
        total_failed,
        suspiciousness: Score { numerator: 0, denominator: 1 },
    }
}

/// The table that a baseline report starts: one fresh statement for each
/// record that has executable code, in report order.
pub open spec fn initial_table(baseline: Seq<LineRecord>, total_failed: nat) -> Seq<
    StatementRecord,
>
    decreases baseline.len(),
{
    if baseline.len() == 0 {
        Seq::empty()
    } else if baseline.last().coverage == Coverage::NoExecutableCode {
        initial_table(baseline.drop_last(), total_failed)
    } else {
        initial_table(baseline.drop_last(), total_failed).push(
            fresh_statement(baseline.last(), total_failed),
        )
    }
}

/// The table after one report, which pairs with it position by position.
pub open spec fn fold_report(
    table: Seq<StatementRecord>,
    report: Seq<LineRecord>,
    is_passing: bool,
) -> Seq<StatementRecord> {
    Seq::new(table.len(), |i: int| table[i].with_coverage(report[i].coverage, is_passing))
}

/// The table after all of `reports`, folded in one after the other.
pub open spec fn fold_reports(
    table: Seq<StatementRecord>,
    reports: Seq<Seq<LineRecord>>,
    is_passing: bool,
) -> Seq<StatementRecord>
    decreases reports.len(),
{
    if reports.len() == 0 {
        table
    } else {
        fold_report(fold_reports(table, reports.drop_last(), is_passing), reports.last(), is_passing)
    }
}

/// The line numbers of a table, in order.
pub open spec fn line_numbers_of(table: Seq<StatementRecord>) -> Seq<u32> {
    Seq::new(table.len(), |i: int| table[i].line_number)
}

/// Whether a report pairs with the statements of these line numbers: it has
/// one record for each, with the same line number at the same position.
pub open spec fn pairs_with(lines: Seq<u32>, report: Seq<LineRecord>) -> bool {
    report.len() == lines.len() && forall|i: int|
        0 <= i < lines.len() ==> (#[trigger] report[i]).line_number == lines[i]
}

/// Whether every report pairs with the statements of these line numbers.
pub open spec fn all_aligned(reports: Seq<Seq<LineRecord>>, lines: Seq<u32>) -> bool {
    forall|i: int| 0 <= i < reports.len() ==> pairs_with(lines, #[trigger] reports[i])
}

/// The first position at or after `from` where a report and the statements
/// of these line numbers part: one of the two ends there, or the line
/// numbers differ.
pub open spec fn first_mismatch(lines: Seq<u32>, report: Seq<LineRecord>, from: int) -> int
    decreases lines.len() - from,
{
    if from >= lines.len() || from >= report.len() || report[from].line_number != lines[from] {
        from
    } else {
        first_mismatch(lines, report, from + 1)
    }
}

/// The first report at or after `from` that does not pair with the
/// statements of these line numbers, or the number of reports.
pub open spec fn misaligned_from(reports: Seq<Seq<LineRecord>>, lines: Seq<u32>, from: int) -> int
    decreases reports.len() - from,
{
    if from >= reports.len() || !pairs_with(lines, reports[from]) {
        from
    } else {
        misaligned_from(reports, lines, from + 1)
    }
}

/// The error that names the first report of `reports` that does not pair.
pub open spec fn misalignment(
    reports: Seq<Seq<LineRecord>>,
    lines: Seq<u32>,
    passing: bool,
) -> RankError {
    let k = misaligned_from(reports, lines, 0);
    RankError::MisalignedReport {
        passing,
        report: k as usize,
        position: first_mismatch(lines, reports[k], 0) as usize,
    }
}

/// Whether `after` is `before` with at most `bound` more tests of one kind
/// counted, and nothing else changed.
pub open spec fn counted_up_to(
    before: StatementRecord,
    after: StatementRecord,
    is_passing: bool,
    bound: nat,
) -> bool {
    if is_passing {
        before.passed_tests <= after.passed_tests <= before.passed_tests + bound && after == (
        StatementRecord { passed_tests: after.passed_tests, ..before })
    } else {
        before.failed_tests <= after.failed_tests <= before.failed_tests + bound && after == (
        StatementRecord { failed_tests: after.failed_tests, ..before })
    }
}

/// Whether report `k` is the first that does not pair with the statements
/// of these line numbers.
pub open spec fn first_misaligned(reports: Seq<Seq<LineRecord>>, lines: Seq<u32>, k: int) -> bool {
    0 <= k < reports.len() && !pairs_with(lines, reports[k]) && all_aligned(reports.take(k), lines)
}

/// The table with every statement scored from its counts.
pub open spec fn score_all(table: Seq<StatementRecord>) -> Seq<StatementRecord> {
    Seq::new(table.len(), |i: int| table[i].scored())
}

/// The reports that a sequence of parsed reports stands for.
pub open spec fn reports_of(reports: Seq<Vec<LineInfo>>) -> Seq<Seq<LineRecord>> {
    Seq::new(reports.len(), |i: int| records_of(reports[i]@))
}

/// The scored table of a run: the first passing report names the
/// statements, then every passing and every failing report is counted.
pub open spec fn scored_table(
    passing: Seq<Seq<LineRecord>>,
    failing: Seq<Seq<LineRecord>>,
) -> Seq<StatementRecord> {
    score_all(
        fold_reports(
            fold_reports(initial_table(passing[0], failing.len()), passing, true),
            failing,
            false,
        ),
    )
}

/// What ranking the reports of a run gives.
pub open spec fn rank_outcome(
    passing: Seq<Seq<LineRecord>>,
    failing: Seq<Seq<LineRecord>>,
) -> Result<Seq<StatementRecord>, RankError> {
    if passing.len() == 0 {
        Err(RankError::NoPassingReports)
    } else if passing.len() > u32::MAX || failing.len() > u32::MAX {
        Err(RankError::TooManyReports)
    } else {
        let lines = line_numbers_of(initial_table(passing[0], failing.len()));
        if !all_aligned(passing, lines) {
            Err(misalignment(passing, lines, true))
        } else if !all_aligned(failing, lines) {
            Err(misalignment(failing, lines, false))
        } else if !all_scores_defined(scored_table(passing, failing)) {
            Err(RankError::UndefinedScore)
        } else {
            Ok(ranked(scored_table(passing, failing)))
        }
    }
}

/// Whether every statement of `table` has at most `passed` passing and
/// `failed` failing tests counted, out of `total_failed` failing tests.
pub open spec fn counts_within(
    table: Seq<StatementRecord>,
    passed: nat,
    failed: nat,
    total_failed: nat,
) -> bool {
    forall|i: int|
        0 <= i < table.len() ==> {
            &&& (#[trigger] table[i]).passed_tests <= passed
            &&& table[i].failed_tests <= failed
            &&& table[i].total_failed == total_failed
        }
}

/// The first report that does not pair is the one that a search from any
/// report before it finds.
pub proof fn lemma_first_misaligned(
    reports: Seq<Seq<LineRecord>>,
    lines: Seq<u32>,
    k: int,
    from: int,
)
    requires
        first_misaligned(reports, lines, k),
        0 <= from <= k,
    ensures
        misaligned_from(reports, lines, from) == k,
    decreases k - from,
{
    if from < k {
        assert(reports.take(k)[from] == reports[from]);
        lemma_first_misaligned(reports, lines, k, from + 1);
    }
}

/// The number of reports that saw the statement at position `i` covered.
pub open spec fn covered_count(reports: Seq<Seq<LineRecord>>, i: int) -> nat
    decreases reports.len(),
{
    if reports.len() == 0 {
        0
    } else if reports.last()[i].coverage == Coverage::Covered {
        covered_count(reports.drop_last(), i) + 1
    } else {
        covered_count(reports.drop_last(), i)
    }
}

/// Folding reports in changes nothing of a statement but one count, which
/// grows by the number of reports that saw the statement covered.
pub proof fn lemma_fold_counts(
    table: Seq<StatementRecord>,
    reports: Seq<Seq<LineRecord>>,
    is_passing: bool,
    i: int,
)
    requires
        0 <= i < table.len(),
    ensures
        fold_reports(table, reports, is_passing).len() == table.len(),
        is_passing ==> fold_reports(table, reports, is_passing)[i] == (StatementRecord {
            passed_tests: table[i].passed_tests + covered_count(reports, i),
            ..table[i]
        }),
        !is_passing ==> fold_reports(table, reports, is_passing)[i] == (StatementRecord {
            failed_tests: table[i].failed_tests + covered_count(reports, i),
            ..table[i]
        }),
    decreases reports.len(),
{
    if reports.len() > 0 {
        lemma_fold_counts(table, reports.drop_last(), is_passing, i);
    }
}

/// A count of covering reports is at most the number of reports.
pub proof fn lemma_covered_count_bound(reports: Seq<Seq<LineRecord>>, i: int)
    ensures
        covered_count(reports, i) <= reports.len(),
    decreases reports.len(),
{
    if reports.len() > 0 {
        lemma_covered_count_bound(reports.drop_last(), i);
    }
}

/// A baseline whose records all have executable code starts one statement
/// for each of them.
pub proof fn lemma_initial_table_of_code(baseline: Seq<LineRecord>, total_failed: nat)
    requires
        forall|i: int|
            0 <= i < baseline.len() ==> (#[trigger] baseline[i]).coverage
                != Coverage::NoExecutableCode,
    ensures
        initial_table(baseline, total_failed).len() == baseline.len(),
        forall|i: int|
            0 <= i < baseline.len() ==> #[trigger] initial_table(baseline, total_failed)[i]
                == fresh_statement(baseline[i], total_failed),
    decreases baseline.len(),
{
    if baseline.len() > 0 {
        let front = baseline.drop_last();
        assert forall|i: int| 0 <= i < front.len() implies (#[trigger] front[i]).coverage
            != Coverage::NoExecutableCode by {
            assert(front[i] == baseline[i]);
        }
        lemma_initial_table_of_code(front, total_failed);
        assert forall|i: int| 0 <= i < baseline.len() implies #[trigger] initial_table(
            baseline,
            total_failed,
        )[i] == fresh_statement(baseline[i], total_failed) by {
            if i < front.len() {
                assert(initial_table(front, total_failed)[i] == fresh_statement(
                    front[i],
                    total_failed,
                ));
            }
        }
    }
}

/// What the scored table says of the statement at position `i`: its line
/// number and text as the baseline has them, the number of passing and of
/// failing reports that saw it covered, the number of failing reports, and
/// the score that these give.
pub proof fn lemma_scored_table_entry(
    passing: Seq<Seq<LineRecord>>,
    failing: Seq<Seq<LineRecord>>,
    i: int,
)
    requires
        passing.len() > 0,
        forall|k: int|
            0 <= k < passing[0].len() ==> (#[trigger] passing[0][k]).coverage
                != Coverage::NoExecutableCode,
        0 <= i < passing[0].len(),
    ensures
        scored_table(passing, failing).len() == passing[0].len(),
        scored_table(passing, failing)[i] == (StatementRecord {
            line_number: passing[0][i].line_number,
            statement: passing[0][i].statement,
            passed_tests: covered_count(passing, i),
            failed_tests: covered_count(failing, i),
            total_failed: failing.len(),
            suspiciousness: dstar(
                covered_count(passing, i),
                covered_count(failing, i),
                failing.len(),
            ),
        }),
        covered_count(passing, i) <= passing.len(),
        covered_count(failing, i) <= failing.len(),
{
    let start = initial_table(passing[0], failing.len());
    lemma_initial_table_of_code(passing[0], failing.len());
    assert(start[i] == fresh_statement(passing[0][i], failing.len()));
    lemma_fold_counts(start, passing, true, i);
    lemma_fold_counts(fold_reports(start, passing, true), failing, false, i);
    lemma_covered_count_bound(passing, i);
    lemma_covered_count_bound(failing, i);
}

/// Starts the table of a run from its baseline report: one statement with
/// zero counts for each record that has executable code, in report order.
pub fn initial_statements(baseline: &Vec<LineInfo>, total_failed: u32) -> (r: Vec<StatementInfo>)
    ensures
        statements_of(r@) == initial_table(records_of(baseline@), total_failed as nat),
        counts_within(statements_of(r@), 0, 0, total_failed as nat),
{
    let ghost records = records_of(baseline@);
    let mut table: Vec<StatementInfo> = Vec::new();
    let mut i: usize = 0;
    assert(statements_of(table@) =~= Seq::empty());
    while i < baseline.len()
        invariant
            i <= baseline@.len(),
            records == records_of(baseline@),
            statements_of(table@) == initial_table(records.take(i as int), total_failed as nat),
            counts_within(statements_of(table@), 0, 0, total_failed as nat),
        decreases baseline@.len() - i,
    {
        let line = &baseline[i];
        proof {
            assert(records.take(i + 1).drop_last() =~= records.take(i as int));
            assert(records.take(i + 1).last() == line@);
        }
        if line.coverage != Coverage::NoExecutableCode {
            let entry = StatementInfo::new(line.line_number, line.statement.clone(), total_failed);
            assert(statements_of(table@.push(entry)) =~= statements_of(table@).push(entry@));
            table.push(entry);
        }
        i += 1;
    }
    assert(records.take(i as int) =~= records);
    table
}

/// Looks for the first position where a report and the table part: one of
/// the two ends there, or the line numbers differ. There is none where the
/// report has one record for each statement, with the same line number at
/// the same position.
pub fn first_line_mismatch(statements: &Vec<StatementInfo>, report: &Vec<LineInfo>) -> (r: Option<
    usize,
>)
    ensures
        r is None == pairs_with(line_numbers_of(statements_of(statements@)), records_of(report@)),
        r is Some ==> r->0 == first_mismatch(
            line_numbers_of(statements_of(statements@)),
            records_of(report@),
            0,
        ),
{
    let ghost lines = line_numbers_of(statements_of(statements@));
    let ghost records = records_of(report@);
    let mut i: usize = 0;
    while i < statements.len() && i < report.len() && report[i].line_number
        == statements[i].line_number
        invariant
            i <= statements@.len(),
            i <= report@.len(),
            lines == line_numbers_of(statements_of(statements@)),
            records == records_of(report@),
            forall|k: int| 0 <= k < i ==> (#[trigger] records[k]).line_number == lines[k],
            first_mismatch(lines, records, 0) == first_mismatch(lines, records, i as int),
        decreases statements@.len() - i,
    {
        i += 1;
    }
    if i == statements.len() && i == report.len() {
        None
    } else {
        proof {
            if i < statements@.len() && i < report@.len() {
                assert(records[i as int].line_number != lines[i as int]);
            }
        }
        Some(i)
    }
}

/// Folds every report of one kind into the table, in order, as long as they
/// pair with it. At the first report that does not, the table is left as the
/// reports before it made it, and the result is that report's number and
/// the position where it parts from the table.
pub fn add_tests_to_statements(
    statements: &mut Vec<StatementInfo>,
    reports: &Vec<Vec<LineInfo>>,
    is_passing: bool,
) -> (stopped: Option<(usize, usize)>)
    requires
        forall|i: int|
            0 <= i < old(statements)@.len() ==> if is_passing {
                (#[trigger] old(statements)@[i]).passed_tests + reports@.len() <= u32::MAX
            } else {
                old(statements)@[i].failed_tests + reports@.len() <= u32::MAX
            },
    ensures
        final(statements)@.len() == old(statements)@.len(),
        stopped is None == all_aligned(
            reports_of(reports@),
            line_numbers_of(statements_of(old(statements)@)),
        ),
        stopped is None ==> statements_of(final(statements)@) == fold_reports(
            statements_of(old(statements)@),
            reports_of(reports@),
            is_passing,
        ),
        stopped is Some ==> {
            let (k, position) = stopped->0;
            let lines = line_numbers_of(statements_of(old(statements)@));
            &&& first_misaligned(reports_of(reports@), lines, k as int)
            &&& position == first_mismatch(lines, reports_of(reports@)[k as int], 0)
            &&& statements_of(final(statements)@) == fold_reports(
                statements_of(old(statements)@),
                reports_of(reports@).take(k as int),
                is_passing,
            )
        },
        forall|i: int|
            0 <= i < old(statements)@.len() ==> counted_up_to(
                (#[trigger] old(statements)@[i])@,
                final(statements)@[i]@,
                is_passing,
                reports@.len(),
            ),
{
    let ghost all = reports_of(reports@);
    let ghost start = statements_of(statements@);
    let ghost lines = line_numbers_of(start);
    let n = statements.len();
    let mut k: usize = 0;
    assert(all.take(0) =~= Seq::empty());
    while k < reports.len()
        invariant
            k <= reports@.len(),
            all == reports_of(reports@),
            forall|i: int|
                0 <= i < n ==> if is_passing {
                    (#[trigger] old(statements)@[i]).passed_tests + reports@.len() <= u32::MAX
                } else {
                    old(statements)@[i].failed_tests + reports@.len() <= u32::MAX
                },
            start == statements_of(old(statements)@),
            statements@.len() == n == old(statements)@.len(),
            lines == line_numbers_of(start),
            line_numbers_of(statements_of(statements@)) == lines,
            all_aligned(all.take(k as int), lines),
            statements_of(statements@) == fold_reports(start, all.take(k as int), is_passing),
            forall|i: int|
                0 <= i < n ==> counted_up_to(
                    (#[trigger] old(statements)@[i])@,
                    statements@[i]@,
                    is_passing,
                    k as nat,
                ),
        decreases reports@.len() - k,
    {
        let report = &reports[k];
        proof {
            assert(all.take(k + 1).drop_last() =~= all.take(k as int));
            assert(all.take(k + 1).last() == records_of(report@));
        }
        if let Some(position) = first_line_mismatch(statements, report) {
            assert(first_misaligned(all, lines, k as int));
            return Some((k, position));
        }
        let ghost before = statements@;
        assert forall|i: int|
            0 <= i < report@.len() && report@[i].coverage == Coverage::Covered implies if is_passing {
            (#[trigger] statements@[i]).passed_tests < u32::MAX
        } else {
            statements@[i].failed_tests < u32::MAX
        } by {
            assert(counted_up_to(old(statements)@[i]@, statements@[i]@, is_passing, k as nat));
        }
        add_test_to_statements(statements, report, is_passing);
        proof {
            assert(statements_of(statements@) =~= fold_report(
                statements_of(before),
                records_of(report@),
                is_passing,
            ));
            assert forall|i: int| 0 <= i < all.take(k + 1).len() implies pairs_with(
                lines,
                #[trigger] all.take(k + 1)[i],
            ) by {
                if i < k {
                    assert(all.take(k as int)[i] == all.take(k + 1)[i]);
                }
            }
            assert(line_numbers_of(statements_of(statements@)) =~= lines) by {
                assert forall|i: int| 0 <= i < n implies statements@[i]@.line_number
                    == lines[i] by {
                    assert(statements@[i]@ == before[i]@.with_coverage(
                        report@[i].coverage,
                        is_passing,
                    ));
                    assert(line_numbers_of(statements_of(before))[i] == before[i]@.line_number);
                }
            }
            assert forall|i: int| 0 <= i < n implies counted_up_to(
                (#[trigger] old(statements)@[i])@,
                statements@[i]@,
                is_passing,
                (k + 1) as nat,
            ) by {
                assert(statements@[i]@ == before[i]@.with_coverage(
                    report@[i].coverage,
                    is_passing,
                ));
            }
        }
        k += 1;
    }
    proof {
        assert(all.take(k as int) =~= all);
    }
    None
}

/// Scores every statement of the table from its counts, and tells whether
/// every score has a value.
pub fn score_statements(statements: &mut Vec<StatementInfo>) -> (defined: bool)
    requires
        forall|i: int|
            0 <= i < old(statements)@.len() ==> (#[trigger] old(statements)@[i]).failed_tests
                <= old(statements)@[i].total_failed,
    ensures
        statements_of(final(statements)@) == score_all(statements_of(old(statements)@)),
        defined == all_scores_defined(statements_of(final(statements)@)),
{
    let n = statements.len();
    let mut defined = true;
    let mut i: usize = 0;
    while i < n
        invariant
            i <= n,
            statements@.len() == n == old(statements)@.len(),
            forall|k: int| 0 <= k < i ==> (#[trigger] statements@[k])@ == old(statements)@[k]@.scored(),
            forall|k: int| i <= k < n ==> #[trigger] statements@[k] == old(statements)@[k],
            forall|k: int|
                0 <= k < n ==> (#[trigger] old(statements)@[k]).failed_tests <= old(
                    statements,
                )@[k].total_failed,
            defined ==> forall|k: int|
                0 <= k < i ==> !(#[trigger] statements@[k]).suspiciousness.is_undefined(),
            !defined ==> exists|k: int|
                0 <= k < i && (#[trigger] statements@[k]).suspiciousness.is_undefined(),
        decreases n - i,
    {
        assert(statements@[i as int] == old(statements)@[i as int]);
        let ghost before = statements@;
        statements[i].calculate_suspiciousness();
        proof {
            assert(forall|k: int| 0 <= k < i ==> statements@[k] == #[trigger] before[k]);
            if !defined {
                let k = choose|k: int|
                    0 <= k < i && (#[trigger] before[k]).suspiciousness.is_undefined();
                assert(statements@[k].suspiciousness.is_undefined());
            }
        }
        if statements[i].suspiciousness.has_no_value() {
            defined = false;
        }
        i += 1;
    }
    proof {
        assert(statements_of(statements@) =~= score_all(statements_of(old(statements)@)));
        if defined {
            assert forall|k: int| 0 <= k < n implies !(#[trigger] statements_of(
                statements@,
            )[k]).suspiciousness.is_undefined() by {
                assert(!statements@[k].suspiciousness.is_undefined());
            }
        } else {
            let k = choose|k: int|
                0 <= k < n && (#[trigger] statements@[k]).suspiciousness.is_undefined();
            assert(statements_of(statements@)[k].suspiciousness.is_undefined());
        }
    }
    defined
}

/// Ranks the statements of a program from the reports of its passing and
/// failing test runs.
///
/// The first passing report names the statements. Every report must pair
/// with them position by position. Each statement gets the number of passing
/// and of failing reports that saw it covered, and from these its score; the
/// result holds the statements in ranking order.
pub fn rank(passing_reports: &Vec<Vec<LineInfo>>, failing_reports: &Vec<Vec<LineInfo>>) -> (r:
    Result<Vec<StatementInfo>, RankError>)
    ensures
        match r {
            Ok(ranking) => {
                &&& rank_outcome(reports_of(passing_reports@), reports_of(failing_reports@)) == Ok::<
                    Seq<StatementRecord>,
                    RankError,
                >(statements_of(ranking@))
                &&& is_ranked(statements_of(ranking@))
                &&& statements_of(ranking@).to_multiset() == scored_table(
                    reports_of(passing_reports@),
                    reports_of(failing_reports@),
                ).to_multiset()
                &&& counts_within(
                    statements_of(ranking@),
                    passing_reports@.len(),
                    failing_reports@.len(),
                    failing_reports@.len(),
                )
            },
            Err(e) => rank_outcome(reports_of(passing_reports@), reports_of(failing_reports@))
                == Err::<Seq<StatementRecord>, RankError>(e),
        },
{
    let ghost passing = reports_of(passing_reports@);
    let ghost failing = reports_of(failing_reports@);
    if passing_reports.len() == 0 {
        return Err(RankError::NoPassingReports);
    }
    if passing_reports.len() > 0xFFFF_FFFF || failing_reports.len() > 0xFFFF_FFFF {
        return Err(RankError::TooManyReports);
    }
    let total_failed: u32 = failing_reports.len() as u32;
    let mut table = initial_statements(&passing_reports[0], total_failed);
    let ghost initial = statements_of(table@);
    let ghost fresh = table@;
    assert(initial == initial_table(passing[0], failing.len()));
    assert forall|i: int| 0 <= i < table@.len() implies (#[trigger] table@[i]).passed_tests == 0
        && table@[i].failed_tests == 0 && table@[i].total_failed == total_failed by {
        assert(initial[i] == table@[i]@);
    }
    if let Some((report, position)) = add_tests_to_statements(&mut table, passing_reports, true) {
        proof {
            lemma_first_misaligned(passing, line_numbers_of(initial), report as int, 0);
        }
        return Err(RankError::MisalignedReport { passing: true, report, position });
    }
    let ghost counted = table@;
    assert(line_numbers_of(statements_of(counted)) =~= line_numbers_of(initial)) by {
        assert forall|i: int| 0 <= i < counted.len() implies counted[i]@.line_number
            == initial[i].line_number by {
            assert(counted_up_to(fresh[i]@, counted[i]@, true, passing.len()));
        }
    }
    assert forall|i: int| 0 <= i < counted.len() implies (#[trigger] counted[i]).failed_tests == 0
        && counted[i].total_failed == total_failed by {
        assert(counted[i]@.failed_tests == fresh[i]@.failed_tests);
    }
    if let Some((report, position)) = add_tests_to_statements(&mut table, failing_reports, false) {
        proof {
            lemma_first_misaligned(failing, line_numbers_of(initial), report as int, 0);
        }
        return Err(RankError::MisalignedReport { passing: false, report, position });
    }
    assert forall|i: int| 0 <= i < table@.len() implies (#[trigger] table@[i]).failed_tests
        <= table@[i].total_failed by {
        assert(table@[i]@.total_failed == counted[i]@.total_failed);
    }
    let ghost counted_all = table@;
    let defined = score_statements(&mut table);
    if !defined {
        return Err(RankError::UndefinedScore);
    }
    let ghost scored = statements_of(table@);
    assert forall|i: int| 0 <= i < scored.len() implies {
        &&& (#[trigger] scored[i]).passed_tests <= passing.len()
        &&& scored[i].failed_tests <= failing.len()
        &&& scored[i].total_failed == failing.len()
    } by {
        assert(scored[i] == counted_all[i]@.scored());
        assert(counted_all[i]@.passed_tests == counted[i]@.passed_tests);
        assert(counted[i]@.total_failed == fresh[i]@.total_failed);
    }
    let ranking = rank_statements(table);
    proof {
        let result = statements_of(ranking@);
        assert forall|i: int| 0 <= i < result.len() implies {
            &&& (#[trigger] result[i]).passed_tests <= passing.len()
            &&& result[i].failed_tests <= failing.len()
            &&& result[i].total_failed == failing.len()
        } by {
            lemma_ranked_member(scored, i);
            let j = choose|j: int| 0 <= j < scored.len() && scored[j] == result[i];
            assert(scored[j].passed_tests <= passing.len());
        }
    }
    Ok(ranking)
}

} // verus!
