use fl_dstar::{
    add_test_to_statements, add_tests_to_statements, comes_before, initial_statements, rank,
    rank_statements, first_line_mismatch, score_statements, Coverage, LineInfo, RankError, Score,
    StatementInfo,
};
use std::f32::INFINITY;

fn value(score: &Score) -> f32 {
    score.numerator as f32 / score.denominator as f32
}

fn line(line_number: u32, coverage: Coverage) -> LineInfo {
    LineInfo { line_number, statement: format!("statement {}", line_number), coverage }
}

fn entry(line_number: u32, passed: u32, failed: u32, total_failed: u32) -> StatementInfo {
    let mut s = StatementInfo::new(line_number, "test".to_string(), total_failed);
    for _ in 0..passed {
        s.add_passing_coverage();
    }
    for _ in 0..failed {
        s.add_failing_coverage();
    }
    s.calculate_suspiciousness();
    s
}

#[test]
fn test_dstar_calculation() {
    let mut statement_info = StatementInfo::new(1, "test".to_string(), 2);
    statement_info.add_passing_coverage();
    statement_info.add_passing_coverage();
    statement_info.add_passing_coverage();
    statement_info.add_failing_coverage();
    statement_info.calculate_suspiciousness();
    assert_eq!(value(&statement_info.suspiciousness), 0.25);
}

#[test]
fn test_dstar_calculation_from_hw() {
    let mut statement_info = StatementInfo::new(1, "test".to_string(), 617);
    for _ in 0..616 {
        statement_info.add_failing_coverage()
    }
    statement_info.calculate_suspiciousness();
    assert_eq!(value(&statement_info.suspiciousness), 379456.00);
}

#[test]
fn test_dstar_calculation_zero() {
    let mut statement_info = StatementInfo::new(1, "test".to_string(), 2);
    statement_info.add_passing_coverage();
    statement_info.add_passing_coverage();
    statement_info.add_passing_coverage();
    statement_info.calculate_suspiciousness();
    assert_eq!(value(&statement_info.suspiciousness), 0.00);
}

#[test]
fn test_dstar_calculation_zero_divide() {
    let mut statement_info = StatementInfo::new(1, "test".to_string(), 3);
    statement_info.add_failing_coverage();
    statement_info.add_failing_coverage();
    statement_info.add_failing_coverage();
    statement_info.calculate_suspiciousness();
    assert_eq!(value(&statement_info.suspiciousness), INFINITY);
}

#[test]
fn test_add_test_to_statement() {
    let mut statements = Vec::new();
    statements.push(StatementInfo::new(1, "test".to_string(), 2));
    statements.push(StatementInfo::new(2, "test".to_string(), 2));
    statements.push(StatementInfo::new(3, "test".to_string(), 2));
    let mut tests = Vec::new();
    tests.push(LineInfo {
        line_number: 1,
        statement: "test".to_string(),
        coverage: Coverage::Covered,
    });
    tests.push(LineInfo {
        line_number: 2,
        statement: "test".to_string(),
        coverage: Coverage::NotCovered,
    });
    tests.push(LineInfo {
        line_number: 3,
        statement: "test".to_string(),
        coverage: Coverage::Covered,
    });
    add_test_to_statements(&mut statements, &tests, true);
    assert_eq!(statements[0].passed_tests, 1);
    assert_eq!(statements[0].failed_tests, 0);
    assert_eq!(statements[1].passed_tests, 0);
    assert_eq!(statements[1].failed_tests, 0);
    assert_eq!(statements[2].passed_tests, 1);
    assert_eq!(statements[2].failed_tests, 0);
}

#[test]
fn a_new_statement_has_zero_counts_and_score() {
    let s = StatementInfo::new(9, "x = 1;".to_string(), 4);
    assert_eq!(s.line_number, 9);
    assert_eq!(s.statement, "x = 1;");
    assert_eq!((s.passed_tests, s.failed_tests, s.total_failed), (0, 0, 4));
    assert_eq!(value(&s.suspiciousness), 0.0);
    assert!(!s.suspiciousness.has_no_value());
    assert!(!s.suspiciousness.is_infinity());
}

#[test]
fn the_score_is_the_exact_fraction() {
    let s = entry(1, 3, 1, 2);
    assert_eq!((s.suspiciousness.numerator, s.suspiciousness.denominator), (1, 4));
    let s = entry(1, 0, 616, 617);
    assert_eq!((s.suspiciousness.numerator, s.suspiciousness.denominator), (379456, 1));
    let s = entry(1, 0, 3, 3);
    assert_eq!((s.suspiciousness.numerator, s.suspiciousness.denominator), (9, 0));
    assert!(s.suspiciousness.is_infinity());
    let s = entry(1, 0, 0, 0);
    assert!(s.suspiciousness.has_no_value());
}

#[test]
fn scoring_twice_changes_nothing() {
    let mut s = entry(1, 3, 1, 2);
    let first = (s.suspiciousness.numerator, s.suspiciousness.denominator);
    s.calculate_suspiciousness();
    assert_eq!((s.suspiciousness.numerator, s.suspiciousness.denominator), first);
    assert_eq!((s.passed_tests, s.failed_tests, s.total_failed), (3, 1, 2));
}

#[test]
fn the_largest_counts_do_not_overflow() {
    let mut s = StatementInfo::new(1, "test".to_string(), u32::MAX);
    s.passed_tests = u32::MAX;
    s.failed_tests = u32::MAX;
    s.calculate_suspiciousness();
    assert_eq!(s.suspiciousness.numerator, 18446744065119617025);
    assert_eq!(s.suspiciousness.denominator, 4294967295);
    s.failed_tests = 0;
    s.calculate_suspiciousness();
    assert_eq!(s.suspiciousness.numerator, 0);
    assert_eq!(s.suspiciousness.denominator, 8589934590);
}

#[test]
fn scores_compare_as_fractions() {
    let half = Score { numerator: 1, denominator: 2 };
    let two_quarters = Score { numerator: 2, denominator: 4 };
    let third = Score { numerator: 1, denominator: 3 };
    let infinity = Score { numerator: 9, denominator: 0 };
    let other_infinity = Score { numerator: 1, denominator: 0 };
    let huge = Score { numerator: u64::MAX, denominator: 1 };
    let nearly = Score { numerator: u64::MAX - 1, denominator: 1 };
    assert!(half.is_at_least(&two_quarters) && two_quarters.is_at_least(&half));
    assert!(half.is_at_least(&third) && !third.is_at_least(&half));
    assert!(infinity.is_at_least(&huge) && !huge.is_at_least(&infinity));
    assert!(infinity.is_at_least(&other_infinity) && other_infinity.is_at_least(&infinity));
    assert!(huge.is_at_least(&nearly) && !nearly.is_at_least(&huge));
    let a = Score { numerator: u64::MAX, denominator: u64::MAX - 1 };
    let b = Score { numerator: u64::MAX - 1, denominator: u64::MAX - 2 };
    assert!(b.is_at_least(&a) && !a.is_at_least(&b));
}

#[test]
fn folding_a_failing_report_counts_failures_only() {
    let mut statements = vec![
        StatementInfo::new(1, "test".to_string(), 2),
        StatementInfo::new(2, "test".to_string(), 2),
        StatementInfo::new(3, "test".to_string(), 2),
    ];
    let report = vec![
        line(1, Coverage::NotCovered),
        line(2, Coverage::Covered),
        line(3, Coverage::NoExecutableCode),
    ];
    add_test_to_statements(&mut statements, &report, false);
    let counts: Vec<(u32, u32)> =
        statements.iter().map(|s| (s.passed_tests, s.failed_tests)).collect();
    assert_eq!(counts, vec![(0, 0), (0, 1), (0, 0)]);
}

#[test]
fn equal_scores_rank_by_line_number() {
    let ranking = rank_statements(vec![
        entry(30, 1, 1, 2),
        entry(10, 0, 2, 2),
        entry(20, 2, 2, 4),
        entry(5, 1, 0, 2),
        entry(7, 0, 3, 3),
        entry(4, 3, 3, 6),
        entry(2, 1, 0, 7),
    ]);
    let lines: Vec<u32> = ranking.iter().map(|s| s.line_number).collect();
    assert_eq!(lines, vec![7, 10, 4, 20, 30, 2, 5]);
    assert!(comes_before(&ranking[0], &ranking[1]));
    assert!(!comes_before(&ranking[1], &ranking[0]));
}

#[test]
fn ranking_keeps_every_statement_with_its_counts() {
    let ranking = rank_statements(vec![entry(1, 3, 1, 2), entry(2, 0, 2, 2), entry(3, 1, 2, 2)]);
    let rows: Vec<(u32, u32, u32)> =
        ranking.iter().map(|s| (s.line_number, s.passed_tests, s.failed_tests)).collect();
    assert_eq!(rows, vec![(2, 0, 2), (3, 1, 2), (1, 3, 1)]);
    assert_eq!(rank_statements(Vec::new()).len(), 0);
}

#[test]
fn the_statement_only_failures_ran_ranks_first() {
    let baseline =
        vec![line(1, Coverage::Covered), line(2, Coverage::NotCovered), line(3, Coverage::Covered)];
    let second =
        vec![line(1, Coverage::Covered), line(2, Coverage::Covered), line(3, Coverage::Covered)];
    let failing = vec![
        line(1, Coverage::NotCovered),
        line(2, Coverage::Covered),
        line(3, Coverage::NotCovered),
    ];
    let ranking = rank(&vec![baseline, second], &vec![failing]).unwrap();
    let rows: Vec<(u32, u32, u32, u32)> = ranking
        .iter()
        .map(|s| (s.line_number, s.passed_tests, s.failed_tests, s.total_failed))
        .collect();
    assert_eq!(rows, vec![(2, 1, 1, 1), (1, 2, 0, 1), (3, 2, 0, 1)]);
    assert_eq!(ranking[0].statement, "statement 2");
    assert_eq!(value(&ranking[0].suspiciousness), 1.0);
    assert_eq!(value(&ranking[1].suspiciousness), 0.0);
    assert_eq!(value(&ranking[2].suspiciousness), 0.0);
}

#[test]
fn ranking_needs_a_passing_report() {
    let failing = vec![vec![line(1, Coverage::Covered)]];
    assert_eq!(rank(&Vec::new(), &failing).unwrap_err(), RankError::NoPassingReports);
}

#[test]
fn ranking_rejects_a_report_of_another_length() {
    let passing = vec![vec![line(1, Coverage::Covered), line(2, Coverage::Covered)]];
    let failing = vec![vec![line(1, Coverage::Covered)]];
    assert_eq!(
        rank(&passing, &failing).unwrap_err(),
        RankError::MisalignedReport { passing: false, report: 0, position: 1 }
    );
    let passing = vec![
        vec![line(1, Coverage::Covered)],
        vec![line(1, Coverage::Covered), line(2, Coverage::Covered)],
    ];
    assert_eq!(
        rank(&passing, &Vec::new()).unwrap_err(),
        RankError::MisalignedReport { passing: true, report: 1, position: 1 }
    );
    let passing = vec![vec![line(1, Coverage::Covered), line(2, Coverage::NoExecutableCode)]];
    assert_eq!(
        rank(&passing, &Vec::new()).unwrap_err(),
        RankError::MisalignedReport { passing: true, report: 0, position: 1 }
    );
}

#[test]
fn ranking_rejects_a_score_without_a_value() {
    let passing = vec![vec![line(1, Coverage::Covered), line(2, Coverage::NotCovered)]];
    assert_eq!(rank(&passing, &Vec::new()).unwrap_err(), RankError::UndefinedScore);
}

#[test]
fn a_statement_that_every_failure_and_no_pass_ran_is_infinitely_suspicious() {
    let passing = vec![vec![line(1, Coverage::Covered), line(2, Coverage::NotCovered)]];
    let failing = vec![
        vec![line(1, Coverage::Covered), line(2, Coverage::Covered)],
        vec![line(1, Coverage::NotCovered), line(2, Coverage::Covered)],
    ];
    let ranking = rank(&passing, &failing).unwrap();
    assert_eq!(ranking[0].line_number, 2);
    assert_eq!(value(&ranking[0].suspiciousness), INFINITY);
    assert_eq!(ranking[1].line_number, 1);
    assert_eq!(value(&ranking[1].suspiciousness), 0.5);
}

#[test]
fn scoring_a_table_tells_whether_every_score_has_a_value() {
    let mut table = vec![entry(1, 1, 0, 0), entry(2, 0, 0, 0)];
    assert!(!score_statements(&mut table));
    let mut table = vec![entry(1, 1, 0, 0), entry(2, 0, 1, 1)];
    assert!(score_statements(&mut table));
    assert!(table[1].suspiciousness.is_infinity());
}

#[test]
fn ranking_rejects_a_report_with_other_line_numbers() {
    let passing = vec![vec![line(1, Coverage::Covered), line(2, Coverage::Covered)]];
    let failing = vec![
        vec![line(1, Coverage::Covered), line(2, Coverage::NotCovered)],
        vec![line(1, Coverage::Covered), line(3, Coverage::Covered)],
    ];
    assert_eq!(
        rank(&passing, &failing).unwrap_err(),
        RankError::MisalignedReport { passing: false, report: 1, position: 1 }
    );
    let passing = vec![
        vec![line(1, Coverage::Covered), line(2, Coverage::Covered)],
        vec![line(2, Coverage::Covered), line(1, Coverage::Covered)],
    ];
    assert_eq!(
        rank(&passing, &failing).unwrap_err(),
        RankError::MisalignedReport { passing: true, report: 1, position: 0 }
    );
}

#[test]
fn a_report_pairs_with_a_table_of_the_same_lines() {
    let baseline = vec![
        line(4, Coverage::Covered),
        line(5, Coverage::NoExecutableCode),
        line(9, Coverage::NotCovered),
    ];
    let table = initial_statements(&baseline, 7);
    let rows: Vec<(u32, String, u32, u32, u32)> = table
        .iter()
        .map(|s| (s.line_number, s.statement.clone(), s.passed_tests, s.failed_tests, s.total_failed))
        .collect();
    assert_eq!(
        rows,
        vec![(4, "statement 4".to_string(), 0, 0, 7), (9, "statement 9".to_string(), 0, 0, 7)]
    );
    let pairing = vec![line(4, Coverage::NotCovered), line(9, Coverage::Covered)];
    assert_eq!(first_line_mismatch(&table, &pairing), None);
    assert_eq!(first_line_mismatch(&table, &baseline), Some(1));
    assert_eq!(first_line_mismatch(&table, &vec![line(4, Coverage::Covered)]), Some(1));
    assert_eq!(first_line_mismatch(&table, &vec![line(3, Coverage::Covered)]), Some(0));
    let longer =
        vec![line(4, Coverage::Covered), line(9, Coverage::Covered), line(10, Coverage::Covered)];
    assert_eq!(first_line_mismatch(&table, &longer), Some(2));
    assert_eq!(first_line_mismatch(&table, &Vec::new()), Some(0));
    assert_eq!(first_line_mismatch(&Vec::new(), &Vec::new()), None);
}

#[test]
fn folding_stops_at_the_first_report_that_does_not_pair() {
    let mut table = initial_statements(&vec![line(1, Coverage::Covered)], 0);
    let reports = vec![
        vec![line(1, Coverage::Covered)],
        vec![line(1, Coverage::Covered)],
        vec![line(2, Coverage::Covered)],
        vec![line(1, Coverage::Covered)],
    ];
    assert_eq!(add_tests_to_statements(&mut table, &reports, true), Some((2, 0)));
    assert_eq!((table[0].passed_tests, table[0].failed_tests), (2, 0));
    let two = vec![vec![line(1, Coverage::Covered)], vec![line(1, Coverage::Covered)]];
    assert_eq!(add_tests_to_statements(&mut table, &two, false), None);
    assert_eq!((table[0].passed_tests, table[0].failed_tests), (2, 2));
}

#[test]
fn the_order_of_the_reports_does_not_change_the_counts() {
    let baseline =
        vec![line(1, Coverage::Covered), line(2, Coverage::Covered), line(3, Coverage::Covered)];
    let a = vec![line(1, Coverage::Covered), line(2, Coverage::NotCovered), line(3, Coverage::Covered)];
    let b = vec![line(1, Coverage::NotCovered), line(2, Coverage::NotCovered), line(3, Coverage::Covered)];
    let mut one = initial_statements(&baseline, 1);
    add_test_to_statements(&mut one, &a, true);
    add_test_to_statements(&mut one, &b, false);
    let mut other = initial_statements(&baseline, 1);
    add_test_to_statements(&mut other, &b, false);
    add_test_to_statements(&mut other, &a, true);
    let counts = |t: &Vec<StatementInfo>| -> Vec<(u32, u32)> {
        t.iter().map(|s| (s.passed_tests, s.failed_tests)).collect()
    };
    assert_eq!(counts(&one), vec![(1, 0), (0, 0), (1, 1)]);
    assert_eq!(counts(&one), counts(&other));
}
