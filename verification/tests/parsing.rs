use fl_dstar::{parse_gcov_file, parse_gcov_line, Coverage, ParseError};

#[test]
fn test_parse_gcov_line_no_executable() {
    let line = "        -:    0:Source:tcas4.c";
    let line_info = parse_gcov_line(line).unwrap();
    assert_eq!(line_info.line_number, 0);
    assert_eq!(line_info.statement, "Source:tcas4.c");
    assert_eq!(line_info.coverage, Coverage::NoExecutableCode);
}

#[test]
fn test_parse_gcov_line_not_covered() {
    let line = "    #####:   77:	result = Own_Above_Threat() && (Cur_Vertical_Sep >= MINSEP) && (Up_Separation >= ALIM());";
    let line_info = parse_gcov_line(line).unwrap();
    assert_eq!(line_info.line_number, 77);
    assert_eq!(line_info.statement, "result = Own_Above_Threat() && (Cur_Vertical_Sep >= MINSEP) && (Up_Separation >= ALIM());");
    assert_eq!(line_info.coverage, Coverage::NotCovered);
}

#[test]
fn test_parse_gcov_line_covered() {
    let line = "        2:   61:    return (Climb_Inhibit ? Up_Separation + NOZCROSS : Up_Separation);";
    let line_info = parse_gcov_line(line).unwrap();
    assert_eq!(line_info.line_number, 61);
    assert_eq!(
        line_info.statement,
        "return (Climb_Inhibit ? Up_Separation + NOZCROSS : Up_Separation);"
    );
    assert_eq!(line_info.coverage, Coverage::Covered);
}

#[test]
fn parses_a_line_that_never_ran() {
    let info = parse_gcov_line("    #####:   77:    x = f();").unwrap();
    assert_eq!(info.line_number, 77);
    assert_eq!(info.coverage, Coverage::NotCovered);
    assert_eq!(info.statement, "x = f();");
}

#[test]
fn keeps_every_colon_of_the_statement() {
    let info = parse_gcov_line("        4:   12:  a ? b : c : d").unwrap();
    assert_eq!(info.statement, "a ? b : c : d");
    let info = parse_gcov_line("1:2:::x::").unwrap();
    assert_eq!(info.statement, "::x::");
    let info = parse_gcov_line("1:2:   : y").unwrap();
    assert_eq!(info.statement, ": y");
}

#[test]
fn keeps_whitespace_inside_and_behind_the_statement() {
    let info = parse_gcov_line("1:2: \t a  b \t").unwrap();
    assert_eq!(info.statement, "a  b \t");
}

#[test]
fn a_line_of_two_fields_has_an_empty_statement() {
    let info = parse_gcov_line("    3:   9").unwrap();
    assert_eq!(info.line_number, 9);
    assert_eq!(info.statement, "");
    assert_eq!(info.coverage, Coverage::Covered);
    let info = parse_gcov_line("3:9:").unwrap();
    assert_eq!(info.statement, "");
}

#[test]
fn classifies_the_marker_after_trimming() {
    assert_eq!(parse_gcov_line(" - :1:x").unwrap().coverage, Coverage::NoExecutableCode);
    assert_eq!(parse_gcov_line("\t#####\u{a0}:1:x").unwrap().coverage, Coverage::NotCovered);
    assert_eq!(parse_gcov_line("####:1:x").unwrap().coverage, Coverage::Covered);
    assert_eq!(parse_gcov_line("######:1:x").unwrap().coverage, Coverage::Covered);
    assert_eq!(parse_gcov_line("--:1:x").unwrap().coverage, Coverage::Covered);
    assert_eq!(parse_gcov_line(":1:x").unwrap().coverage, Coverage::Covered);
    assert_eq!(parse_gcov_line("12*:1:x").unwrap().coverage, Coverage::Covered);
    assert_eq!(parse_gcov_line("#####é:1:x").unwrap().coverage, Coverage::Covered);
}

#[test]
fn reads_line_numbers_as_unsigned_decimals() {
    assert_eq!(parse_gcov_line("1:+7:x").unwrap().line_number, 7);
    assert_eq!(parse_gcov_line("1:\u{3000}0042 :x").unwrap().line_number, 42);
    assert_eq!(parse_gcov_line("1:4294967295:x").unwrap().line_number, 4294967295);
    assert_eq!(
        parse_gcov_line("1:000000000000000000004294967295:x").unwrap().line_number,
        4294967295
    );
}

#[test]
fn rejects_a_line_without_a_colon() {
    assert_eq!(parse_gcov_line("no fields here").unwrap_err(), ParseError::MissingLineNumber);
    assert_eq!(parse_gcov_line("").unwrap_err(), ParseError::MissingLineNumber);
}

#[test]
fn rejects_a_bad_line_number() {
    for line in [
        "1:abc:x",
        "1::x",
        "1:   :x",
        "1:+:x",
        "1:-3:x",
        "1:7 7:x",
        "1:4294967296:x",
        "1:99999999999999999999999:x",
        "1:12a:x",
        "1:١٢:x",
        "1:",
    ] {
        assert_eq!(parse_gcov_line(line).unwrap_err(), ParseError::InvalidLineNumber, "{}", line);
    }
}

fn owned(lines: &[&str]) -> Vec<String> {
    lines.iter().map(|l| l.to_string()).collect()
}

#[test]
fn a_report_drops_metadata_and_lines_without_code() {
    let lines = owned(&[
        "        -:    0:Source:tcas4.c",
        "        -:    1:",
        "",
        "        5:    0:odd but numbered zero",
        "        2:   61:    return a ? b : c;",
        "        -:   62:}",
        "    #####:   77:\tresult = f();",
    ]);
    let infos = parse_gcov_file(&lines).unwrap();
    assert_eq!(infos.len(), 2);
    assert_eq!(infos[0].line_number, 61);
    assert_eq!(infos[0].statement, "return a ? b : c;");
    assert_eq!(infos[0].coverage, Coverage::Covered);
    assert_eq!(infos[1].line_number, 77);
    assert_eq!(infos[1].statement, "result = f();");
    assert_eq!(infos[1].coverage, Coverage::NotCovered);
}

#[test]
fn an_empty_report_has_no_records() {
    assert_eq!(parse_gcov_file(&Vec::new()).unwrap().len(), 0);
    assert_eq!(parse_gcov_file(&owned(&["", ""])).unwrap().len(), 0);
}

#[test]
fn a_report_fails_at_its_first_bad_line() {
    let lines = owned(&["1:1:a", "1:x:b", "no colon"]);
    assert_eq!(parse_gcov_file(&lines).unwrap_err(), ParseError::InvalidLineNumber);
    let lines = owned(&["1:1:a", "no colon", "1:x:b"]);
    assert_eq!(parse_gcov_file(&lines).unwrap_err(), ParseError::MissingLineNumber);
    let lines = owned(&["-:0:dropped", "-:oops:still read"]);
    assert_eq!(parse_gcov_file(&lines).unwrap_err(), ParseError::InvalidLineNumber);
}
