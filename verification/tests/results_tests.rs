use analyzer::results::{
    build_summary, collect_oracle_errors, collect_oracle_mismatches, csv_line, distribution_lines, oracle_verdict,
    top_rows, OracleVerdict, Row,
};

fn row(name: &str, treewidth: u32, is_unsafe: bool) -> Row {
    Row {
        name: name.to_string(),
        krate: "core".to_string(),
        blocks: 3,
        edges: 4,
        stmt_count: 7,
        treewidth,
        oracle_treewidth: None,
        oracle_error: None,
        is_unsafe,
    }
}

fn checked(name: &str, treewidth: u32, oracle: u32) -> Row {
    let mut r = row(name, treewidth, false);
    r.oracle_treewidth = Some(oracle);
    r
}

fn failed(name: &str, treewidth: u32, err: &str) -> Row {
    let mut r = row(name, treewidth, false);
    r.oracle_error = Some(err.to_string());
    r
}

/// A distribution line as the analyzer prints it.
fn line(tw: usize, count: usize, total: usize) -> String {
    let bar_len = (count * 40 / total.max(1)).max(if count > 0 { 1 } else { 0 });
    format!("  tw={tw:2}: {count:6}  {}", "#".repeat(bar_len))
}

#[test]
fn oracle_reports_list_disagreements_and_failures_in_order() {
    let rows = vec![
        checked("a", 2, 2),
        checked("b", 3, 4),
        failed("c", 1, "boom"),
        checked("d", 10, 9),
        row("e", 5, true),
    ];
    assert_eq!(collect_oracle_mismatches(&rows), vec!["b: native=3 oracle=4", "d: native=10 oracle=9"]);
    assert_eq!(collect_oracle_errors(&rows), vec!["c: boom"]);
}

#[test]
fn oracle_verdict_puts_failures_before_disagreements() {
    let rows = vec![checked("a", 2, 2), checked("b", 3, 4), failed("c", 1, "boom")];
    match oracle_verdict(&rows) {
        OracleVerdict::Unchecked(lines) => assert_eq!(lines, vec!["c: boom"]),
        _ => panic!("failures come first"),
    }
    let rows = vec![checked("a", 2, 2), checked("b", 3, 4)];
    match oracle_verdict(&rows) {
        OracleVerdict::Mismatched(lines) => assert_eq!(lines, vec!["b: native=3 oracle=4"]),
        _ => panic!("a disagreement fails the check"),
    }
    let rows = vec![checked("a", 2, 2), checked("b", 0, 0)];
    assert!(matches!(oracle_verdict(&rows), OracleVerdict::Passed));
    assert!(matches!(oracle_verdict(&Vec::new()), OracleVerdict::Passed));
}

#[test]
fn csv_lines_quote_the_name() {
    let r = row("a\"b", 2, true);
    assert_eq!(csv_line(&r), "\"a\"\"b\",core,3,4,7,2,1");
    let mut r = row("<impl Foo>::bar", 0, false);
    r.krate = "std".to_string();
    r.blocks = 1;
    r.edges = 0;
    r.stmt_count = 12;
    assert_eq!(csv_line(&r), "\"<impl Foo>::bar\",std,1,0,12,0,0");
}

#[test]
fn top_rows_rank_by_treewidth_keeping_ties_in_order() {
    let rows = vec![row("a", 1, false), row("b", 3, false), row("c", 2, false), row("d", 3, true), row("e", 0, false)];
    assert_eq!(top_rows(&rows, 3), vec![1, 3, 2]);
    assert_eq!(top_rows(&rows, 10), vec![1, 3, 2, 0, 4]);
    assert_eq!(top_rows(&rows, 0), Vec::<usize>::new());
    assert_eq!(top_rows(&Vec::new(), 20), Vec::<usize>::new());
}

#[test]
fn summary_of_rows_splits_safe_and_unsafe() {
    let rows = vec![row("a", 3, false), row("b", 1, true), row("c", 3, false), row("d", 0, true)];
    let s = build_summary(&rows);
    assert_eq!(s.total, 4);
    assert_eq!(s.all.count, 4);
    assert_eq!(s.all.sum, 7);
    assert_eq!(s.all.median, 3);
    assert_eq!(s.all.max, 3);
    assert_eq!(s.all.at_most_3, 4);
    assert_eq!(s.safe.count, 2);
    assert_eq!(s.safe.median, 3);
    assert_eq!(s.unsafe_group.count, 2);
    assert_eq!(s.unsafe_group.median, 1);
    assert_eq!(s.unsafe_group.max, 1);
    assert_eq!(s.distribution, vec![1, 1, 0, 2]);
}

#[test]
fn distribution_lines_draw_bars() {
    let lines = distribution_lines(&vec![2, 0, 1], 3, 2);
    assert_eq!(lines, vec![line(0, 2, 3), line(1, 0, 3), line(2, 1, 3)]);
    assert_eq!(lines[0], format!("  tw= 0:      2  {}", "#".repeat(26)));
    // A count too small for a whole character still gets one.
    let lines = distribution_lines(&vec![1, 99], 100, 1);
    assert_eq!(lines[0], "  tw= 0:      1  #");
    // No function at all: one empty row.
    assert_eq!(distribution_lines(&vec![0], 0, 0), vec!["  tw= 0:      0  ".to_string()]);
}

#[test]
fn distribution_lines_stop_and_sum_the_rest() {
    // An empty row beyond the largest treewidth ends the listing.
    assert_eq!(distribution_lines(&vec![1, 0, 0], 1, 0), vec![line(0, 1, 1)]);
    // Rows from treewidth 15 on are summed into one line.
    let mut dist = vec![0; 15];
    dist.push(3);
    dist.push(4);
    let lines = distribution_lines(&dist, 7, 16);
    assert_eq!(lines.len(), 16);
    for (tw, l) in lines.iter().take(15).enumerate() {
        assert_eq!(*l, line(tw, 0, 7));
    }
    assert_eq!(lines[15], format!("  tw\u{2265}15: {:6}", 7));
    // Wide numbers are not cut.
    let lines = distribution_lines(&vec![1234567], 1234567, 0);
    assert_eq!(lines, vec![format!("  tw= 0: 1234567  {}", "#".repeat(40))]);
}
