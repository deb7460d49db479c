use extra_time::aggregate::{aggregate, TimeEntry, BASELINE_SECONDS};
use extra_time::day::Day;
use extra_time::sheet::{build_report, CSVSheet, ReportError};

fn entry(year: i32, month: u32, d: u32, duration_seconds: i64) -> TimeEntry {
    TimeEntry { day: Day { year, month, day: d }, duration_seconds }
}

fn col(cells: &[&str]) -> Vec<String> {
    cells.iter().map(|c| c.to_string()).collect()
}

fn block(total: &str, extra: &str, cumulative: &str) -> Vec<String> {
    col(&[
        "",
        "Total time worked that day :",
        total,
        "",
        "Extra time worked that day :",
        extra,
        "",
        "Cumulated extra time worked :",
        cumulative,
    ])
}

#[test]
fn new_sheet_is_empty() {
    let sheet = CSVSheet::new("results.csv");
    assert!(sheet.columns.is_empty());
    assert_eq!(sheet.max_columns_length, 0);
    assert_eq!(sheet.file_name, "results.csv");
}

#[test]
fn column_lengths_through_padding_and_summary() {
    let entries = vec![
        entry(2024, 1, 1, 100),
        entry(2024, 1, 1, 200),
        entry(2024, 1, 2, 1),
        entry(2024, 1, 2, 2),
        entry(2024, 1, 2, 3),
        entry(2024, 1, 2, 4),
        entry(2024, 1, 2, 5),
    ];
    let s = aggregate(&entries, BASELINE_SECONDS);
    let mut sheet = CSVSheet::new("out.csv");
    sheet.add_column(col(&["2024-01-01", "100", "200"]));
    sheet.add_column(col(&["2024-01-02", "1", "2", "3", "4", "5"]));
    assert_eq!(sheet.columns[0].len(), 3);
    assert_eq!(sheet.columns[1].len(), 6);
    sheet.align_columns();
    assert_eq!(sheet.columns[0].len(), 6);
    assert_eq!(sheet.columns[1].len(), 6);
    assert_eq!(sheet.max_columns_length, 6);
    assert_eq!(sheet.add_total_times_to_columns(&s), Ok(()));
    assert_eq!(sheet.columns[0].len(), 15);
    assert_eq!(sheet.columns[1].len(), 15);
    assert_eq!(sheet.max_columns_length, 15);

    let report = build_report(&s, "out.csv");
    assert_eq!(report.columns.len(), 2);
    assert_eq!(report.columns[0].len(), 15);
    assert_eq!(report.columns[1].len(), 15);
    assert_eq!(report.max_columns_length, 15);
    assert_eq!(report.columns, sheet.columns);
}

#[test]
fn aligning_twice_changes_nothing() {
    let mut sheet = CSVSheet::new("a.csv");
    sheet.add_column(col(&["b", "1"]));
    sheet.add_column(col(&["a", "1", "2", "3"]));
    sheet.add_column(col(&["c"]));
    sheet.align_columns();
    let once = sheet.columns.clone();
    let max_once = sheet.max_columns_length;
    sheet.align_columns();
    assert_eq!(sheet.columns, once);
    assert_eq!(sheet.max_columns_length, max_once);
    assert!(sheet.columns.iter().all(|c| c.len() == 4));
    assert_eq!(sheet.columns[2], col(&["c", "", "", ""]));
}

#[test]
fn update_max_only_grows() {
    let mut sheet = CSVSheet::new("a.csv");
    sheet.add_column(col(&["x", "1", "2"]));
    sheet.update_max_columns_length();
    assert_eq!(sheet.max_columns_length, 3);
    sheet.max_columns_length = 10;
    sheet.update_max_columns_length();
    assert_eq!(sheet.max_columns_length, 10);
}

#[test]
fn columns_sort_by_label() {
    let mut sheet = CSVSheet::new("a.csv");
    sheet.add_column(col(&["2024-03-01", "x"]));
    sheet.add_column(col(&["2023-12-31"]));
    sheet.add_column(col(&["2024-01-15", "y", "z"]));
    sheet.sort_columns();
    let labels: Vec<&str> = sheet.columns.iter().map(|c| c[0].as_str()).collect();
    assert_eq!(labels, vec!["2023-12-31", "2024-01-15", "2024-03-01"]);
    assert_eq!(sheet.columns[1], col(&["2024-01-15", "y", "z"]));
}

#[test]
fn report_columns_are_ascending_whatever_the_input_order() {
    let entries = vec![
        entry(2024, 3, 10, 25200),
        entry(2024, 1, 5, 20000),
        entry(2024, 2, 1, 30000),
    ];
    let s = aggregate(&entries, BASELINE_SECONDS);
    let report = build_report(&s, "r.csv");
    let labels: Vec<&str> = report.columns.iter().map(|c| c[0].as_str()).collect();
    assert_eq!(labels, vec!["2024-01-05", "2024-02-01", "2024-03-10"]);
}

#[test]
fn report_scenario_cells() {
    let entries = vec![
        entry(2024, 1, 1, 3600),
        entry(2024, 1, 1, 21600),
        entry(2024, 1, 2, 28800),
    ];
    let s = aggregate(&entries, 25200);
    let report = build_report(&s, "results.csv");
    let mut first = col(&["2024-01-01", "3600", "21600"]);
    first.extend(block("25200", "0", "0"));
    let mut second = col(&["2024-01-02", "28800", ""]);
    second.extend(block("28800", "3600", "3600"));
    assert_eq!(report.columns, vec![first, second]);
    assert_eq!(report.file_name, "results.csv");
}

#[test]
fn negative_extra_time_renders_with_minus_sign() {
    let entries = vec![entry(2024, 6, 3, 18000)];
    let s = aggregate(&entries, BASELINE_SECONDS);
    let report = build_report(&s, "r.csv");
    let mut expected = col(&["2024-06-03", "18000"]);
    expected.extend(block("18000", "-7200", "-7200"));
    assert_eq!(report.columns, vec![expected]);
}

#[test]
fn empty_summary_gives_empty_report() {
    let entries: Vec<TimeEntry> = Vec::new();
    let s = aggregate(&entries, BASELINE_SECONDS);
    let report = build_report(&s, "r.csv");
    assert!(report.columns.is_empty());
    assert_eq!(report.max_columns_length, 0);
    assert_eq!(report.csv_text(), "");
}

#[test]
fn unknown_label_is_refused_and_sheet_kept() {
    let entries = vec![entry(2024, 1, 1, 100)];
    let s = aggregate(&entries, BASELINE_SECONDS);
    let mut sheet = CSVSheet::new("a.csv");
    sheet.add_column(col(&["2024-01-01", "100"]));
    sheet.add_column(col(&["2024-01-09"]));
    let before = sheet.columns.clone();
    assert_eq!(sheet.add_total_times_to_columns(&s), Err(ReportError::UnknownDay));
    assert_eq!(sheet.columns, before);
    assert_eq!(sheet.max_columns_length, 0);
}

#[test]
fn csv_text_rows_and_separators() {
    let mut sheet = CSVSheet::new("a.csv");
    sheet.add_column(col(&["2024-01-01", "5"]));
    sheet.add_column(col(&["2024-01-02"]));
    sheet.align_columns();
    assert_eq!(sheet.csv_text(), "2024-01-01;2024-01-02;\n5;;\n");
}

#[test]
fn csv_text_of_full_report() {
    let entries = vec![entry(2024, 1, 2, 28800)];
    let s = aggregate(&entries, BASELINE_SECONDS);
    let report = build_report(&s, "r.csv");
    let text = report.csv_text();
    assert_eq!(
        text,
        "2024-01-02;\n28800;\n;\nTotal time worked that day :;\n28800;\n;\nExtra time worked that day :;\n3600;\n;\nCumulated extra time worked :;\n3600;\n"
    );
}

#[test]
fn labels_are_zero_padded_iso_dates() {
    let entries = vec![entry(999, 2, 3, 10), entry(12345, 11, 30, 20)];
    let s = aggregate(&entries, BASELINE_SECONDS);
    let report = build_report(&s, "r.csv");
    let labels: Vec<&str> = report.columns.iter().map(|c| c[0].as_str()).collect();
    assert_eq!(labels, vec!["+12345-11-30", "0999-02-03"]);
}

#[test]
fn label_order_matches_day_order_for_four_digit_years() {
    let entries = vec![
        entry(2024, 10, 1, 1),
        entry(2024, 9, 30, 1),
        entry(2024, 1, 2, 1),
        entry(999, 12, 31, 1),
    ];
    let s = aggregate(&entries, BASELINE_SECONDS);
    let report = build_report(&s, "r.csv");
    let labels: Vec<&str> = report.columns.iter().map(|c| c[0].as_str()).collect();
    assert_eq!(labels, vec!["0999-12-31", "2024-01-02", "2024-09-30", "2024-10-01"]);
}
