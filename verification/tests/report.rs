use item_build::items::Item;
use item_build::optimizer::{interpret, Build, Requirements, SolverOutcome};
use item_build::optimizer::OptimizeError;
use item_build::report::{render, render_row, summarize, tabulate, Report, Row};

fn entry(name: &str, cost: u64, ad: u64, ap: u64, asp: u64, ms: u64) -> Item {
    Item { name: name.to_string(), id: name.to_string(), cost, ad, ap, asp, ms, limit: 10 }
}

fn shelf() -> Vec<Item> {
    vec![
        entry("Dagger", 1100, 0, 0, 25, 0),
        entry("Hexplate", 3000, 30, 30, 25, 0),
        entry("Nashor's Tooth", 2700, 45, 10, 30, 5),
    ]
}

#[test]
fn only_chosen_items_have_rows() {
    let items = shelf();
    let build = Build { counts: vec![0, 2, 4], cost: 16800 };
    let report = tabulate(&items, &build);
    assert_eq!(
        report.rows,
        vec![
            Row { count: 2, name: "Hexplate".to_string(), cost: 3000, ad: 30, ap: 30, asp: 25, ms: 0 },
            Row { count: 4, name: "Nashor's Tooth".to_string(), cost: 2700, ad: 45, ap: 10, asp: 30, ms: 5 },
        ]
    );
    assert_eq!(report.cost, 16800);
    assert_eq!((report.ad, report.ap, report.asp, report.ms), (240, 100, 170, 20));
}

#[test]
fn nothing_chosen_gives_an_empty_table() {
    let report = tabulate(&shelf(), &Build { counts: vec![0, 0, 0], cost: 0 });
    assert!(report.rows.is_empty());
    assert_eq!((report.cost, report.ad, report.ap, report.asp, report.ms), (0, 0, 0, 0, 0));
    let single = tabulate(&shelf(), &Build { counts: vec![1, 0, 0], cost: 1100 });
    assert_eq!(single.rows.len(), 1);
    assert_eq!((single.ad, single.ap, single.asp, single.ms), (0, 0, 25, 0));
}

#[test]
fn totals_of_large_stats_do_not_overflow() {
    let items = vec![entry("a", 1, u64::MAX, 0, 0, 0), entry("b", 1, u64::MAX, 0, 0, u64::MAX)];
    let report = tabulate(&items, &Build { counts: vec![1, 3], cost: 4 });
    assert_eq!(report.ad, 4 * (u64::MAX as u128));
    assert_eq!(report.ms, 3 * (u64::MAX as u128));
    let most = tabulate(&items, &Build { counts: vec![1, i64::MAX], cost: 0 });
    assert_eq!(most.ad, (u64::MAX as u128) * (1u128 << 63));
}

#[test]
fn row_is_laid_out_in_columns() {
    let row = Row { count: 2, name: "Hexplate".to_string(), cost: 3000, ad: 30, ap: 30, asp: 25, ms: 0 };
    assert_eq!(render_row(&row), "2      Hexplate                 3000   30  30  25           0  ");
}

#[test]
fn report_is_rendered_line_by_line() {
    let items = shelf();
    let req = Requirements::default();
    let build = interpret(&items, &req, &SolverOutcome::Optimal(vec![0, 2, 4])).unwrap();
    let lines = render(&tabulate(&items, &build));
    assert_eq!(
        lines,
        vec![
            "-----",
            "Best build",
            "Total cost: 16800",
            "",
            "count  name                     cost   ad  ap  attack speed movement speed",
            "2      Hexplate                 3000   30  30  25           0  ",
            "4      Nashor's Tooth           2700   45  10  30           5  ",
            "-----",
            "total                           16800  240 100 170          20 ",
        ]
    );
}

#[test]
fn empty_report_still_has_its_frame() {
    let report = Report { rows: vec![], cost: 0, ad: 0, ap: 0, asp: 0, ms: 0 };
    let lines = render(&report);
    assert_eq!(lines.len(), 7);
    assert_eq!(lines[2], "Total cost: 0");
    assert_eq!(lines[6], "total                           0      0   0   0            0  ");
}

#[test]
fn same_build_gives_the_same_report() {
    let items = shelf();
    let build = Build { counts: vec![1, 0, 5], cost: 14600 };
    let first = tabulate(&items, &build);
    let second = tabulate(&items, &build);
    assert_eq!(first, second);
    assert_eq!(render(&first), render(&second));
}

#[test]
fn numbers_are_written_in_decimal() {
    for n in [0u128, 1, 9, 10, 11, 99, 100, 101, 16800, 1_000_000, u64::MAX as u128, u128::MAX] {
        assert_eq!(item_build::report::decimal(n), n.to_string());
    }
    assert_eq!(item_build::report::decimal(4095), "4095");
}

#[test]
fn cells_are_padded_on_the_right() {
    assert_eq!(item_build::report::pad("ab", 6), "ab    ");
    assert_eq!(item_build::report::pad("", 3), "   ");
    assert_eq!(item_build::report::pad("abcdef", 6), "abcdef");
    assert_eq!(item_build::report::pad("movement speed", 3), "movement speed");
    assert_eq!(item_build::report::pad("Séraphine", 12), format!("{:<12}", "Séraphine"));
    assert_eq!(item_build::report::pad("x", 0), "x");
}

#[test]
fn table_line_matches_left_aligned_columns() {
    let cells = ["4", "Rabadon's Deathcap of the Ancients", "3600", "0", "130", "0", "12345"];
    let line = item_build::report::table_line(
        cells[0], cells[1], cells[2], cells[3], cells[4], cells[5], cells[6],
    );
    let expected = format!(
        "{:<6} {:<24} {:<6} {:<3} {:<3} {:<12} {:<3}",
        cells[0], cells[1], cells[2], cells[3], cells[4], cells[5], cells[6]
    );
    assert_eq!(line, expected);
}

#[test]
fn totals_are_what_the_thresholds_are_held_against() {
    let items = shelf();
    let req = Requirements { slots: 6, ad: 240, ap: 100, asp: 170 };
    let report = summarize(&items, &req, &SolverOutcome::Optimal(vec![0, 2, 4])).unwrap();
    assert_eq!((report.cost, report.ad, report.ap, report.asp, report.ms), (16800, 240, 100, 170, 20));
    assert_eq!(report.rows.len(), 2);
    let tighter = Requirements { slots: 6, ad: 241, ap: 100, asp: 170 };
    assert_eq!(
        summarize(&items, &tighter, &SolverOutcome::Optimal(vec![0, 2, 4])).unwrap_err(),
        OptimizeError::SolverInternalError
    );
    assert_eq!(
        summarize(&items, &req, &SolverOutcome::Infeasible).unwrap_err(),
        OptimizeError::Infeasible
    );
    assert_eq!(
        summarize(&items, &req, &SolverOutcome::TimedOut).unwrap_err(),
        OptimizeError::SolverTimeout
    );
    assert_eq!(
        summarize(&items, &req, &SolverOutcome::Unbounded).unwrap_err(),
        OptimizeError::Unbounded
    );
}
