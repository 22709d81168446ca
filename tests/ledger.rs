use wallet_ledger::label::shorten_address;
use wallet_ledger::ledger::{fresh_or_zero, merge, Layout, Row, Table};
use wallet_ledger::snapshot::{Cell, GridRow, Record, Snapshot};

fn s(t: &str) -> String {
    t.to_string()
}

fn strings(v: &[&str]) -> Vec<String> {
    v.iter().map(|t| t.to_string()).collect()
}

fn day_one_snapshot() -> Snapshot {
    Snapshot {
        columns: strings(&["Day 1"]),
        records: vec![Record { wallet: s("abc"), cells: vec![Cell { column: s("Day 1"), value: 50_000 }] }],
    }
}

fn column_names(t: &Table) -> Vec<String> {
    t.columns.clone()
}

fn row_of<'a>(t: &'a Table, w: &str) -> &'a Row {
    t.rows.iter().find(|r| r.wallet == w).unwrap()
}

/// Writes a table out as a sheet and reads it back.
fn reread(t: &Table) -> Snapshot {
    let sheet = t.to_sheet();
    let rows: Vec<GridRow> = sheet
        .rows
        .iter()
        .map(|r| GridRow { key: r.key.clone(), cells: r.cells.iter().map(|x| *x as i64).collect() })
        .collect();
    Snapshot::from_grid(&sheet.header, &rows)
}

#[test]
fn scenario_day_two_combined() {
    let watched = strings(&["abc", "def"]);
    let today = Layout::Combined.column_labels(2);
    assert_eq!(today, strings(&["Day 2"]));
    let fresh = vec![vec![70_000], vec![30_000]];
    let t = merge(&day_one_snapshot(), &watched, &today, &fresh, Layout::Combined);
    assert_eq!(column_names(&t), strings(&["Day 1", "Day 2"]));
    assert_eq!(t.total_header, "Total");
    assert_eq!(t.rows.len(), 2);
    assert_eq!(t.rows[0].wallet, "abc");
    assert_eq!(t.rows[0].values, vec![50_000, 70_000]);
    assert_eq!(t.rows[0].total, 120_000);
    assert_eq!(t.rows[1].wallet, "def");
    assert_eq!(t.rows[1].values, vec![0, 30_000]);
    assert_eq!(t.rows[1].total, 30_000);
    assert_eq!(t.column_totals, vec![50_000, 100_000]);
    assert_eq!(t.aggregates.len(), 1);
    assert_eq!(t.aggregates[0].label, "Total All");
    assert_eq!(t.aggregates[0].total, 150_000);
}

#[test]
fn rerun_same_day_gives_same_table() {
    let watched = strings(&["abc", "def"]);
    let today = Layout::Split.column_labels(3);
    let fresh = vec![vec![40_000, 12_346], vec![10_000, 5]];
    let prior = Snapshot {
        columns: strings(&["Day 2 Solution", "Day 2 Night"]),
        records: vec![Record {
            wallet: s("abc"),
            cells: vec![Cell { column: s("Day 2 Solution"), value: 20_000 }, Cell { column: s("Day 2 Night"), value: 7 }],
        }],
    };
    let first = merge(&prior, &watched, &today, &fresh, Layout::Split);
    let second = merge(&reread(&first), &watched, &today, &fresh, Layout::Split);
    assert_eq!(first.columns, second.columns);
    assert_eq!(first.columns.len(), 4);
    assert_eq!(first.rows.len(), second.rows.len());
    for (a, b) in first.rows.iter().zip(second.rows.iter()) {
        assert_eq!(a.wallet, b.wallet);
        assert_eq!(a.values, b.values);
        assert_eq!(a.total, b.total);
    }
    assert_eq!(first.column_totals, second.column_totals);
    assert_eq!(first.aggregates.len(), second.aggregates.len());
    for (a, b) in first.aggregates.iter().zip(second.aggregates.iter()) {
        assert_eq!(a.label, b.label);
        assert_eq!(a.total, b.total);
    }
}

#[test]
fn columns_are_kept_and_appended() {
    let prior = Snapshot { columns: strings(&["Zeta", "Alpha", "Day 5 Night"]), records: vec![] };
    let watched = strings(&["w"]);
    let today = Layout::Split.column_labels(5);
    let t = merge(&prior, &watched, &today, &vec![vec![1, 2]], Layout::Split);
    assert_eq!(t.columns, strings(&["Zeta", "Alpha", "Day 5 Night", "Day 5 Solution"]));
    assert_eq!(t.rows[0].values, vec![0, 0, 2, 1]);
}

#[test]
fn untracked_wallets_are_dropped() {
    let prior = Snapshot {
        columns: strings(&["Day 1"]),
        records: vec![
            Record { wallet: s("old"), cells: vec![Cell { column: s("Day 1"), value: 9 }] },
            Record { wallet: s("abc"), cells: vec![Cell { column: s("Day 1"), value: 4 }] },
        ],
    };
    let watched = strings(&["new", "abc"]);
    let today = Layout::Combined.column_labels(2);
    let t = merge(&prior, &watched, &today, &vec![vec![1], vec![2]], Layout::Combined);
    let wallets: Vec<String> = t.rows.iter().map(|r| r.wallet.clone()).collect();
    assert_eq!(wallets, strings(&["new", "abc"]));
    assert_eq!(t.column_totals, vec![4, 3]);
}

#[test]
fn split_totals_follow_labels() {
    let watched = strings(&["a", "b"]);
    let today = Layout::Split.column_labels(7);
    assert_eq!(today, strings(&["Day 7 Solution", "Day 7 Night"]));
    let prior = Snapshot {
        columns: strings(&["Day 6 Solution", "Day 6 Night"]),
        records: vec![Record {
            wallet: s("a"),
            cells: vec![Cell { column: s("Day 6 Solution"), value: 30_000 }, Cell { column: s("Day 6 Night"), value: 100 }],
        }],
    };
    let fresh = vec![vec![20_000, 200], vec![10_000, 1_000]];
    let t = merge(&prior, &watched, &today, &fresh, Layout::Split);
    assert_eq!(t.total_header, "Total Night per address");
    assert_eq!(row_of(&t, "a").total, 300);
    assert_eq!(row_of(&t, "b").total, 1_000);
    assert_eq!(t.column_totals, vec![30_000, 100, 30_000, 1_200]);
    assert_eq!(t.aggregates[0].label, "Total Solution");
    assert_eq!(t.aggregates[0].total, 60_000);
    assert_eq!(t.aggregates[1].label, "Total Night");
    assert_eq!(t.aggregates[1].total, 1_300);
    for r in &t.rows {
        let night: i128 = r
            .values
            .iter()
            .zip(t.columns.iter())
            .filter(|(_, c)| c.contains("Night"))
            .map(|(v, _)| *v as i128)
            .sum();
        assert_eq!(r.total, night);
    }
    for (j, total) in t.column_totals.iter().enumerate() {
        let sum: i128 = t.rows.iter().map(|r| r.values[j] as i128).sum();
        assert_eq!(*total, sum);
    }
}

#[test]
fn same_day_updates_in_place() {
    let watched = strings(&["abc"]);
    let today = Layout::Combined.column_labels(1);
    let t = merge(&day_one_snapshot(), &watched, &today, &vec![vec![80_000]], Layout::Combined);
    assert_eq!(t.columns, strings(&["Day 1"]));
    assert_eq!(t.rows[0].values, vec![80_000]);
}

#[test]
fn empty_prior_and_no_wallets() {
    let today = Layout::Combined.column_labels(10);
    assert_eq!(today, strings(&["Day 10"]));
    let t = merge(&Snapshot::empty(), &vec![], &today, &vec![], Layout::Combined);
    assert_eq!(t.columns, strings(&["Day 10"]));
    assert!(t.rows.is_empty());
    assert_eq!(t.column_totals, vec![0]);
    assert_eq!(t.aggregates[0].total, 0);
}

#[test]
fn large_values_do_not_overflow() {
    let watched = strings(&["a", "b"]);
    let today = Layout::Combined.column_labels(1);
    let fresh = vec![vec![i64::MAX], vec![i64::MAX]];
    let t = merge(&Snapshot::empty(), &watched, &today, &fresh, Layout::Combined);
    assert_eq!(t.column_totals, vec![2 * (i64::MAX as i128)]);
}

#[test]
fn failed_fetch_becomes_zeros() {
    let fetched = vec![Some(vec![5, 6]), None, Some(vec![1])];
    let r = fresh_or_zero(&fetched, 2);
    assert_eq!(r, vec![vec![5, 6], vec![0, 0], vec![0, 0]]);
}

#[test]
fn grid_skips_totals_and_blank_rows() {
    let header = strings(&["Wallet Address", "Day 1", "Total", "Day 2", "Total"]);
    let rows = vec![
        GridRow { key: s("abc"), cells: vec![1, 2, 3, 4] },
        GridRow { key: s("  "), cells: vec![9] },
        GridRow { key: s("short"), cells: vec![] },
        GridRow { key: s("def"), cells: vec![7] },
        GridRow { key: s("Total All"), cells: vec![8, 2, 3, 4] },
        GridRow { key: s("Total Night"), cells: vec![8] },
    ];
    let snap = Snapshot::from_grid(&header, &rows);
    assert_eq!(snap.columns, strings(&["Day 1", "Total", "Day 2"]));
    assert_eq!(snap.records.len(), 2);
    assert_eq!(snap.records[0].wallet, "abc");
    let cells: Vec<(String, i64)> = snap.records[0].cells.iter().map(|c| (c.column.clone(), c.value)).collect();
    assert_eq!(cells, vec![(s("Day 1"), 1), (s("Day 2"), 3)]);
    assert_eq!(snap.records[1].wallet, "def");
    assert_eq!(snap.records[1].cells.len(), 1);
    assert_eq!(snap.recorded(&s("abc"), &s("Day 2")), 3);
    assert_eq!(snap.recorded(&s("def"), &s("Day 2")), 0);
    assert_eq!(snap.recorded(&s("Total All"), &s("Day 1")), 0);
}

#[test]
fn later_records_win() {
    let snap = Snapshot {
        columns: strings(&["c"]),
        records: vec![
            Record { wallet: s("w"), cells: vec![Cell { column: s("c"), value: 1 }] },
            Record { wallet: s("w"), cells: vec![Cell { column: s("c"), value: 2 }, Cell { column: s("c"), value: 3 }] },
        ],
    };
    assert_eq!(snap.recorded(&s("w"), &s("c")), 3);
}

#[test]
fn header_of_one_cell_has_no_columns() {
    let snap = Snapshot::from_grid(&strings(&["Wallet Address"]), &vec![GridRow { key: s("a"), cells: vec![1] }]);
    assert!(snap.columns.is_empty());
    assert_eq!(snap.records.len(), 1);
    assert!(snap.records[0].cells.is_empty());
}

#[test]
fn short_address_unchanged() {
    let a = "abcdefghijklmnopqrstuvwx";
    assert_eq!(a.len(), 24);
    assert_eq!(shorten_address(a), a);
}

#[test]
fn long_address_shortened() {
    let a = "abcdefghijklmnopqrstuvwxyz0123";
    assert_eq!(a.len(), 30);
    assert_eq!(shorten_address(a), "abcdefghijklmnopqrst...123");
    assert_eq!(shorten_address("abcdefghijklmnopqrstuvwxy"), "abcdefghijklmnopqrst...wxy");
}

#[test]
fn day_labels_render_numbers() {
    assert_eq!(Layout::Combined.column_labels(0), strings(&["Day 0"]));
    assert_eq!(Layout::Split.column_labels(4_294_967_295), strings(&["Day 4294967295 Solution", "Day 4294967295 Night"]));
    assert_eq!(Layout::Combined.column_labels(105), strings(&["Day 105"]));
}

#[test]
fn sheet_layout_of_combined_table() {
    let watched = strings(&["abc", "def"]);
    let today = Layout::Combined.column_labels(2);
    let t = merge(&day_one_snapshot(), &watched, &today, &vec![vec![70_000], vec![30_000]], Layout::Combined);
    let sheet = t.to_sheet();
    assert_eq!(sheet.header, strings(&["Wallet Address", "Day 1", "Day 2", "Total"]));
    assert_eq!(sheet.rows.len(), 3);
    assert_eq!(sheet.rows[0].key, "abc");
    assert_eq!(sheet.rows[0].cells, vec![50_000, 70_000, 120_000]);
    assert_eq!(sheet.rows[1].key, "def");
    assert_eq!(sheet.rows[1].cells, vec![0, 30_000, 30_000]);
    assert_eq!(sheet.rows[2].key, "Total All");
    assert_eq!(sheet.rows[2].cells, vec![50_000, 100_000, 150_000]);
    let again = merge(&reread(&t), &watched, &today, &vec![vec![70_000], vec![30_000]], Layout::Combined);
    assert_eq!(again.columns, t.columns);
    assert_eq!(again.rows[0].values, t.rows[0].values);
    assert_eq!(again.rows[1].values, t.rows[1].values);
    assert_eq!(again.aggregates[0].total, 150_000);
}

#[test]
fn sheet_layout_of_split_table() {
    let watched = strings(&["a"]);
    let today = Layout::Split.column_labels(1);
    let t = merge(&Snapshot::empty(), &watched, &today, &vec![vec![30_000, 12_346]], Layout::Split);
    let sheet = t.to_sheet();
    assert_eq!(sheet.header, strings(&["Wallet Address", "Day 1 Solution", "Day 1 Night", "Total Night per address"]));
    let keys: Vec<String> = sheet.rows.iter().map(|r| r.key.clone()).collect();
    assert_eq!(keys, strings(&["a", "Total Solution", "Total Night"]));
    assert_eq!(sheet.rows[0].cells, vec![30_000, 12_346, 12_346]);
    assert_eq!(sheet.rows[1].cells, vec![30_000, 12_346, 30_000]);
    assert_eq!(sheet.rows[2].cells, vec![30_000, 12_346, 12_346]);
}
