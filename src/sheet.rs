use vstd::prelude::*;
use vstd::string::*;
use crate::ledger::{
    extend_columns, fresh_fits, lemma_merge_again_is_stable, merged_table, table_snapshot, total_header_of,
    Layout, Table, TableView,
};
use crate::snapshot::{
    cell_count, cell_keys, grid_records, grid_snapshot, is_aggregate_label, is_blank, is_skipped, labels_of,
    last_index, lemma_last_index_found, lemma_last_index_range, record_keys, recorded_value, row_cells,
    SnapshotView,
};

verus! {

/// A row of the sheet a table is written as: the text of its first cell and
/// the numbers after it.
pub struct SheetRow {
    pub key: String,
    pub cells: Vec<i128>,
}

/// The sheet a table is written as: a header row, then the rows below it.
pub struct Sheet {
    pub header: Vec<String>,
    pub rows: Vec<SheetRow>,
}

impl View for SheetRow {
    type V = (Seq<char>, Seq<int>);

    open spec fn view(&self) -> (Seq<char>, Seq<int>) {
        (self.key@, self.cells@.map_values(|x: i128| x as int))
    }
}

impl View for Sheet {
    type V = (Seq<Seq<char>>, Seq<(Seq<char>, Seq<int>)>);

    open spec fn view(&self) -> (Seq<Seq<char>>, Seq<(Seq<char>, Seq<int>)>) {
        (labels_of(self.header@), self.rows@.map_values(|r: SheetRow| r@))
    }
}

pub open spec fn sheet_header(t: TableView) -> Seq<Seq<char>> {
    seq!["Wallet Address"@] + t.columns + seq![t.total_header]
}

/// The data rows of the sheet: each wallet, its values, then its total.
pub open spec fn sheet_data_rows(t: TableView) -> Seq<(Seq<char>, Seq<int>)> {
    Seq::new(t.rows.len(), |i: int| (t.rows[i].wallet, t.rows[i].values.push(t.rows[i].total)))
}

/// The aggregate rows of the sheet: each label, the column totals, then its
/// grand total.
pub open spec fn sheet_aggregate_rows(t: TableView) -> Seq<(Seq<char>, Seq<int>)> {
    Seq::new(t.aggregates.len(), |k: int| (t.aggregates[k].0, t.column_totals.push(t.aggregates[k].1)))
}

pub open spec fn sheet_of(t: TableView) -> (Seq<Seq<char>>, Seq<(Seq<char>, Seq<int>)>) {
    (sheet_header(t), sheet_data_rows(t) + sheet_aggregate_rows(t))
}

impl Table {
    /// The sheet this table is written as: a header of "Wallet Address", the
    /// columns and the total header; one row per wallet with its values and
    /// total; then one row per aggregate with the column totals and its grand
    /// total.
    pub fn to_sheet(&self) -> (r: Sheet)
        ensures
            r@ == sheet_of(self@),
    {
        let ghost tv = self@;
        let mut header: Vec<String> = vec![String::from_str("Wallet Address")];
        let mut j: usize = 0;
        while j < self.columns.len()
            invariant
                j <= self.columns.len(),
                header.len() == j + 1,
                header[0]@ == "Wallet Address"@,
                forall|t: int| 0 <= t < j ==> #[trigger] header[t + 1] == self.columns[t],
            decreases self.columns.len() - j,
        {
            let c = self.columns[j].clone();
            header.push(c);
            j = j + 1;
        }
        let th = self.total_header.clone();
        header.push(th);
        assert(labels_of(header@) =~= sheet_header(tv)) by {
            assert forall|t: int| 0 <= t < header.len() implies #[trigger] labels_of(header@)[t] == sheet_header(tv)[t] by {
                if 0 < t < header.len() - 1 {
                    assert(header[(t - 1) + 1] == self.columns[t - 1]);
                }
            }
        }
        let mut rows: Vec<SheetRow> = Vec::new();
        let mut i: usize = 0;
        while i < self.rows.len()
            invariant
                tv == self@,
                i <= self.rows.len(),
                rows.len() == i,
                forall|t: int| 0 <= t < i ==> #[trigger] rows[t]@ == sheet_data_rows(tv)[t],
            decreases self.rows.len() - i,
        {
            let row = &self.rows[i];
            let mut cells: Vec<i128> = Vec::new();
            let mut k: usize = 0;
            while k < row.values.len()
                invariant
                    k <= row.values.len(),
                    cells.len() == k,
                    forall|t: int| 0 <= t < k ==> #[trigger] cells[t] as int == row.values[t] as int,
                decreases row.values.len() - k,
            {
                cells.push(row.values[k] as i128);
                k = k + 1;
            }
            cells.push(row.total);
            let sr = SheetRow { key: row.wallet.clone(), cells };
            assert(tv.rows[i as int] == row@);
            assert(sr@.1 =~= tv.rows[i as int].values.push(tv.rows[i as int].total));
            rows.push(sr);
            i = i + 1;
        }
        let mut a: usize = 0;
        while a < self.aggregates.len()
            invariant
                tv == self@,
                rows.len() == sheet_data_rows(tv).len() + a,
                a <= self.aggregates.len(),
                forall|t: int| 0 <= t < sheet_data_rows(tv).len() ==> #[trigger] rows[t]@ == sheet_data_rows(tv)[t],
                forall|t: int| 0 <= t < a ==> #[trigger] rows[sheet_data_rows(tv).len() + t]@ == sheet_aggregate_rows(tv)[t],
            decreases self.aggregates.len() - a,
        {
            let mut cells: Vec<i128> = Vec::new();
            let mut k: usize = 0;
            while k < self.column_totals.len()
                invariant
                    tv == self@,
                    k <= self.column_totals.len(),
                    cells.len() == k,
                    forall|t: int| 0 <= t < k ==> #[trigger] cells[t] == self.column_totals[t],
                decreases self.column_totals.len() - k,
            {
                cells.push(self.column_totals[k]);
                k = k + 1;
            }
            cells.push(self.aggregates[a].total);
            let sr = SheetRow { key: self.aggregates[a].label.clone(), cells };
            assert(sr@.1 =~= tv.column_totals.push(tv.aggregates[a as int].1));
            rows.push(sr);
            a = a + 1;
        }
        let ghost rv = rows@.map_values(|r: SheetRow| r@);
        assert(rv =~= sheet_data_rows(tv) + sheet_aggregate_rows(tv)) by {
            let n = sheet_data_rows(tv).len();
            assert forall|t: int| 0 <= t < rows.len() implies #[trigger] rv[t] == (sheet_data_rows(tv) + sheet_aggregate_rows(tv))[t] by {
                if t >= n {
                    assert(rows[n + (t - n)]@ == sheet_aggregate_rows(tv)[t - n]);
                }
            }
        }
        Sheet { header, rows }
    }
}


proof fn lemma_merge_reads_recorded(
    p1: SnapshotView,
    p2: SnapshotView,
    watched: Seq<Seq<char>>,
    today: Seq<Seq<char>>,
    fresh: Seq<Seq<i64>>,
    layout: Layout,
)
    requires
        p1.columns == p2.columns,
        forall|i: int, j: int|
            0 <= i < watched.len() && 0 <= j < extend_columns(p1.columns, today).len() ==> recorded_value(
                p1,
                watched[i],
                #[trigger] extend_columns(p1.columns, today)[j],
            ) == recorded_value(p2, #[trigger] watched[i], extend_columns(p1.columns, today)[j]),
    ensures
        merged_table(p1, watched, today, fresh, layout) == merged_table(p2, watched, today, fresh, layout),
{
    let t1 = merged_table(p1, watched, today, fresh, layout);
    let t2 = merged_table(p2, watched, today, fresh, layout);
    assert forall|i: int| 0 <= i < watched.len() implies #[trigger] t2.rows[i] == t1.rows[i] by {
        assert(t2.rows[i].values =~= t1.rows[i].values);
    }
    assert(t2.rows =~= t1.rows);
    assert(t2.column_totals =~= t1.column_totals);
}

proof fn lemma_last_index_push_other(keys: Seq<Seq<char>>, x: Seq<char>, key: Seq<char>)
    requires
        x != key,
    ensures
        last_index(keys.push(x), key) == last_index(keys, key),
{
    assert(keys.push(x).drop_last() =~= keys);
}

proof fn lemma_sheet_row_cells(header: Seq<Seq<char>>, cols: Seq<Seq<char>>, cells: Seq<int>, k: int)
    requires
        0 <= k <= cols.len(),
        cols.len() < header.len(),
        cols.len() < cells.len(),
        forall|j: int| 0 <= j < cols.len() ==> header[j + 1] == #[trigger] cols[j],
        forall|j: int| 0 <= j < cols.len() ==> #[trigger] cols[j] != "Total"@,
    ensures
        row_cells(header, cells, k) == Seq::new(k as nat, |j: int| (cols[j], cells[j])),
    decreases k,
{
    if k > 0 {
        lemma_sheet_row_cells(header, cols, cells, k - 1);
        assert(header[(k - 1) + 1] == cols[k - 1]);
        assert(row_cells(header, cells, k) =~= Seq::new(k as nat, |j: int| (cols[j], cells[j])));
    }
}

proof fn lemma_sheet_records(header: Seq<Seq<char>>, rows: Seq<(Seq<char>, Seq<int>)>, n: int, k: int)
    requires
        0 <= k <= rows.len(),
        0 <= n <= rows.len(),
        forall|i: int| 0 <= i < n ==> !is_skipped(#[trigger] rows[i]),
        forall|i: int| n <= i < rows.len() ==> is_aggregate_label(#[trigger] rows[i].0),
    ensures
        k <= n ==> grid_records(header, rows, k) == Seq::new(
            k as nat,
            |i: int| (rows[i].0, row_cells(header, rows[i].1, cell_count(header, rows[i].1))),
        ),
        k >= n ==> grid_records(header, rows, k) == grid_records(header, rows, n),
    decreases k,
{
    if k > 0 {
        lemma_sheet_records(header, rows, n, k - 1);
        if k <= n {
            assert(grid_records(header, rows, k) =~= Seq::new(
                k as nat,
                |i: int| (rows[i].0, row_cells(header, rows[i].1, cell_count(header, rows[i].1))),
            ));
        }
    }
}

/// Writing the table of a run as a sheet, reading that sheet back as the
/// prior snapshot and running the merge again with the same tracked wallets,
/// labels and fetch results gives back the same table. This holds where no
/// tracked wallet is blank or reads like an aggregate row, and no column is
/// labelled "Total" or like the total column: such rows or cells are not
/// read back.
pub proof fn lemma_rerun_from_sheet_is_stable(
    prior: SnapshotView,
    watched: Seq<Seq<char>>,
    today: Seq<Seq<char>>,
    fresh: Seq<Seq<i64>>,
    layout: Layout,
)
    requires
        fresh_fits(watched, today, fresh),
        forall|i: int| 0 <= i < watched.len() ==> !is_blank(#[trigger] watched[i]) && !is_aggregate_label(watched[i]),
        forall|j: int|
            0 <= j < extend_columns(prior.columns, today).len() ==> #[trigger] extend_columns(prior.columns, today)[j]
                != "Total"@ && extend_columns(prior.columns, today)[j] != total_header_of(layout),
    ensures
        ({
            let t = merged_table(prior, watched, today, fresh, layout);
            merged_table(grid_snapshot(sheet_of(t).0, sheet_of(t).1), watched, today, fresh, layout) == t
        }),
{
    let t = merged_table(prior, watched, today, fresh, layout);
    let cols = t.columns;
    let m = cols.len() as int;
    let n = watched.len() as int;
    let h = sheet_of(t).0;
    let rows = sheet_of(t).1;
    let gs = grid_snapshot(h, rows);
    let ts = table_snapshot(t);
    lemma_merge_again_is_stable(prior, watched, today, fresh, layout);
    assert(gs.columns =~= cols);
    assert forall|j: int| 0 <= j < m implies h[j + 1] == #[trigger] cols[j] by {}
    assert forall|i: int| 0 <= i < n implies !is_skipped(#[trigger] rows[i]) by {
        assert(rows[i].0 == watched[i]);
    }
    assert forall|i: int| n <= i < rows.len() implies is_aggregate_label(#[trigger] rows[i].0) by {}
    lemma_sheet_records(h, rows, n, rows.len() as int);
    lemma_sheet_records(h, rows, n, n);
    assert(record_keys(gs) =~= watched);
    assert forall|i: int, j: int| 0 <= i < n && 0 <= j < m implies recorded_value(
        ts,
        watched[i],
        #[trigger] extend_columns(ts.columns, today)[j],
    ) == recorded_value(gs, #[trigger] watched[i], extend_columns(ts.columns, today)[j]) by {
        assert(extend_columns(ts.columns, today) == cols);
        lemma_last_index_found(watched, watched[i], i);
        lemma_last_index_range(watched, watched[i]);
        let r = last_index(watched, watched[i]);
        assert(record_keys(ts) =~= watched);
        let cells = rows[r].1;
        assert(cells == t.rows[r].values.push(t.rows[r].total));
        lemma_sheet_row_cells(h, cols, cells, m);
        let base = Seq::new(m as nat, |k: int| (cols[k], cells[k]));
        assert(cell_keys(base) =~= cols);
        assert(cell_keys(ts.records[r].1) =~= cols);
        lemma_last_index_found(cols, cols[j], j);
        lemma_last_index_range(cols, cols[j]);
        assert(cell_count(h, cells) == m + 1);
        if h[m + 1] != "Total"@ {
            assert(row_cells(h, cells, m + 1) == base.push((h[m + 1], cells[m])));
            assert(cell_keys(base.push((h[m + 1], cells[m]))) =~= cols.push(h[m + 1]));
            lemma_last_index_push_other(cols, h[m + 1], cols[j]);
        }
    }
    lemma_merge_reads_recorded(ts, gs, watched, today, fresh, layout);
}


} // verus!
