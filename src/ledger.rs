use vstd::prelude::*;
use vstd::string::*;
use crate::label::{contains_text, decimal, has_infix, push_decimal};
use crate::snapshot::{
    cell_keys, label_position, labels_of, last_index, lemma_last_index_found, lemma_last_index_range,
    record_keys, recorded_value, Snapshot, SnapshotView,
};

verus! {

/// How a day's metrics are laid out: one combined column per day, or a
/// "Solution" and a "Night" column per day.
pub enum Layout {
    Combined,
    Split,
}

/// A data row of the reconciled table.
pub struct Row {
    pub wallet: String,
    pub values: Vec<i64>,
    pub total: i128,
}

/// A trailing aggregate row: its label and its grand total.
pub struct Aggregate {
    pub label: String,
    pub total: i128,
}

/// The reconciled table: data columns, one row per tracked wallet, the sum of
/// each column over the rows, and the aggregate rows.
pub struct Table {
    pub columns: Vec<String>,
    pub total_header: String,
    pub rows: Vec<Row>,
    pub column_totals: Vec<i128>,
    pub aggregates: Vec<Aggregate>,
}

pub struct RowView {
    pub wallet: Seq<char>,
    pub values: Seq<int>,
    pub total: int,
}

pub struct TableView {
    pub columns: Seq<Seq<char>>,
    pub total_header: Seq<char>,
    pub rows: Seq<RowView>,
    pub column_totals: Seq<int>,
    pub aggregates: Seq<(Seq<char>, int)>,
}

impl View for Row {
    type V = RowView;

    open spec fn view(&self) -> RowView {
        RowView {
            wallet: self.wallet@,
            values: self.values@.map_values(|x: i64| x as int),
            total: self.total as int,
        }
    }
}

impl View for Table {
    type V = TableView;

    open spec fn view(&self) -> TableView {
        TableView {
            columns: labels_of(self.columns@),
            total_header: self.total_header@,
            rows: self.rows@.map_values(|r: Row| r@),
            column_totals: self.column_totals@.map_values(|x: i128| x as int),
            aggregates: self.aggregates@.map_values(|a: Aggregate| (a.label@, a.total as int)),
        }
    }
}

/// The value of wallet `w` under column `col` after today's fetch results
/// are written over the prior snapshot.
pub open spec fn merged_value(
    prior: SnapshotView,
    watched: Seq<Seq<char>>,
    today: Seq<Seq<char>>,
    fresh: Seq<Seq<i64>>,
    w: Seq<char>,
    col: Seq<char>,
) -> int {
    let f = last_index(watched, w);
    let k = last_index(today, col);
    if f >= 0 && k >= 0 {
        fresh[f][k] as int
    } else {
        recorded_value(prior, w, col)
    }
}

/// The prior columns with each of today's labels appended unless present.
pub open spec fn extend_columns(cols: Seq<Seq<char>>, today: Seq<Seq<char>>) -> Seq<Seq<char>>
    decreases today.len(),
{
    if today.len() == 0 {
        cols
    } else {
        let c = extend_columns(cols, today.drop_last());
        if last_index(c, today.last()) >= 0 {
            c
        } else {
            c.push(today.last())
        }
    }
}

/// Whether a column counts towards a total filtered by `pat`: every column
/// where there is no filter, else those whose label holds `pat`.
pub open spec fn selects(pat: Option<Seq<char>>, label: Seq<char>) -> bool {
    match pat {
        Some(p) => has_infix(label, p),
        None => true,
    }
}

/// The sum of the first `n` values whose column `pat` selects.
pub open spec fn sum_where(labels: Seq<Seq<char>>, vals: Seq<int>, pat: Option<Seq<char>>, n: int) -> int
    decreases n,
{
    if n <= 0 {
        0
    } else {
        sum_where(labels, vals, pat, n - 1) + if selects(pat, labels[n - 1]) {
            vals[n - 1]
        } else {
            0
        }
    }
}

/// The sum of column `j` over the first `n` rows.
pub open spec fn column_sum(rows: Seq<RowView>, j: int, n: int) -> int
    decreases n,
{
    if n <= 0 {
        0
    } else {
        column_sum(rows, j, n - 1) + rows[n - 1].values[j]
    }
}

pub open spec fn night_text() -> Seq<char> {
    "Night"@
}

pub open spec fn solution_text() -> Seq<char> {
    "Solution"@
}

/// The columns that a row's total sums.
pub open spec fn row_pattern(layout: Layout) -> Option<Seq<char>> {
    match layout {
        Layout::Combined => None,
        Layout::Split => Some(night_text()),
    }
}

pub open spec fn total_header_of(layout: Layout) -> Seq<char> {
    match layout {
        Layout::Combined => "Total"@,
        Layout::Split => "Total Night per address"@,
    }
}

/// The aggregate rows: their labels and grand totals over the column sums.
pub open spec fn aggregates_of(layout: Layout, cols: Seq<Seq<char>>, totals: Seq<int>) -> Seq<
    (Seq<char>, int),
> {
    match layout {
        Layout::Combined => seq![("Total All"@, sum_where(cols, totals, None, cols.len() as int))],
        Layout::Split => seq![
            ("Total Solution"@, sum_where(cols, totals, Some(solution_text()), cols.len() as int)),
            ("Total Night"@, sum_where(cols, totals, Some(night_text()), cols.len() as int)),
        ],
    }
}

pub open spec fn merged_row(
    prior: SnapshotView,
    watched: Seq<Seq<char>>,
    today: Seq<Seq<char>>,
    fresh: Seq<Seq<i64>>,
    layout: Layout,
    cols: Seq<Seq<char>>,
    w: Seq<char>,
) -> RowView {
    let values = Seq::new(cols.len(), |j: int| merged_value(prior, watched, today, fresh, w, cols[j]));
    RowView { wallet: w, values, total: sum_where(cols, values, row_pattern(layout), cols.len() as int) }
}

/// The reconciled table for a prior snapshot, the tracked wallets in order,
/// today's column labels and each tracked wallet's fetched values.
pub open spec fn merged_table(
    prior: SnapshotView,
    watched: Seq<Seq<char>>,
    today: Seq<Seq<char>>,
    fresh: Seq<Seq<i64>>,
    layout: Layout,
) -> TableView {
    let cols = extend_columns(prior.columns, today);
    let rows = Seq::new(
        watched.len(),
        |i: int| merged_row(prior, watched, today, fresh, layout, cols, watched[i]),
    );
    let totals = Seq::new(cols.len(), |j: int| column_sum(rows, j, rows.len() as int));
    TableView {
        columns: cols,
        total_header: total_header_of(layout),
        rows,
        column_totals: totals,
        aggregates: aggregates_of(layout, cols, totals),
    }
}

pub open spec fn fresh_view(f: Seq<Vec<i64>>) -> Seq<Seq<i64>> {
    f.map_values(|v: Vec<i64>| v@)
}

pub open spec fn pattern_view(p: Option<&str>) -> Option<Seq<char>> {
    match p {
        Some(t) => Some(t@),
        None => None,
    }
}

pub proof fn lemma_extend_len(cols: Seq<Seq<char>>, today: Seq<Seq<char>>)
    ensures
        extend_columns(cols, today).len() <= cols.len() + today.len(),
    decreases today.len(),
{
    if today.len() > 0 {
        lemma_extend_len(cols, today.drop_last());
    }
}

fn value_at(
    prior: &Snapshot,
    watched: &Vec<String>,
    today: &Vec<String>,
    fresh: &Vec<Vec<i64>>,
    w: &String,
    col: &String,
) -> (r: i64)
    requires
        fresh.len() == watched.len(),
        forall|i: int| 0 <= i < fresh.len() ==> #[trigger] fresh[i].len() == today.len(),
    ensures
        r as int == merged_value(prior@, labels_of(watched@), labels_of(today@), fresh_view(fresh@), w@, col@),
{
    proof {
        lemma_last_index_range(labels_of(watched@), w@);
        lemma_last_index_range(labels_of(today@), col@);
    }
    match label_position(watched, w) {
        Some(f) => match label_position(today, col) {
            Some(k) => {
                assert(fresh[f as int].len() == today.len());
                assert(fresh_view(fresh@)[f as int] == fresh[f as int]@);
                fresh[f][k]
            },
            None => prior.recorded(w, col),
        },
        None => prior.recorded(w, col),
    }
}

fn extended_columns(cols: &Vec<String>, today: &Vec<String>) -> (r: Vec<String>)
    ensures
        labels_of(r@) == extend_columns(labels_of(cols@), labels_of(today@)),
{
    let mut r: Vec<String> = Vec::new();
    let mut i: usize = 0;
    while i < cols.len()
        invariant
            i <= cols.len(),
            r@ == cols@.take(i as int),
        decreases cols.len() - i,
    {
        let c = cols[i].clone();
        assert(c@ == cols@[i as int]@);
        r.push(c);
        i = i + 1;
        assert(r@ =~= cols@.take(i as int));
    }
    assert(cols@.take(i as int) =~= cols@);
    let ghost t = labels_of(today@);
    assert(t.take(0) =~= Seq::<Seq<char>>::empty());
    let mut k: usize = 0;
    while k < today.len()
        invariant
            k <= today.len(),
            t == labels_of(today@),
            labels_of(r@) == extend_columns(labels_of(cols@), t.take(k as int)),
        decreases today.len() - k,
    {
        assert(t.take(k + 1).drop_last() =~= t.take(k as int));
        match label_position(&r, &today[k]) {
            Some(_) => {},
            None => {
                r.push(today[k].clone());
            },
        }
        k = k + 1;
        assert(labels_of(r@) =~= extend_columns(labels_of(cols@), t.take(k as int)));
    }
    assert(t.take(k as int) =~= t);
    r
}

fn selected(label: &String, pat: Option<&str>) -> (r: bool)
    ensures
        r == selects(pattern_view(pat), label@),
{
    match pat {
        Some(p) => contains_text(label.as_str(), p),
        None => true,
    }
}

fn filtered_total(cols: &Vec<String>, totals: &Vec<i128>, pat: Option<&str>) -> (r: i128)
    requires
        cols.len() == totals.len(),
        cols.len() <= 0x8000_0000,
        forall|j: int|
            0 <= j < totals.len() ==> -0x8000_0000_0000_0000_0000_0000 <= #[trigger] totals[j]
                <= 0x8000_0000_0000_0000_0000_0000,
    ensures
        r == sum_where(labels_of(cols@), totals@.map_values(|x: i128| x as int), pattern_view(pat), cols.len() as int),
{
    let ghost vals = totals@.map_values(|x: i128| x as int);
    let mut acc: i128 = 0;
    let mut j: usize = 0;
    while j < cols.len()
        invariant
            cols.len() == totals.len(),
            cols.len() <= 0x8000_0000,
            forall|j: int|
                0 <= j < totals.len() ==> -0x8000_0000_0000_0000_0000_0000 <= #[trigger] totals[j]
                    <= 0x8000_0000_0000_0000_0000_0000,
            vals == totals@.map_values(|x: i128| x as int),
            j <= cols.len(),
            acc == sum_where(labels_of(cols@), vals, pattern_view(pat), j as int),
            -0x8000_0000_0000_0000_0000_0000 * j <= acc <= 0x8000_0000_0000_0000_0000_0000 * j,
        decreases cols.len() - j,
    {
        if selected(&cols[j], pat) {
            acc = acc + totals[j];
        }
        j = j + 1;
    }
    acc
}

/// Reconciles a prior snapshot with today's fetch results.
///
/// `watched` lists the tracked wallets in output order, `today` the labels of
/// today's columns, and `fresh[i][k]` the value fetched for `watched[i]` under
/// `today[k]`. Today's labels are appended to the prior columns where absent;
/// each tracked wallet gets a row whose values are today's fetch results under
/// today's columns and its recorded values (or 0) elsewhere; wallets that are
/// no longer tracked are dropped. Row totals, column sums and the aggregate
/// rows follow the layout.
pub fn merge(
    prior: &Snapshot,
    watched: &Vec<String>,
    today: &Vec<String>,
    fresh: &Vec<Vec<i64>>,
    layout: Layout,
) -> (t: Table)
    requires
        fresh.len() == watched.len(),
        forall|i: int| 0 <= i < fresh.len() ==> #[trigger] fresh[i].len() == today.len(),
        watched.len() <= 0x1_0000_0000,
        prior.columns.len() + today.len() <= 0x8000_0000,
    ensures
        t@ == merged_table(prior@, labels_of(watched@), labels_of(today@), fresh_view(fresh@), layout),
{
    let ghost spec_t = merged_table(prior@, labels_of(watched@), labels_of(today@), fresh_view(fresh@), layout);
    let cols = extended_columns(&prior.columns, today);
    proof { lemma_extend_len(labels_of(prior.columns@), labels_of(today@)); }
    assert(spec_t.columns == labels_of(cols@));
    let m = cols.len();
    let row_pat: Option<&str> = match layout {
        Layout::Combined => None,
        Layout::Split => Some("Night"),
    };
    assert(pattern_view(row_pat) == row_pattern(layout));
    let mut rows: Vec<Row> = Vec::new();
    let mut i: usize = 0;
    while i < watched.len()
        invariant
            fresh.len() == watched.len(),
            forall|i: int| 0 <= i < fresh.len() ==> #[trigger] fresh[i].len() == today.len(),
            watched.len() <= 0x1_0000_0000,
            m == cols.len(),
            m <= 0x8000_0000,
            spec_t == merged_table(prior@, labels_of(watched@), labels_of(today@), fresh_view(fresh@), layout),
            spec_t.columns == labels_of(cols@),
            pattern_view(row_pat) == row_pattern(layout),
            i <= watched.len(),
            rows.len() == i,
            forall|r: int| 0 <= r < i ==> #[trigger] rows[r]@ == spec_t.rows[r],
            forall|r: int| 0 <= r < i ==> #[trigger] rows[r].values.len() == m,
        decreases watched.len() - i,
    {
        let w = &watched[i];
        let ghost sv = spec_t.rows[i as int].values;
        let mut values: Vec<i64> = Vec::new();
        let mut total: i128 = 0;
        let mut j: usize = 0;
        while j < m
            invariant
                fresh.len() == watched.len(),
                forall|i: int| 0 <= i < fresh.len() ==> #[trigger] fresh[i].len() == today.len(),
                m == cols.len(),
                m <= 0x8000_0000,
                i < watched.len(),
                w == &watched[i as int],
                spec_t == merged_table(prior@, labels_of(watched@), labels_of(today@), fresh_view(fresh@), layout),
                spec_t.columns == labels_of(cols@),
                pattern_view(row_pat) == row_pattern(layout),
                sv == spec_t.rows[i as int].values,
                j <= m,
                values.len() == j,
                forall|t: int| 0 <= t < j ==> #[trigger] values[t] as int == sv[t],
                total == sum_where(spec_t.columns, sv, row_pattern(layout), j as int),
                -0x8000_0000_0000_0000 * j <= total <= 0x8000_0000_0000_0000 * j,
            decreases m - j,
        {
            let v = value_at(prior, watched, today, fresh, w, &cols[j]);
            if selected(&cols[j], row_pat) {
                total = total + v as i128;
            }
            values.push(v);
            j = j + 1;
        }
        let row = Row { wallet: w.clone(), values, total };
        assert(row@.values =~= sv);
        rows.push(row);
        i = i + 1;
    }
    assert(rows@.map_values(|r: Row| r@) =~= spec_t.rows);
    let n = rows.len();
    let mut totals: Vec<i128> = Vec::new();
    let mut j: usize = 0;
    while j < m
        invariant
            m == cols.len(),
            m <= 0x8000_0000,
            n == rows.len(),
            n <= 0x1_0000_0000,
            spec_t.columns == labels_of(cols@),
            rows@.map_values(|r: Row| r@) == spec_t.rows,
            spec_t.column_totals == Seq::new(m as nat, |j: int| column_sum(spec_t.rows, j, n as int)),
            forall|r: int| 0 <= r < n ==> #[trigger] rows[r].values.len() == m,
            j <= m,
            totals.len() == j,
            forall|t: int| 0 <= t < j ==> #[trigger] totals[t] as int == spec_t.column_totals[t],
            forall|t: int|
                0 <= t < j ==> -0x8000_0000_0000_0000_0000_0000 <= #[trigger] totals[t]
                    <= 0x8000_0000_0000_0000_0000_0000,
        decreases m - j,
    {
        let mut s: i128 = 0;
        let mut r: usize = 0;
        while r < n
            invariant
                m == cols.len(),
                n == rows.len(),
                n <= 0x1_0000_0000,
                j < m,
                rows@.map_values(|r: Row| r@) == spec_t.rows,
                forall|r: int| 0 <= r < n ==> #[trigger] rows[r].values.len() == m,
                r <= n,
                s == column_sum(spec_t.rows, j as int, r as int),
                -0x8000_0000_0000_0000 * r <= s <= 0x8000_0000_0000_0000 * r,
            decreases n - r,
        {
            assert(rows[r as int].values.len() == m);
            assert(spec_t.rows[r as int] == rows[r as int]@);
            assert(spec_t.rows[r as int].values[j as int] == rows[r as int].values[j as int] as int);
            s = s + rows[r].values[j] as i128;
            r = r + 1;
        }
        totals.push(s);
        j = j + 1;
    }
    assert(totals@.map_values(|x: i128| x as int) =~= spec_t.column_totals);
    let aggregates = match layout {
        Layout::Combined => vec![
            Aggregate { label: String::from_str("Total All"), total: filtered_total(&cols, &totals, None) },
        ],
        Layout::Split => vec![
            Aggregate {
                label: String::from_str("Total Solution"),
                total: filtered_total(&cols, &totals, Some("Solution")),
            },
            Aggregate { label: String::from_str("Total Night"), total: filtered_total(&cols, &totals, Some("Night")) },
        ],
    };
    let total_header = match layout {
        Layout::Combined => String::from_str("Total"),
        Layout::Split => String::from_str("Total Night per address"),
    };
    let t = Table { columns: cols, total_header, rows, column_totals: totals, aggregates };
    assert(t@.aggregates =~= spec_t.aggregates);
    t
}


/// The label of a day's column: "Day ", the day number, then `suffix`.
pub open spec fn day_label(day: nat, suffix: Seq<char>) -> Seq<char> {
    "Day "@ + decimal(day) + suffix
}

/// The labels of a day's columns under a layout.
pub open spec fn day_labels(layout: Layout, day: nat) -> Seq<Seq<char>> {
    match layout {
        Layout::Combined => seq![day_label(day, seq![])],
        Layout::Split => seq![day_label(day, " Solution"@), day_label(day, " Night"@)],
    }
}

fn day_label_text(day: u32, suffix: &str) -> (r: String)
    ensures
        r@ == day_label(day as nat, suffix@),
{
    let mut r = String::from_str("Day ");
    push_decimal(&mut r, day);
    r.append(suffix);
    r
}

impl Layout {
    /// The labels of the columns that a run on `day` fills: "Day N" for the
    /// combined layout, "Day N Solution" and "Day N Night" for the split one.
    pub fn column_labels(&self, day: u32) -> (r: Vec<String>)
        ensures
            labels_of(r@) == day_labels(*self, day as nat),
    {
        let r = match self {
            Layout::Combined => {
                proof { reveal_strlit(""); }
                vec![day_label_text(day, "")]
            },
            Layout::Split => vec![day_label_text(day, " Solution"), day_label_text(day, " Night")],
        };
        assert(labels_of(r@) =~= day_labels(*self, day as nat));
        r
    }
}

/// The snapshot that a table records: its columns, and for each row its
/// wallet with one value per column.
pub open spec fn table_snapshot(t: TableView) -> SnapshotView {
    SnapshotView {
        columns: t.columns,
        records: t.rows.map_values(
            |r: RowView| (r.wallet, Seq::new(t.columns.len(), |j: int| (t.columns[j], r.values[j]))),
        ),
    }
}

pub open spec fn fresh_fits(watched: Seq<Seq<char>>, today: Seq<Seq<char>>, fresh: Seq<Seq<i64>>) -> bool {
    &&& fresh.len() == watched.len()
    &&& forall|i: int| 0 <= i < fresh.len() ==> #[trigger] fresh[i].len() == today.len()
}

proof fn lemma_extend_holds_today(cols: Seq<Seq<char>>, today: Seq<Seq<char>>, k: int)
    requires
        0 <= k < today.len(),
    ensures
        last_index(extend_columns(cols, today), today[k]) >= 0,
    decreases today.len(),
{
    let c = extend_columns(cols, today.drop_last());
    if k < today.len() - 1 {
        lemma_extend_holds_today(cols, today.drop_last(), k);
        assert(today.drop_last()[k] == today[k]);
        if last_index(c, today.last()) < 0 {
            lemma_last_index_range(c, today[k]);
            lemma_last_index_found(c.push(today.last()), today[k], last_index(c, today[k]));
        }
    } else if last_index(c, today.last()) < 0 {
        lemma_last_index_found(c.push(today.last()), today[k], c.len() as int);
    }
}

proof fn lemma_extend_prefix(cols: Seq<Seq<char>>, today: Seq<Seq<char>>)
    ensures
        cols.len() <= extend_columns(cols, today).len(),
        extend_columns(cols, today).take(cols.len() as int) == cols,
        forall|j: int|
            cols.len() <= j < extend_columns(cols, today).len() ==> last_index(
                today,
                #[trigger] extend_columns(cols, today)[j],
            ) >= 0,
    decreases today.len(),
{
    if today.len() > 0 {
        let t = today.drop_last();
        let c = extend_columns(cols, t);
        lemma_extend_prefix(cols, t);
        assert(c.push(today.last()).take(cols.len() as int) =~= c.take(cols.len() as int));
        assert forall|j: int|
            cols.len() <= j < extend_columns(cols, today).len() implies last_index(
                today,
                #[trigger] extend_columns(cols, today)[j],
            ) >= 0 by {
            if j < c.len() {
                lemma_last_index_range(t, c[j]);
                lemma_last_index_found(today, c[j], last_index(t, c[j]));
            } else {
                lemma_last_index_found(today, today.last(), today.len() - 1);
            }
        }
    }
}

proof fn lemma_extend_stable(cols: Seq<Seq<char>>, today: Seq<Seq<char>>)
    requires
        forall|k: int| 0 <= k < today.len() ==> last_index(cols, #[trigger] today[k]) >= 0,
    ensures
        extend_columns(cols, today) == cols,
    decreases today.len(),
{
    if today.len() > 0 {
        let t = today.drop_last();
        assert forall|k: int| 0 <= k < t.len() implies last_index(cols, #[trigger] t[k]) >= 0 by {
            assert(t[k] == today[k]);
        }
        lemma_extend_stable(cols, t);
        assert(last_index(cols, today[today.len() - 1]) >= 0);
    }
}

/// Running the merge again on the table it produced, with the same tracked
/// wallets, labels and fetch results, gives back the same table: no column
/// or row is duplicated and every value and total is unchanged.
pub proof fn lemma_merge_again_is_stable(
    prior: SnapshotView,
    watched: Seq<Seq<char>>,
    today: Seq<Seq<char>>,
    fresh: Seq<Seq<i64>>,
    layout: Layout,
)
    requires
        fresh_fits(watched, today, fresh),
    ensures
        merged_table(table_snapshot(merged_table(prior, watched, today, fresh, layout)), watched, today, fresh, layout)
            == merged_table(prior, watched, today, fresh, layout),
{
    let t = merged_table(prior, watched, today, fresh, layout);
    let p2 = table_snapshot(t);
    let cols = t.columns;
    assert forall|k: int| 0 <= k < today.len() implies last_index(cols, #[trigger] today[k]) >= 0 by {
        lemma_extend_holds_today(prior.columns, today, k);
    }
    lemma_extend_stable(cols, today);
    let t2 = merged_table(p2, watched, today, fresh, layout);
    assert(record_keys(p2) =~= watched);
    assert forall|i: int, j: int| 0 <= i < watched.len() && 0 <= j < cols.len() implies merged_value(
        p2,
        watched,
        today,
        fresh,
        watched[i],
        cols[j],
    ) == merged_value(prior, watched, today, fresh, watched[i], cols[j]) by {
        lemma_last_index_found(watched, watched[i], i);
        if last_index(today, cols[j]) < 0 {
            let r = last_index(watched, watched[i]);
            lemma_last_index_range(watched, watched[i]);
            let cells = p2.records[r].1;
            assert(cell_keys(cells) =~= cols);
            lemma_last_index_found(cols, cols[j], j);
            lemma_last_index_range(cols, cols[j]);
        }
    }
    assert forall|i: int| 0 <= i < watched.len() implies #[trigger] t2.rows[i] == t.rows[i] by {
        assert(t2.rows[i].values =~= t.rows[i].values);
    }
    assert(t2.rows =~= t.rows);
    assert(t2.column_totals =~= t.column_totals);
}

/// The output columns start with the prior columns, in their order; today's
/// labels are all among them; and every column after the prior ones is one
/// of today's labels.
pub proof fn lemma_columns_only_grow(prior: SnapshotView, today: Seq<Seq<char>>)
    ensures
        prior.columns.len() <= extend_columns(prior.columns, today).len(),
        extend_columns(prior.columns, today).take(prior.columns.len() as int) == prior.columns,
        forall|k: int| 0 <= k < today.len() ==> last_index(extend_columns(prior.columns, today), #[trigger] today[k]) >= 0,
        forall|j: int|
            prior.columns.len() <= j < extend_columns(prior.columns, today).len() ==> last_index(
                today,
                #[trigger] extend_columns(prior.columns, today)[j],
            ) >= 0,
{
    lemma_extend_prefix(prior.columns, today);
    assert forall|k: int| 0 <= k < today.len() implies last_index(extend_columns(prior.columns, today), #[trigger] today[k]) >= 0 by {
        lemma_extend_holds_today(prior.columns, today, k);
    }
}

/// The output has exactly one row per tracked wallet, in the tracked order,
/// so a wallet that is no longer tracked has no row.
pub proof fn lemma_rows_are_tracked(
    prior: SnapshotView,
    watched: Seq<Seq<char>>,
    today: Seq<Seq<char>>,
    fresh: Seq<Seq<i64>>,
    layout: Layout,
    w: Seq<char>,
)
    ensures
        merged_table(prior, watched, today, fresh, layout).rows.len() == watched.len(),
        forall|i: int|
            0 <= i < watched.len() ==> #[trigger] merged_table(prior, watched, today, fresh, layout).rows[i].wallet
                == watched[i],
        !watched.contains(w) ==> forall|i: int|
            0 <= i < watched.len() ==> #[trigger] merged_table(prior, watched, today, fresh, layout).rows[i].wallet
                != w,
{
}

/// Each column total is the sum of that column over the emitted rows, each
/// row total the sum of the row's values in the columns the layout selects,
/// and each aggregate the sum of the selected column totals.
pub proof fn lemma_totals_add_up(
    prior: SnapshotView,
    watched: Seq<Seq<char>>,
    today: Seq<Seq<char>>,
    fresh: Seq<Seq<i64>>,
    layout: Layout,
)
    ensures
        ({
            let t = merged_table(prior, watched, today, fresh, layout);
            &&& t.column_totals.len() == t.columns.len()
            &&& forall|j: int|
                0 <= j < t.columns.len() ==> #[trigger] t.column_totals[j] == column_sum(
                    t.rows,
                    j,
                    t.rows.len() as int,
                )
            &&& forall|i: int|
                0 <= i < t.rows.len() ==> #[trigger] t.rows[i].total == sum_where(
                    t.columns,
                    t.rows[i].values,
                    row_pattern(layout),
                    t.columns.len() as int,
                )
            &&& t.aggregates == aggregates_of(layout, t.columns, t.column_totals)
        }),
{
}


/// The values of each tracked wallet for today's `width` columns: what was
/// fetched where the fetch succeeded with one value per column, zeros where
/// it failed.
pub fn fresh_or_zero(fetched: &Vec<Option<Vec<i64>>>, width: usize) -> (r: Vec<Vec<i64>>)
    ensures
        r.len() == fetched.len(),
        forall|i: int|
            0 <= i < r.len() ==> #[trigger] r[i]@ == match fetched[i] {
                Some(v) if v.len() == width => v@,
                _ => Seq::new(width as nat, |k: int| 0i64),
            },
{
    let mut r: Vec<Vec<i64>> = Vec::new();
    let mut i: usize = 0;
    while i < fetched.len()
        invariant
            i <= fetched.len(),
            r.len() == i,
            forall|t: int|
                0 <= t < i ==> #[trigger] r[t]@ == match fetched[t] {
                    Some(v) if v.len() == width => v@,
                    _ => Seq::new(width as nat, |k: int| 0i64),
                },
        decreases fetched.len() - i,
    {
        let row: Vec<i64> = match &fetched[i] {
            Some(v) if v.len() == width => v.clone(),
            _ => {
                let mut z: Vec<i64> = Vec::new();
                let mut k: usize = 0;
                while k < width
                    invariant
                        k <= width,
                        z@ == Seq::new(k as nat, |t: int| 0i64),
                    decreases width - k,
                {
                    z.push(0);
                    k = k + 1;
                    assert(z@ =~= Seq::new(k as nat, |t: int| 0i64));
                }
                z
            },
        };
        r.push(row);
        i = i + 1;
    }
    r
}


} // verus!
