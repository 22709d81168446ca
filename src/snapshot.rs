use vstd::prelude::*;
use vstd::string::*;
use crate::label::chars_of;

verus! {

/// One recorded value of a prior snapshot: a column label and an amount in
/// ten-thousandths.
pub struct Cell {
    pub column: String,
    pub value: i64,
}

/// The recorded values of one wallet in a prior snapshot.
pub struct Record {
    pub wallet: String,
    pub cells: Vec<Cell>,
}

/// A previously persisted table: its data columns in order and the values
/// recorded for each wallet. Where a wallet or a column occurs more than once,
/// the later occurrence counts.
pub struct Snapshot {
    pub columns: Vec<String>,
    pub records: Vec<Record>,
}

pub struct SnapshotView {
    pub columns: Seq<Seq<char>>,
    pub records: Seq<(Seq<char>, Seq<(Seq<char>, int)>)>,
}

pub open spec fn labels_of(v: Seq<String>) -> Seq<Seq<char>> {
    v.map_values(|s: String| s@)
}

impl Record {
    pub open spec fn entry(self) -> (Seq<char>, Seq<(Seq<char>, int)>) {
        (self.wallet@, self.cells@.map_values(|c: Cell| (c.column@, c.value as int)))
    }
}

impl View for Snapshot {
    type V = SnapshotView;

    open spec fn view(&self) -> SnapshotView {
        SnapshotView {
            columns: labels_of(self.columns@),
            records: self.records@.map_values(|r: Record| r.entry()),
        }
    }
}

/// The position of the last occurrence of `key` in `keys`, or -1.
pub open spec fn last_index(keys: Seq<Seq<char>>, key: Seq<char>) -> int
    decreases keys.len(),
{
    if keys.len() == 0 {
        -1
    } else if keys.last() == key {
        keys.len() - 1
    } else {
        last_index(keys.drop_last(), key)
    }
}

pub open spec fn record_keys(s: SnapshotView) -> Seq<Seq<char>> {
    s.records.map_values(|e: (Seq<char>, Seq<(Seq<char>, int)>)| e.0)
}

pub open spec fn cell_keys(cells: Seq<(Seq<char>, int)>) -> Seq<Seq<char>> {
    cells.map_values(|e: (Seq<char>, int)| e.0)
}

/// The value a prior snapshot records for wallet `w` under column `col`;
/// 0 where it records none.
pub open spec fn recorded_value(prior: SnapshotView, w: Seq<char>, col: Seq<char>) -> int {
    let r = last_index(record_keys(prior), w);
    if r < 0 {
        0
    } else {
        let cells = prior.records[r].1;
        let c = last_index(cell_keys(cells), col);
        if c < 0 {
            0
        } else {
            cells[c].1
        }
    }
}

pub proof fn lemma_last_index_range(keys: Seq<Seq<char>>, key: Seq<char>)
    ensures
        -1 <= last_index(keys, key) < keys.len(),
        last_index(keys, key) >= 0 ==> keys[last_index(keys, key)] == key,
    decreases keys.len(),
{
    if keys.len() > 0 && keys.last() != key {
        lemma_last_index_range(keys.drop_last(), key);
    }
}

proof fn lemma_last_index_step(keys: Seq<Seq<char>>, key: Seq<char>, i: int)
    requires
        0 < i <= keys.len(),
    ensures
        last_index(keys.take(i), key) == if keys[i - 1] == key {
            i - 1
        } else {
            last_index(keys.take(i - 1), key)
        },
{
    assert(keys.take(i).drop_last() =~= keys.take(i - 1));
}

pub(crate) fn label_position(v: &Vec<String>, key: &String) -> (r: Option<usize>)
    ensures
        r is Some ==> r->0 as int == last_index(labels_of(v@), key@),
        r is None ==> last_index(labels_of(v@), key@) == -1,
{
    let ghost keys = labels_of(v@);
    let mut i: usize = v.len();
    assert(keys.take(i as int) =~= keys);
    while i > 0
        invariant
            keys == labels_of(v@),
            i <= v.len(),
            last_index(keys, key@) == last_index(keys.take(i as int), key@),
        decreases i,
    {
        proof { lemma_last_index_step(keys, key@, i as int); }
        if v[i - 1] == *key {
            return Some(i - 1);
        }
        i = i - 1;
    }
    None
}

fn record_position(snap: &Snapshot, key: &String) -> (r: Option<usize>)
    ensures
        r is Some ==> r->0 as int == last_index(record_keys(snap@), key@),
        r is None ==> last_index(record_keys(snap@), key@) == -1,
{
    let ghost keys = record_keys(snap@);
    let recs = &snap.records;
    let mut i: usize = recs.len();
    assert(keys.take(i as int) =~= keys);
    while i > 0
        invariant
            keys == record_keys(snap@),
            recs == &snap.records,
            i <= recs.len(),
            last_index(keys, key@) == last_index(keys.take(i as int), key@),
        decreases i,
    {
        proof { lemma_last_index_step(keys, key@, i as int); }
        if recs[i - 1].wallet == *key {
            return Some(i - 1);
        }
        i = i - 1;
    }
    None
}

fn cell_position(cells: &Vec<Cell>, key: &String) -> (r: Option<usize>)
    ensures
        r is Some ==> r->0 as int == last_index(cell_keys(cells@.map_values(|c: Cell| (c.column@, c.value as int))), key@),
        r is None ==> last_index(cell_keys(cells@.map_values(|c: Cell| (c.column@, c.value as int))), key@) == -1,
{
    let ghost keys = cell_keys(cells@.map_values(|c: Cell| (c.column@, c.value as int)));
    let mut i: usize = cells.len();
    assert(keys.take(i as int) =~= keys);
    while i > 0
        invariant
            keys == cell_keys(cells@.map_values(|c: Cell| (c.column@, c.value as int))),
            i <= cells.len(),
            last_index(keys, key@) == last_index(keys.take(i as int), key@),
        decreases i,
    {
        proof { lemma_last_index_step(keys, key@, i as int); }
        if cells[i - 1].column == *key {
            return Some(i - 1);
        }
        i = i - 1;
    }
    None
}

impl Snapshot {
    /// The value recorded for wallet `w` under column `col`, 0 where none is.
    pub fn recorded(&self, w: &String, col: &String) -> (r: i64)
        ensures
            r as int == recorded_value(self@, w@, col@),
    {
        assert(self@.records =~= self.records@.map_values(|x: Record| x.entry()));
        match record_position(self, w) {
            None => 0,
            Some(ri) => {
                proof { lemma_last_index_range(record_keys(self@), w@); }
                let cells = &self.records[ri].cells;
                assert(self@.records[ri as int].1 == cells@.map_values(|c: Cell| (c.column@, c.value as int)));
                match cell_position(cells, col) {
                    None => 0,
                    Some(ci) => {
                        proof { lemma_last_index_range(cell_keys(self@.records[ri as int].1), col@); }
                        cells[ci].value
                    },
                }
            }
        }
    }
}


pub proof fn lemma_last_index_found(keys: Seq<Seq<char>>, key: Seq<char>, i: int)
    requires
        0 <= i < keys.len(),
        keys[i] == key,
    ensures
        last_index(keys, key) >= i,
    decreases keys.len(),
{
    if keys.last() != key {
        lemma_last_index_found(keys.drop_last(), key, i);
    }
}

/// A data row of a persisted sheet: the text of its first cell and the
/// values of the cells after it, as far as the row reaches.
pub struct GridRow {
    pub key: String,
    pub cells: Vec<i64>,
}

impl View for GridRow {
    type V = (Seq<char>, Seq<int>);

    open spec fn view(&self) -> (Seq<char>, Seq<int>) {
        (self.key@, self.cells@.map_values(|x: i64| x as int))
    }
}

/// The data columns of a sheet: its header cells after the first, less the
/// last, which holds the totals.
pub open spec fn grid_columns(header: Seq<Seq<char>>) -> Seq<Seq<char>> {
    if header.len() > 1 {
        header.subrange(1, header.len() - 1)
    } else {
        seq![]
    }
}

pub open spec fn is_space(c: char) -> bool {
    c == ' ' || c == '\t' || c == '\n' || c == '\r'
}

pub open spec fn is_blank(s: Seq<char>) -> bool {
    forall|i: int| 0 <= i < s.len() ==> is_space(#[trigger] s[i])
}

/// The labels of the aggregate rows that a written table ends with.
pub open spec fn is_aggregate_label(s: Seq<char>) -> bool {
    s == "Total All"@ || s == "Total Solution"@ || s == "Total Night"@
}

/// The recorded values of a row: its first `n` cells after the key, each
/// under its header, except those under a header reading "Total".
pub open spec fn row_cells(header: Seq<Seq<char>>, cells: Seq<int>, n: int) -> Seq<(Seq<char>, int)>
    decreases n,
{
    if n <= 0 {
        seq![]
    } else {
        let prev = row_cells(header, cells, n - 1);
        if header[n] == "Total"@ {
            prev
        } else {
            prev.push((header[n], cells[n - 1]))
        }
    }
}

/// How many cells of a row stand under a header cell.
pub open spec fn cell_count(header: Seq<Seq<char>>, cells: Seq<int>) -> int {
    if header.len() == 0 {
        0
    } else if cells.len() < header.len() - 1 {
        cells.len() as int
    } else {
        header.len() - 1
    }
}

/// Whether a sheet row carries no wallet: it has no cell after the key, or
/// its key is blank or an aggregate label.
pub open spec fn is_skipped(row: (Seq<char>, Seq<int>)) -> bool {
    row.1.len() == 0 || is_blank(row.0) || is_aggregate_label(row.0)
}

/// The wallet records of the first `n` rows of a sheet.
pub open spec fn grid_records(header: Seq<Seq<char>>, rows: Seq<(Seq<char>, Seq<int>)>, n: int) -> Seq<
    (Seq<char>, Seq<(Seq<char>, int)>),
>
    decreases n,
{
    if n <= 0 {
        seq![]
    } else {
        let prev = grid_records(header, rows, n - 1);
        let r = rows[n - 1];
        if is_skipped(r) {
            prev
        } else {
            prev.push((r.0, row_cells(header, r.1, cell_count(header, r.1))))
        }
    }
}

pub open spec fn grid_snapshot(header: Seq<Seq<char>>, rows: Seq<(Seq<char>, Seq<int>)>) -> SnapshotView {
    SnapshotView { columns: grid_columns(header), records: grid_records(header, rows, rows.len() as int) }
}

fn blank(s: &String) -> (r: bool)
    ensures
        r == is_blank(s@),
{
    let cs = chars_of(s.as_str());
    let mut i: usize = 0;
    while i < cs.len()
        invariant
            cs@ == s@,
            i <= cs.len(),
            forall|k: int| 0 <= k < i ==> is_space(#[trigger] s@[k]),
        decreases cs.len() - i,
    {
        let c = cs[i];
        if !(c == ' ' || c == '\t' || c == '\n' || c == '\r') {
            return false;
        }
        i = i + 1;
    }
    true
}

fn aggregate_label(s: &String) -> (r: bool)
    ensures
        r == is_aggregate_label(s@),
{
    *s == String::from_str("Total All") || *s == String::from_str("Total Solution") || *s == String::from_str(
        "Total Night",
    )
}

fn read_cells(header: &Vec<String>, row: &GridRow) -> (r: Vec<Cell>)
    ensures
        r@.map_values(|c: Cell| (c.column@, c.value as int)) == row_cells(
            labels_of(header@),
            row@.1,
            cell_count(labels_of(header@), row@.1),
        ),
{
    let ghost h = labels_of(header@);
    let n: usize = if header.len() == 0 {
        0
    } else if row.cells.len() < header.len() - 1 {
        row.cells.len()
    } else {
        header.len() - 1
    };
    let total = String::from_str("Total");
    let mut r: Vec<Cell> = Vec::new();
    let mut k: usize = 0;
    while k < n
        invariant
            h == labels_of(header@),
            n as int == cell_count(h, row@.1),
            n <= row.cells.len(),
            n < header.len() || n == 0,
            total@ == "Total"@,
            k <= n,
            r@.map_values(|c: Cell| (c.column@, c.value as int)) == row_cells(h, row@.1, k as int),
        decreases n - k,
    {
        if header[k + 1] != total {
            let c = Cell { column: header[k + 1].clone(), value: row.cells[k] };
            r.push(c);
            assert(r@.map_values(|c: Cell| (c.column@, c.value as int)) =~= row_cells(h, row@.1, k + 1));
        }
        k = k + 1;
    }
    r
}

impl Snapshot {
    /// The snapshot of a run with no prior file.
    pub fn empty() -> (r: Snapshot)
        ensures
            r@.columns.len() == 0,
            r@.records.len() == 0,
    {
        Snapshot { columns: Vec::new(), records: Vec::new() }
    }

    /// Decodes a persisted sheet: `header` is its first row, `rows` the rows
    /// after it. The data columns are the header cells between the first and
    /// the last; a row becomes a wallet record unless it is skipped.
    pub fn from_grid(header: &Vec<String>, rows: &Vec<GridRow>) -> (r: Snapshot)
        ensures
            r@ == grid_snapshot(labels_of(header@), rows@.map_values(|g: GridRow| g@)),
    {
        let ghost h = labels_of(header@);
        let ghost gv = rows@.map_values(|g: GridRow| g@);
        let mut columns: Vec<String> = Vec::new();
        if header.len() > 1 {
            let mut i: usize = 1;
            while i < header.len() - 1
                invariant
                    header.len() > 1,
                    1 <= i <= header.len() - 1,
                    h == labels_of(header@),
                    columns@ == header@.subrange(1, i as int),
                decreases header.len() - i,
            {
                let c = header[i].clone();
                columns.push(c);
                i = i + 1;
                assert(columns@ =~= header@.subrange(1, i as int));
            }
            assert(labels_of(columns@) =~= grid_columns(h));
        } else {
            assert(labels_of(columns@) =~= grid_columns(h));
        }
        let mut records: Vec<Record> = Vec::new();
        let mut i: usize = 0;
        while i < rows.len()
            invariant
                h == labels_of(header@),
                gv == rows@.map_values(|g: GridRow| g@),
                i <= rows.len(),
                records@.map_values(|r: Record| r.entry()) == grid_records(h, gv, i as int),
            decreases rows.len() - i,
        {
            let row = &rows[i];
            assert(gv[i as int] == row@);
            if !(row.cells.len() == 0 || blank(&row.key) || aggregate_label(&row.key)) {
                let cells = read_cells(header, row);
                let rec = Record { wallet: row.key.clone(), cells };
                records.push(rec);
                assert(records@.map_values(|r: Record| r.entry()) =~= grid_records(h, gv, i + 1));
            }
            i = i + 1;
        }
        let r = Snapshot { columns, records };
        assert(r@.columns =~= grid_columns(h));
        r
    }
}

} // verus!
