//! Pasting a block of cells over a dataset.
use vstd::prelude::*;
use crate::block::{row_view, ParsedBlock};
use crate::capture::{
    column_file, column_views, seal, sealed, write_columns, write_view, written, ColumnV,
};
use crate::engine::{
    build_index, plan_views, plan_wf, rewritten, stream_rewrite, OutCol, OutColV, Under, UnderV,
};
use crate::json::{
    json_array, json_number, json_number_or_null, json_object, json_text, no_members,
    number_or_null, put, Json, JsonV,
};
use crate::levels::{dedup_texts, deduped, prebuild_dict, prebuilt, CatDict};
use crate::messages::{
    column_refusal, refusal, EditFailure, FailureV, IngestParams, Invalidation,
};
use crate::names::{new_name, unique_new_name};
use crate::number::{Numerals, NumeralsV};
use crate::outcome::{
    capture_cols, capture_of, column_entries, gives, inverse_of, make_column_entries, make_inverse,
    make_run, pass_col, pass_colv, run, EditOutput, OutcomeV,
};
use crate::paste::{
    absorb, absorbed_keys, absorbed_levels, are_integers, collect_somes, column_reads, derive_dict,
    derived, find_undeclared, find_unparsed, first_undeclared, first_unparsed, has_values, key_map,
    look_up, map_keys, positions, read_pasted, read_views, show_cells, shown, somes, type_cells,
    typed,
};
use crate::segments::{block_segments, block_table, table_overrun, table_rows};
use crate::table::{lemma_table_wf, plain_field, Cell, Dataset, Field, Level, TableV, MAX_ROWS};
use crate::text::{clone_texts, contains_text, join_texts, joined, texts};
use crate::window::{entry_views, mismatch, opt_entry, EntryV, WindowEntry};
use crate::wire::{only_integers, schema_json, wire_schema, WIRE_LEVELS_CAP};
use crate::wording;

verus! {

/// A paste: the table it lands on, how texts read, where it lands, and what is pasted.
pub struct PasteV {
    pub t: TableV,
    pub num: NumeralsV,
    pub nulls: Seq<Seq<char>>,
    pub threshold: nat,
    pub sort_limit: nat,
    pub row: u64,
    pub col: u64,
    pub cells: Seq<Seq<(Seq<char>, bool)>>,
    pub window: Option<Seq<Option<EntryV>>>,
}

impl PasteV {
    /// The number of pasted rows.
    pub open spec fn height(self) -> nat {
        self.cells.len()
    }

    /// The number of pasted columns.
    pub open spec fn width(self) -> nat {
        self.cells[0].len()
    }

    /// What is declared for pasted column `c`.
    pub open spec fn entry(self, c: int) -> Option<EntryV> {
        match self.window {
            Some(w) => if 0 <= c < w.len() {
                w[c]
            } else {
                None
            },
            None => None,
        }
    }

    /// The texts of pasted column `c`.
    pub open spec fn reads(self, c: int) -> Seq<Option<Seq<char>>> {
        column_reads(self.cells, c, self.nulls)
    }

    /// Pasted column `c` lands on a column of the table.
    pub open spec fn covers(self, c: int) -> bool {
        self.col + c < self.t.fields.len()
    }

    /// Pasted column `c` turns a scale into a nominal column: it lands on a scale and holds
    /// a text that is no number.
    pub open spec fn promotes(self, c: int) -> bool {
        self.covers(c) && self.t.fields[self.col + c].is_scale() && first_unparsed(
            self.reads(c),
            self.num,
        ) is Some
    }

    /// Pasted column `c` replaces the dictionary of the column it lands on.
    pub open spec fn remaps(self, c: int) -> bool {
        self.covers(c) && self.entry(c) is Some && self.entry(c)->0.levels is Some
    }

    /// Some column is re-encoded, so that the inverse captures whole columns.
    pub open spec fn reencodes(self) -> bool {
        self.reencodes_before(self.width())
    }

    /// Some one of the first `k` pasted columns re-encodes what it lands on.
    pub open spec fn reencodes_before(self, k: nat) -> bool
        decreases k,
    {
        k > 0 && (self.reencodes_before((k - 1) as nat) || self.promotes(k - 1) || self.remaps(
            k - 1,
        ))
    }

    /// How many pasted rows land on rows of the table.
    pub open spec fn overlap(self) -> nat {
        if self.row >= self.t.rows {
            0
        } else if self.t.rows - self.row < self.height() {
            (self.t.rows - self.row) as nat
        } else {
            self.height()
        }
    }

    /// The number of rows after the paste.
    pub open spec fn new_rows(self) -> nat {
        if self.row + self.height() > self.t.rows {
            (self.row + self.height()) as nat
        } else {
            self.t.rows
        }
    }

    /// The number of columns after the paste.
    pub open spec fn new_cols(self) -> nat {
        if self.col + self.width() > self.t.fields.len() {
            (self.col + self.width()) as nat
        } else {
            self.t.fields.len()
        }
    }

    /// The columns of the table that the paste lands on.
    pub open spec fn touched(self) -> Seq<u64> {
        let n = self.t.fields.len();
        if self.col >= n {
            Seq::empty()
        } else if self.col + self.width() < n {
            run(self.col, (self.col + self.width()) as u64)
        } else {
            run(self.col, n as u64)
        }
    }

    /// The rows of the table before the paste.
    pub open spec fn before(self, cells: Seq<Cell>) -> Seq<Cell> {
        if self.row < cells.len() {
            cells.take(self.row as int)
        } else {
            cells
        }
    }

    /// The rows of the table after the paste.
    pub open spec fn after(self, cells: Seq<Cell>) -> Seq<Cell> {
        if self.row + self.height() < cells.len() {
            cells.skip(self.row + self.height())
        } else {
            Seq::empty()
        }
    }
}

/// Whether position `k` stands in the cells.
pub open spec fn used_in(cells: Seq<Cell>, k: u64) -> bool {
    cells.contains(Some(k))
}

/// The levels in use that a declared list lacks, in their order.
pub open spec fn missing_levels(
    levels: Seq<Seq<char>>,
    a: Seq<Cell>,
    b: Seq<Cell>,
    declared: Seq<Seq<char>>,
) -> Seq<Seq<char>>
    decreases levels.len(),
{
    if levels.len() == 0 {
        Seq::empty()
    } else {
        let p = missing_levels(levels.drop_last(), a, b, declared);
        let k = (levels.len() - 1) as u64;
        if (used_in(a, k) || used_in(b, k)) && !declared.contains(levels.last()) {
            p.push(levels.last())
        } else {
            p
        }
    }
}

/// The first ten of a list.
pub open spec fn first_ten(s: Seq<Seq<char>>) -> Seq<Seq<char>> {
    if s.len() > 10 {
        s.take(10)
    } else {
        s
    }
}

/// What is wrong with pasted column `c` where a scale is declared: a text that is no number.
pub open spec fn scale_issue(p: PasteV, c: int) -> Option<FailureV> {
    if p.promotes(c) && p.entry(c) is Some && p.entry(c)->0.ty == Some(Level::Scale) {
        let name = p.t.fields[p.col + c].name;
        Some(
            column_refusal(
                name,
                "schema_mismatch"@,
                wording::declared_scale_cell_msg(name, first_unparsed(p.reads(c), p.num)->0),
            ),
        )
    } else {
        None
    }
}

/// What is wrong with replacing a dictionary: it is too long to have been seen whole, or a
/// level in use outside the paste would go.
pub open spec fn remap_issue(p: PasteV, c: int) -> Option<FailureV> {
    if p.remaps(c) && p.t.rows > 0 {
        let j = p.col + c;
        let name = p.t.fields[j].name;
        let levels = p.t.dicts[j];
        let cells = p.t.cols[j];
        let count = levels.to_set().len();
        let missing = missing_levels(
            levels,
            p.before(cells),
            p.after(cells),
            p.entry(c)->0.levels->0,
        );
        if count > WIRE_LEVELS_CAP {
            Some(
                column_refusal(
                    name,
                    "schema_mismatch"@,
                    wording::cap_block_msg(count as u64, WIRE_LEVELS_CAP as u64, name),
                ),
            )
        } else if missing.len() > 0 {
            Some(
                column_refusal(
                    name,
                    "level_in_use"@,
                    wording::in_use_block_msg(name, joined(first_ten(missing), ", "@)),
                ),
            )
        } else {
            None
        }
    } else {
        None
    }
}

/// The first issue of the first `k` pasted columns.
pub open spec fn scale_issues(p: PasteV, k: nat) -> Option<FailureV>
    decreases k,
{
    if k == 0 {
        None
    } else {
        match scale_issues(p, (k - 1) as nat) {
            Some(f) => Some(f),
            None => scale_issue(p, k - 1),
        }
    }
}

/// The first issue of the first `k` pasted columns.
pub open spec fn remap_issues(p: PasteV, k: nat) -> Option<FailureV>
    decreases k,
{
    if k == 0 {
        None
    } else {
        match remap_issues(p, (k - 1) as nat) {
            Some(f) => Some(f),
            None => remap_issue(p, k - 1),
        }
    }
}

/// The texts of a promoted column after the paste, in row order.
pub open spec fn promoted_texts(p: PasteV, c: int) -> Seq<Seq<char>> {
    let cells = p.t.cols[p.col + c];
    shown(p.before(cells), p.num) + somes(p.reads(c)) + shown(p.after(cells), p.num)
}

/// A column of the table under pasted column `c`, and whether its levels changed.
pub open spec fn covered_col(p: PasteV, c: int) -> Result<(OutColV, bool), FailureV> {
    let j = p.col + c;
    let f = p.t.fields[j];
    let ts = p.reads(c);
    if p.remaps(c) {
        let levels = p.entry(c)->0.levels->0;
        match first_undeclared(levels, ts) {
            Some(t) => Err(mismatch(wording::not_declared_msg(t))),
            None => Ok(
                (
                    OutColV {
                        field: f,
                        old: Some(j),
                        window: Some(positions(levels, false, p.num, ts)),
                        under: UnderV::Remap(key_map(p.t.dicts[j], levels)),
                        levels,
                    },
                    true,
                ),
            ),
        }
    } else if p.promotes(c) {
        let levels = prebuilt(deduped(promoted_texts(p, c)), p.num, p.sort_limit);
        Ok(
            (
                OutColV {
                    field: plain_field(f.name, f.display, Level::Nominal, false),
                    old: Some(j),
                    window: Some(positions(levels, false, p.num, ts)),
                    under: UnderV::Render,
                    levels,
                },
                false,
            ),
        )
    } else if f.is_scale() {
        let cells = typed(ts, p.num);
        Ok(
            (
                OutColV {
                    field: plain_field(
                        f.name,
                        f.display,
                        Level::Scale,
                        f.all_integer && only_integers(cells),
                    ),
                    old: Some(j),
                    window: Some(cells),
                    under: UnderV::Same,
                    levels: Seq::empty(),
                },
                false,
            ),
        )
    } else {
        let levels = absorbed_levels(p.t.dicts[j], p.num, ts);
        Ok(
            (
                OutColV {
                    field: f,
                    old: Some(j),
                    window: Some(absorbed_keys(p.t.dicts[j], p.num, ts)),
                    under: UnderV::Same,
                    levels,
                },
                levels.len() > p.t.dicts[j].len(),
            ),
        )
    }
}

/// A new column that holds numbers.
pub open spec fn number_col(
    name: Seq<char>,
    display: Seq<char>,
    all_integer: bool,
    cells: Seq<Cell>,
) -> OutColV {
    OutColV {
        field: plain_field(name, display, Level::Scale, all_integer),
        old: None,
        window: Some(cells),
        under: UnderV::Nothing,
        levels: Seq::empty(),
    }
}

/// A new column that holds levels.
pub open spec fn level_col(
    name: Seq<char>,
    display: Seq<char>,
    level: Level,
    levels: Seq<Seq<char>>,
    keys: Seq<Cell>,
) -> OutColV {
    OutColV {
        field: plain_field(name, display, level, false),
        old: None,
        window: Some(keys),
        under: UnderV::Nothing,
        levels,
    }
}

/// The name and display name of a new column under pasted column `c`: the declared name must
/// be free.
pub open spec fn created_name(p: PasteV, c: int, used: Seq<Seq<char>>) -> Result<
    (Seq<char>, Seq<char>),
    FailureV,
> {
    let e = p.entry(c);
    if e is Some && e->0.name is Some {
        let name = e->0.name->0;
        if used.contains(name) {
            Err(mismatch(wording::name_taken_msg(name)))
        } else {
            Ok(
                (
                    name,
                    match e->0.display {
                        Some(d) => d,
                        None => name,
                    },
                ),
            )
        }
    } else {
        let name = new_name(used, Seq::empty(), (p.col + c + 1) as u64);
        Ok((name, name))
    }
}

/// A new column under pasted column `c`: of the declared type, else of the type its texts
/// decide.
pub open spec fn created_col(p: PasteV, c: int, used: Seq<Seq<char>>) -> Result<
    OutColV,
    FailureV,
> {
    let ts = p.reads(c);
    let e = p.entry(c);
    match created_name(p, c, used) {
        Err(f) => Err(f),
        Ok(nd) => {
            let ty = if e is Some {
                e->0.ty
            } else {
                None
            };
            let cells = typed(ts, p.num);
            match ty {
                Some(Level::Scale) => match first_unparsed(ts, p.num) {
                    Some(bad) => Err(
                        column_refusal(
                            nd.0,
                            "schema_mismatch"@,
                            wording::declared_scale_new_msg(nd.0, bad),
                        ),
                    ),
                    None => Ok(
                        number_col(
                            nd.0,
                            nd.1,
                            (exists|k: int| 0 <= k < cells.len() && (#[trigger] cells[k]) is Some)
                                && only_integers(cells),
                            cells,
                        ),
                    ),
                },
                Some(level) => match e->0.levels {
                    Some(levels) => match first_undeclared(levels, ts) {
                        Some(t) => Err(mismatch(wording::not_declared_msg(t))),
                        None => Ok(
                            level_col(
                                nd.0,
                                nd.1,
                                level,
                                levels,
                                positions(levels, false, p.num, ts),
                            ),
                        ),
                    },
                    None => {
                        let d = derived(ts, p.num, p.threshold, p.sort_limit);
                        Ok(level_col(nd.0, nd.1, level, d.levels, d.keys))
                    },
                },
                None => {
                    let d = derived(ts, p.num, p.threshold, p.sort_limit);
                    if d.level is Scale {
                        Ok(number_col(nd.0, nd.1, d.integers, cells))
                    } else {
                        Ok(level_col(nd.0, nd.1, d.level, d.levels, d.keys))
                    }
                },
            }
        },
    }
}

/// A hole between the table and a paste beyond its columns: nominal, all null.
pub open spec fn hole_col(j: int, used: Seq<Seq<char>>) -> OutColV {
    let name = new_name(used, Seq::empty(), (j + 1) as u64);
    OutColV {
        field: plain_field(name, name, Level::Nominal, false),
        old: None,
        window: None,
        under: UnderV::Nothing,
        levels: Seq::empty(),
    }
}

/// Output column `j`, given the names of the columns before it, and whether the levels of a
/// column of the table changed.
pub open spec fn output_col(p: PasteV, j: int, used: Seq<Seq<char>>) -> Result<
    (OutColV, bool),
    FailureV,
> {
    let c = j - p.col;
    if 0 <= c < p.width() {
        if j < p.t.fields.len() {
            covered_col(p, c)
        } else {
            match created_col(p, c, used) {
                Err(f) => Err(f),
                Ok(oc) => Ok((oc, false)),
            }
        }
    } else if j < p.t.fields.len() {
        Ok((pass_colv(p.t, j), false))
    } else {
        Ok((hole_col(j, used), false))
    }
}

/// The names of the columns of a plan.
pub open spec fn plan_names(plan: Seq<OutColV>) -> Seq<Seq<char>> {
    Seq::new(plan.len(), |c: int| plan[c].field.name)
}

/// The first `k` output columns, and whether the levels of a column of the table changed.
pub open spec fn output_cols(p: PasteV, k: nat) -> Result<(Seq<OutColV>, bool), FailureV>
    decreases k,
{
    if k == 0 {
        Ok((Seq::empty(), false))
    } else {
        match output_cols(p, (k - 1) as nat) {
            Err(f) => Err(f),
            Ok(q) => match output_col(p, k - 1, plan_names(q.0)) {
                Err(f) => Err(f),
                Ok(oc) => Ok((q.0.push(oc.0), q.1 || oc.1)),
            },
        }
    }
}

/// What a paste makes stale: everything where the columns, a type or levels changed, else
/// the rows from the paste on where it added rows, else the rows it covers.
pub open spec fn paste_stale(
    n_old: nat,
    new_cols: nat,
    schema_changed: bool,
    row: u64,
    r_len: u64,
    n_rows_old: u64,
) -> Invalidation {
    if new_cols > n_old || schema_changed {
        Invalidation { all: Some(true), rows_from: None, rows_to: None }
    } else if row + r_len > n_rows_old {
        Invalidation { all: None, rows_from: Some(row), rows_to: None }
    } else {
        Invalidation { all: None, rows_from: Some(row), rows_to: Some((row + r_len) as u64) }
    }
}

/// What a paste makes stale.
pub fn block_invalidation(
    n_old: usize,
    new_cols: usize,
    schema_changed: bool,
    row: u64,
    r_len: u64,
    n_rows_old: u64,
) -> (r: Invalidation)
    requires
        row + r_len <= u64::MAX,
    ensures
        r == paste_stale(n_old as nat, new_cols as nat, schema_changed, row, r_len, n_rows_old),
{
    if new_cols > n_old || schema_changed {
        Invalidation { all: Some(true), rows_from: None, rows_to: None }
    } else if row + r_len > n_rows_old {
        Invalidation { all: None, rows_from: Some(row), rows_to: None }
    } else {
        Invalidation { all: None, rows_from: Some(row), rows_to: Some(row + r_len) }
    }
}

/// Some column of the table changes between a scale and a categorical one.
pub open spec fn types_change(t: TableV, plan: Seq<OutColV>) -> bool {
    exists|j: int|
        0 <= j < t.fields.len() && (#[trigger] t.fields[j]).is_scale() != plan[j].field.is_scale()
}

/// A program that restores the cells under a block. The block stands at the anchor; the
/// capture is of whole columns or of the rows under the block.
pub open spec fn restore_block_program(
    t: TableV,
    anchor: (u64, u64, u64, u64),
    full: bool,
    capture_rows: u64,
    columns: Seq<u64>,
    trim: Option<(Option<u64>, Option<u64>)>,
) -> JsonV {
    let base = Map::<Seq<char>, JsonV>::empty().insert("v"@, JsonV::Number(1)).insert(
        "op"@,
        JsonV::Str("restore_block"@),
    ).insert(
        "anchor"@,
        JsonV::Object(
            Map::<Seq<char>, JsonV>::empty().insert("row"@, JsonV::Number(anchor.0)).insert(
                "col"@,
                JsonV::Number(anchor.1),
            ).insert("rows"@, JsonV::Number(anchor.2)).insert("cols"@, JsonV::Number(anchor.3)),
        ),
    ).insert("old_rows"@, JsonV::Number(t.rows as u64)).insert(
        "old_cols"@,
        JsonV::Number(t.fields.len() as u64),
    ).insert(
        "capture"@,
        JsonV::Str(
            if full {
                "full"@
            } else {
                "rect"@
            },
        ),
    ).insert("capture_rows"@, JsonV::Number(capture_rows)).insert(
        "columns"@,
        JsonV::Array(column_entries(t, columns)),
    );
    JsonV::Object(
        match trim {
            None => base,
            Some(x) => base.insert("trim_rows_from"@, number_or_null(x.0)).insert(
                "trim_cols_from"@,
                number_or_null(x.1),
            ),
        },
    )
}

/// Makes a program that restores the cells under a block.
pub fn make_restore_block(
    ds: &Dataset,
    rows: u64,
    anchor: (u64, u64, u64, u64),
    full: bool,
    capture_rows: u64,
    columns: &Vec<u64>,
    trim: Option<(Option<u64>, Option<u64>)>,
) -> (r: Json)
    requires
        rows == ds.table().rows,
        forall|i: int| 0 <= i < columns@.len() ==> #[trigger] columns@[i] < ds.fields@.len(),
    ensures
        r@ == restore_block_program(ds.table(), anchor, full, capture_rows, columns@, trim),
{
    let mut a = no_members();
    put(&mut a, "row", json_number(anchor.0));
    put(&mut a, "col", json_number(anchor.1));
    put(&mut a, "rows", json_number(anchor.2));
    put(&mut a, "cols", json_number(anchor.3));
    let mut o = no_members();
    put(&mut o, "v", json_number(1));
    put(&mut o, "op", json_text("restore_block"));
    put(&mut o, "anchor", json_object(a));
    put(&mut o, "old_rows", json_number(rows));
    put(&mut o, "old_cols", json_number(ds.fields.len() as u64));
    put(
        &mut o,
        "capture",
        json_text(
            if full {
                "full"
            } else {
                "rect"
            },
        ),
    );
    put(&mut o, "capture_rows", json_number(capture_rows));
    put(&mut o, "columns", json_array(make_column_entries(ds, columns)));
    if let Some(x) = trim {
        put(&mut o, "trim_rows_from", json_number_or_null(x.0));
        put(&mut o, "trim_cols_from", json_number_or_null(x.1));
    }
    json_object(o)
}

/// What a paste captures: of the columns it lands on, all rows where one is re-encoded, else
/// the rows it lands on.
pub open spec fn paste_capture(p: PasteV) -> Seq<ColumnV> {
    if p.reencodes() {
        capture_of(p.t, p.touched(), 0, p.t.rows as int)
    } else {
        let from = if p.row < p.t.rows {
            p.row as int
        } else {
            p.t.rows as int
        };
        capture_of(p.t, p.touched(), from, from + p.overlap())
    }
}

/// The inverse of a paste; none where it lands on no column of the table.
pub open spec fn paste_inverse(p: PasteV, revision: u64) -> Option<
    crate::messages::InverseMetaV,
> {
    if p.touched().len() == 0 {
        None
    } else {
        Some(
            inverse_of(
                revision,
                restore_block_program(
                    p.t,
                    (p.row, p.col, p.height() as u64, p.width() as u64),
                    p.reencodes(),
                    if p.reencodes() {
                        p.t.rows as u64
                    } else {
                        p.overlap() as u64
                    },
                    p.touched(),
                    Some(
                        (
                            if p.new_rows() > p.t.rows {
                                Some(p.t.rows as u64)
                            } else {
                                None
                            },
                            if p.new_cols() > p.t.fields.len() {
                                Some(p.t.fields.len() as u64)
                            } else {
                                None
                            },
                        ),
                    ),
                ),
            ),
        )
    }
}

/// The outcome of a paste, given what writing the capture gave.
pub open spec fn paste_outcome(
    p: PasteV,
    revision: u64,
    w: Result<Seq<u8>, Seq<char>>,
) -> Result<OutcomeV, FailureV> {
    let n = p.t.fields.len();
    if p.row + p.height() > u64::MAX || p.new_rows() > MAX_ROWS {
        Err(refusal("anchor"@, wording::anchor_row_msg(p.row, p.height() as u64)))
    } else if p.col + p.width() > u64::MAX {
        Err(refusal("anchor"@, wording::anchor_col_msg(p.col, p.width() as u64)))
    } else {
        match (scale_issues(p, p.width()), remap_issues(p, p.width())) {
            (Some(f), _) => Err(f),
            (None, Some(f)) => Err(f),
            (None, None) => match output_cols(p, p.new_cols()) {
                Err(f) => Err(f),
                Ok(q) => match (
                    if p.touched().len() == 0 {
                        Ok(Seq::empty())
                    } else {
                        sealed(w)
                    },
                    rewritten(
                        p.t,
                        q.0,
                        p.num,
                        block_table(p.t.rows as u64, p.row, p.height() as u64),
                        p.new_rows(),
                    ),
                ) {
                    (Err(f), _) => Err(f),
                    (Ok(_), Err(f)) => Err(f),
                    (Ok(bytes), Ok(after)) => Ok(
                        OutcomeV {
                            rows: p.new_rows() as u64,
                            schema: Some(schema_json(q.0, after.cols, p.num)),
                            invalidation: paste_stale(
                                n,
                                p.new_cols(),
                                q.1 || types_change(p.t, q.0),
                                p.row,
                                p.height() as u64,
                                p.t.rows as u64,
                            ),
                            inverse: paste_inverse(p, revision),
                            bytes,
                            table: after,
                        },
                    ),
                },
            },
        }
    }
}

/// The positions marked are those that stand in the cells.
pub open spec fn marks(used: Seq<bool>, before: Seq<bool>, cells: Seq<Cell>) -> bool {
    used.len() == before.len() && forall|k: int|
        0 <= k < used.len() ==> #[trigger] used[k] == (before[k] || used_in(cells, k as u64))
}

/// Marks the positions that stand in the cells.
pub fn mark_used(cells: &Vec<Cell>, used: &mut Vec<bool>)
    ensures
        marks(final(used)@, old(used)@, cells@),
{
    let mut i: usize = 0;
    let ghost before = used@;
    while i < cells.len()
        invariant
            i <= cells.len(),
            before == old(used)@,
            marks(used@, before, cells@.take(i as int)),
        decreases cells.len() - i,
    {
        let ghost prior = used@;
        if let Some(k) = cells[i] {
            if k < used.len() as u64 {
                used.set(k as usize, true);
            }
        }
        proof {
            let p = cells@.take(i as int);
            let q = cells@.take(i + 1);
            assert(q =~= p.push(cells@[i as int]));
            assert forall|k: int| 0 <= k < used@.len() implies #[trigger] used@[k] == (before[k]
                || used_in(q, k as u64)) by {
                assert(used@.len() == used.len());
                assert(prior[k] == (before[k] || used_in(p, k as u64)));
                if used_in(p, k as u64) {
                    let m = p.index_of(Some(k as u64));
                    assert(q[m] == Some(k as u64));
                }
                if used_in(q, k as u64) {
                    let m = q.index_of(Some(k as u64));
                    if m < i {
                        assert(p[m] == Some(k as u64));
                    }
                }
                assert(q[i as int] == cells@[i as int]);
            }
        }
        i = i + 1;
    }
    assert(cells@.take(cells@.len() as int) =~= cells@);
}

/// As many unset marks.
pub fn no_marks(n: usize) -> (r: Vec<bool>)
    ensures
        r@.len() == n,
        forall|k: int| 0 <= k < n ==> !(#[trigger] r@[k]),
{
    let mut r: Vec<bool> = Vec::new();
    let mut i: usize = 0;
    while i < n
        invariant
            i <= n,
            r@.len() == i,
            forall|k: int| 0 <= k < i ==> !(#[trigger] r@[k]),
        decreases n - i,
    {
        r.push(false);
        i = i + 1;
    }
    r
}

/// Lists the levels in use that a declared list lacks.
pub fn list_missing(
    levels: &Vec<String>,
    a: &Vec<Cell>,
    b: &Vec<Cell>,
    declared: &Vec<String>,
) -> (r: Vec<String>)
    ensures
        texts(r@) == missing_levels(texts(levels@), a@, b@, texts(declared@)),
{
    let mut used = no_marks(levels.len());
    let ghost u0 = used@;
    mark_used(a, &mut used);
    let ghost u1 = used@;
    mark_used(b, &mut used);
    let dict = CatDict::from_list(clone_texts(declared));
    let ghost dl = texts(dict.values@);
    assert(dl =~= texts(declared@));
    let mut out: Vec<String> = Vec::new();
    let mut i: usize = 0;
    let ghost all = texts(levels@);
    assert(all.take(0) =~= Seq::empty());
    assert(texts(out@) =~= Seq::empty());
    while i < levels.len()
        invariant
            i <= levels.len(),
            all == texts(levels@),
            dict.wf(),
            dl == texts(dict.values@),
            used@.len() == levels@.len(),
            marks(u1, u0, a@),
            marks(used@, u1, b@),
            forall|k: int| 0 <= k < u0.len() ==> !(#[trigger] u0[k]),
            u0.len() == levels@.len(),
            texts(out@) == missing_levels(all.take(i as int), a@, b@, dl),
        decreases levels.len() - i,
    {
        assert(all.take(i + 1).drop_last() =~= all.take(i as int));
        assert(all.take(i + 1).last() == levels@[i as int]@);
        proof {
            crate::text::lemma_index_of(dl, levels@[i as int]@);
            assert(used@[i as int] == (u1[i as int] || used_in(b@, i as u64)));
            assert(u1[i as int] == (u0[i as int] || used_in(a@, i as u64)));
        }
        if used[i] && dict.lookup(levels[i].as_str()).is_none() {
            let ghost before = out@;
            out.push(levels[i].clone());
            assert(texts(out@) =~= texts(before).push(levels@[i as int]@));
        }
        i = i + 1;
    }
    assert(all.take(all.len() as int) =~= all);
    out
}

/// Joins the first ten of a list.
pub fn join_ten(v: &Vec<String>) -> (r: String)
    ensures
        r@ == joined(first_ten(texts(v@)), ", "@),
{
    let mut ten: Vec<String> = Vec::new();
    let mut i: usize = 0;
    while i < v.len() && i < 10
        invariant
            i <= v.len(),
            i <= 10,
            ten@.len() == i,
            texts(ten@) =~= texts(v@).take(i as int),
        decreases v.len() - i,
    {
        ten.push(v[i].clone());
        i = i + 1;
    }
    assert(texts(ten@) =~= first_ten(texts(v@)));
    join_texts(&ten, ", ")
}

/// The paste that the arguments describe.
pub open spec fn paste_of(
    t: TableV,
    num: NumeralsV,
    ingest: IngestParams,
    row: u64,
    col: u64,
    cells: Seq<Seq<(Seq<char>, bool)>>,
    window: Option<Seq<Option<EntryV>>>,
) -> PasteV {
    PasteV {
        t,
        num,
        nulls: texts(ingest.nulls@),
        threshold: ingest.threshold as nat,
        sort_limit: ingest.sort_limit as nat,
        row,
        col,
        cells,
        window,
    }
}

/// What a window declares, as a value.
pub open spec fn window_view(w: Option<&Vec<Option<WindowEntry>>>) -> Option<Seq<Option<EntryV>>> {
    match w {
        Some(v) => Some(entry_views(v@)),
        None => None,
    }
}

/// The declaration for pasted column `c`.
fn entry_at<'a>(window: Option<&'a Vec<Option<WindowEntry>>>, c: usize) -> (r: Option<
    &'a WindowEntry,
>)
    ensures
        (match r {
            Some(e) => Some(e@),
            None => None,
        }) == (match window_view(window) {
            Some(w) => if c < w.len() {
                w[c as int]
            } else {
                None
            },
            None => None,
        }),
{
    match window {
        None => None,
        Some(w) => {
            if c < w.len() {
                assert(entry_views(w@)[c as int] == opt_entry(w@[c as int]));
                match &w[c] {
                    Some(e) => Some(e),
                    None => None,
                }
            } else {
                None
            }
        },
    }
}

/// Checks that a dictionary may be replaced.
fn check_remap(
    ds: &Dataset,
    j: usize,
    row: u64,
    end: u64,
    declared: &Vec<String>,
    Ghost(p): Ghost<PasteV>,
    Ghost(c): Ghost<int>,
) -> (r: Result<(), EditFailure>)
    requires
        ds.wf(),
        ds.table().wf(),
        p.t == ds.table(),
        p.row == row,
        p.row + p.height() == end,
        p.col + c == j,
        j < ds.fields@.len(),
        p.remaps(c),
        p.entry(c)->0.levels->0 == texts(declared@),
        p.t.rows > 0,
    ensures
        match (r, remap_issue(p, c)) {
            (Ok(_), None) => true,
            (Err(e), Some(f)) => e@ == f,
            _ => false,
        },
{
    let rows = ds.rows();
    let index = build_index(&ds.dicts[j]);
    let count = index.len() as u64;
    let ghost levels = p.t.dicts[j as int];
    proof {
        assert(levels == texts(ds.dicts@[j as int]@));
        assert(index@.dom() =~= levels.to_set()) by {
            assert forall|t: Seq<char>| #[trigger] index@.dom().contains(t)
                <==> levels.to_set().contains(t) by {
                crate::text::lemma_index_of(levels, t);
                assert(index@.contains_key(t) || !index@.contains_key(t));
            }
        }
        assert(p.t.fields[j as int] == ds.fields@[j as int]@);
    }
    let name = &ds.fields[j].name;
    if count > WIRE_LEVELS_CAP as u64 {
        return Err(
            EditFailure::refused_column(
                name.as_str(),
                "schema_mismatch",
                wording::cap_block(count, WIRE_LEVELS_CAP as u64, name.as_str()),
            ),
        );
    }
    let ghost col = p.t.cols[j as int];
    assert(col.len() == p.t.rows);
    let a = ds.read_range(
        j,
        0,
        if row < rows {
            row
        } else {
            rows
        },
    );
    assert(a@ =~= p.before(col));
    let b = if end < rows {
        ds.read_range(j, end, rows)
    } else {
        Vec::new()
    };
    assert(b@ =~= p.after(col));
    let missing = list_missing(&ds.dicts[j], &a, &b, declared);
    assert(texts(missing@).len() == missing@.len());
    if missing.len() > 0 {
        return Err(
            EditFailure::refused_column(
                name.as_str(),
                "level_in_use",
                wording::in_use_block(name.as_str(), join_ten(&missing).as_str()),
            ),
        );
    }
    Ok(())
}

/// Builds the column of the table under a pasted column.
#[verifier::rlimit(50)]
fn build_covered(
    ds: &Dataset,
    num: &Numerals,
    sort_limit: usize,
    j: usize,
    row: u64,
    end: u64,
    ts: &Vec<Option<String>>,
    entry: Option<&WindowEntry>,
    Ghost(p): Ghost<PasteV>,
    Ghost(c): Ghost<int>,
) -> (r: Result<(OutCol, bool), EditFailure>)
    requires
        ds.wf(),
        ds.table().wf(),
        ds.table().supported(),
        p.t == ds.table(),
        p.num == num@,
        p.sort_limit == sort_limit,
        p.row == row,
        p.row + p.height() == end,
        p.col + c == j,
        j < ds.fields@.len(),
        p.entry(c) == (match entry {
            Some(e) => Some(e@),
            None => None,
        }),
        p.reads(c) == read_views(ts@),
        p.remaps(c) ==> !p.t.fields[j as int].is_scale(),
    ensures
        match (r, covered_col(p, c)) {
            (Ok(a), Ok(b)) => a.0@ == b.0 && a.1 == b.1 && a.0.wf(ds.fields@.len()),
            (Err(e), Err(f)) => e@ == f,
            _ => false,
        },
{
    let field = &ds.fields[j];
    let ghost f = p.t.fields[j as int];
    assert(f == field@);
    assert(f.level() is Some);
    let ghost reads = p.reads(c);
    let declared: Option<&Vec<String>> = match entry {
        Some(e) => match &e.levels {
            Some(l) => Some(l),
            None => None,
        },
        None => None,
    };
    if let Some(levels) = declared {
        let dict = CatDict::from_list(clone_texts(levels));
        let ghost dl = texts(dict.values@);
        assert(dl =~= texts(levels@));
        if let Some(t) = find_undeclared(&dict, ts) {
            return Err(
                EditFailure::refused("schema_mismatch", wording::not_declared(t.as_str())),
            );
        }
        let keys = look_up(&dict, false, num, ts);
        let map = map_keys(&ds.dicts[j], &dict);
        let oc = OutCol {
            field: field.copy(),
            old: Some(j),
            window: Some(keys),
            under: Under::Remap(map),
            levels: dict.values,
        };
        return Ok((oc, true));
    }
    if field.is_scale() {
        let bad = find_unparsed(ts, num);
        if bad.is_some() {
            let rows = ds.rows();
            let ghost col = p.t.cols[j as int];
            assert(col.len() == p.t.rows);
            let a = ds.read_range(
                j,
                0,
                if row < rows {
                    row
                } else {
                    rows
                },
            );
            assert(a@ =~= p.before(col));
            let b = if end < rows {
                ds.read_range(j, end, rows)
            } else {
                Vec::new()
            };
            assert(b@ =~= p.after(col));
            let mut all: Vec<String> = Vec::new();
            show_cells(&a, num, &mut all);
            let pasted = collect_somes(ts);
            let mut k: usize = 0;
            let ghost head = texts(all@);
            assert(head =~= shown(p.before(col), p.num));
            assert(head + texts(pasted@).take(0) =~= head);
            while k < pasted.len()
                invariant
                    k <= pasted.len(),
                    texts(all@) == head + texts(pasted@).take(k as int),
                decreases pasted.len() - k,
            {
                let ghost before = all@;
                all.push(pasted[k].clone());
                assert(texts(all@) =~= texts(before).push(pasted@[k as int]@));
                assert(texts(all@) =~= head + texts(pasted@).take(k + 1));
                k = k + 1;
            }
            assert(texts(pasted@).take(pasted@.len() as int) =~= texts(pasted@));
            show_cells(&b, num, &mut all);
            assert(texts(all@) =~= promoted_texts(p, c));
            let set = dedup_texts(&all);
            let dict = CatDict::from_list(prebuild_dict(&set, num, sort_limit));
            let keys = look_up(&dict, false, num, ts);
            let oc = OutCol {
                field: Field::plain(&field.name, &field.display_name, Level::Nominal, false),
                old: Some(j),
                window: Some(keys),
                under: Under::Render(dict.index),
                levels: dict.values,
            };
            return Ok((oc, false));
        }
        let cells = type_cells(ts, num);
        let all_integer = field.all_integer && are_integers(&cells);
        let levels: Vec<String> = Vec::new();
        assert(texts(levels@) =~= Seq::empty());
        let oc = OutCol {
            field: Field::plain(&field.name, &field.display_name, Level::Scale, all_integer),
            old: Some(j),
            window: Some(cells),
            under: Under::Same,
            levels,
        };
        return Ok((oc, false));
    }
    let (levels, keys) = absorb(&ds.dicts[j], num, ts);
    let grew = levels.len() > ds.dicts[j].len();
    assert(texts(levels@).len() == levels@.len());
    assert(texts(ds.dicts@[j as int]@).len() == ds.dicts@[j as int]@.len());
    let oc = OutCol {
        field: field.copy(),
        old: Some(j),
        window: Some(keys),
        under: Under::Same,
        levels,
    };
    Ok((oc, grew))
}

/// Builds a new column that holds numbers.
fn build_numbers(name: &String, display: &String, all_integer: bool, cells: Vec<Cell>) -> (r: OutCol)
    ensures
        r@ == number_col(name@, display@, all_integer, cells@),
        forall|n: nat| #[trigger] r.wf(n),
{
    let levels: Vec<String> = Vec::new();
    assert(texts(levels@) =~= Seq::empty());
    OutCol {
        field: Field::plain(name, display, Level::Scale, all_integer),
        old: None,
        window: Some(cells),
        under: Under::Nothing,
        levels,
    }
}

/// Builds a new column that holds levels.
fn build_levels(
    name: &String,
    display: &String,
    level: Level,
    levels: Vec<String>,
    keys: Vec<Cell>,
) -> (r: OutCol)
    requires
        !(level is Scale),
    ensures
        r@ == level_col(name@, display@, level, texts(levels@), keys@),
        forall|n: nat| #[trigger] r.wf(n),
{
    OutCol {
        field: Field::plain(name, display, level, false),
        old: None,
        window: Some(keys),
        under: Under::Nothing,
        levels,
    }
}

/// Builds a new column under a pasted column.
#[verifier::rlimit(50)]
fn build_created(
    num: &Numerals,
    threshold: usize,
    sort_limit: usize,
    j: u64,
    ts: &Vec<Option<String>>,
    entry: Option<&WindowEntry>,
    used: &Vec<String>,
    Ghost(p): Ghost<PasteV>,
    Ghost(c): Ghost<int>,
) -> (r: Result<OutCol, EditFailure>)
    requires
        p.num == num@,
        p.threshold == threshold,
        p.sort_limit == sort_limit,
        p.col + c == j,
        j < u64::MAX,
        p.entry(c) == (match entry {
            Some(e) => Some(e@),
            None => None,
        }),
        p.reads(c) == read_views(ts@),
    ensures
        match (r, created_col(p, c, texts(used@))) {
            (Ok(a), Ok(b)) => a@ == b && forall|n: nat| #[trigger] a.wf(n),
            (Err(e), Err(f)) => e@ == f,
            _ => false,
        },
{
    let declared: Option<&String> = match entry {
        Some(e) => match &e.name {
            Some(n) => Some(n),
            None => None,
        },
        None => None,
    };
    let (name, display): (String, String) = match declared {
        Some(nm) => {
            if contains_text(used, nm.as_str()) {
                return Err(
                    EditFailure::refused("schema_mismatch", wording::name_taken(nm.as_str())),
                );
            }
            let d = match entry {
                Some(e) => match &e.display_name {
                    Some(d) => d.clone(),
                    None => nm.clone(),
                },
                None => nm.clone(),
            };
            (nm.clone(), d)
        },
        None => {
            let none = String::new();
            assert(none@ =~= Seq::empty());
            let nm = unique_new_name(used, &none, j + 1);
            (nm.clone(), nm)
        },
    };
    assert(created_name(p, c, texts(used@)) == Ok::<(Seq<char>, Seq<char>), FailureV>(
        (name@, display@),
    ));
    let ty: Option<Level> = match entry {
        Some(e) => e.column_type,
        None => None,
    };
    match ty {
        Some(Level::Scale) => {
            if let Some(bad) = find_unparsed(ts, num) {
                return Err(
                    EditFailure::refused_column(
                        name.as_str(),
                        "schema_mismatch",
                        wording::declared_scale_new(name.as_str(), bad.as_str()),
                    ),
                );
            }
            let cells = type_cells(ts, num);
            let all_integer = has_values(&cells) && are_integers(&cells);
            Ok(build_numbers(&name, &display, all_integer, cells))
        },
        Some(level) => {
            let levels: Option<&Vec<String>> = match entry {
                Some(e) => match &e.levels {
                    Some(l) => Some(l),
                    None => None,
                },
                None => None,
            };
            match levels {
                Some(l) => {
                    let dict = CatDict::from_list(clone_texts(l));
                    assert(texts(dict.values@) =~= texts(l@));
                    if let Some(t) = find_undeclared(&dict, ts) {
                        return Err(
                            EditFailure::refused(
                                "schema_mismatch",
                                wording::not_declared(t.as_str()),
                            ),
                        );
                    }
                    let keys = look_up(&dict, false, num, ts);
                    Ok(build_levels(&name, &display, level, dict.values, keys))
                },
                None => {
                    let d = derive_dict(ts, num, threshold, sort_limit);
                    Ok(build_levels(&name, &display, level, d.levels, d.keys))
                },
            }
        },
        None => {
            let d = derive_dict(ts, num, threshold, sort_limit);
            if d.level.is_scale() {
                Ok(build_numbers(&name, &display, d.integers, type_cells(ts, num)))
            } else {
                Ok(build_levels(&name, &display, d.level, d.levels, d.keys))
            }
        },
    }
}

/// Every row of the block is as wide as the first, which is not empty.
pub open spec fn block_shaped(cells: Seq<Vec<(String, bool)>>) -> bool {
    &&& cells.len() > 0
    &&& cells[0]@.len() > 0
    &&& forall|r: int| 0 <= r < cells.len() ==> (#[trigger] cells[r])@.len() == cells[0]@.len()
}

/// No declared schema gives levels to a scale.
pub open spec fn window_sound(p: PasteV) -> bool {
    forall|c: int| #[trigger] p.remaps(c) ==> !p.t.fields[p.col + c].is_scale()
}

/// Reads every pasted column.
fn read_block(block: &ParsedBlock, nulls: &Vec<String>) -> (r: Vec<Vec<Option<String>>>)
    requires
        block_shaped(block.cells@),
    ensures
        r@.len() == block.cells@[0]@.len(),
        forall|c: int|
            0 <= c < r@.len() ==> read_views((#[trigger] r@[c])@) == column_reads(
                block@,
                c,
                texts(nulls@),
            ),
{
    let mut out: Vec<Vec<Option<String>>> = Vec::new();
    let mut c: usize = 0;
    let width = block.cells[0].len();
    while c < width
        invariant
            c <= width,
            width == block.cells@[0]@.len(),
            block_shaped(block.cells@),
            out@.len() == c,
            forall|k: int|
                0 <= k < c ==> read_views((#[trigger] out@[k])@) == column_reads(
                    block@,
                    k,
                    texts(nulls@),
                ),
        decreases width - c,
    {
        assert forall|i: int| 0 <= i < block.cells@.len() implies c < (
        #[trigger] block.cells@[i])@.len() by {
            assert(block.cells@[i]@.len() == block.cells@[0]@.len());
        }
        let ts = read_pasted(&block.cells, c, nulls);
        assert(Seq::new(block.cells@.len(), |i: int| row_view(block.cells@[i]@)) =~= block@);
        out.push(ts);
        c = c + 1;
    }
    out
}

proof fn lemma_scale_issues(p: PasteV, k: nat, m: nat)
    requires
        k <= m,
        scale_issues(p, k) is Some,
    ensures
        scale_issues(p, m) == scale_issues(p, k),
    decreases m - k,
{
    if k < m {
        lemma_scale_issues(p, k, (m - 1) as nat);
    }
}

proof fn lemma_remap_issues(p: PasteV, k: nat, m: nat)
    requires
        k <= m,
        remap_issues(p, k) is Some,
    ensures
        remap_issues(p, m) == remap_issues(p, k),
    decreases m - k,
{
    if k < m {
        lemma_remap_issues(p, k, (m - 1) as nat);
    }
}

proof fn lemma_output_cols_err(p: PasteV, k: nat, m: nat)
    requires
        k <= m,
        output_cols(p, k) is Err,
    ensures
        output_cols(p, m) == output_cols(p, k),
    decreases m - k,
{
    if k < m {
        lemma_output_cols_err(p, k, (m - 1) as nat);
    }
}

/// Checks every pasted column under a declared scale, and tells whether one is re-encoded.
#[verifier::rlimit(50)]
fn check_scales(
    ds: &Dataset,
    num: &Numerals,
    col: u64,
    reads: &Vec<Vec<Option<String>>>,
    window: Option<&Vec<Option<WindowEntry>>>,
    Ghost(p): Ghost<PasteV>,
) -> (r: Result<bool, EditFailure>)
    requires
        ds.wf(),
        p.t == ds.table(),
        p.num == num@,
        p.col == col,
        p.window == window_view(window),
        reads@.len() == p.width(),
        forall|c: int| 0 <= c < reads@.len() ==> read_views((#[trigger] reads@[c])@) == p.reads(c),
        col + p.width() <= u64::MAX,
    ensures
        match (r, scale_issues(p, p.width())) {
            (Ok(b), None) => b == p.reencodes(),
            (Err(e), Some(f)) => e@ == f,
            _ => false,
        },
{
    let n = ds.fields.len() as u64;
    let mut found = false;
    let mut c: usize = 0;
    while c < reads.len()
        invariant
            c <= reads.len(),
            ds.wf(),
            n == ds.fields@.len(),
            p.t == ds.table(),
            p.num == num@,
            p.col == col,
            p.window == window_view(window),
            reads@.len() == p.width(),
            forall|c: int|
                0 <= c < reads@.len() ==> read_views((#[trigger] reads@[c])@) == p.reads(c),
            col + p.width() <= u64::MAX,
            scale_issues(p, c as nat) is None,
            found == p.reencodes_before(c as nat),
        decreases reads.len() - c,
    {
        let j: u64 = col + c as u64;
        let entry = entry_at(window, c);
        let ghost ev = p.entry(c as int);
        assert(ev == (match entry {
            Some(e) => Some(e@),
            None => None,
        }));
        let mut hit = false;
        if j < n {
            assert(ds.fields@.len() == ds.fields.len());
            let f = &ds.fields[j as usize];
            assert(p.t.fields[j as int] == f@);
            assert(read_views(reads@[c as int]@) == p.reads(c as int));
            if f.is_scale() {
                if let Some(bad) = find_unparsed(&reads[c], num) {
                    hit = true;
                    let declared = match entry {
                        Some(e) => match e.column_type {
                            Some(l) => l.is_scale(),
                            None => false,
                        },
                        None => false,
                    };
                    if declared {
                        assert(scale_issue(p, c as int) is Some);
                        proof {
                            lemma_scale_issues(p, (c + 1) as nat, p.width());
                        }
                        return Err(
                            EditFailure::refused_column(
                                f.name.as_str(),
                                "schema_mismatch",
                                wording::declared_scale_cell(f.name.as_str(), bad.as_str()),
                            ),
                        );
                    }
                }
            }
            if let Some(e) = entry {
                if e.levels.is_some() {
                    hit = true;
                }
            }
        }
        assert(hit == (p.promotes(c as int) || p.remaps(c as int)));
        assert(scale_issue(p, c as int) is None);
        if hit {
            found = true;
        }
        c = c + 1;
    }
    Ok(found)
}

/// Checks every dictionary that the paste replaces.
fn check_remaps(
    ds: &Dataset,
    row: u64,
    end: u64,
    col: u64,
    width: usize,
    window: Option<&Vec<Option<WindowEntry>>>,
    Ghost(p): Ghost<PasteV>,
) -> (r: Result<(), EditFailure>)
    requires
        ds.wf(),
        ds.table().wf(),
        p.t == ds.table(),
        p.row == row,
        p.row + p.height() == end,
        p.col == col,
        p.window == window_view(window),
        width == p.width(),
        col + width <= u64::MAX,
    ensures
        match (r, remap_issues(p, p.width())) {
            (Ok(_), None) => true,
            (Err(e), Some(f)) => e@ == f,
            _ => false,
        },
{
    let n = ds.fields.len() as u64;
    let rows = ds.rows();
    let mut c: usize = 0;
    while c < width
        invariant
            c <= width,
            ds.wf(),
            ds.table().wf(),
            n == ds.fields@.len(),
            rows == p.t.rows,
            p.t == ds.table(),
            p.row == row,
            p.row + p.height() == end,
            p.col == col,
            p.window == window_view(window),
            width == p.width(),
            col + width <= u64::MAX,
            remap_issues(p, c as nat) is None,
        decreases width - c,
    {
        let j: u64 = col + c as u64;
        let entry = entry_at(window, c);
        assert(p.entry(c as int) == (match entry {
            Some(e) => Some(e@),
            None => None,
        }));
        if j < n && rows > 0 {
            if let Some(e) = entry {
                if let Some(declared) = &e.levels {
                    assert(ds.fields@.len() == ds.fields.len());
                    if let Err(x) = check_remap(
                        ds,
                        j as usize,
                        row,
                        end,
                        declared,
                        Ghost(p),
                        Ghost(c as int),
                    ) {
                        proof {
                            lemma_remap_issues(p, (c + 1) as nat, p.width());
                        }
                        return Err(x);
                    }
                }
            }
        }
        assert(remap_issue(p, c as int) is None);
        c = c + 1;
    }
    Ok(())
}

/// Builds the output columns of a paste.
#[verifier::rlimit(40)]
fn build_outputs(
    ds: &Dataset,
    num: &Numerals,
    ingest: &IngestParams,
    row: u64,
    end: u64,
    col: u64,
    reads: &Vec<Vec<Option<String>>>,
    window: Option<&Vec<Option<WindowEntry>>>,
    new_cols: u64,
    Ghost(p): Ghost<PasteV>,
) -> (r: Result<(Vec<OutCol>, bool), EditFailure>)
    requires
        ds.wf(),
        ds.table().wf(),
        ds.table().supported(),
        p.t == ds.table(),
        p.num == num@,
        p.threshold == ingest.threshold,
        p.sort_limit == ingest.sort_limit,
        p.row == row,
        p.row + p.height() == end,
        p.col == col,
        p.window == window_view(window),
        reads@.len() == p.width(),
        forall|c: int| 0 <= c < reads@.len() ==> read_views((#[trigger] reads@[c])@) == p.reads(c),
        col + p.width() <= u64::MAX,
        new_cols == p.new_cols(),
        window_sound(p),
    ensures
        match (r, output_cols(p, p.new_cols())) {
            (Ok(a), Ok(b)) => plan_views(a.0@) == b.0 && a.1 == b.1 && plan_wf(
                a.0@,
                ds.fields@.len(),
            ) && a.0@.len() == new_cols,
            (Err(e), Err(f)) => e@ == f,
            _ => false,
        },
{
    let n = ds.fields.len() as u64;
    let width = reads.len() as u64;
    let mut plan: Vec<OutCol> = Vec::new();
    let mut used: Vec<String> = Vec::new();
    let mut grew = false;
    let mut j: u64 = 0;
    assert(plan_views(plan@) =~= Seq::empty());
    assert(texts(used@) =~= plan_names(plan_views(plan@)));
    while j < new_cols
        invariant
            j <= new_cols,
            ds.wf(),
            ds.table().wf(),
            ds.table().supported(),
            n == ds.fields@.len(),
            width == p.width(),
            p.t == ds.table(),
            p.num == num@,
            p.threshold == ingest.threshold,
            p.sort_limit == ingest.sort_limit,
            p.row == row,
            p.row + p.height() == end,
            p.col == col,
            p.window == window_view(window),
            reads@.len() == p.width(),
            forall|c: int|
                0 <= c < reads@.len() ==> read_views((#[trigger] reads@[c])@) == p.reads(c),
            col + p.width() <= u64::MAX,
            new_cols == p.new_cols(),
            window_sound(p),
            plan@.len() == j,
            plan_wf(plan@, ds.fields@.len()),
            output_cols(p, j as nat) == Ok::<(Seq<OutColV>, bool), FailureV>(
                (plan_views(plan@), grew),
            ),
            texts(used@) == plan_names(plan_views(plan@)),
        decreases new_cols - j,
    {
        let ghost q = plan_views(plan@);
        assert(ds.fields@.len() == ds.fields.len());
        assert(reads@.len() == reads.len());
        let oc: OutCol = if j >= col && j - col < width {
            let c = (j - col) as usize;
            assert(c == j - col);
            let entry = entry_at(window, c);
            assert(p.entry(c as int) == (match entry {
                Some(e) => Some(e@),
                None => None,
            }));
            assert(read_views(reads@[c as int]@) == p.reads(c as int));
            if j < n {
                assert(p.remaps(c as int) ==> !p.t.fields[j as int].is_scale());
                match build_covered(
                    ds,
                    num,
                    ingest.sort_limit,
                    j as usize,
                    row,
                    end,
                    &reads[c],
                    entry,
                    Ghost(p),
                    Ghost(c as int),
                ) {
                    Ok(x) => {
                        if x.1 {
                            grew = true;
                        }
                        x.0
                    },
                    Err(e) => {
                        proof {
                            lemma_output_cols_err(p, (j + 1) as nat, p.new_cols());
                        }
                        return Err(e);
                    },
                }
            } else {
                match build_created(
                    num,
                    ingest.threshold,
                    ingest.sort_limit,
                    j,
                    &reads[c],
                    entry,
                    &used,
                    Ghost(p),
                    Ghost(c as int),
                ) {
                    Ok(x) => x,
                    Err(e) => {
                        proof {
                            lemma_output_cols_err(p, (j + 1) as nat, p.new_cols());
                        }
                        return Err(e);
                    },
                }
            }
        } else if j < n {
            pass_col(ds, j as usize)
        } else {
            let none = String::new();
            assert(none@ =~= Seq::empty());
            let name = unique_new_name(&used, &none, j + 1);
            let levels: Vec<String> = Vec::new();
            assert(texts(levels@) =~= Seq::empty());
            OutCol {
                field: Field::plain(&name, &name, Level::Nominal, false),
                old: None,
                window: None,
                under: Under::Nothing,
                levels,
            }
        };
        assert(oc.wf(ds.fields@.len()));
        assert(output_cols(p, (j + 1) as nat) == Ok::<(Seq<OutColV>, bool), FailureV>(
            (q.push(oc@), grew),
        ));
        let ghost before_used = used@;
        used.push(oc.field.name.clone());
        let ghost before = plan@;
        plan.push(oc);
        proof {
            assert(plan_views(plan@) =~= q.push(oc@));
            assert(texts(used@) =~= texts(before_used).push(oc@.field.name));
            assert(texts(used@) =~= plan_names(plan_views(plan@)));
        }
        j = j + 1;
    }
    Ok((plan, grew))
}

/// A plan whose table is supported keeps levels on every field.
proof fn lemma_output_levels(p: PasteV, k: nat)
    requires
        p.t.supported(),
        output_cols(p, k) is Ok,
        k <= p.new_cols(),
        p.col + p.width() <= u64::MAX,
    ensures
        output_cols(p, k)->Ok_0.0.len() == k,
        forall|c: int|
            0 <= c < k ==> (#[trigger] output_cols(p, k)->Ok_0.0[c]).field.level() is Some,
    decreases k,
{
    if k > 0 {
        lemma_output_levels(p, (k - 1) as nat);
        let q = output_cols(p, (k - 1) as nat)->Ok_0;
        let j = k - 1;
        let oc = output_col(p, j, plan_names(q.0))->Ok_0.0;
        if j < p.t.fields.len() {
            assert(p.t.fields[j].level() is Some);
        }
        assert(oc.field.level() is Some);
        let all = output_cols(p, k)->Ok_0.0;
        assert forall|c: int| 0 <= c < k implies (#[trigger] all[c]).field.level() is Some by {
            if c < k - 1 {
                assert(all[c] == q.0[c]);
            }
        }
    }
}

/// The segments of a paste have the paste's rows and want no row beyond the table.
pub proof fn lemma_block_rows(n: u64, row: u64, len: u64)
    requires
        row + len <= u64::MAX,
    ensures
        table_overrun(block_table(n, row, len), n as nat) is None,
        table_rows(block_table(n, row, len)) == if row + len > n {
            (row + len) as nat
        } else {
            n as nat
        },
{
    let segs = block_table(n, row, len);
    reveal_with_fuel(table_rows, 5);
    reveal_with_fuel(table_overrun, 5);
    let s1 = segs.drop_last();
    let s2 = s1.drop_last();
    let s3 = s2.drop_last();
}

/// Whether some column of the table changes its type.
fn find_type_change(ds: &Dataset, plan: &Vec<OutCol>) -> (r: bool)
    requires
        plan@.len() >= ds.fields@.len(),
    ensures
        r == types_change(ds.table(), plan_views(plan@)),
{
    let mut j: usize = 0;
    let ghost t = ds.table();
    let ghost q = plan_views(plan@);
    while j < ds.fields.len()
        invariant
            j <= ds.fields.len(),
            t == ds.table(),
            q == plan_views(plan@),
            plan@.len() >= ds.fields@.len(),
            forall|k: int|
                0 <= k < j ==> (#[trigger] t.fields[k]).is_scale() == q[k].field.is_scale(),
        decreases ds.fields.len() - j,
    {
        assert(t.fields[j as int] == ds.fields@[j as int]@);
        assert(q[j as int] == plan@[j as int]@);
        if ds.fields[j].is_scale() != plan[j].field.is_scale() {
            return true;
        }
        j = j + 1;
    }
    false
}

/// Serves a paste.
#[verifier::rlimit(60)]
pub fn apply_insert_block(
    ds: &Dataset,
    num: &Numerals,
    ingest: &IngestParams,
    row: u64,
    col: u64,
    block: &ParsedBlock,
    window: Option<&Vec<Option<WindowEntry>>>,
    revision: u64,
) -> (r: Result<(EditOutput, Dataset), EditFailure>)
    requires
        ds.wf(),
        ds.table().supported(),
        block_shaped(block.cells@),
        window_sound(
            paste_of(ds.table(), num@, *ingest, row, col, block@, window_view(window)),
        ),
    ensures
        ({
            let p = paste_of(ds.table(), num@, *ingest, row, col, block@, window_view(window));
            let w = column_file(paste_capture(p));
            gives(r, paste_outcome(p, revision, w)) && (r is Ok ==> written(w, paste_capture(p)))
        }),
{
    let ghost p = paste_of(ds.table(), num@, *ingest, row, col, block@, window_view(window));
    let ghost t = ds.table();
    let ghost none = column_file(paste_capture(p));
    proof {
        lemma_table_wf(*ds);
        assert(block@[0].len() == block.cells@[0]@.len());
    }
    let rows = ds.rows();
    let n = ds.fields.len() as u64;
    let height = block.cells.len() as u64;
    let width = block.cells[0].len() as u64;
    assert(p.height() == height && p.width() == width);
    if row > MAX_ROWS || height > MAX_ROWS || row + height > MAX_ROWS {
        let r = Err(EditFailure::refused("anchor", wording::anchor_row(row, height)));
        assert(gives(r, paste_outcome(p, revision, none)));
        return r;
    }
    let end: u64 = row + height;
    let new_rows: u64 = if end > rows {
        end
    } else {
        rows
    };
    if col > u64::MAX - width {
        let r = Err(EditFailure::refused("anchor", wording::anchor_col(col, width)));
        assert(gives(r, paste_outcome(p, revision, none)));
        return r;
    }
    let col_end: u64 = col + width;
    let new_cols: u64 = if col_end > n {
        col_end
    } else {
        n
    };
    let reads = read_block(block, &ingest.nulls);
    let full = match check_scales(ds, num, col, &reads, window, Ghost(p)) {
        Ok(b) => b,
        Err(e) => {
            let r = Err(e);
            assert(gives(r, paste_outcome(p, revision, none)));
            return r;
        },
    };
    if let Err(e) = check_remaps(ds, row, end, col, reads.len(), window, Ghost(p)) {
        let r = Err(e);
        assert(gives(r, paste_outcome(p, revision, none)));
        return r;
    }
    let (plan, grew) = match build_outputs(
        ds,
        num,
        ingest,
        row,
        end,
        col,
        &reads,
        window,
        new_cols,
        Ghost(p),
    ) {
        Ok(x) => x,
        Err(e) => {
            let r = Err(e);
            assert(gives(r, paste_outcome(p, revision, none)));
            return r;
        },
    };
    let overlap: u64 = if row >= rows {
        0
    } else if rows - row < height {
        rows - row
    } else {
        height
    };
    let js: Vec<u64> = if col >= n {
        Vec::new()
    } else if col_end < n {
        make_run(col, col_end)
    } else {
        make_run(col, n)
    };
    assert(js@ =~= p.touched());
    assert forall|i: int| 0 <= i < js@.len() implies #[trigger] js@[i] < ds.fields@.len() by {}
    let mut bytes: Vec<u8> = Vec::new();
    let mut meta = None;
    let ghost mut w = none;
    if js.len() > 0 {
        let from: u64 = if full {
            0
        } else if row < rows {
            row
        } else {
            rows
        };
        let upto: u64 = if full {
            rows
        } else {
            from + overlap
        };
        let cols = capture_cols(ds, &js, from, upto);
        let write = write_columns(&cols);
        proof {
            w = write_view(write);
            assert(column_views(cols@) =~= paste_capture(p));
        }
        bytes = match seal(write) {
            Ok(b) => b,
            Err(e) => {
                let r = Err(e);
                assert(gives(r, paste_outcome(p, revision, w)));
                return r;
            },
        };
        let ops = make_restore_block(
            ds,
            rows,
            (row, col, height, width),
            full,
            if full {
                rows
            } else {
                overlap
            },
            &js,
            Some(
                (
                    if new_rows > rows {
                        Some(rows)
                    } else {
                        None
                    },
                    if new_cols > n {
                        Some(n)
                    } else {
                        None
                    },
                ),
            ),
        );
        meta = Some(make_inverse(revision, ops));
    }
    assert((match meta {
        Some(m) => Some(m@),
        None => None,
    }) == paste_inverse(p, revision));
    assert(bytes@ =~= if p.touched().len() == 0 {
        Seq::empty()
    } else {
        sealed(w)->Ok_0
    });
    assert(written(w, paste_capture(p)));
    let segs = block_segments(rows, row, height);
    proof {
        lemma_block_rows(rows, row, height);
        lemma_output_levels(p, p.new_cols());
    }
    let d = match stream_rewrite(ds, &plan, num, &segs, new_rows) {
        Ok(d) => d,
        Err(e) => {
            let r = Err(e);
            assert(gives(r, paste_outcome(p, revision, w)));
            return r;
        },
    };
    assert forall|c: int| 0 <= c < plan@.len() implies (#[trigger] plan@[c])@.field.level() is Some by {
        assert(plan_views(plan@)[c] == plan@[c]@);
    }
    assert(d.table().fields.len() == plan@.len());
    let schema = wire_schema(&plan, &d, num);
    let changed = grew || find_type_change(ds, &plan);
    let out = EditOutput {
        rows: new_rows,
        schema: Some(schema),
        invalidation: block_invalidation(
            ds.fields.len(),
            plan.len(),
            changed,
            row,
            height,
            rows,
        ),
        inverse_meta: meta,
        inverse_bytes: bytes,
    };
    let r = Ok((out, d));
    assert(gives(r, paste_outcome(p, revision, w)));
    r
}

} // verus!
