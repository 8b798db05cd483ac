//! Rows: inserting null ones, deleting some, and putting deleted ones back.
use vstd::prelude::*;
use crate::capture::{
    blob_columns, column_views, decode_inverse, decoded, seal, sealed, column_file, write_columns,
    write_view, written, Column, ColumnV, InverseData,
};
use crate::engine::{
    plan_fits, plan_views, plan_wf, planned, rewritten, seg_cells, stream_rewrite, walked, OutCol,
    OutColV, Under, UnderV,
};
use crate::json::{
    json_array, json_number, json_object, json_text, no_members, number_of, number_at, put, Json, JsonV,
};
use crate::messages::{all_stale, refusal, EditFailure, FailureV, Invalidation};
use crate::number::{Numerals, NumeralsV};
use crate::outcome::{
    capture_cols, capture_of, column_entries, delete_rows_program, gives, inverse_of,
    make_column_entries, make_delete_rows, make_inverse, make_run, outcome_of, pass_colv,
    pass_plan, pass_through_plan, run, EditOutput, OutcomeV,
};
use crate::segments::{
    delete_rows_segments, delete_rows_table, insert_rows_segments, insert_rows_table,
    restore_rows_segments, restore_rows_table, table_overrun, table_rows, Seg,
};
use crate::table::{
    cell_fits, lemma_table_wf, Cell, Dataset, Field, FieldV, TableV, MAX_ROWS,
};
use crate::text::texts;
use crate::wire::{schema_json, wire_schema};
use crate::wording;

verus! {

/// As many null cells.
pub open spec fn nulls(n: nat) -> Seq<Cell> {
    Seq::new(n, |i: int| None::<u64>)
}

/// The table with `count` null rows before row `at`.
pub open spec fn with_rows(t: TableV, at: int, count: nat) -> TableV {
    TableV {
        cols: Seq::new(
            t.cols.len(),
            |j: int| t.cols[j].take(at) + nulls(count) + t.cols[j].skip(at),
        ),
        rows: t.rows + count,
        ..t
    }
}

/// The table without rows `at` up to `at + count`. Dictionaries keep unused levels.
pub open spec fn without_rows(t: TableV, at: int, count: nat) -> TableV {
    TableV {
        cols: Seq::new(t.cols.len(), |j: int| t.cols[j].take(at) + t.cols[j].skip(at + count)),
        rows: (t.rows - count) as nat,
        ..t
    }
}

/// Two segments walk one after the other.
pub proof fn lemma_two(
    oc: OutColV,
    num: NumeralsV,
    cols: Seq<Seq<Cell>>,
    n: nat,
    a: Seg,
    b: Seg,
)
    ensures
        walked(oc, num, cols, n, seq![a, b]) == seg_cells(oc, num, cols, n, a) + seg_cells(
            oc,
            num,
            cols,
            n,
            b,
        ),
        table_rows(seq![a, b]) == a.rows() + b.rows(),
        table_overrun(seq![a, b], n) == (match a.overrun(n) {
            Some(r) => Some(r),
            None => b.overrun(n),
        }),
{
    reveal_with_fuel(walked, 3);
    reveal_with_fuel(table_rows, 3);
    reveal_with_fuel(table_overrun, 3);
    assert(seq![a, b].drop_last() =~= seq![a]);
    assert(seq![a].drop_last() =~= Seq::empty());
    assert(walked(oc, num, cols, n, seq![a]) =~= seg_cells(oc, num, cols, n, a));
}

/// Three segments walk one after the other.
pub proof fn lemma_three(
    oc: OutColV,
    num: NumeralsV,
    cols: Seq<Seq<Cell>>,
    n: nat,
    a: Seg,
    b: Seg,
    c: Seg,
)
    ensures
        walked(oc, num, cols, n, seq![a, b, c]) == seg_cells(oc, num, cols, n, a) + seg_cells(
            oc,
            num,
            cols,
            n,
            b,
        ) + seg_cells(oc, num, cols, n, c),
        table_rows(seq![a, b, c]) == a.rows() + b.rows() + c.rows(),
        table_overrun(seq![a, b, c], n) == (match a.overrun(n) {
            Some(r) => Some(r),
            None => match b.overrun(n) {
                Some(r) => Some(r),
                None => c.overrun(n),
            },
        }),
{
    lemma_two(oc, num, cols, n, a, b);
    assert(seq![a, b, c].drop_last() =~= seq![a, b]);
}

/// An old row of an untouched column stays.
pub proof fn lemma_pass_copy(t: TableV, num: NumeralsV, j: int, out: u64, from: u64, len: u64)
    requires
        t.wf(),
        0 <= j < t.fields.len(),
        from + len <= t.rows,
    ensures
        seg_cells(
            pass_colv(t, j),
            num,
            t.cols,
            t.rows,
            Seg::Copy { out, old: from, len },
        ) == t.cols[j].subrange(from as int, from + len),
{
    assert(seg_cells(pass_colv(t, j), num, t.cols, t.rows, Seg::Copy { out, old: from, len })
        =~= t.cols[j].subrange(from as int, from + len));
}

/// Inserting null rows into an untouched plan gives the table with null rows.
pub proof fn lemma_insert_rows(t: TableV, num: NumeralsV, at: u64, count: u64)
    requires
        t.wf(),
        at <= t.rows,
        t.rows + count <= MAX_ROWS,
        count > 0,
    ensures
        rewritten(
            t,
            pass_plan(t),
            num,
            insert_rows_table(t.rows as u64, at, count),
            t.rows + count as nat,
        ) == Ok::<TableV, FailureV>(with_rows(t, at as int, count as nat)),
        with_rows(t, at as int, count as nat).wf(),
{
    let n = t.rows as u64;
    let a = Seg::Copy { out: 0, old: 0, len: at };
    let b = Seg::Null { len: count };
    let c = Seg::Copy { out: (at + count) as u64, old: at, len: (n - at) as u64 };
    let segs = insert_rows_table(n, at, count);
    let plan = pass_plan(t);
    let goal = with_rows(t, at as int, count as nat);
    let dummy = OutColV {
        field: arbitrary(),
        old: None,
        window: None,
        under: UnderV::Same,
        levels: Seq::empty(),
    };
    lemma_three(dummy, num, t.cols, t.rows, a, b, c);
    assert forall|j: int| 0 <= j < plan.len() implies #[trigger] walked(
        plan[j],
        num,
        t.cols,
        t.rows,
        segs,
    ) == goal.cols[j] by {
        lemma_three(plan[j], num, t.cols, t.rows, a, b, c);
        lemma_pass_copy(t, num, j, 0, 0, at);
        lemma_pass_copy(t, num, j, (at + count) as u64, at, (n - at) as u64);
        assert(seg_cells(plan[j], num, t.cols, t.rows, b) =~= nulls(count as nat));
        assert(t.cols[j].subrange(0, at as int) =~= t.cols[j].take(at as int));
        assert(t.cols[j].subrange(at as int, n as int) =~= t.cols[j].skip(at as int));
        assert(walked(plan[j], num, t.cols, t.rows, segs) =~= goal.cols[j]);
    }
    assert forall|j: int, i: int| 0 <= j < goal.cols.len() && 0 <= i < goal.rows implies cell_fits(
        goal.fields[j],
        goal.dicts[j],
        #[trigger] goal.cols[j][i],
    ) by {
        let col = t.cols[j];
        assert(col.len() == t.rows);
        if i < at {
            assert(goal.cols[j][i] == col[i]);
        } else if i < at + count {
            assert(goal.cols[j][i] is None);
        } else {
            assert(goal.cols[j][i] == col[i - count]);
        }
    }
    assert(plan_fits(t, plan, num, segs)) by {
        assert forall|j: int, i: int| 0 <= j < plan.len() && 0 <= i < table_rows(
            segs,
        ) implies cell_fits(
            plan[j].field,
            plan[j].levels,
            #[trigger] walked(plan[j], num, t.cols, t.rows, segs)[i],
        ) by {
            assert(walked(plan[j], num, t.cols, t.rows, segs) == goal.cols[j]);
            assert(cell_fits(goal.fields[j], goal.dicts[j], goal.cols[j][i]));
        }
    }
    let got = planned(t, plan, num, segs, t.rows + count as nat);
    assert(got.fields =~= goal.fields);
    assert(got.dicts =~= goal.dicts);
    assert(got.cols =~= goal.cols);
}

/// Deleting rows from an untouched plan gives the table without them.
pub proof fn lemma_delete_rows(t: TableV, num: NumeralsV, at: u64, count: u64)
    requires
        t.wf(),
        at + count <= t.rows,
        count > 0,
    ensures
        rewritten(
            t,
            pass_plan(t),
            num,
            delete_rows_table(t.rows as u64, at, count),
            (t.rows - count) as nat,
        ) == Ok::<TableV, FailureV>(without_rows(t, at as int, count as nat)),
        without_rows(t, at as int, count as nat).wf(),
{
    let n = t.rows as u64;
    let a = Seg::Copy { out: 0, old: 0, len: at };
    let b = Seg::Copy { out: at, old: (at + count) as u64, len: (n - at - count) as u64 };
    let segs = delete_rows_table(n, at, count);
    let plan = pass_plan(t);
    let goal = without_rows(t, at as int, count as nat);
    let dummy = OutColV {
        field: arbitrary(),
        old: None,
        window: None,
        under: UnderV::Same,
        levels: Seq::empty(),
    };
    lemma_two(dummy, num, t.cols, t.rows, a, b);
    assert forall|j: int| 0 <= j < plan.len() implies #[trigger] walked(
        plan[j],
        num,
        t.cols,
        t.rows,
        segs,
    ) == goal.cols[j] by {
        lemma_two(plan[j], num, t.cols, t.rows, a, b);
        lemma_pass_copy(t, num, j, 0, 0, at);
        lemma_pass_copy(t, num, j, at, (at + count) as u64, (n - at - count) as u64);
        assert(t.cols[j].subrange(0, at as int) =~= t.cols[j].take(at as int));
        assert(t.cols[j].subrange(at + count, n as int) =~= t.cols[j].skip(at + count));
        assert(walked(plan[j], num, t.cols, t.rows, segs) =~= goal.cols[j]);
    }
    assert forall|j: int, i: int| 0 <= j < goal.cols.len() && 0 <= i < goal.rows implies cell_fits(
        goal.fields[j],
        goal.dicts[j],
        #[trigger] goal.cols[j][i],
    ) by {
        let col = t.cols[j];
        assert(col.len() == t.rows);
        if i < at {
            assert(goal.cols[j][i] == col[i]);
        } else {
            assert(goal.cols[j][i] == col[i + count]);
        }
    }
    assert(plan_fits(t, plan, num, segs)) by {
        assert forall|j: int, i: int| 0 <= j < plan.len() && 0 <= i < table_rows(
            segs,
        ) implies cell_fits(
            plan[j].field,
            plan[j].levels,
            #[trigger] walked(plan[j], num, t.cols, t.rows, segs)[i],
        ) by {
            assert(walked(plan[j], num, t.cols, t.rows, segs) == goal.cols[j]);
            assert(cell_fits(goal.fields[j], goal.dicts[j], goal.cols[j][i]));
        }
    }
    let got = planned(t, plan, num, segs, (t.rows - count) as nat);
    assert(got.fields =~= goal.fields);
    assert(got.dicts =~= goal.dicts);
    assert(got.cols =~= goal.cols);
}

/// The rows from `at` on are stale.
pub open spec fn stale_from(at: u64) -> Invalidation {
    Invalidation { all: None, rows_from: Some(at), rows_to: None }
}

/// The outcome of `insert_rows`: `at` must name a row of the table or its end, and there
/// must be something to insert. No schema ships: null rows change no count.
pub open spec fn insert_rows_outcome(t: TableV, at: u64, count: u64, revision: u64) -> Result<
    OutcomeV,
    FailureV,
> {
    if count == 0 || at > t.rows {
        Err(refusal("range"@, wording::insert_rows_range_msg(at, count, t.rows as u64)))
    } else if t.rows + count > MAX_ROWS {
        Err(refusal("range"@, wording::insert_rows_overflow_msg(at, count)))
    } else {
        Ok(
            OutcomeV {
                rows: (t.rows + count) as u64,
                schema: None,
                invalidation: stale_from(at),
                inverse: Some(
                    inverse_of(revision, delete_rows_program(at, count, t.rows as u64)),
                ),
                bytes: Seq::empty(),
                table: with_rows(t, at as int, count as nat),
            },
        )
    }
}

/// Serves `insert_rows`.
pub fn apply_insert_rows(
    ds: &Dataset,
    num: &Numerals,
    at: u64,
    count: u64,
    revision: u64,
) -> (r: Result<(EditOutput, Dataset), EditFailure>)
    requires
        ds.wf(),
    ensures
        gives(r, insert_rows_outcome(ds.table(), at, count, revision)),
{
    let n = ds.rows();
    proof {
        lemma_table_wf(*ds);
    }
    if count == 0 || at > n {
        return Err(EditFailure::refused("range", wording::insert_rows_range(at, count, n)));
    }
    if count > MAX_ROWS || n > MAX_ROWS - count {
        return Err(EditFailure::refused("range", wording::insert_rows_overflow(at, count)));
    }
    let plan = pass_through_plan(ds);
    let segs = insert_rows_segments(n, at, count);
    let ghost t = ds.table();
    proof {
        lemma_insert_rows(t, num@, at, count);
    }
    assert(table_overrun(segs@, t.rows) is None && table_rows(segs@) == n + count);
    let d = match stream_rewrite(ds, &plan, num, &segs, n + count) {
        Ok(d) => d,
        Err(e) => {
            return Err(e);
        },
    };
    let out = EditOutput {
        rows: n + count,
        schema: None,
        invalidation: Invalidation { all: None, rows_from: Some(at), rows_to: None },
        inverse_meta: Some(make_inverse(revision, make_delete_rows(at, count, n))),
        inverse_bytes: Vec::new(),
    };
    proof {
        let o = insert_rows_outcome(t, at, count, revision)->Ok_0;
        assert(outcome_of(out, d).bytes =~= o.bytes);
    }
    Ok((out, d))
}

/// A program that puts `count` rows back at `at`, with cells in every column.
pub open spec fn restore_rows_program(t: TableV, at: u64, count: u64) -> JsonV {
    JsonV::Object(
        Map::<Seq<char>, JsonV>::empty().insert("v"@, JsonV::Number(1)).insert(
            "op"@,
            JsonV::Str("restore_rows"@),
        ).insert("at"@, JsonV::Number(at)).insert("count"@, JsonV::Number(count)).insert(
            "old_rows"@,
            JsonV::Number(t.rows as u64),
        ).insert(
            "columns"@,
            JsonV::Array(column_entries(t, run(0, t.fields.len() as u64))),
        ),
    )
}

/// What `delete_rows` captures: the deleted rows of every column.
pub open spec fn delete_rows_capture(t: TableV, at: u64, count: u64) -> Seq<ColumnV> {
    capture_of(t, run(0, t.fields.len() as u64), at as int, at + count)
}

/// The outcome of `delete_rows`, given what writing the capture gave: the deleted rows must
/// lie in the table and be some. The schema ships, since counts drop.
pub open spec fn delete_rows_outcome(
    t: TableV,
    num: NumeralsV,
    at: u64,
    count: u64,
    revision: u64,
    w: Result<Seq<u8>, Seq<char>>,
) -> Result<OutcomeV, FailureV> {
    if at + count > t.rows {
        Err(refusal("range"@, wording::delete_rows_range_msg(at, count, t.rows as u64)))
    } else if count == 0 {
        Err(refusal("range"@, wording::delete_rows_none_msg(at)))
    } else {
        match sealed(w) {
            Err(f) => Err(f),
            Ok(bytes) => {
                let after = without_rows(t, at as int, count as nat);
                Ok(
                    OutcomeV {
                        rows: after.rows as u64,
                        schema: Some(schema_json(pass_plan(t), after.cols, num)),
                        invalidation: stale_from(at),
                        inverse: Some(inverse_of(revision, restore_rows_program(t, at, count))),
                        bytes,
                        table: after,
                    },
                )
            },
        }
    }
}

/// Every field of a supported dataset has a level.
pub proof fn lemma_supported_plan(t: TableV)
    requires
        t.supported(),
    ensures
        forall|c: int| 0 <= c < pass_plan(t).len() ==> (#[trigger] pass_plan(t)[c]).field.level() is Some,
{
    assert forall|c: int| 0 <= c < pass_plan(t).len() implies (
    #[trigger] pass_plan(t)[c]).field.level() is Some by {
        assert(t.fields[c].level() is Some);
    }
}

/// Serves `delete_rows`.
pub fn apply_delete_rows(
    ds: &Dataset,
    num: &Numerals,
    at: u64,
    count: u64,
    revision: u64,
) -> (r: Result<(EditOutput, Dataset), EditFailure>)
    requires
        ds.wf(),
        ds.table().supported(),
    ensures
        ({
            let c = delete_rows_capture(ds.table(), at, count);
            let w = column_file(c);
            gives(r, delete_rows_outcome(ds.table(), num@, at, count, revision, w)) && (r is Ok
                ==> written(w, c))
        }),
{
    let n = ds.rows();
    let ghost t = ds.table();
    let ghost none = column_file(delete_rows_capture(t, at, count));
    proof {
        lemma_table_wf(*ds);
    }
    if count > n || at > n - count {
        let r = Err(EditFailure::refused("range", wording::delete_rows_range(at, count, n)));
        assert(gives(r, delete_rows_outcome(t, num@, at, count, revision, none)));
        return r;
    }
    if count == 0 {
        let r = Err(EditFailure::refused("range", wording::delete_rows_none(at)));
        assert(gives(r, delete_rows_outcome(t, num@, at, count, revision, none)));
        return r;
    }
    let js = make_run(0, ds.fields.len() as u64);
    let cols = capture_cols(ds, &js, at, at + count);
    let write = write_columns(&cols);
    let ghost w = write_view(write);
    let bytes = match seal(write) {
        Ok(b) => b,
        Err(e) => {
            let r = Err(e);
            assert(gives(r, delete_rows_outcome(t, num@, at, count, revision, w)));
            return r;
        },
    };
    let mut o = no_members();
    put(&mut o, "v", json_number(1));
    put(&mut o, "op", json_text("restore_rows"));
    put(&mut o, "at", json_number(at));
    put(&mut o, "count", json_number(count));
    put(&mut o, "old_rows", json_number(n));
    put(&mut o, "columns", json_array(make_column_entries(ds, &js)));
    let ops = json_object(o);
    let plan = pass_through_plan(ds);
    let segs = delete_rows_segments(n, at, count);
    proof {
        lemma_delete_rows(t, num@, at, count);
        lemma_supported_plan(t);
    }
    assert(table_overrun(segs@, t.rows) is None && table_rows(segs@) == n - count);
    let d = match stream_rewrite(ds, &plan, num, &segs, n - count) {
        Ok(d) => d,
        Err(e) => {
            return Err(e);
        },
    };
    assert forall|c: int| 0 <= c < plan@.len() implies (#[trigger] plan@[c])@.field.level() is Some by {
        assert(plan_views(plan@)[c] == plan@[c]@);
    }
    assert(d.table().fields.len() == plan@.len());
    let schema = wire_schema(&plan, &d, num);
    let out = EditOutput {
        rows: n - count,
        schema: Some(schema),
        invalidation: Invalidation { all: None, rows_from: Some(at), rows_to: None },
        inverse_meta: Some(make_inverse(revision, ops)),
        inverse_bytes: bytes,
    };
    let r = Ok((out, d));
    assert(gives(r, delete_rows_outcome(t, num@, at, count, revision, w)));
    r
}

/// The unsigned integer that a program must have under `key`.
pub open spec fn program_u64(ops: JsonV, key: Seq<char>) -> Result<u64, FailureV> {
    match number_at(ops, key) {
        Some(n) => Ok(n),
        None => Err(FailureV::Fatal(wording::program_number_msg(key))),
    }
}

/// Reads an unsigned integer that a program must have.
pub fn u64_of(ops: &Json, key: &str) -> (r: Result<u64, EditFailure>)
    ensures
        match (r, program_u64(ops@, key@)) {
            (Ok(a), Ok(b)) => a == b,
            (Err(e), Err(f)) => e@ == f,
            _ => false,
        },
{
    match number_of(ops, key) {
        Some(n) => Ok(n),
        None => Err(EditFailure::fatal(wording::program_number(key))),
    }
}

/// The number of rows of decoded columns.
pub open spec fn inverse_rows(cols: Seq<ColumnV>) -> nat {
    if cols.len() == 0 {
        0
    } else {
        cols[0].cells.len()
    }
}

impl InverseData {
    /// The number of rows.
    pub fn rows(&self) -> (r: u64)
        ensures
            r == inverse_rows(column_views(self.columns@)),
    {
        if self.columns.len() == 0 {
            0
        } else {
            self.columns[0].cells.len() as u64
        }
    }
}

/// A column whose window is filled from a decoded one. The old cells underneath count where
/// they are of the decoded column's type.
pub open spec fn restored_colv(field: FieldV, old: Option<(int, FieldV)>, c: ColumnV) -> OutColV {
    OutColV {
        field,
        old: match old {
            Some(p) => Some(p.0),
            None => None,
        },
        window: Some(c.cells),
        under: match old {
            Some(p) => if p.1.is_scale() == c.field.is_scale() {
                UnderV::Same
            } else {
                UnderV::Nothing
            },
            None => UnderV::Nothing,
        },
        levels: c.levels,
    }
}

/// Decoded columns of a supported type have levels only as dictionaries.
pub open spec fn levels_tidy(cols: Seq<ColumnV>) -> bool {
    forall|i: int|
        0 <= i < cols.len() && !((#[trigger] cols[i]).field.kind is Dictionary) ==> cols[i].levels
            =~= Seq::empty()
}

/// Makes a column whose window is filled from a decoded one.
pub fn restored_col(field: Field, old: Option<usize>, same_type: bool, c: &Column) -> (r: OutCol)
    requires
        !(field@.kind is Dictionary) ==> c@.levels =~= Seq::empty(),
    ensures
        r@ == (OutColV {
            field: field@,
            old: match old {
                Some(j) => Some(j as int),
                None => None,
            },
            window: Some(c@.cells),
            under: if same_type {
                UnderV::Same
            } else {
                UnderV::Nothing
            },
            levels: c@.levels,
        }),
        forall|n: nat| (old is Some ==> old->0 < n) ==> #[trigger] r.wf(n),
{
    let levels = crate::text::clone_texts(&c.levels);
    let mut cells: Vec<Cell> = Vec::new();
    let mut k: usize = 0;
    while k < c.cells.len()
        invariant
            k <= c.cells.len(),
            cells@ =~= c.cells@.take(k as int),
        decreases c.cells.len() - k,
    {
        cells.push(c.cells[k]);
        k = k + 1;
    }
    assert(cells@ =~= c@.cells);
    assert(texts(levels@) =~= c@.levels);
    assert(c@.levels.len() == levels@.len());
    OutCol {
        field,
        old,
        window: Some(cells),
        under: if same_type {
            Under::Same
        } else {
            Under::Nothing
        },
        levels,
    }
}

/// The plan that puts rows back: every column takes the decoded cells in the window.
pub open spec fn restore_rows_plan(t: TableV, inv: Seq<ColumnV>) -> Seq<OutColV> {
    Seq::new(
        t.fields.len(),
        |j: int| restored_colv(t.fields[j], Some((j, t.fields[j])), inv[j]),
    )
}

/// Every decoded column has the type of the column in its place.
pub open spec fn types_match(t: TableV, inv: Seq<ColumnV>) -> bool {
    forall|j: int| 0 <= j < t.fields.len() ==> (#[trigger] t.fields[j]).is_scale()
        == inv[j].field.is_scale()
}

/// The outcome of `restore_rows`, given what the blob carries. The program must fit the
/// table, and the blob the program.
pub open spec fn restore_rows_outcome(
    t: TableV,
    num: NumeralsV,
    ops: JsonV,
    blob: Result<Option<Seq<ColumnV>>, Seq<char>>,
    revision: u64,
) -> Result<OutcomeV, FailureV> {
    match (program_u64(ops, "at"@), program_u64(ops, "count"@), program_u64(ops, "old_rows"@)) {
        (Err(f), _, _) => Err(f),
        (_, Err(f), _) => Err(f),
        (_, _, Err(f)) => Err(f),
        (Ok(at), Ok(count), Ok(old_rows)) => if count == 0 || at > t.rows || t.rows + count
            != old_rows || old_rows > MAX_ROWS {
            Err(
                FailureV::Fatal(
                    wording::restore_rows_extent_msg(at, count, t.rows as u64, old_rows),
                ),
            )
        } else {
            match decoded(blob) {
                Err(f) => Err(f),
                Ok(inv) => if inv.len() != t.fields.len() || inverse_rows(inv) != count {
                    Err(
                        FailureV::Fatal(
                            "restore_rows: the blob does not match the program (a full-width capture was expected)"@,
                        ),
                    )
                } else if !types_match(t, inv) {
                    Err(
                        FailureV::Fatal(
                            "output batch assembly failed: a column is not of its field's type"@,
                        ),
                    )
                } else {
                    let plan = restore_rows_plan(t, inv);
                    match rewritten(
                        t,
                        plan,
                        num,
                        restore_rows_table(t.rows as u64, at, count),
                        old_rows as nat,
                    ) {
                        Err(f) => Err(f),
                        Ok(after) => Ok(
                            OutcomeV {
                                rows: old_rows,
                                schema: Some(schema_json(plan, after.cols, num)),
                                invalidation: all_stale(),
                                inverse: Some(
                                    inverse_of(
                                        revision,
                                        delete_rows_program(at, count, t.rows as u64),
                                    ),
                                ),
                                bytes: Seq::empty(),
                                table: after,
                            },
                        ),
                    }
                },
            }
        },
    }
}

/// Serves `restore_rows`.
#[verifier::rlimit(50)]
pub fn restore_rows_exec(
    ds: &Dataset,
    num: &Numerals,
    ops: &Json,
    bytes: &[u8],
    revision: u64,
) -> (r: Result<(EditOutput, Dataset), EditFailure>)
    requires
        ds.wf(),
        ds.table().supported(),
    ensures
        gives(
            r,
            restore_rows_outcome(ds.table(), num@, ops@, blob_columns(bytes@), revision),
        ),
{
    let ghost t = ds.table();
    proof {
        lemma_table_wf(*ds);
    }
    let at = match u64_of(ops, "at") {
        Ok(x) => x,
        Err(e) => {
            return Err(e);
        },
    };
    let count = match u64_of(ops, "count") {
        Ok(x) => x,
        Err(e) => {
            return Err(e);
        },
    };
    let old_rows = match u64_of(ops, "old_rows") {
        Ok(x) => x,
        Err(e) => {
            return Err(e);
        },
    };
    let n = ds.rows();
    if count == 0 || at > n || old_rows < n || old_rows - n != count || old_rows > MAX_ROWS {
        return Err(
            EditFailure::fatal(wording::restore_rows_extent(at, count, n, old_rows)),
        );
    }
    let inv = match decode_inverse(bytes) {
        Ok(d) => d,
        Err(e) => {
            return Err(e);
        },
    };
    let ghost cols = column_views(inv.columns@);
    if inv.columns.len() != ds.fields.len() || inv.rows() != count {
        return Err(
            EditFailure::fault(
                "restore_rows: the blob does not match the program (a full-width capture was expected)",
            ),
        );
    }
    proof {
        crate::capture::lemma_decoded(blob_columns(bytes@));
    }
    let mut plan: Vec<OutCol> = Vec::new();
    let mut j: usize = 0;
    while j < ds.fields.len()
        invariant
            j <= ds.fields.len(),
            ds.wf(),
            t == ds.table(),
            cols == column_views(inv.columns@),
            cols.len() == t.fields.len(),
            levels_tidy(cols),
            forall|k: int| 0 <= k < j ==> (#[trigger] t.fields[k]).is_scale()
                == cols[k].field.is_scale(),
            plan@.len() == j,
            plan_wf(plan@, ds.fields@.len()),
            plan_views(plan@) =~= restore_rows_plan(t, cols).take(j as int),
            decoded(blob_columns(bytes@)) == Ok::<Seq<ColumnV>, FailureV>(cols),
            program_u64(ops@, "at"@) == Ok::<u64, FailureV>(at),
            program_u64(ops@, "count"@) == Ok::<u64, FailureV>(count),
            program_u64(ops@, "old_rows"@) == Ok::<u64, FailureV>(old_rows),
            count > 0,
            at <= t.rows,
            t.rows + count == old_rows,
            old_rows <= MAX_ROWS,
            inverse_rows(cols) == count,
            t.supported(),
            forall|i: int| 0 <= i < cols.len() ==> (#[trigger] cols[i]).field.level() is Some,
        decreases ds.fields.len() - j,
    {
        assert(cols[j as int] == inv.columns@[j as int]@);
        assert(t.fields[j as int] == ds.fields@[j as int]@);
        if ds.fields[j].is_scale() != inv.columns[j].field.is_scale() {
            assert(!types_match(t, cols));
            return Err(
                EditFailure::fault(
                    "output batch assembly failed: a column is not of its field's type",
                ),
            );
        }
        assert(t.fields[j as int].level() is Some);
        assert(cols[j as int].field.level() is Some);
        let c = restored_col(ds.fields[j].copy(), Some(j), true, &inv.columns[j]);
        assert(c@ == restore_rows_plan(t, cols)[j as int]);
        assert(c.wf(ds.fields@.len()));
        plan.push(c);
        j = j + 1;
    }
    assert(plan_views(plan@) =~= restore_rows_plan(t, cols));
    let segs = restore_rows_segments(n, at, count);
    proof {
        let a = Seg::Copy { out: 0, old: 0, len: at };
        let b = Seg::Restore { len: count };
        let c = Seg::Copy { out: (at + count) as u64, old: at, len: (n - at) as u64 };
        let dummy = OutColV {
            field: arbitrary(),
            old: None,
            window: None,
            under: UnderV::Same,
            levels: Seq::empty(),
        };
        lemma_three(dummy, num@, t.cols, t.rows, a, b, c);
    }
    let d = match stream_rewrite(ds, &plan, num, &segs, old_rows) {
        Ok(d) => d,
        Err(e) => {
            return Err(e);
        },
    };
    assert forall|c: int| 0 <= c < plan@.len() implies (#[trigger] plan@[c])@.field.level() is Some by {
        assert(plan_views(plan@)[c] == plan@[c]@);
        assert(t.fields[c].level() is Some);
    }
    assert(d.table().fields.len() == plan@.len());
    let schema = wire_schema(&plan, &d, num);
    let out = EditOutput {
        rows: old_rows,
        schema: Some(schema),
        invalidation: Invalidation { all: Some(true), rows_from: None, rows_to: None },
        inverse_meta: Some(make_inverse(revision, make_delete_rows(at, count, n))),
        inverse_bytes: Vec::new(),
    };
    assert(out.inverse_bytes@ =~= Seq::empty());
    Ok((out, d))
}

} // verus!
