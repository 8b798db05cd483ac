//! The job and its outcomes.
use vstd::prelude::*;
use crate::capture::{column_views, Column, ColumnV};
use crate::engine::{plan_views, plan_wf, OutCol, OutColV, Under, UnderV};
use crate::json::{json_number, json_object, json_text, no_members, put, Json, JsonV};
use crate::messages::{
    EditFailure, EditOp, FailureV, IngestParams, Invalidation, InverseMeta, InverseMetaV,
};
use crate::table::{lemma_table_wf, level_text, Dataset, Field, FieldV, TableV};
use crate::text::{clone_texts, texts};

verus! {

/// One edit as dispatched: the cache to read, the cache to write, the settings the dataset
/// was read with, the revision the edit is computed against, and the frame's binary tail.
#[derive(Debug)]
pub struct EditJob {
    pub source: String,
    pub cache_path: String,
    pub ingest: IngestParams,
    pub revision: u64,
    pub edit: EditOp,
    /// The cells of a paste, the blob of an inverse, or nothing.
    pub tail: Vec<u8>,
}

/// The answer to an edit that landed.
#[derive(Debug)]
pub struct EditOutput {
    pub rows: u64,
    /// What frontends are told of the columns, where it changed.
    pub schema: Option<Json>,
    pub invalidation: Invalidation,
    pub inverse_meta: Option<InverseMeta>,
    /// The columns that the inverse restores, as an Arrow IPC file.
    pub inverse_bytes: Vec<u8>,
}

/// The outcome of an edit that landed: the answer and the new table.
#[verifier::ext_equal]
pub struct OutcomeV {
    pub rows: u64,
    pub schema: Option<JsonV>,
    pub invalidation: Invalidation,
    pub inverse: Option<InverseMetaV>,
    pub bytes: Seq<u8>,
    pub table: TableV,
}

/// The outcome that an answer and a dataset make.
pub open spec fn outcome_of(out: EditOutput, d: Dataset) -> OutcomeV {
    OutcomeV {
        rows: out.rows,
        schema: match out.schema {
            Some(j) => Some(j@),
            None => None,
        },
        invalidation: out.invalidation,
        inverse: match out.inverse_meta {
            Some(m) => Some(m@),
            None => None,
        },
        bytes: out.inverse_bytes@,
        table: d.table(),
    }
}

/// A result is the given outcome.
pub open spec fn gives(
    r: Result<(EditOutput, Dataset), EditFailure>,
    s: Result<OutcomeV, FailureV>,
) -> bool {
    match (r, s) {
        (Ok(p), Ok(o)) => p.1.wf() && outcome_of(p.0, p.1) == o,
        (Err(e), Err(f)) => e@ == f,
        _ => false,
    }
}

/// The format of every inverse.
pub open spec fn inverse_of(revision: u64, ops: JsonV) -> InverseMetaV {
    InverseMetaV { format: "arrow_ipc_v1"@, base_revision: revision, ops }
}

/// An inverse of the one format there is.
pub fn make_inverse(revision: u64, ops: Json) -> (r: InverseMeta)
    ensures
        r@ == inverse_of(revision, ops@),
{
    InverseMeta { format: "arrow_ipc_v1".to_string(), base_revision: revision, ops }
}

/// A program that deletes `count` rows from `at` on.
pub open spec fn delete_rows_program(at: u64, count: u64, rows: u64) -> JsonV {
    JsonV::Object(
        Map::<Seq<char>, JsonV>::empty().insert("v"@, JsonV::Number(1)).insert(
            "op"@,
            JsonV::Str("delete_rows"@),
        ).insert("at"@, JsonV::Number(at)).insert("count"@, JsonV::Number(count)).insert(
            "old_rows"@,
            JsonV::Number(rows),
        ),
    )
}

pub fn make_delete_rows(at: u64, count: u64, rows: u64) -> (r: Json)
    ensures
        r@ == delete_rows_program(at, count, rows),
{
    let mut o = no_members();
    put(&mut o, "v", json_number(1));
    put(&mut o, "op", json_text("delete_rows"));
    put(&mut o, "at", json_number(at));
    put(&mut o, "count", json_number(count));
    put(&mut o, "old_rows", json_number(rows));
    json_object(o)
}

/// A program that deletes `count` columns from `at` on.
pub open spec fn delete_cols_program(at: u64, count: u64, cols: u64) -> JsonV {
    JsonV::Object(
        Map::<Seq<char>, JsonV>::empty().insert("v"@, JsonV::Number(1)).insert(
            "op"@,
            JsonV::Str("delete_cols"@),
        ).insert("at"@, JsonV::Number(at)).insert("count"@, JsonV::Number(count)).insert(
            "old_cols"@,
            JsonV::Number(cols),
        ),
    )
}

pub fn make_delete_cols(at: u64, count: u64, cols: u64) -> (r: Json)
    ensures
        r@ == delete_cols_program(at, count, cols),
{
    let mut o = no_members();
    put(&mut o, "v", json_number(1));
    put(&mut o, "op", json_text("delete_cols"));
    put(&mut o, "at", json_number(at));
    put(&mut o, "count", json_number(count));
    put(&mut o, "old_cols", json_number(cols));
    json_object(o)
}

/// A column as a program names it: its position, name and level.
pub open spec fn column_entry(j: u64, field: FieldV) -> JsonV {
    JsonV::Object(
        Map::<Seq<char>, JsonV>::empty().insert("old_index"@, JsonV::Number(j)).insert(
            "name"@,
            JsonV::Str(field.name),
        ).insert(
            "type"@,
            match field.level() {
                Some(l) => JsonV::Str(level_text(l)),
                None => JsonV::Null,
            },
        ),
    )
}

pub fn make_column_entry(j: u64, field: &Field) -> (r: Json)
    ensures
        r@ == column_entry(j, field@),
{
    let mut o = no_members();
    put(&mut o, "old_index", json_number(j));
    put(&mut o, "name", Json::Str(field.name.clone()));
    put(
        &mut o,
        "type",
        match field.level() {
            Some(l) => json_text(l.as_str()),
            None => Json::Null,
        },
    );
    json_object(o)
}

/// Columns as a program names them.
pub open spec fn column_entries(t: TableV, js: Seq<u64>) -> Seq<JsonV> {
    Seq::new(js.len(), |i: int| column_entry(js[i], t.fields[js[i] as int]))
}

/// Lists columns for a program.
pub fn make_column_entries(ds: &Dataset, js: &Vec<u64>) -> (r: Vec<Json>)
    requires
        forall|i: int| 0 <= i < js@.len() ==> #[trigger] js@[i] < ds.fields@.len(),
    ensures
        crate::json::items(r@) == column_entries(ds.table(), js@),
{
    let mut out: Vec<Json> = Vec::new();
    let mut i: usize = 0;
    let ghost goal = column_entries(ds.table(), js@);
    while i < js.len()
        invariant
            i <= js.len(),
            out@.len() == i,
            goal == column_entries(ds.table(), js@),
            forall|i: int| 0 <= i < js@.len() ==> #[trigger] js@[i] < ds.fields@.len(),
            crate::json::items(out@) =~= goal.take(i as int),
        decreases js.len() - i,
    {
        let j = js[i];
        assert(js@[i as int] < ds.fields@.len());
        assert(ds.fields@.len() == ds.fields.len());
        let e = make_column_entry(j, &ds.fields[j as usize]);
        assert(ds.table().fields[j as int] == ds.fields@[j as int]@);
        assert(e@ == goal[i as int]);
        out.push(e);
        i = i + 1;
    }
    assert(crate::json::items(out@) =~= goal);
    out
}

/// The numbers from `from` up to `to`.
pub open spec fn run(from: u64, to: u64) -> Seq<u64> {
    Seq::new((to - from) as nat, |i: int| (from + i) as u64)
}

/// Lists the numbers from `from` up to `to`.
pub fn make_run(from: u64, to: u64) -> (r: Vec<u64>)
    requires
        from <= to,
    ensures
        r@ == run(from, to),
{
    let mut r: Vec<u64> = Vec::new();
    let mut k: u64 = from;
    while k < to
        invariant
            from <= k <= to,
            r@ =~= run(from, k),
        decreases to - k,
    {
        r.push(k);
        k = k + 1;
    }
    r
}

/// An untouched column.
pub open spec fn pass_colv(t: TableV, j: int) -> OutColV {
    OutColV {
        field: t.fields[j],
        old: Some(j),
        window: None,
        under: UnderV::Same,
        levels: t.dicts[j],
    }
}

/// The plan that touches no column.
pub open spec fn pass_plan(t: TableV) -> Seq<OutColV> {
    Seq::new(t.fields.len(), |j: int| pass_colv(t, j))
}

/// An untouched column.
pub fn pass_col(ds: &Dataset, j: usize) -> (r: OutCol)
    requires
        ds.wf(),
        j < ds.fields@.len(),
    ensures
        r@ == pass_colv(ds.table(), j as int),
        r.wf(ds.fields@.len()),
{
    let levels = clone_texts(&ds.dicts[j]);
    assert(texts(levels@) =~= ds.table().dicts[j as int]);
    OutCol {
        field: ds.fields[j].copy(),
        old: Some(j),
        window: None,
        under: Under::Same,
        levels,
    }
}

/// The plan that touches no column.
pub fn pass_through_plan(ds: &Dataset) -> (r: Vec<OutCol>)
    requires
        ds.wf(),
    ensures
        plan_views(r@) == pass_plan(ds.table()),
        plan_wf(r@, ds.fields@.len()),
{
    let mut out: Vec<OutCol> = Vec::new();
    let mut j: usize = 0;
    while j < ds.fields.len()
        invariant
            j <= ds.fields.len(),
            ds.wf(),
            out@.len() == j,
            plan_wf(out@, ds.fields@.len()),
            plan_views(out@) =~= pass_plan(ds.table()).take(j as int),
        decreases ds.fields.len() - j,
    {
        out.push(pass_col(ds, j));
        j = j + 1;
    }
    assert(plan_views(out@) =~= pass_plan(ds.table()));
    out
}

/// Rows `from` up to `to` of column `j`, with the column's identity and dictionary.
pub open spec fn capture_colv(t: TableV, j: int, from: int, to: int) -> ColumnV {
    ColumnV { field: t.fields[j], levels: t.dicts[j], cells: t.cols[j].subrange(from, to) }
}

/// Captures rows of a column.
pub fn capture_col(ds: &Dataset, j: usize, from: u64, to: u64) -> (r: Column)
    requires
        ds.wf(),
        j < ds.fields@.len(),
        from <= to <= ds.table().rows,
    ensures
        r@ == capture_colv(ds.table(), j as int, from as int, to as int),
{
    let levels = clone_texts(&ds.dicts[j]);
    assert(texts(levels@) =~= ds.table().dicts[j as int]);
    Column { field: ds.fields[j].copy(), levels, cells: ds.read_range(j, from, to) }
}

/// Rows `from` up to `to` of some columns.
pub open spec fn capture_of(t: TableV, js: Seq<u64>, from: int, to: int) -> Seq<ColumnV> {
    Seq::new(js.len(), |i: int| capture_colv(t, js[i] as int, from, to))
}

/// Captures rows of some columns.
pub fn capture_cols(ds: &Dataset, js: &Vec<u64>, from: u64, to: u64) -> (r: Vec<Column>)
    requires
        ds.wf(),
        forall|i: int| 0 <= i < js@.len() ==> #[trigger] js@[i] < ds.fields@.len(),
        from <= to <= ds.table().rows,
    ensures
        column_views(r@) == capture_of(ds.table(), js@, from as int, to as int),
        forall|i: int| 0 <= i < r@.len() ==> (#[trigger] r@[i])@.cells.len() == to - from,
        forall|i: int|
            0 <= i < r@.len() ==> (#[trigger] r@[i])@.field.is_scale() ==> r@[i]@.levels
                =~= Seq::empty(),
{
    let mut out: Vec<Column> = Vec::new();
    let mut i: usize = 0;
    let ghost goal = capture_of(ds.table(), js@, from as int, to as int);
    proof {
        lemma_table_wf(*ds);
    }
    while i < js.len()
        invariant
            i <= js.len(),
            ds.wf(),
            ds.table().wf(),
            out@.len() == i,
            goal == capture_of(ds.table(), js@, from as int, to as int),
            forall|i: int| 0 <= i < js@.len() ==> #[trigger] js@[i] < ds.fields@.len(),
            from <= to <= ds.table().rows,
            column_views(out@) =~= goal.take(i as int),
            forall|k: int| 0 <= k < i ==> (#[trigger] out@[k])@.cells.len() == to - from,
            forall|k: int|
                0 <= k < i ==> (#[trigger] out@[k])@.field.is_scale() ==> out@[k]@.levels
                    =~= Seq::empty(),
        decreases js.len() - i,
    {
        let j = js[i];
        assert(js@[i as int] < ds.fields@.len());
        assert(ds.fields@.len() == ds.fields.len());
        assert(ds.table().cols[j as int].len() == ds.table().rows);
        let c = capture_col(ds, j as usize, from, to);
        assert(c@ == goal[i as int]);
        assert(ds.table().fields[j as int].is_scale() ==> ds.table().dicts[j as int]
            =~= Seq::empty());
        out.push(c);
        i = i + 1;
    }
    assert(column_views(out@) =~= goal);
    out
}

} // verus!
