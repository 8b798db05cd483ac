//! Serving one edit.
use vstd::prelude::*;
use crate::block::{lemma_not_ragged, parse_block, parsed};
use crate::capture::{
    blob_columns, capture_file, column_file, kind_text, written, wrote, ColumnV,
};
use crate::edit_block::{
    apply_insert_block, paste_capture, paste_of, paste_outcome, window_sound, window_view,
};
use crate::edit_cols::{
    apply_delete_cols, apply_insert_cols, delete_cols_capture, delete_cols_outcome,
    insert_cols_outcome, restore_cols_exec, restore_cols_outcome, spec_views,
};
use crate::edit_rows::{
    apply_delete_rows, apply_insert_rows, delete_rows_capture, delete_rows_outcome,
    insert_rows_outcome, program_u64, restore_rows_exec, restore_rows_outcome, u64_of,
};
use crate::json::{text_at, text_of, JsonV};
use crate::messages::{
    all_stale, refusal, EditFailure, EditOp, FailureV, IngestParams, Invalidation, InverseMeta,
    InverseMetaV,
};
use crate::number::{Numerals, NumeralsV};
use crate::outcome::{gives, EditJob, EditOutput, OutcomeV};
use crate::restore_block::{
    block_restore, redo_capture, restore_block_exec, restore_block_outcome,
};
use crate::restore_schema::{
    restore_schema_exec, restore_schema_outcome, schema_redo_capture, schema_restore,
};
use crate::schema_change::{apply_schema_change, asked_changes, schema_capture, schema_outcome};
use crate::table::{
    field_views, total_rows, Batch, Cell, Dataset, Field, FieldV, Kind, TableV, MAX_ROWS,
};
use crate::text::same;
use crate::window::{parse_window_schema, window_entries, window_schema};
use crate::wording;

verus! {

/// What is known of a cache before its rows are read.
pub struct CacheSchema {
    pub schema: Vec<Field>,
    pub rows_total: u64,
    pub block_rows: Vec<u64>,
}

/// The sizes of the batches.
pub open spec fn batch_sizes(b: Seq<Batch>) -> Seq<u64> {
    Seq::new(b.len(), |i: int| b[i].rows as u64)
}

/// Reads what is known of a dataset without reading its rows.
pub fn read_cache_schema(ds: &Dataset) -> (r: CacheSchema)
    requires
        ds.wf(),
    ensures
        field_views(r.schema@) == ds.table().fields,
        r.rows_total == ds.table().rows,
        r.block_rows@ == batch_sizes(ds.batches@),
{
    let mut schema: Vec<Field> = Vec::new();
    let mut j: usize = 0;
    while j < ds.fields.len()
        invariant
            j <= ds.fields.len(),
            schema@.len() == j,
            field_views(schema@) =~= ds.table().fields.take(j as int),
        decreases ds.fields.len() - j,
    {
        schema.push(ds.fields[j].copy());
        j = j + 1;
    }
    assert(field_views(schema@) =~= ds.table().fields);
    let mut block_rows: Vec<u64> = Vec::new();
    let mut k: usize = 0;
    while k < ds.batches.len()
        invariant
            k <= ds.batches.len(),
            block_rows@ =~= batch_sizes(ds.batches@).take(k as int),
        decreases ds.batches.len() - k,
    {
        block_rows.push(ds.batches[k].rows as u64);
        k = k + 1;
    }
    assert(block_rows@ =~= batch_sizes(ds.batches@));
    CacheSchema { schema, rows_total: ds.rows(), block_rows }
}

/// Whether the cells of a column lie in its dictionary.
fn cells_fit(field: &Field, levels: &Vec<String>, cells: &Vec<Cell>) -> (r: bool)
    ensures
        r == (forall|i: int|
            0 <= i < cells@.len() ==> crate::table::cell_fits(
                field@,
                crate::text::texts(levels@),
                #[trigger] cells@[i],
            )),
{
    let ghost lv = crate::text::texts(levels@);
    let n = levels.len();
    assert(lv.len() == n);
    match &field.kind {
        Kind::Dictionary { .. } => {},
        _ => {
            return true;
        },
    }
    let mut i: usize = 0;
    while i < cells.len()
        invariant
            i <= cells.len(),
            n == lv.len(),
            lv == crate::text::texts(levels@),
            field@.kind is Dictionary,
            forall|k: int| 0 <= k < i ==> crate::table::cell_fits(field@, lv, #[trigger] cells@[k]),
        decreases cells.len() - i,
    {
        if let Some(k) = cells[i] {
            if k >= n as u64 {
                assert(!crate::table::cell_fits(field@, lv, cells@[i as int]));
                return false;
            }
        }
        i = i + 1;
    }
    true
}

/// Whether a batch has the shape of a dataset.
fn batch_fits(b: &Batch, fields: &Vec<Field>, dicts: &Vec<Vec<String>>) -> (r: bool)
    requires
        dicts@.len() == fields@.len(),
    ensures
        r == b.wf(field_views(fields@), crate::table::dict_views(dicts@)),
{
    let ghost fv = field_views(fields@);
    let ghost dv = crate::table::dict_views(dicts@);
    if b.rows == 0 || b.cols.len() != fields.len() {
        return false;
    }
    let mut j: usize = 0;
    while j < fields.len()
        invariant
            j <= fields.len(),
            dicts@.len() == fields@.len(),
            b.rows > 0,
            b.cols@.len() == fields@.len(),
            fv == field_views(fields@),
            dv == crate::table::dict_views(dicts@),
            forall|k: int| 0 <= k < j ==> (#[trigger] b.cols@[k])@.len() == b.rows,
            forall|k: int, i: int|
                0 <= k < j && 0 <= i < b.rows ==> crate::table::cell_fits(
                    fv[k],
                    dv[k],
                    #[trigger] b.cols@[k]@[i],
                ),
        decreases fields.len() - j,
    {
        if b.cols[j].len() != b.rows {
            assert(b.cols@[j as int]@.len() != b.rows);
            return false;
        }
        if !cells_fit(&fields[j], &dicts[j], &b.cols[j]) {
            let ghost bad = choose|i: int|
                0 <= i < b.rows && !crate::table::cell_fits(
                    fv[j as int],
                    dv[j as int],
                    #[trigger] b.cols@[j as int]@[i],
                );
            assert(!crate::table::cell_fits(
                fv[j as int],
                dv[j as int],
                b.cols@[j as int]@[bad],
            ));
            return false;
        }
        j = j + 1;
    }
    true
}

impl Dataset {
    /// Puts a dataset together from what a cache holds; parts that do not fit are refused.
    pub fn new(fields: Vec<Field>, dicts: Vec<Vec<String>>, batches: Vec<Batch>) -> (r: Result<
        Dataset,
        EditFailure,
    >)
        ensures
            ({
                let d = (Dataset { fields, dicts, batches });
                match r {
                    Ok(x) => x == d && d.wf(),
                    Err(e) => !d.wf() && e@ == FailureV::Fatal("corrupt pre-edit cache"@),
                }
            }),
    {
        let ghost fv = field_views(fields@);
        let ghost dv = crate::table::dict_views(dicts@);
        let ghost d = (Dataset { fields, dicts, batches });
        if dicts.len() != fields.len() {
            return Err(EditFailure::fault("corrupt pre-edit cache"));
        }
        let mut j: usize = 0;
        while j < fields.len()
            invariant
                j <= fields.len(),
                dicts@.len() == fields@.len(),
                d == (Dataset { fields, dicts, batches }),
                forall|k: int|
                    0 <= k < j && !(fields@[k]@.kind is Dictionary) ==> (
                    #[trigger] dicts@[k])@.len() == 0,
            decreases fields.len() - j,
        {
            let keyed = match &fields[j].kind {
                Kind::Dictionary { .. } => true,
                _ => false,
            };
            if dicts[j].len() > 0 && !keyed {
                assert(d.dicts@[j as int]@.len() > 0);
                return Err(EditFailure::fault("corrupt pre-edit cache"));
            }
            j = j + 1;
        }
        let mut rows: u64 = 0;
        let mut k: usize = 0;
        assert(batches@.take(0) =~= Seq::empty());
        while k < batches.len()
            invariant
                k <= batches.len(),
                dicts@.len() == fields@.len(),
                fv == field_views(fields@),
                dv == crate::table::dict_views(dicts@),
                d == (Dataset { fields, dicts, batches }),
                rows == total_rows(batches@.take(k as int)),
                rows <= MAX_ROWS,
                forall|i: int| 0 <= i < k ==> (#[trigger] batches@[i]).wf(fv, dv),
            decreases batches.len() - k,
        {
            if !batch_fits(&batches[k], &fields, &dicts) {
                assert(!d.batches@[k as int].wf(fv, dv));
                return Err(EditFailure::fault("corrupt pre-edit cache"));
            }
            proof {
                crate::table::lemma_start_step(batches@, k as int);
                crate::table::lemma_start_grows(batches@, k + 1, batches@.len() as int);
            }
            let more = batches[k].rows as u64;
            if more > MAX_ROWS - rows {
                return Err(EditFailure::fault("corrupt pre-edit cache"));
            }
            rows = rows + more;
            k = k + 1;
        }
        assert(batches@.take(batches@.len() as int) =~= batches@);
        Ok(Dataset { fields, dicts, batches })
    }
}

/// What an inverse captures for its own inverse, where it comes so far.
pub open spec fn inverse_capture(
    t: TableV,
    meta: InverseMetaV,
    size: nat,
    blob: Result<Option<Seq<ColumnV>>, Seq<char>>,
) -> Option<Seq<ColumnV>> {
    let op = text_at(meta.ops, "op"@);
    if op == Some("delete_rows"@) {
        match (program_u64(meta.ops, "at"@), program_u64(meta.ops, "count"@)) {
            (Ok(at), Ok(count)) => Some(delete_rows_capture(t, at, count)),
            _ => None,
        }
    } else if op == Some("delete_cols"@) {
        match (program_u64(meta.ops, "at"@), program_u64(meta.ops, "count"@)) {
            (Ok(at), Ok(count)) => Some(delete_cols_capture(t, at, count)),
            _ => None,
        }
    } else if op == Some("restore_block"@) {
        match block_restore(t, meta.ops, blob) {
            Ok((p, inv)) => Some(redo_capture(t, p, inv)),
            Err(_) => None,
        }
    } else if op == Some("restore_schema"@) {
        match schema_restore(t, meta.ops, size, blob) {
            Ok(s) => Some(schema_redo_capture(t, s)),
            Err(_) => None,
        }
    } else {
        None
    }
}

/// An outcome that makes everything stale.
pub open spec fn wholly_stale(r: Result<OutcomeV, FailureV>) -> Result<OutcomeV, FailureV> {
    match r {
        Ok(o) => Ok(OutcomeV { invalidation: all_stale(), ..o }),
        Err(f) => Err(f),
    }
}

/// The outcome of applying an inverse, given what its blob carries and what writing the
/// capture gave. An inverse of a later revision is stale; one that is applied makes everything
/// stale.
pub open spec fn inverse_outcome(
    t: TableV,
    num: NumeralsV,
    meta: InverseMetaV,
    size: nat,
    blob: Result<Option<Seq<ColumnV>>, Seq<char>>,
    revision: u64,
    w: Result<Seq<u8>, Seq<char>>,
) -> Result<OutcomeV, FailureV> {
    let ops = meta.ops;
    if meta.format != "arrow_ipc_v1"@ {
        Err(FailureV::Fatal(wording::unknown_format_msg(meta.format)))
    } else if meta.base_revision > revision {
        Err(
            refusal(
                "stale_edit"@,
                wording::stale_inverse_msg(meta.base_revision, revision),
            ),
        )
    } else {
        match text_at(ops, "op"@) {
            None => Err(FailureV::Fatal("inverse program: no 'op'"@)),
            Some(op) => if op == "delete_rows"@ {
                match (program_u64(ops, "at"@), program_u64(ops, "count"@)) {
                    (Err(f), _) => Err(f),
                    (_, Err(f)) => Err(f),
                    (Ok(at), Ok(count)) => wholly_stale(
                        delete_rows_outcome(t, num, at, count, revision, w),
                    ),
                }
            } else if op == "delete_cols"@ {
                match (program_u64(ops, "at"@), program_u64(ops, "count"@)) {
                    (Err(f), _) => Err(f),
                    (_, Err(f)) => Err(f),
                    (Ok(at), Ok(count)) => delete_cols_outcome(t, num, at, count, revision, w),
                }
            } else if op == "restore_rows"@ {
                restore_rows_outcome(t, num, ops, blob, revision)
            } else if op == "restore_cols"@ {
                restore_cols_outcome(t, num, ops, blob, revision)
            } else if op == "restore_block"@ {
                restore_block_outcome(t, num, ops, blob, revision, w)
            } else if op == "restore_schema"@ {
                restore_schema_outcome(t, num, ops, size, blob, revision, w)
            } else {
                Err(FailureV::Fatal(wording::unknown_program_msg(op)))
            },
        }
    }
}

/// The names of the programs are pairwise distinct.
pub proof fn lemma_programs_differ()
    ensures
        "delete_rows"@ != "delete_cols"@,
        "delete_rows"@ != "restore_rows"@,
        "delete_rows"@ != "restore_cols"@,
        "delete_rows"@ != "restore_block"@,
        "delete_rows"@ != "restore_schema"@,
        "delete_cols"@ != "restore_rows"@,
        "delete_cols"@ != "restore_cols"@,
        "delete_cols"@ != "restore_block"@,
        "delete_cols"@ != "restore_schema"@,
        "restore_rows"@ != "restore_cols"@,
        "restore_rows"@ != "restore_block"@,
        "restore_rows"@ != "restore_schema"@,
        "restore_cols"@ != "restore_block"@,
        "restore_cols"@ != "restore_schema"@,
        "restore_block"@ != "restore_schema"@,
{
    reveal_strlit("delete_rows");
    reveal_strlit("delete_cols");
    reveal_strlit("restore_rows");
    reveal_strlit("restore_cols");
    reveal_strlit("restore_block");
    reveal_strlit("restore_schema");
    assert("delete_rows"@.len() == 11 && "delete_cols"@.len() == 11);
    assert("restore_rows"@.len() == 12 && "restore_cols"@.len() == 12);
    assert("restore_block"@.len() == 13 && "restore_schema"@.len() == 14);
    assert("delete_rows"@[7] == 'r' && "delete_cols"@[7] == 'c');
    assert("restore_rows"@[8] == 'r' && "restore_cols"@[8] == 'c');
}

/// Applies an inverse: undoes an edit, or redoes one that was undone.
#[verifier::rlimit(50)]
pub fn apply_inverse(
    ds: &Dataset,
    num: &Numerals,
    meta: &InverseMeta,
    bytes: &[u8],
    revision: u64,
) -> (r: Result<(EditOutput, Dataset), EditFailure>)
    requires
        ds.wf(),
        ds.table().supported(),
    ensures
        ({
            let t = ds.table();
            let blob = blob_columns(bytes@);
            let c = inverse_capture(t, meta@, bytes@.len(), blob);
            let w = capture_file(c);
            gives(
                r,
                inverse_outcome(t, num@, meta@, bytes@.len(), blob, revision, w),
            ) && (r is Ok ==> wrote(w, c))
        }),
{
    let ghost t = ds.table();
    let ghost blob = blob_columns(bytes@);
    let ghost size = bytes@.len();
    let ghost none = capture_file(inverse_capture(t, meta@, size, blob));
    let ghost first = inverse_outcome(t, num@, meta@, size, blob, revision, none);
    proof {
        lemma_programs_differ();
    }
    if !same(&meta.format, "arrow_ipc_v1") {
        return Err(EditFailure::fatal(wording::unknown_format(meta.format.as_str())));
    }
    if meta.base_revision > revision {
        return Err(
            EditFailure::refused(
                "stale_edit",
                wording::stale_inverse(meta.base_revision, revision),
            ),
        );
    }
    let op = match text_of(&meta.ops, "op") {
        Some(t) => t,
        None => {
            return Err(EditFailure::fault("inverse program: no 'op'"));
        },
    };
    if same(op, "delete_rows") || same(op, "delete_cols") {
        let at = match u64_of(&meta.ops, "at") {
            Ok(x) => x,
            Err(e) => {
                return Err(e);
            },
        };
        let count = match u64_of(&meta.ops, "count") {
            Ok(x) => x,
            Err(e) => {
                return Err(e);
            },
        };
        if same(op, "delete_rows") {
            let done = apply_delete_rows(ds, num, at, count, revision);
            let r = match done {
                Ok((mut out, d)) => {
                    out.invalidation = Invalidation { all: Some(true), rows_from: None, rows_to: None };
                    Ok((out, d))
                },
                Err(e) => Err(e),
            };
            assert(gives(r, first));
            return r;
        }
        let r = apply_delete_cols(ds, num, at, count, revision);
        assert(gives(r, first));
        return r;
    }
    if same(op, "restore_rows") {
        let r = restore_rows_exec(ds, num, &meta.ops, bytes, revision);
        assert(gives(r, first));
        return r;
    }
    if same(op, "restore_cols") {
        let r = restore_cols_exec(ds, num, &meta.ops, bytes, revision);
        assert(gives(r, first));
        return r;
    }
    if same(op, "restore_block") {
        let r = restore_block_exec(ds, num, &meta.ops, bytes, revision);
        assert(gives(r, first));
        return r;
    }
    if same(op, "restore_schema") {
        let r = restore_schema_exec(ds, num, &meta.ops, bytes, revision);
        assert(gives(r, first));
        return r;
    }
    Err(EditFailure::fatal(wording::unknown_program(op.as_str())))
}

/// The first column of a type that no edit supports.
pub open spec fn first_foreign(fields: Seq<FieldV>) -> Option<nat>
    decreases fields.len(),
{
    if fields.len() == 0 {
        None
    } else {
        match first_foreign(fields.drop_last()) {
            Some(i) => Some(i),
            None => if fields.last().level() is None {
                Some((fields.len() - 1) as nat)
            } else {
                None
            },
        }
    }
}

proof fn lemma_foreign_prefix(fields: Seq<FieldV>, k: int)
    requires
        0 <= k <= fields.len(),
        first_foreign(fields.take(k)) is Some,
    ensures
        first_foreign(fields) == first_foreign(fields.take(k)),
    decreases fields.len() - k,
{
    if k < fields.len() {
        assert(fields.take(k + 1).drop_last() =~= fields.take(k));
        lemma_foreign_prefix(fields, k + 1);
    } else {
        assert(fields.take(k) =~= fields);
    }
}

/// A table without such a column is one that edits support.
pub proof fn lemma_supported(fields: Seq<FieldV>)
    ensures
        first_foreign(fields) is None <==> (forall|j: int|
            0 <= j < fields.len() ==> (#[trigger] fields[j]).level() is Some),
    decreases fields.len(),
{
    if fields.len() > 0 {
        lemma_supported(fields.drop_last());
        assert forall|j: int| 0 <= j < fields.len() && first_foreign(fields) is None implies (
        #[trigger] fields[j]).level() is Some by {
            if j < fields.len() - 1 {
                assert(fields.drop_last()[j] == fields[j]);
            }
        }
        if forall|j: int| 0 <= j < fields.len() ==> (#[trigger] fields[j]).level() is Some {
            assert forall|j: int| 0 <= j < fields.drop_last().len() implies (
            #[trigger] fields.drop_last()[j]).level() is Some by {
                assert(fields.drop_last()[j] == fields[j]);
            }
            assert(fields[fields.len() - 1].level() is Some);
        }
    }
}

/// Finds the first column of a type that no edit supports.
fn find_foreign(ds: &Dataset) -> (r: Option<usize>)
    ensures
        match (r, first_foreign(ds.table().fields)) {
            (Some(a), Some(b)) => a == b && a < ds.fields@.len() && ds.fields@[a as int].kind is Other,
            (None, None) => true,
            _ => false,
        },
{
    let mut j: usize = 0;
    let ghost all = ds.table().fields;
    assert(all.take(0) =~= Seq::empty());
    while j < ds.fields.len()
        invariant
            j <= ds.fields.len(),
            all == ds.table().fields,
            first_foreign(all.take(j as int)) is None,
        decreases ds.fields.len() - j,
    {
        assert(all.take(j + 1).drop_last() =~= all.take(j as int));
        assert(all.take(j + 1).last() == ds.fields@[j as int]@);
        if ds.fields[j].level().is_none() {
            proof {
                lemma_foreign_prefix(all, j + 1);
            }
            return Some(j);
        }
        j = j + 1;
    }
    assert(all.take(all.len() as int) =~= all);
    None
}

/// A paste as an edit asks for it.
pub open spec fn paste_asked(
    t: TableV,
    num: NumeralsV,
    ingest: IngestParams,
    row: u64,
    col: u64,
    target: Option<JsonV>,
    tail: Seq<u8>,
) -> Result<crate::edit_block::PasteV, FailureV> {
    match parsed(tail) {
        Err(f) => Err(f),
        Ok(cells) => match target {
            None => Ok(paste_of(t, num, ingest, row, col, cells, None)),
            Some(v) => match window_schema(v, t.fields, col, cells[0].len() as u64) {
                Err(f) => Err(f),
                Ok(win) => Ok(paste_of(t, num, ingest, row, col, cells, Some(win))),
            },
        },
    }
}

pub open spec fn opt_json(j: Option<crate::json::Json>) -> Option<JsonV> {
    match j {
        Some(x) => Some(x@),
        None => None,
    }
}

/// What an edit captures, where it comes so far.
pub open spec fn edit_capture(t: TableV, num: NumeralsV, job: EditJob) -> Option<Seq<ColumnV>> {
    match job.edit {
        EditOp::InsertBlock { row, col, target_schema } => match paste_asked(
            t,
            num,
            job.ingest,
            row,
            col,
            opt_json(target_schema),
            job.tail@,
        ) {
            Ok(p) => Some(paste_capture(p)),
            Err(_) => None,
        },
        EditOp::DeleteRows { at, count } => Some(delete_rows_capture(t, at, count)),
        EditOp::DeleteCols { at, count } => Some(delete_cols_capture(t, at, count)),
        EditOp::SchemaChange { target_schema } => match asked_changes(t, target_schema@) {
            Ok(cs) => Some(schema_capture(t, cs)),
            Err(_) => None,
        },
        EditOp::ApplyInverse { inverse } => inverse_capture(
            t,
            inverse@,
            job.tail@.len(),
            blob_columns(job.tail@),
        ),
        _ => None,
    }
}

/// The outcome of an edit, given what writing the capture gave. A refused or failed edit has
/// no table: the dataset stays as it was.
pub open spec fn edit_outcome(
    t: TableV,
    num: NumeralsV,
    job: EditJob,
    w: Result<Seq<u8>, Seq<char>>,
) -> Result<OutcomeV, FailureV> {
    match first_foreign(t.fields) {
        Some(j) => Err(
            FailureV::Fatal(
                wording::unsupported_msg(
                    t.fields[j as int].name,
                    kind_text(t.fields[j as int].kind),
                ),
            ),
        ),
        None => match job.edit {
            EditOp::InsertBlock { row, col, target_schema } => match paste_asked(
                t,
                num,
                job.ingest,
                row,
                col,
                opt_json(target_schema),
                job.tail@,
            ) {
                Err(f) => Err(f),
                Ok(p) => paste_outcome(p, job.revision, w),
            },
            EditOp::InsertRows { at, count } => insert_rows_outcome(t, at, count, job.revision),
            EditOp::DeleteRows { at, count } => delete_rows_outcome(
                t,
                num,
                at,
                count,
                job.revision,
                w,
            ),
            EditOp::InsertCols { at, columns } => insert_cols_outcome(
                t,
                num,
                at,
                spec_views(columns@),
                job.revision,
            ),
            EditOp::DeleteCols { at, count } => delete_cols_outcome(
                t,
                num,
                at,
                count,
                job.revision,
                w,
            ),
            EditOp::SchemaChange { target_schema } => schema_outcome(
                t,
                num,
                job.ingest.sort_limit as nat,
                target_schema@,
                job.revision,
                w,
            ),
            EditOp::ApplyInverse { inverse } => inverse_outcome(
                t,
                num,
                inverse@,
                job.tail@.len(),
                blob_columns(job.tail@),
                job.revision,
                w,
            ),
        },
    }
}

/// A window that was accepted declares levels for categorical columns only.
pub proof fn lemma_window_sound(a: Seq<JsonV>, col: u64, fields: Seq<FieldV>, i: int)
    requires
        window_entries(a, col, fields) is Ok,
        a.len() <= u64::MAX,
        0 <= i < window_entries(a, col, fields)->Ok_0.len(),
        col + i < fields.len(),
        window_entries(a, col, fields)->Ok_0[i] is Some,
        window_entries(a, col, fields)->Ok_0[i]->0.levels is Some,
    ensures
        !fields[col + i].is_scale(),
    decreases a.len(),
{
    crate::window::lemma_entries_len(a, col, fields);
    crate::window::lemma_entries_len(a.drop_last(), col, fields);
    let p = window_entries(a, col, fields)->Ok_0;
    let q = window_entries(a.drop_last(), col, fields)->Ok_0;
    if i < q.len() {
        assert(p[i] == q[i]);
        lemma_window_sound(a.drop_last(), col, fields, i);
    }
}

/// A result is the outcome of a paste.
pub open spec fn pasted(
    r: Result<(EditOutput, Dataset), EditFailure>,
    p: crate::edit_block::PasteV,
    revision: u64,
) -> bool {
    let w = column_file(paste_capture(p));
    gives(r, paste_outcome(p, revision, w)) && (r is Ok ==> written(w, paste_capture(p)))
}

/// Serves a paste.
#[verifier::rlimit(50)]
fn serve_paste(
    ds: &Dataset,
    num: &Numerals,
    job: &EditJob,
    row: u64,
    col: u64,
    target: &Option<crate::json::Json>,
) -> (r: Result<(EditOutput, Dataset), EditFailure>)
    requires
        ds.wf(),
        ds.table().supported(),
    ensures
        ({
            let asked = paste_asked(
                ds.table(),
                num@,
                job.ingest,
                row,
                col,
                opt_json(*target),
                job.tail@,
            );
            match asked {
                Err(f) => r is Err && r->Err_0@ == f,
                Ok(p) => pasted(r, p, job.revision),
            }
        }),
{
    let ghost t = ds.table();
    let block = match parse_block(job.tail.as_slice()) {
        Ok(b) => b,
        Err(e) => {
            return Err(e);
        },
    };
    let ghost cells = block@;
    proof {
        assert(crate::block::first_ragged(cells) is None);
        lemma_not_ragged(cells);
        assert forall|r: int| 0 <= r < block.cells@.len() implies (
        #[trigger] block.cells@[r])@.len() == block.cells@[0]@.len() by {
            assert(cells[r].len() == cells[0].len());
            assert(cells[r] == crate::block::row_view(block.cells@[r]@));
            assert(cells[0] == crate::block::row_view(block.cells@[0]@));
        }
        assert(cells[0].len() == block.cells@[0]@.len());
    }
    let width = block.cells[0].len() as u64;
    match target {
        None => {
            let ghost p = paste_of(t, num@, job.ingest, row, col, cells, None);
            assert(window_sound(p));
            assert(paste_asked(t, num@, job.ingest, row, col, None, job.tail@) == Ok::<
                crate::edit_block::PasteV,
                FailureV,
            >(p));
            assert(window_view(None) == None::<Seq<Option<crate::window::EntryV>>>);
            let r = apply_insert_block(
                ds,
                num,
                &job.ingest,
                row,
                col,
                &block,
                None,
                job.revision,
            );
            proof {
                assert(pasted(r, p, job.revision));
            }
            r
        },
        Some(v) => {
            let win = match parse_window_schema(v, &ds.fields, col, width) {
                Ok(w) => w,
                Err(e) => {
                    return Err(e);
                },
            };
            let ghost p = paste_of(
                t,
                num@,
                job.ingest,
                row,
                col,
                cells,
                Some(crate::window::entry_views(win@)),
            );
            proof {
                assert(paste_asked(t, num@, job.ingest, row, col, Some(v@), job.tail@) == Ok::<
                    crate::edit_block::PasteV,
                    FailureV,
                >(p));
                let a = v@->Array_0;
                assert forall|c: int| #[trigger] p.remaps(c) implies !p.t.fields[p.col
                    + c].is_scale() by {
                    lemma_window_sound(a, col, t.fields, c);
                }
            }
            let r = apply_insert_block(
                ds,
                num,
                &job.ingest,
                row,
                col,
                &block,
                Some(&win),
                job.revision,
            );
            proof {
                assert(window_view(Some(&win)) == p.window);
                assert(pasted(r, p, job.revision));
            }
            r
        },
    }
}

/// Serves one edit: the new dataset and what to answer, or why there is none. The dataset
/// handed in is only read, so a refused edit leaves it as it was.
#[verifier::rlimit(50)]
pub fn serve(job: &EditJob, ds: &Dataset, num: &Numerals) -> (r: Result<
    (EditOutput, Dataset),
    EditFailure,
>)
    requires
        ds.wf(),
    ensures
        ({
            let c = edit_capture(ds.table(), num@, *job);
            let w = capture_file(c);
            gives(r, edit_outcome(ds.table(), num@, *job, w)) && (r is Ok ==> wrote(w, c))
        }),
{
    let ghost t = ds.table();
    let ghost none = capture_file(edit_capture(t, num@, *job));
    let ghost first = edit_outcome(t, num@, *job, none);
    proof {
        lemma_supported(t.fields);
    }
    if let Some(j) = find_foreign(ds) {
        let f = &ds.fields[j];
        assert(t.fields[j as int] == f@);
        let ty = match &f.kind {
            Kind::Other(t) => t.clone(),
            _ => String::new(),
        };
        let r = Err(EditFailure::fatal(wording::unsupported(f.name.as_str(), ty.as_str())));
        assert(gives(r, first));
        return r;
    }
    match &job.edit {
        EditOp::InsertBlock { row, col, target_schema } => {
            let r = serve_paste(ds, num, job, *row, *col, target_schema);
            proof {
                match paste_asked(
                    t,
                    num@,
                    job.ingest,
                    *row,
                    *col,
                    opt_json(*target_schema),
                    job.tail@,
                ) {
                    Err(f) => {
                        assert(gives(r, first));
                    },
                    Ok(p) => {
                        assert(gives(r, first));
                    },
                }
            }
            r
        },
        EditOp::InsertRows { at, count } => {
            let r = apply_insert_rows(ds, num, *at, *count, job.revision);
            assert(gives(r, first));
            r
        },
        EditOp::DeleteRows { at, count } => {
            let r = apply_delete_rows(ds, num, *at, *count, job.revision);
            assert(gives(r, first));
            r
        },
        EditOp::InsertCols { at, columns } => {
            let r = apply_insert_cols(ds, num, *at, columns, job.revision);
            assert(gives(r, first));
            r
        },
        EditOp::DeleteCols { at, count } => {
            let r = apply_delete_cols(ds, num, *at, *count, job.revision);
            assert(gives(r, first));
            r
        },
        EditOp::SchemaChange { target_schema } => {
            let r = apply_schema_change(ds, num, &job.ingest, target_schema, job.revision);
            proof {
                let limit = job.ingest.sort_limit as nat;
                assert(gives(r, first));
            }
            r
        },
        EditOp::ApplyInverse { inverse } => {
            let r = apply_inverse(ds, num, inverse, job.tail.as_slice(), job.revision);
            proof {
                let blob = blob_columns(job.tail@);
                assert(gives(r, first));
            }
            r
        },
    }
}

} // verus!
