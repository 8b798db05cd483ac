//! Undo and redo of whatever edit was asked for.
use vstd::prelude::*;
use crate::block::{rows_of, split};
use crate::capture::{blob_columns, sealed, sealed_redo, wrote};
use crate::edit_block::{window_sound, PasteV};
use crate::edit_cols::spec_views;
use crate::edit_rows::lemma_insert_rows;
use crate::json::JsonV;
use crate::messages::{EditOp, IngestParams};
use crate::number::NumeralsV;
use crate::outcome::{EditJob, OutcomeV};
use crate::schema_change::asked_changes;
use crate::serve::{
    edit_capture, edit_outcome, inverse_capture, lemma_programs_differ, lemma_window_sound, opt_json, paste_asked,
};
use crate::table::{FieldV, TableV};
use crate::text::{distinct, lemma_first_repeat};
use crate::undo::{
    law_redo_delete_cols, law_redo_delete_rows, law_redo_insert_cols, law_redo_insert_rows,
    law_undo_delete_cols, law_undo_delete_rows, law_undo_insert_cols, law_undo_insert_rows,
    gives_back, lemma_keys, read_alike, regular, reversed,
};
use crate::undo_block::{
    law_redo_insert_block, law_undo_insert_block, lemma_paste_inverse_op, pastable, replaces_plain,
};
use crate::undo_schema::{
    countable, labels_recorded, law_redo_schema_change, law_undo_schema_change,
    lemma_schema_inverse_op, orderly,
};
use crate::window::{lemma_entries_len, window_entries};

verus! {

proof fn lemma_split_nonempty(s: Seq<u8>, sep: u8)
    ensures
        split(s, sep).len() > 0,
    decreases s.len(),
{
    if s.len() > 0 {
        lemma_split_nonempty(s.drop_last(), sep);
    }
}

proof fn lemma_levels_distinct(a: Seq<JsonV>, col: u64, fields: Seq<FieldV>, i: int)
    requires
        window_entries(a, col, fields) is Ok,
        0 <= i < a.len(),
        window_entries(a, col, fields)->Ok_0[i] is Some,
        window_entries(a, col, fields)->Ok_0[i]->0.levels is Some,
    ensures
        distinct(window_entries(a, col, fields)->Ok_0[i]->0.levels->0),
    decreases a.len(),
{
    lemma_entries_len(a, col, fields);
    lemma_entries_len(a.drop_last(), col, fields);
    let p = window_entries(a, col, fields)->Ok_0;
    let q = window_entries(a.drop_last(), col, fields)->Ok_0;
    if i < a.len() - 1 {
        assert(p[i] == q[i]);
        lemma_levels_distinct(a.drop_last(), col, fields, i);
    } else {
        lemma_first_repeat(p[i]->0.levels->0);
    }
}

/// A paste that was asked for in order covers something, declares levels of categorical columns
/// only, and declares no level twice.
pub proof fn law_asked_pastes_are_in_order(
    t: TableV,
    num: NumeralsV,
    ingest: IngestParams,
    row: u64,
    col: u64,
    target: Option<JsonV>,
    tail: Seq<u8>,
)
    requires
        regular(t),
        paste_asked(t, num, ingest, row, col, target, tail) is Ok,
    ensures
        ({
            let p = paste_asked(t, num, ingest, row, col, target, tail)->Ok_0;
            pastable(p) && p.t == t && p.num == num && forall|c: int|
                0 <= c < p.width() && (#[trigger] p.entry(c)) is Some && p.entry(c)->0.levels is Some
                    ==> distinct(p.entry(c)->0.levels->0)
        }),
{
    let p = paste_asked(t, num, ingest, row, col, target, tail)->Ok_0;
    let body = tail.drop_last();
    lemma_split_nonempty(body, 10);
    lemma_split_nonempty(split(body, 10)[0], 9);
    assert(p.cells == rows_of(body));
    assert(p.cells.len() > 0);
    assert(p.cells[0].len() > 0);
    if target is Some {
        let a = target->0->Array_0;
        lemma_entries_len(a, col, t.fields);
        assert forall|c: int| #[trigger] p.remaps(c) implies !p.t.fields[p.col + c].is_scale()
            && distinct(p.entry(c)->0.levels->0) by {
            lemma_window_sound(a, col, t.fields, c);
            lemma_levels_distinct(a, col, t.fields, c);
        }
        assert forall|c: int|
            0 <= c < p.width() && (#[trigger] p.entry(c)) is Some && p.entry(c)->0.levels
                is Some implies distinct(p.entry(c)->0.levels->0) by {
            lemma_levels_distinct(a, col, t.fields, c);
        }
    }
    assert(window_sound(p));
}

/// An edit that can be undone: any but a paste that lands on no column of the table, which has no
/// inverse, and a change of the schema that drops the labels of a scale without a word.
pub open spec fn undoable(t: TableV, num: NumeralsV, job: EditJob, o: OutcomeV) -> bool {
    match job.edit {
        EditOp::InsertBlock { row, col, target_schema } => paste_asked(
            t,
            num,
            job.ingest,
            row,
            col,
            opt_json(target_schema),
            job.tail@,
        )->Ok_0.touched().len() > 0,
        EditOp::SchemaChange { target_schema } => orderly(t) && countable(o.table)
            && labels_recorded(t, asked_changes(t, target_schema@)->Ok_0),
        EditOp::ApplyInverse { .. } => false,
        _ => true,
    }
}

/// Undoing an edit gives back the table it was made on, whichever edit it was and whatever numerals
/// the undo is given; all that can go wrong is the capture of what the undo takes away. The table
/// is the very same, but that after a change of the schema a key may stand at another place of a
/// level that its dictionary lists twice.
pub proof fn law_undo_gives_the_table_back(
    t: TableV,
    num: NumeralsV,
    num2: NumeralsV,
    job: EditJob,
    w: Result<Seq<u8>, Seq<char>>,
    later: u64,
    w2: Result<Seq<u8>, Seq<char>>,
)
    requires
        regular(t),
        wrote(w, edit_capture(t, num, job)),
        edit_outcome(t, num, job, w) is Ok,
        undoable(t, num, job, edit_outcome(t, num, job, w)->Ok_0),
        job.revision <= later,
    ensures
        match reversed(edit_outcome(t, num, job, w)->Ok_0, num2, later, w2) {
            Ok(u) => gives_back(u.table, t) && (!(job.edit is SchemaChange) ==> u.table == t),
            Err(f) => sealed(w2) == Err::<Seq<u8>, _>(f) || sealed_redo(w2) == Err::<Seq<u8>, _>(f),
        },
{
    match job.edit {
        EditOp::InsertBlock { row, col, target_schema } => {
            let target = opt_json(target_schema);
            let p: PasteV = paste_asked(t, num, job.ingest, row, col, target, job.tail@)->Ok_0;
            law_asked_pastes_are_in_order(t, num, job.ingest, row, col, target, job.tail@);
            law_undo_insert_block(p, num2, job.revision, later, w, w2);
        },
        EditOp::InsertRows { at, count } => {
            law_undo_insert_rows(t, num2, at, count, job.revision, later, w2);
        },
        EditOp::DeleteRows { at, count } => {
            law_undo_delete_rows(t, num, num2, at, count, job.revision, later, w, w2);
        },
        EditOp::InsertCols { at, columns } => {
            law_undo_insert_cols(t, num, num2, at, spec_views(columns@), job.revision, later, w2);
        },
        EditOp::DeleteCols { at, count } => {
            law_undo_delete_cols(t, num, num2, at, count, job.revision, later, w, w2);
        },
        EditOp::SchemaChange { target_schema } => {
            law_undo_schema_change(
                t,
                num,
                num2,
                job.ingest.sort_limit as nat,
                target_schema@,
                job.revision,
                later,
                w,
                w2,
            );
        },
        EditOp::ApplyInverse { .. } => {},
    }
}

/// An edit that was made and undone. A paste that replaces a dictionary does so where no level
/// repeats.
pub open spec fn redoable(
    t: TableV,
    num: NumeralsV,
    num2: NumeralsV,
    job: EditJob,
    w: Result<Seq<u8>, Seq<char>>,
    later: u64,
    w2: Result<Seq<u8>, Seq<char>>,
) -> bool {
    let o = edit_outcome(t, num, job, w)->Ok_0;
    &&& regular(t)
    &&& job.edit matches EditOp::InsertBlock { row, col, target_schema } ==> replaces_plain(
        paste_asked(
            t,
            num,
            job.ingest,
            row,
            col,
            opt_json(target_schema),
            job.tail@,
        )->Ok_0,
    )
    &&& wrote(w, edit_capture(t, num, job))
    &&& edit_outcome(t, num, job, w) is Ok
    &&& undoable(t, num, job, o)
    &&& job.revision <= later
    &&& reversed(o, num2, later, w2) is Ok
    &&& wrote(w2, inverse_capture(o.table, o.inverse->0, o.bytes.len(), blob_columns(o.bytes)))
}

/// Undoing what was done and redoing it gives the table that was made, to the key or as it reads;
/// all that can go wrong is the capture of what the redo takes away.
pub open spec fn redone(
    o: OutcomeV,
    exact: bool,
    num2: NumeralsV,
    num3: NumeralsV,
    later: u64,
    w2: Result<Seq<u8>, Seq<char>>,
    last: u64,
    w3: Result<Seq<u8>, Seq<char>>,
) -> bool {
    let u = reversed(o, num2, later, w2);
    u is Ok && match reversed(u->Ok_0, num3, last, w3) {
        Ok(r) => read_alike(r.table, o.table) && (exact ==> r.table == o.table),
        Err(f) => sealed(w3) == Err::<Seq<u8>, _>(f) || sealed_redo(w3) == Err::<Seq<u8>, _>(f),
    }
}

/// Whether a redo gives the very keys: a change of the schema does where no level repeats.
pub open spec fn exact(t: TableV, job: EditJob) -> bool {
    !(job.edit is SchemaChange) || t.levels_distinct()
}

proof fn lemma_redo_insert_block(
    t: TableV,
    num: NumeralsV,
    num2: NumeralsV,
    num3: NumeralsV,
    job: EditJob,
    w: Result<Seq<u8>, Seq<char>>,
    later: u64,
    w2: Result<Seq<u8>, Seq<char>>,
    last: u64,
    w3: Result<Seq<u8>, Seq<char>>,
)
    requires
        redoable(t, num, num2, job, w, later, w2),
        later <= last,
        job.edit is InsertBlock,
    ensures
        redone(edit_outcome(t, num, job, w)->Ok_0, exact(t, job), num2, num3, later, w2, last, w3),
{
    if let EditOp::InsertBlock { row, col, target_schema } = job.edit {
        let target = opt_json(target_schema);
        let p: PasteV = paste_asked(t, num, job.ingest, row, col, target, job.tail@)->Ok_0;
        law_asked_pastes_are_in_order(t, num, job.ingest, row, col, target, job.tail@);
        lemma_paste_inverse_op(p, job.revision, w);
        lemma_programs_differ();
        law_undo_insert_block(p, num2, job.revision, later, w, w2);
        law_redo_insert_block(p, num2, num3, job.revision, later, last, w, w2, w3);
    }
}

proof fn lemma_redo_insert_rows(
    t: TableV,
    num: NumeralsV,
    num2: NumeralsV,
    num3: NumeralsV,
    job: EditJob,
    w: Result<Seq<u8>, Seq<char>>,
    later: u64,
    w2: Result<Seq<u8>, Seq<char>>,
    last: u64,
    w3: Result<Seq<u8>, Seq<char>>,
)
    requires
        redoable(t, num, num2, job, w, later, w2),
        later <= last,
        job.edit is InsertRows,
    ensures
        redone(edit_outcome(t, num, job, w)->Ok_0, exact(t, job), num2, num3, later, w2, last, w3),
{
    lemma_keys();
    lemma_programs_differ();
    if let EditOp::InsertRows { at, count } = job.edit {
        lemma_insert_rows(t, num, at, count);
        law_undo_insert_rows(t, num2, at, count, job.revision, later, w2);
        law_redo_insert_rows(t, num2, num3, at, count, job.revision, later, last, w2, w3);
    }
}

proof fn lemma_redo_insert_cols(
    t: TableV,
    num: NumeralsV,
    num2: NumeralsV,
    num3: NumeralsV,
    job: EditJob,
    w: Result<Seq<u8>, Seq<char>>,
    later: u64,
    w2: Result<Seq<u8>, Seq<char>>,
    last: u64,
    w3: Result<Seq<u8>, Seq<char>>,
)
    requires
        redoable(t, num, num2, job, w, later, w2),
        later <= last,
        job.edit is InsertCols,
    ensures
        redone(edit_outcome(t, num, job, w)->Ok_0, exact(t, job), num2, num3, later, w2, last, w3),
{
    lemma_keys();
    lemma_programs_differ();
    if let EditOp::InsertCols { at, columns } = job.edit {
        let specs = spec_views(columns@);
        assert forall|i: int|
            0 <= i < specs.len() && (#[trigger] specs[i]).levels is Some implies specs[i].levels->0.len()
            <= u64::MAX by {
            assert(columns@[i].levels->0.len() <= u64::MAX);
        }
        law_undo_insert_cols(t, num, num2, at, specs, job.revision, later, w2);
        law_redo_insert_cols(t, num, num2, num3, at, specs, job.revision, later, last, w2, w3);
    }
}

proof fn lemma_redo_schema_change(
    t: TableV,
    num: NumeralsV,
    num2: NumeralsV,
    num3: NumeralsV,
    job: EditJob,
    w: Result<Seq<u8>, Seq<char>>,
    later: u64,
    w2: Result<Seq<u8>, Seq<char>>,
    last: u64,
    w3: Result<Seq<u8>, Seq<char>>,
)
    requires
        redoable(t, num, num2, job, w, later, w2),
        later <= last,
        job.edit is SchemaChange,
    ensures
        redone(edit_outcome(t, num, job, w)->Ok_0, exact(t, job), num2, num3, later, w2, last, w3),
{
    if let EditOp::SchemaChange { target_schema } = job.edit {
        let limit = job.ingest.sort_limit as nat;
        lemma_schema_inverse_op(t, num, limit, target_schema@, job.revision, w);
        lemma_programs_differ();
        law_redo_schema_change(
            t,
            num,
            num2,
            num3,
            limit,
            target_schema@,
            job.revision,
            later,
            last,
            w,
            w2,
            w3,
        );
    }
}

/// Redoing an edit that was undone gives the table that the edit made, whichever edit it was and
/// whatever numerals the undo and the redo are given, where it could be undone; all that can go
/// wrong then is the capture of what the redo takes away.
pub proof fn law_redo_gives_the_edit_back(
    t: TableV,
    num: NumeralsV,
    num2: NumeralsV,
    num3: NumeralsV,
    job: EditJob,
    w: Result<Seq<u8>, Seq<char>>,
    later: u64,
    w2: Result<Seq<u8>, Seq<char>>,
    last: u64,
    w3: Result<Seq<u8>, Seq<char>>,
)
    requires
        redoable(t, num, num2, job, w, later, w2),
        later <= last,
    ensures
        redone(edit_outcome(t, num, job, w)->Ok_0, exact(t, job), num2, num3, later, w2, last, w3),
{
    match job.edit {
        EditOp::InsertBlock { .. } => {
            lemma_redo_insert_block(t, num, num2, num3, job, w, later, w2, last, w3);
        },
        EditOp::InsertRows { .. } => {
            lemma_redo_insert_rows(t, num, num2, num3, job, w, later, w2, last, w3);
        },
        EditOp::DeleteRows { at, count } => {
            law_redo_delete_rows(t, num, num2, num3, at, count, job.revision, later, last, w, w2, w3);
        },
        EditOp::InsertCols { .. } => {
            lemma_redo_insert_cols(t, num, num2, num3, job, w, later, w2, last, w3);
        },
        EditOp::DeleteCols { at, count } => {
            law_redo_delete_cols(t, num, num2, num3, at, count, job.revision, later, last, w, w2, w3);
        },
        EditOp::SchemaChange { .. } => {
            lemma_redo_schema_change(t, num, num2, num3, job, w, later, w2, last, w3);
        },
        EditOp::ApplyInverse { .. } => {},
    }
}

} // verus!
