//! What applying an inverse does to the rows and columns of a table.
use vstd::prelude::*;
use crate::capture::{blob_columns, decoded, first_unsupported, ColumnV};
use crate::edit_cols::restore_cols_outcome;
use crate::edit_rows::{lemma_three, program_u64, restore_rows_outcome, restore_rows_plan};
use crate::engine::walked;
use crate::json::JsonV;
use crate::number::NumeralsV;
use crate::outcome::EditJob;
use crate::restore_block::{
    beyond, block_restore, first_place, restore_block_outcome, restored_block_col, tail_run,
};
use crate::restore_schema::{
    column_names, first_text, first_uncaptured, old_names, restore_schema_outcome,
    restored_schema_col, restored_schema_cols, schema_restore, some_captured, RecordV,
    SchemaRestoreV,
};
use crate::segments::{restore_rows_table, Seg};
use crate::serve::{edit_outcome, inverse_outcome, lemma_programs_differ};
use crate::table::{cell_fits, TableV, MAX_ROWS};
use crate::text::lemma_first_repeat;

verus! {

/// The program of the inverse that an edit applies.
pub open spec fn program(job: EditJob) -> JsonV {
    job.edit->inverse@.ops
}

/// A number that a program names.
pub open spec fn names_number(job: EditJob, key: Seq<char>, n: int) -> bool {
    program(job) is Object && program(job)->Object_0.contains_key(key)
        && program(job)->Object_0[key] is Number && program(job)->Object_0[key]->Number_0 == n
}

/// The operation that a program names.
pub open spec fn names_op(job: EditJob, op: Seq<char>) -> bool {
    program(job) is Object && program(job)->Object_0.contains_key("op"@)
        && program(job)->Object_0["op"@] == JsonV::Str(op)
}

/// An inverse that is applied names one of the known operations.
#[verifier::rlimit(60)]
pub proof fn law_inverses_name_an_operation(
    t: TableV,
    num: NumeralsV,
    job: EditJob,
    w: Result<Seq<u8>, Seq<char>>,
)
    requires
        job.edit is ApplyInverse,
        edit_outcome(t, num, job, w) is Ok,
    ensures
        names_op(job, "delete_rows"@) || names_op(job, "delete_cols"@) || names_op(
            job,
            "restore_rows"@,
        ) || names_op(job, "restore_cols"@) || names_op(job, "restore_block"@) || names_op(
            job,
            "restore_schema"@,
        ),
{
    let meta = job.edit->inverse@;
    let x = inverse_outcome(
        t,
        num,
        meta,
        job.tail@.len(),
        blob_columns(job.tail@),
        job.revision,
        w,
    );
    assert(edit_outcome(t, num, job, w) == x);
    lemma_op(t, num, job, w);
}

#[verifier::rlimit(60)]
proof fn lemma_op(t: TableV, num: NumeralsV, job: EditJob, w: Result<Seq<u8>, Seq<char>>)
    requires
        job.edit is ApplyInverse,
        inverse_outcome(
            t,
            num,
            job.edit->inverse@,
            job.tail@.len(),
            blob_columns(job.tail@),
            job.revision,
            w,
        ) is Ok,
    ensures
        names_op(job, "delete_rows"@) || names_op(job, "delete_cols"@) || names_op(
            job,
            "restore_rows"@,
        ) || names_op(job, "restore_cols"@) || names_op(job, "restore_block"@) || names_op(
            job,
            "restore_schema"@,
        ),
{
}

/// An inverse that deletes rows or columns leaves the table as the edit that deletes them does.
#[verifier::rlimit(60)]
pub proof fn law_inverses_delete_as_edits_do(
    t: TableV,
    num: NumeralsV,
    job: EditJob,
    plain: EditJob,
    w: Result<Seq<u8>, Seq<char>>,
)
    requires
        job.edit is ApplyInverse,
        edit_outcome(t, num, job, w) is Ok,
        (plain.edit is DeleteRows && names_op(job, "delete_rows"@) && names_number(
            job,
            "at"@,
            plain.edit->DeleteRows_at as int,
        ) && names_number(job, "count"@, plain.edit->DeleteRows_count as int)) || (
        plain.edit is DeleteCols && names_op(job, "delete_cols"@) && names_number(
            job,
            "at"@,
            plain.edit->DeleteCols_at as int,
        ) && names_number(job, "count"@, plain.edit->DeleteCols_count as int)),
    ensures
        edit_outcome(t, num, plain, w) is Ok,
        edit_outcome(t, num, plain, w)->Ok_0.table == edit_outcome(t, num, job, w)->Ok_0.table,
        edit_outcome(t, num, plain, w)->Ok_0.schema == edit_outcome(t, num, job, w)->Ok_0.schema,
{
    lemma_programs_differ();
    let meta = job.edit->inverse@;
    let x = inverse_outcome(
        t,
        num,
        meta,
        job.tail@.len(),
        blob_columns(job.tail@),
        job.revision,
        w,
    );
    assert(edit_outcome(t, num, job, w) == x);
}

/// Rows that an inverse puts back stand where they stood: the cells come from the blob, the rows
/// before them stay and those behind them move down. The columns stay what they are, with the
/// levels of the blob.
#[verifier::rlimit(60)]
pub proof fn law_restored_rows_come_back(
    t: TableV,
    num: NumeralsV,
    job: EditJob,
    w: Result<Seq<u8>, Seq<char>>,
    inv: Seq<ColumnV>,
    at: u64,
    count: u64,
    j: int,
    r: int,
)
    requires
        t.wf(),
        job.edit is ApplyInverse,
        names_op(job, "restore_rows"@),
        names_number(job, "at"@, at as int),
        names_number(job, "count"@, count as int),
        blob_columns(job.tail@) == Ok::<Option<Seq<ColumnV>>, Seq<char>>(Some(inv)),
        edit_outcome(t, num, job, w) is Ok,
    ensures
        ({
            let g = edit_outcome(t, num, job, w)->Ok_0.table;
            &&& count > 0
            &&& at <= t.rows
            &&& names_number(job, "old_rows"@, t.rows + count)
            &&& inv.len() == t.fields.len()
            &&& g.rows == t.rows + count
            &&& g.fields =~= t.fields
            &&& 0 <= j < t.fields.len() ==> g.dicts[j] == inv[j].levels
            &&& 0 <= j < t.fields.len() ==> t.fields[j].kind is Float64
                == inv[j].field.kind is Float64
            &&& 0 <= j < t.fields.len() ==> inv[j].cells.len() == count
            &&& 0 <= j < t.fields.len() && 0 <= r < g.rows ==> g.cols[j][r] == if r < at {
                t.cols[j][r]
            } else if r < at + count {
                inv[j].cells[r - at]
            } else {
                t.cols[j][r - count]
            }
        }),
{
    lemma_programs_differ();
    let meta = job.edit->inverse@;
    let ops = meta.ops;
    let blob = blob_columns(job.tail@);
    let x = restore_rows_outcome(t, num, ops, blob, job.revision);
    assert(inverse_outcome(t, num, meta, job.tail@.len(), blob, job.revision, w) == x);
    assert(edit_outcome(t, num, job, w) == x);
    assert(decoded(blob)->Ok_0 == inv);
    assert(program_u64(ops, "at"@)->Ok_0 == at);
    assert(program_u64(ops, "count"@)->Ok_0 == count);
    lemma_rows_back(t, num, ops, inv, job.revision, at, count, j, r);
}

#[verifier::rlimit(60)]
proof fn lemma_rows_back(
    t: TableV,
    num: NumeralsV,
    ops: JsonV,
    inv: Seq<ColumnV>,
    revision: u64,
    at: u64,
    count: u64,
    j: int,
    r: int,
)
    requires
        t.wf(),
        program_u64(ops, "at"@) == Ok::<u64, crate::messages::FailureV>(at),
        program_u64(ops, "count"@) == Ok::<u64, crate::messages::FailureV>(count),
        restore_rows_outcome(t, num, ops, Ok(Some(inv)), revision) is Ok,
    ensures
        ({
            let g = restore_rows_outcome(t, num, ops, Ok(Some(inv)), revision)->Ok_0.table;
            &&& count > 0
            &&& at <= t.rows
            &&& program_u64(ops, "old_rows"@) is Ok
            &&& program_u64(ops, "old_rows"@)->Ok_0 == t.rows + count
            &&& inv.len() == t.fields.len()
            &&& g.rows == t.rows + count
            &&& g.fields =~= t.fields
            &&& 0 <= j < t.fields.len() ==> g.dicts[j] == inv[j].levels
            &&& 0 <= j < t.fields.len() ==> t.fields[j].kind is Float64
                == inv[j].field.kind is Float64
            &&& 0 <= j < t.fields.len() ==> inv[j].cells.len() == count
            &&& 0 <= j < t.fields.len() && 0 <= r < g.rows ==> g.cols[j][r] == if r < at {
                t.cols[j][r]
            } else if r < at + count {
                inv[j].cells[r - at]
            } else {
                t.cols[j][r - count]
            }
        }),
{
    let g = restore_rows_outcome(t, num, ops, Ok(Some(inv)), revision)->Ok_0.table;
    if 0 <= j < t.fields.len() {
        let plan = restore_rows_plan(t, inv);
        let a = Seg::Copy { out: 0, old: 0, len: at };
        let b = Seg::Restore { len: count };
        let c = Seg::Copy {
            out: (at + count) as u64,
            old: at,
            len: (t.rows as u64 - at) as u64,
        };
        assert(restore_rows_table(t.rows as u64, at, count) =~= seq![a, b, c]);
        lemma_three(plan[j], num, t.cols, t.rows, a, b, c);
        assert(t.fields[j].is_scale() == inv[j].field.is_scale());
        assert(inv[j].cells.len() == inv[0].cells.len());
        assert(g.cols[j] == walked(plan[j], num, t.cols, t.rows, seq![a, b, c]));
    }
}

/// Columns that an inverse puts back stand where they stood, as the blob has them; the others
/// stay what they are, those behind moved by as many.
#[verifier::rlimit(60)]
pub proof fn law_restored_columns_come_back(
    t: TableV,
    num: NumeralsV,
    job: EditJob,
    w: Result<Seq<u8>, Seq<char>>,
    inv: Seq<ColumnV>,
    at: u64,
    count: u64,
    j: int,
)
    requires
        t.wf(),
        job.edit is ApplyInverse,
        names_op(job, "restore_cols"@),
        names_number(job, "at"@, at as int),
        names_number(job, "count"@, count as int),
        blob_columns(job.tail@) == Ok::<Option<Seq<ColumnV>>, Seq<char>>(Some(inv)),
        edit_outcome(t, num, job, w) is Ok,
    ensures
        ({
            let g = edit_outcome(t, num, job, w)->Ok_0.table;
            &&& count > 0
            &&& at <= t.fields.len()
            &&& names_number(job, "old_cols"@, t.fields.len() + count)
            &&& inv.len() == count
            &&& g.rows == t.rows
            &&& g.fields.len() == t.fields.len() + count
            &&& 0 <= j < at ==> g.fields[j] == t.fields[j] && g.dicts[j] == t.dicts[j]
                && g.cols[j] == t.cols[j]
            &&& at <= j < at + count ==> g.fields[j] == inv[j - at].field && g.dicts[j] == inv[j
                - at].levels && g.cols[j] == inv[j - at].cells && g.cols[j].len() == t.rows
                && !(g.fields[j].kind is Other) && forall|r: int|
                0 <= r < t.rows && g.fields[j].kind is Dictionary && (
                #[trigger] g.cols[j][r]) is Some ==> g.cols[j][r]->0 < g.dicts[j].len()
            &&& at + count <= j < g.fields.len() ==> g.fields[j] == t.fields[j - count]
                && g.dicts[j] == t.dicts[j - count] && g.cols[j] == t.cols[j - count]
        }),
{
    lemma_programs_differ();
    let meta = job.edit->inverse@;
    let ops = meta.ops;
    let blob = blob_columns(job.tail@);
    let x = restore_cols_outcome(t, num, ops, blob, job.revision);
    assert(inverse_outcome(t, num, meta, job.tail@.len(), blob, job.revision, w) == x);
    assert(edit_outcome(t, num, job, w) == x);
    assert(decoded(blob)->Ok_0 == inv);
    assert(program_u64(ops, "at"@)->Ok_0 == at);
    assert(program_u64(ops, "count"@)->Ok_0 == count);
    if at <= j < at + count {
        let i = j - at;
        assert(inv[i].cells.len() == inv[0].cells.len());
        lemma_supported_at(inv, i);
        let g = edit_outcome(t, num, job, w)->Ok_0.table;
        assert forall|r: int|
            0 <= r < t.rows && g.fields[j].kind is Dictionary && (
            #[trigger] g.cols[j][r]) is Some implies g.cols[j][r]->0 < g.dicts[j].len() by {
            assert(cell_fits(inv[i].field, inv[i].levels, inv[i].cells[r]));
        }
    }
}

/// A block that an inverse puts back leaves a table of the size that its program names. Every
/// column is then one of the blob, by its field and its levels, or was there and stays what it
/// was.
#[verifier::rlimit(60)]
pub proof fn law_restored_blocks_come_back(
    t: TableV,
    num: NumeralsV,
    job: EditJob,
    w: Result<Seq<u8>, Seq<char>>,
    inv: Seq<ColumnV>,
    j: int,
)
    requires
        t.wf(),
        job.edit is ApplyInverse,
        names_op(job, "restore_block"@),
        blob_columns(job.tail@) == Ok::<Option<Seq<ColumnV>>, Seq<char>>(Some(inv)),
        edit_outcome(t, num, job, w) is Ok,
    ensures
        ({
            let g = edit_outcome(t, num, job, w)->Ok_0.table;
            &&& names_number(job, "old_rows"@, g.rows as int)
            &&& names_number(job, "old_cols"@, g.fields.len() as int)
            &&& g.rows <= MAX_ROWS
            &&& 0 <= j < g.fields.len() ==> (exists|i: int|
                0 <= i < inv.len() && g.fields[j] == (#[trigger] inv[i]).field && g.dicts[j]
                    == inv[i].levels) || (j < t.fields.len() && g.fields[j] == t.fields[j]
                && g.dicts[j] == t.dicts[j])
        }),
{
    lemma_programs_differ();
    let meta = job.edit->inverse@;
    let ops = meta.ops;
    let blob = blob_columns(job.tail@);
    let x = restore_block_outcome(t, num, ops, blob, job.revision, w);
    assert(inverse_outcome(t, num, meta, job.tail@.len(), blob, job.revision, w) == x);
    assert(edit_outcome(t, num, job, w) == x);
    let (p, got) = block_restore(t, ops, blob)->Ok_0;
    assert(got == inv);
    let g = x->Ok_0.table;
    if 0 <= j < g.fields.len() {
        assert(g.fields[j] == restored_block_col(t, p, inv, j).field);
        assert(g.dicts[j] == restored_block_col(t, p, inv, j).levels);
        match first_place(p.indices, j as u64) {
            Some(i) => {
                lemma_place_inside(p.indices, j as u64);
                let c = inv[i as int];
                assert(g.fields[j] == c.field);
            },
            None => {
                if j >= t.fields.len() {
                    lemma_not_beyond(p.indices, t.fields.len(), j as u64);
                    let s = beyond(p.indices, t.fields.len());
                    let run = tail_run(t.fields.len() as u64, p.old_cols);
                    assert(run[j - t.fields.len()] == j as u64);
                    assert(s.contains(j as u64));
                }
            },
        }
    }
}

proof fn lemma_place_inside(s: Seq<u64>, j: u64)
    ensures
        first_place(s, j) is Some ==> first_place(s, j)->0 < s.len(),
        first_place(s, j) is None ==> !s.contains(j),
    decreases s.len(),
{
    if s.len() > 0 {
        let d = s.drop_last();
        lemma_place_inside(d, j);
        if first_place(s, j) is None && s.contains(j) {
            let i = s.index_of(j);
            if i < d.len() {
                assert(d[i] == j);
            }
        }
    }
}

proof fn lemma_not_beyond(s: Seq<u64>, n: nat, j: u64)
    requires
        first_place(s, j) is None,
    ensures
        !beyond(s, n).contains(j),
    decreases s.len(),
{
    lemma_place_inside(s, j);
    if s.len() > 0 {
        let d = s.drop_last();
        let b = beyond(s, n);
        assert(!d.contains(j)) by {
            if d.contains(j) {
                let i = d.index_of(j);
                assert(s[i] == j);
            }
        }
        lemma_place_inside(d, j);
        if first_place(d, j) is Some {
            lemma_place_at(d, j);
        }
        lemma_not_beyond(d, n, j);
        assert(s[s.len() - 1] == s.last());
        if b.contains(j) {
            let i = b.index_of(j);
            if i < beyond(d, n).len() {
                assert(beyond(d, n)[i] == j);
            }
        }
    }
}

proof fn lemma_place_at(s: Seq<u64>, j: u64)
    requires
        first_place(s, j) is Some,
    ensures
        s.contains(j),
    decreases s.len(),
{
    if s.len() > 0 {
        let d = s.drop_last();
        if first_place(d, j) is Some {
            lemma_place_at(d, j);
            let i = d.index_of(j);
            assert(s[i] == j);
        } else {
            assert(s[s.len() - 1] == j);
        }
    }
}

/// A schema that an inverse puts back is for a table of this size, and leaves the columns under
/// the names of its old order, in that order and each once.
#[verifier::rlimit(60)]
pub proof fn law_restored_schemas_follow_their_order(
    t: TableV,
    num: NumeralsV,
    job: EditJob,
    w: Result<Seq<u8>, Seq<char>>,
    k: int,
)
    requires
        t.wf(),
        job.edit is ApplyInverse,
        names_op(job, "restore_schema"@),
        edit_outcome(t, num, job, w) is Ok,
    ensures
        ({
            let g = edit_outcome(t, num, job, w)->Ok_0.table;
            let order = program(job)->Object_0["old_order"@]->Array_0;
            &&& names_number(job, "old_rows"@, t.rows as int)
            &&& names_number(job, "old_cols"@, t.fields.len() as int)
            &&& g.rows == t.rows
            &&& g.fields.len() == t.fields.len()
            &&& program(job)->Object_0.contains_key("old_order"@)
            &&& program(job)->Object_0["old_order"@] is Array
            &&& order.len() == t.fields.len()
            &&& 0 <= k < t.fields.len() ==> order[k] == JsonV::Str(g.fields[k].name)
            &&& g.names_distinct()
        }),
{
    lemma_programs_differ();
    let meta = job.edit->inverse@;
    let ops = meta.ops;
    let blob = blob_columns(job.tail@);
    let x = restore_schema_outcome(t, num, ops, job.tail@.len(), blob, job.revision, w);
    assert(inverse_outcome(t, num, meta, job.tail@.len(), blob, job.revision, w) == x);
    assert(edit_outcome(t, num, job, w) == x);
    let s = schema_restore(t, ops, job.tail@.len(), blob)->Ok_0;
    let g = x->Ok_0.table;
    lemma_order(t, s, s.order);
    let plan = restored_schema_cols(t, s, s.order)->Ok_0.0;
    lemma_first_repeat(s.order);
    assert forall|i: int| 0 <= i < g.fields.len() implies (#[trigger] g.fields[i]).name
        == s.order[i] by {
        assert(g.fields[i] == plan[i].field);
    }
    assert forall|a: int, b: int| 0 <= a < b < g.fields.len() implies (
    #[trigger] g.fields[a]).name != (#[trigger] g.fields[b]).name by {
        assert(s.order[a] != s.order[b]);
    }
}

proof fn lemma_order(t: TableV, s: SchemaRestoreV, names: Seq<Seq<char>>)
    requires
        restored_schema_cols(t, s, names) is Ok,
        some_captured(s.records) ==> first_uncaptured(s.records, column_names(s.inv)) is None,
    ensures
        ({
            let plan = restored_schema_cols(t, s, names)->Ok_0.0;
            &&& plan.len() == names.len()
            &&& forall|i: int|
                0 <= i < plan.len() ==> (#[trigger] plan[i]).field.name == names[i]
        }),
    decreases names.len(),
{
    if names.len() > 0 {
        let d = names.drop_last();
        let name = names.last();
        lemma_order(t, s, d);
        let p = restored_schema_cols(t, s, d)->Ok_0.0;
        let plan = restored_schema_cols(t, s, names)->Ok_0.0;
        let c = restored_schema_col(t, s, name)->Ok_0.0;
        lemma_text_found(old_names(s.records), name);
        lemma_text_found(crate::edit_cols::field_names(t), name);
        if let Some(i) = first_text(old_names(s.records), name) {
            let r = s.records[i as int];
            assert(r.old_name == name);
            if r.capture {
                lemma_captured(s.records, column_names(s.inv), i as int);
                lemma_text_found(column_names(s.inv), name);
            }
        }
        assert(c.field.name == name);
        assert forall|i: int| 0 <= i < plan.len() implies (#[trigger] plan[i]).field.name
            == names[i] by {
            if i < p.len() {
                assert(plan[i] == p[i]);
                assert(d[i] == names[i]);
            }
        }
    }
}

proof fn lemma_text_found(s: Seq<Seq<char>>, t: Seq<char>)
    ensures
        first_text(s, t) is Some ==> first_text(s, t)->0 < s.len() && s[first_text(s, t)->0 as int]
            == t,
        s.contains(t) ==> first_text(s, t) is Some,
    decreases s.len(),
{
    if s.len() > 0 {
        let d = s.drop_last();
        lemma_text_found(d, t);
        if s.contains(t) {
            let i = s.index_of(t);
            if i < d.len() {
                assert(d[i] == t);
            }
        }
    }
}

proof fn lemma_captured(rs: Seq<RecordV>, names: Seq<Seq<char>>, i: int)
    requires
        0 <= i < rs.len(),
        rs[i].capture,
        some_captured(rs) ==> first_uncaptured(rs, names) is None,
    ensures
        names.contains(rs[i].old_name),
    decreases rs.len(),
{
    let d = rs.drop_last();
    lemma_some_captured(rs, i);
    if i < d.len() {
        assert(d[i] == rs[i]);
        lemma_captured(d, names, i);
    }
}

proof fn lemma_some_captured(rs: Seq<RecordV>, i: int)
    requires
        0 <= i < rs.len(),
        rs[i].capture,
    ensures
        some_captured(rs),
    decreases rs.len(),
{
    if i < rs.len() - 1 {
        assert(rs.drop_last()[i] == rs[i]);
        lemma_some_captured(rs.drop_last(), i);
    }
}

proof fn lemma_supported_at(cols: Seq<ColumnV>, i: int)
    requires
        first_unsupported(cols) is None,
        0 <= i < cols.len(),
    ensures
        cols[i].field.level() is Some,
    decreases cols.len(),
{
    if i < cols.len() - 1 {
        assert(cols.drop_last()[i] == cols[i]);
        lemma_supported_at(cols.drop_last(), i);
    }
}

} // verus!
