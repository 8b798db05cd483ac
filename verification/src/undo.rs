//! What undoing and redoing an edit gives back.
use vstd::prelude::*;
use crate::agreement::{law_inverses_ask_no_numerals, same_but_told};
use crate::capture::{
    blob_columns, carries, columns_fit, decoded, first_unsupported, sealed, written, ColumnV,
};
use crate::edit_cols::{
    delete_cols_capture, delete_cols_outcome, insert_cols_outcome, restore_cols_program, with_cols,
    without_cols, SpecV,
};
use crate::edit_rows::{
    delete_rows_capture, delete_rows_outcome, insert_rows_outcome, inverse_rows, lemma_three,
    program_u64, restore_rows_plan, restore_rows_program, types_match, with_rows, without_rows,
};
use crate::edit_cols::lemma_planned;
use crate::engine::{seg_cells, walked};
use crate::keeps::law_insert_cols_keeps_sound;
use crate::json::text_at;
use crate::messages::FailureV;
use crate::number::NumeralsV;
use crate::outcome::{capture_of, delete_cols_program, delete_rows_program, run, OutcomeV};
use crate::segments::{restore_rows_table, Seg};
use crate::serve::{inverse_outcome, lemma_programs_differ};
use crate::table::{cell_fits, Cell, FieldV, TableV};

verus! {

/// A dataset that edits take: its columns have measurement levels, there is one at least, and the
/// counts are machine numbers.
pub open spec fn regular(t: TableV) -> bool {
    &&& t.wf()
    &&& t.supported()
    &&& 0 < t.fields.len() <= usize::MAX
    &&& forall|j: int| 0 <= j < t.dicts.len() ==> (#[trigger] t.dicts[j]).len() <= u64::MAX
}

/// A dataset as the edits keep it: no dictionary lists a level twice.
pub open spec fn sound(t: TableV) -> bool {
    regular(t) && t.levels_distinct()
}

/// Two cells of a column read the same: they are the same number, or keys of the same level.
pub open spec fn cell_alike(f: FieldV, levels: Seq<Seq<char>>, a: Cell, b: Cell) -> bool {
    a == b || (!f.is_scale() && a is Some && b is Some && a->0 < levels.len() && b->0 < levels.len()
        && levels[a->0 as int] == levels[b->0 as int])
}

/// Two tables have the same columns and dictionaries, and read the same cell by cell.
pub open spec fn read_alike(x: TableV, y: TableV) -> bool {
    &&& x.fields == y.fields
    &&& x.dicts == y.dicts
    &&& x.rows == y.rows
    &&& x.cols.len() == y.cols.len()
    &&& forall|j: int| 0 <= j < x.cols.len() ==> (#[trigger] x.cols[j]).len() == y.cols[j].len()
    &&& forall|j: int, r: int|
        0 <= j < y.cols.len() && 0 <= r < y.rows ==> cell_alike(
            y.fields[j],
            y.dicts[j],
            #[trigger] x.cols[j][r],
            y.cols[j][r],
        )
}

/// A table is given back: it reads as before, and where no dictionary lists a level twice it is
/// the very same.
pub open spec fn gives_back(x: TableV, y: TableV) -> bool {
    read_alike(x, y) && (y.levels_distinct() ==> x == y)
}

/// What the inverse of an outcome gives on the table that the outcome made.
pub open spec fn reversed(
    o: OutcomeV,
    num: NumeralsV,
    revision: u64,
    w: Result<Seq<u8>, Seq<char>>,
) -> Result<OutcomeV, FailureV> {
    inverse_outcome(
        o.table,
        num,
        o.inverse->0,
        o.bytes.len(),
        blob_columns(o.bytes),
        revision,
        w,
    )
}

/// What an inverse makes is the same under all numerals.
pub proof fn lemma_reversed_alike(
    o: OutcomeV,
    a: NumeralsV,
    b: NumeralsV,
    revision: u64,
    w: Result<Seq<u8>, Seq<char>>,
)
    ensures
        same_but_told(reversed(o, a, revision, w), reversed(o, b, revision, w)),
{
    law_inverses_ask_no_numerals(
        o.table,
        a,
        b,
        o.inverse->0,
        o.bytes.len(),
        blob_columns(o.bytes),
        revision,
        w,
    );
}

/// The keys in programs are pairwise distinct.
pub proof fn lemma_keys()
    ensures
        "v"@ != "op"@,
        "v"@ != "at"@,
        "op"@ != "at"@,
        "op"@ != "count"@,
        "op"@ != "old_rows"@,
        "op"@ != "old_cols"@,
        "op"@ != "columns"@,
        "at"@ != "count"@,
        "at"@ != "old_rows"@,
        "at"@ != "old_cols"@,
        "at"@ != "columns"@,
        "count"@ != "old_rows"@,
        "count"@ != "old_cols"@,
        "count"@ != "columns"@,
        "old_rows"@ != "columns"@,
        "old_cols"@ != "columns"@,
        "old_rows"@ != "old_cols"@,
{
    reveal_strlit("v");
    reveal_strlit("op");
    reveal_strlit("at");
    reveal_strlit("count");
    reveal_strlit("old_rows");
    reveal_strlit("old_cols");
    reveal_strlit("columns");
    assert("op"@[0] == 'o' && "at"@[0] == 'a');
    assert("old_rows"@[4] == 'r' && "old_cols"@[4] == 'c');
    assert("v"@.len() == 1 && "op"@.len() == 2 && "at"@.len() == 2 && "count"@.len() == 5);
    assert("old_rows"@.len() == 8 && "old_cols"@.len() == 8 && "columns"@.len() == 7);
}

proof fn lemma_delete_rows_program(at: u64, count: u64, rows: u64)
    ensures
        text_at(delete_rows_program(at, count, rows), "op"@) == Some("delete_rows"@),
        program_u64(delete_rows_program(at, count, rows), "at"@) == Ok::<u64, FailureV>(at),
        program_u64(delete_rows_program(at, count, rows), "count"@) == Ok::<u64, FailureV>(count),
{
    lemma_keys();
}

proof fn lemma_delete_cols_program(at: u64, count: u64, cols: u64)
    ensures
        text_at(delete_cols_program(at, count, cols), "op"@) == Some("delete_cols"@),
        program_u64(delete_cols_program(at, count, cols), "at"@) == Ok::<u64, FailureV>(at),
        program_u64(delete_cols_program(at, count, cols), "count"@) == Ok::<u64, FailureV>(count),
{
    lemma_keys();
}

proof fn lemma_restore_rows_program(t: TableV, at: u64, count: u64)
    ensures
        text_at(restore_rows_program(t, at, count), "op"@) == Some("restore_rows"@),
        program_u64(restore_rows_program(t, at, count), "at"@) == Ok::<u64, FailureV>(at),
        program_u64(restore_rows_program(t, at, count), "count"@) == Ok::<u64, FailureV>(count),
        program_u64(restore_rows_program(t, at, count), "old_rows"@) == Ok::<u64, FailureV>(
            t.rows as u64,
        ),
{
    lemma_keys();
}

proof fn lemma_restore_cols_program(t: TableV, at: u64, count: u64)
    ensures
        text_at(restore_cols_program(t, at, count), "op"@) == Some("restore_cols"@),
        program_u64(restore_cols_program(t, at, count), "at"@) == Ok::<u64, FailureV>(at),
        program_u64(restore_cols_program(t, at, count), "count"@) == Ok::<u64, FailureV>(count),
        program_u64(restore_cols_program(t, at, count), "old_cols"@) == Ok::<u64, FailureV>(
            t.fields.len() as u64,
        ),
{
    lemma_keys();
}

/// Columns without an unsupported one have none.
proof fn lemma_all_supported(cols: Seq<ColumnV>)
    requires
        forall|i: int| 0 <= i < cols.len() ==> (#[trigger] cols[i]).field.level() is Some,
    ensures
        first_unsupported(cols) is None,
    decreases cols.len(),
{
    if cols.len() > 0 {
        assert forall|i: int| 0 <= i < cols.drop_last().len() implies (
        #[trigger] cols.drop_last()[i]).field.level() is Some by {
            assert(cols.drop_last()[i] == cols[i]);
        }
        lemma_all_supported(cols.drop_last());
        assert(cols.last() == cols[cols.len() - 1]);
    }
}

/// A capture that was written reads back.
pub proof fn lemma_capture_reads_back(
    t: TableV,
    js: Seq<u64>,
    from: int,
    to: int,
    bytes: Seq<u8>,
)
    requires
        t.wf(),
        t.supported(),
        js.len() > 0,
        forall|i: int| 0 <= i < js.len() ==> #[trigger] js[i] < t.fields.len(),
        0 <= from <= to <= t.rows,
        carries(bytes, capture_of(t, js, from, to)),
    ensures
        decoded(blob_columns(bytes)) == Ok::<Seq<ColumnV>, FailureV>(capture_of(t, js, from, to)),
        inverse_rows(capture_of(t, js, from, to)) == to - from,
{
    let cols = capture_of(t, js, from, to);
    assert forall|i: int| 0 <= i < cols.len() implies (#[trigger] cols[i]).field.level() is Some by {
        assert(js[i] < t.fields.len());
        assert(t.fields[js[i] as int].level() is Some);
    }
    lemma_all_supported(cols);
    assert(columns_fit(cols)) by {
        assert forall|i: int| #![trigger cols[i]] 0 <= i < cols.len() implies cols[i].cells.len()
            == cols[0].cells.len() && (forall|k: int|
            0 <= k < cols[i].cells.len() ==> cell_fits(
                cols[i].field,
                cols[i].levels,
                #[trigger] cols[i].cells[k],
            )) by {
            assert(js[i] < t.fields.len());
            assert(js[0] < t.fields.len());
            let col = t.cols[js[i] as int];
            assert(col.len() == t.rows);
            assert(t.cols[js[0] as int].len() == t.rows);
            assert forall|k: int| 0 <= k < cols[i].cells.len() implies cell_fits(
                cols[i].field,
                cols[i].levels,
                #[trigger] cols[i].cells[k],
            ) by {
                assert(cols[i].cells[k] == col[from + k]);
            }
        }
    }
    assert(js[0] < t.fields.len());
    assert(t.cols[js[0] as int].len() == t.rows);
}

/// Undoing an insertion of rows gives back the table, unless the deleted rows cannot be
/// captured.
pub proof fn law_undo_insert_rows(
    t: TableV,
    num: NumeralsV,
    at: u64,
    count: u64,
    revision: u64,
    later: u64,
    w: Result<Seq<u8>, Seq<char>>,
)
    requires
        regular(t),
        insert_rows_outcome(t, at, count, revision) is Ok,
        revision <= later,
    ensures
        ({
            let o = insert_rows_outcome(t, at, count, revision)->Ok_0;
            let u = reversed(o, num, later, w);
            match sealed(w) {
                Ok(_) => u is Ok && u->Ok_0.table == t,
                Err(f) => u == Err::<OutcomeV, FailureV>(f),
            }
        }),
{
    let o = insert_rows_outcome(t, at, count, revision)->Ok_0;
    lemma_delete_rows_program(at, count, t.rows as u64);
    let back = without_rows(o.table, at as int, count as nat);
    assert forall|j: int| 0 <= j < t.cols.len() implies #[trigger] back.cols[j] == t.cols[j] by {
        assert(t.cols[j].len() == t.rows);
        assert(back.cols[j] =~= t.cols[j]);
    }
    assert(back.cols =~= t.cols);
    assert(back.dicts =~= t.dicts);
    assert(back =~= t);
}

/// What restoring deleted rows gives.
proof fn lemma_restore_rows(t: TableV, num: NumeralsV, at: u64, count: u64)
    requires
        t.wf(),
        count > 0,
        at + count <= t.rows,
    ensures
        ({
            let c = without_rows(t, at as int, count as nat);
            let inv = capture_of(t, run(0, t.fields.len() as u64), at as int, at + count);
            t.fields.len() <= u64::MAX ==> crate::engine::rewritten(
                c,
                restore_rows_plan(c, inv),
                num,
                restore_rows_table(c.rows as u64, at, count),
                t.rows,
            ) == Ok::<TableV, FailureV>(t)
        }),
{
    if t.fields.len() <= u64::MAX {
        let c = without_rows(t, at as int, count as nat);
        let inv = capture_of(t, run(0, t.fields.len() as u64), at as int, at + count);
        let n = c.rows as u64;
        let plan = restore_rows_plan(c, inv);
        let segs = restore_rows_table(n, at, count);
        let a = Seg::Copy { out: 0, old: 0, len: at };
        let b = Seg::Restore { len: count };
        let d = Seg::Copy { out: (at + count) as u64, old: at, len: (n - at) as u64 };
        lemma_three(arbitrary(), num, c.cols, c.rows, a, b, d);
        assert forall|k: int| 0 <= k < plan.len() implies t.fields[k] == (
        #[trigger] plan[k]).field && t.dicts[k] == plan[k].levels && t.cols[k] == walked(plan[k], num, c.cols, c.rows, segs) by {
            lemma_three(plan[k], num, c.cols, c.rows, a, b, d);
            let col = t.cols[k];
            assert(col.len() == t.rows);
            assert(c.cols[k] == col.take(at as int) + col.skip(at + count));
            assert(run(0, t.fields.len() as u64)[k] == k);
            assert(inv[k].cells == col.subrange(at as int, at + count));
            assert(seg_cells(plan[k], num, c.cols, c.rows, a) =~= col.take(at as int));
            assert(seg_cells(plan[k], num, c.cols, c.rows, b) =~= col.subrange(
                at as int,
                at + count,
            ));
            assert(seg_cells(plan[k], num, c.cols, c.rows, d) =~= col.skip(at + count));
            assert(col =~= col.take(at as int) + col.subrange(at as int, at + count) + col.skip(
                at + count,
            ));
        }
        lemma_planned(c, plan, num, segs, t);
    }
}

/// Undoing a deletion of rows gives back the table. The undo captures nothing, so nothing
/// can fail.
pub proof fn law_undo_delete_rows(
    t: TableV,
    num: NumeralsV,
    num2: NumeralsV,
    at: u64,
    count: u64,
    revision: u64,
    later: u64,
    w: Result<Seq<u8>, Seq<char>>,
    w2: Result<Seq<u8>, Seq<char>>,
)
    requires
        regular(t),
        written(w, delete_rows_capture(t, at, count)),
        delete_rows_outcome(t, num, at, count, revision, w) is Ok,
        revision <= later,
    ensures
        ({
            let o = delete_rows_outcome(t, num, at, count, revision, w)->Ok_0;
            let u = reversed(o, num2, later, w2);
            u is Ok && u->Ok_0.table == t
        }),
{
    let o = delete_rows_outcome(t, num, at, count, revision, w)->Ok_0;
    let js = run(0, t.fields.len() as u64);
    lemma_restore_rows_program(t, at, count);
    lemma_keys();
    lemma_programs_differ();
    lemma_capture_reads_back(t, js, at as int, at + count, o.bytes);
    lemma_restore_rows(t, num2, at, count);
    let inv = delete_rows_capture(t, at, count);
    assert(types_match(o.table, inv)) by {
        assert forall|j: int| 0 <= j < o.table.fields.len() implies (
        #[trigger] o.table.fields[j]).is_scale() == inv[j].field.is_scale() by {
            assert(js[j] == j);
        }
    }
}

/// Redoing an insertion of rows that was undone gives the table that it made.
pub proof fn law_redo_insert_rows(
    t: TableV,
    num: NumeralsV,
    num2: NumeralsV,
    at: u64,
    count: u64,
    revision: u64,
    later: u64,
    last: u64,
    w: Result<Seq<u8>, Seq<char>>,
    w2: Result<Seq<u8>, Seq<char>>,
)
    requires
        regular(t),
        insert_rows_outcome(t, at, count, revision) is Ok,
        revision <= later <= last,
        written(w, delete_rows_capture(with_rows(t, at as int, count as nat), at, count)),
        sealed(w) is Ok,
    ensures
        ({
            let o = insert_rows_outcome(t, at, count, revision)->Ok_0;
            let u = reversed(o, num, later, w);
            let r = reversed(u->Ok_0, num2, last, w2);
            u is Ok && r is Ok && r->Ok_0.table == o.table
        }),
{
    let o = insert_rows_outcome(t, at, count, revision)->Ok_0;
    law_undo_insert_rows(t, num, at, count, revision, later, w);
    crate::edit_rows::lemma_insert_rows(t, num, at, count);
    lemma_delete_rows_program(at, count, t.rows as u64);
    law_undo_delete_rows(o.table, num, num2, at, count, later, last, w, w2);
}

/// Redoing a deletion of rows that was undone gives the table that it made, unless the
/// deleted rows cannot be captured.
pub proof fn law_redo_delete_rows(
    t: TableV,
    num: NumeralsV,
    num2: NumeralsV,
    num3: NumeralsV,
    at: u64,
    count: u64,
    revision: u64,
    later: u64,
    last: u64,
    w: Result<Seq<u8>, Seq<char>>,
    w2: Result<Seq<u8>, Seq<char>>,
    w3: Result<Seq<u8>, Seq<char>>,
)
    requires
        regular(t),
        written(w, delete_rows_capture(t, at, count)),
        delete_rows_outcome(t, num, at, count, revision, w) is Ok,
        revision <= later <= last,
    ensures
        ({
            let o = delete_rows_outcome(t, num, at, count, revision, w)->Ok_0;
            let u = reversed(o, num2, later, w2);
            let r = reversed(u->Ok_0, num3, last, w3);
            u is Ok && match sealed(w3) {
                Ok(_) => r is Ok && r->Ok_0.table == o.table,
                Err(f) => r == Err::<OutcomeV, FailureV>(f),
            }
        }),
{
    let o = delete_rows_outcome(t, num, at, count, revision, w)->Ok_0;
    law_undo_delete_rows(t, num, num2, at, count, revision, later, w, w2);
    lemma_restore_rows_program(t, at, count);
    lemma_keys();
    lemma_programs_differ();
    lemma_delete_rows_program(at, count, o.table.rows as u64);
}

/// Undoing an insertion of columns gives back the table, unless the deleted columns cannot
/// be captured.
pub proof fn law_undo_insert_cols(
    t: TableV,
    num: NumeralsV,
    num2: NumeralsV,
    at: u64,
    specs: Seq<SpecV>,
    revision: u64,
    later: u64,
    w: Result<Seq<u8>, Seq<char>>,
)
    requires
        regular(t),
        insert_cols_outcome(t, num, at, specs, revision) is Ok,
        revision <= later,
    ensures
        ({
            let o = insert_cols_outcome(t, num, at, specs, revision)->Ok_0;
            let u = reversed(o, num2, later, w);
            match sealed(w) {
                Ok(_) => u is Ok && u->Ok_0.table == t,
                Err(f) => u == Err::<OutcomeV, FailureV>(f),
            }
        }),
{
    let o = insert_cols_outcome(t, num, at, specs, revision)->Ok_0;
    let count = specs.len() as u64;
    lemma_delete_cols_program(at, count, t.fields.len() as u64);
    lemma_keys();
    lemma_programs_differ();
    let back = without_cols(o.table, at as int, count as int);
    assert(back.fields =~= t.fields);
    assert(back.dicts =~= t.dicts);
    assert(back.cols =~= t.cols);
    assert(back =~= t);
}

/// Undoing a deletion of columns gives back the table. The undo captures nothing, so nothing
/// can fail.
#[verifier::rlimit(30)]
pub proof fn law_undo_delete_cols(
    t: TableV,
    num: NumeralsV,
    num2: NumeralsV,
    at: u64,
    count: u64,
    revision: u64,
    later: u64,
    w: Result<Seq<u8>, Seq<char>>,
    w2: Result<Seq<u8>, Seq<char>>,
)
    requires
        regular(t),
        written(w, delete_cols_capture(t, at, count)),
        delete_cols_outcome(t, num, at, count, revision, w) is Ok,
        revision <= later,
    ensures
        ({
            let o = delete_cols_outcome(t, num, at, count, revision, w)->Ok_0;
            let u = reversed(o, num2, later, w2);
            u is Ok && u->Ok_0.table == t
        }),
{
    let o = delete_cols_outcome(t, num, at, count, revision, w)->Ok_0;
    let js = run(at, (at + count) as u64);
    lemma_restore_cols_program(t, at, count);
    lemma_keys();
    lemma_programs_differ();
    lemma_capture_reads_back(t, js, 0, t.rows as int, o.bytes);
    let inv = delete_cols_capture(t, at, count);
    let back = with_cols(o.table, at as int, inv);
    assert(back.fields =~= t.fields);
    assert(back.dicts =~= t.dicts);
    assert(back.cols =~= t.cols) by {
        assert forall|j: int| 0 <= j < t.cols.len() implies back.cols[j] == t.cols[j] by {
            assert(t.cols[j].len() == t.rows);
            assert(t.cols[j].subrange(0, t.rows as int) =~= t.cols[j]);
        }
    }
    assert(back =~= t);
}

/// Redoing a deletion of columns that was undone gives the table that it made, unless the
/// deleted columns cannot be captured.
pub proof fn law_redo_delete_cols(
    t: TableV,
    num: NumeralsV,
    num2: NumeralsV,
    num3: NumeralsV,
    at: u64,
    count: u64,
    revision: u64,
    later: u64,
    last: u64,
    w: Result<Seq<u8>, Seq<char>>,
    w2: Result<Seq<u8>, Seq<char>>,
    w3: Result<Seq<u8>, Seq<char>>,
)
    requires
        regular(t),
        written(w, delete_cols_capture(t, at, count)),
        delete_cols_outcome(t, num, at, count, revision, w) is Ok,
        revision <= later <= last,
    ensures
        ({
            let o = delete_cols_outcome(t, num, at, count, revision, w)->Ok_0;
            let u = reversed(o, num2, later, w2);
            let r = reversed(u->Ok_0, num3, last, w3);
            u is Ok && match sealed(w3) {
                Ok(_) => r is Ok && r->Ok_0.table == o.table,
                Err(f) => r == Err::<OutcomeV, FailureV>(f),
            }
        }),
{
    let o = delete_cols_outcome(t, num, at, count, revision, w)->Ok_0;
    law_undo_delete_cols(t, num, num2, at, count, revision, later, w, w2);
    lemma_restore_cols_program(t, at, count);
    lemma_keys();
    lemma_programs_differ();
    lemma_delete_cols_program(at, count, o.table.fields.len() as u64);
    lemma_capture_reads_back(t, run(at, (at + count) as u64), 0, t.rows as int, o.bytes);
}

/// Redoing an insertion of columns that was undone gives the table that it made.
pub proof fn law_redo_insert_cols(
    t: TableV,
    num: NumeralsV,
    num2: NumeralsV,
    num3: NumeralsV,
    at: u64,
    specs: Seq<SpecV>,
    revision: u64,
    later: u64,
    last: u64,
    w: Result<Seq<u8>, Seq<char>>,
    w2: Result<Seq<u8>, Seq<char>>,
)
    requires
        regular(t),
        insert_cols_outcome(t, num, at, specs, revision) is Ok,
        forall|i: int|
            0 <= i < specs.len() && (#[trigger] specs[i]).levels is Some ==> specs[i].levels->0.len()
                <= u64::MAX,
        revision <= later <= last,
        written(
            w,
            delete_cols_capture(
                insert_cols_outcome(t, num, at, specs, revision)->Ok_0.table,
                at,
                specs.len() as u64,
            ),
        ),
        sealed(w) is Ok,
    ensures
        ({
            let o = insert_cols_outcome(t, num, at, specs, revision)->Ok_0;
            let u = reversed(o, num2, later, w);
            let r = reversed(u->Ok_0, num3, last, w2);
            u is Ok && r is Ok && r->Ok_0.table == o.table
        }),
{
    let o = insert_cols_outcome(t, num, at, specs, revision)->Ok_0;
    let count = specs.len() as u64;
    law_undo_insert_cols(t, num, num2, at, specs, revision, later, w);
    law_insert_cols_keeps_sound(t, num, at, specs, revision);
    lemma_delete_cols_program(at, count, t.fields.len() as u64);
    lemma_keys();
    lemma_programs_differ();
    law_undo_delete_cols(o.table, num2, num3, at, count, later, last, w, w2);
}

} // verus!
