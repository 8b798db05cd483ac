//! What the inverse of an edit says: what was there, and how to put it back.
use vstd::prelude::*;
use vstd::string::*;
use crate::block_laws::{
    block, declares, law_pasted_scales_stay_scales, lemma_paste, lemma_paste_entry,
    lemma_pastes_numbers, pastes,
};
use crate::change_laws::{asked_entries, at, changes, given, lemma_change_at};
use crate::edit_block::PasteV;
use crate::edit_laws::is_of_type;
use crate::json::JsonV;
use crate::number::NumeralsV;
use crate::outcome::EditJob;
use crate::schema_change::{
    change_record, change_records, reencoded, reencodes, says_something, ChangeV,
};
use crate::serve::edit_outcome;
use crate::table::{FieldV, TableV};
use crate::undo::lemma_keys;
use crate::undo_block::{lemma_block_keys, lemma_pasted};
use crate::undo_schema::lemma_schema_keys;

verus! {

/// An object has a member.
pub open spec fn says(v: JsonV, key: Seq<char>, m: JsonV) -> bool {
    v is Object && v->Object_0.contains_key(key) && v->Object_0[key] == m
}

/// An object has a member that is a number.
pub open spec fn says_number(v: JsonV, key: Seq<char>, n: int) -> bool {
    v is Object && v->Object_0.contains_key(key) && v->Object_0[key] is Number
        && v->Object_0[key]->Number_0 == n
}

/// An entry lists a column by its place, its name and its type.
pub open spec fn lists_column(v: JsonV, j: int, f: FieldV) -> bool {
    &&& says_number(v, "old_index"@, j)
    &&& says(v, "name"@, JsonV::Str(f.name))
    &&& v->Object_0.contains_key("type"@)
    &&& v->Object_0["type"@] is Str
    &&& is_of_type(f.kind, v->Object_0["type"@]->Str_0)
}

/// A program lists the columns of a table from one on.
pub open spec fn lists_columns(v: JsonV, t: TableV, from: int, count: int) -> bool {
    let a = v->Object_0["columns"@]->Array_0;
    &&& v is Object
    &&& v->Object_0.contains_key("columns"@)
    &&& v->Object_0["columns"@] is Array
    &&& a.len() == count
    &&& forall|i: int|
        0 <= i < count ==> lists_column(#[trigger] a[i], from + i, t.fields[from + i])
}

proof fn lemma_entry_keys()
    ensures
        "old_index"@ != "name"@,
        "old_index"@ != "type"@,
        "name"@ != "type"@,
{
    reveal_strlit("old_index");
    reveal_strlit("name");
    reveal_strlit("type");
    assert("old_index"@.len() == 9 && "name"@.len() == 4 && "type"@.len() == 4);
    assert("name"@[0] == 'n' && "type"@[0] == 't');
}

proof fn lemma_listed(t: TableV, js: Seq<u64>, from: int, i: int)
    requires
        t.supported(),
        0 <= i < js.len(),
        js[i] == from + i,
        from + i < t.fields.len(),
    ensures
        lists_column(
            crate::outcome::column_entries(t, js)[i],
            from + i,
            t.fields[from + i],
        ),
{
    lemma_entry_keys();
    assert(t.fields[from + i].level() is Some);
}

/// The inverse of an insertion says how many rows or columns to delete again, and where.
#[verifier::rlimit(60)]
pub proof fn law_insertions_say_what_to_delete(
    t: TableV,
    num: NumeralsV,
    job: EditJob,
    w: Result<Seq<u8>, Seq<char>>,
)
    requires
        job.edit is InsertRows || job.edit is InsertCols,
        t.rows <= u64::MAX,
        t.fields.len() <= u64::MAX,
        edit_outcome(t, num, job, w) is Ok,
    ensures
        ({
            let v = edit_outcome(t, num, job, w)->Ok_0.inverse->0.ops;
            &&& says_number(v, "v"@, 1)
            &&& job.edit is InsertRows ==> says(v, "op"@, JsonV::Str("delete_rows"@))
                && says_number(v, "at"@, job.edit->InsertRows_at as int) && says_number(
                v,
                "count"@,
                job.edit->InsertRows_count as int,
            ) && says_number(v, "old_rows"@, t.rows as int)
            &&& job.edit is InsertCols ==> says(v, "op"@, JsonV::Str("delete_cols"@))
                && says_number(v, "at"@, job.edit->InsertCols_at as int) && says_number(
                v,
                "count"@,
                job.edit->columns@.len() as int,
            ) && says_number(v, "old_cols"@, t.fields.len() as int)
        }),
{
    lemma_keys();
    lemma_version_key();
}

proof fn lemma_version_key()
    ensures
        "v"@ != "count"@,
        "v"@ != "old_rows"@,
        "v"@ != "old_cols"@,
        "v"@ != "columns"@,
        "v"@ != "capture"@,
        "v"@ != "capture_rows"@,
        "v"@ != "trim_rows_from"@,
        "v"@ != "trim_cols_from"@,
        "v"@ != "old_order"@,
        "op"@ != "old_order"@,
        "trim_rows_from"@ != "trim_cols_from"@,
{
    reveal_strlit("v");
    reveal_strlit("op");
    reveal_strlit("count");
    reveal_strlit("old_rows");
    reveal_strlit("old_cols");
    reveal_strlit("columns");
    reveal_strlit("capture");
    reveal_strlit("capture_rows");
    reveal_strlit("trim_rows_from");
    reveal_strlit("trim_cols_from");
    reveal_strlit("old_order");
    assert("v"@.len() == 1 && "op"@.len() == 2 && "count"@.len() == 5 && "columns"@.len() == 7);
    assert("old_rows"@.len() == 8 && "old_cols"@.len() == 8 && "old_order"@.len() == 9);
    assert("capture"@.len() == 7 && "capture_rows"@.len() == 12);
    assert("trim_rows_from"@.len() == 14 && "trim_cols_from"@.len() == 14);
    assert("trim_rows_from"@[5] == 'r' && "trim_cols_from"@[5] == 'c');
}

/// The inverse of a deletion says what to put back and where, how large the table was, and which
/// columns there were.
#[verifier::rlimit(60)]
pub proof fn law_deletions_say_what_to_restore(
    t: TableV,
    num: NumeralsV,
    job: EditJob,
    w: Result<Seq<u8>, Seq<char>>,
)
    requires
        job.edit is DeleteRows || job.edit is DeleteCols,
        t.supported(),
        t.rows <= u64::MAX,
        t.fields.len() <= u64::MAX,
        edit_outcome(t, num, job, w) is Ok,
    ensures
        ({
            let v = edit_outcome(t, num, job, w)->Ok_0.inverse->0.ops;
            &&& says_number(v, "v"@, 1)
            &&& job.edit is DeleteRows ==> says(v, "op"@, JsonV::Str("restore_rows"@))
                && says_number(v, "at"@, job.edit->DeleteRows_at as int) && says_number(
                v,
                "count"@,
                job.edit->DeleteRows_count as int,
            ) && says_number(v, "old_rows"@, t.rows as int) && lists_columns(
                v,
                t,
                0,
                t.fields.len() as int,
            )
            &&& job.edit is DeleteCols ==> says(v, "op"@, JsonV::Str("restore_cols"@))
                && says_number(v, "at"@, job.edit->DeleteCols_at as int) && says_number(
                v,
                "count"@,
                job.edit->DeleteCols_count as int,
            ) && says_number(v, "old_cols"@, t.fields.len() as int) && lists_columns(
                v,
                t,
                job.edit->DeleteCols_at as int,
                job.edit->DeleteCols_count as int,
            )
        }),
{
    lemma_keys();
    lemma_version_key();
    let v = edit_outcome(t, num, job, w)->Ok_0.inverse->0.ops;
    let a = v->Object_0["columns"@]->Array_0;
    if job.edit is DeleteRows {
        assert forall|i: int| 0 <= i < t.fields.len() implies lists_column(
            #[trigger] a[i],
            0 + i,
            t.fields[0 + i],
        ) by {
            lemma_listed(t, crate::outcome::run(0, t.fields.len() as u64), 0, i);
        }
    } else {
        let at = job.edit->DeleteCols_at;
        let n = job.edit->DeleteCols_count;
        assert forall|i: int| 0 <= i < n implies lists_column(
            #[trigger] a[i],
            at + i,
            t.fields[at + i],
        ) by {
            lemma_listed(t, crate::outcome::run(at, (at + n) as u64), at as int, i);
        }
    }
}

/// The inverse of a paste, where it lands on columns of the table, says where the block stood
/// and how large it and the table were; whether whole columns are kept or only what the block
/// covered, and how many rows of them; and what of the table to cut off again. It lists the
/// columns that the block covered.
#[verifier::rlimit(60)]
pub proof fn law_pastes_say_what_to_restore(
    t: TableV,
    num: NumeralsV,
    job: EditJob,
    w: Result<Seq<u8>, Seq<char>>,
)
    requires
        pastes(t, num, job, w),
        block(job)[0].len() <= u64::MAX,
    ensures
        ({
            let o = edit_outcome(t, num, job, w)->Ok_0;
            let v = o.inverse->0.ops;
            let row = job.edit->InsertBlock_row as int;
            let col = job.edit->InsertBlock_col as int;
            let h = block(job).len() as int;
            let n = block(job)[0].len() as int;
            let place = v->Object_0["anchor"@];
            let kept = if o.table.rows > t.rows {
                if row >= t.rows {
                    0
                } else {
                    t.rows - row
                }
            } else {
                h
            };
            &&& o.inverse is Some <==> col < t.fields.len()
            &&& o.inverse is None ==> o.bytes.len() == 0
            &&& o.inverse is Some ==> {
                &&& w is Ok && o.bytes == w->Ok_0
                &&& says_number(v, "v"@, 1)
                &&& says(v, "op"@, JsonV::Str("restore_block"@))
                &&& says(v, "anchor"@, place)
                &&& says_number(place, "row"@, row)
                &&& says_number(place, "col"@, col)
                &&& says_number(place, "rows"@, h)
                &&& says_number(place, "cols"@, n)
                &&& says_number(v, "old_rows"@, t.rows as int)
                &&& says_number(v, "old_cols"@, t.fields.len() as int)
                &&& (says(v, "capture"@, JsonV::Str("full"@)) && says_number(
                    v,
                    "capture_rows"@,
                    t.rows as int,
                )) || (says(v, "capture"@, JsonV::Str("rect"@)) && says_number(
                    v,
                    "capture_rows"@,
                    kept,
                ))
                &&& if o.table.rows > t.rows {
                    says_number(v, "trim_rows_from"@, t.rows as int)
                } else {
                    says(v, "trim_rows_from"@, JsonV::Null)
                }
                &&& if o.table.fields.len() > t.fields.len() {
                    says_number(v, "trim_cols_from"@, t.fields.len() as int)
                } else {
                    says(v, "trim_cols_from"@, JsonV::Null)
                }
                &&& lists_columns(
                    v,
                    t,
                    col,
                    if col + n < t.fields.len() {
                        n
                    } else {
                        t.fields.len() - col
                    },
                )
            }
        }),
{
    let p = lemma_paste(t, num, job, w);
    lemma_pasted(p, job.revision, w);
    lemma_paste_program(p, job.revision, w);
}

#[verifier::rlimit(60)]
proof fn lemma_paste_program(p: PasteV, revision: u64, w: Result<Seq<u8>, Seq<char>>)
    requires
        crate::undo_block::pastable(p),
        crate::edit_block::paste_outcome(p, revision, w) is Ok,
        p.row + p.height() <= crate::table::MAX_ROWS,
        p.col + p.width() <= u64::MAX,
    ensures
        ({
            let t = p.t;
            let o = crate::edit_block::paste_outcome(p, revision, w)->Ok_0;
            let v = o.inverse->0.ops;
            let place = v->Object_0["anchor"@];
            &&& o.inverse is Some <==> p.col < t.fields.len()
            &&& o.inverse is None ==> o.bytes.len() == 0
            &&& o.inverse is Some ==> {
                &&& w is Ok && o.bytes == w->Ok_0
                &&& says_number(v, "v"@, 1)
                &&& says(v, "op"@, JsonV::Str("restore_block"@))
                &&& says(v, "anchor"@, place)
                &&& says_number(place, "row"@, p.row as int)
                &&& says_number(place, "col"@, p.col as int)
                &&& says_number(place, "rows"@, p.height() as int)
                &&& says_number(place, "cols"@, p.width() as int)
                &&& says_number(v, "old_rows"@, t.rows as int)
                &&& says_number(v, "old_cols"@, t.fields.len() as int)
                &&& (says(v, "capture"@, JsonV::Str("full"@)) && says_number(
                    v,
                    "capture_rows"@,
                    t.rows as int,
                )) || (says(v, "capture"@, JsonV::Str("rect"@)) && says_number(
                    v,
                    "capture_rows"@,
                    p.overlap() as int,
                ))
                &&& if p.new_rows() > t.rows {
                    says_number(v, "trim_rows_from"@, t.rows as int)
                } else {
                    says(v, "trim_rows_from"@, JsonV::Null)
                }
                &&& if p.new_cols() > t.fields.len() {
                    says_number(v, "trim_cols_from"@, t.fields.len() as int)
                } else {
                    says(v, "trim_cols_from"@, JsonV::Null)
                }
                &&& lists_columns(
                    v,
                    t,
                    p.col as int,
                    if p.col + p.width() < t.fields.len() {
                        p.width() as int
                    } else {
                        t.fields.len() - p.col
                    },
                )
            }
        }),
{
    lemma_keys();
    lemma_version_key();
    lemma_block_keys();
    let t = p.t;
    let o = crate::edit_block::paste_outcome(p, revision, w)->Ok_0;
    if p.col < t.fields.len() {
        assert(p.touched().len() > 0);
        let v = o.inverse->0.ops;
        let a = v->Object_0["columns"@]->Array_0;
        assert(a == crate::outcome::column_entries(t, p.touched()));
        assert forall|i: int| 0 <= i < p.touched().len() implies lists_column(
            #[trigger] a[i],
            p.col + i,
            t.fields[p.col + i],
        ) by {
            lemma_listed(t, p.touched(), p.col as int, i);
        }
    } else {
        assert(p.touched().len() == 0);
    }
}

/// The inverse of a paste keeps whole columns exactly where one of the columns that the block
/// covers was encoded anew: where it was a scale and is none any more, or levels were declared.
#[verifier::rlimit(60)]
pub proof fn law_whole_columns_are_kept_where_needed(
    t: TableV,
    num: NumeralsV,
    job: EditJob,
    w: Result<Seq<u8>, Seq<char>>,
)
    requires
        pastes(t, num, job, w),
        block(job)[0].len() <= u64::MAX,
        job.edit->InsertBlock_col < t.fields.len(),
    ensures
        ({
            let o = edit_outcome(t, num, job, w)->Ok_0;
            let col = job.edit->InsertBlock_col;
            says(o.inverse->0.ops, "capture"@, JsonV::Str("full"@)) <==> exists|c: int|
                0 <= c < block(job)[0].len() && col + c < t.fields.len() && (#[trigger] declares(
                    job,
                    c,
                    "levels"@,
                ) || (t.fields[col + c].kind is Float64 && !(
                o.table.fields[col + c].kind is Float64)))
        }),
{
    let p = lemma_paste_entry(t, num, job, w, 0);
    let o = edit_outcome(t, num, job, w)->Ok_0;
    lemma_says_full(p, job.revision, w);
    lemma_reencoded_before(p, p.width());
    if p.reencodes() {
        let c = choose|c: int|
            0 <= c < p.width() && (#[trigger] p.promotes(c) || p.remaps(c));
        lemma_anew_in(t, num, job, w, p, c);
        assert(declares(job, c, "levels"@) || (t.fields[p.col + c].kind is Float64 && !(
        o.table.fields[p.col + c].kind is Float64)));
    }
    if exists|c: int|
        0 <= c < block(job)[0].len() && p.col + c < t.fields.len() && (#[trigger] declares(
            job,
            c,
            "levels"@,
        ) || (t.fields[p.col + c].kind is Float64 && !(o.table.fields[p.col + c].kind is Float64))) {
        let c = choose|c: int|
            0 <= c < block(job)[0].len() && p.col + c < t.fields.len() && (#[trigger] declares(
                job,
                c,
                "levels"@,
            ) || (t.fields[p.col + c].kind is Float64 && !(
            o.table.fields[p.col + c].kind is Float64)));
        lemma_anew_in(t, num, job, w, p, c);
        assert(p.promotes(c) || p.remaps(c));
    }
}

/// A program keeps whole columns exactly where its paste encodes one anew.
proof fn lemma_says_full(p: PasteV, revision: u64, w: Result<Seq<u8>, Seq<char>>)
    requires
        crate::undo_block::pastable(p),
        crate::edit_block::paste_outcome(p, revision, w) is Ok,
        p.col < p.t.fields.len(),
    ensures
        says(
            crate::edit_block::paste_outcome(p, revision, w)->Ok_0.inverse->0.ops,
            "capture"@,
            JsonV::Str("full"@),
        ) <==> p.reencodes(),
{
    lemma_keys();
    lemma_version_key();
    lemma_block_keys();
    assert(p.touched().len() > 0);
}

/// A covered column is encoded anew where levels are declared for it, or where it was a scale and
/// is none any more.
#[verifier::rlimit(60)]
proof fn lemma_anew_in(
    t: TableV,
    num: NumeralsV,
    job: EditJob,
    w: Result<Seq<u8>, Seq<char>>,
    p: PasteV,
    c: int,
)
    requires
        pastes(t, num, job, w),
        block(job)[0].len() <= u64::MAX,
        0 <= c < block(job)[0].len(),
        p == crate::serve::paste_asked(
            t,
            num,
            job.ingest,
            job.edit->InsertBlock_row,
            job.edit->InsertBlock_col,
            crate::serve::opt_json(job.edit->InsertBlock_target_schema),
            job.tail@,
        )->Ok_0,
    ensures
        ({
            let g = edit_outcome(t, num, job, w)->Ok_0.table;
            let j = job.edit->InsertBlock_col + c;
            (p.promotes(c) || p.remaps(c)) <==> (j < t.fields.len() && (declares(
                job,
                c,
                "levels"@,
            ) || (t.fields[j].kind is Float64 && !(g.fields[j].kind is Float64))))
        }),
{
    let again = lemma_paste_entry(t, num, job, w, c);
    assert(again == p);
    let j = p.col + c;
    if j < t.fields.len() && t.fields[j].kind is Float64 {
        law_pasted_scales_stay_scales(t, num, job, w, c);
        lemma_pastes_numbers(p, job, c);
    }
}

proof fn lemma_reencoded_before(p: PasteV, k: nat)
    ensures
        p.reencodes_before(k) <==> exists|c: int|
            0 <= c < k && (#[trigger] p.promotes(c) || p.remaps(c)),
    decreases k,
{
    if k > 0 {
        let m = (k - 1) as nat;
        lemma_reencoded_before(p, m);
        let last = p.promotes(k - 1);
        if exists|c: int| 0 <= c < k && (#[trigger] p.promotes(c) || p.remaps(c)) {
            let c = choose|c: int| 0 <= c < k && (#[trigger] p.promotes(c) || p.remaps(c));
            if c < m {
                assert(p.promotes(c) || p.remaps(c));
            } else {
                assert(c == k - 1);
            }
        }
    }
}

/// A record says what a column was: its name now and before, its display name, its type, and its
/// labels; and whether its cells are kept.
pub open spec fn records_column(v: JsonV, now: Seq<char>, f: FieldV, kept: bool, rows: nat) -> bool {
    &&& says(v, "current"@, JsonV::Str(now))
    &&& says(v, "old_name"@, JsonV::Str(f.name))
    &&& says(v, "old_display"@, JsonV::Str(f.display))
    &&& v->Object_0.contains_key("old_type"@)
    &&& v->Object_0["old_type"@] is Str
    &&& is_of_type(f.kind, v->Object_0["old_type"@]->Str_0)
    &&& v->Object_0.contains_key("old_labels"@)
    &&& if exists|k: Seq<char>| f.labels.contains_key(k) {
        let m = v->Object_0["old_labels"@]->Object_0;
        &&& v->Object_0["old_labels"@] is Object
        &&& forall|k: Seq<char>| #[trigger] m.contains_key(k) <==> f.labels.contains_key(k)
        &&& forall|k: Seq<char>| #[trigger] m.contains_key(k) ==> m[k] == JsonV::Str(f.labels[k])
    } else {
        v->Object_0["old_labels"@] is Null
    }
    &&& if kept {
        says(v, "capture"@, JsonV::Str("full"@)) && says_number(v, "capture_rows"@, rows as int)
    } else {
        says(v, "capture"@, JsonV::Null) && says(v, "capture_rows"@, JsonV::Null)
    }
}

/// The inverse of a change of the schema gives the names of the columns in their old order and
/// the size of the table. It has a record of every column whose entry asks for something: another
/// display name, another type, levels or labels.
#[verifier::rlimit(60)]
pub proof fn law_changes_say_what_to_restore(
    t: TableV,
    num: NumeralsV,
    job: EditJob,
    w: Result<Seq<u8>, Seq<char>>,
    k: int,
    j: int,
)
    requires
        changes(t, num, job, w),
        0 <= k < t.fields.len(),
        0 <= j < t.fields.len(),
        at(asked_entries(job)[k], "name"@) == JsonV::Str(t.fields[j].name),
    ensures
        ({
            let o = edit_outcome(t, num, job, w)->Ok_0;
            let v = o.inverse->0.ops;
            let e = asked_entries(job)[k];
            let g = o.table;
            let order = v->Object_0["old_order"@]->Array_0;
            let a = v->Object_0["columns"@]->Array_0;
            &&& says_number(v, "v"@, 1)
            &&& says(v, "op"@, JsonV::Str("restore_schema"@))
            &&& says_number(v, "old_cols"@, t.fields.len() as int)
            &&& says_number(v, "old_rows"@, t.rows as int)
            &&& v->Object_0.contains_key("old_order"@) && v->Object_0["old_order"@] is Array
            &&& order.len() == t.fields.len() && order[j] == JsonV::Str(t.fields[j].name)
            &&& v->Object_0.contains_key("columns"@) && v->Object_0["columns"@] is Array
            &&& given(e, "display_name"@) || g.fields[k].kind != t.fields[j].kind || (given(
                e,
                "levels"@,
            )) || given(e, "labels"@) ==> exists|i: int|
                0 <= i < a.len() && records_column(
                    #[trigger] a[i],
                    g.fields[k].name,
                    t.fields[j],
                    g.fields[k].kind is Float64 != (t.fields[j].kind is Float64),
                    t.rows,
                )
        }),
{
    lemma_keys();
    lemma_version_key();
    lemma_schema_keys();
    let c = lemma_change_at(t, num, job, w, k);
    crate::change_laws::lemma_same_column(t, c.j, j);
    let target = job.edit->SchemaChange_target_schema@;
    let cs = asked_changes_of(t, target);
    let o = edit_outcome(t, num, job, w)->Ok_0;
    let g = o.table;
    let v = o.inverse->0.ops;
    let a = v->Object_0["columns"@]->Array_0;
    assert(v == crate::schema_change::restore_schema_program(t, change_records(t, cs)));
    assert(a == change_records(t, cs));
    assert(g.fields[k] == crate::schema_change::changed_field(t, num, c));
    assert(t.fields[j].level() is Some);
    lemma_record(t, num, c);
    if says_something(t, c) {
        lemma_recorded(t, cs, k);
        let i = a.index_of(change_record(t, c));
        assert(a[i] == change_record(t, c));
    }
}

/// A change of the schema carries the old cells of the columns that became a scale or stopped
/// being one, and nothing where none did.
#[verifier::rlimit(60)]
pub proof fn law_changes_carry_what_was_encoded_anew(
    t: TableV,
    num: NumeralsV,
    job: EditJob,
    w: Result<Seq<u8>, Seq<char>>,
)
    requires
        changes(t, num, job, w),
    ensures
        ({
            let o = edit_outcome(t, num, job, w)->Ok_0;
            let anew = exists|k: int, j: int|
                #![trigger asked_entries(job)[k], t.fields[j]]
                0 <= k < t.fields.len() && 0 <= j < t.fields.len() && at(
                    asked_entries(job)[k],
                    "name"@,
                ) == JsonV::Str(t.fields[j].name) && (o.table.fields[k].kind is Float64 != (
                t.fields[j].kind is Float64));
            if anew {
                w is Ok && o.bytes == w->Ok_0
            } else {
                o.bytes.len() == 0
            }
        }),
{
    let o = edit_outcome(t, num, job, w)->Ok_0;
    let cs = asked_changes_of(t, job.edit->SchemaChange_target_schema@);
    lemma_carried(t, num, job, w);
    lemma_reencoded_some(cs);
    if reencoded(cs).len() > 0 {
        let k = choose|k: int| 0 <= k < cs.len() && reencodes(#[trigger] cs[k]);
        lemma_anew_at(t, num, job, w, k);
        let e = asked_entries(job)[k];
        let f = t.fields[cs[k].j];
        assert(o.table.fields[k].kind is Float64 != (f.kind is Float64));
    }
    if exists|k: int, j: int|
        #![trigger asked_entries(job)[k], t.fields[j]]
        0 <= k < t.fields.len() && 0 <= j < t.fields.len() && at(
            asked_entries(job)[k],
            "name"@,
        ) == JsonV::Str(t.fields[j].name) && (o.table.fields[k].kind is Float64 != (
        t.fields[j].kind is Float64)) {
        let (k, j) = choose|k: int, j: int|
            #![trigger asked_entries(job)[k], t.fields[j]]
            0 <= k < t.fields.len() && 0 <= j < t.fields.len() && at(
                asked_entries(job)[k],
                "name"@,
            ) == JsonV::Str(t.fields[j].name) && (o.table.fields[k].kind is Float64 != (
            t.fields[j].kind is Float64));
        lemma_anew_at(t, num, job, w, k);
        crate::change_laws::lemma_same_column(t, cs[k].j, j);
        assert(reencodes(cs[k]));
    }
}

#[verifier::rlimit(60)]
proof fn lemma_anew_at(
    t: TableV,
    num: NumeralsV,
    job: EditJob,
    w: Result<Seq<u8>, Seq<char>>,
    k: int,
)
    requires
        changes(t, num, job, w),
        0 <= k < t.fields.len(),
    ensures
        ({
            let c = asked_changes_of(t, job.edit->SchemaChange_target_schema@)[k];
            let o = edit_outcome(t, num, job, w)->Ok_0;
            &&& t.names_distinct()
            &&& 0 <= c.j < t.fields.len()
            &&& reencodes(c) == (o.table.fields[k].kind is Float64 != (
            t.fields[c.j].kind is Float64))
            &&& at(asked_entries(job)[k], "name"@) == JsonV::Str(t.fields[c.j].name)
        }),
{
    let c = lemma_change_at(t, num, job, w, k);
    let o = edit_outcome(t, num, job, w)->Ok_0;
    assert(o.table.fields[k] == crate::schema_change::changed_field(t, num, c));
    assert(t.fields[c.j].level() is Some);
}

#[verifier::rlimit(60)]
proof fn lemma_carried(
    t: TableV,
    num: NumeralsV,
    job: EditJob,
    w: Result<Seq<u8>, Seq<char>>,
)
    requires
        changes(t, num, job, w),
    ensures
        ({
            let cs = asked_changes_of(t, job.edit->SchemaChange_target_schema@);
            let o = edit_outcome(t, num, job, w)->Ok_0;
            &&& cs.len() == t.fields.len()
            &&& if reencoded(cs).len() == 0 {
                o.bytes.len() == 0
            } else {
                w is Ok && o.bytes == w->Ok_0
            }
        }),
{
    let target = job.edit->SchemaChange_target_schema@;
    crate::serve::lemma_supported(t.fields);
    crate::undo_schema::lemma_changed(
        t,
        num,
        job.ingest.sort_limit as nat,
        target,
        job.revision,
        w,
    );
}

proof fn lemma_reencoded_some(cs: Seq<ChangeV>)
    ensures
        reencoded(cs).len() > 0 <==> exists|k: int|
            0 <= k < cs.len() && reencodes(#[trigger] cs[k]),
    decreases cs.len(),
{
    if cs.len() > 0 {
        let d = cs.drop_last();
        let m = cs.len() - 1;
        lemma_reencoded_some(d);
        assert(cs[m] == cs.last());
        if exists|k: int| 0 <= k < d.len() && reencodes(#[trigger] d[k]) {
            let k = choose|k: int| 0 <= k < d.len() && reencodes(#[trigger] d[k]);
            assert(cs[k] == d[k]);
        }
        if exists|k: int| 0 <= k < cs.len() && reencodes(#[trigger] cs[k]) {
            let k = choose|k: int| 0 <= k < cs.len() && reencodes(#[trigger] cs[k]);
            if k < m {
                assert(d[k] == cs[k]);
            }
        }
    }
}

/// The changes that a schema asks for.
spec fn asked_changes_of(t: TableV, target: JsonV) -> Seq<ChangeV> {
    crate::schema_change::asked_changes(t, target)->Ok_0
}

proof fn lemma_recorded(t: TableV, cs: Seq<ChangeV>, k: int)
    requires
        0 <= k < cs.len(),
        says_something(t, cs[k]),
    ensures
        change_records(t, cs).contains(change_record(t, cs[k])),
    decreases cs.len(),
{
    let d = cs.drop_last();
    let a = change_records(t, d);
    let b = change_records(t, cs);
    let x = change_record(t, cs[k]);
    if k < d.len() {
        assert(d[k] == cs[k]);
        lemma_recorded(t, d, k);
        let i = a.index_of(x);
        assert(b[i] == x);
    } else {
        assert(b[b.len() - 1] == x);
    }
}

#[verifier::rlimit(60)]
proof fn lemma_record(t: TableV, num: NumeralsV, c: ChangeV)
    requires
        0 <= c.j < t.fields.len(),
        t.fields[c.j].level() is Some,
        t.rows <= u64::MAX,
        c.rebuild == crate::schema_change::rebuild_of(
            t.fields[c.j].is_scale(),
            c.level,
            c.e.levels,
        ),
    ensures
        records_column(
            change_record(t, c),
            crate::schema_change::changed_field(t, num, c).name,
            t.fields[c.j],
            c.level is Scale != (t.fields[c.j].kind is Float64),
            t.rows,
        ),
{
    lemma_schema_keys();
    let f = t.fields[c.j];
    if !(f.labels =~= Map::empty()) {
        if forall|k: Seq<char>| !f.labels.contains_key(k) {
            assert(f.labels =~= Map::empty());
        }
    }
}

} // verus!
