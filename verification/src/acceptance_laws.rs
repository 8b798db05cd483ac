//! Which pastes and changes of the schema are accepted.
use vstd::prelude::*;
use crate::block::parsed;
use crate::block_laws::{block, declared, declares, lemma_paste_entry, pastes, pastes_numbers};
use crate::change_laws::{at, given};
use crate::edit_block::{
    created_col, output_col, output_cols, paste_outcome, plan_names, remap_issues, scale_issues,
    PasteV,
};
use crate::edit_laws::{is_of_type, lemma_types_differ, sendable};
use crate::engine::{old_cell, rewritten, walked, OutColV};
use crate::json::JsonV;
use crate::levels::position;
use crate::number::NumeralsV;
use crate::outcome::EditJob;
use crate::paste::{first_unparsed, key_map, positions};
use crate::segments::{block_table, table_rows};
use crate::serve::{edit_outcome, opt_json, paste_asked};
use crate::table::{cell_fits, Cell, KindV, TableV, MAX_ROWS};
use crate::text::index_of;
use crate::undo::regular;
use crate::undo_block::{
    lemma_block_cells, lemma_output_at, lemma_output_len, lemma_pasted, pastable,
};
use crate::undo_laws::law_asked_pastes_are_in_order;

verus! {

proof fn lemma_index(s: Seq<Seq<char>>, t: Seq<char>)
    ensures
        index_of(s, t) is Some ==> index_of(s, t)->0 < s.len(),
    decreases s.len(),
{
    if s.len() > 0 && s.last() != t {
        lemma_index(s.drop_last(), t);
    }
}

pub proof fn lemma_within(levels: Seq<Seq<char>>, t: Seq<char>)
    ensures
        position(levels, t) is Some ==> (position(levels, t)->0 as int) < levels.len(),
        index_of(levels, t) is Some ==> ((index_of(levels, t)->0 as u64) as int) < levels.len(),
{
    lemma_index(levels, t);
}

/// A cell is null or lies within a dictionary.
pub open spec fn inside(c: Cell, levels: Seq<Seq<char>>) -> bool {
    c is Some ==> (c->0 as int) < levels.len()
}

/// What a planned categorical column takes over lies within its dictionary.
pub open spec fn takes_over(oc: OutColV, t: TableV) -> bool {
    oc.field.kind is Dictionary ==> {
        &&& oc.window is Some ==> forall|i: int|
            0 <= i < oc.window->0.len() ==> inside(#[trigger] oc.window->0[i], oc.levels)
        &&& oc.old is Some ==> 0 <= oc.old->0 < t.fields.len()
        &&& oc.old is Some && oc.under is Same ==> t.fields[oc.old->0].kind is Dictionary
            && t.dicts[oc.old->0].len() <= oc.levels.len()
        &&& oc.under is Remap ==> forall|i: int|
            0 <= i < oc.under->Remap_0.len() ==> inside(#[trigger] oc.under->Remap_0[i], oc.levels)
    }
}

pub proof fn lemma_old_fits(oc: OutColV, num: NumeralsV, t: TableV, r: int)
    requires
        t.wf(),
        takes_over(oc, t),
        0 <= r < t.rows,
    ensures
        cell_fits(oc.field, oc.levels, old_cell(oc, num, t.cols, r)),
{
    if oc.field.kind is Dictionary && oc.old is Some {
        let j = oc.old->0;
        assert(t.cols[j].len() == t.rows);
        assert(cell_fits(t.fields[j], t.dicts[j], t.cols[j][r]));
        if let Some(bits) = t.cols[j][r] {
            lemma_within(oc.levels, num.show(bits));
            if oc.under is Remap && (bits as int) < oc.under->Remap_0.len() {
                assert(inside(oc.under->Remap_0[bits as int], oc.levels));
            }
        }
    }
}

proof fn lemma_positions_inside(
    levels: Seq<Seq<char>>,
    canonical: bool,
    num: NumeralsV,
    ts: Seq<Option<Seq<char>>>,
)
    ensures
        forall|i: int|
            0 <= i < positions(levels, canonical, num, ts).len() ==> inside(
                #[trigger] positions(levels, canonical, num, ts)[i],
                levels,
            ),
{
    assert forall|i: int| 0 <= i < positions(levels, canonical, num, ts).len() implies inside(
        #[trigger] positions(levels, canonical, num, ts)[i],
        levels,
    ) by {
        if ts[i] is Some {
            lemma_within(levels, crate::paste::level_key(canonical, num, ts[i]->0));
        }
    }
}

pub proof fn lemma_map_inside(a: Seq<Seq<char>>, b: Seq<Seq<char>>)
    ensures
        forall|i: int| 0 <= i < key_map(a, b).len() ==> inside(#[trigger] key_map(a, b)[i], b),
{
    assert forall|i: int| 0 <= i < key_map(a, b).len() implies inside(
        #[trigger] key_map(a, b)[i],
        b,
    ) by {
        lemma_within(b, a[i]);
    }
}

#[verifier::rlimit(60)]
proof fn lemma_output_takes_over(p: PasteV, j: int, used: Seq<Seq<char>>)
    requires
        pastable(p),
        0 <= j,
        output_col(p, j, used) is Ok,
    ensures
        takes_over(output_col(p, j, used)->Ok_0.0, p.t),
{
    let oc = output_col(p, j, used)->Ok_0.0;
    let c = j - p.col;
    let ts = p.reads(c);
    if 0 <= c < p.width() {
        if j < p.t.fields.len() {
            if p.remaps(c) {
                let levels = p.entry(c)->0.levels->0;
                lemma_positions_inside(levels, false, p.num, ts);
                lemma_map_inside(p.t.dicts[j], levels);
            } else if p.promotes(c) {
                lemma_positions_inside(oc.levels, false, p.num, ts);
            } else if !p.t.fields[j].is_scale() {
                let canonical = crate::paste::canonical_dict(p.t.dicts[j], p.num);
                lemma_positions_inside(oc.levels, canonical, p.num, ts);
                crate::paste::lemma_extended(
                    p.t.dicts[j],
                    crate::paste::level_keys(canonical, p.num, crate::paste::somes(ts)),
                );
                assert(p.t.fields[j].level() is Some);
            }
        } else {
            let canonical = p.num.active && first_unparsed(ts, p.num) is None;
            assert(created_col(p, c, used) is Ok);
            lemma_positions_inside(oc.levels, canonical, p.num, ts);
            lemma_positions_inside(oc.levels, false, p.num, ts);
        }
    }
}

/// A paste whose columns can all be made lands, as far as the table has room and its inverse
/// can be sent.
#[verifier::rlimit(60)]
pub proof fn lemma_lands(p: PasteV, revision: u64, w: Result<Seq<u8>, Seq<char>>)
    requires
        pastable(p),
        p.row + p.height() <= MAX_ROWS,
        p.col + p.width() <= u64::MAX,
        scale_issues(p, p.width()) is None,
        remap_issues(p, p.width()) is None,
        output_cols(p, p.new_cols()) is Ok,
        sendable(w) || p.col >= p.t.fields.len(),
    ensures
        paste_outcome(p, revision, w) is Ok,
{
    let t = p.t;
    let q = output_cols(p, p.new_cols())->Ok_0.0;
    let segs = block_table(t.rows as u64, p.row, p.height() as u64);
    lemma_output_len(p, p.new_cols());
    lemma_block_cells(q[0], p.num, t.cols, t.rows as u64, p.row, p.height() as u64);
    assert forall|c: int, i: int| 0 <= c < q.len() && 0 <= i < table_rows(segs) implies cell_fits(
        q[c].field,
        q[c].levels,
        #[trigger] walked(q[c], p.num, t.cols, t.rows, segs)[i],
    ) by {
        lemma_output_at(p, p.new_cols(), c);
        lemma_output_takes_over(p, c, plan_names(q.take(c)));
        let oc = q[c];
        lemma_block_cells(oc, p.num, t.cols, t.rows as u64, p.row, p.height() as u64);
        let cells = walked(oc, p.num, t.cols, t.rows, segs);
        if i < t.rows {
            lemma_old_fits(oc, p.num, t, i);
        }
        if p.row <= i < p.row + p.height() {
            if oc.window is Some {
                let k = i - p.row;
                if k < oc.window->0.len() && oc.field.kind is Dictionary {
                    assert(inside(oc.window->0[k], oc.levels));
                }
            }
        }
    }
    assert(rewritten(p.t, q, p.num, segs, p.new_rows()) is Ok);
    if p.col >= t.fields.len() {
        assert(p.touched().len() == 0);
    }
}

proof fn lemma_undeclared_cols(p: PasteV, k: nat)
    requires
        p.window is None,
    ensures
        output_cols(p, k) is Ok,
    decreases k,
{
    if k > 0 {
        lemma_undeclared_cols(p, (k - 1) as nat);
        let c = k - 1 - p.col;
        assert(p.entry(c) is None);
    }
}

proof fn lemma_no_issues(p: PasteV, k: nat)
    requires
        p.window is None,
    ensures
        scale_issues(p, k) is None,
        remap_issues(p, k) is None,
    decreases k,
{
    if k > 0 {
        lemma_no_issues(p, (k - 1) as nat);
        assert(p.entry(k - 1) is None);
    }
}

/// A paste that declares nothing is accepted exactly where its block can be read and there is
/// room for it, and, if it lands on columns of the table, what it replaces can be sent.
#[verifier::rlimit(60)]
pub proof fn law_plain_pastes_are_accepted(
    t: TableV,
    num: NumeralsV,
    job: EditJob,
    w: Result<Seq<u8>, Seq<char>>,
)
    requires
        regular(t),
        job.edit is InsertBlock,
        job.edit->InsertBlock_target_schema is None,
    ensures
        edit_outcome(t, num, job, w) is Ok <==> parsed(job.tail@) is Ok
            && job.edit->InsertBlock_row + block(job).len() <= MAX_ROWS
            && job.edit->InsertBlock_col + block(job)[0].len() <= u64::MAX && (sendable(w)
            || job.edit->InsertBlock_col >= t.fields.len()),
{
    let row = job.edit->InsertBlock_row;
    let col = job.edit->InsertBlock_col;
    crate::serve::lemma_supported(t.fields);
    let asked = paste_asked(t, num, job.ingest, row, col, None, job.tail@);
    assert(edit_outcome(t, num, job, w) is Ok ==> asked is Ok);
    if asked is Ok {
        law_asked_pastes_are_in_order(t, num, job.ingest, row, col, None, job.tail@);
        let p = asked->Ok_0;
        assert(edit_outcome(t, num, job, w) == paste_outcome(p, job.revision, w));
        lemma_undeclared_cols(p, p.new_cols());
        lemma_no_issues(p, p.width());
        if p.row + p.height() <= MAX_ROWS && p.col + p.width() <= u64::MAX && (sendable(w)
            || p.col >= t.fields.len()) {
            lemma_lands(p, job.revision, w);
        }
        if paste_outcome(p, job.revision, w) is Ok {
            lemma_pasted(p, job.revision, w);
            if col < t.fields.len() {
                assert(p.touched().len() > 0);
            }
        }
    }
}

/// What a paste may declare for a column that it lands on: its name and its type as they are,
/// no other names and no labels, and levels where it has some.
pub open spec fn may_echo(e: JsonV, name: Seq<char>, kind: KindV) -> bool {
    &&& !e->Object_0.contains_key("labels"@)
    &&& given(e, "name"@) ==> at(e, "name"@) == JsonV::Str(name)
    &&& !given(e, "display_name"@)
    &&& given(e, "type"@) ==> at(e, "type"@) is Str && is_of_type(kind, at(e, "type"@)->Str_0)
    &&& given(e, "levels"@) ==> kind is Dictionary
}

/// A paste is accepted only where what it declares for the columns that it lands on is what they
/// are. Where it declares a scale, only numbers are pasted.
#[verifier::rlimit(60)]
pub proof fn law_declarations_echo_the_columns(
    t: TableV,
    num: NumeralsV,
    job: EditJob,
    w: Result<Seq<u8>, Seq<char>>,
    c: int,
)
    requires
        pastes(t, num, job, w),
        0 <= c < block(job)[0].len() <= u64::MAX,
        job.edit->InsertBlock_col + c < t.fields.len(),
        declared(job, c) is Object,
    ensures
        ({
            let f = t.fields[job.edit->InsertBlock_col + c];
            &&& may_echo(declared(job, c), f.name, f.kind)
            &&& declares(job, c, "type"@) && f.kind is Float64 ==> pastes_numbers(job, num, c)
        }),
{
    lemma_types_differ();
    let p = lemma_paste_entry(t, num, job, w, c);
    let j = p.col + c;
    let f = t.fields[j];
    assert(f.level() is Some);
    lemma_covered_entry(t, num, job, w, p, c);
    if declares(job, c, "type"@) && f.kind is Float64 {
        crate::block_laws::lemma_pastes_numbers(p, job, c);
        lemma_scale_issue_none(p, p.width(), c);
        lemma_pasted(p, job.revision, w);
    }
}

proof fn lemma_scale_issue_none(p: PasteV, k: nat, c: int)
    requires
        scale_issues(p, k) is None,
        0 <= c < k,
    ensures
        crate::edit_block::scale_issue(p, c) is None,
    decreases k,
{
    if c < k - 1 {
        lemma_scale_issue_none(p, (k - 1) as nat, c);
    }
}

proof fn lemma_covered_entry(
    t: TableV,
    num: NumeralsV,
    job: EditJob,
    w: Result<Seq<u8>, Seq<char>>,
    p: PasteV,
    c: int,
)
    requires
        pastes(t, num, job, w),
        p == paste_asked(
            t,
            num,
            job.ingest,
            job.edit->InsertBlock_row,
            job.edit->InsertBlock_col,
            opt_json(job.edit->InsertBlock_target_schema),
            job.tail@,
        )->Ok_0,
        0 <= c < p.width() <= u64::MAX,
        p.entry(c) is Some,
        p.col + c < t.fields.len(),
    ensures
        crate::window::covered_issue(p.entry(c)->0, c as u64, t.fields[p.col + c]) is None,
{
    let v = job.edit->InsertBlock_target_schema->0;
    let a = v@->Array_0;
    crate::serve::lemma_supported(t.fields);
    crate::block_laws::lemma_window_at(a, p.col, t.fields, c);
}

/// A paste that declares something declares it as a list with an entry for each pasted column,
/// null or an object. Levels are declared for a column that it lands on only where all levels
/// that the column has could be seen, unless the table has no rows.
#[verifier::rlimit(60)]
pub proof fn law_declarations_cover_the_block(
    t: TableV,
    num: NumeralsV,
    job: EditJob,
    w: Result<Seq<u8>, Seq<char>>,
    c: int,
)
    requires
        pastes(t, num, job, w),
        0 <= c < block(job)[0].len() <= u64::MAX,
        job.edit->InsertBlock_target_schema is Some,
    ensures
        ({
            let v = job.edit->InsertBlock_target_schema->0@;
            let j = job.edit->InsertBlock_col + c;
            &&& v is Array
            &&& v->Array_0.len() == block(job)[0].len()
            &&& declared(job, c) is Null || declared(job, c) is Object
            &&& j < t.fields.len() && declares(job, c, "levels"@) && t.rows > 0
                ==> t.dicts[j].to_set().len() <= 10_000
        }),
{
    let p = lemma_paste_entry(t, num, job, w, c);
    crate::block_laws::lemma_entry(t, num, job, w, p, c);
    lemma_pasted(p, job.revision, w);
    if p.remaps(c) {
        crate::undo_block::lemma_remap_issue_none(p, p.width(), c);
    }
}

/// A column that a paste creates is accepted only where the declaration gives it a name that no
/// column has and no labels, and, for a scale, no levels and only numbers are pasted.
#[verifier::rlimit(60)]
pub proof fn law_declarations_of_created_columns(
    t: TableV,
    num: NumeralsV,
    job: EditJob,
    w: Result<Seq<u8>, Seq<char>>,
    c: int,
)
    requires
        pastes(t, num, job, w),
        0 <= c < block(job)[0].len() <= u64::MAX,
        job.edit->InsertBlock_col + c >= t.fields.len(),
        declared(job, c) is Object,
    ensures
        ({
            let e = declared(job, c);
            &&& !e->Object_0.contains_key("labels"@)
            &&& given(e, "name"@) && at(e, "name"@) is Str
            &&& forall|i: int|
                0 <= i < t.fields.len() ==> JsonV::Str((#[trigger] t.fields[i]).name) != at(
                    e,
                    "name"@,
                )
            &&& given(e, "type"@) && at(e, "type"@) == JsonV::Str("scale"@) ==> !given(
                e,
                "levels"@,
            ) && pastes_numbers(job, num, c)
        }),
{
    lemma_types_differ();
    let p = lemma_paste_entry(t, num, job, w, c);
    let g = edit_outcome(t, num, job, w)->Ok_0.table;
    let v = job.edit->InsertBlock_target_schema->0;
    let a = v@->Array_0;
    crate::serve::lemma_supported(t.fields);
    crate::block_laws::lemma_window_at(a, p.col, t.fields, c);
    lemma_pasted(p, job.revision, w);
    crate::block_laws::lemma_pastes_numbers(p, job, c);
    let used = crate::block_laws::lemma_created_at(p, job.revision, w, c);
    assert(created_col(p, c, used) is Ok);
}

/// An edit of a table with a column that has no measurement level fails underneath: nothing is
/// refused and nothing lands.
#[verifier::rlimit(60)]
pub proof fn law_foreign_columns_stop_edits(
    t: TableV,
    num: NumeralsV,
    job: EditJob,
    w: Result<Seq<u8>, Seq<char>>,
    j: int,
)
    requires
        0 <= j < t.fields.len(),
        t.fields[j].kind is Other,
    ensures
        edit_outcome(t, num, job, w) is Err,
        edit_outcome(t, num, job, w)->Err_0 is Fatal,
{
    lemma_foreign(t.fields, j);
}

proof fn lemma_foreign(fields: Seq<crate::table::FieldV>, j: int)
    requires
        0 <= j < fields.len(),
        fields[j].kind is Other,
    ensures
        crate::serve::first_foreign(fields) is Some,
    decreases fields.len(),
{
    if j < fields.len() - 1 {
        assert(fields.drop_last()[j] == fields[j]);
        lemma_foreign(fields.drop_last(), j);
    }
}

} // verus!
