//! What a pasted block makes of a table, cell by cell and column by column.
use vstd::prelude::*;
use crate::block::parsed;
use crate::change_laws::{at, given, lemma_shown_from};
use crate::edit_block::{
    covered_col, created_col, output_col, output_cols, paste_outcome, plan_names, promoted_texts,
    types_change, PasteV,
};
use crate::edit_laws::{is_of_type, lemma_named, lemma_types_differ, named_for};
use crate::json::JsonV;
use crate::levels::{deduped, lemma_deduped, lemma_prebuilt, prebuilt};
use crate::names::new_name;
use crate::number::{finite, integral, unified, NumeralsV};
use crate::order_laws::{in_level_order, lemma_prebuilt_in_order};
use crate::outcome::EditJob;
use crate::paste::{
    canonical_dict, decided, extended, first_unparsed, level_key, level_keys, shown, somes, typed,
};
use crate::paste_laws::{
    law_paste_fills_with_nulls, law_paste_keeps_the_rest, law_paste_only_adds_levels,
    law_paste_writes_the_block, numbered_levels, reading,
};
use crate::serve::{edit_outcome, opt_json, paste_asked};
use crate::table::{cell_fits, level_kind, KindV, TableV};
use crate::text::{distinct, texts};
use crate::undo::regular;
use crate::undo_block::{lemma_output_at, lemma_pasted, pastable};
use crate::undo_laws::law_asked_pastes_are_in_order;
use crate::wire::{lemma_numbers, numbers, only_integers};
use crate::window::{entry_of, window_entries, window_entry, EntryV};

verus! {

/// The cells that an edit pastes: each a text, and whether it is the null marker.
pub open spec fn block(job: EditJob) -> Seq<Seq<(Seq<char>, bool)>> {
    parsed(job.tail@)->Ok_0
}

/// A pasted cell stands for no value: it is the null marker, or spelled as the import's nulls
/// are.
pub open spec fn stands_for_null(job: EditJob, r: int, c: int) -> bool {
    block(job)[r][c].1 || exists|i: int|
        0 <= i < job.ingest.nulls@.len() && (#[trigger] job.ingest.nulls@[i])@
            == block(job)[r][c].0
}

/// What an edit declares for pasted column `c`; null where it declares nothing.
pub open spec fn declared(job: EditJob, c: int) -> JsonV {
    match job.edit->InsertBlock_target_schema {
        Some(v) => v@->Array_0[c],
        None => JsonV::Null,
    }
}

/// Something is declared for pasted column `c` under a key.
pub open spec fn declares(job: EditJob, c: int, key: Seq<char>) -> bool {
    declared(job, c) is Object && given(declared(job, c), key)
}

/// A paste is under way that succeeds.
pub open spec fn pastes(
    t: TableV,
    num: NumeralsV,
    job: EditJob,
    w: Result<Seq<u8>, Seq<char>>,
) -> bool {
    &&& regular(t)
    &&& job.edit is InsertBlock
    &&& edit_outcome(t, num, job, w) is Ok
    &&& numbered_levels(edit_outcome(t, num, job, w)->Ok_0.table)
}

/// Pasted row `r` and column `c` are within the block.
pub open spec fn in_block(job: EditJob, r: int, c: int) -> bool {
    0 <= r < block(job).len() && 0 <= c < block(job)[0].len()
}

/// The paste that an edit asks for.
#[verifier::rlimit(60)]
pub proof fn lemma_paste(
    t: TableV,
    num: NumeralsV,
    job: EditJob,
    w: Result<Seq<u8>, Seq<char>>,
) -> (p: PasteV)
    requires
        pastes(t, num, job, w),
    ensures
        edit_outcome(t, num, job, w) == paste_outcome(p, job.revision, w),
        parsed(job.tail@) is Ok,
        pastable(p),
        p.t == t,
        p.num == num,
        p.cells == block(job),
        p.nulls == texts(job.ingest.nulls@),
        p.threshold == job.ingest.threshold,
        p.sort_limit == job.ingest.sort_limit,
        p.row == job.edit->InsertBlock_row,
        p.col == job.edit->InsertBlock_col,
        forall|r: int| 0 <= r < p.height() ==> (#[trigger] p.cells[r]).len() == p.width(),
{
    let row = job.edit->InsertBlock_row;
    let col = job.edit->InsertBlock_col;
    let target = opt_json(job.edit->InsertBlock_target_schema);
    crate::serve::lemma_supported(t.fields);
    let asked = paste_asked(t, num, job.ingest, row, col, target, job.tail@);
    assert(asked is Ok);
    law_asked_pastes_are_in_order(t, num, job.ingest, row, col, target, job.tail@);
    crate::block::lemma_not_ragged(block(job));
    asked->Ok_0
}

/// What is declared for a pasted column is what its entry says.
#[verifier::rlimit(60)]
pub proof fn lemma_entry(
    t: TableV,
    num: NumeralsV,
    job: EditJob,
    w: Result<Seq<u8>, Seq<char>>,
    p: PasteV,
    c: int,
)
    requires
        pastes(t, num, job, w),
        p == paste_asked(
            t,
            num,
            job.ingest,
            job.edit->InsertBlock_row,
            job.edit->InsertBlock_col,
            opt_json(job.edit->InsertBlock_target_schema),
            job.tail@,
        )->Ok_0,
        0 <= c < p.width(),
        p.width() <= u64::MAX,
    ensures
        declared(job, c) is Null || declared(job, c) is Object,
        job.edit->InsertBlock_target_schema is Some
            ==> job.edit->InsertBlock_target_schema->0@ is Array
            && job.edit->InsertBlock_target_schema->0@->Array_0.len() == p.width(),
        p.entry(c) is Some <==> declared(job, c) is Object,
        p.entry(c) is Some ==> entry_of(declared(job, c)->Object_0, c as u64) == Ok::<
            EntryV,
            crate::messages::FailureV,
        >(p.entry(c)->0),
        p.entry(c) is Some && p.col + c < t.fields.len() && p.entry(c)->0.ty is Some
            ==> p.entry(c)->0.ty == t.fields[p.col + c].level(),
        p.entry(c) is Some && p.col + c >= t.fields.len() ==> p.entry(c)->0.name is Some,
{
    if let Some(v) = job.edit->InsertBlock_target_schema {
        let a = v@->Array_0;
        crate::serve::lemma_supported(t.fields);
        assert(v@ is Array);
        assert(a.len() == p.width());
        lemma_window_at(a, p.col, t.fields, c);
    }
}

pub proof fn lemma_window_at(a: Seq<JsonV>, col: u64, fields: Seq<crate::table::FieldV>, i: int)
    requires
        window_entries(a, col, fields) is Ok,
        a.len() <= u64::MAX,
        0 <= i < a.len(),
    ensures
        window_entries(a, col, fields)->Ok_0.len() == a.len(),
        exists|names: Seq<Seq<char>>|
            #[trigger] window_entry(a[i], i as u64, col, fields, names) == Ok::<
                Option<EntryV>,
                crate::messages::FailureV,
            >(window_entries(a, col, fields)->Ok_0[i]),
    decreases a.len(),
{
    crate::window::lemma_entries_len(a, col, fields);
    let d = a.drop_last();
    crate::window::lemma_entries_len(d, col, fields);
    let p = window_entries(a, col, fields)->Ok_0;
    let q = window_entries(d, col, fields)->Ok_0;
    if i < d.len() {
        lemma_window_at(d, col, fields, i);
        assert(d[i] == a[i]);
        assert(p[i] == q[i]);
        let names = choose|names: Seq<Seq<char>>|
            #[trigger] window_entry(d[i], i as u64, col, fields, names) == Ok::<
                Option<EntryV>,
                crate::messages::FailureV,
            >(q[i]);
        assert(window_entry(a[i], i as u64, col, fields, names) == Ok::<
            Option<EntryV>,
            crate::messages::FailureV,
        >(p[i]));
    } else {
        let names = crate::window::declared_names(q, col, fields.len());
        assert(window_entry(a[i], i as u64, col, fields, names) == Ok::<
            Option<EntryV>,
            crate::messages::FailureV,
        >(p[i]));
    }
}

pub proof fn lemma_reads(p: PasteV, job: EditJob, r: int, c: int)
    requires
        p.cells == block(job),
        p.nulls == texts(job.ingest.nulls@),
        in_block(job, r, c),
    ensures
        p.reads(c).len() == p.height(),
        p.reads(c)[r] == if stands_for_null(job, r, c) {
            None
        } else {
            Some(block(job)[r][c].0)
        },
{
    let s = block(job)[r][c].0;
    if p.nulls.contains(s) {
        let i = p.nulls.index_of(s);
        assert(job.ingest.nulls@[i]@ == s);
    }
    if exists|i: int|
        0 <= i < job.ingest.nulls@.len() && (#[trigger] job.ingest.nulls@[i])@ == s {
        let i = choose|i: int|
            0 <= i < job.ingest.nulls@.len() && (#[trigger] job.ingest.nulls@[i])@ == s;
        assert(p.nulls[i] == s);
    }
}

/// A table that a block was pasted into has room for the block and for what was there, and
/// nothing more.
#[verifier::rlimit(60)]
pub proof fn law_pasted_tables_have_room(
    t: TableV,
    num: NumeralsV,
    job: EditJob,
    w: Result<Seq<u8>, Seq<char>>,
)
    requires
        pastes(t, num, job, w),
    ensures
        ({
            let o = edit_outcome(t, num, job, w)->Ok_0;
            let bottom = job.edit->InsertBlock_row + block(job).len();
            let right = job.edit->InsertBlock_col + block(job)[0].len();
            &&& parsed(job.tail@) is Ok
            &&& o.table.rows == if bottom > t.rows {
                bottom
            } else {
                t.rows as int
            }
            &&& o.rows == o.table.rows
            &&& o.table.fields.len() == if right > t.fields.len() {
                right
            } else {
                t.fields.len() as int
            }
            &&& o.table.wf()
            &&& o.table.supported()
        }),
{
    let p = lemma_paste(t, num, job, w);
    lemma_pasted(p, job.revision, w);
}

/// A pasted cell is null wherever the pasted text is the null marker or one of the null
/// spellings of the import, and is not null anywhere else. A scale holds the number that the
/// text spells; a categorical column reads as the text, or as the plain spelling of its number
/// where the locale is not the plain one.
#[verifier::rlimit(60)]
pub proof fn law_pasted_cells_are_what_was_pasted(
    t: TableV,
    num: NumeralsV,
    job: EditJob,
    w: Result<Seq<u8>, Seq<char>>,
    r: int,
    c: int,
)
    requires
        pastes(t, num, job, w),
        in_block(job, r, c),
    ensures
        ({
            let g = edit_outcome(t, num, job, w)->Ok_0.table;
            let i = job.edit->InsertBlock_row + r;
            let j = job.edit->InsertBlock_col + c;
            let s = block(job)[r][c].0;
            if stands_for_null(job, r, c) {
                g.cols[j][i] is None
            } else if g.fields[j].kind is Dictionary {
                reading(g, num, j, i) == Some(s) || (num.active && reading(g, num, j, i) == Some(
                    num.canon(s),
                ))
            } else {
                num.parse(s) is Some && g.cols[j][i] == num.parse(s)
            }
        }),
{
    let p = lemma_paste(t, num, job, w);
    let g = edit_outcome(t, num, job, w)->Ok_0.table;
    let j = p.col + c;
    lemma_reads(p, job, r, c);
    law_paste_writes_the_block(p, job.revision, w, c, r);
    lemma_pasted(p, job.revision, w);
    lemma_output_at(p, p.new_cols(), j);
    let q = output_cols(p, p.new_cols())->Ok_0.0;
    assert(g.fields[j] == q[j].field);
    if !stands_for_null(job, r, c) && !(g.fields[j].kind is Dictionary) {
        assert(g.fields[j].level() is Some);
        lemma_numbers_only(p, c, j);
        lemma_parses(p.reads(c), num, r);
    }
}

/// A pasted column that becomes a scale, or stays one, holds numbers only.
proof fn lemma_numbers_only(p: PasteV, c: int, j: int)
    requires
        output_cols(p, p.new_cols()) is Ok,
        pastable(p),
        0 <= c < p.width(),
        j == p.col + c,
        j < p.new_cols(),
        output_cols(p, p.new_cols())->Ok_0.0[j].field.kind is Float64,
    ensures
        first_unparsed(p.reads(c), p.num) is None,
{
    lemma_output_at(p, p.new_cols(), j);
    let q = output_cols(p, p.new_cols())->Ok_0.0;
    if j < p.t.fields.len() {
        if p.remaps(c) {
            assert(!p.t.fields[p.col + c].is_scale());
        }
    } else {
        assert(created_col(p, c, plan_names(q.take(j))) is Ok);
    }
}

proof fn lemma_parses(ts: Seq<Option<Seq<char>>>, num: NumeralsV, r: int)
    requires
        first_unparsed(ts, num) is None,
        0 <= r < ts.len(),
        ts[r] is Some,
    ensures
        num.parse(ts[r]->0) is Some,
    decreases ts.len(),
{
    if r < ts.len() - 1 {
        assert(ts.drop_last()[r] == ts[r]);
        lemma_parses(ts.drop_last(), num, r);
    }
}

proof fn lemma_all_parse(ts: Seq<Option<Seq<char>>>, num: NumeralsV)
    requires
        forall|r: int|
            0 <= r < ts.len() && (#[trigger] ts[r]) is Some ==> num.parse(ts[r]->0) is Some,
    ensures
        first_unparsed(ts, num) is None,
    decreases ts.len(),
{
    if ts.len() > 0 {
        let d = ts.drop_last();
        assert forall|r: int| 0 <= r < d.len() && (#[trigger] d[r]) is Some implies num.parse(
            d[r]->0,
        ) is Some by {
            assert(ts[r] == d[r]);
        }
        lemma_all_parse(d, num);
        let m = ts.len() - 1;
        assert(ts[m] == ts.last());
    }
}

/// Every pasted text of a column is a number or stands for null.
pub open spec fn pastes_numbers(job: EditJob, num: NumeralsV, c: int) -> bool {
    forall|r: int|
        0 <= r < block(job).len() && !(#[trigger] stands_for_null(job, r, c)) ==> num.parse(
            block(job)[r][c].0,
        ) is Some
}

pub proof fn lemma_pastes_numbers(p: PasteV, job: EditJob, c: int)
    requires
        p.cells == block(job),
        p.nulls == texts(job.ingest.nulls@),
        0 <= c < p.width(),
    ensures
        pastes_numbers(job, p.num, c) <==> first_unparsed(p.reads(c), p.num) is None,
{
    let ts = p.reads(c);
    if pastes_numbers(job, p.num, c) {
        assert forall|r: int| 0 <= r < ts.len() && (#[trigger] ts[r]) is Some implies p.num.parse(
            ts[r]->0,
        ) is Some by {
            lemma_reads(p, job, r, c);
        }
        lemma_all_parse(ts, p.num);
    }
    if first_unparsed(ts, p.num) is None {
        assert forall|r: int|
            0 <= r < block(job).len() && !(#[trigger] stands_for_null(
                job,
                r,
                c,
            )) implies p.num.parse(block(job)[r][c].0) is Some by {
            lemma_reads(p, job, r, c);
            lemma_parses(ts, p.num, r);
        }
    }
}

/// A scale that numbers and null spellings are pasted onto stays a scale; any other text makes
/// it a nominal column without labels. Either way it keeps its names.
#[verifier::rlimit(60)]
pub proof fn law_pasted_scales_stay_scales(
    t: TableV,
    num: NumeralsV,
    job: EditJob,
    w: Result<Seq<u8>, Seq<char>>,
    c: int,
)
    requires
        pastes(t, num, job, w),
        0 <= c < block(job)[0].len(),
        job.edit->InsertBlock_col + c < t.fields.len(),
        t.fields[job.edit->InsertBlock_col + c].kind is Float64,
    ensures
        ({
            let g = edit_outcome(t, num, job, w)->Ok_0.table;
            let j = job.edit->InsertBlock_col + c;
            let f = g.fields[j];
            &&& f.kind == if pastes_numbers(job, num, c) {
                KindV::Float64
            } else {
                KindV::Dictionary { ordered: false }
            }
            &&& f.name == t.fields[j].name
            &&& f.display == t.fields[j].display
            &&& f.labels =~= Map::<Seq<char>, Seq<char>>::empty()
            &&& pastes_numbers(job, num, c) ==> g.dicts[j].len() == 0
            &&& f.all_integer == (pastes_numbers(job, num, c) && t.fields[j].all_integer
                && pastes_integers(job, num, c))
        }),
{
    let p = lemma_paste(t, num, job, w);
    let g = edit_outcome(t, num, job, w)->Ok_0.table;
    let j = p.col + c;
    lemma_pasted(p, job.revision, w);
    lemma_output_at(p, p.new_cols(), j);
    lemma_pastes_numbers(p, job, c);
    if p.remaps(c) {
        assert(!p.t.fields[p.col + c].is_scale());
    }
    assert(output_col(p, j, plan_names(output_cols(p, p.new_cols())->Ok_0.0.take(j)))
        == covered_col(p, c));
    assert(g.fields[j] == covered_col(p, c)->Ok_0.0.field);
    assert(g.dicts[j] == covered_col(p, c)->Ok_0.0.levels);
    if pastes_numbers(job, num, c) {
        lemma_pasted_values(p, job, c);
    }
}

/// A categorical column that a block is pasted onto keeps its type, names and labels. It has
/// exactly the levels that are declared for it, in that order; without a declaration it keeps
/// its own as they stand and new ones follow.
#[verifier::rlimit(60)]
pub proof fn law_pasted_categories_stay_categories(
    t: TableV,
    num: NumeralsV,
    job: EditJob,
    w: Result<Seq<u8>, Seq<char>>,
    c: int,
)
    requires
        pastes(t, num, job, w),
        0 <= c < block(job)[0].len() <= u64::MAX,
        job.edit->InsertBlock_col + c < t.fields.len(),
        t.fields[job.edit->InsertBlock_col + c].kind is Dictionary,
    ensures
        ({
            let g = edit_outcome(t, num, job, w)->Ok_0.table;
            let j = job.edit->InsertBlock_col + c;
            let a = at(declared(job, c), "levels"@)->Array_0;
            &&& g.fields[j] == t.fields[j]
            &&& if declares(job, c, "levels"@) {
                &&& at(declared(job, c), "levels"@) is Array
                &&& g.dicts[j].len() == a.len()
                &&& forall|i: int|
                    0 <= i < a.len() ==> #[trigger] a[i] == JsonV::Str(g.dicts[j][i])
                &&& distinct(g.dicts[j])
            } else {
                t.dicts[j].is_prefix_of(g.dicts[j])
            }
        }),
{
    let p = lemma_paste_entry(t, num, job, w, c);
    let g = edit_outcome(t, num, job, w)->Ok_0.table;
    let j = p.col + c;
    lemma_pasted(p, job.revision, w);
    lemma_output_at(p, p.new_cols(), j);
    assert(output_col(p, j, plan_names(output_cols(p, p.new_cols())->Ok_0.0.take(j)))
        == covered_col(p, c));
    assert(g.fields[j] == covered_col(p, c)->Ok_0.0.field);
    assert(g.dicts[j] == covered_col(p, c)->Ok_0.0.levels);
    if !p.remaps(c) {
        law_paste_only_adds_levels(p, job.revision, w, j);
    }
}

#[verifier::rlimit(60)]
pub proof fn lemma_paste_entry(
    t: TableV,
    num: NumeralsV,
    job: EditJob,
    w: Result<Seq<u8>, Seq<char>>,
    c: int,
) -> (p: PasteV)
    requires
        pastes(t, num, job, w),
        0 <= c < block(job)[0].len() <= u64::MAX,
    ensures
        p == paste_asked(
            t,
            num,
            job.ingest,
            job.edit->InsertBlock_row,
            job.edit->InsertBlock_col,
            opt_json(job.edit->InsertBlock_target_schema),
            job.tail@,
        )->Ok_0,
        edit_outcome(t, num, job, w) == paste_outcome(p, job.revision, w),
        pastable(p),
        p.t == t,
        p.num == num,
        p.cells == block(job),
        p.nulls == texts(job.ingest.nulls@),
        p.threshold == job.ingest.threshold,
        p.row == job.edit->InsertBlock_row,
        p.col == job.edit->InsertBlock_col,
        p.entry(c) is Some <==> declared(job, c) is Object,
        p.entry(c) is Some ==> entry_of(declared(job, c)->Object_0, c as u64) == Ok::<
            EntryV,
            crate::messages::FailureV,
        >(p.entry(c)->0),
        p.entry(c) is Some && p.col + c >= t.fields.len() ==> p.entry(c)->0.name is Some,
{
    let p = lemma_paste(t, num, job, w);
    let row = job.edit->InsertBlock_row;
    let col = job.edit->InsertBlock_col;
    let target = opt_json(job.edit->InsertBlock_target_schema);
    crate::serve::lemma_supported(t.fields);
    let q = paste_asked(t, num, job.ingest, row, col, target, job.tail@)->Ok_0;
    law_asked_pastes_are_in_order(t, num, job.ingest, row, col, target, job.tail@);
    lemma_entry(t, num, job, w, q, c);
    q
}

/// Some pasted text of a column stands for a value.
pub open spec fn pastes_something(job: EditJob, c: int) -> bool {
    exists|r: int| 0 <= r < block(job).len() && !(#[trigger] stands_for_null(job, r, c))
}

/// Every pasted number of a column is an integer.
pub open spec fn pastes_integers(job: EditJob, num: NumeralsV, c: int) -> bool {
    forall|r: int|
        0 <= r < block(job).len() && !(#[trigger] stands_for_null(job, r, c)) ==> integral(
            num.parse(block(job)[r][c].0)->0,
        )
}

/// The finite numbers that are pasted into a column, the two zeros taken for one.
pub open spec fn pasted_values(job: EditJob, num: NumeralsV, c: int) -> Set<u64> {
    Set::new(
        |b: u64|
            exists|r: int|
                0 <= r < block(job).len() && !(#[trigger] stands_for_null(job, r, c)) && finite(
                    num.parse(block(job)[r][c].0)->0,
                ) && b == unified(num.parse(block(job)[r][c].0)->0),
    )
}

/// A column that a paste creates is of the type that is declared for it. Without a declaration
/// the texts decide: a text that is no number, or no text at all, makes it nominal; integers of
/// no more distinct values than the threshold make it ordinal; other numbers make it a scale.
/// A scale is marked as one of integers where numbers are pasted and all of them are.
#[verifier::rlimit(60)]
pub proof fn law_created_columns_have_the_type_declared(
    t: TableV,
    num: NumeralsV,
    job: EditJob,
    w: Result<Seq<u8>, Seq<char>>,
    c: int,
)
    requires
        pastes(t, num, job, w),
        0 <= c < block(job)[0].len() <= u64::MAX,
        job.edit->InsertBlock_col + c >= t.fields.len(),
    ensures
        ({
            let g = edit_outcome(t, num, job, w)->Ok_0.table;
            let f = g.fields[job.edit->InsertBlock_col + c];
            &&& f.labels =~= Map::<Seq<char>, Seq<char>>::empty()
            &&& f.all_integer == (f.kind is Float64 && pastes_something(job, c)
                && pastes_integers(job, num, c))
            &&& if declares(job, c, "type"@) {
                at(declared(job, c), "type"@) is Str && is_of_type(
                    f.kind,
                    at(declared(job, c), "type"@)->Str_0,
                )
            } else if !pastes_something(job, c) || !pastes_numbers(job, num, c) {
                f.kind == KindV::Dictionary { ordered: false }
            } else if pastes_integers(job, num, c) && pasted_values(job, num, c).len()
                <= job.ingest.threshold {
                f.kind == KindV::Dictionary { ordered: true }
            } else {
                f.kind is Float64
            }
        }),
{
    let p = lemma_paste_entry(t, num, job, w, c);
    let g = edit_outcome(t, num, job, w)->Ok_0.table;
    let j = p.col + c;
    lemma_types_differ();
    let used = lemma_created_at(p, job.revision, w, c);
    assert(g.fields[j] == created_col(p, c, used)->Ok_0.field);
    lemma_pastes_numbers(p, job, c);
    lemma_something(p, job, c);
    if pastes_numbers(job, num, c) {
        lemma_pasted_values(p, job, c);
    }
    lemma_created_kind(p, c, used);
    lemma_created_integers(p, c, used);
    lemma_somes_len(p.reads(c));
    if g.fields[j].kind is Float64 {
        lemma_typed_somes(p.reads(c), num);
    }
}

/// A created scale holds integers only, and some.
proof fn lemma_created_integers(p: PasteV, c: int, used: Seq<Seq<char>>)
    requires
        created_col(p, c, used) is Ok,
    ensures
        ({
            let f = created_col(p, c, used)->Ok_0.field;
            let cells = typed(p.reads(c), p.num);
            &&& f.kind is Float64 ==> first_unparsed(p.reads(c), p.num) is None
            &&& f.kind is Float64 ==> f.all_integer == (only_integers(cells) && ((somes(
                p.reads(c),
            ).len() > 0 && !(p.entry(c) is Some && p.entry(c)->0.ty is Some)) || exists|k: int|
                0 <= k < cells.len() && (#[trigger] cells[k]) is Some))
            &&& !(f.kind is Float64) ==> !f.all_integer
        }),
{
}

proof fn lemma_typed_somes(ts: Seq<Option<Seq<char>>>, num: NumeralsV)
    requires
        first_unparsed(ts, num) is None,
    ensures
        (exists|k: int| 0 <= k < ts.len() && (#[trigger] ts[k]) is Some) <==> (exists|k: int|
            0 <= k < typed(ts, num).len() && (#[trigger] typed(ts, num)[k]) is Some),
{
    let cells = typed(ts, num);
    if exists|k: int| 0 <= k < ts.len() && (#[trigger] ts[k]) is Some {
        let k = choose|k: int| 0 <= k < ts.len() && (#[trigger] ts[k]) is Some;
        lemma_parses(ts, num, k);
        assert(cells[k] is Some);
    }
    if exists|k: int| 0 <= k < cells.len() && (#[trigger] cells[k]) is Some {
        let k = choose|k: int| 0 <= k < cells.len() && (#[trigger] cells[k]) is Some;
        assert(ts[k] is Some);
    }
}

#[verifier::rlimit(60)]
pub proof fn lemma_created_at(
    p: PasteV,
    revision: u64,
    w: Result<Seq<u8>, Seq<char>>,
    c: int,
) -> (used: Seq<Seq<char>>)
    requires
        pastable(p),
        paste_outcome(p, revision, w) is Ok,
        0 <= c < p.width(),
        p.col + c >= p.t.fields.len(),
    ensures
        ({
            let g = paste_outcome(p, revision, w)->Ok_0.table;
            let x = created_col(p, c, used);
            &&& x is Ok
            &&& g.fields[p.col + c] == x->Ok_0.field
            &&& g.dicts[p.col + c] == x->Ok_0.levels
            &&& used.len() == p.col + c
            &&& forall|i: int| 0 <= i < used.len() ==> #[trigger] used[i] == g.fields[i].name
        }),
{
    let j = p.col + c;
    lemma_pasted(p, revision, w);
    lemma_output_at(p, p.new_cols(), j);
    let q = output_cols(p, p.new_cols())->Ok_0.0;
    let g = paste_outcome(p, revision, w)->Ok_0.table;
    assert(created_col(p, c, plan_names(q.take(j))) is Ok);
    assert forall|i: int| 0 <= i < j implies #[trigger] plan_names(q.take(j))[i]
        == g.fields[i].name by {
        assert(g.fields[i] == q[i].field);
    }
    plan_names(q.take(j))
}

proof fn lemma_created_kind(p: PasteV, c: int, used: Seq<Seq<char>>)
    requires
        created_col(p, c, used) is Ok,
    ensures
        ({
            let f = created_col(p, c, used)->Ok_0.field;
            let e = p.entry(c);
            let l = if e is Some && e->0.ty is Some {
                e->0.ty->0
            } else {
                decided(p.reads(c), p.num, p.threshold)
            };
            f.kind == level_kind(l) && f.labels =~= Map::<Seq<char>, Seq<char>>::empty()
        }),
{
}

proof fn lemma_something(p: PasteV, job: EditJob, c: int)
    requires
        p.cells == block(job),
        p.nulls == texts(job.ingest.nulls@),
        0 <= c < p.width(),
    ensures
        pastes_something(job, c) <==> somes(p.reads(c)).len() > 0,
{
    let ts = p.reads(c);
    lemma_somes_len(ts);
    if pastes_something(job, c) {
        let r = choose|r: int|
            0 <= r < block(job).len() && !(#[trigger] stands_for_null(job, r, c));
        lemma_reads(p, job, r, c);
        assert(ts[r] is Some);
    }
    if somes(ts).len() > 0 {
        let r = choose|r: int| 0 <= r < ts.len() && (#[trigger] ts[r]) is Some;
        lemma_reads(p, job, r, c);
        assert(!stands_for_null(job, r, c));
    }
}

proof fn lemma_somes_len(ts: Seq<Option<Seq<char>>>)
    ensures
        somes(ts).len() > 0 <==> exists|r: int| 0 <= r < ts.len() && (#[trigger] ts[r]) is Some,
    decreases ts.len(),
{
    if ts.len() > 0 {
        let d = ts.drop_last();
        lemma_somes_len(d);
        if exists|r: int| 0 <= r < d.len() && (#[trigger] d[r]) is Some {
            let r = choose|r: int| 0 <= r < d.len() && (#[trigger] d[r]) is Some;
            assert(ts[r] is Some);
        }
        if exists|r: int| 0 <= r < ts.len() && (#[trigger] ts[r]) is Some {
            let r = choose|r: int| 0 <= r < ts.len() && (#[trigger] ts[r]) is Some;
            if r < d.len() {
                assert(d[r] is Some);
            }
        }
        let m = ts.len() - 1;
        assert(ts[m] == ts.last());
    }
}

proof fn lemma_pasted_values(p: PasteV, job: EditJob, c: int)
    requires
        p.cells == block(job),
        p.nulls == texts(job.ingest.nulls@),
        0 <= c < p.width(),
        pastes_numbers(job, p.num, c),
    ensures
        pastes_integers(job, p.num, c) <==> only_integers(typed(p.reads(c), p.num)),
        pasted_values(job, p.num, c) == numbers(typed(p.reads(c), p.num)),
{
    let cells = typed(p.reads(c), p.num);
    assert forall|r: int| 0 <= r < block(job).len() implies (#[trigger] cells[r]) == (
    if stands_for_null(job, r, c) {
        None
    } else {
        p.num.parse(block(job)[r][c].0)
    }) by {
        lemma_reads(p, job, r, c);
    }
    if pastes_integers(job, p.num, c) {
        assert forall|i: int| 0 <= i < cells.len() && cells[i] is Some implies integral(
            #[trigger] cells[i]->0,
        ) by {
            assert(!stands_for_null(job, i, c));
        }
    }
    if only_integers(cells) {
        assert forall|r: int|
            0 <= r < block(job).len() && !(#[trigger] stands_for_null(job, r, c)) implies integral(
            p.num.parse(block(job)[r][c].0)->0,
        ) by {
            assert(cells[r] is Some);
        }
    }
    let values = pasted_values(job, p.num, c);
    assert forall|b: u64| values.contains(b) == #[trigger] numbers(cells).contains(b) by {
        lemma_numbers(cells, b);
        if values.contains(b) {
            let r = choose|r: int|
                0 <= r < block(job).len() && !(#[trigger] stands_for_null(job, r, c)) && finite(
                    p.num.parse(block(job)[r][c].0)->0,
                ) && b == unified(p.num.parse(block(job)[r][c].0)->0);
            assert(cells[r] is Some);
        }
        if numbers(cells).contains(b) {
            let r = choose|r: int|
                0 <= r < cells.len() && (#[trigger] cells[r]) is Some && finite(cells[r]->0) && b
                    == unified(cells[r]->0);
            assert(!stands_for_null(job, r, c));
        }
    }
    assert(values =~= numbers(cells));
}

/// A cell outside the block reads as it did, and one that was not there before is null.
#[verifier::rlimit(60)]
pub proof fn law_cells_outside_the_block_stay(
    t: TableV,
    num: NumeralsV,
    job: EditJob,
    w: Result<Seq<u8>, Seq<char>>,
    j: int,
    i: int,
)
    requires
        pastes(t, num, job, w),
        0 <= j < edit_outcome(t, num, job, w)->Ok_0.table.fields.len(),
        0 <= i < edit_outcome(t, num, job, w)->Ok_0.table.rows,
        !in_block(job, i - job.edit->InsertBlock_row, j - job.edit->InsertBlock_col),
    ensures
        ({
            let g = edit_outcome(t, num, job, w)->Ok_0.table;
            if j < t.fields.len() && i < t.rows {
                reading(g, num, j, i) == reading(t, num, j, i)
            } else {
                g.cols[j][i] is None
            }
        }),
{
    let p = lemma_paste(t, num, job, w);
    lemma_pasted(p, job.revision, w);
    if j < t.fields.len() && i < t.rows {
        law_paste_keeps_the_rest(p, job.revision, w, j, i);
    } else {
        law_paste_fills_with_nulls(p, job.revision, w, j, i);
    }
}

/// Columns beside the block stay what they are. Those that fill a gap before it are nominal,
/// without levels, and named by their place.
#[verifier::rlimit(60)]
pub proof fn law_columns_beside_the_block(
    t: TableV,
    num: NumeralsV,
    job: EditJob,
    w: Result<Seq<u8>, Seq<char>>,
    j: int,
)
    requires
        pastes(t, num, job, w),
        0 <= j < edit_outcome(t, num, job, w)->Ok_0.table.fields.len() < u64::MAX - 2,
        !(job.edit->InsertBlock_col <= j < job.edit->InsertBlock_col + block(job)[0].len()),
    ensures
        ({
            let g = edit_outcome(t, num, job, w)->Ok_0.table;
            if j < t.fields.len() {
                g.fields[j] == t.fields[j] && g.dicts[j] == t.dicts[j]
            } else {
                &&& g.fields[j].kind == KindV::Dictionary { ordered: false }
                &&& g.dicts[j].len() == 0
                &&& g.fields[j].display == g.fields[j].name
                &&& named_for(
                    g.fields[j].name,
                    Seq::empty(),
                    (j + 1) as nat,
                    |n: Seq<char>|
                        exists|i: int| 0 <= i < j && (#[trigger] g.fields[i]).name == n,
                )
            }
        }),
{
    let p = lemma_paste(t, num, job, w);
    let g = edit_outcome(t, num, job, w)->Ok_0.table;
    lemma_room(p, job.revision, w);
    let used = lemma_beside(p, job.revision, w, j);
    if j >= t.fields.len() {
        lemma_placed(g, used, Seq::empty(), j);
    }
}

proof fn lemma_room(p: PasteV, revision: u64, w: Result<Seq<u8>, Seq<char>>)
    requires
        pastable(p),
        paste_outcome(p, revision, w) is Ok,
    ensures
        paste_outcome(p, revision, w)->Ok_0.table.fields.len() == p.new_cols(),
{
    lemma_pasted(p, revision, w);
}

/// What a paste makes of a column beside its block, and the names before it.
#[verifier::rlimit(60)]
proof fn lemma_beside(p: PasteV, revision: u64, w: Result<Seq<u8>, Seq<char>>, j: int) -> (used:
    Seq<Seq<char>>)
    requires
        pastable(p),
        paste_outcome(p, revision, w) is Ok,
        0 <= j < p.new_cols(),
        !(p.col <= j < p.col + p.width()),
    ensures
        ({
            let g = paste_outcome(p, revision, w)->Ok_0.table;
            &&& g.fields.len() == p.new_cols()
            &&& used.len() == j
            &&& forall|i: int| 0 <= i < j ==> #[trigger] used[i] == g.fields[i].name
            &&& if j < p.t.fields.len() {
                g.fields[j] == p.t.fields[j] && g.dicts[j] == p.t.dicts[j]
            } else {
                &&& g.fields[j].kind == KindV::Dictionary { ordered: false }
                &&& g.dicts[j].len() == 0
                &&& g.fields[j].display == g.fields[j].name
                &&& g.fields[j].name == new_name(used, Seq::empty(), (j + 1) as u64)
            }
        }),
{
    lemma_pasted(p, revision, w);
    lemma_output_at(p, p.new_cols(), j);
    let g = paste_outcome(p, revision, w)->Ok_0.table;
    let q = output_cols(p, p.new_cols())->Ok_0.0;
    let used = plan_names(q.take(j));
    assert(g.fields[j] == q[j].field);
    assert(g.dicts[j] == q[j].levels);
    assert forall|i: int| 0 <= i < j implies #[trigger] used[i] == g.fields[i].name by {
        assert(g.fields[i] == q[i].field);
    }
    used
}

proof fn lemma_placed(g: TableV, used: Seq<Seq<char>>, wanted: Seq<char>, j: int)
    requires
        0 <= j < g.fields.len() < u64::MAX - 2,
        used.len() == j,
        forall|i: int| 0 <= i < j ==> #[trigger] used[i] == g.fields[i].name,
        g.fields[j].name == new_name(used, wanted, (j + 1) as u64),
    ensures
        named_for(
            g.fields[j].name,
            wanted,
            (j + 1) as nat,
            |n: Seq<char>| exists|i: int| 0 <= i < j && (#[trigger] g.fields[i]).name == n,
        ),
{
    let taken = |n: Seq<char>| exists|i: int| 0 <= i < j && (#[trigger] g.fields[i]).name == n;
    assert forall|n: Seq<char>| #[trigger] taken(n) == used.contains(n) by {
        if taken(n) {
            let i = choose|i: int| 0 <= i < j && (#[trigger] g.fields[i]).name == n;
            assert(used[i] == n);
        }
        if used.contains(n) {
            let i = used.index_of(n);
            assert(g.fields[i].name == n);
        }
    }
    lemma_named(used, wanted, (j + 1) as u64, taken);
}

/// A column that a paste creates has the name that is declared for it, which no column had, and
/// is shown under the declared display name, or else under its name. Without a declaration it is
/// named by its place.
#[verifier::rlimit(60)]
pub proof fn law_created_columns_have_the_name_declared(
    t: TableV,
    num: NumeralsV,
    job: EditJob,
    w: Result<Seq<u8>, Seq<char>>,
    c: int,
)
    requires
        pastes(t, num, job, w),
        0 <= c < block(job)[0].len() <= u64::MAX,
        job.edit->InsertBlock_col + c >= t.fields.len(),
        edit_outcome(t, num, job, w)->Ok_0.table.fields.len() < u64::MAX - 2,
    ensures
        ({
            let g = edit_outcome(t, num, job, w)->Ok_0.table;
            let j = job.edit->InsertBlock_col + c;
            let f = g.fields[j];
            let e = declared(job, c);
            if e is Object {
                &&& given(e, "name"@)
                &&& at(e, "name"@) == JsonV::Str(f.name)
                &&& forall|i: int| 0 <= i < j ==> (#[trigger] g.fields[i]).name != f.name
                &&& if given(e, "display_name"@) {
                    at(e, "display_name"@) == JsonV::Str(f.display)
                } else {
                    f.display == f.name
                }
            } else {
                &&& f.display == f.name
                &&& named_for(
                    f.name,
                    Seq::empty(),
                    (j + 1) as nat,
                    |n: Seq<char>|
                        exists|i: int| 0 <= i < j && (#[trigger] g.fields[i]).name == n,
                )
            }
        }),
{
    let p = lemma_paste_entry(t, num, job, w, c);
    let g = edit_outcome(t, num, job, w)->Ok_0.table;
    let j = p.col + c;
    lemma_pasted(p, job.revision, w);
    let used = lemma_created_at(p, job.revision, w, c);
    let nd = crate::edit_block::created_name(p, c, used);
    assert(nd is Ok && g.fields[j].name == nd->Ok_0.0 && g.fields[j].display == nd->Ok_0.1);
    if p.entry(c) is Some {
        assert forall|i: int| 0 <= i < j implies (#[trigger] g.fields[i]).name
            != g.fields[j].name by {
            assert(used[i] == g.fields[i].name);
        }
    } else {
        lemma_placed(g, used, Seq::empty(), j);
    }
}

/// A column that a paste creates as a categorical one has exactly the levels that are declared
/// for it. Without a declaration each of its levels is a pasted text, or, where the locale is
/// not the plain one and all texts are numbers, the plain spelling of one. A scale has none.
#[verifier::rlimit(60)]
pub proof fn law_created_columns_have_the_levels_declared(
    t: TableV,
    num: NumeralsV,
    job: EditJob,
    w: Result<Seq<u8>, Seq<char>>,
    c: int,
)
    requires
        pastes(t, num, job, w),
        0 <= c < block(job)[0].len() <= u64::MAX,
        job.edit->InsertBlock_col + c >= t.fields.len(),
    ensures
        ({
            let g = edit_outcome(t, num, job, w)->Ok_0.table;
            let j = job.edit->InsertBlock_col + c;
            let a = at(declared(job, c), "levels"@)->Array_0;
            let plain = num.active && pastes_numbers(job, num, c);
            if g.fields[j].kind is Float64 {
                g.dicts[j].len() == 0
            } else if declares(job, c, "type"@) && declares(job, c, "levels"@) {
                &&& at(declared(job, c), "levels"@) is Array
                &&& g.dicts[j].len() == a.len()
                &&& forall|i: int|
                    0 <= i < a.len() ==> #[trigger] a[i] == JsonV::Str(g.dicts[j][i])
            } else {
                &&& distinct(g.dicts[j])
                &&& forall|s: Seq<char>| #[trigger]
                    g.dicts[j].contains(s) <==> exists|r: int|
                        0 <= r < block(job).len() && !(#[trigger] stands_for_null(job, r, c)) && s
                            == if plain {
                            num.canon(block(job)[r][c].0)
                        } else {
                            block(job)[r][c].0
                        }
            }
        }),
{
    let p = lemma_paste_entry(t, num, job, w, c);
    let g = edit_outcome(t, num, job, w)->Ok_0.table;
    let j = p.col + c;
    let used = lemma_created_at(p, job.revision, w, c);
    lemma_created_levels(p, c, used);
    lemma_pastes_numbers(p, job, c);
    if !(g.fields[j].kind is Float64) && !(declares(job, c, "type"@) && declares(
        job,
        c,
        "levels"@,
    )) {
        let plain = num.active && pastes_numbers(job, num, c);
        let ts = p.reads(c);
        let keys = level_keys(plain, num, somes(ts));
        assert(g.dicts[j] == prebuilt(deduped(keys), num, p.sort_limit));
        lemma_deduped(keys);
        lemma_prebuilt(deduped(keys), num, p.sort_limit);
        assert forall|s: Seq<char>| #[trigger] g.dicts[j].contains(s) <==> exists|r: int|
            0 <= r < block(job).len() && !(#[trigger] stands_for_null(job, r, c)) && s == if plain {
                num.canon(block(job)[r][c].0)
            } else {
                block(job)[r][c].0
            } by {
            assert(g.dicts[j].contains(s) == keys.contains(s));
            lemma_keys_from(plain, num, ts, s);
            if keys.contains(s) {
                let r = choose|r: int|
                    0 <= r < ts.len() && (#[trigger] ts[r]) is Some && s == level_key(
                        plain,
                        num,
                        ts[r]->0,
                    );
                lemma_reads(p, job, r, c);
                assert(!stands_for_null(job, r, c));
            }
            if exists|r: int|
                0 <= r < block(job).len() && !(#[trigger] stands_for_null(job, r, c)) && s
                    == if plain {
                    num.canon(block(job)[r][c].0)
                } else {
                    block(job)[r][c].0
                } {
                let r = choose|r: int|
                    0 <= r < block(job).len() && !(#[trigger] stands_for_null(job, r, c)) && s
                        == if plain {
                        num.canon(block(job)[r][c].0)
                    } else {
                        block(job)[r][c].0
                    };
                lemma_reads(p, job, r, c);
                assert(ts[r] is Some);
            }
        }
    }
}

pub proof fn lemma_created_levels(p: PasteV, c: int, used: Seq<Seq<char>>)
    requires
        created_col(p, c, used) is Ok,
    ensures
        ({
            let x = created_col(p, c, used)->Ok_0;
            let e = p.entry(c);
            let canonical = p.num.active && first_unparsed(p.reads(c), p.num) is None;
            if x.field.kind is Float64 {
                x.levels.len() == 0
            } else if e is Some && e->0.ty is Some && e->0.levels is Some {
                x.levels == e->0.levels->0
            } else {
                x.levels == prebuilt(
                    deduped(level_keys(canonical, p.num, somes(p.reads(c)))),
                    p.num,
                    p.sort_limit,
                )
            }
        }),
{
}

pub proof fn lemma_keys_from(
    plain: bool,
    num: NumeralsV,
    ts: Seq<Option<Seq<char>>>,
    s: Seq<char>,
)
    ensures
        level_keys(plain, num, somes(ts)).contains(s) <==> exists|r: int|
            0 <= r < ts.len() && (#[trigger] ts[r]) is Some && s == level_key(
                plain,
                num,
                ts[r]->0,
            ),
    decreases ts.len(),
{
    let keys = level_keys(plain, num, somes(ts));
    if ts.len() > 0 {
        let d = ts.drop_last();
        let m = ts.len() - 1;
        let before = level_keys(plain, num, somes(d));
        lemma_keys_from(plain, num, d, s);
        assert(ts[m] == ts.last());
        if keys.contains(s) {
            let i = keys.index_of(s);
            if i < before.len() {
                assert(before[i] == s);
                let r = choose|r: int|
                    0 <= r < d.len() && (#[trigger] d[r]) is Some && s == level_key(
                        plain,
                        num,
                        d[r]->0,
                    );
                assert(ts[r] == d[r]);
            }
        }
        if exists|r: int|
            0 <= r < ts.len() && (#[trigger] ts[r]) is Some && s == level_key(
                plain,
                num,
                ts[r]->0,
            ) {
            let r = choose|r: int|
                0 <= r < ts.len() && (#[trigger] ts[r]) is Some && s == level_key(
                    plain,
                    num,
                    ts[r]->0,
                );
            if r < m {
                assert(d[r] == ts[r]);
                let i = before.index_of(s);
                assert(keys[i] == s);
            } else {
                assert(keys[keys.len() - 1] == s);
            }
        }
    }
}

/// Everything is stale exactly where a column was added or is of another kind of type, or the
/// levels of one were declared or became more. Otherwise the pasted rows are, and where the
/// table grew all rows from there on.
#[verifier::rlimit(60)]
pub proof fn law_pastes_say_what_is_stale(
    t: TableV,
    num: NumeralsV,
    job: EditJob,
    w: Result<Seq<u8>, Seq<char>>,
)
    requires
        pastes(t, num, job, w),
        block(job)[0].len() <= u64::MAX,
    ensures
        ({
            let o = edit_outcome(t, num, job, w)->Ok_0;
            let row = job.edit->InsertBlock_row;
            let col = job.edit->InsertBlock_col;
            let bottom = row + block(job).len();
            let all = o.table.fields.len() > t.fields.len() || (exists|j: int|
                0 <= j < t.fields.len() && ((#[trigger] t.fields[j]).kind is Float64 != (
                o.table.fields[j].kind is Float64))) || (exists|j: int|
                0 <= j < t.fields.len() && t.fields[j].kind is Dictionary && o.table.dicts[j].len()
                    > (#[trigger] t.dicts[j]).len()) || (exists|c: int|
                0 <= c < block(job)[0].len() && col + c < t.fields.len() && #[trigger] declares(
                    job,
                    c,
                    "levels"@,
                ));
            &&& o.schema is Some
            &&& if all {
                &&& o.invalidation.all == Some(true)
                &&& o.invalidation.rows_from is None
                &&& o.invalidation.rows_to is None
            } else {
                &&& o.invalidation.all is None
                &&& o.invalidation.rows_from == Some(row)
                &&& o.invalidation.rows_to == if bottom > t.rows {
                    None::<u64>
                } else {
                    Some(bottom as u64)
                }
            }
        }),
{
    let p = lemma_paste_entry(t, num, job, w, 0);
    let o = edit_outcome(t, num, job, w)->Ok_0;
    lemma_pasted(p, job.revision, w);
    let n = t.fields.len();
    let q = output_cols(p, p.new_cols())->Ok_0;
    lemma_flag(p, p.new_cols());
    assert forall|j: int| 0 <= j < n implies (#[trigger] t.fields[j]).is_scale()
        != q.0[j].field.is_scale() <==> (t.fields[j].kind is Float64 != (
    o.table.fields[j].kind is Float64)) by {
        assert(o.table.fields[j] == q.0[j].field);
    }
    assert(types_change(t, q.0) <==> exists|j: int|
        0 <= j < t.fields.len() && ((#[trigger] t.fields[j]).kind is Float64 != (
        o.table.fields[j].kind is Float64)));
    let grown = exists|j: int|
        0 <= j < t.fields.len() && t.fields[j].kind is Dictionary && o.table.dicts[j].len() > (
        #[trigger] t.dicts[j]).len();
    let asked = exists|c: int|
        0 <= c < block(job)[0].len() && p.col + c < t.fields.len() && #[trigger] declares(
            job,
            c,
            "levels"@,
        );
    assert forall|c: int| 0 <= c < p.width() && p.col + c < n implies p.remaps(c) == #[trigger]
        declares(job, c, "levels"@) by {
        let again = lemma_paste_entry(t, num, job, w, c);
        assert(again == p);
    }
    if q.1 {
        let c = choose|c: int|
            0 <= c < p.width() && p.col + c < n && (#[trigger] covered_col(p, c)) is Ok
                && covered_col(p, c)->Ok_0.1;
        let j = p.col + c;
        lemma_output_at(p, p.new_cols(), j);
        assert(o.table.dicts[j] == q.0[j].levels);
        assert(t.fields[j].level() is Some);
        if p.remaps(c) {
            assert(declares(job, c, "levels"@));
        } else {
            assert(o.table.dicts[j].len() > t.dicts[j].len());
        }
    }
    if asked {
        let c = choose|c: int|
            0 <= c < block(job)[0].len() && p.col + c < t.fields.len() && #[trigger] declares(
                job,
                c,
                "levels"@,
            );
        assert(p.remaps(c));
        let j = p.col + c;
        lemma_output_at(p, p.new_cols(), j);
        assert(covered_col(p, c) is Ok && covered_col(p, c)->Ok_0.1);
    }
    if grown && !asked {
        let j = choose|j: int|
            0 <= j < t.fields.len() && t.fields[j].kind is Dictionary && o.table.dicts[j].len() > (
            #[trigger] t.dicts[j]).len();
        lemma_output_at(p, p.new_cols(), j);
        assert(o.table.dicts[j] == q.0[j].levels);
        let c = j - p.col;
        if 0 <= c < p.width() {
            assert(!declares(job, c, "levels"@));
            assert(covered_col(p, c) is Ok && covered_col(p, c)->Ok_0.1);
        }
    }
}

/// A plan changes the schema where one of the covered columns says so.
proof fn lemma_flag(p: PasteV, k: nat)
    requires
        output_cols(p, k) is Ok,
        k <= p.new_cols(),
    ensures
        output_cols(p, k)->Ok_0.1 <==> exists|c: int|
            0 <= c < p.width() && p.col + c < p.t.fields.len() && p.col + c < k && (
            #[trigger] covered_col(p, c)) is Ok && covered_col(p, c)->Ok_0.1,
    decreases k,
{
    if k > 0 {
        lemma_flag(p, (k - 1) as nat);
        let c = k - 1 - p.col;
        if 0 <= c < p.width() && k - 1 < p.t.fields.len() {
            assert(covered_col(p, c) is Ok);
        }
    }
}

/// The levels of a column that a paste creates, where none are declared, and of a scale that it
/// makes nominal, stand in order, where they are no more than the limit for sorting.
#[verifier::rlimit(60)]
pub proof fn law_new_levels_stand_in_order(
    t: TableV,
    num: NumeralsV,
    job: EditJob,
    w: Result<Seq<u8>, Seq<char>>,
    c: int,
)
    requires
        pastes(t, num, job, w),
        0 <= c < block(job)[0].len() <= u64::MAX,
        job.edit->InsertBlock_col + c < t.fields.len() ==> t.fields[job.edit->InsertBlock_col
            + c].kind is Float64,
        !(declares(job, c, "type"@) && declares(job, c, "levels"@)),
    ensures
        ({
            let g = edit_outcome(t, num, job, w)->Ok_0.table;
            let d = g.dicts[job.edit->InsertBlock_col + c];
            d.len() <= job.ingest.sort_limit ==> in_level_order(d, num)
        }),
{
    let p = lemma_paste_entry(t, num, job, w, c);
    let g = edit_outcome(t, num, job, w)->Ok_0.table;
    let j = p.col + c;
    let limit = job.ingest.sort_limit as nat;
    lemma_pasted(p, job.revision, w);
    lemma_output_at(p, p.new_cols(), j);
    if j < t.fields.len() {
        if p.remaps(c) {
            assert(!p.t.fields[p.col + c].is_scale());
        }
        assert(output_col(p, j, plan_names(output_cols(p, p.new_cols())->Ok_0.0.take(j)))
            == covered_col(p, c));
        assert(g.dicts[j] == covered_col(p, c)->Ok_0.0.levels);
        if p.promotes(c) {
            let s = deduped(promoted_texts(p, c));
            lemma_prebuilt(s, num, limit);
            if s.len() <= limit {
                lemma_prebuilt_in_order(s, num, limit);
            }
        }
    } else {
        let used = lemma_created_at(p, job.revision, w, c);
        lemma_created_levels(p, c, used);
        if !(g.fields[j].kind is Float64) {
            let canonical = num.active && first_unparsed(p.reads(c), num) is None;
            let s = deduped(level_keys(canonical, num, somes(p.reads(c))));
            lemma_prebuilt(s, num, limit);
            if s.len() <= limit {
                lemma_prebuilt_in_order(s, num, limit);
            }
        }
    }
}

/// A scale that a paste makes nominal has the texts that its cells now read as for levels, each
/// once, and no others.
#[verifier::rlimit(60)]
pub proof fn law_promoted_levels_are_in_use(
    t: TableV,
    num: NumeralsV,
    job: EditJob,
    w: Result<Seq<u8>, Seq<char>>,
    c: int,
    s: Seq<char>,
)
    requires
        pastes(t, num, job, w),
        0 <= c < block(job)[0].len(),
        job.edit->InsertBlock_col + c < t.fields.len(),
        t.fields[job.edit->InsertBlock_col + c].kind is Float64,
        !pastes_numbers(job, num, c),
    ensures
        ({
            let g = edit_outcome(t, num, job, w)->Ok_0.table;
            let j = job.edit->InsertBlock_col + c;
            &&& distinct(g.dicts[j])
            &&& g.dicts[j].contains(s) <==> exists|i: int|
                0 <= i < g.rows && #[trigger] reading(g, num, j, i) == Some(s)
        }),
{
    let p = lemma_paste(t, num, job, w);
    lemma_pastes_numbers(p, job, c);
    lemma_promoted_levels(p, job.revision, w, c, s);
}

/// The levels of a scale that a paste makes nominal are what its cells read as.
#[verifier::rlimit(60)]
proof fn lemma_promoted_levels(
    p: PasteV,
    revision: u64,
    w: Result<Seq<u8>, Seq<char>>,
    c: int,
    s: Seq<char>,
)
    requires
        pastable(p),
        paste_outcome(p, revision, w) is Ok,
        numbered_levels(paste_outcome(p, revision, w)->Ok_0.table),
        0 <= c < p.width(),
        p.promotes(c),
    ensures
        ({
            let g = paste_outcome(p, revision, w)->Ok_0.table;
            let j = p.col + c;
            &&& distinct(g.dicts[j])
            &&& g.dicts[j].contains(s) <==> exists|i: int|
                0 <= i < g.rows && #[trigger] reading(g, p.num, j, i) == Some(s)
        }),
{
    let t = p.t;
    let num = p.num;
    let g = paste_outcome(p, revision, w)->Ok_0.table;
    let j = p.col + c;
    let all = promoted_texts(p, c);
    lemma_promoted_dict(p, revision, w, c);
    lemma_deduped(all);
    lemma_prebuilt(deduped(all), num, p.sort_limit);
    assert(g.dicts[j].contains(s) == all.contains(s));
    if all.contains(s) {
        let a = p.before(t.cols[j]);
        let b = p.after(t.cols[j]);
        let x = shown(a, num);
        let y = somes(p.reads(c));
        let z = shown(b, num);
        let k = all.index_of(s);
        if k < x.len() {
            assert(x[k] == s);
            lemma_shown_from(a, num, s);
            let r = choose|r: int|
                0 <= r < a.len() && (#[trigger] a[r]) is Some && num.show(a[r]->0) == s;
            assert(t.cols[j][r] == a[r]);
            law_paste_keeps_the_rest(p, revision, w, j, r);
            assert(reading(g, num, j, r) == Some(s));
        } else if k < x.len() + y.len() {
            assert(y[k - x.len()] == s);
            let ts = p.reads(c);
            lemma_keys_from(false, num, ts, s);
            assert(level_keys(false, num, y)[k - x.len()] == s);
            let r = choose|r: int|
                0 <= r < ts.len() && (#[trigger] ts[r]) is Some && s == level_key(
                    false,
                    num,
                    ts[r]->0,
                );
            law_paste_writes_the_block(p, revision, w, c, r);
            assert(reading(g, num, j, p.row + r) == Some(s));
        } else {
            assert(z[k - x.len() - y.len()] == s);
            lemma_shown_from(b, num, s);
            let r = choose|r: int|
                0 <= r < b.len() && (#[trigger] b[r]) is Some && num.show(b[r]->0) == s;
            let i = p.row + p.height() + r;
            assert(t.cols[j][i] == b[r]);
            law_paste_keeps_the_rest(p, revision, w, j, i);
            assert(reading(g, num, j, i) == Some(s));
        }
    }
    if exists|i: int| 0 <= i < g.rows && #[trigger] reading(g, num, j, i) == Some(s) {
        let i = choose|i: int| 0 <= i < g.rows && #[trigger] reading(g, num, j, i) == Some(s);
        assert(cell_fits(g.fields[j], g.dicts[j], g.cols[j][i]));
        assert(g.dicts[j][g.cols[j][i]->0 as int] == s);
    }
}

#[verifier::rlimit(60)]
proof fn lemma_promoted_dict(p: PasteV, revision: u64, w: Result<Seq<u8>, Seq<char>>, c: int)
    requires
        pastable(p),
        paste_outcome(p, revision, w) is Ok,
        0 <= c < p.width(),
        p.promotes(c),
    ensures
        ({
            let g = paste_outcome(p, revision, w)->Ok_0.table;
            let j = p.col + c;
            &&& g.wf()
            &&& g.rows == p.new_rows()
            &&& j < g.fields.len()
            &&& g.fields[j].kind is Dictionary
            &&& g.dicts[j] == prebuilt(deduped(promoted_texts(p, c)), p.num, p.sort_limit)
            &&& g.cols[j].len() == g.rows
            &&& p.t.cols[j].len() == p.t.rows
            &&& !p.remaps(c)
        }),
{
    let g = paste_outcome(p, revision, w)->Ok_0.table;
    let j = p.col + c;
    lemma_pasted(p, revision, w);
    lemma_output_at(p, p.new_cols(), j);
    if p.remaps(c) {
        assert(!p.t.fields[p.col + c].is_scale());
    }
    assert(output_col(p, j, plan_names(output_cols(p, p.new_cols())->Ok_0.0.take(j)))
        == covered_col(p, c));
    assert(g.fields[j] == covered_col(p, c)->Ok_0.0.field);
    assert(g.dicts[j] == covered_col(p, c)->Ok_0.0.levels);
    assert(g.cols[j].len() == g.rows);
    assert(p.t.cols[j].len() == p.t.rows);
}

/// A level that a paste adds to a categorical column is a pasted text, or, where the locale is
/// not the plain one, the plain spelling of one.
#[verifier::rlimit(60)]
pub proof fn law_added_levels_were_pasted(
    t: TableV,
    num: NumeralsV,
    job: EditJob,
    w: Result<Seq<u8>, Seq<char>>,
    c: int,
    s: Seq<char>,
)
    requires
        pastes(t, num, job, w),
        0 <= c < block(job)[0].len() <= u64::MAX,
        job.edit->InsertBlock_col + c < t.fields.len(),
        t.fields[job.edit->InsertBlock_col + c].kind is Dictionary,
        !declares(job, c, "levels"@),
        edit_outcome(t, num, job, w)->Ok_0.table.dicts[job.edit->InsertBlock_col + c].contains(s),
        !t.dicts[job.edit->InsertBlock_col + c].contains(s),
    ensures
        exists|r: int|
            0 <= r < block(job).len() && !(#[trigger] stands_for_null(job, r, c)) && (s
                == block(job)[r][c].0 || (num.active && s == num.canon(block(job)[r][c].0))),
{
    let p = lemma_paste_entry(t, num, job, w, c);
    let g = edit_outcome(t, num, job, w)->Ok_0.table;
    let j = p.col + c;
    lemma_pasted(p, job.revision, w);
    lemma_output_at(p, p.new_cols(), j);
    assert(output_col(p, j, plan_names(output_cols(p, p.new_cols())->Ok_0.0.take(j)))
        == covered_col(p, c));
    assert(g.dicts[j] == covered_col(p, c)->Ok_0.0.levels);
    let canonical = canonical_dict(t.dicts[j], num);
    let ts = p.reads(c);
    let keys = level_keys(canonical, num, somes(ts));
    lemma_extended_from(t.dicts[j], keys, s);
    lemma_keys_from(canonical, num, ts, s);
    let r = choose|r: int|
        0 <= r < ts.len() && (#[trigger] ts[r]) is Some && s == level_key(
            canonical,
            num,
            ts[r]->0,
        );
    lemma_reads(p, job, r, c);
    assert(!stands_for_null(job, r, c));
}

/// A level behind those that were there is one of the keys.
pub proof fn lemma_new_level(levels: Seq<Seq<char>>, keys: Seq<Seq<char>>, a: int)
    requires
        levels.len() <= a < extended(levels, keys).len(),
    ensures
        keys.contains(extended(levels, keys)[a]),
    decreases keys.len(),
{
    if keys.len() > 0 {
        let d = keys.drop_last();
        let p = extended(levels, d);
        let all = extended(levels, keys);
        if a < p.len() {
            lemma_new_level(levels, d, a);
            let k = d.index_of(all[a]);
            assert(keys[k] == all[a]);
        } else {
            assert(keys[keys.len() - 1] == all[a]);
        }
    }
}

proof fn lemma_extended_from(levels: Seq<Seq<char>>, keys: Seq<Seq<char>>, s: Seq<char>)
    requires
        extended(levels, keys).contains(s),
    ensures
        levels.contains(s) || keys.contains(s),
    decreases keys.len(),
{
    if keys.len() > 0 {
        let d = keys.drop_last();
        let p = extended(levels, d);
        let all = extended(levels, keys);
        let i = all.index_of(s);
        if i < p.len() {
            assert(p[i] == s);
            lemma_extended_from(levels, d, s);
            if d.contains(s) {
                let k = d.index_of(s);
                assert(keys[k] == s);
            }
        } else {
            assert(keys[keys.len() - 1] == s);
        }
    }
}

} // verus!
