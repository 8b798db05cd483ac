//! What a paste may declare of the columns of its block.
use vstd::prelude::*;
use crate::acceptance_laws::{lemma_lands, may_echo};
use crate::block::parsed;
use crate::block_laws::{
    block, declared, declares, lemma_pastes_numbers, lemma_reads, pastes_numbers, stands_for_null,
};
use crate::change_acceptance::{listed, text_if_given};
use crate::change_laws::{at, given};
use crate::edit_block::{
    missing_levels, output_cols, paste_outcome, plan_names, remap_issue, remap_issues, scale_issue,
    scale_issues, used_in, PasteV,
};
use crate::edit_laws::{lemma_types_differ, refused_as, sendable};
use crate::json::JsonV;
use crate::messages::FailureV;
use crate::number::NumeralsV;
use crate::outcome::EditJob;
use crate::paste::{first_undeclared, first_unparsed};
use crate::serve::{edit_outcome, opt_json, paste_asked};
use crate::table::{Cell, FieldV, TableV, MAX_ROWS};
use crate::text::{distinct, lemma_first_repeat, texts};
use crate::undo::regular;
use crate::undo_laws::law_asked_pastes_are_in_order;
use crate::window::{declared_names, entry_of, window_entries, window_entry, window_schema, EntryV};

verus! {

/// An entry may be declared for column `j`: it is null, or an object without labels, with texts,
/// a known type and a list of different texts where they are expected. For a column that is
/// there it says nothing that is not so; for a new one it gives a name that is free, and levels
/// only where it declares no scale.
pub open spec fn declarable(fields: Seq<FieldV>, e: JsonV, j: int) -> bool {
    e is Null || {
        &&& e is Object
        &&& !e->Object_0.contains_key("labels"@)
        &&& text_if_given(e, "name"@)
        &&& text_if_given(e, "display_name"@)
        &&& text_if_given(e, "type"@)
        &&& given(e, "type"@) ==> at(e, "type"@)->Str_0 == "scale"@ || at(e, "type"@)->Str_0
            == "ordinal"@ || at(e, "type"@)->Str_0 == "nominal"@
        &&& given(e, "levels"@) ==> at(e, "levels"@) is Array && (forall|i: int|
            0 <= i < at(e, "levels"@)->Array_0.len() ==> (
            #[trigger] at(e, "levels"@)->Array_0[i]) is Str) && distinct(listed(e))
        &&& if j < fields.len() {
            may_echo(e, fields[j].name, fields[j].kind)
        } else {
            &&& given(e, "name"@)
            &&& forall|i: int|
                0 <= i < fields.len() ==> (#[trigger] fields[i]).name != at(e, "name"@)->Str_0
            &&& given(e, "type"@) && at(e, "type"@)->Str_0 == "scale"@ ==> !given(e, "levels"@)
        }
    }
}

proof fn lemma_declared_entry(e: JsonV, i: u64)
    requires
        e is Object,
    ensures
        ({
            let x = entry_of(e->Object_0, i);
            let y = x->Ok_0;
            &&& x is Ok <==> {
                &&& !e->Object_0.contains_key("labels"@)
                &&& text_if_given(e, "name"@)
                &&& text_if_given(e, "display_name"@)
                &&& text_if_given(e, "type"@)
                &&& given(e, "type"@) ==> at(e, "type"@)->Str_0 == "scale"@ || at(
                    e,
                    "type"@,
                )->Str_0 == "ordinal"@ || at(e, "type"@)->Str_0 == "nominal"@
                &&& given(e, "levels"@) ==> at(e, "levels"@) is Array && (forall|i: int|
                    0 <= i < at(e, "levels"@)->Array_0.len() ==> (
                    #[trigger] at(e, "levels"@)->Array_0[i]) is Str)
            }
            &&& x is Ok ==> {
                &&& y.name is Some <==> given(e, "name"@)
                &&& y.name is Some ==> y.name->0 == at(e, "name"@)->Str_0
                &&& y.display is Some <==> given(e, "display_name"@)
                &&& y.ty is Some <==> given(e, "type"@)
                &&& y.ty is Some ==> y.ty == crate::table::text_level(at(e, "type"@)->Str_0)
                &&& y.levels is Some <==> given(e, "levels"@)
                &&& y.levels is Some ==> y.levels->0 == listed(e)
            }
            &&& x is Err ==> refused_as(x->Err_0, "schema_mismatch"@)
        }),
{
    lemma_types_differ();
    let x = entry_of(e->Object_0, i);
    if x is Ok && given(e, "levels"@) {
        assert(x->Ok_0.levels->0 =~= listed(e));
    }
}

#[verifier::rlimit(60)]
proof fn lemma_declarable(
    e: JsonV,
    i: u64,
    col: u64,
    fields: Seq<FieldV>,
    names: Seq<Seq<char>>,
)
    requires
        forall|j: int| 0 <= j < fields.len() ==> (#[trigger] fields[j]).level() is Some,
    ensures
        ({
            let x = window_entry(e, i, col, fields, names);
            &&& x is Ok <==> declarable(fields, e, col + i) && (e is Object && col + i
                >= fields.len() ==> !names.contains(at(e, "name"@)->Str_0))
            &&& x is Ok ==> (x->Ok_0 is Some <==> e is Object)
            &&& x is Ok && e is Object ==> (x->Ok_0->0.name is Some <==> given(e, "name"@)) && (
            given(e, "name"@) ==> x->Ok_0->0.name->0 == at(e, "name"@)->Str_0)
            &&& x is Err ==> refused_as(x->Err_0, "schema_mismatch"@)
        }),
{
    lemma_types_differ();
    if e is Object {
        lemma_declared_entry(e, i);
        let y = entry_of(e->Object_0, i)->Ok_0;
        if y.levels is Some {
            lemma_first_repeat(y.levels->0);
        }
        if col + i < fields.len() {
            let f = fields[col + i];
            assert(f.level() is Some);
        }
    }
}

/// What a list declares for a block: an entry that may be declared for each column, and no name
/// of a new column twice.
pub open spec fn all_declarable(a: Seq<JsonV>, col: u64, fields: Seq<FieldV>) -> bool {
    &&& forall|c: int| 0 <= c < a.len() ==> declarable(fields, #[trigger] a[c], col + c)
    &&& forall|b: int, c: int|
        #![trigger a[b], a[c]]
        0 <= b < c < a.len() && col + b >= fields.len() && a[b] is Object && a[c] is Object ==> at(
            a[b],
            "name"@,
        )->Str_0 != at(a[c], "name"@)->Str_0
}

#[verifier::rlimit(60)]
proof fn lemma_all_declarable(a: Seq<JsonV>, col: u64, fields: Seq<FieldV>)
    requires
        a.len() <= u64::MAX,
        forall|j: int| 0 <= j < fields.len() ==> (#[trigger] fields[j]).level() is Some,
    ensures
        ({
            let x = window_entries(a, col, fields);
            &&& x is Ok <==> all_declarable(a, col, fields)
            &&& x is Ok ==> x->Ok_0.len() == a.len() && forall|c: int|
                #![trigger a[c]]
                0 <= c < a.len() ==> (x->Ok_0[c] is Some <==> a[c] is Object) && (a[c] is Object
                    && col + c >= fields.len() ==> x->Ok_0[c]->0.name == Some(
                    at(a[c], "name"@)->Str_0,
                ))
            &&& x is Err ==> refused_as(x->Err_0, "schema_mismatch"@)
        }),
    decreases a.len(),
{
    let x = window_entries(a, col, fields);
    if a.len() > 0 {
        let d = a.drop_last();
        let m = a.len() - 1;
        lemma_all_declarable(d, col, fields);
        assert forall|c: int| 0 <= c < d.len() implies d[c] == a[c] by {}
        assert(a[m] == a.last());
        if window_entries(d, col, fields) is Ok {
            let p = window_entries(d, col, fields)->Ok_0;
            let names = declared_names(p, col, fields.len());
            lemma_declarable(a[m], m as u64, col, fields, names);
            let s = at(a[m], "name"@)->Str_0;
            lemma_declared_names(p, col, fields.len(), s);
            assert(names.contains(s) <==> exists|b: int|
                #![trigger d[b]]
                0 <= b < d.len() && col + b >= fields.len() && d[b] is Object && at(
                    d[b],
                    "name"@,
                )->Str_0 == s) by {
                if names.contains(s) {
                    let b = choose|b: int|
                        0 <= b < p.len() && (#[trigger] p[b]) is Some && p[b]->0.name == Some(s)
                            && col + b >= fields.len();
                    assert(a[b] == d[b]);
                    assert(d[b] is Object);
                }
                if exists|b: int|
                    #![trigger d[b]]
                    0 <= b < d.len() && col + b >= fields.len() && d[b] is Object && at(
                        d[b],
                        "name"@,
                    )->Str_0 == s {
                    let b = choose|b: int|
                        #![trigger d[b]]
                        0 <= b < d.len() && col + b >= fields.len() && d[b] is Object && at(
                            d[b],
                            "name"@,
                        )->Str_0 == s;
                    assert(p[b] is Some && p[b]->0.name == Some(s));
                }
            }
            lemma_one_more(a, col, fields, names.contains(s));
            if x is Ok {
                assert forall|c: int| #![trigger a[c]] 0 <= c < a.len() implies (
                x->Ok_0[c] is Some <==> a[c] is Object) && (a[c] is Object && col + c
                    >= fields.len() ==> x->Ok_0[c]->0.name == Some(at(a[c], "name"@)->Str_0)) by {
                    if c < m {
                        assert(d[c] == a[c]);
                        assert(x->Ok_0[c] == p[c]);
                    }
                }
            }
        } else {
            if all_declarable(a, col, fields) {
                lemma_one_less(a, col, fields);
            }
        }
    }
}

proof fn lemma_one_less(a: Seq<JsonV>, col: u64, fields: Seq<FieldV>)
    requires
        a.len() > 0,
        all_declarable(a, col, fields),
    ensures
        all_declarable(a.drop_last(), col, fields),
{
    let d = a.drop_last();
    assert forall|c: int| 0 <= c < d.len() implies declarable(
        fields,
        #[trigger] d[c],
        col + c,
    ) by {
        assert(a[c] == d[c]);
    }
    assert forall|b: int, c: int|
        #![trigger d[b], d[c]]
        0 <= b < c < d.len() && col + b >= fields.len() && d[b] is Object
            && d[c] is Object implies at(d[b], "name"@)->Str_0 != at(d[c], "name"@)->Str_0 by {
        assert(a[b] == d[b] && a[c] == d[c]);
    }
}

proof fn lemma_one_more(a: Seq<JsonV>, col: u64, fields: Seq<FieldV>, taken: bool)
    requires
        a.len() > 0,
        all_declarable(a.drop_last(), col, fields),
        taken <==> exists|b: int|
            #![trigger a.drop_last()[b]]
            0 <= b < a.len() - 1 && col + b >= fields.len() && a.drop_last()[b] is Object && at(
                a.drop_last()[b],
                "name"@,
            )->Str_0 == at(a.last(), "name"@)->Str_0,
    ensures
        all_declarable(a, col, fields) <==> declarable(fields, a.last(), col + a.len() - 1) && (
        a.last() is Object && col + a.len() - 1 >= fields.len() ==> !taken),
{
    let d = a.drop_last();
    let m = a.len() - 1;
    assert(a[m] == a.last());
    if all_declarable(a, col, fields) {
        assert(declarable(fields, a[m], col + m));
        if taken && a.last() is Object {
            let b = choose|b: int|
                #![trigger a.drop_last()[b]]
                0 <= b < a.len() - 1 && col + b >= fields.len() && a.drop_last()[b] is Object && at(
                    a.drop_last()[b],
                    "name"@,
                )->Str_0 == at(a.last(), "name"@)->Str_0;
            assert(a[b] == d[b]);
        }
    }
    if declarable(fields, a.last(), col + a.len() - 1) && (a.last() is Object && col + a.len() - 1
        >= fields.len() ==> !taken) {
        assert forall|c: int| 0 <= c < a.len() implies declarable(
            fields,
            #[trigger] a[c],
            col + c,
        ) by {
            if c < m {
                assert(d[c] == a[c]);
            }
        }
        assert forall|b: int, c: int|
            #![trigger a[b], a[c]]
            0 <= b < c < a.len() && col + b >= fields.len() && a[b] is Object
                && a[c] is Object implies at(a[b], "name"@)->Str_0 != at(a[c], "name"@)->Str_0 by {
            assert(d[b] == a[b]);
            if c < m {
                assert(d[c] == a[c]);
            }
        }
    }
}

proof fn lemma_declared_names(p: Seq<Option<EntryV>>, col: u64, n: nat, s: Seq<char>)
    ensures
        declared_names(p, col, n).contains(s) <==> exists|b: int|
            0 <= b < p.len() && (#[trigger] p[b]) is Some && p[b]->0.name == Some(s) && col + b
                >= n,
    decreases p.len(),
{
    let names = declared_names(p, col, n);
    if p.len() > 0 {
        let d = p.drop_last();
        let m = p.len() - 1;
        let before = declared_names(d, col, n);
        lemma_declared_names(d, col, n, s);
        assert(p[m] == p.last());
        if names.contains(s) {
            let i = names.index_of(s);
            if i < before.len() {
                assert(before[i] == s);
                let b = choose|b: int|
                    0 <= b < d.len() && (#[trigger] d[b]) is Some && d[b]->0.name == Some(s)
                        && col + b >= n;
                assert(p[b] == d[b]);
            } else {
                assert(p[m] is Some && p[m]->0.name == Some(s));
            }
        }
        if exists|b: int|
            0 <= b < p.len() && (#[trigger] p[b]) is Some && p[b]->0.name == Some(s) && col + b
                >= n {
            let b = choose|b: int|
                0 <= b < p.len() && (#[trigger] p[b]) is Some && p[b]->0.name == Some(s) && col + b
                    >= n;
            if b < m {
                assert(d[b] == p[b]);
                let i = before.index_of(s);
                assert(names[i] == s);
            } else {
                assert(names[names.len() - 1] == s);
            }
        }
    } else {
        assert(names =~= Seq::empty());
    }
}

/// What a paste declares is taken exactly where it is a list with an entry for each column of
/// the block and every entry may be declared. A paste with any other declaration is refused as a
/// mismatch.
#[verifier::rlimit(60)]
pub proof fn law_declarations_are_taken_or_refused(
    t: TableV,
    num: NumeralsV,
    job: EditJob,
    w: Result<Seq<u8>, Seq<char>>,
)
    requires
        regular(t),
        job.edit is InsertBlock,
        job.edit->InsertBlock_target_schema is Some,
        parsed(job.tail@) is Ok,
        block(job)[0].len() <= u64::MAX,
    ensures
        ({
            let v = job.edit->InsertBlock_target_schema->0@;
            let col = job.edit->InsertBlock_col;
            let fine = v is Array && v->Array_0.len() == block(job)[0].len() && all_declarable(
                v->Array_0,
                col,
                t.fields,
            );
            &&& paste_asked(
                t,
                num,
                job.ingest,
                job.edit->InsertBlock_row,
                col,
                Some(v),
                job.tail@,
            ) is Ok <==> fine
            &&& !fine ==> edit_outcome(t, num, job, w) is Err && refused_as(
                edit_outcome(t, num, job, w)->Err_0,
                "schema_mismatch"@,
            )
        }),
{
    let v = job.edit->InsertBlock_target_schema->0@;
    let col = job.edit->InsertBlock_col;
    let width = block(job)[0].len() as u64;
    crate::serve::lemma_supported(t.fields);
    if v is Array && v->Array_0.len() == width {
        lemma_all_declarable(v->Array_0, col, t.fields);
    }
    let x = window_schema(v, t.fields, col, width);
    assert(x is Err ==> refused_as(x->Err_0, "schema_mismatch"@));
    assert(opt_json(job.edit->InsertBlock_target_schema) == Some(v));
}

/// Every pasted text of a column that stands for a value is one of a list.
pub open spec fn pastes_listed(job: EditJob, c: int, list: Seq<Seq<char>>) -> bool {
    forall|r: int|
        0 <= r < block(job).len() && !(#[trigger] stands_for_null(job, r, c)) ==> list.contains(
            block(job)[r][c].0,
        )
}

/// What is pasted into column `c` agrees with what is declared for it: a scale gets numbers only;
/// declared levels hold every pasted text, and, where the column was there, all levels that are in
/// use beside the block, of which there are not too many to have been seen.
pub open spec fn agrees(t: TableV, num: NumeralsV, job: EditJob, c: int) -> bool {
    let j = job.edit->InsertBlock_col + c;
    let row = job.edit->InsertBlock_row;
    let e = declared(job, c);
    &&& declares(job, c, "type"@) && at(e, "type"@) == JsonV::Str("scale"@) ==> pastes_numbers(
        job,
        num,
        c,
    )
    &&& declares(job, c, "levels"@) && (j < t.fields.len() || declares(job, c, "type"@))
        ==> pastes_listed(job, c, listed(e))
    &&& declares(job, c, "levels"@) && j < t.fields.len() && t.rows > 0
        ==> t.dicts[j].to_set().len() <= 10_000 && forall|r: int|
        0 <= r < t.rows && !(row <= r < row + block(job).len()) && (
        #[trigger] t.cols[j][r]) is Some ==> listed(e).contains(
            t.dicts[j][t.cols[j][r]->0 as int],
        )
}

/// A paste whose declaration is taken, names every new column, and agrees with what is pasted, is
/// accepted where there is room for it right beside or on the table and what it replaces can be
/// sent.
#[verifier::rlimit(60)]
pub proof fn law_agreeing_pastes_are_accepted(
    t: TableV,
    num: NumeralsV,
    job: EditJob,
    w: Result<Seq<u8>, Seq<char>>,
)
    requires
        regular(t),
        job.edit is InsertBlock,
        job.edit->InsertBlock_target_schema is Some,
        parsed(job.tail@) is Ok,
        ({
            let v = job.edit->InsertBlock_target_schema->0@;
            let col = job.edit->InsertBlock_col;
            let n = block(job)[0].len();
            &&& v is Array && v->Array_0.len() == n
            &&& all_declarable(v->Array_0, col, t.fields)
            &&& col <= t.fields.len()
            &&& forall|c: int|
                #![trigger declared(job, c)]
                0 <= c < n ==> agrees(t, num, job, c) && (col + c >= t.fields.len() ==> declared(
                    job,
                    c,
                ) is Object)
            &&& job.edit->InsertBlock_row + block(job).len() <= MAX_ROWS
            &&& col + n <= u64::MAX
            &&& sendable(w) || col >= t.fields.len()
        }),
    ensures
        edit_outcome(t, num, job, w) is Ok,
{
    let v = job.edit->InsertBlock_target_schema->0@;
    let a = v->Array_0;
    let row = job.edit->InsertBlock_row;
    let col = job.edit->InsertBlock_col;
    crate::serve::lemma_supported(t.fields);
    law_declarations_are_taken_or_refused(t, num, job, w);
    let asked = paste_asked(t, num, job.ingest, row, col, Some(v), job.tail@);
    let p = asked->Ok_0;
    law_asked_pastes_are_in_order(t, num, job.ingest, row, col, Some(v), job.tail@);
    assert(opt_json(job.edit->InsertBlock_target_schema) == Some(v));
    assert(edit_outcome(t, num, job, w) == paste_outcome(p, job.revision, w));
    assert(p.cells == block(job));
    assert forall|c: int| 0 <= c < p.width() implies #[trigger] agreed(p, c) by {
        let e = declared(job, c);
        assert(e == a[c]);
        lemma_agreed(t, num, job, p, c);
    }
    lemma_agreed_issues(p, p.width());
    lemma_agreed_cols(p, p.new_cols());
    lemma_lands(p, job.revision, w);
}

/// A column of a paste can be made, whatever its place among the others.
spec fn agreed(p: PasteV, c: int) -> bool {
    let e = p.entry(c);
    &&& scale_issue(p, c) is None
    &&& remap_issue(p, c) is None
    &&& p.covers(c) && p.remaps(c) ==> first_undeclared(e->0.levels->0, p.reads(c)) is None
    &&& !p.covers(c) ==> {
        &&& e is Some && e->0.name is Some
        &&& forall|i: int|
            0 <= i < p.t.fields.len() ==> (#[trigger] p.t.fields[i]).name != e->0.name->0
        &&& forall|b: int|
            0 <= b < c && !p.covers(b) && (#[trigger] p.entry(b)) is Some ==> p.entry(b)->0.name
                != e->0.name
        &&& e->0.ty == Some(crate::table::Level::Scale) ==> first_unparsed(p.reads(c), p.num)
            is None
        &&& e->0.ty is Some && e->0.levels is Some && e->0.ty != Some(crate::table::Level::Scale)
            ==> first_undeclared(e->0.levels->0, p.reads(c)) is None
    }
}

#[verifier::rlimit(60)]
proof fn lemma_agreed(t: TableV, num: NumeralsV, job: EditJob, p: PasteV, c: int)
    requires
        regular(t),
        job.edit is InsertBlock,
        job.edit->InsertBlock_target_schema is Some,
        job.edit->InsertBlock_target_schema->0@ is Array,
        job.edit->InsertBlock_target_schema->0@->Array_0.len() == p.width(),
        all_declarable(
            job.edit->InsertBlock_target_schema->0@->Array_0,
            job.edit->InsertBlock_col,
            t.fields,
        ),
        p.t == t,
        p.num == num,
        p.cells == block(job),
        p.nulls == texts(job.ingest.nulls@),
        p.row == job.edit->InsertBlock_row,
        p.col == job.edit->InsertBlock_col,
        p.window == Some(
            window_entries(
                job.edit->InsertBlock_target_schema->0@->Array_0,
                p.col,
                t.fields,
            )->Ok_0,
        ),
        0 <= c < p.width() <= u64::MAX,
        p.col + c >= t.fields.len() ==> declared(job, c) is Object,
        agrees(t, num, job, c),
    ensures
        agreed(p, c),
{
    let a = job.edit->InsertBlock_target_schema->0@->Array_0;
    let e = a[c];
    let j = p.col + c;
    lemma_types_differ();
    crate::serve::lemma_supported(t.fields);
    assert forall|i: int| 0 <= i < t.fields.len() implies (
    #[trigger] t.fields[i]).level() is Some by {}
    lemma_all_declarable(a, p.col, t.fields);
    let entries = window_entries(a, p.col, t.fields)->Ok_0;
    crate::block_laws::lemma_window_at(a, p.col, t.fields, c);
    assert(p.entry(c) == entries[c]);
    assert(declared(job, c) == e);
    lemma_pastes_numbers(p, job, c);
    if e is Object {
        lemma_declared_entry(e, c as u64);
        assert(declarable(t.fields, e, p.col + c));
        let x = p.entry(c)->0;
        assert(entry_of(e->Object_0, c as u64) == Ok::<EntryV, FailureV>(x));
        if x.levels is Some {
            lemma_listed_texts(p, job, c, x.levels->0);
            if j < t.fields.len() {
                lemma_beside(p, c, x.levels->0);
            }
        }
        if j >= t.fields.len() {
            assert forall|b: int|
                0 <= b < c && !p.covers(b) && (
                #[trigger] p.entry(b)) is Some implies p.entry(b)->0.name != x.name by {
                assert(p.entry(b) == entries[b]);
                assert(a[b] is Object && a[c] is Object);
            }
        }
    }
}

proof fn lemma_listed_texts(p: PasteV, job: EditJob, c: int, list: Seq<Seq<char>>)
    requires
        p.cells == block(job),
        p.nulls == texts(job.ingest.nulls@),
        0 <= c < p.width(),
    ensures
        pastes_listed(job, c, list) ==> first_undeclared(list, p.reads(c)) is None,
{
    if pastes_listed(job, c, list) {
        let ts = p.reads(c);
        assert forall|r: int| 0 <= r < ts.len() && (#[trigger] ts[r]) is Some implies list.contains(
            ts[r]->0,
        ) by {
            lemma_reads(p, job, r, c);
            assert(!stands_for_null(job, r, c));
        }
        lemma_none_undeclared(list, ts);
    }
}

proof fn lemma_none_undeclared(list: Seq<Seq<char>>, ts: Seq<Option<Seq<char>>>)
    requires
        forall|r: int|
            0 <= r < ts.len() && (#[trigger] ts[r]) is Some ==> list.contains(ts[r]->0),
    ensures
        first_undeclared(list, ts) is None,
    decreases ts.len(),
{
    if ts.len() > 0 {
        let d = ts.drop_last();
        assert forall|r: int| 0 <= r < d.len() && (#[trigger] d[r]) is Some implies list.contains(
            d[r]->0,
        ) by {
            assert(ts[r] == d[r]);
        }
        lemma_none_undeclared(list, d);
        let m = ts.len() - 1;
        assert(ts[m] == ts.last());
    }
}

proof fn lemma_beside(p: PasteV, c: int, list: Seq<Seq<char>>)
    requires
        regular(p.t),
        0 <= c < p.width(),
        p.col + c < p.t.fields.len(),
        p.remaps(c),
        p.entry(c)->0.levels->0 == list,
        p.t.rows > 0 ==> p.t.dicts[p.col + c].to_set().len() <= 10_000 && forall|r: int|
            0 <= r < p.t.rows && !(p.row <= r < p.row + p.height()) && (
            #[trigger] p.t.cols[p.col + c][r]) is Some ==> list.contains(
                p.t.dicts[p.col + c][p.t.cols[p.col + c][r]->0 as int],
            ),
    ensures
        remap_issue(p, c) is None,
{
    let j = p.col + c;
    let levels = p.t.dicts[j];
    let cells = p.t.cols[j];
    let a = p.before(cells);
    let b = p.after(cells);
    assert(cells.len() == p.t.rows);
    if p.t.rows > 0 {
        assert forall|k: int|
            0 <= k < levels.len() && (used_in(a, k as u64) || used_in(
                b,
                k as u64,
            )) implies list.contains(#[trigger] levels[k]) by {
            if used_in(a, k as u64) {
                let r = a.index_of(Some(k as u64));
                assert(p.t.cols[j][r] == a[r]);
            } else {
                let r = b.index_of(Some(k as u64));
                assert(p.t.cols[j][p.row + p.height() + r] == b[r]);
            }
        }
        lemma_none_go(levels, a, b, list);
    }
}

proof fn lemma_none_go(levels: Seq<Seq<char>>, a: Seq<Cell>, b: Seq<Cell>, list: Seq<Seq<char>>)
    requires
        levels.len() <= u64::MAX,
        forall|k: int|
            0 <= k < levels.len() && (used_in(a, k as u64) || used_in(b, k as u64))
                ==> list.contains(#[trigger] levels[k]),
    ensures
        missing_levels(levels, a, b, list).len() == 0,
    decreases levels.len(),
{
    if levels.len() > 0 {
        let d = levels.drop_last();
        assert forall|k: int|
            0 <= k < d.len() && (used_in(a, k as u64) || used_in(b, k as u64)) implies list.contains(
            #[trigger] d[k],
        ) by {
            assert(levels[k] == d[k]);
        }
        lemma_none_go(d, a, b, list);
        let m = levels.len() - 1;
        assert(levels[m] == levels.last());
    }
}

proof fn lemma_agreed_issues(p: PasteV, k: nat)
    requires
        forall|c: int| 0 <= c < k ==> #[trigger] agreed(p, c),
    ensures
        scale_issues(p, k) is None,
        remap_issues(p, k) is None,
    decreases k,
{
    if k > 0 {
        lemma_agreed_issues(p, (k - 1) as nat);
        assert(agreed(p, k - 1));
    }
}

#[verifier::rlimit(60)]
proof fn lemma_agreed_cols(p: PasteV, k: nat)
    requires
        p.col <= p.t.fields.len(),
        k <= p.new_cols(),
        forall|c: int| 0 <= c < p.width() ==> #[trigger] agreed(p, c),
    ensures
        output_cols(p, k) is Ok,
        ({
            let q = output_cols(p, k)->Ok_0.0;
            &&& q.len() == k
            &&& forall|i: int|
                0 <= i < k ==> (#[trigger] q[i]).field.name == if i < p.t.fields.len() {
                    p.t.fields[i].name
                } else {
                    p.entry(i - p.col)->0.name->0
                }
        }),
    decreases k,
{
    if k > 0 {
        let m = (k - 1) as nat;
        lemma_agreed_cols(p, m);
        let q = output_cols(p, m)->Ok_0.0;
        let used = plan_names(q);
        let c = m - p.col;
        if 0 <= c < p.width() {
            assert(agreed(p, c));
            if m >= p.t.fields.len() {
                let name = p.entry(c)->0.name->0;
                if used.contains(name) {
                    let i = used.index_of(name);
                    assert(q[i].field.name == name);
                    if i < p.t.fields.len() {
                        assert(p.t.fields[i].name != name);
                    } else {
                        let b = i - p.col;
                        assert(agreed(p, b));
                        assert(p.entry(b) is Some);
                    }
                }
            }
        }
        let r = output_cols(p, k)->Ok_0.0;
        assert forall|i: int| 0 <= i < k implies (#[trigger] r[i]).field.name == if i
            < p.t.fields.len() {
            p.t.fields[i].name
        } else {
            p.entry(i - p.col)->0.name->0
        } by {
            if i < m {
                assert(r[i] == q[i]);
            }
        }
    }
}

} // verus!
