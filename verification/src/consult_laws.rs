//! That an edit asks nothing of numerals but what it is said to consult.
use vstd::prelude::*;
use crate::agreement::{
    alike, cells_alike, lemma_restore_block_told, lemma_restore_rows_told,
    lemma_restore_schema_told, lemma_schema_alike, parses_alike, reads_alike, same_but_told,
};
use crate::block::first_ragged;
use crate::capture::{blob_columns, decoded, ColumnV};
use crate::consult::{
    all_texts, brought, cell_texts, consulted, declared_texts, json_texts, level_texts, list_texts,
    member_texts, row_texts,
};
use crate::edit_cols::{
    delete_cols_outcome, insert_cols_outcome, inserted_cols, inserted_names, plan_with,
    plan_without, restore_cols_outcome, restored_cols, spec_views, with_cols, without_cols,
};
use crate::edit_rows::{
    delete_rows_outcome, program_u64, restore_rows_outcome, restore_rows_plan, without_rows,
};
use crate::engine::OutColV;
use crate::json::{array_at, last_member, lemma_last_member, text_at, Json, JsonV};
use crate::messages::{EditOp, NewColumnSpec};
use crate::number::NumeralsV;
use crate::outcome::{pass_plan, EditJob};
use crate::paste_agreement::{lemma_paste_alike, paste_agrees, under_numerals};
use crate::restore_block::{
    beyond, block_restore, first_place, restore_block_outcome, restored_block_cols, tail_run,
};
use crate::restore_schema::{
    column_names, first_text, lemma_captured, lemma_first_text, lemma_some_captured, old_names,
    record_columns, records_of, restore_schema_outcome, restored_schema_cols, schema_restore,
    RecordV, SchemaRestoreV,
};
use crate::schema_agreement::{lemma_schema_change_alike, table_agrees};
use crate::schema_change::{asked_changes, change_entries, entry_columns, lemma_classified};
use crate::serve::{edit_capture, edit_outcome, inverse_outcome, lemma_programs_differ, opt_json, paste_asked};
use crate::table::{Cell, TableV};
use crate::text::texts;
use crate::window::{lemma_entries_len, list_member, window_entries};

verus! {

/// Numerals agree on what an edit of a table asks of them: on whether texts are made canonical, on
/// the texts that the edit consults, and on how the numbers of the table show.
pub open spec fn agree(t: TableV, a: NumeralsV, b: NumeralsV, job: EditJob) -> bool {
    &&& a.active == b.active
    &&& forall|i: int|
        0 <= i < consulted(t, job).len() ==> alike(a, b, #[trigger] consulted(t, job)[i])
    &&& forall|j: int|
        0 <= j < t.fields.len() && (#[trigger] t.fields[j]).is_scale() ==> cells_alike(
            a,
            b,
            t.cols[j],
        )
}

/// Every text of a list is in another one.
spec fn inside(s: Seq<Seq<char>>, all: Seq<Seq<char>>) -> bool {
    forall|i: int| 0 <= i < s.len() ==> all.contains(#[trigger] s[i])
}

/// Every text of a list is taken alike.
spec fn list_alike(a: NumeralsV, b: NumeralsV, s: Seq<Seq<char>>) -> bool {
    forall|i: int| 0 <= i < s.len() ==> alike(a, b, #[trigger] s[i])
}

proof fn lemma_inside_alike(a: NumeralsV, b: NumeralsV, s: Seq<Seq<char>>, all: Seq<Seq<char>>)
    requires
        inside(s, all),
        list_alike(a, b, all),
    ensures
        parses_alike(a, b, s),
        list_alike(a, b, s),
{
    assert forall|i: int| 0 <= i < s.len() implies alike(a, b, #[trigger] s[i]) by {
        assert(all.contains(s[i]));
        let k = all.index_of(s[i]);
        assert(alike(a, b, all[k]));
    }
    assert forall|i: int| 0 <= i < s.len() implies a.parse(#[trigger] s[i]) == b.parse(s[i]) by {
        assert(alike(a, b, s[i]));
    }
}

proof fn lemma_inside_add(s: Seq<Seq<char>>, x: Seq<Seq<char>>, y: Seq<Seq<char>>)
    requires
        inside(s, x) || inside(s, y),
    ensures
        inside(s, x + y),
{
    let all = x + y;
    assert forall|i: int| 0 <= i < s.len() implies all.contains(#[trigger] s[i]) by {
        if inside(s, x) {
            let k = x.index_of(s[i]);
            assert(all[k] == s[i]);
        } else {
            let k = y.index_of(s[i]);
            assert(all[x.len() + k] == s[i]);
        }
    }
}

proof fn lemma_dict_inside(v: Seq<Seq<Seq<char>>>, j: int)
    requires
        0 <= j < v.len(),
    ensures
        inside(v[j], all_texts(v)),
    decreases v.len(),
{
    let d = v.drop_last();
    if j < d.len() {
        lemma_dict_inside(d, j);
        assert(d[j] == v[j]);
    } else {
        assert(inside(v[j], v.last())) by {
            assert forall|i: int| 0 <= i < v[j].len() implies v.last().contains(
                #[trigger] v[j][i],
            ) by {
                assert(v.last()[i] == v[j][i]);
            }
        }
    }
    lemma_inside_add(v[j], all_texts(d), v.last());
}

proof fn lemma_row_inside(rows: Seq<Seq<(Seq<char>, bool)>>, r: int, c: int)
    requires
        0 <= r < rows.len(),
        0 <= c < rows[r].len(),
    ensures
        row_texts(rows).contains(rows[r][c].0),
    decreases rows.len(),
{
    let d = rows.drop_last();
    let x = row_texts(d);
    let y = cell_texts(rows.last());
    if r < d.len() {
        assert(d[r] == rows[r]);
        lemma_row_inside(d, r, c);
        let k = x.index_of(rows[r][c].0);
        assert(row_texts(rows)[k] == rows[r][c].0);
    } else {
        assert(y[c] == rows[r][c].0);
        assert(row_texts(rows)[x.len() + c] == rows[r][c].0);
    }
}

proof fn lemma_spec_inside(v: Seq<NewColumnSpec>, i: int)
    requires
        0 <= i < v.len(),
        v[i].levels is Some,
    ensures
        inside(texts(v[i].levels->0@), declared_texts(v)),
    decreases v.len(),
{
    let d = v.drop_last();
    let s = texts(v[i].levels->0@);
    let y = match v.last().levels {
        Some(l) => texts(l@),
        None => Seq::empty(),
    };
    if i < d.len() {
        assert(d[i] == v[i]);
        lemma_spec_inside(d, i);
    } else {
        assert(inside(s, y)) by {
            assert forall|k: int| 0 <= k < s.len() implies y.contains(#[trigger] s[k]) by {
                assert(y[k] == s[k]);
            }
        }
    }
    lemma_inside_add(s, declared_texts(d), y);
}

proof fn lemma_levels_inside(cols: Seq<ColumnV>, i: int)
    requires
        0 <= i < cols.len(),
    ensures
        inside(cols[i].levels, level_texts(cols)),
    decreases cols.len(),
{
    let d = cols.drop_last();
    let s = cols[i].levels;
    if i < d.len() {
        assert(d[i] == cols[i]);
        lemma_levels_inside(d, i);
    } else {
        assert(inside(s, cols.last().levels)) by {
            assert forall|k: int| 0 <= k < s.len() implies cols.last().levels.contains(
                #[trigger] s[k],
            ) by {
                assert(cols.last().levels[k] == s[k]);
            }
        }
    }
    lemma_inside_add(s, level_texts(d), cols.last().levels);
}

/// A JSON value is that of one whose strings are all in a list.
spec fn stands_in(v: JsonV, all: Seq<Seq<char>>) -> bool {
    exists|j: Json| #[trigger] j@ == v && inside(json_texts(j), all)
}

proof fn lemma_inside_trans(s: Seq<Seq<char>>, x: Seq<Seq<char>>, all: Seq<Seq<char>>)
    requires
        inside(s, x),
        inside(x, all),
    ensures
        inside(s, all),
{
    assert forall|i: int| 0 <= i < s.len() implies all.contains(#[trigger] s[i]) by {
        let k = x.index_of(s[i]);
        assert(all.contains(x[k]));
    }
}

proof fn lemma_list_inside(a: Seq<Json>, i: int)
    requires
        0 <= i < a.len(),
    ensures
        inside(json_texts(a[i]), list_texts(a)),
    decreases a.len(),
{
    let d = a.subrange(0, a.len() - 1);
    let y = json_texts(a[a.len() - 1]);
    if i < d.len() {
        assert(d[i] == a[i]);
        lemma_list_inside(d, i);
    } else {
        assert(inside(y, y));
    }
    lemma_inside_add(json_texts(a[i]), list_texts(d), y);
}

proof fn lemma_member_inside(o: Seq<(String, Json)>, i: int)
    requires
        0 <= i < o.len(),
    ensures
        inside(json_texts(o[i].1), member_texts(o)),
    decreases o.len(),
{
    let d = o.subrange(0, o.len() - 1);
    let y = json_texts(o[o.len() - 1].1);
    if i < d.len() {
        assert(d[i] == o[i]);
        lemma_member_inside(d, i);
    } else {
        assert(inside(y, y));
    }
    lemma_inside_add(json_texts(o[i].1), member_texts(d), y);
}

/// The items of an array stand where it stands.
proof fn lemma_item_stands(v: JsonV, all: Seq<Seq<char>>, i: int)
    requires
        stands_in(v, all),
        v is Array,
        0 <= i < v->Array_0.len(),
    ensures
        stands_in(v->Array_0[i], all),
{
    let j = choose|j: Json| #[trigger] j@ == v && inside(json_texts(j), all);
    assert(j is Array);
    let a = j->Array_0;
    assert(v->Array_0[i] == a@[i]@);
    lemma_list_inside(a@, i);
    lemma_inside_trans(json_texts(a@[i]), json_texts(j), all);
    assert(a@[i]@ == v->Array_0[i]);
}

/// The members of an object stand where it stands.
proof fn lemma_member_stands(v: JsonV, all: Seq<Seq<char>>, key: Seq<char>)
    requires
        stands_in(v, all),
        v is Object,
        v->Object_0.contains_key(key),
    ensures
        stands_in(v->Object_0[key], all),
{
    let j = choose|j: Json| #[trigger] j@ == v && inside(json_texts(j), all);
    assert(j is Object);
    let o = j->Object_0;
    lemma_last_member(o@, key);
    let i = last_member(o@, key)->0 as int;
    lemma_member_inside(o@, i);
    lemma_inside_trans(json_texts(o@[i].1), json_texts(j), all);
    assert(o@[i].1@ == v->Object_0[key]);
}

/// A string that stands somewhere is one of its strings.
proof fn lemma_text_stands(v: JsonV, all: Seq<Seq<char>>)
    requires
        stands_in(v, all),
        v is Str,
    ensures
        all.contains(v->Str_0),
{
    let j = choose|j: Json| #[trigger] j@ == v && inside(json_texts(j), all);
    assert(json_texts(j)[0] == v->Str_0);
}

/// The strings of a list under a key stand where the object stands.
proof fn lemma_list_stands(v: JsonV, all: Seq<Seq<char>>, key: Seq<char>)
    requires
        stands_in(v, all),
        v is Object,
        list_member(v->Object_0, key) is Ok,
        list_member(v->Object_0, key)->Ok_0 is Some,
    ensures
        inside(list_member(v->Object_0, key)->Ok_0->0, all),
{
    lemma_member_stands(v, all, key);
    let m = v->Object_0[key];
    let l = list_member(v->Object_0, key)->Ok_0->0;
    assert forall|i: int| 0 <= i < l.len() implies all.contains(#[trigger] l[i]) by {
        assert(m->Array_0[i] is Str);
        lemma_item_stands(m, all, i);
        lemma_text_stands(m->Array_0[i], all);
    }
}

proof fn lemma_window_inside(
    v: JsonV,
    all: Seq<Seq<char>>,
    a: Seq<JsonV>,
    col: u64,
    fields: Seq<crate::table::FieldV>,
    i: int,
)
    requires
        stands_in(v, all),
        v is Array,
        a.is_prefix_of(v->Array_0),
        window_entries(a, col, fields) is Ok,
        0 <= i < window_entries(a, col, fields)->Ok_0.len(),
        window_entries(a, col, fields)->Ok_0[i] is Some,
        window_entries(a, col, fields)->Ok_0[i]->0.levels is Some,
    ensures
        inside(window_entries(a, col, fields)->Ok_0[i]->0.levels->0, all),
    decreases a.len(),
{
    lemma_entries_len(a, col, fields);
    let d = a.drop_last();
    lemma_entries_len(d, col, fields);
    let p = window_entries(a, col, fields)->Ok_0;
    let q = window_entries(d, col, fields)->Ok_0;
    if i < d.len() {
        assert(p[i] == q[i]);
        lemma_window_inside(v, all, d, col, fields, i);
    } else {
        assert(v->Array_0[i] == a.last());
        lemma_item_stands(v, all, i);
        lemma_list_stands(a.last(), all, "levels"@);
    }
}

proof fn lemma_entries_inside(v: JsonV, all: Seq<Seq<char>>, a: Seq<JsonV>, i: int)
    requires
        stands_in(v, all),
        v is Array,
        a.is_prefix_of(v->Array_0),
        change_entries(a) is Ok,
        0 <= i < change_entries(a)->Ok_0.len(),
        change_entries(a)->Ok_0[i].levels is Some,
    ensures
        change_entries(a)->Ok_0.len() == a.len(),
        inside(change_entries(a)->Ok_0[i].levels->0, all),
    decreases a.len(),
{
    let d = a.drop_last();
    let p = change_entries(a)->Ok_0;
    let q = change_entries(d)->Ok_0;
    lemma_entries_count(d);
    if i < q.len() {
        assert(p[i] == q[i]);
        lemma_entries_inside(v, all, d, i);
    } else {
        assert(v->Array_0[i] == a.last());
        lemma_item_stands(v, all, i);
        lemma_list_stands(a.last(), all, "levels"@);
    }
}

proof fn lemma_entries_count(a: Seq<JsonV>)
    requires
        change_entries(a) is Ok,
    ensures
        change_entries(a)->Ok_0.len() == a.len(),
    decreases a.len(),
{
    if a.len() > 0 {
        lemma_entries_count(a.drop_last());
    }
}

proof fn lemma_records_inside(v: JsonV, all: Seq<Seq<char>>, a: Seq<JsonV>)
    requires
        stands_in(v, all),
        v is Array,
        a.is_prefix_of(v->Array_0),
        records_of(a) is Ok,
    ensures
        records_of(a)->Ok_0.len() == a.len(),
        forall|i: int|
            0 <= i < a.len() && (#[trigger] records_of(a)->Ok_0[i]).old_levels is Some ==> inside(
                records_of(a)->Ok_0[i].old_levels->0,
                all,
            ),
    decreases a.len(),
{
    if a.len() > 0 {
        let d = a.drop_last();
        let p = records_of(a)->Ok_0;
        let q = records_of(d)->Ok_0;
        lemma_records_inside(v, all, d);
        assert forall|i: int| 0 <= i < a.len() && (#[trigger] p[i]).old_levels is Some implies inside(
            p[i].old_levels->0,
            all,
        ) by {
            if i < q.len() {
                assert(p[i] == q[i]);
            } else {
                assert(v->Array_0[i] == a.last());
                lemma_item_stands(v, all, i);
                lemma_list_stands(a.last(), all, "old_levels"@);
            }
        }
    }
}

/// The levels of a table are among what an edit consults.
proof fn lemma_dicts_alike(t: TableV, a: NumeralsV, b: NumeralsV, job: EditJob)
    requires
        agree(t, a, b, job),
    ensures
        forall|j: int| 0 <= j < t.dicts.len() ==> parses_alike(a, b, #[trigger] t.dicts[j]),
{
    assert forall|j: int| 0 <= j < t.dicts.len() implies parses_alike(a, b, #[trigger] t.dicts[j]) by {
        lemma_dict_inside(t.dicts, j);
        lemma_inside_add(t.dicts[j], all_texts(t.dicts), brought(job));
        lemma_inside_alike(a, b, t.dicts[j], consulted(t, job));
    }
}

/// What an edit brings along is among what it consults.
proof fn lemma_brought_alike(
    t: TableV,
    a: NumeralsV,
    b: NumeralsV,
    job: EditJob,
    s: Seq<Seq<char>>,
)
    requires
        agree(t, a, b, job),
        inside(s, brought(job)),
    ensures
        parses_alike(a, b, s),
        list_alike(a, b, s),
{
    lemma_inside_add(s, all_texts(t.dicts), brought(job));
    lemma_inside_alike(a, b, s, consulted(t, job));
}

proof fn lemma_shaped(rows: Seq<Seq<(Seq<char>, bool)>>, r: int)
    requires
        first_ragged(rows) is None,
        0 <= r < rows.len(),
    ensures
        rows[r].len() == rows[0].len(),
    decreases rows.len(),
{
    let d = rows.drop_last();
    if r < d.len() {
        lemma_shaped(d, r);
        assert(d[r] == rows[r]);
        assert(d[0] == rows[0]);
    }
}

proof fn lemma_paste_agrees(
    t: TableV,
    a: NumeralsV,
    b: NumeralsV,
    job: EditJob,
    row: u64,
    col: u64,
    schema: Option<Json>,
)
    requires
        t.wf(),
        agree(t, a, b, job),
        job.edit == (EditOp::InsertBlock { row, col, target_schema: schema }),
        paste_asked(t, a, job.ingest, row, col, opt_json(schema), job.tail@) is Ok,
    ensures
        paste_agrees(
            paste_asked(t, a, job.ingest, row, col, opt_json(schema), job.tail@)->Ok_0,
            b,
        ),
{
    let p = paste_asked(t, a, job.ingest, row, col, opt_json(schema), job.tail@)->Ok_0;
    lemma_dicts_alike(t, a, b, job);
    let rows = p.cells;
    let told = match schema {
        Some(j) => json_texts(j),
        None => Seq::empty(),
    };
    assert(brought(job) == told + row_texts(rows));
    assert forall|c: int| 0 <= c < p.width() implies reads_alike(a, b, #[trigger] p.reads(c)) by {
        let ts = p.reads(c);
        assert forall|r: int| 0 <= r < ts.len() && (#[trigger] ts[r]) is Some implies alike(
            a,
            b,
            ts[r]->0,
        ) by {
            lemma_shaped(rows, r);
            lemma_row_inside(rows, r, c);
            let s = seq![ts[r]->0];
            assert(inside(s, row_texts(rows)));
            lemma_inside_add(s, told, row_texts(rows));
            lemma_brought_alike(t, a, b, job, s);
            assert(alike(a, b, s[0]));
        }
    }
    assert forall|c: int|
        0 <= c < p.width() && (#[trigger] p.entry(c)) is Some && p.entry(c)->0.levels
            is Some implies parses_alike(a, b, p.entry(c)->0.levels->0) by {
        let j = schema->0;
        let v = j@;
        assert(inside(json_texts(j), told));
        assert(stands_in(v, told));
        lemma_window_inside(v, told, v->Array_0, col, t.fields, c);
        let l = p.entry(c)->0.levels->0;
        lemma_inside_add(l, told, row_texts(rows));
        lemma_brought_alike(t, a, b, job, l);
    }
}

proof fn lemma_plan_alike(
    t: TableV,
    a: NumeralsV,
    b: NumeralsV,
    job: EditJob,
    at: int,
    cols: Seq<OutColV>,
    given: Seq<Seq<Cell>>,
)
    requires
        t.wf(),
        agree(t, a, b, job),
        0 <= at <= t.fields.len(),
        forall|i: int| 0 <= i < cols.len() ==> parses_alike(a, b, (#[trigger] cols[i]).levels),
    ensures
        schema_json_alike(a, b, plan_with(t, at, cols), given),
        schema_json_alike(a, b, pass_plan(t), given),
        forall|n: int|
            0 <= n && at + n <= t.fields.len() ==> #[trigger] schema_json_alike(
                a,
                b,
                plan_without(t, at, n),
                given,
            ),
{
    lemma_dicts_alike(t, a, b, job);
    let all = pass_plan(t);
    assert forall|j: int| 0 <= j < all.len() implies parses_alike(
        a,
        b,
        (#[trigger] all[j]).levels,
    ) by {
        assert(parses_alike(a, b, t.dicts[j]));
    }
    lemma_schema_alike(a, b, all, given);
    let with = plan_with(t, at, cols);
    assert forall|c: int| 0 <= c < with.len() implies parses_alike(
        a,
        b,
        (#[trigger] with[c]).levels,
    ) by {
        if c < at {
            assert(with[c] == all[c]);
        } else if c < at + cols.len() {
            assert(with[c] == cols[c - at]);
        } else {
            assert(with[c] == all[c - cols.len()]);
        }
    }
    lemma_schema_alike(a, b, with, given);
    assert forall|n: int| 0 <= n && at + n <= t.fields.len() implies #[trigger] schema_json_alike(
        a,
        b,
        plan_without(t, at, n),
        given,
    ) by {
        let less = plan_without(t, at, n);
        assert forall|c: int| 0 <= c < less.len() implies parses_alike(
            a,
            b,
            (#[trigger] less[c]).levels,
        ) by {
            if c < at {
                assert(less[c] == all[c]);
            } else {
                assert(less[c] == all[c + n]);
            }
        }
        lemma_schema_alike(a, b, less, given);
    }
}

/// Frontends are told the same of the columns of a plan.
spec fn schema_json_alike(
    a: NumeralsV,
    b: NumeralsV,
    plan: Seq<OutColV>,
    cols: Seq<Seq<Cell>>,
) -> bool {
    crate::wire::schema_json(plan, cols, a) == crate::wire::schema_json(plan, cols, b)
}

proof fn lemma_delete_alike(
    t: TableV,
    a: NumeralsV,
    b: NumeralsV,
    job: EditJob,
    at: u64,
    count: u64,
    revision: u64,
    w: Result<Seq<u8>, Seq<char>>,
)
    requires
        t.wf(),
        agree(t, a, b, job),
    ensures
        delete_rows_outcome(t, a, at, count, revision, w) == delete_rows_outcome(
            t,
            b,
            at,
            count,
            revision,
            w,
        ),
        delete_cols_outcome(t, a, at, count, revision, w) == delete_cols_outcome(
            t,
            b,
            at,
            count,
            revision,
            w,
        ),
{
    lemma_plan_alike(
        t,
        a,
        b,
        job,
        0,
        Seq::empty(),
        without_rows(t, at as int, count as nat).cols,
    );
    if at + count <= t.fields.len() {
        let given = without_cols(t, at as int, count as int).cols;
        lemma_plan_alike(t, a, b, job, at as int, Seq::empty(), given);
        assert(schema_json_alike(a, b, plan_without(t, at as int, count as int), given));
    }
}

proof fn lemma_insert_cols_alike(
    t: TableV,
    a: NumeralsV,
    b: NumeralsV,
    job: EditJob,
    at: u64,
    columns: Vec<NewColumnSpec>,
)
    requires
        t.wf(),
        agree(t, a, b, job),
        job.edit == (EditOp::InsertCols { at, columns }),
    ensures
        insert_cols_outcome(t, a, at, spec_views(columns@), job.revision) == insert_cols_outcome(
            t,
            b,
            at,
            spec_views(columns@),
            job.revision,
        ),
{
    let specs = spec_views(columns@);
    if at <= t.fields.len() {
        let names = inserted_names(specs, crate::edit_cols::field_names(t), at);
        let cols = inserted_cols(specs, names);
        assert forall|i: int| 0 <= i < cols.len() implies parses_alike(
            a,
            b,
            (#[trigger] cols[i]).levels,
        ) by {
            if columns@[i].levels is Some {
                lemma_spec_inside(columns@, i);
                lemma_brought_alike(t, a, b, job, texts(columns@[i].levels->0@));
            }
        }
        let given = with_cols(
            t,
            at as int,
            crate::edit_cols::null_columns(cols, t.rows),
        ).cols;
        lemma_plan_alike(t, a, b, job, at as int, cols, given);
    }
}

/// What an inverse asks: its recorded strings and its carried levels read alike.
spec fn inverse_agrees(
    t: TableV,
    a: NumeralsV,
    b: NumeralsV,
    ops: JsonV,
    blob: Result<Option<Seq<ColumnV>>, Seq<char>>,
) -> bool {
    &&& t.wf()
    &&& forall|j: int| 0 <= j < t.dicts.len() ==> parses_alike(a, b, #[trigger] t.dicts[j])
    &&& decoded(blob) is Ok ==> forall|i: int|
        0 <= i < decoded(blob)->Ok_0.len() ==> parses_alike(
            a,
            b,
            (#[trigger] decoded(blob)->Ok_0[i]).levels,
        )
    &&& array_at(ops, "columns"@) is Some ==> records_alike(a, b, array_at(ops, "columns"@)->0)
}

spec fn records_alike(a: NumeralsV, b: NumeralsV, v: Seq<JsonV>) -> bool {
    records_of(v) is Ok ==> forall|i: int|
        0 <= i < records_of(v)->Ok_0.len() && (#[trigger] records_of(v)->Ok_0[i]).old_levels is Some
            ==> parses_alike(a, b, records_of(v)->Ok_0[i].old_levels->0)
}

proof fn lemma_restore_rows_alike(
    t: TableV,
    a: NumeralsV,
    b: NumeralsV,
    ops: JsonV,
    blob: Result<Option<Seq<ColumnV>>, Seq<char>>,
    revision: u64,
)
    requires
        inverse_agrees(t, a, b, ops, blob),
        same_but_told(
            restore_rows_outcome(t, a, ops, blob, revision),
            restore_rows_outcome(t, b, ops, blob, revision),
        ),
    ensures
        restore_rows_outcome(t, a, ops, blob, revision) == restore_rows_outcome(
            t,
            b,
            ops,
            blob,
            revision,
        ),
{
    let x = restore_rows_outcome(t, a, ops, blob, revision);
    if x is Ok {
        let inv = decoded(blob)->Ok_0;
        let plan = restore_rows_plan(t, inv);
        assert forall|c: int| 0 <= c < plan.len() implies parses_alike(
            a,
            b,
            (#[trigger] plan[c]).levels,
        ) by {
            assert(parses_alike(a, b, inv[c].levels));
        }
        lemma_schema_alike(a, b, plan, x->Ok_0.table.cols);
    }
}

proof fn lemma_beyond_named(s: Seq<u64>, n: nat, j: u64)
    requires
        beyond(s, n).contains(j),
    ensures
        first_place(s, j) is Some,
    decreases s.len(),
{
    if s.len() > 0 {
        let d = s.drop_last();
        if s.last() >= n {
            let k = beyond(s, n).index_of(j);
            if k < beyond(d, n).len() {
                assert(beyond(d, n)[k] == j);
                lemma_beyond_named(d, n, j);
            }
        } else {
            lemma_beyond_named(d, n, j);
        }
    }
}

proof fn lemma_place_inside(s: Seq<u64>, j: u64)
    ensures
        first_place(s, j) is Some ==> first_place(s, j)->0 < s.len(),
    decreases s.len(),
{
    if s.len() > 0 {
        lemma_place_inside(s.drop_last(), j);
    }
}

proof fn lemma_restore_block_alike(
    t: TableV,
    a: NumeralsV,
    b: NumeralsV,
    ops: JsonV,
    blob: Result<Option<Seq<ColumnV>>, Seq<char>>,
    revision: u64,
    w: Result<Seq<u8>, Seq<char>>,
)
    requires
        inverse_agrees(t, a, b, ops, blob),
        t.fields.len() <= u64::MAX,
        same_but_told(
            restore_block_outcome(t, a, ops, blob, revision, w),
            restore_block_outcome(t, b, ops, blob, revision, w),
        ),
    ensures
        restore_block_outcome(t, a, ops, blob, revision, w) == restore_block_outcome(
            t,
            b,
            ops,
            blob,
            revision,
            w,
        ),
{
    let x = restore_block_outcome(t, a, ops, blob, revision, w);
    if x is Ok {
        let (p, inv) = block_restore(t, ops, blob)->Ok_0;
        let plan = restored_block_cols(t, p, inv);
        let n = t.fields.len();
        assert forall|j: int| 0 <= j < plan.len() implies parses_alike(
            a,
            b,
            (#[trigger] plan[j]).levels,
        ) by {
            lemma_place_inside(p.indices, j as u64);
            if first_place(p.indices, j as u64) is Some {
                let i = first_place(p.indices, j as u64)->0 as int;
                assert(parses_alike(a, b, inv[i].levels));
            } else if j >= n {
                let run = tail_run(n as u64, p.old_cols);
                assert(run[j - n] == j as u64);
                assert(beyond(p.indices, n) =~= run);
                assert(beyond(p.indices, n).contains(j as u64));
                lemma_beyond_named(p.indices, n, j as u64);
            } else {
                assert(parses_alike(a, b, t.dicts[j]));
            }
        }
        lemma_schema_alike(a, b, plan, x->Ok_0.table.cols);
    }
}

proof fn lemma_record_places(names: Seq<Seq<char>>, rs: Seq<RecordV>)
    requires
        record_columns(names, rs) is Ok,
    ensures
        record_columns(names, rs)->Ok_0.len() == rs.len(),
        forall|i: int|
            0 <= i < rs.len() ==> 0 <= #[trigger] record_columns(names, rs)->Ok_0[i] < names.len(),
    decreases rs.len(),
{
    if rs.len() > 0 {
        lemma_record_places(names, rs.drop_last());
        lemma_first_text(names, rs.last().current);
    }
}

proof fn lemma_restored_alike(
    t: TableV,
    a: NumeralsV,
    b: NumeralsV,
    s: SchemaRestoreV,
    names: Seq<Seq<char>>,
)
    requires
        t.wf(),
        forall|j: int| 0 <= j < t.dicts.len() ==> parses_alike(a, b, #[trigger] t.dicts[j]),
        forall|i: int| 0 <= i < s.inv.len() ==> parses_alike(a, b, (#[trigger] s.inv[i]).levels),
        forall|i: int|
            0 <= i < s.records.len() && (#[trigger] s.records[i]).old_levels is Some
                ==> parses_alike(a, b, s.records[i].old_levels->0),
        s.at.len() == s.records.len(),
        forall|i: int| 0 <= i < s.at.len() ==> 0 <= #[trigger] s.at[i] < t.fields.len(),
        forall|i: int|
            0 <= i < s.records.len() && (#[trigger] s.records[i]).capture ==> column_names(
                s.inv,
            ).contains(s.records[i].old_name),
        restored_schema_cols(t, s, names) is Ok,
    ensures
        forall|c: int|
            0 <= c < restored_schema_cols(t, s, names)->Ok_0.0.len() ==> parses_alike(
                a,
                b,
                (#[trigger] restored_schema_cols(t, s, names)->Ok_0.0[c]).levels,
            ),
    decreases names.len(),
{
    if names.len() > 0 {
        let d = names.drop_last();
        let name = names.last();
        lemma_restored_alike(t, a, b, s, d);
        lemma_first_text(old_names(s.records), name);
        lemma_first_text(crate::edit_cols::field_names(t), name);
        lemma_first_text(column_names(s.inv), name);
        let x = restored_schema_cols(t, s, names)->Ok_0.0;
        let y = restored_schema_cols(t, s, d)->Ok_0.0;
        if first_text(old_names(s.records), name) is Some {
            let i = first_text(old_names(s.records), name)->0 as int;
            let r = s.records[i];
            assert(r.old_name == name);
            assert(0 <= s.at[i] < t.fields.len());
            assert(parses_alike(a, b, t.dicts[s.at[i]]));
            if r.capture {
                let k = first_text(column_names(s.inv), name)->0 as int;
                assert(parses_alike(a, b, s.inv[k].levels));
            }
        } else {
            let j = first_text(crate::edit_cols::field_names(t), name)->0 as int;
            assert(parses_alike(a, b, t.dicts[j]));
        }
        assert forall|c: int| 0 <= c < x.len() implies parses_alike(
            a,
            b,
            (#[trigger] x[c]).levels,
        ) by {
            if c < y.len() {
                assert(x[c] == y[c]);
            }
        }
    }
}

proof fn lemma_restore_schema_alike(
    t: TableV,
    a: NumeralsV,
    b: NumeralsV,
    ops: JsonV,
    size: nat,
    blob: Result<Option<Seq<ColumnV>>, Seq<char>>,
    revision: u64,
    w: Result<Seq<u8>, Seq<char>>,
)
    requires
        inverse_agrees(t, a, b, ops, blob),
        same_but_told(
            restore_schema_outcome(t, a, ops, size, blob, revision, w),
            restore_schema_outcome(t, b, ops, size, blob, revision, w),
        ),
    ensures
        restore_schema_outcome(t, a, ops, size, blob, revision, w) == restore_schema_outcome(
            t,
            b,
            ops,
            size,
            blob,
            revision,
            w,
        ),
{
    let x = restore_schema_outcome(t, a, ops, size, blob, revision, w);
    if x is Ok {
        let s = schema_restore(t, ops, size, blob)->Ok_0;
        let plan = restored_schema_cols(t, s, s.order)->Ok_0.0;
        lemma_record_places(crate::edit_cols::field_names(t), s.records);
        assert forall|i: int| 0 <= i < s.records.len() && (
        #[trigger] s.records[i]).capture implies column_names(s.inv).contains(
            s.records[i].old_name,
        ) by {
            lemma_some_captured(s.records, i);
            lemma_captured(s.records, column_names(s.inv), i);
        }
        assert(records_alike(a, b, array_at(ops, "columns"@)->0));
        lemma_restored_alike(t, a, b, s, s.order);
        lemma_schema_alike(a, b, plan, x->Ok_0.table.cols);
    }
}

proof fn lemma_restore_cols_alike(
    t: TableV,
    a: NumeralsV,
    b: NumeralsV,
    job: EditJob,
    ops: JsonV,
    blob: Result<Option<Seq<ColumnV>>, Seq<char>>,
    revision: u64,
)
    requires
        agree(t, a, b, job),
        inverse_agrees(t, a, b, ops, blob),
    ensures
        restore_cols_outcome(t, a, ops, blob, revision) == restore_cols_outcome(
            t,
            b,
            ops,
            blob,
            revision,
        ),
{
    if program_u64(ops, "at"@) is Ok && decoded(blob) is Ok {
        let at = program_u64(ops, "at"@)->Ok_0;
        let inv = decoded(blob)->Ok_0;
        if at <= t.fields.len() {
            let cols = restored_cols(inv);
            assert forall|i: int| 0 <= i < cols.len() implies parses_alike(
                a,
                b,
                (#[trigger] cols[i]).levels,
            ) by {
                assert(parses_alike(a, b, inv[i].levels));
            }
            lemma_plan_alike(t, a, b, job, at as int, cols, with_cols(t, at as int, inv).cols);
        }
    }
}

proof fn lemma_inverse_agrees(t: TableV, a: NumeralsV, b: NumeralsV, job: EditJob)
    requires
        t.wf(),
        agree(t, a, b, job),
        job.edit is ApplyInverse,
    ensures
        ({
            let inverse = job.edit->ApplyInverse_inverse;
            inverse_agrees(t, a, b, inverse@.ops, blob_columns(job.tail@))
        }),
{
    let ops = job.edit->ApplyInverse_inverse.ops;
    let v = ops@;
    let blob = blob_columns(job.tail@);
    let told = json_texts(ops);
    let carried = match decoded(blob) {
        Ok(cols) => level_texts(cols),
        Err(_) => Seq::empty(),
    };
    assert(brought(job) == told + carried);
    lemma_dicts_alike(t, a, b, job);
    if decoded(blob) is Ok {
        let cols = decoded(blob)->Ok_0;
        assert forall|i: int| 0 <= i < cols.len() implies parses_alike(
            a,
            b,
            (#[trigger] cols[i]).levels,
        ) by {
            lemma_levels_inside(cols, i);
            lemma_inside_add(cols[i].levels, told, carried);
            lemma_brought_alike(t, a, b, job, cols[i].levels);
        }
    }
    if array_at(v, "columns"@) is Some {
        let list = array_at(v, "columns"@)->0;
        assert(inside(told, told));
        assert(stands_in(v, told));
        lemma_member_stands(v, told, "columns"@);
        if records_of(list) is Ok {
            lemma_records_inside(JsonV::Array(list), told, list);
            let rs = records_of(list)->Ok_0;
            assert forall|i: int| 0 <= i < rs.len() && (
            #[trigger] rs[i]).old_levels is Some implies parses_alike(
                a,
                b,
                rs[i].old_levels->0,
            ) by {
                lemma_inside_add(rs[i].old_levels->0, told, carried);
                lemma_brought_alike(t, a, b, job, rs[i].old_levels->0);
            }
        }
    }
}

#[verifier::rlimit(50)]
proof fn lemma_inverse_alike(
    t: TableV,
    a: NumeralsV,
    b: NumeralsV,
    job: EditJob,
    w: Result<Seq<u8>, Seq<char>>,
)
    requires
        t.wf(),
        t.fields.len() <= u64::MAX,
        agree(t, a, b, job),
        job.edit is ApplyInverse,
    ensures
        ({
            let inverse = job.edit->ApplyInverse_inverse;
            let size = job.tail@.len();
            let blob = blob_columns(job.tail@);
            inverse_outcome(t, a, inverse@, size, blob, job.revision, w) == inverse_outcome(
                t,
                b,
                inverse@,
                size,
                blob,
                job.revision,
                w,
            )
        }),
{
    let ops = job.edit->ApplyInverse_inverse@.ops;
    let size = job.tail@.len();
    let blob = blob_columns(job.tail@);
    let revision = job.revision;
    lemma_inverse_agrees(t, a, b, job);
    lemma_programs_differ();
    let op = text_at(ops, "op"@);
    if op == Some("restore_rows"@) {
        lemma_restore_rows_told(t, a, b, ops, blob, revision);
        lemma_restore_rows_alike(t, a, b, ops, blob, revision);
    } else if op == Some("restore_cols"@) {
        lemma_restore_cols_alike(t, a, b, job, ops, blob, revision);
    } else if op == Some("restore_block"@) {
        lemma_restore_block_told(t, a, b, ops, blob, revision, w);
        lemma_restore_block_alike(t, a, b, ops, blob, revision, w);
    } else if op == Some("restore_schema"@) {
        lemma_restore_schema_told(t, a, b, ops, size, blob, revision, w);
        lemma_restore_schema_alike(t, a, b, ops, size, blob, revision, w);
    } else if program_u64(ops, "at"@) is Ok && program_u64(ops, "count"@) is Ok {
        let at = program_u64(ops, "at"@)->Ok_0;
        let count = program_u64(ops, "count"@)->Ok_0;
        lemma_delete_alike(t, a, b, job, at, count, revision, w);
    }
}

/// An edit asks nothing of numerals but what it consults: numerals that agree on the consulted
/// texts, on how the numbers of the table show and on whether texts are made canonical give the
/// same outcome, whichever edit it is.
pub proof fn law_consulted_texts_decide(
    t: TableV,
    a: NumeralsV,
    b: NumeralsV,
    job: EditJob,
    w: Result<Seq<u8>, Seq<char>>,
)
    requires
        t.wf(),
        t.fields.len() <= u64::MAX,
        agree(t, a, b, job),
    ensures
        edit_outcome(t, a, job, w) == edit_outcome(t, b, job, w),
        edit_capture(t, a, job) == edit_capture(t, b, job),
{
    match job.edit {
        EditOp::InsertBlock { row, col, target_schema } => {
            let x = paste_asked(t, a, job.ingest, row, col, opt_json(target_schema), job.tail@);
            if x is Ok {
                lemma_paste_agrees(t, a, b, job, row, col, target_schema);
                lemma_paste_alike(x->Ok_0, b, job.revision, w);
                assert(paste_asked(
                    t,
                    b,
                    job.ingest,
                    row,
                    col,
                    opt_json(target_schema),
                    job.tail@,
                )->Ok_0 == under_numerals(x->Ok_0, b));
            }
        },
        EditOp::InsertRows { .. } => {},
        EditOp::DeleteRows { at, count } => {
            lemma_delete_alike(t, a, b, job, at, count, job.revision, w);
        },
        EditOp::InsertCols { at, columns } => {
            lemma_insert_cols_alike(t, a, b, job, at, columns);
        },
        EditOp::DeleteCols { at, count } => {
            lemma_delete_alike(t, a, b, job, at, count, job.revision, w);
        },
        EditOp::SchemaChange { target_schema } => {
            lemma_schema_agrees(t, a, b, job);
            lemma_schema_change_alike(
                t,
                a,
                b,
                job.ingest.sort_limit as nat,
                target_schema@,
                job.revision,
                w,
            );
        },
        EditOp::ApplyInverse { .. } => {
            lemma_inverse_alike(t, a, b, job, w);
        },
    }
}

proof fn lemma_schema_agrees(t: TableV, a: NumeralsV, b: NumeralsV, job: EditJob)
    requires
        t.wf(),
        agree(t, a, b, job),
        job.edit is SchemaChange,
    ensures
        table_agrees(t, a, b),
        ({
            let target = job.edit->SchemaChange_target_schema@;
            asked_changes(t, target) is Ok ==> forall|k: int|
                0 <= k < asked_changes(t, target)->Ok_0.len() && (
                #[trigger] asked_changes(t, target)->Ok_0[k]).e.levels is Some ==> parses_alike(
                    a,
                    b,
                    asked_changes(t, target)->Ok_0[k].e.levels->0,
                )
        }),
{
    lemma_dicts_alike(t, a, b, job);
    let j = job.edit->SchemaChange_target_schema;
    let v = j@;
    let told = json_texts(j);
    assert(inside(told, told));
    assert(stands_in(v, told));
    if asked_changes(t, v) is Ok {
        let cs = asked_changes(t, v)->Ok_0;
        let es = change_entries(v->Array_0)->Ok_0;
        let js = entry_columns(t.fields, es)->Ok_0;
        lemma_classified(t, es, js);
        assert forall|k: int| 0 <= k < cs.len() && (
        #[trigger] cs[k]).e.levels is Some implies parses_alike(a, b, cs[k].e.levels->0) by {
            assert(cs[k].e == es[k]);
            lemma_entries_inside(v, told, v->Array_0, k);
            lemma_brought_alike(t, a, b, job, es[k].levels->0);
        }
    }
}

} // verus!
