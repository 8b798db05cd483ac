//! What frontends are told of the columns after an edit.
use vstd::prelude::*;
use vstd::string::*;
use crate::engine::OutColV;
use crate::json::JsonV;
use crate::messages::EditOp;
use crate::number::{finite, integral, unified, NumeralsV};
use crate::outcome::{EditJob, OutcomeV};
use crate::serve::edit_outcome;
use crate::table::{Cell, FieldV, KindV, TableV};
use crate::wire::{
    column_json, lemma_numbers, level_numbers, numbers, only_integers, schema_json, value_count,
};

verus! {

/// The finite numbers of a list of cells, the two zeros taken for one.
pub open spec fn values_of(cells: Seq<Cell>) -> Set<u64> {
    Set::new(
        |b: u64|
            exists|i: int|
                0 <= i < cells.len() && (#[trigger] cells[i]) is Some && finite(cells[i]->0) && b
                    == unified(cells[i]->0),
    )
}

/// The finite numbers that a list of texts spells, the two zeros taken for one.
pub open spec fn spelled_by(levels: Seq<Seq<char>>, num: NumeralsV) -> Set<u64> {
    Set::new(
        |b: u64|
            exists|i: int|
                0 <= i < levels.len() && num.parse(#[trigger] levels[i]) is Some && finite(
                    num.parse(levels[i])->0,
                ) && b == unified(num.parse(levels[i])->0),
    )
}

/// How many cells of a list hold a value.
pub open spec fn filled(cells: Seq<Cell>) -> nat {
    cells.filter(|c: Cell| c is Some).len()
}

/// An entry tells of a scale: its names, its type, whether all of its numbers are integers, how
/// many there are, and how many different ones, up to a thousand.
pub open spec fn tells_scale(v: JsonV, f: FieldV, cells: Seq<Cell>) -> bool {
    let m = v->Object_0;
    let all = values_of(cells).len();
    &&& v is Object
    &&& m.contains_key("name"@) && m["name"@] == JsonV::Str(f.name)
    &&& m.contains_key("display_name"@) && m["display_name"@] == JsonV::Str(f.display)
    &&& m.contains_key("type"@) && m["type"@] == JsonV::Str("scale"@)
    &&& m.contains_key("all_integer"@) && m["all_integer"@] == JsonV::Bool(
        forall|i: int|
            0 <= i < cells.len() && (#[trigger] cells[i]) is Some ==> integral(cells[i]->0),
    )
    &&& m.contains_key("value_count"@) && m["value_count"@] == JsonV::Number(
        filled(cells) as u64,
    )
    &&& m.contains_key("distinct_count"@) && m["distinct_count"@] == JsonV::Number(
        if all > 1000 {
            1000
        } else {
            all as u64
        },
    )
    &&& forall|k: Seq<char>| #[trigger]
        m.contains_key(k) ==> k == "name"@ || k == "display_name"@ || k == "type"@ || k
            == "all_integer"@ || k == "value_count"@ || k == "distinct_count"@
}

/// An entry tells of a categorical column: its names, its type, its first ten thousand levels,
/// how many cells hold a value, how many levels there are, how many different numbers they
/// spell, and its labels if it has any.
pub open spec fn tells_levels(
    v: JsonV,
    f: FieldV,
    levels: Seq<Seq<char>>,
    cells: Seq<Cell>,
    num: NumeralsV,
) -> bool {
    let m = v->Object_0;
    let a = m["levels"@]->Array_0;
    &&& v is Object
    &&& m.contains_key("name"@) && m["name"@] == JsonV::Str(f.name)
    &&& m.contains_key("display_name"@) && m["display_name"@] == JsonV::Str(f.display)
    &&& m.contains_key("type"@) && m["type"@] == JsonV::Str(
        if f.kind == (KindV::Dictionary { ordered: true }) {
            "ordinal"@
        } else {
            "nominal"@
        },
    )
    &&& m.contains_key("levels"@) && m["levels"@] is Array && a.len() == if levels.len() > 10_000 {
        10_000
    } else {
        levels.len()
    } && forall|i: int| 0 <= i < a.len() ==> #[trigger] a[i] == JsonV::Str(levels[i])
    &&& m.contains_key("value_count"@) && m["value_count"@] == JsonV::Number(
        filled(cells) as u64,
    )
    &&& m.contains_key("distinct_count"@) && m["distinct_count"@] == JsonV::Number(
        levels.to_set().len() as u64,
    )
    &&& m.contains_key("numeric_levels"@) && m["numeric_levels"@] == JsonV::Number(
        spelled_by(levels, num).len() as u64,
    )
    &&& m.contains_key("labels"@) <==> exists|k: Seq<char>| f.labels.contains_key(k)
    &&& m.contains_key("labels"@) ==> m["labels"@] is Object && (forall|k: Seq<char>|
        (#[trigger] m["labels"@]->Object_0.contains_key(k)) <==> f.labels.contains_key(k)) && (
    forall|k: Seq<char>| #[trigger]
        f.labels.contains_key(k) ==> m["labels"@]->Object_0[k] == JsonV::Str(f.labels[k]))
    &&& forall|k: Seq<char>| #[trigger]
        m.contains_key(k) ==> k == "name"@ || k == "display_name"@ || k == "type"@ || k
            == "levels"@ || k == "value_count"@ || k == "distinct_count"@ || k
            == "numeric_levels"@ || k == "labels"@
}

/// The names of the members differ.
pub proof fn lemma_members_differ()
    ensures
        "name"@.len() == 4,
        "display_name"@.len() == 12,
        "type"@.len() == 4,
        "name"@ != "type"@,
        "all_integer"@.len() == 11,
        "value_count"@.len() == 11,
        "all_integer"@ != "value_count"@,
        "distinct_count"@.len() == 14,
        "numeric_levels"@.len() == 14,
        "distinct_count"@ != "numeric_levels"@,
        "levels"@.len() == 6,
        "labels"@.len() == 6,
        "levels"@ != "labels"@,
{
    reveal_strlit("name");
    reveal_strlit("display_name");
    reveal_strlit("type");
    reveal_strlit("all_integer");
    reveal_strlit("value_count");
    reveal_strlit("distinct_count");
    reveal_strlit("numeric_levels");
    reveal_strlit("levels");
    reveal_strlit("labels");
    assert("name"@[0] == 'n' && "type"@[0] == 't');
    assert("all_integer"@[0] == 'a' && "value_count"@[0] == 'v');
    assert("distinct_count"@[0] == 'd' && "numeric_levels"@[0] == 'n');
    assert("levels"@[1] == 'e' && "labels"@[1] == 'a');
}

proof fn lemma_filled(cells: Seq<Cell>)
    ensures
        value_count(cells) == filled(cells),
    decreases cells.len(),
{
    reveal(Seq::filter);
    if cells.len() > 0 {
        lemma_filled(cells.drop_last());
    }
}

proof fn lemma_values(cells: Seq<Cell>)
    ensures
        numbers(cells) == values_of(cells),
{
    assert forall|b: u64| numbers(cells).contains(b) == #[trigger] values_of(cells).contains(b) by {
        lemma_numbers(cells, b);
    }
    assert(numbers(cells) =~= values_of(cells));
}

proof fn lemma_spelled_at(levels: Seq<Seq<char>>, num: NumeralsV, b: u64)
    ensures
        level_numbers(levels, num).contains(b) <==> spelled_by(levels, num).contains(b),
    decreases levels.len(),
{
    if levels.len() > 0 {
        let d = levels.drop_last();
        let m = levels.len() - 1;
        lemma_spelled_at(d, num, b);
        assert(levels[m] == levels.last());
        if spelled_by(d, num).contains(b) {
            let i = choose|i: int|
                0 <= i < d.len() && num.parse(#[trigger] d[i]) is Some && finite(
                    num.parse(d[i])->0,
                ) && b == unified(num.parse(d[i])->0);
            assert(levels[i] == d[i]);
        }
        if spelled_by(levels, num).contains(b) {
            let i = choose|i: int|
                0 <= i < levels.len() && num.parse(#[trigger] levels[i]) is Some && finite(
                    num.parse(levels[i])->0,
                ) && b == unified(num.parse(levels[i])->0);
            if i < m {
                assert(d[i] == levels[i]);
            }
        }
    }
}

proof fn lemma_spelled(levels: Seq<Seq<char>>, num: NumeralsV)
    ensures
        level_numbers(levels, num) == spelled_by(levels, num),
{
    assert forall|b: u64| #[trigger]
        level_numbers(levels, num).contains(b) == spelled_by(levels, num).contains(b) by {
        lemma_spelled_at(levels, num, b);
    }
    assert(level_numbers(levels, num) =~= spelled_by(levels, num));
}

proof fn lemma_tells_scale(f: FieldV, levels: Seq<Seq<char>>, cells: Seq<Cell>, num: NumeralsV)
    requires
        f.kind is Float64,
    ensures
        tells_scale(column_json(f, levels, cells, num), f, cells),
{
    lemma_members_differ();
    lemma_filled(cells);
    lemma_values(cells);
    assert(only_integers(cells) <==> forall|i: int|
        0 <= i < cells.len() && (#[trigger] cells[i]) is Some ==> integral(cells[i]->0));
}

proof fn lemma_tells_levels(f: FieldV, levels: Seq<Seq<char>>, cells: Seq<Cell>, num: NumeralsV)
    requires
        f.kind is Dictionary,
    ensures
        tells_levels(column_json(f, levels, cells, num), f, levels, cells, num),
{
    lemma_members_differ();
    lemma_filled(cells);
    lemma_spelled(levels, num);
    if !(f.labels =~= Map::empty()) {
        if forall|k: Seq<char>| !f.labels.contains_key(k) {
            assert(f.labels =~= Map::empty());
        }
    }
}

/// What is told after an edit is what is told of a plan that has the columns of the new table.
spec fn told(o: OutcomeV, num: NumeralsV) -> bool {
    o.schema is Some ==> exists|plan: Seq<OutColV>|
        {
            &&& o.schema->0 == #[trigger] schema_json(plan, o.table.cols, num)
            &&& plan.len() == o.table.fields.len()
            &&& forall|c: int|
                #![trigger plan[c]]
                0 <= c < plan.len() ==> plan[c].field == o.table.fields[c] && plan[c].levels
                    == o.table.dicts[c]
        }
}

proof fn lemma_told_of(o: OutcomeV, num: NumeralsV, plan: Seq<OutColV>)
    requires
        o.schema is Some ==> o.schema->0 == schema_json(plan, o.table.cols, num),
        plan.len() == o.table.fields.len(),
        forall|c: int|
            #![trigger plan[c]]
            0 <= c < plan.len() ==> plan[c].field == o.table.fields[c] && plan[c].levels
                == o.table.dicts[c],
    ensures
        told(o, num),
{
}

proof fn lemma_told_inverse(
    t: TableV,
    num: NumeralsV,
    ops: JsonV,
    blob: Result<Option<Seq<crate::capture::ColumnV>>, Seq<char>>,
    size: nat,
    revision: u64,
    w: Result<Seq<u8>, Seq<char>>,
)
    requires
        t.wf(),
    ensures
        ({
            let x = crate::edit_rows::restore_rows_outcome(t, num, ops, blob, revision);
            x is Ok ==> told(x->Ok_0, num)
        }),
        ({
            let x = crate::edit_cols::restore_cols_outcome(t, num, ops, blob, revision);
            x is Ok ==> told(x->Ok_0, num)
        }),
        ({
            let x = crate::restore_block::restore_block_outcome(t, num, ops, blob, revision, w);
            x is Ok ==> told(x->Ok_0, num)
        }),
        ({
            let x = crate::restore_schema::restore_schema_outcome(
                t,
                num,
                ops,
                size,
                blob,
                revision,
                w,
            );
            x is Ok ==> told(x->Ok_0, num)
        }),
{
    lemma_told_restored_rows(t, num, ops, blob, revision);
    lemma_told_restored_cols(t, num, ops, blob, revision);
    lemma_told_restored_block(t, num, ops, blob, revision, w);
    lemma_told_restored_schema(t, num, ops, blob, size, revision, w);
}

proof fn lemma_told_restored_rows(
    t: TableV,
    num: NumeralsV,
    ops: JsonV,
    blob: Result<Option<Seq<crate::capture::ColumnV>>, Seq<char>>,
    revision: u64,
)
    ensures
        ({
            let x = crate::edit_rows::restore_rows_outcome(t, num, ops, blob, revision);
            x is Ok ==> told(x->Ok_0, num)
        }),
{
    let x = crate::edit_rows::restore_rows_outcome(t, num, ops, blob, revision);
    if x is Ok {
        let inv = crate::capture::decoded(blob)->Ok_0;
        lemma_told_of(x->Ok_0, num, crate::edit_rows::restore_rows_plan(t, inv));
    }
}

proof fn lemma_told_restored_cols(
    t: TableV,
    num: NumeralsV,
    ops: JsonV,
    blob: Result<Option<Seq<crate::capture::ColumnV>>, Seq<char>>,
    revision: u64,
)
    requires
        t.wf(),
    ensures
        ({
            let x = crate::edit_cols::restore_cols_outcome(t, num, ops, blob, revision);
            x is Ok ==> told(x->Ok_0, num)
        }),
{
    let x = crate::edit_cols::restore_cols_outcome(t, num, ops, blob, revision);
    if x is Ok {
        let inv = crate::capture::decoded(blob)->Ok_0;
        let at = crate::edit_rows::program_u64(ops, "at"@)->Ok_0 as int;
        lemma_told_of(
            x->Ok_0,
            num,
            crate::edit_cols::plan_with(t, at, crate::edit_cols::restored_cols(inv)),
        );
    }
}

#[verifier::rlimit(60)]
proof fn lemma_told_restored_block(
    t: TableV,
    num: NumeralsV,
    ops: JsonV,
    blob: Result<Option<Seq<crate::capture::ColumnV>>, Seq<char>>,
    revision: u64,
    w: Result<Seq<u8>, Seq<char>>,
)
    ensures
        ({
            let x = crate::restore_block::restore_block_outcome(t, num, ops, blob, revision, w);
            x is Ok ==> told(x->Ok_0, num)
        }),
{
    let x = crate::restore_block::restore_block_outcome(t, num, ops, blob, revision, w);
    if x is Ok {
        let (p, inv) = crate::restore_block::block_restore(t, ops, blob)->Ok_0;
        lemma_told_of(x->Ok_0, num, crate::restore_block::restored_block_cols(t, p, inv));
    }
}

#[verifier::rlimit(60)]
proof fn lemma_told_restored_schema(
    t: TableV,
    num: NumeralsV,
    ops: JsonV,
    blob: Result<Option<Seq<crate::capture::ColumnV>>, Seq<char>>,
    size: nat,
    revision: u64,
    w: Result<Seq<u8>, Seq<char>>,
)
    ensures
        ({
            let x = crate::restore_schema::restore_schema_outcome(
                t,
                num,
                ops,
                size,
                blob,
                revision,
                w,
            );
            x is Ok ==> told(x->Ok_0, num)
        }),
{
    let x = crate::restore_schema::restore_schema_outcome(t, num, ops, size, blob, revision, w);
    if x is Ok {
        let s = crate::restore_schema::schema_restore(t, ops, size, blob)->Ok_0;
        let plan = crate::restore_schema::restored_schema_cols(t, s, s.order)->Ok_0.0;
        lemma_told_of(x->Ok_0, num, plan);
    }
}

proof fn lemma_told_deleted(
    t: TableV,
    num: NumeralsV,
    at: u64,
    count: u64,
    revision: u64,
    w: Result<Seq<u8>, Seq<char>>,
)
    requires
        t.wf(),
    ensures
        ({
            let x = crate::edit_rows::delete_rows_outcome(t, num, at, count, revision, w);
            x is Ok ==> told(x->Ok_0, num)
        }),
        ({
            let x = crate::edit_cols::delete_cols_outcome(t, num, at, count, revision, w);
            x is Ok ==> told(x->Ok_0, num)
        }),
{
    let x = crate::edit_rows::delete_rows_outcome(t, num, at, count, revision, w);
    if x is Ok {
        lemma_told_of(x->Ok_0, num, crate::outcome::pass_plan(t));
    }
    let y = crate::edit_cols::delete_cols_outcome(t, num, at, count, revision, w);
    if y is Ok {
        lemma_told_of(
            y->Ok_0,
            num,
            crate::edit_cols::plan_without(t, at as int, count as int),
        );
    }
}

proof fn lemma_told_inserted(
    t: TableV,
    num: NumeralsV,
    at: u64,
    specs: Seq<crate::edit_cols::SpecV>,
    revision: u64,
)
    requires
        t.wf(),
    ensures
        ({
            let x = crate::edit_cols::insert_cols_outcome(t, num, at, specs, revision);
            x is Ok ==> told(x->Ok_0, num)
        }),
{
    let x = crate::edit_cols::insert_cols_outcome(t, num, at, specs, revision);
    if x is Ok {
        let names = crate::edit_cols::inserted_names(
            specs,
            crate::edit_cols::field_names(t),
            at,
        );
        let cols = crate::edit_cols::inserted_cols(specs, names);
        lemma_told_of(x->Ok_0, num, crate::edit_cols::plan_with(t, at as int, cols));
    }
}

proof fn lemma_told_pasted(
    p: crate::edit_block::PasteV,
    revision: u64,
    w: Result<Seq<u8>, Seq<char>>,
)
    ensures
        ({
            let x = crate::edit_block::paste_outcome(p, revision, w);
            x is Ok ==> told(x->Ok_0, p.num)
        }),
{
    let x = crate::edit_block::paste_outcome(p, revision, w);
    if x is Ok {
        let q = crate::edit_block::output_cols(p, p.new_cols())->Ok_0;
        lemma_told_of(x->Ok_0, p.num, q.0);
    }
}

proof fn lemma_told_changed(
    t: TableV,
    num: NumeralsV,
    limit: nat,
    target: JsonV,
    revision: u64,
    w: Result<Seq<u8>, Seq<char>>,
)
    ensures
        ({
            let x = crate::schema_change::schema_outcome(t, num, limit, target, revision, w);
            x is Ok ==> told(x->Ok_0, num)
        }),
{
    let x = crate::schema_change::schema_outcome(t, num, limit, target, revision, w);
    if x is Ok {
        let cs = crate::schema_change::asked_changes(t, target)->Ok_0;
        lemma_told_of(x->Ok_0, num, crate::schema_change::changed_cols(t, num, limit, cs));
    }
}

#[verifier::rlimit(60)]
proof fn lemma_told(
    t: TableV,
    num: NumeralsV,
    job: EditJob,
    w: Result<Seq<u8>, Seq<char>>,
)
    requires
        t.wf(),
        edit_outcome(t, num, job, w) is Ok,
    ensures
        told(edit_outcome(t, num, job, w)->Ok_0, num),
{
    match job.edit {
        EditOp::InsertBlock { row, col, target_schema } => {
            let p = crate::serve::paste_asked(
                t,
                num,
                job.ingest,
                row,
                col,
                crate::serve::opt_json(target_schema),
                job.tail@,
            )->Ok_0;
            lemma_told_pasted(p, job.revision, w);
        },
        EditOp::InsertRows { at, count } => {},
        EditOp::DeleteRows { at, count } => {
            lemma_told_deleted(t, num, at, count, job.revision, w);
        },
        EditOp::InsertCols { at, columns } => {
            lemma_told_inserted(
                t,
                num,
                at,
                crate::edit_cols::spec_views(columns@),
                job.revision,
            );
        },
        EditOp::DeleteCols { at, count } => {
            lemma_told_deleted(t, num, at, count, job.revision, w);
        },
        EditOp::SchemaChange { target_schema } => {
            lemma_told_changed(
                t,
                num,
                job.ingest.sort_limit as nat,
                target_schema@,
                job.revision,
                w,
            );
        },
        EditOp::ApplyInverse { inverse } => {
            lemma_told_reversed(
                t,
                num,
                inverse@,
                job.tail@.len(),
                crate::capture::blob_columns(job.tail@),
                job.revision,
                w,
            );
        },
    }
}

#[verifier::rlimit(60)]
proof fn lemma_told_reversed(
    t: TableV,
    num: NumeralsV,
    meta: crate::messages::InverseMetaV,
    size: nat,
    blob: Result<Option<Seq<crate::capture::ColumnV>>, Seq<char>>,
    revision: u64,
    w: Result<Seq<u8>, Seq<char>>,
)
    requires
        t.wf(),
    ensures
        ({
            let x = crate::serve::inverse_outcome(t, num, meta, size, blob, revision, w);
            x is Ok ==> told(x->Ok_0, num)
        }),
{
    let ops = meta.ops;
    lemma_told_inverse(t, num, ops, blob, size, revision, w);
    let at = crate::edit_rows::program_u64(ops, "at"@)->Ok_0;
    let count = crate::edit_rows::program_u64(ops, "count"@)->Ok_0;
    lemma_told_deleted(t, num, at, count, revision, w);
}

/// After an edit, any edit, frontends are told of every column of the table, in order: what
/// they are told of a column is how it is now.
#[verifier::rlimit(60)]
pub proof fn law_frontends_are_told_the_columns(
    t: TableV,
    num: NumeralsV,
    job: EditJob,
    w: Result<Seq<u8>, Seq<char>>,
    c: int,
)
    requires
        t.wf(),
        edit_outcome(t, num, job, w) is Ok,
        edit_outcome(t, num, job, w)->Ok_0.schema is Some,
        0 <= c < edit_outcome(t, num, job, w)->Ok_0.table.fields.len(),
    ensures
        ({
            let o = edit_outcome(t, num, job, w)->Ok_0;
            let g = o.table;
            &&& o.schema->0 is Array
            &&& o.schema->0->Array_0.len() == g.fields.len()
            &&& g.fields[c].kind is Float64 ==> tells_scale(
                o.schema->0->Array_0[c],
                g.fields[c],
                g.cols[c],
            )
            &&& g.fields[c].kind is Dictionary ==> tells_levels(
                o.schema->0->Array_0[c],
                g.fields[c],
                g.dicts[c],
                g.cols[c],
                num,
            )
        }),
{
    lemma_told(t, num, job, w);
    let o = edit_outcome(t, num, job, w)->Ok_0;
    let g = o.table;
    let plan = choose|plan: Seq<OutColV>|
        {
            &&& o.schema->0 == #[trigger] schema_json(plan, o.table.cols, num)
            &&& plan.len() == o.table.fields.len()
            &&& forall|c: int|
                #![trigger plan[c]]
                0 <= c < plan.len() ==> plan[c].field == o.table.fields[c] && plan[c].levels
                    == o.table.dicts[c]
        };
    assert(plan[c].field == g.fields[c]);
    assert(o.schema->0->Array_0[c] == column_json(g.fields[c], g.dicts[c], g.cols[c], num));
    if g.fields[c].kind is Float64 {
        lemma_tells_scale(g.fields[c], g.dicts[c], g.cols[c], num);
    }
    if g.fields[c].kind is Dictionary {
        lemma_tells_levels(g.fields[c], g.dicts[c], g.cols[c], num);
    }
}

/// An edit that succeeds says how many rows the table has. Nothing is told of the columns only
/// where rows were inserted or a schema was left as it was: then no column changed but for its
/// cells.
#[verifier::rlimit(60)]
pub proof fn law_edits_say_how_many_rows(
    t: TableV,
    num: NumeralsV,
    job: EditJob,
    w: Result<Seq<u8>, Seq<char>>,
)
    requires
        t.wf(),
        edit_outcome(t, num, job, w) is Ok,
    ensures
        ({
            let o = edit_outcome(t, num, job, w)->Ok_0;
            &&& o.table.rows <= u64::MAX ==> o.rows == o.table.rows
            &&& o.schema is None ==> (job.edit is InsertRows || job.edit is SchemaChange)
                && o.table.fields =~= t.fields && o.table.dicts =~= t.dicts
        }),
{
    if let EditOp::ApplyInverse { inverse } = job.edit {
        lemma_reversed_rows(
            t,
            num,
            inverse@,
            job.tail@.len(),
            crate::capture::blob_columns(job.tail@),
            job.revision,
            w,
        );
    }
}

#[verifier::rlimit(60)]
proof fn lemma_reversed_rows(
    t: TableV,
    num: NumeralsV,
    meta: crate::messages::InverseMetaV,
    size: nat,
    blob: Result<Option<Seq<crate::capture::ColumnV>>, Seq<char>>,
    revision: u64,
    w: Result<Seq<u8>, Seq<char>>,
)
    ensures
        ({
            let x = crate::serve::inverse_outcome(t, num, meta, size, blob, revision, w);
            x is Ok ==> (x->Ok_0.table.rows <= u64::MAX ==> x->Ok_0.rows == x->Ok_0.table.rows)
                && x->Ok_0.schema is Some
        }),
{
}

/// An inverse must be of the known format and not of a later revision than the edit that applies
/// it; everything is stale after it.
#[verifier::rlimit(60)]
pub proof fn law_inverses_are_checked(
    t: TableV,
    num: NumeralsV,
    job: EditJob,
    w: Result<Seq<u8>, Seq<char>>,
)
    requires
        job.edit is ApplyInverse,
        edit_outcome(t, num, job, w) is Ok,
    ensures
        ({
            let o = edit_outcome(t, num, job, w)->Ok_0;
            let m = job.edit->inverse@;
            &&& m.format == "arrow_ipc_v1"@
            &&& m.base_revision <= job.revision
            &&& o.invalidation.all == Some(true)
        }),
{
    if let EditOp::ApplyInverse { inverse } = job.edit {
        lemma_reversed_stale(
            t,
            num,
            inverse@,
            job.tail@.len(),
            crate::capture::blob_columns(job.tail@),
            job.revision,
            w,
        );
    }
}

#[verifier::rlimit(60)]
proof fn lemma_reversed_stale(
    t: TableV,
    num: NumeralsV,
    meta: crate::messages::InverseMetaV,
    size: nat,
    blob: Result<Option<Seq<crate::capture::ColumnV>>, Seq<char>>,
    revision: u64,
    w: Result<Seq<u8>, Seq<char>>,
)
    ensures
        ({
            let x = crate::serve::inverse_outcome(t, num, meta, size, blob, revision, w);
            x is Ok ==> x->Ok_0.invalidation.all == Some(true) && meta.format == "arrow_ipc_v1"@
                && meta.base_revision <= revision
        }),
{
}

/// An edit that can be taken back says so: its inverse is of the known format and names the
/// revision of the edit. Only a paste beside the table's columns may have none.
#[verifier::rlimit(60)]
pub proof fn law_edits_can_be_taken_back(
    t: TableV,
    num: NumeralsV,
    job: EditJob,
    w: Result<Seq<u8>, Seq<char>>,
)
    requires
        t.wf(),
        edit_outcome(t, num, job, w) is Ok,
    ensures
        ({
            let o = edit_outcome(t, num, job, w)->Ok_0;
            &&& o.inverse is None ==> job.edit is InsertBlock
            &&& o.inverse is Some ==> o.inverse->0.format == "arrow_ipc_v1"@
                && o.inverse->0.base_revision == job.revision
        }),
{
    if let EditOp::ApplyInverse { inverse } = job.edit {
        lemma_reversed_inverse(
            t,
            num,
            inverse@,
            job.tail@.len(),
            crate::capture::blob_columns(job.tail@),
            job.revision,
            w,
        );
    }
}

#[verifier::rlimit(60)]
proof fn lemma_reversed_inverse(
    t: TableV,
    num: NumeralsV,
    meta: crate::messages::InverseMetaV,
    size: nat,
    blob: Result<Option<Seq<crate::capture::ColumnV>>, Seq<char>>,
    revision: u64,
    w: Result<Seq<u8>, Seq<char>>,
)
    ensures
        ({
            let x = crate::serve::inverse_outcome(t, num, meta, size, blob, revision, w);
            x is Ok ==> x->Ok_0.inverse is Some && x->Ok_0.inverse->0.format == "arrow_ipc_v1"@
                && x->Ok_0.inverse->0.base_revision == revision
        }),
{
}

} // verus!
