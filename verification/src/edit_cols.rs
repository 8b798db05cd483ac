//! Columns: inserting null-filled ones, deleting some, and putting deleted ones back.
use vstd::prelude::*;
use crate::capture::{
    blob_columns, column_views, columns_fit, decode_inverse, decoded, seal, sealed, column_file,
    write_columns, write_view, written, ColumnV,
};
use crate::edit_rows::{
    inverse_rows, levels_tidy, nulls, program_u64, restored_col, restored_colv, u64_of,
};
use crate::engine::{
    plan_views, plan_wf, planned, rewritten, seg_cells, stream_rewrite, walked, OutCol, OutColV,
    Under, UnderV,
};
use crate::json::{
    json_array, json_number, json_object, json_text, no_members, put, Json, JsonV,
};
use crate::messages::{
    all_stale, column_refusal, opt_text, refusal, EditFailure, FailureV, Invalidation,
    NewColumnSpec,
};
use crate::names::{new_name, unique_new_name};
use crate::number::{Numerals, NumeralsV};
use crate::outcome::{
    capture_cols, capture_of, column_entries, delete_cols_program, gives, inverse_of,
    make_column_entries, make_delete_cols, make_inverse, make_run, pass_col, pass_colv, pass_plan,
    run, EditOutput, OutcomeV,
};
use crate::segments::{table_overrun, table_rows, Seg};
use crate::table::{
    cell_fits, lemma_table_wf, level_of_str, plain_field, text_level, Cell, Dataset, Field, Level,
    TableV,
};
use crate::text::{clone_texts, find_repeat, first_repeat, texts};
use crate::wire::{schema_json, wire_schema};
use crate::wording;

verus! {

/// The mathematical value of a [`NewColumnSpec`].
pub struct SpecV {
    pub name: Seq<char>,
    pub display: Option<Seq<char>>,
    pub ty: Option<Seq<char>>,
    pub levels: Option<Seq<Seq<char>>>,
}

impl View for NewColumnSpec {
    type V = SpecV;

    open spec fn view(&self) -> SpecV {
        SpecV {
            name: self.name@,
            display: opt_text(self.display_name),
            ty: opt_text(self.column_type),
            levels: match self.levels {
                Some(v) => Some(texts(v@)),
                None => None,
            },
        }
    }
}

/// The values of a list of specs.
pub open spec fn spec_views(v: Seq<NewColumnSpec>) -> Seq<SpecV> {
    Seq::new(v.len(), |i: int| v[i]@)
}

/// The level of a column to insert: nominal where none is declared.
pub open spec fn declared_level(s: SpecV) -> Result<Level, FailureV> {
    match s.ty {
        None => Ok(Level::Nominal),
        Some(t) => match text_level(t) {
            Some(l) => Ok(l),
            None => Err(
                column_refusal(s.name, "schema_mismatch"@, wording::unknown_column_type_msg(t)),
            ),
        },
    }
}

/// What is wrong with a column to insert: an unknown type, levels of a scale, a level
/// declared twice.
pub open spec fn spec_issue(s: SpecV) -> Option<FailureV> {
    match declared_level(s) {
        Err(f) => Some(f),
        Ok(level) => match s.levels {
            None => None,
            Some(levels) => if level is Scale && levels.len() > 0 {
                Some(
                    column_refusal(
                        s.name,
                        "schema_mismatch"@,
                        "a scale column has no label list"@,
                    ),
                )
            } else {
                match first_repeat(levels) {
                    Some(l) => Some(
                        column_refusal(
                            s.name,
                            "schema_mismatch"@,
                            wording::duplicate_level_msg(l),
                        ),
                    ),
                    None => None,
                }
            },
        },
    }
}

/// What is wrong with the first wrong one of a list of columns to insert.
pub open spec fn specs_issue(s: Seq<SpecV>) -> Option<FailureV>
    decreases s.len(),
{
    if s.len() == 0 {
        None
    } else {
        match specs_issue(s.drop_last()) {
            Some(f) => Some(f),
            None => spec_issue(s.last()),
        }
    }
}

/// The names of columns inserted at `at`: each is made free of the names in use and of the
/// ones before it.
pub open spec fn inserted_names(s: Seq<SpecV>, used: Seq<Seq<char>>, at: u64) -> Seq<Seq<char>>
    decreases s.len(),
{
    if s.len() == 0 {
        Seq::empty()
    } else {
        let p = inserted_names(s.drop_last(), used, at);
        p.push(new_name(used + p, s.last().name, (at + s.len()) as u64))
    }
}

/// The names of a table's columns.
pub open spec fn field_names(t: TableV) -> Seq<Seq<char>> {
    Seq::new(t.fields.len(), |j: int| t.fields[j].name)
}

/// A column to insert under a name: null cells, and the declared levels as they stand.
pub open spec fn inserted_col(s: SpecV, name: Seq<char>) -> OutColV {
    let level = declared_level(s)->Ok_0;
    OutColV {
        field: plain_field(
            name,
            match s.display {
                Some(d) => d,
                None => name,
            },
            level,
            false,
        ),
        old: None,
        window: None,
        under: UnderV::Nothing,
        levels: if level is Scale {
            Seq::empty()
        } else {
            match s.levels {
                Some(l) => l,
                None => Seq::empty(),
            }
        },
    }
}

/// Columns to insert.
pub open spec fn inserted_cols(s: Seq<SpecV>, names: Seq<Seq<char>>) -> Seq<OutColV> {
    Seq::new(s.len(), |i: int| inserted_col(s[i], names[i]))
}

/// The untouched columns with others between them.
pub open spec fn plan_with(t: TableV, at: int, cols: Seq<OutColV>) -> Seq<OutColV> {
    pass_plan(t).take(at) + cols + pass_plan(t).skip(at)
}

/// The table with other columns before column `at`.
pub open spec fn with_cols(t: TableV, at: int, cols: Seq<ColumnV>) -> TableV {
    TableV {
        fields: t.fields.take(at) + Seq::new(cols.len(), |i: int| cols[i].field) + t.fields.skip(
            at,
        ),
        dicts: t.dicts.take(at) + Seq::new(cols.len(), |i: int| cols[i].levels) + t.dicts.skip(at),
        cols: t.cols.take(at) + Seq::new(cols.len(), |i: int| cols[i].cells) + t.cols.skip(at),
        rows: t.rows,
    }
}

/// The table without columns `at` up to `at + count`.
pub open spec fn without_cols(t: TableV, at: int, count: int) -> TableV {
    TableV {
        fields: t.fields.take(at) + t.fields.skip(at + count),
        dicts: t.dicts.take(at) + t.dicts.skip(at + count),
        cols: t.cols.take(at) + t.cols.skip(at + count),
        rows: t.rows,
    }
}

/// One segment walks as itself.
pub proof fn lemma_one(oc: OutColV, num: NumeralsV, cols: Seq<Seq<Cell>>, n: nat, a: Seg)
    ensures
        walked(oc, num, cols, n, seq![a]) == seg_cells(oc, num, cols, n, a),
        table_rows(seq![a]) == a.rows(),
        table_overrun(seq![a], n) == a.overrun(n),
{
    reveal_with_fuel(walked, 2);
    reveal_with_fuel(table_rows, 2);
    reveal_with_fuel(table_overrun, 2);
    assert(seq![a].drop_last() =~= Seq::empty());
    assert(walked(oc, num, cols, n, seq![a]) =~= seg_cells(oc, num, cols, n, a));
}

/// A plan whose columns all walk to the given cells makes the given table.
pub proof fn lemma_planned(
    t: TableV,
    plan: Seq<OutColV>,
    num: NumeralsV,
    segs: Seq<Seg>,
    goal: TableV,
)
    requires
        table_overrun(segs, t.rows) is None,
        table_rows(segs) == goal.rows,
        goal.fields.len() == plan.len(),
        goal.dicts.len() == plan.len(),
        goal.cols.len() == plan.len(),
        forall|c: int|
            0 <= c < plan.len() ==> goal.fields[c] == (#[trigger] plan[c]).field && goal.dicts[c]
                == plan[c].levels && goal.cols[c] == walked(plan[c], num, t.cols, t.rows, segs),
        forall|c: int, i: int|
            0 <= c < plan.len() && 0 <= i < goal.rows ==> cell_fits(
                goal.fields[c],
                goal.dicts[c],
                #[trigger] goal.cols[c][i],
            ),
    ensures
        rewritten(t, plan, num, segs, goal.rows) == Ok::<TableV, FailureV>(goal),
{
    assert forall|c: int, i: int| 0 <= c < plan.len() && 0 <= i < table_rows(
        segs,
    ) implies cell_fits(
        plan[c].field,
        plan[c].levels,
        #[trigger] walked(plan[c], num, t.cols, t.rows, segs)[i],
    ) by {
        assert(goal.cols[c] == walked(plan[c], num, t.cols, t.rows, segs));
        assert(cell_fits(goal.fields[c], goal.dicts[c], goal.cols[c][i]));
    }
    let got = planned(t, plan, num, segs, goal.rows);
    assert(got.fields =~= goal.fields);
    assert forall|c: int| 0 <= c < plan.len() implies got.dicts[c] == goal.dicts[c]
        && got.cols[c] == goal.cols[c] by {
        let p = plan[c];
    }
    assert(got.dicts =~= goal.dicts);
    assert(got.cols =~= goal.cols);
}

/// An untouched column read through one identity segment or one window stays.
pub proof fn lemma_pass_whole(t: TableV, num: NumeralsV, j: int)
    requires
        t.wf(),
        0 <= j < t.fields.len(),
    ensures
        seg_cells(
            pass_colv(t, j),
            num,
            t.cols,
            t.rows,
            Seg::Copy { out: 0, old: 0, len: t.rows as u64 },
        ) == t.cols[j],
        seg_cells(
            pass_colv(t, j),
            num,
            t.cols,
            t.rows,
            Seg::Block { out: 0, len: t.rows as u64 },
        ) == t.cols[j],
{
    let col = t.cols[j];
    assert(seg_cells(
        pass_colv(t, j),
        num,
        t.cols,
        t.rows,
        Seg::Copy { out: 0, old: 0, len: t.rows as u64 },
    ) =~= col);
    assert(seg_cells(
        pass_colv(t, j),
        num,
        t.cols,
        t.rows,
        Seg::Block { out: 0, len: t.rows as u64 },
    ) =~= col);
}

/// The columns to insert, null-filled.
pub open spec fn null_columns(cols: Seq<OutColV>, rows: nat) -> Seq<ColumnV> {
    Seq::new(
        cols.len(),
        |i: int| ColumnV { field: cols[i].field, levels: cols[i].levels, cells: nulls(rows) },
    )
}

/// Inserting columns through one identity segment gives the table with null columns.
pub proof fn lemma_insert_cols(t: TableV, num: NumeralsV, at: int, cols: Seq<OutColV>)
    requires
        t.wf(),
        0 <= at <= t.fields.len(),
        forall|i: int|
            0 <= i < cols.len() ==> (#[trigger] cols[i]).old is None && cols[i].window is None,
    ensures
        rewritten(
            t,
            plan_with(t, at, cols),
            num,
            seq![Seg::Copy { out: 0, old: 0, len: t.rows as u64 }],
            t.rows,
        ) == Ok::<TableV, FailureV>(with_cols(t, at, null_columns(cols, t.rows))),
{
    let seg = Seg::Copy { out: 0, old: 0, len: t.rows as u64 };
    let segs = seq![seg];
    let plan = plan_with(t, at, cols);
    let k = cols.len() as int;
    let goal = with_cols(t, at, null_columns(cols, t.rows));
    assert forall|c: int| 0 <= c < plan.len() implies goal.fields[c] == (
    #[trigger] plan[c]).field && goal.dicts[c] == plan[c].levels && goal.cols[c] == walked(plan[c], num, t.cols, t.rows, segs) by {
        lemma_one(plan[c], num, t.cols, t.rows, seg);
        if c < at {
            assert(plan[c] == pass_colv(t, c));
            lemma_pass_whole(t, num, c);
        } else if c < at + k {
            assert(plan[c] == cols[c - at]);
            assert(seg_cells(plan[c], num, t.cols, t.rows, seg) =~= nulls(t.rows));
        } else {
            assert(plan[c] == pass_colv(t, c - k));
            lemma_pass_whole(t, num, c - k);
        }
    }
    assert forall|c: int, i: int| 0 <= c < plan.len() && 0 <= i < goal.rows implies cell_fits(
        goal.fields[c],
        goal.dicts[c],
        #[trigger] goal.cols[c][i],
    ) by {
        if c < at {
            assert(cell_fits(t.fields[c], t.dicts[c], t.cols[c][i]));
        } else if c < at + k {
            assert(goal.cols[c][i] is None);
        } else {
            assert(cell_fits(t.fields[c - k], t.dicts[c - k], t.cols[c - k][i]));
        }
    }
    lemma_one(arbitrary(), num, t.cols, t.rows, seg);
    lemma_planned(t, plan, num, segs, goal);
}

/// The outcome of `insert_cols`: `at` must name a column of the table or its end, and there
/// must be something to insert. Rows never move.
pub open spec fn insert_cols_outcome(
    t: TableV,
    num: NumeralsV,
    at: u64,
    specs: Seq<SpecV>,
    revision: u64,
) -> Result<OutcomeV, FailureV> {
    let n = t.fields.len();
    if specs.len() == 0 || at > n {
        Err(refusal("range"@, wording::insert_cols_range_msg(at, specs.len() as u64, n as u64)))
    } else if n + specs.len() > usize::MAX {
        Err(refusal("range"@, wording::insert_cols_overflow_msg(at, n as u64)))
    } else {
        match specs_issue(specs) {
            Some(f) => Err(f),
            None => {
                let names = inserted_names(specs, field_names(t), at);
                let cols = inserted_cols(specs, names);
                let after = with_cols(t, at as int, null_columns(cols, t.rows));
                Ok(
                    OutcomeV {
                        rows: t.rows as u64,
                        schema: Some(schema_json(plan_with(t, at as int, cols), after.cols, num)),
                        invalidation: all_stale(),
                        inverse: Some(
                            inverse_of(
                                revision,
                                delete_cols_program(at, specs.len() as u64, n as u64),
                            ),
                        ),
                        bytes: Seq::empty(),
                        table: after,
                    },
                )
            },
        }
    }
}

/// The level of a column to insert.
pub fn spec_level(spec: &NewColumnSpec) -> (r: Result<Level, EditFailure>)
    ensures
        match (r, declared_level(spec@)) {
            (Ok(a), Ok(b)) => a == b,
            (Err(e), Err(f)) => e@ == f,
            _ => false,
        },
{
    match &spec.column_type {
        None => Ok(Level::Nominal),
        Some(t) => match level_of_str(t) {
            Some(l) => Ok(l),
            None => Err(
                EditFailure::refused_column(
                    spec.name.as_str(),
                    "schema_mismatch",
                    wording::unknown_column_type(t.as_str()),
                ),
            ),
        },
    }
}

/// Checks a column to insert.
fn check_spec(spec: &NewColumnSpec) -> (r: Result<(), EditFailure>)
    ensures
        match (r, spec_issue(spec@)) {
            (Ok(_), None) => true,
            (Err(e), Some(f)) => e@ == f,
            _ => false,
        },
{
    let level = match spec_level(spec) {
        Ok(l) => l,
        Err(e) => {
            return Err(e);
        },
    };
    if let Some(levels) = &spec.levels {
        if level.is_scale() && levels.len() > 0 {
            return Err(
                EditFailure::refused_column(
                    spec.name.as_str(),
                    "schema_mismatch",
                    "a scale column has no label list".to_string(),
                ),
            );
        }
        if let Some(l) = find_repeat(levels) {
            return Err(
                EditFailure::refused_column(
                    spec.name.as_str(),
                    "schema_mismatch",
                    wording::duplicate_level(l.as_str()),
                ),
            );
        }
    }
    Ok(())
}

proof fn lemma_specs_prefix(s: Seq<SpecV>, k: int)
    requires
        0 <= k <= s.len(),
        specs_issue(s.take(k)) is Some,
    ensures
        specs_issue(s) == specs_issue(s.take(k)),
    decreases s.len() - k,
{
    if k < s.len() {
        assert(s.take(k + 1).drop_last() =~= s.take(k));
        lemma_specs_prefix(s, k + 1);
    } else {
        assert(s.take(k) =~= s);
    }
}

/// Unless something is wrong with a list, nothing is wrong with its entries.
pub proof fn lemma_specs_at(s: Seq<SpecV>, i: int)
    requires
        specs_issue(s) is None,
        0 <= i < s.len(),
    ensures
        spec_issue(s[i]) is None,
        declared_level(s[i]) is Ok,
    decreases s.len(),
{
    if i < s.len() - 1 {
        lemma_specs_at(s.drop_last(), i);
        assert(s.drop_last()[i] == s[i]);
    }
}

/// Serves `insert_cols`.
#[verifier::rlimit(30)]
pub fn apply_insert_cols(
    ds: &Dataset,
    num: &Numerals,
    at: u64,
    columns: &Vec<NewColumnSpec>,
    revision: u64,
) -> (r: Result<(EditOutput, Dataset), EditFailure>)
    requires
        ds.wf(),
        ds.table().supported(),
    ensures
        gives(r, insert_cols_outcome(ds.table(), num@, at, spec_views(columns@), revision)),
{
    let ghost t = ds.table();
    let ghost specs = spec_views(columns@);
    let rows = ds.rows();
    let n = ds.fields.len();
    let k = columns.len();
    proof {
        lemma_table_wf(*ds);
    }
    if k == 0 || at > n as u64 {
        return Err(
            EditFailure::refused("range", wording::insert_cols_range(at, k as u64, n as u64)),
        );
    }
    if k > usize::MAX - n {
        return Err(EditFailure::refused("range", wording::insert_cols_overflow(at, n as u64)));
    }
    let mut i: usize = 0;
    assert(specs.take(0) =~= Seq::empty());
    while i < k
        invariant
            i <= k,
            k == columns.len(),
            n == ds.fields.len(),
            t == ds.table(),
            specs == spec_views(columns@),
            k > 0,
            at <= n,
            n + k <= usize::MAX,
            specs_issue(specs.take(i as int)) is None,
        decreases k - i,
    {
        assert(specs.take(i + 1).drop_last() =~= specs.take(i as int));
        assert(specs.take(i + 1).last() == columns@[i as int]@);
        if let Err(e) = check_spec(&columns[i]) {
            proof {
                lemma_specs_prefix(specs, i + 1);
            }
            return Err(e);
        }
        i = i + 1;
    }
    assert(specs.take(specs.len() as int) =~= specs);
    let ghost used0 = field_names(t);
    let ghost names = inserted_names(specs, used0, at);
    let ghost goal = plan_with(t, at as int, inserted_cols(specs, names));
    let mut used: Vec<String> = Vec::new();
    let mut plan: Vec<OutCol> = Vec::new();
    let mut j: usize = 0;
    while j < n
        invariant
            j <= n,
            n == ds.fields.len(),
            t == ds.table(),
            used0 == field_names(t),
            used@.len() == j,
            texts(used@) =~= used0.take(j as int),
        decreases n - j,
    {
        used.push(ds.fields[j].name.clone());
        j = j + 1;
    }
    assert(texts(used@) =~= used0);
    j = 0;
    while j < at as usize
        invariant
            j <= at,
            at <= n,
            n == ds.fields.len(),
            ds.wf(),
            t == ds.table(),
            plan@.len() == j,
            plan_wf(plan@, ds.fields@.len()),
            plan_views(plan@) =~= pass_plan(t).take(j as int),
        decreases at - j,
    {
        plan.push(pass_col(ds, j));
        j = j + 1;
    }
    let ghost head = plan_views(plan@);
    i = 0;
    proof {
        lemma_names_len(specs, used0, at);
        assert(specs.take(0) =~= Seq::empty());
        assert(used0 + inserted_names(specs.take(0), used0, at) =~= used0);
        assert(head + inserted_cols(specs, names).take(0) =~= head);
    }
    while i < k
        invariant
            i <= k,
            k == columns.len(),
            n == ds.fields.len(),
            at <= n,
            n + k <= usize::MAX,
            specs == spec_views(columns@),
            specs_issue(specs) is None,
            names == inserted_names(specs, used0, at),
            names.len() == specs.len(),
            texts(used@) == used0 + inserted_names(specs.take(i as int), used0, at),
            plan@.len() == at + i,
            plan_wf(plan@, ds.fields@.len()),
            plan_views(plan@) == head + inserted_cols(specs, names).take(i as int),
        decreases k - i,
    {
        let spec = &columns[i];
        assert(specs[i as int] == spec@);
        proof {
            lemma_specs_at(specs, i as int);
            lemma_names_prefix(specs, used0, at, i + 1);
            lemma_names_len(specs.take(i + 1), used0, at);
            lemma_names_len(specs.take(i as int), used0, at);
            assert(specs.take(i + 1).drop_last() =~= specs.take(i as int));
            assert(specs.take(i + 1).last() == specs[i as int]);
            assert(names.take(i + 1)[i as int] == names[i as int]);
        }
        let name = unique_new_name(&used, &spec.name, at + i as u64 + 1);
        assert(name@ == names[i as int]);
        let display = match &spec.display_name {
            Some(d) => d.clone(),
            None => name.clone(),
        };
        let level = match spec_level(spec) {
            Ok(l) => l,
            Err(_) => Level::Nominal,
        };
        let levels: Vec<String> = if level.is_scale() {
            Vec::new()
        } else {
            match &spec.levels {
                Some(l) => clone_texts(l),
                None => Vec::new(),
            }
        };
        let ghost want = inserted_col(specs[i as int], names[i as int]);
        assert(texts(levels@) =~= want.levels);
        let c = OutCol {
            field: Field::plain(&name, &display, level, false),
            old: None,
            window: None,
            under: Under::Nothing,
            levels,
        };
        assert(c@ == want);
        assert(c.wf(ds.fields@.len()));
        let ghost before = plan@;
        let ghost before_used = used@;
        plan.push(c);
        used.push(name);
        proof {
            assert(plan_views(plan@) =~= plan_views(before).push(want));
            assert(plan_views(plan@) =~= head + inserted_cols(specs, names).take(i + 1));
            assert(texts(used@) =~= texts(before_used).push(name@));
            assert(texts(used@) =~= used0 + inserted_names(specs.take(i + 1), used0, at));
        }
        i = i + 1;
    }
    let ghost mid = plan_views(plan@);
    j = at as usize;
    assert(mid + pass_plan(t).subrange(at as int, at as int) =~= mid);
    while j < n
        invariant
            at <= j <= n,
            n == ds.fields.len(),
            ds.wf(),
            t == ds.table(),
            mid.len() + j - at == plan@.len(),
            plan_wf(plan@, ds.fields@.len()),
            plan_views(plan@) == mid + pass_plan(t).subrange(at as int, j as int),
        decreases n - j,
    {
        let c = pass_col(ds, j);
        let ghost before = plan@;
        plan.push(c);
        proof {
            assert(plan_views(plan@) =~= plan_views(before).push(pass_plan(t)[j as int]));
            assert(plan_views(plan@) =~= mid + pass_plan(t).subrange(at as int, j + 1));
        }
        j = j + 1;
    }
    proof {
        assert(pass_plan(t).subrange(at as int, n as int) =~= pass_plan(t).skip(at as int));
        assert(inserted_cols(specs, names).take(k as int) =~= inserted_cols(specs, names));
        assert(plan_views(plan@) =~= goal);
        lemma_insert_cols(t, num@, at as int, inserted_cols(specs, names));
        lemma_one(arbitrary(), num@, t.cols, t.rows, Seg::Copy { out: 0, old: 0, len: rows });
    }
    let mut segs: Vec<Seg> = Vec::new();
    segs.push(Seg::Copy { out: 0, old: 0, len: rows });
    assert(segs@ =~= seq![Seg::Copy { out: 0, old: 0, len: rows }]);
    let d = match stream_rewrite(ds, &plan, num, &segs, rows) {
        Ok(d) => d,
        Err(e) => {
            return Err(e);
        },
    };
    assert forall|c: int| 0 <= c < plan@.len() implies (#[trigger] plan@[c])@.field.level() is Some by {
        assert(goal[c] == plan@[c]@);
        if c < at {
            assert(t.fields[c].level() is Some);
        } else if c >= at + k {
            assert(t.fields[c - k].level() is Some);
        }
    }
    assert(d.table().fields.len() == plan@.len());
    let schema = wire_schema(&plan, &d, num);
    let out = EditOutput {
        rows,
        schema: Some(schema),
        invalidation: Invalidation { all: Some(true), rows_from: None, rows_to: None },
        inverse_meta: Some(make_inverse(revision, make_delete_cols(at, k as u64, n as u64))),
        inverse_bytes: Vec::new(),
    };
    assert(out.inverse_bytes@ =~= Seq::empty());
    Ok((out, d))
}

pub proof fn lemma_names_len(s: Seq<SpecV>, used: Seq<Seq<char>>, at: u64)
    ensures
        inserted_names(s, used, at).len() == s.len(),
    decreases s.len(),
{
    if s.len() > 0 {
        lemma_names_len(s.drop_last(), used, at);
    }
}

proof fn lemma_names_prefix(s: Seq<SpecV>, used: Seq<Seq<char>>, at: u64, k: int)
    requires
        0 <= k <= s.len(),
    ensures
        inserted_names(s.take(k), used, at) == inserted_names(s, used, at).take(k),
    decreases s.len(),
{
    lemma_names_len(s, used, at);
    if k == s.len() {
        assert(s.take(k) =~= s);
        assert(inserted_names(s, used, at).take(k) =~= inserted_names(s, used, at));
    } else {
        let d = s.drop_last();
        lemma_names_prefix(d, used, at, k);
        lemma_names_len(d, used, at);
        assert(d.take(k) =~= s.take(k));
        assert(inserted_names(s, used, at).take(k) =~= inserted_names(d, used, at).take(k));
    }
}

/// A program that puts `count` columns back at `at`.
pub open spec fn restore_cols_program(t: TableV, at: u64, count: u64) -> JsonV {
    JsonV::Object(
        Map::<Seq<char>, JsonV>::empty().insert("v"@, JsonV::Number(1)).insert(
            "op"@,
            JsonV::Str("restore_cols"@),
        ).insert("at"@, JsonV::Number(at)).insert("count"@, JsonV::Number(count)).insert(
            "old_cols"@,
            JsonV::Number(t.fields.len() as u64),
        ).insert(
            "columns"@,
            JsonV::Array(column_entries(t, run(at, (at + count) as u64))),
        ),
    )
}

/// What `delete_cols` captures: the deleted columns, whole.
pub open spec fn delete_cols_capture(t: TableV, at: u64, count: u64) -> Seq<ColumnV> {
    capture_of(t, run(at, (at + count) as u64), 0, t.rows as int)
}

/// The untouched columns without some.
pub open spec fn plan_without(t: TableV, at: int, count: int) -> Seq<OutColV> {
    pass_plan(t).take(at) + pass_plan(t).skip(at + count)
}

/// The outcome of `delete_cols`, given what writing the capture gave: the deleted columns
/// must lie in the table, be some, and leave one.
pub open spec fn delete_cols_outcome(
    t: TableV,
    num: NumeralsV,
    at: u64,
    count: u64,
    revision: u64,
    w: Result<Seq<u8>, Seq<char>>,
) -> Result<OutcomeV, FailureV> {
    let n = t.fields.len();
    if at + count > n {
        Err(refusal("range"@, wording::delete_cols_range_msg(at, count, n as u64)))
    } else if count == 0 {
        Err(refusal("range"@, wording::delete_cols_none_msg(at)))
    } else if n - count < 1 {
        Err(refusal("range"@, wording::delete_cols_last_msg(at, count)))
    } else {
        match sealed(w) {
            Err(f) => Err(f),
            Ok(bytes) => {
                let after = without_cols(t, at as int, count as int);
                Ok(
                    OutcomeV {
                        rows: t.rows as u64,
                        schema: Some(
                            schema_json(
                                plan_without(t, at as int, count as int),
                                after.cols,
                                num,
                            ),
                        ),
                        invalidation: all_stale(),
                        inverse: Some(inverse_of(revision, restore_cols_program(t, at, count))),
                        bytes,
                        table: after,
                    },
                )
            },
        }
    }
}

/// Deleting columns through one identity segment gives the table without them.
pub proof fn lemma_delete_cols(t: TableV, num: NumeralsV, at: int, count: int)
    requires
        t.wf(),
        0 <= at,
        0 <= count,
        at + count <= t.fields.len(),
    ensures
        rewritten(
            t,
            plan_without(t, at, count),
            num,
            seq![Seg::Copy { out: 0, old: 0, len: t.rows as u64 }],
            t.rows,
        ) == Ok::<TableV, FailureV>(without_cols(t, at, count)),
        without_cols(t, at, count).wf(),
{
    let seg = Seg::Copy { out: 0, old: 0, len: t.rows as u64 };
    let segs = seq![seg];
    let plan = plan_without(t, at, count);
    let goal = without_cols(t, at, count);
    assert forall|c: int| 0 <= c < plan.len() implies goal.fields[c] == (
    #[trigger] plan[c]).field && goal.dicts[c] == plan[c].levels && goal.cols[c] == walked(plan[c], num, t.cols, t.rows, segs) by {
        lemma_one(plan[c], num, t.cols, t.rows, seg);
        let j = if c < at { c } else { c + count };
        assert(plan[c] == pass_colv(t, j));
        lemma_pass_whole(t, num, j);
    }
    assert forall|c: int, i: int| 0 <= c < plan.len() && 0 <= i < goal.rows implies cell_fits(
        goal.fields[c],
        goal.dicts[c],
        #[trigger] goal.cols[c][i],
    ) by {
        let j = if c < at { c } else { c + count };
        assert(cell_fits(t.fields[j], t.dicts[j], t.cols[j][i]));
    }
    assert forall|c: int| 0 <= c < goal.cols.len() implies (#[trigger] goal.cols[c]).len()
        == goal.rows by {
        let j = if c < at { c } else { c + count };
        assert(t.cols[j].len() == t.rows);
    }
    assert forall|c: int| 0 <= c < goal.dicts.len() && !(goal.fields[c].kind is Dictionary) implies (
    #[trigger] goal.dicts[c]) =~= Seq::empty() by {
        let j = if c < at { c } else { c + count };
        assert(t.dicts[j] =~= Seq::empty());
    }
    lemma_one(arbitrary(), num, t.cols, t.rows, seg);
    lemma_planned(t, plan, num, segs, goal);
}

/// Serves `delete_cols`.
#[verifier::rlimit(50)]
pub fn apply_delete_cols(
    ds: &Dataset,
    num: &Numerals,
    at: u64,
    count: u64,
    revision: u64,
) -> (r: Result<(EditOutput, Dataset), EditFailure>)
    requires
        ds.wf(),
        ds.table().supported(),
    ensures
        ({
            let c = delete_cols_capture(ds.table(), at, count);
            let w = column_file(c);
            gives(r, delete_cols_outcome(ds.table(), num@, at, count, revision, w)) && (r is Ok
                ==> written(w, c))
        }),
{
    let ghost t = ds.table();
    let ghost none = column_file(delete_cols_capture(t, at, count));
    let rows = ds.rows();
    let n = ds.fields.len();
    proof {
        lemma_table_wf(*ds);
    }
    if count > n as u64 || at > n as u64 - count {
        let r = Err(
            EditFailure::refused("range", wording::delete_cols_range(at, count, n as u64)),
        );
        assert(gives(r, delete_cols_outcome(t, num@, at, count, revision, none)));
        return r;
    }
    if count == 0 {
        let r = Err(EditFailure::refused("range", wording::delete_cols_none(at)));
        assert(gives(r, delete_cols_outcome(t, num@, at, count, revision, none)));
        return r;
    }
    if n as u64 - count < 1 {
        let r = Err(EditFailure::refused("range", wording::delete_cols_last(at, count)));
        assert(gives(r, delete_cols_outcome(t, num@, at, count, revision, none)));
        return r;
    }
    let end: u64 = at + count;
    let js = make_run(at, end);
    let cols = capture_cols(ds, &js, 0, rows);
    let write = write_columns(&cols);
    let ghost w = write_view(write);
    let bytes = match seal(write) {
        Ok(b) => b,
        Err(e) => {
            let r = Err(e);
            assert(gives(r, delete_cols_outcome(t, num@, at, count, revision, w)));
            return r;
        },
    };
    let mut o = no_members();
    put(&mut o, "v", json_number(1));
    put(&mut o, "op", json_text("restore_cols"));
    put(&mut o, "at", json_number(at));
    put(&mut o, "count", json_number(count));
    put(&mut o, "old_cols", json_number(n as u64));
    put(&mut o, "columns", json_array(make_column_entries(ds, &js)));
    let ops = json_object(o);
    let ghost goal = plan_without(t, at as int, count as int);
    let mut plan: Vec<OutCol> = Vec::new();
    let mut j: usize = 0;
    while j < n
        invariant
            j <= n,
            n == ds.fields.len(),
            ds.wf(),
            t == ds.table(),
            end == at + count,
            end <= n,
            goal == plan_without(t, at as int, count as int),
            plan@.len() == if j <= at {
                j as int
            } else if j <= end {
                at as int
            } else {
                j - count
            },
            plan_wf(plan@, ds.fields@.len()),
            plan_views(plan@) =~= goal.take(plan@.len() as int),
        decreases n - j,
    {
        if (j as u64) < at || j as u64 >= end {
            let c = pass_col(ds, j);
            assert(c@ == goal[plan@.len() as int]);
            plan.push(c);
        }
        j = j + 1;
    }
    proof {
        assert(plan_views(plan@) =~= goal);
        lemma_delete_cols(t, num@, at as int, count as int);
        lemma_one(arbitrary(), num@, t.cols, t.rows, Seg::Copy { out: 0, old: 0, len: rows });
    }
    let mut segs: Vec<Seg> = Vec::new();
    segs.push(Seg::Copy { out: 0, old: 0, len: rows });
    assert(segs@ =~= seq![Seg::Copy { out: 0, old: 0, len: rows }]);
    let d = match stream_rewrite(ds, &plan, num, &segs, rows) {
        Ok(d) => d,
        Err(e) => {
            return Err(e);
        },
    };
    assert forall|c: int| 0 <= c < plan@.len() implies (#[trigger] plan@[c])@.field.level() is Some by {
        assert(goal[c] == plan@[c]@);
        if c < at {
            assert(t.fields[c].level() is Some);
        } else {
            assert(t.fields[c + count].level() is Some);
        }
    }
    assert(d.table().fields.len() == plan@.len());
    let schema = wire_schema(&plan, &d, num);
    let out = EditOutput {
        rows,
        schema: Some(schema),
        invalidation: Invalidation { all: Some(true), rows_from: None, rows_to: None },
        inverse_meta: Some(make_inverse(revision, ops)),
        inverse_bytes: bytes,
    };
    let r = Ok((out, d));
    assert(gives(r, delete_cols_outcome(t, num@, at, count, revision, w)));
    r
}

/// The decoded columns as columns to put back.
pub open spec fn restored_cols(inv: Seq<ColumnV>) -> Seq<OutColV> {
    Seq::new(inv.len(), |i: int| restored_colv(inv[i].field, None, inv[i]))
}

/// The outcome of `restore_cols`, given what the blob carries. The program must fit the
/// table, and the blob the program.
pub open spec fn restore_cols_outcome(
    t: TableV,
    num: NumeralsV,
    ops: JsonV,
    blob: Result<Option<Seq<ColumnV>>, Seq<char>>,
    revision: u64,
) -> Result<OutcomeV, FailureV> {
    let n = t.fields.len();
    match (program_u64(ops, "at"@), program_u64(ops, "count"@), program_u64(ops, "old_cols"@)) {
        (Err(f), _, _) => Err(f),
        (_, Err(f), _) => Err(f),
        (_, _, Err(f)) => Err(f),
        (Ok(at), Ok(count), Ok(old_cols)) => if count == 0 || at > n || n + count != old_cols {
            Err(
                FailureV::Fatal(
                    wording::restore_cols_extent_msg(at, count, n as u64, old_cols),
                ),
            )
        } else {
            match decoded(blob) {
                Err(f) => Err(f),
                Ok(inv) => if inv.len() != count || inverse_rows(inv) != t.rows {
                    Err(
                        FailureV::Fatal(
                            "restore_cols: the blob does not match the program (full-width columns were expected)"@,
                        ),
                    )
                } else {
                    let after = with_cols(t, at as int, inv);
                    Ok(
                        OutcomeV {
                            rows: t.rows as u64,
                            schema: Some(
                                schema_json(
                                    plan_with(t, at as int, restored_cols(inv)),
                                    after.cols,
                                    num,
                                ),
                            ),
                            invalidation: all_stale(),
                            inverse: Some(
                                inverse_of(revision, delete_cols_program(at, count, n as u64)),
                            ),
                            bytes: Seq::empty(),
                            table: after,
                        },
                    )
                },
            }
        },
    }
}

/// Putting columns back through one window gives the table with them.
pub proof fn lemma_restore_cols(t: TableV, num: NumeralsV, at: int, inv: Seq<ColumnV>)
    requires
        t.wf(),
        0 <= at <= t.fields.len(),
        columns_fit(inv),
        inv.len() > 0,
        inverse_rows(inv) == t.rows,
    ensures
        rewritten(
            t,
            plan_with(t, at, restored_cols(inv)),
            num,
            seq![Seg::Block { out: 0, len: t.rows as u64 }],
            t.rows,
        ) == Ok::<TableV, FailureV>(with_cols(t, at, inv)),
{
    let seg = Seg::Block { out: 0, len: t.rows as u64 };
    let segs = seq![seg];
    let plan = plan_with(t, at, restored_cols(inv));
    let k = inv.len() as int;
    let goal = with_cols(t, at, inv);
    assert forall|c: int| 0 <= c < plan.len() implies goal.fields[c] == (
    #[trigger] plan[c]).field && goal.dicts[c] == plan[c].levels && goal.cols[c] == walked(plan[c], num, t.cols, t.rows, segs) by {
        lemma_one(plan[c], num, t.cols, t.rows, seg);
        if c < at {
            assert(plan[c] == pass_colv(t, c));
            lemma_pass_whole(t, num, c);
        } else if c < at + k {
            let i = c - at;
            assert(plan[c] == restored_colv(inv[i].field, None, inv[i]));
            assert(inv[i].cells.len() == inv[0].cells.len());
            assert(seg_cells(plan[c], num, t.cols, t.rows, seg) =~= inv[i].cells);
        } else {
            assert(plan[c] == pass_colv(t, c - k));
            lemma_pass_whole(t, num, c - k);
        }
    }
    assert forall|c: int, i: int| 0 <= c < plan.len() && 0 <= i < goal.rows implies cell_fits(
        goal.fields[c],
        goal.dicts[c],
        #[trigger] goal.cols[c][i],
    ) by {
        if c < at {
            assert(cell_fits(t.fields[c], t.dicts[c], t.cols[c][i]));
        } else if c < at + k {
            let m = c - at;
            assert(inv[m].cells.len() == inv[0].cells.len());
            assert(cell_fits(inv[m].field, inv[m].levels, inv[m].cells[i]));
        } else {
            assert(cell_fits(t.fields[c - k], t.dicts[c - k], t.cols[c - k][i]));
        }
    }
    lemma_one(arbitrary(), num, t.cols, t.rows, seg);
    lemma_planned(t, plan, num, segs, goal);
}

/// Serves `restore_cols`.
#[verifier::rlimit(30)]
pub fn restore_cols_exec(
    ds: &Dataset,
    num: &Numerals,
    ops: &Json,
    bytes: &[u8],
    revision: u64,
) -> (r: Result<(EditOutput, Dataset), EditFailure>)
    requires
        ds.wf(),
        ds.table().supported(),
    ensures
        gives(
            r,
            restore_cols_outcome(ds.table(), num@, ops@, blob_columns(bytes@), revision),
        ),
{
    let ghost t = ds.table();
    proof {
        lemma_table_wf(*ds);
    }
    let at = match u64_of(ops, "at") {
        Ok(x) => x,
        Err(e) => {
            return Err(e);
        },
    };
    let count = match u64_of(ops, "count") {
        Ok(x) => x,
        Err(e) => {
            return Err(e);
        },
    };
    let old_cols = match u64_of(ops, "old_cols") {
        Ok(x) => x,
        Err(e) => {
            return Err(e);
        },
    };
    let rows = ds.rows();
    let n = ds.fields.len();
    if count == 0 || at > n as u64 || old_cols < n as u64 || old_cols - n as u64 != count {
        return Err(
            EditFailure::fatal(wording::restore_cols_extent(at, count, n as u64, old_cols)),
        );
    }
    let inv = match decode_inverse(bytes) {
        Ok(d) => d,
        Err(e) => {
            return Err(e);
        },
    };
    let ghost cols = column_views(inv.columns@);
    let k = inv.columns.len();
    if k as u64 != count || inv.rows() != rows {
        return Err(
            EditFailure::fault(
                "restore_cols: the blob does not match the program (full-width columns were expected)",
            ),
        );
    }
    proof {
        crate::capture::lemma_decoded(blob_columns(bytes@));
        assert(levels_tidy(cols));
    }
    let ghost goal = plan_with(t, at as int, restored_cols(cols));
    let mut plan: Vec<OutCol> = Vec::new();
    let mut j: usize = 0;
    while j < at as usize
        invariant
            j <= at,
            at <= n,
            n == ds.fields.len(),
            ds.wf(),
            t == ds.table(),
            plan@.len() == j,
            plan_wf(plan@, ds.fields@.len()),
            plan_views(plan@) =~= pass_plan(t).take(j as int),
        decreases at - j,
    {
        plan.push(pass_col(ds, j));
        j = j + 1;
    }
    let ghost head = plan_views(plan@);
    let mut i: usize = 0;
    assert(head + restored_cols(cols).take(0) =~= head);
    while i < k
        invariant
            i <= k,
            k == inv.columns.len(),
            n == ds.fields.len(),
            cols == column_views(inv.columns@),
            levels_tidy(cols),
            plan@.len() == at + i,
            head.len() == at,
            plan_wf(plan@, ds.fields@.len()),
            plan_views(plan@) == head + restored_cols(cols).take(i as int),
        decreases k - i,
    {
        assert(cols[i as int] == inv.columns@[i as int]@);
        let c = restored_col(inv.columns[i].field.copy(), None, false, &inv.columns[i]);
        assert(c@ == restored_cols(cols)[i as int]);
        assert(c.wf(ds.fields@.len()));
        let ghost before = plan@;
        plan.push(c);
        proof {
            assert(plan_views(plan@) =~= plan_views(before).push(restored_cols(cols)[i as int]));
            assert(plan_views(plan@) =~= head + restored_cols(cols).take(i + 1));
        }
        i = i + 1;
    }
    let ghost mid = plan_views(plan@);
    j = at as usize;
    assert(mid + pass_plan(t).subrange(at as int, at as int) =~= mid);
    while j < n
        invariant
            at <= j <= n,
            n == ds.fields.len(),
            ds.wf(),
            t == ds.table(),
            mid.len() + j - at == plan@.len(),
            plan_wf(plan@, ds.fields@.len()),
            plan_views(plan@) == mid + pass_plan(t).subrange(at as int, j as int),
        decreases n - j,
    {
        let c = pass_col(ds, j);
        let ghost before = plan@;
        plan.push(c);
        proof {
            assert(plan_views(plan@) =~= plan_views(before).push(pass_plan(t)[j as int]));
            assert(plan_views(plan@) =~= mid + pass_plan(t).subrange(at as int, j + 1));
        }
        j = j + 1;
    }
    proof {
        assert(pass_plan(t).subrange(at as int, n as int) =~= pass_plan(t).skip(at as int));
        assert(restored_cols(cols).take(k as int) =~= restored_cols(cols));
        assert(plan_views(plan@) =~= goal);
        lemma_restore_cols(t, num@, at as int, cols);
        lemma_one(arbitrary(), num@, t.cols, t.rows, Seg::Block { out: 0, len: rows });
    }
    let mut segs: Vec<Seg> = Vec::new();
    segs.push(Seg::Block { out: 0, len: rows });
    assert(segs@ =~= seq![Seg::Block { out: 0, len: rows }]);
    let d = match stream_rewrite(ds, &plan, num, &segs, rows) {
        Ok(d) => d,
        Err(e) => {
            return Err(e);
        },
    };
    assert forall|c: int| 0 <= c < plan@.len() implies (#[trigger] plan@[c])@.field.level() is Some by {
        assert(goal[c] == plan@[c]@);
        if c < at {
            assert(t.fields[c].level() is Some);
        } else if c < at + k {
            assert(cols[c - at].field.level() is Some);
        } else {
            assert(t.fields[c - k].level() is Some);
        }
    }
    assert(d.table().fields.len() == plan@.len());
    let schema = wire_schema(&plan, &d, num);
    let out = EditOutput {
        rows,
        schema: Some(schema),
        invalidation: Invalidation { all: Some(true), rows_from: None, rows_to: None },
        inverse_meta: Some(make_inverse(revision, make_delete_cols(at, count, n as u64))),
        inverse_bytes: Vec::new(),
    };
    assert(out.inverse_bytes@ =~= Seq::empty());
    Ok((out, d))
}

} // verus!
