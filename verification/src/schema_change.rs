//! Serving a change of the schema.
use vstd::prelude::*;
use crate::capture::{
    capture_file, column_views, seal, sealed, write_columns, write_view, written, wrote, ColumnV,
};
use crate::edit_block::{first_ten, join_ten, list_missing, mark_used, marks, missing_levels, no_marks, used_in};
use crate::edit_cols::{field_names, lemma_one};
use crate::edit_schema::{
    change_entry, is_least, keep_least, least, lemma_least, parse_entry, ChangeEntry, ChangeEntryV,
};
use crate::engine::{
    build_index, plan_views, plan_wf, rewritten, stream_rewrite, OutCol, OutColV, Under, UnderV,
};
use crate::json::{
    items, json_array, json_number, json_object, json_text, json_texts, label_object, no_members,
    put, text_array, Json, JsonV,
};
use crate::levels::{dedup_texts, deduped, prebuild_dict, prebuilt, CatDict};
use crate::messages::{all_stale, column_refusal, EditFailure, FailureV, IngestParams, Invalidation};
use crate::names::{new_name, unique_new_name};
use crate::number::{Numerals, NumeralsV};
use crate::outcome::{
    capture_cols, capture_of, gives, inverse_of, make_inverse, EditOutput, OutcomeV,
};
use crate::paste::{are_integers, has_values, key_map, map_keys, show_cells, shown};
use crate::segments::Seg;
use crate::table::{
    copy_labels, label_map, lemma_table_wf, level_of_str, level_text, plain_field, same_schema, text_level,
    Cell, Dataset, Field, FieldV, Level, TableV,
};
use crate::text::{
    clone_texts, distinct, find_repeat, first_repeat, joined, lemma_first_repeat, same, texts,
};
use crate::window::mismatch;
use crate::wire::{labels_json, only_integers, schema_json, wire_schema, WIRE_LEVELS_CAP};
use crate::wording;

verus! {

/// What a change does to a column's data.
#[derive(Debug, Clone, Copy, PartialEq, Eq, Structural)]
pub enum Rebuild {
    /// Nothing.
    Keep,
    /// Its dictionary is replaced; every row keeps its level.
    Remap,
    /// A categorical column becomes a scale.
    ToScale,
    /// A scale becomes a categorical column.
    ToCategorical,
}

/// The change of one column.
pub struct Change<'a> {
    pub j: usize,
    pub entry: &'a ChangeEntry,
    pub rename_to: Option<String>,
    pub level: Level,
    pub rebuild: Rebuild,
}

/// The mathematical value of a [`Change`].
#[verifier::ext_equal]
pub struct ChangeV {
    pub j: int,
    pub e: ChangeEntryV,
    pub rename: Option<Seq<char>>,
    pub level: Level,
    pub rebuild: Rebuild,
}

impl<'a> View for Change<'a> {
    type V = ChangeV;

    open spec fn view(&self) -> ChangeV {
        ChangeV {
            j: self.j as int,
            e: self.entry@,
            rename: crate::messages::opt_text(self.rename_to),
            level: self.level,
            rebuild: self.rebuild,
        }
    }
}

/// The values of a list of changes.
pub open spec fn change_views(v: Seq<Change>) -> Seq<ChangeV> {
    Seq::new(v.len(), |i: int| v[i]@)
}

/// The values of a list of entries.
pub open spec fn change_entry_views(v: Seq<ChangeEntry>) -> Seq<ChangeEntryV> {
    Seq::new(v.len(), |i: int| v[i]@)
}

/// What the entries of a target schema say; the first wrong one decides.
pub open spec fn change_entries(a: Seq<JsonV>) -> Result<Seq<ChangeEntryV>, FailureV>
    decreases a.len(),
{
    if a.len() == 0 {
        Ok(Seq::empty())
    } else {
        match change_entries(a.drop_last()) {
            Err(f) => Err(f),
            Ok(p) => match change_entry(a.last()) {
                Err(f) => Err(f),
                Ok(e) => Ok(p.push(e)),
            },
        }
    }
}

/// How many columns have a name.
pub open spec fn name_count(fields: Seq<FieldV>, name: Seq<char>) -> nat
    decreases fields.len(),
{
    if fields.len() == 0 {
        0
    } else {
        name_count(fields.drop_last(), name) + if fields.last().name == name {
            1nat
        } else {
            0nat
        }
    }
}

/// The last column of a name.
pub open spec fn name_index(fields: Seq<FieldV>, name: Seq<char>) -> int
    decreases fields.len(),
{
    if fields.len() == 0 {
        -1
    } else if fields.last().name == name {
        fields.len() - 1
    } else {
        name_index(fields.drop_last(), name)
    }
}

/// The column that an entry names; it must be the only one of the name.
pub open spec fn entry_column(fields: Seq<FieldV>, name: Seq<char>) -> Result<int, FailureV> {
    if name_count(fields, name) == 0 {
        Err(mismatch(wording::no_such_column_msg(name)))
    } else if name_count(fields, name) > 1 {
        Err(mismatch(wording::entry_ambiguous_msg(name)))
    } else {
        Ok(name_index(fields, name))
    }
}

/// The columns that the entries name.
pub open spec fn entry_columns(fields: Seq<FieldV>, es: Seq<ChangeEntryV>) -> Result<
    Seq<int>,
    FailureV,
>
    decreases es.len(),
{
    if es.len() == 0 {
        Ok(Seq::empty())
    } else {
        match entry_columns(fields, es.drop_last()) {
            Err(f) => Err(f),
            Ok(p) => match entry_column(fields, es.last().name) {
                Err(f) => Err(f),
                Ok(j) => Ok(p.push(j)),
            },
        }
    }
}

/// The first column that stands in a list twice.
pub open spec fn first_twice(js: Seq<int>) -> Option<int>
    decreases js.len(),
{
    if js.len() == 0 {
        None
    } else {
        match first_twice(js.drop_last()) {
            Some(j) => Some(j),
            None => if js.drop_last().contains(js.last()) {
                Some(js.last())
            } else {
                None
            },
        }
    }
}

/// The level that an entry asks for: the old one where it names none.
pub open spec fn asked_level(e: ChangeEntryV, f: FieldV) -> Result<Level, FailureV> {
    match e.ty {
        None => Ok(f.level()->0),
        Some(t) => match text_level(t) {
            Some(l) => Ok(l),
            None => Err(column_refusal(e.name, "schema_mismatch"@, wording::unknown_type_msg(t))),
        },
    }
}

/// What a change of level and levels does to a column's data.
pub open spec fn rebuild_of(old_scale: bool, level: Level, levels: Option<Seq<Seq<char>>>) -> Rebuild {
    if old_scale && level is Scale {
        Rebuild::Keep
    } else if old_scale {
        Rebuild::ToCategorical
    } else if level is Scale {
        Rebuild::ToScale
    } else if levels is Some {
        Rebuild::Remap
    } else {
        Rebuild::Keep
    }
}

/// The change that an entry asks of column `j`, as far as it can be settled without the
/// data. No level is declared twice. A new display name makes a new name.
pub open spec fn classified(t: TableV, e: ChangeEntryV, j: int, used: Seq<Seq<char>>) -> Result<
    ChangeV,
    FailureV,
> {
    let f = t.fields[j];
    match asked_level(e, f) {
        Err(x) => Err(x),
        Ok(level) => if level is Scale && (e.levels is Some || e.labels is Some) {
            Err(
                column_refusal(
                    e.name,
                    "schema_mismatch"@,
                    "a scale column has no levels and no labels"@,
                ),
            )
        } else {
            let repeat = match e.levels {
                Some(l) => first_repeat(l),
                None => None,
            };
            match repeat {
                Some(l) => Err(
                    column_refusal(e.name, "schema_mismatch"@, wording::duplicate_level_msg(l)),
                ),
                None => Ok(
                    ChangeV {
                        j,
                        e,
                        rename: match e.display {
                            Some(d) => Some(new_name(used, d, (j + 1) as u64)),
                            None => None,
                        },
                        level,
                        rebuild: rebuild_of(f.is_scale(), level, e.levels),
                    },
                ),
            }
        },
    }
}

/// The names in use after a change.
pub open spec fn renamed(used: Seq<Seq<char>>, c: ChangeV) -> Seq<Seq<char>> {
    match c.rename {
        Some(n) => used.update(c.j, n),
        None => used,
    }
}

/// The changes that the entries ask for, and the names in use after them.
pub open spec fn classified_all(t: TableV, es: Seq<ChangeEntryV>, js: Seq<int>) -> Result<
    (Seq<ChangeV>, Seq<Seq<char>>),
    FailureV,
>
    decreases es.len(),
{
    if es.len() == 0 {
        Ok((Seq::empty(), field_names(t)))
    } else {
        match classified_all(t, es.drop_last(), js) {
            Err(f) => Err(f),
            Ok(p) => match classified(t, es.last(), js[es.len() - 1], p.1) {
                Err(f) => Err(f),
                Ok(c) => Ok((p.0.push(c), renamed(p.1, c))),
            },
        }
    }
}

/// The levels in use that are no numbers, in their order.
pub open spec fn unparsed_levels(
    levels: Seq<Seq<char>>,
    cells: Seq<Cell>,
    num: NumeralsV,
) -> Seq<Seq<char>>
    decreases levels.len(),
{
    if levels.len() == 0 {
        Seq::empty()
    } else {
        let p = unparsed_levels(levels.drop_last(), cells, num);
        if used_in(cells, (levels.len() - 1) as u64) && num.parse(levels.last()) is None {
            p.push(levels.last())
        } else {
            p
        }
    }
}

/// The texts that a list lacks, in their order.
pub open spec fn lacking(s: Seq<Seq<char>>, declared: Seq<Seq<char>>) -> Seq<Seq<char>>
    decreases s.len(),
{
    if s.len() == 0 {
        Seq::empty()
    } else {
        let p = lacking(s.drop_last(), declared);
        if declared.contains(s.last()) {
            p
        } else {
            p.push(s.last())
        }
    }
}

/// How the numbers of a column show, without repeats.
pub open spec fn rendered(t: TableV, num: NumeralsV, j: int) -> Seq<Seq<char>> {
    deduped(shown(t.cols[j], num))
}

/// What the data says against a change: a replaced dictionary must have been seen whole and
/// keep the levels in use, a scale takes numbers only, and declared levels must cover the
/// numbers there are.
pub open spec fn data_issue(t: TableV, num: NumeralsV, c: ChangeV) -> Option<FailureV> {
    let levels = t.dicts[c.j];
    let cells = t.cols[c.j];
    match c.rebuild {
        Rebuild::Keep => None,
        Rebuild::Remap => {
            let count = levels.to_set().len();
            let missing = missing_levels(levels, cells, Seq::empty(), c.e.levels->0);
            if count > WIRE_LEVELS_CAP {
                Some(
                    column_refusal(
                        c.e.name,
                        "schema_mismatch"@,
                        wording::cap_levels_msg(count as u64, WIRE_LEVELS_CAP as u64),
                    ),
                )
            } else if missing.len() > 0 {
                Some(
                    column_refusal(
                        c.e.name,
                        "level_in_use"@,
                        wording::in_use_msg(joined(first_ten(missing), ", "@)),
                    ),
                )
            } else {
                None
            }
        },
        Rebuild::ToScale => {
            let bad = unparsed_levels(levels, cells, num);
            if bad.len() > 0 {
                Some(
                    column_refusal(
                        c.e.name,
                        "coercion"@,
                        wording::not_numbers_msg(joined(first_ten(bad), ", "@)),
                    ),
                )
            } else {
                None
            }
        },
        Rebuild::ToCategorical => match c.e.levels {
            None => None,
            Some(declared) => {
                let set = rendered(t, num, c.j);
                let missing = lacking(set, declared);
                if set.len() > WIRE_LEVELS_CAP {
                    Some(
                        column_refusal(
                            c.e.name,
                            "schema_mismatch"@,
                            wording::cap_values_msg(set.len() as u64, WIRE_LEVELS_CAP as u64),
                        ),
                    )
                } else if missing.len() > 0 {
                    Some(
                        column_refusal(
                            c.e.name,
                            "level_unknown"@,
                            wording::no_declared_level_msg(joined(first_ten(missing), ", "@)),
                        ),
                    )
                } else {
                    None
                }
            },
        },
    }
}

/// The levels that labels may name after a change.
pub open spec fn label_targets(t: TableV, num: NumeralsV, c: ChangeV) -> Seq<Seq<char>> {
    match c.rebuild {
        Rebuild::Remap => c.e.levels->0,
        Rebuild::ToCategorical => match c.e.levels {
            Some(d) => d,
            None => rendered(t, num, c.j),
        },
        _ => t.dicts[c.j],
    }
}

/// The labels that name no level.
pub open spec fn stray_labels(
    labels: Map<Seq<char>, Seq<char>>,
    levels: Seq<Seq<char>>,
) -> Set<Seq<char>> {
    Set::new(|k: Seq<char>| labels.contains_key(k) && !levels.contains(k))
}

/// What is wrong with a change, given the data.
pub open spec fn change_issue(t: TableV, num: NumeralsV, c: ChangeV) -> Option<FailureV> {
    match data_issue(t, num, c) {
        Some(f) => Some(f),
        None => match c.e.labels {
            None => None,
            Some(labels) => {
                let stray = stray_labels(labels, label_targets(t, num, c));
                if stray =~= Set::empty() {
                    None
                } else {
                    Some(
                        column_refusal(
                            c.e.name,
                            "level_unknown"@,
                            wording::label_unknown_msg(least(stray)),
                        ),
                    )
                }
            },
        },
    }
}

/// What is wrong with the first wrong one of a list of changes.
pub open spec fn change_issues(t: TableV, num: NumeralsV, cs: Seq<ChangeV>) -> Option<FailureV>
    decreases cs.len(),
{
    if cs.len() == 0 {
        None
    } else {
        match change_issues(t, num, cs.drop_last()) {
            Some(f) => Some(f),
            None => change_issue(t, num, cs.last()),
        }
    }
}

/// A change that turns a scale into a categorical column or back.
pub open spec fn reencodes(c: ChangeV) -> bool {
    c.rebuild is ToScale || c.rebuild is ToCategorical
}

/// The columns that are re-encoded.
pub open spec fn reencoded(cs: Seq<ChangeV>) -> Seq<u64>
    decreases cs.len(),
{
    if cs.len() == 0 {
        Seq::empty()
    } else if reencodes(cs.last()) {
        reencoded(cs.drop_last()).push(cs.last().j as u64)
    } else {
        reencoded(cs.drop_last())
    }
}

/// A change that says nothing leaves no trace in the inverse.
pub open spec fn says_something(t: TableV, c: ChangeV) -> bool {
    c.rename is Some || t.fields[c.j].level() != Some(c.level) || !(c.rebuild is Keep)
        || c.e.labels is Some
}

/// The levels that the inverse records: those of a categorical column whose dictionary was
/// read for the change.
pub open spec fn recorded_levels(t: TableV, c: ChangeV) -> JsonV {
    if t.fields[c.j].is_scale() || (c.rebuild is Keep && c.e.labels is None) {
        JsonV::Null
    } else {
        text_array(t.dicts[c.j])
    }
}

/// The labels that the inverse records.
pub open spec fn recorded_labels(f: FieldV) -> JsonV {
    if f.labels =~= Map::empty() {
        JsonV::Null
    } else {
        label_object(f.labels)
    }
}

/// What the inverse records of a column: its name after the change, and what it was.
pub open spec fn record_json(
    current: Seq<char>,
    old_name: Seq<char>,
    f: FieldV,
    old_levels: JsonV,
    capture: bool,
    rows: u64,
) -> JsonV {
    JsonV::Object(
        Map::<Seq<char>, JsonV>::empty().insert("current"@, JsonV::Str(current)).insert(
            "old_name"@,
            JsonV::Str(old_name),
        ).insert("old_display"@, JsonV::Str(f.display)).insert(
            "old_type"@,
            JsonV::Str(level_text(f.level()->0)),
        ).insert("old_levels"@, old_levels).insert("old_labels"@, recorded_labels(f)).insert(
            "capture"@,
            if capture {
                JsonV::Str("full"@)
            } else {
                JsonV::Null
            },
        ).insert(
            "capture_rows"@,
            if capture {
                JsonV::Number(rows)
            } else {
                JsonV::Null
            },
        ),
    )
}

/// Makes what the inverse records of a column.
pub fn make_record(
    current: &String,
    old_name: &String,
    f: &Field,
    old_levels: Json,
    capture: bool,
    rows: u64,
) -> (r: Json)
    requires
        f@.level() is Some,
    ensures
        r@ == record_json(current@, old_name@, f@, old_levels@, capture, rows),
{
    let level = match f.level() {
        Some(l) => l,
        None => Level::Scale,
    };
    let mut o = no_members();
    put(&mut o, "current", Json::Str(current.clone()));
    put(&mut o, "old_name", Json::Str(old_name.clone()));
    put(&mut o, "old_display", Json::Str(f.display_name.clone()));
    put(&mut o, "old_type", json_text(level.as_str()));
    put(&mut o, "old_levels", old_levels);
    proof {
        crate::wire::lemma_label_map_empty(f.labels@);
    }
    put(
        &mut o,
        "old_labels",
        if f.labels.len() > 0 {
            labels_json(&f.labels)
        } else {
            Json::Null
        },
    );
    put(
        &mut o,
        "capture",
        if capture {
            json_text("full")
        } else {
            Json::Null
        },
    );
    put(
        &mut o,
        "capture_rows",
        if capture {
            json_number(rows)
        } else {
            Json::Null
        },
    );
    json_object(o)
}

/// What the inverse records of a change.
pub open spec fn change_record(t: TableV, c: ChangeV) -> JsonV {
    let f = t.fields[c.j];
    record_json(
        match c.rename {
            Some(n) => n,
            None => f.name,
        },
        f.name,
        f,
        recorded_levels(t, c),
        reencodes(c),
        t.rows as u64,
    )
}

/// What the inverse records of the changes that say something.
pub open spec fn change_records(t: TableV, cs: Seq<ChangeV>) -> Seq<JsonV>
    decreases cs.len(),
{
    if cs.len() == 0 {
        Seq::empty()
    } else if says_something(t, cs.last()) {
        change_records(t, cs.drop_last()).push(change_record(t, cs.last()))
    } else {
        change_records(t, cs.drop_last())
    }
}

/// A program that restores the schema of a table.
pub open spec fn restore_schema_program(t: TableV, columns: Seq<JsonV>) -> JsonV {
    JsonV::Object(
        Map::<Seq<char>, JsonV>::empty().insert("v"@, JsonV::Number(1)).insert(
            "op"@,
            JsonV::Str("restore_schema"@),
        ).insert("old_order"@, text_array(field_names(t))).insert(
            "old_cols"@,
            JsonV::Number(t.fields.len() as u64),
        ).insert("old_rows"@, JsonV::Number(t.rows as u64)).insert(
            "columns"@,
            JsonV::Array(columns),
        ),
    )
}

/// Lists the names of the columns.
pub fn name_list(ds: &Dataset) -> (r: Vec<String>)
    ensures
        texts(r@) == field_names(ds.table()),
        r@.len() == ds.fields@.len(),
{
    let mut names: Vec<String> = Vec::new();
    let mut j: usize = 0;
    let ghost goal = field_names(ds.table());
    while j < ds.fields.len()
        invariant
            j <= ds.fields.len(),
            goal == field_names(ds.table()),
            names@.len() == j,
            texts(names@) =~= goal.take(j as int),
        decreases ds.fields.len() - j,
    {
        names.push(ds.fields[j].name.clone());
        j = j + 1;
    }
    assert(texts(names@) =~= goal);
    names
}

/// Makes a program that restores the schema of a table.
pub fn make_restore_schema(ds: &Dataset, rows: u64, columns: Vec<Json>) -> (r: Json)
    requires
        rows == ds.table().rows,
    ensures
        r@ == restore_schema_program(ds.table(), items(columns@)),
{
    let names = name_list(ds);
    let mut o = no_members();
    put(&mut o, "v", json_number(1));
    put(&mut o, "op", json_text("restore_schema"));
    put(&mut o, "old_order", json_texts(&names));
    put(&mut o, "old_cols", json_number(ds.fields.len() as u64));
    put(&mut o, "old_rows", json_number(rows));
    put(&mut o, "columns", json_array(columns));
    json_object(o)
}

/// The numbers that the levels of a dictionary stand for.
pub open spec fn level_values(levels: Seq<Seq<char>>, num: NumeralsV) -> Seq<Cell> {
    Seq::new(levels.len(), |i: int| num.parse(levels[i]))
}

/// The numbers that the cells of a categorical column stand for.
pub open spec fn cell_values(cells: Seq<Cell>, values: Seq<Cell>) -> Seq<Cell> {
    Seq::new(
        cells.len(),
        |i: int|
            match cells[i] {
                Some(k) => if k < values.len() {
                    values[k as int]
                } else {
                    None
                },
                None => None,
            },
    )
}

/// Whether a column holds some number and integers only.
pub open spec fn holds_integers(cells: Seq<Cell>) -> bool {
    (exists|k: int| 0 <= k < cells.len() && (#[trigger] cells[k]) is Some) && only_integers(cells)
}

/// The field of a changed column. Declared labels replace the old ones, which a scale loses.
pub open spec fn changed_field(t: TableV, num: NumeralsV, c: ChangeV) -> FieldV {
    let f = t.fields[c.j];
    let named = plain_field(
        match c.rename {
            Some(n) => n,
            None => f.name,
        },
        match c.rename {
            Some(_) => c.e.display->0,
            None => f.display,
        },
        c.level,
        if c.rebuild is ToScale {
            holds_integers(cell_values(t.cols[c.j], level_values(t.dicts[c.j], num)))
        } else {
            f.all_integer
        },
    );
    FieldV {
        labels: match c.e.labels {
            Some(l) => l,
            None => if c.level is Scale {
                Map::empty()
            } else {
                f.labels
            },
        },
        ..named
    }
}

/// How a changed column is made.
pub open spec fn changed_col(t: TableV, num: NumeralsV, sort_limit: nat, c: ChangeV) -> OutColV {
    let levels = match c.rebuild {
        Rebuild::Keep => t.dicts[c.j],
        Rebuild::Remap => c.e.levels->0,
        Rebuild::ToScale => Seq::empty(),
        Rebuild::ToCategorical => match c.e.levels {
            Some(d) => d,
            None => prebuilt(rendered(t, num, c.j), num, sort_limit),
        },
    };
    OutColV {
        field: changed_field(t, num, c),
        old: Some(c.j),
        window: None,
        under: match c.rebuild {
            Rebuild::Keep => UnderV::Same,
            Rebuild::Remap => UnderV::Remap(key_map(t.dicts[c.j], levels)),
            Rebuild::ToScale => UnderV::Remap(level_values(t.dicts[c.j], num)),
            Rebuild::ToCategorical => UnderV::Render,
        },
        levels,
    }
}

/// How the changed columns are made, in the order of the entries.
pub open spec fn changed_cols(
    t: TableV,
    num: NumeralsV,
    sort_limit: nat,
    cs: Seq<ChangeV>,
) -> Seq<OutColV> {
    Seq::new(cs.len(), |i: int| changed_col(t, num, sort_limit, cs[i]))
}

/// A type, a list of levels or the order of the columns changes.
pub open spec fn moves_data(t: TableV, cs: Seq<ChangeV>) -> bool {
    exists|i: int|
        0 <= i < cs.len() && ((#[trigger] cs[i]).j != i || t.fields[cs[i].j].level() != Some(
            cs[i].level,
        ) || !(cs[i].rebuild is Keep))
}

/// The changes that a target schema asks for.
pub open spec fn asked_changes(t: TableV, target: JsonV) -> Result<Seq<ChangeV>, FailureV> {
    match target {
        JsonV::Array(a) => match change_entries(a) {
            Err(f) => Err(f),
            Ok(es) => if es.len() != t.fields.len() {
                Err(
                    mismatch(
                        wording::column_set_msg(es.len() as u64, t.fields.len() as u64),
                    ),
                )
            } else {
                match entry_columns(t.fields, es) {
                    Err(f) => Err(f),
                    Ok(js) => match first_twice(js) {
                        Some(j) => Err(mismatch(wording::named_twice_msg(t.fields[j].name))),
                        None => match classified_all(t, es, js) {
                            Err(f) => Err(f),
                            Ok(p) => Ok(p.0),
                        },
                    },
                }
            },
        },
        _ => Err(mismatch("schema_change: target_schema must be an ARRAY of column entries"@)),
    }
}

/// What a change of the schema captures: the columns it re-encodes, whole.
pub open spec fn schema_capture(t: TableV, cs: Seq<ChangeV>) -> Seq<ColumnV> {
    capture_of(t, reencoded(cs), 0, t.rows as int)
}

/// The schema of a table differs from that of another one: a column, its place or its levels.
pub open spec fn alters(t: TableV, after: TableV) -> bool {
    !(t.fields =~= after.fields && t.dicts =~= after.dicts)
}

/// The outcome of a change of the schema, given what writing the capture gave. The columns
/// stay the same ones and the rows stay put. A schema is handed out where it changed.
pub open spec fn schema_outcome(
    t: TableV,
    num: NumeralsV,
    sort_limit: nat,
    target: JsonV,
    revision: u64,
    w: Result<Seq<u8>, Seq<char>>,
) -> Result<OutcomeV, FailureV> {
    match asked_changes(t, target) {
        Err(f) => Err(f),
        Ok(cs) => match change_issues(t, num, cs) {
            Some(f) => Err(f),
            None => {
                let plan = changed_cols(t, num, sort_limit, cs);
                match (
                    if reencoded(cs).len() == 0 {
                        Ok(Seq::empty())
                    } else {
                        sealed(w)
                    },
                    rewritten(
                        t,
                        plan,
                        num,
                        seq![Seg::Copy { out: 0, old: 0, len: t.rows as u64 }],
                        t.rows,
                    ),
                ) {
                    (Err(f), _) => Err(f),
                    (Ok(_), Err(f)) => Err(f),
                    (Ok(bytes), Ok(after)) => Ok(
                        OutcomeV {
                            rows: t.rows as u64,
                            schema: if alters(t, after) {
                                Some(schema_json(plan, after.cols, num))
                            } else {
                                None
                            },
                            invalidation: if moves_data(t, cs) {
                                all_stale()
                            } else {
                                Invalidation { all: None, rows_from: None, rows_to: None }
                            },
                            inverse: Some(
                                inverse_of(
                                    revision,
                                    restore_schema_program(t, change_records(t, cs)),
                                ),
                            ),
                            bytes,
                            table: after,
                        },
                    ),
                }
            },
        },
    }
}

/// Column positions as mathematical integers.
pub open spec fn position_views(v: Seq<usize>) -> Seq<int> {
    Seq::new(v.len(), |i: int| v[i] as int)
}

proof fn lemma_entries_prefix(a: Seq<JsonV>, k: int)
    requires
        0 <= k <= a.len(),
        change_entries(a.take(k)) is Err,
    ensures
        change_entries(a) == change_entries(a.take(k)),
    decreases a.len() - k,
{
    if k < a.len() {
        assert(a.take(k + 1).drop_last() =~= a.take(k));
        lemma_entries_prefix(a, k + 1);
    } else {
        assert(a.take(k) =~= a);
    }
}

/// Reads the entries of a target schema.
fn parse_entries(a: &Vec<Json>) -> (r: Result<Vec<ChangeEntry>, EditFailure>)
    ensures
        match (r, change_entries(items(a@))) {
            (Ok(v), Ok(s)) => change_entry_views(v@) == s,
            (Err(e), Err(f)) => e@ == f,
            _ => false,
        },
{
    let mut out: Vec<ChangeEntry> = Vec::new();
    let mut i: usize = 0;
    let ghost all = items(a@);
    assert(all.take(0) =~= Seq::empty());
    assert(change_entry_views(out@) =~= Seq::empty());
    while i < a.len()
        invariant
            i <= a.len(),
            all == items(a@),
            change_entries(all.take(i as int)) == Ok::<Seq<ChangeEntryV>, FailureV>(
                change_entry_views(out@),
            ),
        decreases a.len() - i,
    {
        assert(all.take(i + 1).drop_last() =~= all.take(i as int));
        assert(all.take(i + 1).last() == a@[i as int]@);
        match parse_entry(&a[i]) {
            Ok(e) => {
                let ghost before = out@;
                let ghost ev = e@;
                out.push(e);
                assert(change_entry_views(out@) =~= change_entry_views(before).push(ev));
            },
            Err(e) => {
                proof {
                    lemma_entries_prefix(all, i + 1);
                }
                return Err(e);
            },
        }
        i = i + 1;
    }
    assert(all.take(all.len() as int) =~= all);
    Ok(out)
}

/// The column of a name that occurs has that name.
pub proof fn lemma_name_index(fields: Seq<FieldV>, name: Seq<char>)
    ensures
        name_count(fields, name) > 0 ==> 0 <= name_index(fields, name) < fields.len(),
        name_count(fields, name) > 0 ==> fields[name_index(fields, name)].name == name,
        name_count(fields, name) <= fields.len(),
    decreases fields.len(),
{
    if fields.len() > 0 {
        lemma_name_index(fields.drop_last(), name);
    }
}

/// Finds the column that an entry names.
fn find_column(ds: &Dataset, name: &String) -> (r: Result<usize, EditFailure>)
    ensures
        match (r, entry_column(ds.table().fields, name@)) {
            (Ok(j), Ok(k)) => j == k && j < ds.fields@.len(),
            (Err(e), Err(f)) => e@ == f,
            _ => false,
        },
{
    let mut count: usize = 0;
    let mut found: usize = 0;
    let mut j: usize = 0;
    let ghost all = ds.table().fields;
    assert(all.take(0) =~= Seq::empty());
    while j < ds.fields.len()
        invariant
            j <= ds.fields.len(),
            all == ds.table().fields,
            count == name_count(all.take(j as int), name@),
            count <= j,
            count > 0 ==> found == name_index(all.take(j as int), name@),
            found <= j,
        decreases ds.fields.len() - j,
    {
        assert(all.take(j + 1).drop_last() =~= all.take(j as int));
        assert(all.take(j + 1).last() == ds.fields@[j as int]@);
        if same(name, ds.fields[j].name.as_str()) {
            count = count + 1;
            found = j;
        }
        j = j + 1;
    }
    assert(all.take(all.len() as int) =~= all);
    proof {
        lemma_name_index(all, name@);
    }
    if count == 0 {
        return Err(
            EditFailure::refused("schema_mismatch", wording::no_such_column(name.as_str())),
        );
    }
    if count > 1 {
        return Err(
            EditFailure::refused("schema_mismatch", wording::entry_ambiguous(name.as_str())),
        );
    }
    Ok(found)
}

proof fn lemma_columns_prefix(fields: Seq<FieldV>, es: Seq<ChangeEntryV>, k: int)
    requires
        0 <= k <= es.len(),
        entry_columns(fields, es.take(k)) is Err,
    ensures
        entry_columns(fields, es) == entry_columns(fields, es.take(k)),
    decreases es.len() - k,
{
    if k < es.len() {
        assert(es.take(k + 1).drop_last() =~= es.take(k));
        lemma_columns_prefix(fields, es, k + 1);
    } else {
        assert(es.take(k) =~= es);
    }
}

/// Finds the columns that the entries name.
fn match_entries(ds: &Dataset, es: &Vec<ChangeEntry>) -> (r: Result<Vec<usize>, EditFailure>)
    ensures
        match (r, entry_columns(ds.table().fields, change_entry_views(es@))) {
            (Ok(v), Ok(s)) => position_views(v@) == s && v@.len() == es@.len() && (forall|i: int|
                0 <= i < v@.len() ==> #[trigger] v@[i] < ds.fields@.len()),
            (Err(e), Err(f)) => e@ == f,
            _ => false,
        },
{
    let mut out: Vec<usize> = Vec::new();
    let mut i: usize = 0;
    let ghost all = change_entry_views(es@);
    let ghost fields = ds.table().fields;
    assert(all.take(0) =~= Seq::empty());
    assert(position_views(out@) =~= Seq::empty());
    while i < es.len()
        invariant
            i <= es.len(),
            all == change_entry_views(es@),
            fields == ds.table().fields,
            out@.len() == i,
            forall|i: int| 0 <= i < out@.len() ==> #[trigger] out@[i] < ds.fields@.len(),
            entry_columns(fields, all.take(i as int)) == Ok::<Seq<int>, FailureV>(
                position_views(out@),
            ),
        decreases es.len() - i,
    {
        assert(all.take(i + 1).drop_last() =~= all.take(i as int));
        assert(all.take(i + 1).last() == es@[i as int]@);
        match find_column(ds, &es[i].name) {
            Ok(j) => {
                let ghost before = out@;
                out.push(j);
                assert(position_views(out@) =~= position_views(before).push(j as int));
            },
            Err(e) => {
                proof {
                    lemma_columns_prefix(fields, all, i + 1);
                }
                return Err(e);
            },
        }
        i = i + 1;
    }
    assert(all.take(all.len() as int) =~= all);
    Ok(out)
}

proof fn lemma_twice_prefix(js: Seq<int>, k: int)
    requires
        0 <= k <= js.len(),
        first_twice(js.take(k)) is Some,
    ensures
        first_twice(js) == first_twice(js.take(k)),
    decreases js.len() - k,
{
    if k < js.len() {
        assert(js.take(k + 1).drop_last() =~= js.take(k));
        lemma_twice_prefix(js, k + 1);
    } else {
        assert(js.take(k) =~= js);
    }
}

/// Finds the first column that stands in a list twice.
pub fn find_twice(js: &Vec<usize>) -> (r: Option<usize>)
    ensures
        match (r, first_twice(position_views(js@))) {
            (Some(j), Some(k)) => j == k && position_views(js@).contains(k),
            (None, None) => true,
            _ => false,
        },
{
    let mut i: usize = 0;
    let ghost all = position_views(js@);
    assert(all.take(0) =~= Seq::empty());
    while i < js.len()
        invariant
            i <= js.len(),
            all == position_views(js@),
            first_twice(all.take(i as int)) is None,
        decreases js.len() - i,
    {
        let ghost head = all.take(i as int);
        assert(all.take(i + 1).drop_last() =~= head);
        assert(all.take(i + 1).last() == js@[i as int]);
        let mut k: usize = 0;
        while k < i
            invariant
                k <= i < js.len(),
                all == position_views(js@),
                head == all.take(i as int),
                all.take(i + 1).drop_last() == head,
                all.take(i + 1).last() == js@[i as int],
                first_twice(head) is None,
                forall|m: int| 0 <= m < k ==> js@[m] != js@[i as int],
            decreases i - k,
        {
            if js[k] == js[i] {
                proof {
                    assert(head[k as int] == js@[i as int]);
                    lemma_twice_prefix(all, i + 1);
                    assert(all[i as int] == js@[i as int]);
                }
                return Some(js[i]);
            }
            k = k + 1;
        }
        assert forall|m: int| 0 <= m < head.len() implies head[m] != js@[i as int] by {}
        i = i + 1;
    }
    assert(all.take(all.len() as int) =~= all);
    None
}

/// Settles what an entry asks of column `j`.
fn classify<'a>(ds: &Dataset, e: &'a ChangeEntry, j: usize, used: &Vec<String>) -> (r: Result<
    Change<'a>,
    EditFailure,
>)
    requires
        j < ds.fields@.len(),
        ds.table().supported(),
    ensures
        match (r, classified(ds.table(), e@, j as int, texts(used@))) {
            (Ok(c), Ok(s)) => c@ == s && c.entry == e && c.j == j,
            (Err(e), Err(f)) => e@ == f,
            _ => false,
        },
{
    let f = &ds.fields[j];
    let ghost fv = ds.table().fields[j as int];
    assert(fv == f@);
    assert(fv.level() is Some);
    let level = match &e.column_type {
        Some(t) => match level_of_str(t) {
            Some(l) => l,
            None => {
                return Err(
                    EditFailure::refused_column(
                        e.name.as_str(),
                        "schema_mismatch",
                        wording::unknown_type(t.as_str()),
                    ),
                );
            },
        },
        None => match f.level() {
            Some(l) => l,
            None => Level::Scale,
        },
    };
    if level.is_scale() && (e.levels.is_some() || e.labels.is_some()) {
        return Err(
            EditFailure::refused_column(
                e.name.as_str(),
                "schema_mismatch",
                "a scale column has no levels and no labels".to_string(),
            ),
        );
    }
    if let Some(l) = &e.levels {
        if let Some(t) = find_repeat(l) {
            return Err(
                EditFailure::refused_column(
                    e.name.as_str(),
                    "schema_mismatch",
                    wording::duplicate_level(t.as_str()),
                ),
            );
        }
    }
    let rebuild = if f.is_scale() {
        if level.is_scale() {
            Rebuild::Keep
        } else {
            Rebuild::ToCategorical
        }
    } else if level.is_scale() {
        Rebuild::ToScale
    } else if e.levels.is_some() {
        Rebuild::Remap
    } else {
        Rebuild::Keep
    };
    assert(ds.fields@.len() == ds.fields.len());
    let rename_to = match &e.display_name {
        Some(d) => Some(unique_new_name(used, d, j as u64 + 1)),
        None => None,
    };
    Ok(Change { j, entry: e, rename_to, level, rebuild })
}

proof fn lemma_classified_prefix(t: TableV, es: Seq<ChangeEntryV>, js: Seq<int>, k: int)
    requires
        0 <= k <= es.len(),
        classified_all(t, es.take(k), js) is Err,
    ensures
        classified_all(t, es, js) == classified_all(t, es.take(k), js),
    decreases es.len() - k,
{
    if k < es.len() {
        assert(es.take(k + 1).drop_last() =~= es.take(k));
        lemma_classified_prefix(t, es, js, k + 1);
    } else {
        assert(es.take(k) =~= es);
    }
}

/// Settles what the entries ask for.
fn classify_entries<'a>(ds: &Dataset, es: &'a Vec<ChangeEntry>, js: &Vec<usize>) -> (r: Result<
    Vec<Change<'a>>,
    EditFailure,
>)
    requires
        ds.table().supported(),
        es@.len() == js@.len(),
        forall|i: int| 0 <= i < js@.len() ==> #[trigger] js@[i] < ds.fields@.len(),
    ensures
        match (
            r,
            classified_all(ds.table(), change_entry_views(es@), position_views(js@)),
        ) {
            (Ok(v), Ok(s)) => change_views(v@) == s.0 && (forall|i: int|
                0 <= i < v@.len() ==> (#[trigger] v@[i]).j < ds.fields@.len()),
            (Err(e), Err(f)) => e@ == f,
            _ => false,
        },
{
    let mut used: Vec<String> = name_list(ds);
    let mut out: Vec<Change<'a>> = Vec::new();
    let mut i: usize = 0;
    let ghost all = change_entry_views(es@);
    let ghost at = position_views(js@);
    let ghost t = ds.table();
    assert(all.take(0) =~= Seq::empty());
    assert(change_views(out@) =~= Seq::empty());
    while i < es.len()
        invariant
            i <= es.len(),
            all == change_entry_views(es@),
            at == position_views(js@),
            t == ds.table(),
            t.supported(),
            es@.len() == js@.len(),
            used@.len() == ds.fields@.len(),
            forall|i: int| 0 <= i < js@.len() ==> #[trigger] js@[i] < ds.fields@.len(),
            forall|i: int| 0 <= i < out@.len() ==> (#[trigger] out@[i]).j < ds.fields@.len(),
            classified_all(t, all.take(i as int), at) == Ok::<
                (Seq<ChangeV>, Seq<Seq<char>>),
                FailureV,
            >((change_views(out@), texts(used@))),
        decreases es.len() - i,
    {
        assert(all.take(i + 1).drop_last() =~= all.take(i as int));
        assert(all.take(i + 1).last() == es@[i as int]@);
        assert(at[all.take(i + 1).len() - 1] == js@[i as int]);
        match classify(ds, &es[i], js[i], &used) {
            Ok(c) => {
                let ghost cv = c@;
                let ghost names = texts(used@);
                if let Some(n) = &c.rename_to {
                    let ghost nv = n@;
                    used.set(c.j, n.clone());
                    assert(texts(used@) =~= names.update(c.j as int, nv));
                }
                assert(texts(used@) == renamed(names, cv));
                let ghost before = out@;
                out.push(c);
                assert(change_views(out@) =~= change_views(before).push(cv));
            },
            Err(e) => {
                proof {
                    lemma_classified_prefix(t, all, at, i + 1);
                }
                return Err(e);
            },
        }
        i = i + 1;
    }
    assert(all.take(all.len() as int) =~= all);
    Ok(out)
}

/// Lists the levels in use that are no numbers.
fn list_unparsed(levels: &Vec<String>, cells: &Vec<Cell>, num: &Numerals) -> (r: Vec<String>)
    ensures
        texts(r@) == unparsed_levels(texts(levels@), cells@, num@),
{
    let mut used = no_marks(levels.len());
    let ghost u0 = used@;
    mark_used(cells, &mut used);
    let mut out: Vec<String> = Vec::new();
    let mut i: usize = 0;
    let ghost all = texts(levels@);
    assert(all.take(0) =~= Seq::empty());
    assert(texts(out@) =~= Seq::empty());
    while i < levels.len()
        invariant
            i <= levels.len(),
            all == texts(levels@),
            used@.len() == levels@.len(),
            marks(used@, u0, cells@),
            forall|k: int| 0 <= k < u0.len() ==> !(#[trigger] u0[k]),
            u0.len() == levels@.len(),
            texts(out@) == unparsed_levels(all.take(i as int), cells@, num@),
        decreases levels.len() - i,
    {
        assert(all.take(i + 1).drop_last() =~= all.take(i as int));
        assert(all.take(i + 1).last() == levels@[i as int]@);
        assert(used@[i as int] == (u0[i as int] || used_in(cells@, i as u64)));
        if used[i] && num.parse_num(&levels[i]).is_none() {
            let ghost before = out@;
            out.push(levels[i].clone());
            assert(texts(out@) =~= texts(before).push(levels@[i as int]@));
        }
        i = i + 1;
    }
    assert(all.take(all.len() as int) =~= all);
    out
}

/// Lists the texts that a dictionary lacks.
fn list_lacking(v: &Vec<String>, dict: &CatDict) -> (r: Vec<String>)
    requires
        dict.wf(),
    ensures
        texts(r@) == lacking(texts(v@), texts(dict.values@)),
{
    let mut out: Vec<String> = Vec::new();
    let mut i: usize = 0;
    let ghost all = texts(v@);
    let ghost dl = texts(dict.values@);
    assert(all.take(0) =~= Seq::empty());
    assert(texts(out@) =~= Seq::empty());
    while i < v.len()
        invariant
            i <= v.len(),
            all == texts(v@),
            dict.wf(),
            dl == texts(dict.values@),
            texts(out@) == lacking(all.take(i as int), dl),
        decreases v.len() - i,
    {
        assert(all.take(i + 1).drop_last() =~= all.take(i as int));
        assert(all.take(i + 1).last() == v@[i as int]@);
        proof {
            crate::text::lemma_index_of(dl, v@[i as int]@);
        }
        if dict.lookup(v[i].as_str()).is_none() {
            let ghost before = out@;
            out.push(v[i].clone());
            assert(texts(out@) =~= texts(before).push(v@[i as int]@));
        }
        i = i + 1;
    }
    assert(all.take(all.len() as int) =~= all);
    out
}

/// How the numbers of a column show, without repeats.
fn render_column(ds: &Dataset, num: &Numerals, j: usize) -> (r: Vec<String>)
    requires
        ds.wf(),
        j < ds.fields@.len(),
    ensures
        texts(r@) == rendered(ds.table(), num@, j as int),
{
    let cells = ds.column(j);
    let mut all: Vec<String> = Vec::new();
    show_cells(&cells, num, &mut all);
    assert(texts(all@) =~= shown(cells@, num@));
    dedup_texts(&all)
}

/// Counts the distinct levels of a dictionary.
pub fn count_levels(levels: &Vec<String>) -> (r: u64)
    ensures
        r == texts(levels@).to_set().len(),
{
    let index = build_index(levels);
    let ghost all = texts(levels@);
    proof {
        assert(index@.dom() =~= all.to_set()) by {
            assert forall|t: Seq<char>| #[trigger] index@.dom().contains(t)
                <==> all.to_set().contains(t) by {
                crate::text::lemma_index_of(all, t);
                assert(index@.contains_key(t) || !index@.contains_key(t));
            }
        }
    }
    index.len() as u64
}

/// Holds a change against the data.
#[verifier::rlimit(50)]
fn check_data(ds: &Dataset, num: &Numerals, c: &Change) -> (r: Result<(), EditFailure>)
    requires
        ds.wf(),
        ds.table().wf(),
        c.j < ds.fields@.len(),
        c.rebuild is Remap ==> c.entry.levels is Some,
    ensures
        match (r, data_issue(ds.table(), num@, c@)) {
            (Ok(_), None) => true,
            (Err(e), Some(f)) => e@ == f,
            _ => false,
        },
{
    let name = &c.entry.name;
    let ghost levels = ds.table().dicts[c.j as int];
    assert(levels == texts(ds.dicts@[c.j as int]@));
    match c.rebuild {
        Rebuild::Keep => Ok(()),
        Rebuild::Remap => {
            let count = count_levels(&ds.dicts[c.j]);
            if count > WIRE_LEVELS_CAP as u64 {
                return Err(
                    EditFailure::refused_column(
                        name.as_str(),
                        "schema_mismatch",
                        wording::cap_levels(count, WIRE_LEVELS_CAP as u64),
                    ),
                );
            }
            if let Some(declared) = &c.entry.levels {
                let cells = ds.column(c.j);
                let nothing: Vec<Cell> = Vec::new();
                let missing = list_missing(&ds.dicts[c.j], &cells, &nothing, declared);
                assert(nothing@ =~= Seq::empty());
                assert(texts(missing@).len() == missing@.len());
                if missing.len() > 0 {
                    return Err(
                        EditFailure::refused_column(
                            name.as_str(),
                            "level_in_use",
                            wording::in_use(join_ten(&missing).as_str()),
                        ),
                    );
                }
            }
            Ok(())
        },
        Rebuild::ToScale => {
            let cells = ds.column(c.j);
            let bad = list_unparsed(&ds.dicts[c.j], &cells, num);
            assert(texts(bad@).len() == bad@.len());
            if bad.len() > 0 {
                return Err(
                    EditFailure::refused_column(
                        name.as_str(),
                        "coercion",
                        wording::not_numbers(join_ten(&bad).as_str()),
                    ),
                );
            }
            Ok(())
        },
        Rebuild::ToCategorical => {
            if let Some(declared) = &c.entry.levels {
                let set = render_column(ds, num, c.j);
                assert(texts(set@).len() == set@.len());
                if set.len() > WIRE_LEVELS_CAP {
                    return Err(
                        EditFailure::refused_column(
                            name.as_str(),
                            "schema_mismatch",
                            wording::cap_values(set.len() as u64, WIRE_LEVELS_CAP as u64),
                        ),
                    );
                }
                let dict = CatDict::from_list(clone_texts(declared));
                assert(texts(dict.values@) =~= texts(declared@));
                let missing = list_lacking(&set, &dict);
                assert(texts(missing@).len() == missing@.len());
                if missing.len() > 0 {
                    return Err(
                        EditFailure::refused_column(
                            name.as_str(),
                            "level_unknown",
                            wording::no_declared_level(join_ten(&missing).as_str()),
                        ),
                    );
                }
            }
            Ok(())
        },
    }
}

proof fn lemma_label_map_at(v: Seq<(String, String)>, k: Seq<char>)
    ensures
        label_map(v).contains_key(k) <==> (exists|m: int|
            0 <= m < v.len() && (#[trigger] v[m]).0@ == k),
    decreases v.len(),
{
    if v.len() > 0 {
        lemma_label_map_at(v.drop_last(), k);
        if label_map(v.drop_last()).contains_key(k) {
            let m = choose|m: int| 0 <= m < v.len() - 1 && (#[trigger] v.drop_last()[m]).0@ == k;
            assert(v[m].0@ == k);
        }
        if v.last().0@ == k {
            assert(v[v.len() - 1].0@ == k);
        }
        if exists|m: int| 0 <= m < v.len() && (#[trigger] v[m]).0@ == k {
            let m = choose|m: int| 0 <= m < v.len() && (#[trigger] v[m]).0@ == k;
            if m < v.len() - 1 {
                assert(v.drop_last()[m].0@ == k);
            }
        }
    }
}

/// Finds the least label that names no level.
fn find_stray<'a>(labels: &'a Vec<(String, String)>, dict: &CatDict) -> (r: Option<&'a String>)
    requires
        dict.wf(),
    ensures
        ({
            let s = stray_labels(label_map(labels@), texts(dict.values@));
            match r {
                Some(k) => !(s =~= Set::empty()) && k@ == least(s),
                None => s =~= Set::empty(),
            }
        }),
{
    let mut best: Option<&'a String> = None;
    let mut i: usize = 0;
    let ghost dl = texts(dict.values@);
    let ghost stray = stray_labels(label_map(labels@), dl);
    let ghost mut seen = Set::<Seq<char>>::empty();
    while i < labels.len()
        invariant
            i <= labels.len(),
            dict.wf(),
            dl == texts(dict.values@),
            stray == stray_labels(label_map(labels@), dl),
            seen == Set::new(
                |k: Seq<char>|
                    !dl.contains(k) && (exists|m: int|
                        0 <= m < i && (#[trigger] labels@[m]).0@ == k),
            ),
            match best {
                Some(b) => is_least(seen, b@),
                None => seen =~= Set::empty(),
            },
        decreases labels.len() - i,
    {
        let ghost key = labels@[i as int].0@;
        let known = dict.lookup(labels[i].0.as_str()).is_some();
        proof {
            crate::text::lemma_index_of(dl, key);
            assert(known == dl.contains(key));
        }
        let ghost next = Set::new(
            |k: Seq<char>|
                !dl.contains(k) && (exists|m: int|
                    0 <= m < i + 1 && (#[trigger] labels@[m]).0@ == k),
        );
        proof {
            assert forall|k: Seq<char>| next.contains(k) <==> (seen.contains(k) || (!known && k
                == key)) by {
                if next.contains(k) {
                    let m = choose|m: int| 0 <= m < i + 1 && (#[trigger] labels@[m]).0@ == k;
                    if m < i {
                        assert(labels@[m].0@ == k);
                    }
                }
                if seen.contains(k) {
                    let m = choose|m: int| 0 <= m < i && (#[trigger] labels@[m]).0@ == k;
                    assert(labels@[m].0@ == k);
                }
                assert(labels@[i as int].0@ == key);
            }
        }
        if !known {
            let b = keep_least(best, &labels[i].0, Ghost(seen));
            best = Some(b);
            assert(next =~= seen.insert(key));
        } else {
            assert(next =~= seen);
        }
        proof {
            seen = next;
        }
        i = i + 1;
    }
    proof {
        assert forall|k: Seq<char>| stray.contains(k) <==> seen.contains(k) by {
            lemma_label_map_at(labels@, k);
        }
        assert(seen =~= stray);
        if let Some(b) = best {
            lemma_least(stray, b@);
        }
    }
    best
}

/// Holds a change and its labels against the data.
fn check_change(ds: &Dataset, num: &Numerals, c: &Change) -> (r: Result<(), EditFailure>)
    requires
        ds.wf(),
        ds.table().wf(),
        c.j < ds.fields@.len(),
        c.rebuild is Remap ==> c.entry.levels is Some,
    ensures
        match (r, change_issue(ds.table(), num@, c@)) {
            (Ok(_), None) => true,
            (Err(e), Some(f)) => e@ == f,
            _ => false,
        },
{
    check_data(ds, num, c)?;
    if let Some(labels) = &c.entry.labels {
        let ghost goal = label_targets(ds.table(), num@, c@);
        let targets = match c.rebuild {
            Rebuild::Remap => match &c.entry.levels {
                Some(l) => clone_texts(l),
                None => Vec::new(),
            },
            Rebuild::ToCategorical => match &c.entry.levels {
                Some(l) => clone_texts(l),
                None => render_column(ds, num, c.j),
            },
            _ => clone_texts(&ds.dicts[c.j]),
        };
        assert(texts(targets@) =~= goal);
        let dict = CatDict::from_list(targets);
        if let Some(k) = find_stray(labels, &dict) {
            return Err(
                EditFailure::refused_column(
                    c.entry.name.as_str(),
                    "level_unknown",
                    wording::label_unknown(k.as_str()),
                ),
            );
        }
    }
    Ok(())
}

proof fn lemma_issues_prefix(t: TableV, num: NumeralsV, cs: Seq<ChangeV>, k: int)
    requires
        0 <= k <= cs.len(),
        change_issues(t, num, cs.take(k)) is Some,
    ensures
        change_issues(t, num, cs) == change_issues(t, num, cs.take(k)),
    decreases cs.len() - k,
{
    if k < cs.len() {
        assert(cs.take(k + 1).drop_last() =~= cs.take(k));
        lemma_issues_prefix(t, num, cs, k + 1);
    } else {
        assert(cs.take(k) =~= cs);
    }
}

/// Holds the changes against the data.
fn check_changes(ds: &Dataset, num: &Numerals, cs: &Vec<Change>) -> (r: Result<(), EditFailure>)
    requires
        ds.wf(),
        ds.table().wf(),
        forall|i: int|
            0 <= i < cs@.len() ==> (#[trigger] cs@[i]).j < ds.fields@.len() && (cs@[i].rebuild is Remap
                ==> cs@[i].entry.levels is Some),
    ensures
        match (r, change_issues(ds.table(), num@, change_views(cs@))) {
            (Ok(_), None) => true,
            (Err(e), Some(f)) => e@ == f,
            _ => false,
        },
{
    let mut i: usize = 0;
    let ghost all = change_views(cs@);
    let ghost t = ds.table();
    assert(all.take(0) =~= Seq::empty());
    while i < cs.len()
        invariant
            i <= cs.len(),
            ds.wf(),
            t == ds.table(),
            t.wf(),
            all == change_views(cs@),
            forall|i: int|
                0 <= i < cs@.len() ==> (#[trigger] cs@[i]).j < ds.fields@.len() && (
                cs@[i].rebuild is Remap ==> cs@[i].entry.levels is Some),
            change_issues(t, num@, all.take(i as int)) is None,
        decreases cs.len() - i,
    {
        assert(all.take(i + 1).drop_last() =~= all.take(i as int));
        assert(all.take(i + 1).last() == cs@[i as int]@);
        if let Err(e) = check_change(ds, num, &cs[i]) {
            proof {
                lemma_issues_prefix(t, num@, all, i + 1);
            }
            return Err(e);
        }
        i = i + 1;
    }
    assert(all.take(all.len() as int) =~= all);
    Ok(())
}

/// Lists the columns that are re-encoded.
fn list_reencoded(cs: &Vec<Change>, Ghost(n): Ghost<nat>) -> (r: Vec<u64>)
    requires
        forall|i: int| 0 <= i < cs@.len() ==> (#[trigger] cs@[i]).j < n,
    ensures
        r@ == reencoded(change_views(cs@)),
        forall|i: int| 0 <= i < r@.len() ==> #[trigger] r@[i] < n,
{
    let mut out: Vec<u64> = Vec::new();
    let mut i: usize = 0;
    let ghost all = change_views(cs@);
    assert(all.take(0) =~= Seq::empty());
    while i < cs.len()
        invariant
            i <= cs.len(),
            all == change_views(cs@),
            forall|i: int| 0 <= i < cs@.len() ==> (#[trigger] cs@[i]).j < n,
            out@ == reencoded(all.take(i as int)),
            forall|i: int| 0 <= i < out@.len() ==> #[trigger] out@[i] < n,
        decreases cs.len() - i,
    {
        assert(all.take(i + 1).drop_last() =~= all.take(i as int));
        assert(all.take(i + 1).last() == cs@[i as int]@);
        if let Rebuild::ToScale = cs[i].rebuild {
            out.push(cs[i].j as u64);
        } else if let Rebuild::ToCategorical = cs[i].rebuild {
            out.push(cs[i].j as u64);
        }
        i = i + 1;
    }
    assert(all.take(all.len() as int) =~= all);
    out
}

fn is_keep(r: Rebuild) -> (b: bool)
    ensures
        b == (r is Keep),
{
    match r {
        Rebuild::Keep => true,
        _ => false,
    }
}

/// A change of level.
fn relevels(ds: &Dataset, c: &Change) -> (r: bool)
    requires
        c.j < ds.fields@.len(),
    ensures
        r == (ds.table().fields[c.j as int].level() != Some(c.level)),
{
    match ds.fields[c.j].level() {
        Some(l) => l != c.level,
        None => true,
    }
}

/// Lists what the inverse records of the changes.
fn record_changes(ds: &Dataset, rows: u64, cs: &Vec<Change>) -> (r: Vec<Json>)
    requires
        ds.wf(),
        ds.table().supported(),
        rows == ds.table().rows,
        forall|i: int| 0 <= i < cs@.len() ==> (#[trigger] cs@[i]).j < ds.fields@.len(),
    ensures
        items(r@) == change_records(ds.table(), change_views(cs@)),
{
    let mut out: Vec<Json> = Vec::new();
    let mut i: usize = 0;
    let ghost all = change_views(cs@);
    let ghost t = ds.table();
    assert(all.take(0) =~= Seq::empty());
    assert(items(out@) =~= Seq::empty());
    while i < cs.len()
        invariant
            i <= cs.len(),
            ds.wf(),
            t == ds.table(),
            t.supported(),
            rows == t.rows,
            all == change_views(cs@),
            forall|i: int| 0 <= i < cs@.len() ==> (#[trigger] cs@[i]).j < ds.fields@.len(),
            items(out@) == change_records(t, all.take(i as int)),
        decreases cs.len() - i,
    {
        assert(all.take(i + 1).drop_last() =~= all.take(i as int));
        assert(all.take(i + 1).last() == cs@[i as int]@);
        let c = &cs[i];
        let f = &ds.fields[c.j];
        assert(t.fields[c.j as int] == f@);
        let keep = is_keep(c.rebuild);
        if c.rename_to.is_some() || relevels(ds, c) || !keep || c.entry.labels.is_some() {
            let dict = &ds.dicts[c.j];
            let ghost dv = t.dicts[c.j as int];
            assert(texts(dict@) == dv);
            assert(dv.len() == dict@.len());
            let old_levels = if f.is_scale() || (keep && c.entry.labels.is_none()) {
                Json::Null
            } else {
                json_texts(dict)
            };
            let capture = match c.rebuild {
                Rebuild::ToScale => true,
                Rebuild::ToCategorical => true,
                _ => false,
            };
            let current = match &c.rename_to {
                Some(n) => n,
                None => &f.name,
            };
            assert(f@.level() is Some);
            let e = make_record(current, &f.name, f, old_levels, capture, rows);
            assert(e@ == change_record(t, c@));
            let ghost before = out@;
            let ghost ev = e@;
            out.push(e);
            assert(items(out@) =~= items(before).push(ev));
        }
        i = i + 1;
    }
    assert(all.take(all.len() as int) =~= all);
    out
}

/// The numbers that the levels of a dictionary stand for.
pub fn parse_levels(levels: &Vec<String>, num: &Numerals) -> (r: Vec<Cell>)
    ensures
        r@ == level_values(texts(levels@), num@),
{
    let mut out: Vec<Cell> = Vec::new();
    let mut i: usize = 0;
    let ghost goal = level_values(texts(levels@), num@);
    while i < levels.len()
        invariant
            i <= levels.len(),
            goal == level_values(texts(levels@), num@),
            out@ =~= goal.take(i as int),
        decreases levels.len() - i,
    {
        out.push(num.parse_num(&levels[i]));
        i = i + 1;
    }
    assert(out@ =~= goal);
    out
}

/// The numbers that the cells of a categorical column stand for.
pub fn map_cells(cells: &Vec<Cell>, values: &Vec<Cell>) -> (r: Vec<Cell>)
    ensures
        r@ == cell_values(cells@, values@),
{
    let mut out: Vec<Cell> = Vec::new();
    let mut i: usize = 0;
    let ghost goal = cell_values(cells@, values@);
    while i < cells.len()
        invariant
            i <= cells.len(),
            goal == cell_values(cells@, values@),
            out@ =~= goal.take(i as int),
        decreases cells.len() - i,
    {
        assert(values@.len() == values.len());
        out.push(
            match cells[i] {
                Some(k) => if k < values.len() as u64 {
                    values[k as usize]
                } else {
                    None
                },
                None => None,
            },
        );
        i = i + 1;
    }
    assert(out@ =~= goal);
    out
}

/// Plans a changed column.
#[verifier::rlimit(50)]
fn build_changed(ds: &Dataset, num: &Numerals, sort_limit: usize, c: &Change) -> (r: OutCol)
    requires
        ds.wf(),
        ds.table().supported(),
        c.j < ds.fields@.len(),
        c.rebuild == rebuild_of(
            ds.table().fields[c.j as int].is_scale(),
            c.level,
            c@.e.levels,
        ),
        c.rename_to is Some ==> c.entry.display_name is Some,
    ensures
        r@ == changed_col(ds.table(), num@, sort_limit as nat, c@),
        r.wf(ds.fields@.len()),
{
    let f = &ds.fields[c.j];
    let ghost t = ds.table();
    let ghost goal = changed_col(t, num@, sort_limit as nat, c@);
    assert(t.fields[c.j as int] == f@);
    assert(t.dicts[c.j as int] == texts(ds.dicts@[c.j as int]@));
    assert(f@.level() is Some);
    let all_integer = match c.rebuild {
        Rebuild::ToScale => {
            let values = parse_levels(&ds.dicts[c.j], num);
            let cells = map_cells(&ds.column(c.j), &values);
            has_values(&cells) && are_integers(&cells)
        },
        _ => f.all_integer,
    };
    let name = match &c.rename_to {
        Some(n) => n,
        None => &f.name,
    };
    let display = match &c.rename_to {
        Some(_) => match &c.entry.display_name {
            Some(d) => d,
            None => &f.display_name,
        },
        None => &f.display_name,
    };
    let labels = match &c.entry.labels {
        Some(l) => copy_labels(l),
        None => if c.level.is_scale() {
            Vec::new()
        } else {
            copy_labels(&f.labels)
        },
    };
    assert(label_map(labels@) == goal.field.labels) by {
        assert(label_map(Seq::<(String, String)>::empty()) =~= Map::empty());
        if c.entry.labels is None && c.level is Scale {
            assert(labels@ =~= Seq::empty());
        }
    }
    let plain = Field::plain(name, display, c.level, all_integer);
    let field = Field {
        name: plain.name,
        kind: plain.kind,
        display_name: plain.display_name,
        all_integer: plain.all_integer,
        labels,
    };
    assert(field@ =~= goal.field);
    let (levels, under) = match c.rebuild {
        Rebuild::Keep => (clone_texts(&ds.dicts[c.j]), Under::Same),
        Rebuild::Remap => {
            let l = match &c.entry.levels {
                Some(l) => clone_texts(l),
                None => Vec::new(),
            };
            let dict = CatDict::from_list(l);
            let m = map_keys(&ds.dicts[c.j], &dict);
            (dict.values, Under::Remap(m))
        },
        Rebuild::ToScale => (Vec::new(), Under::Remap(parse_levels(&ds.dicts[c.j], num))),
        Rebuild::ToCategorical => {
            let l = match &c.entry.levels {
                Some(l) => clone_texts(l),
                None => {
                    let set = render_column(ds, num, c.j);
                    prebuild_dict(&set, num, sort_limit)
                },
            };
            let dict = CatDict::from_list(l);
            (dict.values, Under::Render(dict.index))
        },
    };
    assert(texts(levels@) =~= goal.levels);
    OutCol { field, old: Some(c.j), window: None, under, levels }
}

/// Plans the changed columns.
fn plan_changes(ds: &Dataset, num: &Numerals, sort_limit: usize, cs: &Vec<Change>) -> (r: Vec<
    OutCol,
>)
    requires
        ds.wf(),
        ds.table().supported(),
        forall|i: int|
            0 <= i < cs@.len() ==> (#[trigger] cs@[i]).j < ds.fields@.len() && cs@[i].rebuild
                == rebuild_of(
                ds.table().fields[cs@[i].j as int].is_scale(),
                cs@[i].level,
                cs@[i]@.e.levels,
            ) && (cs@[i].rename_to is Some ==> cs@[i].entry.display_name is Some),
    ensures
        plan_views(r@) == changed_cols(
            ds.table(),
            num@,
            sort_limit as nat,
            change_views(cs@),
        ),
        plan_wf(r@, ds.fields@.len()),
{
    let mut out: Vec<OutCol> = Vec::new();
    let mut i: usize = 0;
    let ghost goal = changed_cols(ds.table(), num@, sort_limit as nat, change_views(cs@));
    while i < cs.len()
        invariant
            i <= cs.len(),
            ds.wf(),
            ds.table().supported(),
            goal == changed_cols(ds.table(), num@, sort_limit as nat, change_views(cs@)),
            forall|i: int|
                0 <= i < cs@.len() ==> (#[trigger] cs@[i]).j < ds.fields@.len() && cs@[i].rebuild
                    == rebuild_of(
                    ds.table().fields[cs@[i].j as int].is_scale(),
                    cs@[i].level,
                    cs@[i]@.e.levels,
                ) && (cs@[i].rename_to is Some ==> cs@[i].entry.display_name is Some),
            out@.len() == i,
            plan_wf(out@, ds.fields@.len()),
            plan_views(out@) =~= goal.take(i as int),
        decreases cs.len() - i,
    {
        let c = build_changed(ds, num, sort_limit, &cs[i]);
        assert(c@ == goal[i as int]);
        out.push(c);
        i = i + 1;
    }
    assert(plan_views(out@) =~= goal);
    out
}

/// Whether a type, a list of levels or the order changes.
fn find_moves(ds: &Dataset, cs: &Vec<Change>) -> (r: bool)
    requires
        forall|i: int| 0 <= i < cs@.len() ==> (#[trigger] cs@[i]).j < ds.fields@.len(),
    ensures
        r == moves_data(ds.table(), change_views(cs@)),
{
    let mut i: usize = 0;
    let ghost all = change_views(cs@);
    let ghost t = ds.table();
    while i < cs.len()
        invariant
            i <= cs.len(),
            all == change_views(cs@),
            t == ds.table(),
            forall|i: int| 0 <= i < cs@.len() ==> (#[trigger] cs@[i]).j < ds.fields@.len(),
            forall|k: int|
                0 <= k < i ==> (#[trigger] all[k]).j == k && t.fields[all[k].j].level() == Some(
                    all[k].level,
                ) && all[k].rebuild is Keep,
        decreases cs.len() - i,
    {
        assert(all[i as int] == cs@[i as int]@);
        if cs[i].j != i || relevels(ds, &cs[i]) || !is_keep(cs[i].rebuild) {
            return true;
        }
        i = i + 1;
    }
    false
}

/// What a list of settled changes holds.
pub proof fn lemma_classified(t: TableV, es: Seq<ChangeEntryV>, js: Seq<int>)
    requires
        classified_all(t, es, js) is Ok,
    ensures
        ({
            let cs = classified_all(t, es, js)->Ok_0.0;
            &&& cs.len() == es.len()
            &&& forall|i: int|
                0 <= i < cs.len() ==> {
                    &&& (#[trigger] cs[i]).j == js[i]
                    &&& cs[i].e == es[i]
                    &&& asked_level(es[i], t.fields[js[i]]) == Ok::<Level, FailureV>(cs[i].level)
                    &&& cs[i].rebuild == rebuild_of(
                        t.fields[js[i]].is_scale(),
                        cs[i].level,
                        es[i].levels,
                    )
                    &&& cs[i].rename is Some <==> es[i].display is Some
                    &&& cs[i].level is Scale ==> es[i].levels is None && es[i].labels is None
                    &&& es[i].levels is Some ==> distinct(es[i].levels->0)
                }
        }),
    decreases es.len(),
{
    if es.len() > 0 {
        lemma_classified(t, es.drop_last(), js);
        if es.last().levels is Some {
            lemma_first_repeat(es.last().levels->0);
        }
    }
}

/// Serves a change of the schema.
#[verifier::rlimit(50)]
pub fn apply_schema_change(
    ds: &Dataset,
    num: &Numerals,
    ingest: &IngestParams,
    target: &Json,
    revision: u64,
) -> (r: Result<(EditOutput, Dataset), EditFailure>)
    requires
        ds.wf(),
        ds.table().supported(),
    ensures
        ({
            let t = ds.table();
            let c = match asked_changes(t, target@) {
                Ok(cs) => Some(schema_capture(t, cs)),
                Err(_) => None,
            };
            let w = capture_file(c);
            gives(
                r,
                schema_outcome(t, num@, ingest.sort_limit as nat, target@, revision, w),
            ) && (r is Ok ==> wrote(w, c))
        }),
{
    let ghost t = ds.table();
    let ghost limit = ingest.sort_limit as nat;
    let ghost none = capture_file(
        match asked_changes(t, target@) {
            Ok(cs) => Some(schema_capture(t, cs)),
            Err(_) => None,
        },
    );
    proof {
        lemma_table_wf(*ds);
    }
    let a = match target.as_array() {
        Some(a) => a,
        None => {
            let r = Err(
                EditFailure::refused(
                    "schema_mismatch",
                    "schema_change: target_schema must be an ARRAY of column entries".to_string(),
                ),
            );
            assert(gives(r, schema_outcome(t, num@, limit, target@, revision, none)));
            return r;
        },
    };
    let es = match parse_entries(a) {
        Ok(v) => v,
        Err(e) => {
            let r = Err(e);
            assert(gives(r, schema_outcome(t, num@, limit, target@, revision, none)));
            return r;
        },
    };
    assert(change_entry_views(es@).len() == es@.len());
    if es.len() != ds.fields.len() {
        let r = Err(
            EditFailure::refused(
                "schema_mismatch",
                wording::column_set(es.len() as u64, ds.fields.len() as u64),
            ),
        );
        assert(gives(r, schema_outcome(t, num@, limit, target@, revision, none)));
        return r;
    }
    let js = match match_entries(ds, &es) {
        Ok(v) => v,
        Err(e) => {
            let r = Err(e);
            assert(gives(r, schema_outcome(t, num@, limit, target@, revision, none)));
            return r;
        },
    };
    if let Some(j) = find_twice(&js) {
        let ghost at = choose|i: int|
            0 <= i < js@.len() && #[trigger] position_views(js@)[i] == j as int;
        assert(js@[at] == j);
        let r = Err(
            EditFailure::refused(
                "schema_mismatch",
                wording::named_twice(ds.fields[j].name.as_str()),
            ),
        );
        assert(gives(r, schema_outcome(t, num@, limit, target@, revision, none)));
        return r;
    }
    let cs = match classify_entries(ds, &es, &js) {
        Ok(v) => v,
        Err(e) => {
            let r = Err(e);
            assert(gives(r, schema_outcome(t, num@, limit, target@, revision, none)));
            return r;
        },
    };
    let ghost cv = change_views(cs@);
    proof {
        assert(asked_changes(t, target@) == Ok::<Seq<ChangeV>, FailureV>(cv));
        lemma_classified(t, change_entry_views(es@), position_views(js@));
        assert forall|i: int| 0 <= i < cs@.len() implies (#[trigger] cs@[i]).j < ds.fields@.len()
            && cs@[i].rebuild == rebuild_of(
            t.fields[cs@[i].j as int].is_scale(),
            cs@[i].level,
            cs@[i]@.e.levels,
        ) && (cs@[i].rename_to is Some ==> cs@[i].entry.display_name is Some) && (
        cs@[i].rebuild is Remap ==> cs@[i].entry.levels is Some) by {
            assert(cv[i] == cs@[i]@);
        }
    }
    if let Err(e) = check_changes(ds, num, &cs) {
        let r = Err(e);
        assert(gives(r, schema_outcome(t, num@, limit, target@, revision, none)));
        return r;
    }
    let rows = ds.rows();
    let coded = list_reencoded(&cs, Ghost(ds.fields@.len()));
    let mut bytes: Vec<u8> = Vec::new();
    let ghost mut w = none;
    if coded.len() > 0 {
        let cols = capture_cols(ds, &coded, 0, rows);
        let write = write_columns(&cols);
        proof {
            w = write_view(write);
            assert(column_views(cols@) =~= schema_capture(t, cv));
        }
        bytes = match seal(write) {
            Ok(b) => b,
            Err(e) => {
                let r = Err(e);
                assert(gives(r, schema_outcome(t, num@, limit, target@, revision, w)));
                return r;
            },
        };
    }
    assert(bytes@ =~= if reencoded(cv).len() == 0 {
        Seq::empty()
    } else {
        sealed(w)->Ok_0
    });
    assert(written(w, schema_capture(t, cv)));
    let records = record_changes(ds, rows, &cs);
    let ops = make_restore_schema(ds, rows, records);
    let plan = plan_changes(ds, num, ingest.sort_limit, &cs);
    let ghost pv = plan_views(plan@);
    let mut segs: Vec<Seg> = Vec::new();
    segs.push(Seg::Copy { out: 0, old: 0, len: rows });
    assert(segs@ =~= seq![Seg::Copy { out: 0, old: 0, len: rows }]);
    proof {
        lemma_one(arbitrary(), num@, t.cols, t.rows, segs@[0]);
    }
    let d = match stream_rewrite(ds, &plan, num, &segs, rows) {
        Ok(d) => d,
        Err(e) => {
            let r = Err(e);
            assert(gives(r, schema_outcome(t, num@, limit, target@, revision, w)));
            return r;
        },
    };
    assert forall|c: int| 0 <= c < plan@.len() implies (#[trigger] plan@[c])@.field.level() is Some by {
        assert(pv[c] == plan@[c]@);
    }
    assert(d.table().fields.len() == plan@.len());
    let schema = if same_schema(ds, &d) {
        None
    } else {
        Some(wire_schema(&plan, &d, num))
    };
    let out = EditOutput {
        rows,
        schema,
        invalidation: if find_moves(ds, &cs) {
            Invalidation { all: Some(true), rows_from: None, rows_to: None }
        } else {
            Invalidation { all: None, rows_from: None, rows_to: None }
        },
        inverse_meta: Some(make_inverse(revision, ops)),
        inverse_bytes: bytes,
    };
    let r = Ok((out, d));
    assert(gives(r, schema_outcome(t, num@, limit, target@, revision, w)));
    r
}

} // verus!
