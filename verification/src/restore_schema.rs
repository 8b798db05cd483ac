//! Undoing and redoing a change of the schema.
use vstd::prelude::*;
use crate::capture::{
    blob_columns, capture_file, column_views, decode_inverse, decoded, lemma_decoded, seal_redo,
    sealed_redo, write_columns, write_view, written, wrote, ColumnV, InverseData,
};
use crate::edit_cols::{field_names, lemma_one};
use crate::edit_rows::{
    inverse_rows, levels_tidy, program_u64, restored_col, restored_colv, u64_of,
};
use crate::edit_schema::{find_non_string, non_strings, object_labels, opt_labels, read_labels};
use crate::engine::{
    plan_views, plan_wf, rewritten, stream_rewrite, OutCol, OutColV, Under, UnderV,
};
use crate::json::{
    array_at, array_of, find_member, items, json_texts, member, text_array, Json, JsonV,
};
use crate::levels::CatDict;
use crate::messages::{all_stale, EditFailure, FailureV, Invalidation};
use crate::number::{Numerals, NumeralsV};
use crate::outcome::{
    capture_cols, capture_of, gives, inverse_of, make_inverse, pass_col, pass_colv, EditOutput,
    OutcomeV,
};
use crate::paste::{key_map, map_keys};
use crate::schema_change::{
    find_twice, first_twice, make_record, make_restore_schema, name_list, position_views,
    record_json, restore_schema_program,
};
use crate::segments::Seg;
use crate::table::{
    copy_labels, label_map, lemma_table_wf, level_of_str, plain_field, text_level, Dataset, Field,
    FieldV, Level, TableV,
};
use crate::text::{clone_texts, find_repeat, first_repeat, same, texts};
use crate::window::{
    list_member, opt_texts, read_list, read_strings, string_list, ListFault,
};
use crate::wire::{schema_json, wire_schema};
use crate::wording;

verus! {

/// What a program records of a column.
pub struct Record {
    /// The name that the column has now.
    pub current: String,
    pub old_name: String,
    pub old_display: String,
    pub old_type: Level,
    pub old_levels: Option<Vec<String>>,
    pub old_labels: Option<Vec<(String, String)>>,
    /// The blob carries the column.
    pub capture: bool,
}

/// The mathematical value of a [`Record`].
#[verifier::ext_equal]
pub struct RecordV {
    pub current: Seq<char>,
    pub old_name: Seq<char>,
    pub old_display: Seq<char>,
    pub old_type: Level,
    pub old_levels: Option<Seq<Seq<char>>>,
    pub old_labels: Option<Map<Seq<char>, Seq<char>>>,
    pub capture: bool,
}

impl View for Record {
    type V = RecordV;

    open spec fn view(&self) -> RecordV {
        RecordV {
            current: self.current@,
            old_name: self.old_name@,
            old_display: self.old_display@,
            old_type: self.old_type,
            old_levels: opt_texts(self.old_levels),
            old_labels: opt_labels(self.old_labels),
            capture: self.capture,
        }
    }
}

/// The values of a list of records.
pub open spec fn record_views(v: Seq<Record>) -> Seq<RecordV> {
    Seq::new(v.len(), |i: int| v[i]@)
}

/// A string that every column entry of a program needs.
pub open spec fn record_string(o: Map<Seq<char>, JsonV>, key: Seq<char>) -> Result<
    Seq<char>,
    FailureV,
> {
    match member(o, key) {
        Some(JsonV::Str(t)) => Ok(t),
        _ => Err(FailureV::Fatal(wording::program_string_msg(key))),
    }
}

/// The labels of a column entry.
pub open spec fn record_labels(o: Map<Seq<char>, JsonV>) -> Result<
    Option<Map<Seq<char>, Seq<char>>>,
    FailureV,
> {
    match member(o, "old_labels"@) {
        None => Ok(None),
        Some(JsonV::Null) => Ok(None),
        Some(JsonV::Object(m)) => if non_strings(m) =~= Set::empty() {
            Ok(Some(object_labels(m)))
        } else {
            Err(
                FailureV::Fatal(
                    "restore_schema program: 'old_labels' must be an object value→display-label"@,
                ),
            )
        },
        Some(_) => Err(
            FailureV::Fatal(
                "restore_schema program: 'old_labels' must be an object value→display-label"@,
            ),
        ),
    }
}

/// What a column entry of a program says.
pub open spec fn record_of(v: JsonV) -> Result<RecordV, FailureV> {
    match v {
        JsonV::Object(o) => match (
            record_string(o, "current"@),
            record_string(o, "old_name"@),
            record_string(o, "old_display"@),
            record_string(o, "old_type"@),
        ) {
            (Err(f), _, _, _) => Err(f),
            (_, Err(f), _, _) => Err(f),
            (_, _, Err(f), _) => Err(f),
            (_, _, _, Err(f)) => Err(f),
            (Ok(current), Ok(old_name), Ok(old_display), Ok(ty)) => match (
                text_level(ty),
                list_member(o, "old_levels"@),
                record_labels(o),
            ) {
                (None, _, _) => Err(FailureV::Fatal(wording::program_type_msg(ty))),
                (_, Err(ListFault::NotAnArray), _) => Err(
                    FailureV::Fatal(
                        "restore_schema program: 'old_levels' must be an array of strings"@,
                    ),
                ),
                (_, Err(ListFault::NotStrings), _) => Err(
                    FailureV::Fatal(
                        "restore_schema program: 'old_levels' entries must be strings"@,
                    ),
                ),
                (_, _, Err(f)) => Err(f),
                (Some(old_type), Ok(old_levels), Ok(old_labels)) => Ok(
                    RecordV {
                        current,
                        old_name,
                        old_display,
                        old_type,
                        old_levels,
                        old_labels,
                        capture: member(o, "capture"@) == Some(JsonV::Str("full"@)),
                    },
                ),
            },
        },
        _ => Err(
            FailureV::Fatal("restore_schema program: each column entry must be an object"@),
        ),
    }
}

/// What the column entries of a program say; the first wrong one decides.
pub open spec fn records_of(a: Seq<JsonV>) -> Result<Seq<RecordV>, FailureV>
    decreases a.len(),
{
    if a.len() == 0 {
        Ok(Seq::empty())
    } else {
        match records_of(a.drop_last()) {
            Err(f) => Err(f),
            Ok(p) => match record_of(a.last()) {
                Err(f) => Err(f),
                Ok(r) => Ok(p.push(r)),
            },
        }
    }
}

/// The first place of a text in a list.
pub open spec fn first_text(s: Seq<Seq<char>>, t: Seq<char>) -> Option<nat>
    decreases s.len(),
{
    if s.len() == 0 {
        None
    } else {
        match first_text(s.drop_last(), t) {
            Some(i) => Some(i),
            None => if s.last() == t {
                Some((s.len() - 1) as nat)
            } else {
                None
            },
        }
    }
}

/// The columns that the records name.
pub open spec fn record_columns(names: Seq<Seq<char>>, rs: Seq<RecordV>) -> Result<
    Seq<int>,
    FailureV,
>
    decreases rs.len(),
{
    if rs.len() == 0 {
        Ok(Seq::empty())
    } else {
        match record_columns(names, rs.drop_last()) {
            Err(f) => Err(f),
            Ok(p) => match first_text(names, rs.last().current) {
                Some(j) => Ok(p.push(j as int)),
                None => Err(
                    FailureV::Fatal(wording::restore_no_column_msg(rs.last().current)),
                ),
            },
        }
    }
}

/// The old names that the records give.
pub open spec fn old_names(rs: Seq<RecordV>) -> Seq<Seq<char>> {
    Seq::new(rs.len(), |i: int| rs[i].old_name)
}

/// The names of captured columns.
pub open spec fn column_names(inv: Seq<ColumnV>) -> Seq<Seq<char>> {
    Seq::new(inv.len(), |i: int| inv[i].field.name)
}

/// Some record has its column in the blob.
pub open spec fn some_captured(rs: Seq<RecordV>) -> bool
    decreases rs.len(),
{
    rs.len() > 0 && (some_captured(rs.drop_last()) || rs.last().capture)
}

/// The old name of the first record whose column is missing from the blob.
pub open spec fn first_uncaptured(rs: Seq<RecordV>, names: Seq<Seq<char>>) -> Option<Seq<char>>
    decreases rs.len(),
{
    if rs.len() == 0 {
        None
    } else {
        match first_uncaptured(rs.drop_last(), names) {
            Some(n) => Some(n),
            None => if rs.last().capture && !names.contains(rs.last().old_name) {
                Some(rs.last().old_name)
            } else {
                None
            },
        }
    }
}

/// The name of the first column that only a capture could restore and that has none.
pub open spec fn first_retyped(t: TableV, rs: Seq<RecordV>, at: Seq<int>) -> Option<Seq<char>>
    decreases rs.len(),
{
    if rs.len() == 0 {
        None
    } else {
        match first_retyped(t, rs.drop_last(), at) {
            Some(n) => Some(n),
            None => if !rs.last().capture && t.fields[at[rs.len() - 1]].is_scale() != (
            rs.last().old_type is Scale) {
                Some(rs.last().current)
            } else {
                None
            },
        }
    }
}

/// A program to restore a schema, as far as it was settled against the dataset: the order,
/// the records, the column that each record names, and the columns of the blob.
#[verifier::ext_equal]
pub struct SchemaRestoreV {
    pub order: Seq<Seq<char>>,
    pub records: Seq<RecordV>,
    pub at: Seq<int>,
    pub inv: Seq<ColumnV>,
}

/// The order that a program gives.
pub open spec fn program_order(ops: JsonV, n: nat) -> Result<Seq<Seq<char>>, FailureV> {
    match array_at(ops, "old_order"@) {
        None => Err(FailureV::Fatal("restore_schema: no 'old_order'"@)),
        Some(a) => match string_list(a) {
            None => Err(
                FailureV::Fatal("restore_schema: 'old_order' entries must be strings"@),
            ),
            Some(names) => if names.len() != n || first_repeat(names) is Some {
                Err(
                    FailureV::Fatal(
                        "restore_schema: 'old_order' is not a permutation of the pre-edit names"@,
                    ),
                )
            } else {
                Ok(names)
            },
        },
    }
}

/// The columns of the blob, which is there if and only if a record has its column in it.
pub open spec fn program_blob(
    rs: Seq<RecordV>,
    rows: nat,
    size: nat,
    blob: Result<Option<Seq<ColumnV>>, Seq<char>>,
) -> Result<Seq<ColumnV>, FailureV> {
    if some_captured(rs) {
        match decoded(blob) {
            Err(f) => Err(f),
            Ok(inv) => if inverse_rows(inv) != rows {
                Err(
                    FailureV::Fatal(
                        "restore_schema: the blob does not match the program (full-width columns were expected)"@,
                    ),
                )
            } else {
                match first_uncaptured(rs, column_names(inv)) {
                    Some(n) => Err(FailureV::Fatal(wording::restore_blob_column_msg(n))),
                    None => Ok(inv),
                }
            },
        }
    } else if size > 0 {
        Err(
            FailureV::Fatal(
                "restore_schema: the program declares no capture but carries bytes"@,
            ),
        )
    } else {
        Ok(Seq::empty())
    }
}

/// Settles the records of a program against the dataset.
pub open spec fn settled_records(
    t: TableV,
    rs: Seq<RecordV>,
    size: nat,
    blob: Result<Option<Seq<ColumnV>>, Seq<char>>,
) -> Result<(Seq<int>, Seq<ColumnV>), FailureV> {
    match record_columns(field_names(t), rs) {
        Err(f) => Err(f),
        Ok(at) => if first_twice(at) is Some {
            Err(FailureV::Fatal("restore_schema: two entries name the same column"@))
        } else if first_repeat(old_names(rs)) is Some {
            Err(FailureV::Fatal("restore_schema: two entries restore the same old name"@))
        } else {
            match program_blob(rs, t.rows, size, blob) {
                Err(f) => Err(f),
                Ok(inv) => match first_retyped(t, rs, at) {
                    Some(n) => Err(FailureV::Fatal(wording::restore_physical_msg(n))),
                    None => Ok((at, inv)),
                },
            }
        },
    }
}

/// Settles a program against the dataset.
pub open spec fn schema_restore(
    t: TableV,
    ops: JsonV,
    size: nat,
    blob: Result<Option<Seq<ColumnV>>, Seq<char>>,
) -> Result<SchemaRestoreV, FailureV> {
    match (program_u64(ops, "old_cols"@), program_u64(ops, "old_rows"@)) {
        (Err(f), _) => Err(f),
        (_, Err(f)) => Err(f),
        (Ok(old_cols), Ok(old_rows)) => if old_cols != t.fields.len() || old_rows != t.rows {
            Err(
                FailureV::Fatal(
                    wording::restore_schema_extent_msg(
                        old_cols,
                        old_rows,
                        t.fields.len() as u64,
                        t.rows as u64,
                    ),
                ),
            )
        } else {
            match program_order(ops, t.fields.len()) {
                Err(f) => Err(f),
                Ok(order) => match array_at(ops, "columns"@) {
                    None => Err(FailureV::Fatal("restore_schema: no 'columns' list"@)),
                    Some(a) => match records_of(a) {
                        Err(f) => Err(f),
                        Ok(records) => match settled_records(t, records, size, blob) {
                            Err(f) => Err(f),
                            Ok(p) => Ok(SchemaRestoreV { order, records, at: p.0, inv: p.1 }),
                        },
                    },
                },
            }
        },
    }
}

/// The columns that the redo captures.
pub open spec fn captured_columns(rs: Seq<RecordV>, at: Seq<int>) -> Seq<u64>
    decreases rs.len(),
{
    if rs.len() == 0 {
        Seq::empty()
    } else if rs.last().capture {
        captured_columns(rs.drop_last(), at).push(at[rs.len() - 1] as u64)
    } else {
        captured_columns(rs.drop_last(), at)
    }
}

/// What the redo captures.
pub open spec fn schema_redo_capture(t: TableV, s: SchemaRestoreV) -> Seq<ColumnV> {
    capture_of(t, captured_columns(s.records, s.at), 0, t.rows as int)
}

/// The levels that the redo records.
pub open spec fn redo_levels(t: TableV, j: int) -> JsonV {
    if t.fields[j].is_scale() {
        JsonV::Null
    } else {
        text_array(t.dicts[j])
    }
}

/// What the redo records of a column: the names change places.
pub open spec fn redo_record(t: TableV, r: RecordV, j: int) -> JsonV {
    record_json(
        r.old_name,
        r.current,
        t.fields[j],
        redo_levels(t, j),
        r.capture,
        t.rows as u64,
    )
}

/// What the redo records.
pub open spec fn redo_records(t: TableV, s: SchemaRestoreV) -> Seq<JsonV> {
    Seq::new(s.records.len(), |i: int| redo_record(t, s.records[i], s.at[i]))
}

/// The field of a column that is restored without a capture. The data did not change, so
/// its hint stays.
pub open spec fn recorded_field(f: FieldV, r: RecordV) -> FieldV {
    FieldV {
        labels: match r.old_labels {
            Some(l) => l,
            None => Map::empty(),
        },
        ..plain_field(r.old_name, r.old_display, r.old_type, f.all_integer)
    }
}

/// How a column is restored without a capture: a dictionary turns into the recorded one.
pub open spec fn recorded_col(t: TableV, r: RecordV, j: int) -> OutColV {
    let swaps = !(r.old_type is Scale) && r.old_levels is Some;
    OutColV {
        field: recorded_field(t.fields[j], r),
        old: Some(j),
        window: None,
        under: if swaps {
            UnderV::Remap(key_map(t.dicts[j], r.old_levels->0))
        } else {
            UnderV::Same
        },
        levels: if swaps {
            r.old_levels->0
        } else {
            t.dicts[j]
        },
    }
}

/// How the column of a name is restored, and which column it is now.
pub open spec fn restored_schema_col(t: TableV, s: SchemaRestoreV, name: Seq<char>) -> Result<
    (OutColV, int),
    FailureV,
> {
    match first_text(old_names(s.records), name) {
        Some(i) => {
            let r = s.records[i as int];
            let j = s.at[i as int];
            if r.capture {
                let c = s.inv[first_text(column_names(s.inv), name)->0 as int];
                Ok((restored_colv(c.field, None, c), j))
            } else {
                Ok((recorded_col(t, r, j), j))
            }
        },
        None => match first_text(field_names(t), name) {
            Some(j) => Ok((pass_colv(t, j as int), j as int)),
            None => Err(FailureV::Fatal(wording::restore_order_msg(name))),
        },
    }
}

/// How the columns are restored, in the old order, and which columns they are now.
pub open spec fn restored_schema_cols(
    t: TableV,
    s: SchemaRestoreV,
    names: Seq<Seq<char>>,
) -> Result<(Seq<OutColV>, Seq<int>), FailureV>
    decreases names.len(),
{
    if names.len() == 0 {
        Ok((Seq::empty(), Seq::empty()))
    } else {
        match restored_schema_cols(t, s, names.drop_last()) {
            Err(f) => Err(f),
            Ok(p) => match restored_schema_col(t, s, names.last()) {
                Err(f) => Err(f),
                Ok(c) => Ok((p.0.push(c.0), p.1.push(c.1))),
            },
        }
    }
}

/// Every column is accounted for.
pub open spec fn all_used(js: Seq<int>, n: nat) -> bool {
    forall|j: int| 0 <= j < n ==> js.contains(j)
}

/// The outcome of restoring a schema, given what writing the redo gave.
pub open spec fn restore_schema_outcome(
    t: TableV,
    num: NumeralsV,
    ops: JsonV,
    size: nat,
    blob: Result<Option<Seq<ColumnV>>, Seq<char>>,
    revision: u64,
    w: Result<Seq<u8>, Seq<char>>,
) -> Result<OutcomeV, FailureV> {
    match schema_restore(t, ops, size, blob) {
        Err(f) => Err(f),
        Ok(s) => match (
            if some_captured(s.records) {
                sealed_redo(w)
            } else {
                Ok(Seq::empty())
            },
            restored_schema_cols(t, s, s.order),
        ) {
            (Err(f), _) => Err(f),
            (_, Err(f)) => Err(f),
            (Ok(bytes), Ok((plan, js))) => if !all_used(js, t.fields.len()) {
                Err(
                    FailureV::Fatal(
                        "restore_schema: the program does not account for every column"@,
                    ),
                )
            } else {
                match rewritten(
                    t,
                    plan,
                    num,
                    seq![Seg::Block { out: 0, len: t.rows as u64 }],
                    t.rows,
                ) {
                    Err(f) => Err(f),
                    Ok(after) => Ok(
                        OutcomeV {
                            rows: t.rows as u64,
                            schema: Some(schema_json(plan, after.cols, num)),
                            invalidation: all_stale(),
                            inverse: Some(
                                inverse_of(
                                    revision,
                                    restore_schema_program(t, redo_records(t, s)),
                                ),
                            ),
                            bytes,
                            table: after,
                        },
                    ),
                }
            },
        },
    }
}

/// Reads a string that every column entry needs.
fn read_record_string(o: &Vec<(String, Json)>, key: &str) -> (r: Result<String, EditFailure>)
    ensures
        match (r, record_string(crate::json::members(o@), key@)) {
            (Ok(a), Ok(b)) => a@ == b,
            (Err(e), Err(f)) => e@ == f,
            _ => false,
        },
{
    match find_member(o, key) {
        Some(Json::Str(s)) => Ok(s.clone()),
        _ => Err(EditFailure::fatal(wording::program_string(key))),
    }
}

/// Reads the labels of a column entry.
fn read_record_labels(o: &Vec<(String, Json)>) -> (r: Result<
    Option<Vec<(String, String)>>,
    EditFailure,
>)
    ensures
        match (r, record_labels(crate::json::members(o@))) {
            (Ok(a), Ok(b)) => opt_labels(a) == b,
            (Err(e), Err(f)) => e@ == f,
            _ => false,
        },
{
    match find_member(o, "old_labels") {
        None => Ok(None),
        Some(Json::Null) => Ok(None),
        Some(j) => {
            if let Some(m) = j.as_object() {
                if find_non_string(m).is_none() {
                    return Ok(Some(read_labels(m)));
                }
            }
            Err(
                EditFailure::fault(
                    "restore_schema program: 'old_labels' must be an object value→display-label",
                ),
            )
        },
    }
}

/// Reads a column entry of a program.
pub fn parse_schema_prog_col(v: &Json) -> (r: Result<Record, EditFailure>)
    ensures
        match (r, record_of(v@)) {
            (Ok(a), Ok(b)) => a@ == b,
            (Err(e), Err(f)) => e@ == f,
            _ => false,
        },
{
    let o = match v.as_object() {
        Some(o) => o,
        None => {
            return Err(
                EditFailure::fault(
                    "restore_schema program: each column entry must be an object",
                ),
            );
        },
    };
    let current = read_record_string(o, "current")?;
    let old_name = read_record_string(o, "old_name")?;
    let old_display = read_record_string(o, "old_display")?;
    let ty = read_record_string(o, "old_type")?;
    let old_type = match level_of_str(&ty) {
        Some(l) => l,
        None => {
            return Err(EditFailure::fatal(wording::program_type(ty.as_str())));
        },
    };
    let old_levels = match read_list(o, "old_levels") {
        Ok(l) => l,
        Err(ListFault::NotAnArray) => {
            return Err(
                EditFailure::fault(
                    "restore_schema program: 'old_levels' must be an array of strings",
                ),
            );
        },
        Err(ListFault::NotStrings) => {
            return Err(
                EditFailure::fault(
                    "restore_schema program: 'old_levels' entries must be strings",
                ),
            );
        },
    };
    let old_labels = read_record_labels(o)?;
    let capture = match find_member(o, "capture") {
        Some(Json::Str(s)) => same(s, "full"),
        _ => false,
    };
    Ok(Record { current, old_name, old_display, old_type, old_levels, old_labels, capture })
}

proof fn lemma_records_prefix(a: Seq<JsonV>, k: int)
    requires
        0 <= k <= a.len(),
        records_of(a.take(k)) is Err,
    ensures
        records_of(a) == records_of(a.take(k)),
    decreases a.len() - k,
{
    if k < a.len() {
        assert(a.take(k + 1).drop_last() =~= a.take(k));
        lemma_records_prefix(a, k + 1);
    } else {
        assert(a.take(k) =~= a);
    }
}

/// Reads the column entries of a program.
fn parse_records(a: &Vec<Json>) -> (r: Result<Vec<Record>, EditFailure>)
    ensures
        match (r, records_of(items(a@))) {
            (Ok(v), Ok(s)) => record_views(v@) == s,
            (Err(e), Err(f)) => e@ == f,
            _ => false,
        },
{
    let mut out: Vec<Record> = Vec::new();
    let mut i: usize = 0;
    let ghost all = items(a@);
    assert(all.take(0) =~= Seq::empty());
    assert(record_views(out@) =~= Seq::empty());
    while i < a.len()
        invariant
            i <= a.len(),
            all == items(a@),
            records_of(all.take(i as int)) == Ok::<Seq<RecordV>, FailureV>(record_views(out@)),
        decreases a.len() - i,
    {
        assert(all.take(i + 1).drop_last() =~= all.take(i as int));
        assert(all.take(i + 1).last() == a@[i as int]@);
        match parse_schema_prog_col(&a[i]) {
            Ok(e) => {
                let ghost before = out@;
                let ghost ev = e@;
                out.push(e);
                assert(record_views(out@) =~= record_views(before).push(ev));
            },
            Err(e) => {
                proof {
                    lemma_records_prefix(all, i + 1);
                }
                return Err(e);
            },
        }
        i = i + 1;
    }
    assert(all.take(all.len() as int) =~= all);
    Ok(out)
}

/// The first place of a text holds it, and a text that stands in a list has a first place.
pub proof fn lemma_first_text(s: Seq<Seq<char>>, t: Seq<char>)
    ensures
        match first_text(s, t) {
            Some(i) => i < s.len() && s[i as int] == t,
            None => !s.contains(t),
        },
        s.contains(t) ==> first_text(s, t) is Some,
    decreases s.len(),
{
    if s.len() > 0 {
        lemma_first_text(s.drop_last(), t);
        assert forall|i: int| 0 <= i < s.len() && s[i] == t implies s.drop_last().contains(t)
            || s.last() == t by {
            if i < s.len() - 1 {
                assert(s.drop_last()[i] == t);
            }
        }
    }
}

proof fn lemma_first_text_prefix(s: Seq<Seq<char>>, t: Seq<char>, k: int)
    requires
        0 <= k <= s.len(),
        first_text(s.take(k), t) is Some,
    ensures
        first_text(s, t) == first_text(s.take(k), t),
    decreases s.len() - k,
{
    if k < s.len() {
        assert(s.take(k + 1).drop_last() =~= s.take(k));
        lemma_first_text_prefix(s, t, k + 1);
    } else {
        assert(s.take(k) =~= s);
    }
}

/// Finds the first place of a text.
fn find_text(v: &Vec<String>, t: &String) -> (r: Option<usize>)
    ensures
        match (r, first_text(texts(v@), t@)) {
            (Some(a), Some(b)) => a == b && a < v@.len() && v@[a as int]@ == t@,
            (None, None) => true,
            _ => false,
        },
{
    let mut i: usize = 0;
    let ghost all = texts(v@);
    assert(all.take(0) =~= Seq::empty());
    while i < v.len()
        invariant
            i <= v.len(),
            all == texts(v@),
            first_text(all.take(i as int), t@) is None,
        decreases v.len() - i,
    {
        assert(all.take(i + 1).drop_last() =~= all.take(i as int));
        assert(all.take(i + 1).last() == v@[i as int]@);
        if same(t, v[i].as_str()) {
            proof {
                lemma_first_text_prefix(all, t@, i + 1);
            }
            return Some(i);
        }
        i = i + 1;
    }
    assert(all.take(all.len() as int) =~= all);
    None
}

proof fn lemma_record_columns_prefix(names: Seq<Seq<char>>, rs: Seq<RecordV>, k: int)
    requires
        0 <= k <= rs.len(),
        record_columns(names, rs.take(k)) is Err,
    ensures
        record_columns(names, rs) == record_columns(names, rs.take(k)),
    decreases rs.len() - k,
{
    if k < rs.len() {
        assert(rs.take(k + 1).drop_last() =~= rs.take(k));
        lemma_record_columns_prefix(names, rs, k + 1);
    } else {
        assert(rs.take(k) =~= rs);
    }
}

/// Finds the columns that the records name.
fn locate_records(names: &Vec<String>, rs: &Vec<Record>) -> (r: Result<Vec<usize>, EditFailure>)
    ensures
        match (r, record_columns(texts(names@), record_views(rs@))) {
            (Ok(v), Ok(s)) => position_views(v@) == s && v@.len() == rs@.len() && (forall|i: int|
                0 <= i < v@.len() ==> #[trigger] v@[i] < names@.len()),
            (Err(e), Err(f)) => e@ == f,
            _ => false,
        },
{
    let mut out: Vec<usize> = Vec::new();
    let mut i: usize = 0;
    let ghost all = record_views(rs@);
    let ghost nt = texts(names@);
    assert(all.take(0) =~= Seq::empty());
    assert(position_views(out@) =~= Seq::empty());
    while i < rs.len()
        invariant
            i <= rs.len(),
            all == record_views(rs@),
            nt == texts(names@),
            out@.len() == i,
            forall|i: int| 0 <= i < out@.len() ==> #[trigger] out@[i] < names@.len(),
            record_columns(nt, all.take(i as int)) == Ok::<Seq<int>, FailureV>(
                position_views(out@),
            ),
        decreases rs.len() - i,
    {
        assert(all.take(i + 1).drop_last() =~= all.take(i as int));
        assert(all.take(i + 1).last() == rs@[i as int]@);
        match find_text(names, &rs[i].current) {
            Some(j) => {
                let ghost before = out@;
                out.push(j);
                assert(position_views(out@) =~= position_views(before).push(j as int));
            },
            None => {
                proof {
                    lemma_record_columns_prefix(nt, all, i + 1);
                }
                return Err(
                    EditFailure::fatal(wording::restore_no_column(rs[i].current.as_str())),
                );
            },
        }
        i = i + 1;
    }
    assert(all.take(all.len() as int) =~= all);
    Ok(out)
}

/// Lists the old names that the records give.
fn list_old_names(rs: &Vec<Record>) -> (r: Vec<String>)
    ensures
        texts(r@) == old_names(record_views(rs@)),
        r@.len() == rs@.len(),
{
    let mut out: Vec<String> = Vec::new();
    let mut i: usize = 0;
    let ghost goal = old_names(record_views(rs@));
    while i < rs.len()
        invariant
            i <= rs.len(),
            goal == old_names(record_views(rs@)),
            out@.len() == i,
            texts(out@) =~= goal.take(i as int),
        decreases rs.len() - i,
    {
        out.push(rs[i].old_name.clone());
        i = i + 1;
    }
    assert(texts(out@) =~= goal);
    out
}

/// Lists the names of captured columns.
fn list_column_names(inv: &InverseData) -> (r: Vec<String>)
    ensures
        texts(r@) == column_names(column_views(inv.columns@)),
        r@.len() == inv.columns@.len(),
{
    let mut out: Vec<String> = Vec::new();
    let mut i: usize = 0;
    let ghost goal = column_names(column_views(inv.columns@));
    while i < inv.columns.len()
        invariant
            i <= inv.columns.len(),
            goal == column_names(column_views(inv.columns@)),
            out@.len() == i,
            texts(out@) =~= goal.take(i as int),
        decreases inv.columns.len() - i,
    {
        out.push(inv.columns[i].field.name.clone());
        i = i + 1;
    }
    assert(texts(out@) =~= goal);
    out
}

/// Whether some record has its column in the blob.
fn has_captured(rs: &Vec<Record>) -> (r: bool)
    ensures
        r == some_captured(record_views(rs@)),
{
    let mut found = false;
    let mut i: usize = 0;
    let ghost all = record_views(rs@);
    assert(all.take(0) =~= Seq::empty());
    while i < rs.len()
        invariant
            i <= rs.len(),
            all == record_views(rs@),
            found == some_captured(all.take(i as int)),
        decreases rs.len() - i,
    {
        assert(all.take(i + 1).drop_last() =~= all.take(i as int));
        assert(all.take(i + 1).last() == rs@[i as int]@);
        found = found || rs[i].capture;
        i = i + 1;
    }
    assert(all.take(all.len() as int) =~= all);
    found
}

proof fn lemma_uncaptured_prefix(rs: Seq<RecordV>, names: Seq<Seq<char>>, k: int)
    requires
        0 <= k <= rs.len(),
        first_uncaptured(rs.take(k), names) is Some,
    ensures
        first_uncaptured(rs, names) == first_uncaptured(rs.take(k), names),
    decreases rs.len() - k,
{
    if k < rs.len() {
        assert(rs.take(k + 1).drop_last() =~= rs.take(k));
        lemma_uncaptured_prefix(rs, names, k + 1);
    } else {
        assert(rs.take(k) =~= rs);
    }
}

pub proof fn lemma_captured(rs: Seq<RecordV>, names: Seq<Seq<char>>, i: int)
    requires
        first_uncaptured(rs, names) is None,
        0 <= i < rs.len(),
        rs[i].capture,
    ensures
        names.contains(rs[i].old_name),
    decreases rs.len(),
{
    if i < rs.len() - 1 {
        assert(rs.drop_last()[i] == rs[i]);
        lemma_captured(rs.drop_last(), names, i);
    }
}

pub proof fn lemma_some_captured(rs: Seq<RecordV>, i: int)
    requires
        0 <= i < rs.len(),
        rs[i].capture,
    ensures
        some_captured(rs),
    decreases rs.len(),
{
    if i < rs.len() - 1 {
        assert(rs.drop_last()[i] == rs[i]);
        lemma_some_captured(rs.drop_last(), i);
    }
}

/// Finds the first record whose column is missing from the blob.
fn find_uncaptured<'a>(rs: &'a Vec<Record>, names: &Vec<String>) -> (r: Option<&'a String>)
    ensures
        match (r, first_uncaptured(record_views(rs@), texts(names@))) {
            (Some(a), Some(b)) => a@ == b,
            (None, None) => true,
            _ => false,
        },
{
    let mut i: usize = 0;
    let ghost all = record_views(rs@);
    let ghost nt = texts(names@);
    assert(all.take(0) =~= Seq::empty());
    while i < rs.len()
        invariant
            i <= rs.len(),
            all == record_views(rs@),
            nt == texts(names@),
            first_uncaptured(all.take(i as int), nt) is None,
        decreases rs.len() - i,
    {
        assert(all.take(i + 1).drop_last() =~= all.take(i as int));
        assert(all.take(i + 1).last() == rs@[i as int]@);
        proof {
            lemma_first_text(nt, rs@[i as int].old_name@);
        }
        if rs[i].capture && find_text(names, &rs[i].old_name).is_none() {
            proof {
                lemma_uncaptured_prefix(all, nt, i + 1);
            }
            return Some(&rs[i].old_name);
        }
        i = i + 1;
    }
    assert(all.take(all.len() as int) =~= all);
    None
}

proof fn lemma_retyped_prefix(t: TableV, rs: Seq<RecordV>, at: Seq<int>, k: int)
    requires
        0 <= k <= rs.len(),
        first_retyped(t, rs.take(k), at) is Some,
    ensures
        first_retyped(t, rs, at) == first_retyped(t, rs.take(k), at),
    decreases rs.len() - k,
{
    if k < rs.len() {
        assert(rs.take(k + 1).drop_last() =~= rs.take(k));
        lemma_retyped_prefix(t, rs, at, k + 1);
    } else {
        assert(rs.take(k) =~= rs);
    }
}

proof fn lemma_not_retyped(t: TableV, rs: Seq<RecordV>, at: Seq<int>, i: int)
    requires
        first_retyped(t, rs, at) is None,
        0 <= i < rs.len(),
        !rs[i].capture,
    ensures
        t.fields[at[i]].is_scale() == (rs[i].old_type is Scale),
    decreases rs.len(),
{
    if i < rs.len() - 1 {
        assert(rs.drop_last()[i] == rs[i]);
        lemma_not_retyped(t, rs.drop_last(), at, i);
    }
}

/// Finds the first column that only a capture could restore and that has none.
fn find_retyped<'a>(ds: &Dataset, rs: &'a Vec<Record>, at: &Vec<usize>) -> (r: Option<&'a String>)
    requires
        at@.len() == rs@.len(),
        forall|i: int| 0 <= i < at@.len() ==> #[trigger] at@[i] < ds.fields@.len(),
    ensures
        match (r, first_retyped(ds.table(), record_views(rs@), position_views(at@))) {
            (Some(a), Some(b)) => a@ == b,
            (None, None) => true,
            _ => false,
        },
{
    let mut i: usize = 0;
    let ghost all = record_views(rs@);
    let ghost t = ds.table();
    let ghost ps = position_views(at@);
    assert(all.take(0) =~= Seq::empty());
    while i < rs.len()
        invariant
            i <= rs.len(),
            all == record_views(rs@),
            t == ds.table(),
            ps == position_views(at@),
            at@.len() == rs@.len(),
            forall|i: int| 0 <= i < at@.len() ==> #[trigger] at@[i] < ds.fields@.len(),
            first_retyped(t, all.take(i as int), ps) is None,
        decreases rs.len() - i,
    {
        assert(all.take(i + 1).drop_last() =~= all.take(i as int));
        assert(all.take(i + 1).last() == rs@[i as int]@);
        assert(ps[all.take(i + 1).len() - 1] == at@[i as int]);
        assert(t.fields[at@[i as int] as int] == ds.fields@[at@[i as int] as int]@);
        if !rs[i].capture && ds.fields[at[i]].is_scale() != rs[i].old_type.is_scale() {
            proof {
                lemma_retyped_prefix(t, all, ps, i + 1);
            }
            return Some(&rs[i].current);
        }
        i = i + 1;
    }
    assert(all.take(all.len() as int) =~= all);
    None
}

/// A program to restore a schema, settled against the dataset.
pub struct SchemaRestore {
    pub order: Vec<String>,
    pub records: Vec<Record>,
    pub at: Vec<usize>,
    pub inv: InverseData,
}

impl View for SchemaRestore {
    type V = SchemaRestoreV;

    open spec fn view(&self) -> SchemaRestoreV {
        SchemaRestoreV {
            order: texts(self.order@),
            records: record_views(self.records@),
            at: position_views(self.at@),
            inv: column_views(self.inv.columns@),
        }
    }
}

/// What holds of a program that was settled against a table.
pub open spec fn settled(t: TableV, s: SchemaRestoreV) -> bool {
    &&& s.order.len() == t.fields.len()
    &&& s.at.len() == s.records.len()
    &&& forall|i: int| 0 <= i < s.at.len() ==> 0 <= #[trigger] s.at[i] < t.fields.len()
    &&& forall|i: int|
        0 <= i < s.inv.len() ==> (#[trigger] s.inv[i]).field.level() is Some
    &&& levels_tidy(s.inv)
    &&& forall|i: int| #![trigger s.records[i]]
        0 <= i < s.records.len() ==> if s.records[i].capture {
            column_names(s.inv).contains(s.records[i].old_name)
        } else {
            t.fields[s.at[i]].is_scale() == (s.records[i].old_type is Scale)
        }
}

/// Reads the order that a program gives.
fn read_order(ops: &Json, n: usize) -> (r: Result<Vec<String>, EditFailure>)
    ensures
        match (r, program_order(ops@, n as nat)) {
            (Ok(v), Ok(s)) => texts(v@) == s && v@.len() == n,
            (Err(e), Err(f)) => e@ == f,
            _ => false,
        },
{
    let a = match array_of(ops, "old_order") {
        Some(a) => a,
        None => {
            return Err(EditFailure::fault("restore_schema: no 'old_order'"));
        },
    };
    let names = match read_strings(a) {
        Some(v) => v,
        None => {
            return Err(
                EditFailure::fault("restore_schema: 'old_order' entries must be strings"),
            );
        },
    };
    assert(texts(names@).len() == names@.len());
    if names.len() != n || find_repeat(&names).is_some() {
        return Err(
            EditFailure::fault(
                "restore_schema: 'old_order' is not a permutation of the pre-edit names",
            ),
        );
    }
    Ok(names)
}

/// Reads the columns of the blob.
fn read_blob(rs: &Vec<Record>, rows: u64, bytes: &[u8]) -> (r: Result<InverseData, EditFailure>)
    ensures
        match (
            r,
            program_blob(
                record_views(rs@),
                rows as nat,
                bytes@.len(),
                blob_columns(bytes@),
            ),
        ) {
            (Ok(d), Ok(s)) => column_views(d.columns@) == s && levels_tidy(s) && (forall|i: int|
                0 <= i < s.len() ==> (#[trigger] s[i]).field.level() is Some),
            (Err(e), Err(f)) => e@ == f,
            _ => false,
        },
{
    if has_captured(rs) {
        let inv = match decode_inverse(bytes) {
            Ok(d) => d,
            Err(e) => {
                return Err(e);
            },
        };
        let ghost cols = column_views(inv.columns@);
        if inv.rows() != rows {
            return Err(
                EditFailure::fault(
                    "restore_schema: the blob does not match the program (full-width columns were expected)",
                ),
            );
        }
        proof {
            lemma_decoded(blob_columns(bytes@));
            assert(levels_tidy(cols));
        }
        let names = list_column_names(&inv);
        if let Some(n) = find_uncaptured(rs, &names) {
            return Err(EditFailure::fatal(wording::restore_blob_column(n.as_str())));
        }
        return Ok(inv);
    }
    if bytes.len() > 0 {
        return Err(
            EditFailure::fault(
                "restore_schema: the program declares no capture but carries bytes",
            ),
        );
    }
    let columns: Vec<crate::capture::Column> = Vec::new();
    assert(column_views(columns@) =~= Seq::empty());
    Ok(InverseData { columns })
}

/// Settles a program against the dataset.
#[verifier::rlimit(50)]
pub fn settle_schema(ds: &Dataset, ops: &Json, bytes: &[u8]) -> (r: Result<
    SchemaRestore,
    EditFailure,
>)
    requires
        ds.wf(),
    ensures
        match (
            r,
            schema_restore(ds.table(), ops@, bytes@.len(), blob_columns(bytes@)),
        ) {
            (Ok(a), Ok(b)) => a@ == b && settled(ds.table(), b),
            (Err(e), Err(f)) => e@ == f,
            _ => false,
        },
{
    let ghost t = ds.table();
    let old_cols = u64_of(ops, "old_cols")?;
    let old_rows = u64_of(ops, "old_rows")?;
    let rows = ds.rows();
    let n = ds.fields.len();
    if old_cols != n as u64 || old_rows != rows {
        return Err(
            EditFailure::fatal(
                wording::restore_schema_extent(old_cols, old_rows, n as u64, rows),
            ),
        );
    }
    let order = match read_order(ops, n) {
        Ok(v) => v,
        Err(e) => {
            return Err(e);
        },
    };
    let a = match array_of(ops, "columns") {
        Some(a) => a,
        None => {
            return Err(EditFailure::fault("restore_schema: no 'columns' list"));
        },
    };
    let records = match parse_records(a) {
        Ok(v) => v,
        Err(e) => {
            return Err(e);
        },
    };
    let names = name_list(ds);
    let at = match locate_records(&names, &records) {
        Ok(v) => v,
        Err(e) => {
            return Err(e);
        },
    };
    if find_twice(&at).is_some() {
        return Err(EditFailure::fault("restore_schema: two entries name the same column"));
    }
    let olds = list_old_names(&records);
    if find_repeat(&olds).is_some() {
        return Err(
            EditFailure::fault("restore_schema: two entries restore the same old name"),
        );
    }
    let inv = match read_blob(&records, rows, bytes) {
        Ok(d) => d,
        Err(e) => {
            return Err(e);
        },
    };
    if let Some(name) = find_retyped(ds, &records, &at) {
        return Err(EditFailure::fatal(wording::restore_physical(name.as_str())));
    }
    let s = SchemaRestore { order, records, at, inv };
    proof {
        let rv = s@.records;
        assert forall|i: int| #![trigger s@.records[i]]
            0 <= i < s@.records.len() implies if s@.records[i].capture {
            column_names(s@.inv).contains(s@.records[i].old_name)
        } else {
            t.fields[s@.at[i]].is_scale() == (s@.records[i].old_type is Scale)
        } by {
            if rv[i].capture {
                lemma_some_captured(rv, i);
                lemma_captured(rv, column_names(s@.inv), i);
            } else {
                lemma_not_retyped(t, rv, s@.at, i);
            }
        }
        assert(s@ =~= schema_restore(t, ops@, bytes@.len(), blob_columns(bytes@))->Ok_0);
    }
    Ok(s)
}

/// Lists the columns that the redo captures.
fn list_captured(rs: &Vec<Record>, at: &Vec<usize>, Ghost(n): Ghost<nat>) -> (r: Vec<u64>)
    requires
        at@.len() == rs@.len(),
        forall|i: int| 0 <= i < at@.len() ==> #[trigger] at@[i] < n,
    ensures
        r@ == captured_columns(record_views(rs@), position_views(at@)),
        forall|i: int| 0 <= i < r@.len() ==> #[trigger] r@[i] < n,
        r@.len() > 0 <==> some_captured(record_views(rs@)),
{
    let mut out: Vec<u64> = Vec::new();
    let mut i: usize = 0;
    let ghost all = record_views(rs@);
    let ghost ps = position_views(at@);
    assert(all.take(0) =~= Seq::empty());
    while i < rs.len()
        invariant
            i <= rs.len(),
            all == record_views(rs@),
            ps == position_views(at@),
            at@.len() == rs@.len(),
            forall|i: int| 0 <= i < at@.len() ==> #[trigger] at@[i] < n,
            out@ == captured_columns(all.take(i as int), ps),
            forall|i: int| 0 <= i < out@.len() ==> #[trigger] out@[i] < n,
            out@.len() > 0 <==> some_captured(all.take(i as int)),
        decreases rs.len() - i,
    {
        assert(all.take(i + 1).drop_last() =~= all.take(i as int));
        assert(all.take(i + 1).last() == rs@[i as int]@);
        assert(ps[all.take(i + 1).len() - 1] == at@[i as int]);
        if rs[i].capture {
            out.push(at[i] as u64);
        }
        i = i + 1;
    }
    assert(all.take(all.len() as int) =~= all);
    out
}

/// Lists what the redo records.
fn list_redo(ds: &Dataset, rows: u64, s: &SchemaRestore) -> (r: Vec<Json>)
    requires
        ds.wf(),
        ds.table().supported(),
        rows == ds.table().rows,
        settled(ds.table(), s@),
    ensures
        items(r@) == redo_records(ds.table(), s@),
{
    let ghost t = ds.table();
    let ghost goal = redo_records(t, s@);
    let mut out: Vec<Json> = Vec::new();
    let mut i: usize = 0;
    while i < s.records.len()
        invariant
            i <= s.records.len(),
            ds.wf(),
            t == ds.table(),
            t.supported(),
            rows == t.rows,
            settled(t, s@),
            goal == redo_records(t, s@),
            out@.len() == i,
            items(out@) =~= goal.take(i as int),
        decreases s.records.len() - i,
    {
        assert(s@.at[i as int] == s.at@[i as int]);
        let j = s.at[i];
        let rec = &s.records[i];
        assert(s@.records[i as int] == rec@);
        let f = &ds.fields[j];
        assert(t.fields[j as int] == f@);
        assert(f@.level() is Some);
        let dict = &ds.dicts[j];
        assert(t.dicts[j as int] == texts(dict@));
        assert(texts(dict@).len() == dict@.len());
        let levels = if f.is_scale() {
            Json::Null
        } else {
            json_texts(dict)
        };
        let e = make_record(&rec.old_name, &rec.current, f, levels, rec.capture, rows);
        assert(e@ == goal[i as int]);
        out.push(e);
        i = i + 1;
    }
    assert(items(out@) =~= goal);
    out
}

/// Plans a column that is restored without a capture.
fn build_recorded(ds: &Dataset, rec: &Record, j: usize) -> (r: OutCol)
    requires
        ds.wf(),
        j < ds.fields@.len(),
        ds.table().fields[j as int].is_scale() == (rec.old_type is Scale),
        ds.table().supported(),
    ensures
        r@ == recorded_col(ds.table(), rec@, j as int),
        r.wf(ds.fields@.len()),
{
    let ghost t = ds.table();
    let ghost goal = recorded_col(t, rec@, j as int);
    let f = &ds.fields[j];
    assert(t.fields[j as int] == f@);
    assert(t.fields[j as int].level() is Some);
    assert(t.dicts[j as int] == texts(ds.dicts@[j as int]@));
    let plain = Field::plain(&rec.old_name, &rec.old_display, rec.old_type, f.all_integer);
    let labels = match &rec.old_labels {
        Some(l) => copy_labels(l),
        None => Vec::new(),
    };
    assert(label_map(labels@) == goal.field.labels) by {
        assert(label_map(Seq::<(String, String)>::empty()) =~= Map::empty());
        if rec.old_labels is None {
            assert(labels@ =~= Seq::empty());
        }
    }
    let field = Field {
        name: plain.name,
        kind: plain.kind,
        display_name: plain.display_name,
        all_integer: plain.all_integer,
        labels,
    };
    assert(field@ =~= goal.field);
    if !rec.old_type.is_scale() {
        if let Some(l) = &rec.old_levels {
            let dict = CatDict::from_list(clone_texts(l));
            assert(texts(dict.values@) =~= texts(l@));
            let m = map_keys(&ds.dicts[j], &dict);
            return OutCol {
                field,
                old: Some(j),
                window: None,
                under: Under::Remap(m),
                levels: dict.values,
            };
        }
    }
    let levels = clone_texts(&ds.dicts[j]);
    assert(texts(levels@) =~= goal.levels);
    OutCol { field, old: Some(j), window: None, under: Under::Same, levels }
}

proof fn lemma_restored_prefix(t: TableV, s: SchemaRestoreV, names: Seq<Seq<char>>, k: int)
    requires
        0 <= k <= names.len(),
        restored_schema_cols(t, s, names.take(k)) is Err,
    ensures
        restored_schema_cols(t, s, names) == restored_schema_cols(t, s, names.take(k)),
    decreases names.len() - k,
{
    if k < names.len() {
        assert(names.take(k + 1).drop_last() =~= names.take(k));
        lemma_restored_prefix(t, s, names, k + 1);
    } else {
        assert(names.take(k) =~= names);
    }
}

/// Plans the restored columns, in the old order.
#[verifier::rlimit(50)]
fn plan_schema(ds: &Dataset, s: &SchemaRestore) -> (r: Result<(Vec<OutCol>, Vec<usize>), EditFailure>)
    requires
        ds.wf(),
        ds.table().supported(),
        settled(ds.table(), s@),
    ensures
        match (r, restored_schema_cols(ds.table(), s@, s@.order)) {
            (Ok(a), Ok(b)) => plan_views(a.0@) == b.0 && position_views(a.1@) == b.1 && plan_wf(
                a.0@,
                ds.fields@.len(),
            ) && (forall|c: int|
                0 <= c < a.0@.len() ==> (#[trigger] a.0@[c])@.field.level() is Some) && (forall|
                i: int,
            |
                0 <= i < a.1@.len() ==> #[trigger] a.1@[i] < ds.fields@.len()),
            (Err(e), Err(f)) => e@ == f,
            _ => false,
        },
{
    let ghost t = ds.table();
    let ghost sv = s@;
    let names = name_list(ds);
    let olds = list_old_names(&s.records);
    let carried = list_column_names(&s.inv);
    let mut plan: Vec<OutCol> = Vec::new();
    let mut js: Vec<usize> = Vec::new();
    let mut k: usize = 0;
    let ghost all = sv.order;
    assert(all.take(0) =~= Seq::empty());
    assert(plan_views(plan@) =~= Seq::empty());
    assert(position_views(js@) =~= Seq::empty());
    while k < s.order.len()
        invariant
            k <= s.order.len(),
            ds.wf(),
            t == ds.table(),
            t.supported(),
            sv == s@,
            settled(t, sv),
            all == sv.order,
            texts(names@) == field_names(t),
            names@.len() == ds.fields@.len(),
            texts(olds@) == old_names(sv.records),
            olds@.len() == s.records@.len(),
            texts(carried@) == column_names(sv.inv),
            carried@.len() == s.inv.columns@.len(),
            plan_wf(plan@, ds.fields@.len()),
            forall|c: int| 0 <= c < plan@.len() ==> (#[trigger] plan@[c])@.field.level() is Some,
            forall|i: int| 0 <= i < js@.len() ==> #[trigger] js@[i] < ds.fields@.len(),
            restored_schema_cols(t, sv, all.take(k as int)) == Ok::<
                (Seq<OutColV>, Seq<int>),
                FailureV,
            >((plan_views(plan@), position_views(js@))),
        decreases s.order.len() - k,
    {
        assert(all.take(k + 1).drop_last() =~= all.take(k as int));
        assert(all.take(k + 1).last() == s.order@[k as int]@);
        let name = &s.order[k];
        let (c, j) = match find_text(&olds, name) {
            Some(i) => {
                let rec = &s.records[i];
                assert(sv.records[i as int] == rec@);
                assert(sv.at[i as int] == s.at@[i as int]);
                let j = s.at[i];
                if rec.capture {
                    proof {
                        assert(old_names(sv.records)[i as int] == texts(olds@)[i as int]);
                        assert(name@ == sv.records[i as int].old_name);
                        lemma_first_text(column_names(sv.inv), name@);
                    }
                    match find_text(&carried, name) {
                        Some(m) => {
                            let col = &s.inv.columns[m];
                            assert(sv.inv[m as int] == col@);
                            (restored_col(col.field.copy(), None, false, col), j)
                        },
                        None => (pass_col(ds, j), j),
                    }
                } else {
                    (build_recorded(ds, rec, j), j)
                }
            },
            None => match find_text(&names, name) {
                Some(j) => {
                    assert(t.fields[j as int].level() is Some);
                    (pass_col(ds, j), j)
                },
                None => {
                    proof {
                        lemma_restored_prefix(t, sv, all, k + 1);
                    }
                    return Err(EditFailure::fatal(wording::restore_order(name.as_str())));
                },
            },
        };
        assert(Ok::<(OutColV, int), FailureV>((c@, j as int)) == restored_schema_col(
            t,
            sv,
            name@,
        ));
        assert(c.wf(ds.fields@.len()));
        assert(c@.field.level() is Some);
        let ghost before = plan@;
        let ghost js0 = js@;
        let ghost cv = c@;
        plan.push(c);
        js.push(j);
        assert(plan_views(plan@) =~= plan_views(before).push(cv));
        assert(position_views(js@) =~= position_views(js0).push(j as int));
        k = k + 1;
    }
    assert(all.take(all.len() as int) =~= all);
    Ok((plan, js))
}

/// Whether every column is accounted for.
fn uses_all(js: &Vec<usize>, n: usize) -> (r: bool)
    ensures
        r == all_used(position_views(js@), n as nat),
{
    let ghost ps = position_views(js@);
    let mut j: usize = 0;
    while j < n
        invariant
            j <= n,
            ps == position_views(js@),
            forall|k: int| 0 <= k < j ==> ps.contains(k),
        decreases n - j,
    {
        let mut found = false;
        let mut i: usize = 0;
        while i < js.len()
            invariant
                i <= js.len(),
                j < n,
                ps == position_views(js@),
                found ==> ps.contains(j as int),
                !found ==> (forall|m: int| 0 <= m < i ==> ps[m] != j as int),
            decreases js.len() - i,
        {
            if js[i] == j {
                assert(ps[i as int] == j as int);
                found = true;
            }
            i = i + 1;
        }
        if !found {
            assert(!ps.contains(j as int));
            return false;
        }
        j = j + 1;
    }
    true
}

/// Restores the schema that a change replaced; where the program is a redo, changes it again.
#[verifier::rlimit(50)]
pub fn restore_schema_exec(
    ds: &Dataset,
    num: &Numerals,
    ops: &Json,
    bytes: &[u8],
    revision: u64,
) -> (r: Result<(EditOutput, Dataset), EditFailure>)
    requires
        ds.wf(),
        ds.table().supported(),
    ensures
        ({
            let t = ds.table();
            let blob = blob_columns(bytes@);
            let c = match schema_restore(t, ops@, bytes@.len(), blob) {
                Ok(s) => Some(schema_redo_capture(t, s)),
                Err(_) => None,
            };
            let w = capture_file(c);
            gives(
                r,
                restore_schema_outcome(t, num@, ops@, bytes@.len(), blob, revision, w),
            ) && (r is Ok ==> wrote(w, c))
        }),
{
    let ghost t = ds.table();
    let ghost blob = blob_columns(bytes@);
    let ghost nb = bytes@.len();
    let ghost none = capture_file(
        match schema_restore(t, ops@, nb, blob) {
            Ok(s) => Some(schema_redo_capture(t, s)),
            Err(_) => None,
        },
    );
    proof {
        lemma_table_wf(*ds);
    }
    let s = match settle_schema(ds, ops, bytes) {
        Ok(s) => s,
        Err(e) => {
            let r = Err(e);
            assert(gives(r, restore_schema_outcome(t, num@, ops@, nb, blob, revision, none)));
            return r;
        },
    };
    let rows = ds.rows();
    assert forall|i: int| 0 <= i < s.at@.len() implies #[trigger] s.at@[i] < ds.fields@.len() by {
        assert(s@.at[i] == s.at@[i]);
    }
    assert(s@.at.len() == s.at@.len());
    let js = list_captured(&s.records, &s.at, Ghost(ds.fields@.len()));
    let mut redo: Vec<u8> = Vec::new();
    let ghost mut w = none;
    if js.len() > 0 {
        let cols = capture_cols(ds, &js, 0, rows);
        let write = write_columns(&cols);
        proof {
            w = write_view(write);
        }
        redo = match seal_redo(write) {
            Ok(b) => b,
            Err(e) => {
                let r = Err(e);
                assert(gives(
                    r,
                    restore_schema_outcome(t, num@, ops@, nb, blob, revision, w),
                ));
                return r;
            },
        };
    }
    assert(written(w, schema_redo_capture(t, s@)));
    assert(redo@ =~= if some_captured(s@.records) {
        sealed_redo(w)->Ok_0
    } else {
        Seq::empty()
    });
    let (plan, used) = match plan_schema(ds, &s) {
        Ok(p) => p,
        Err(e) => {
            let r = Err(e);
            assert(gives(r, restore_schema_outcome(t, num@, ops@, nb, blob, revision, w)));
            return r;
        },
    };
    if !uses_all(&used, ds.fields.len()) {
        let r = Err(
            EditFailure::fault("restore_schema: the program does not account for every column"),
        );
        assert(gives(r, restore_schema_outcome(t, num@, ops@, nb, blob, revision, w)));
        return r;
    }
    let mut segs: Vec<Seg> = Vec::new();
    segs.push(Seg::Block { out: 0, len: rows });
    assert(segs@ =~= seq![Seg::Block { out: 0, len: rows }]);
    proof {
        lemma_one(arbitrary(), num@, t.cols, t.rows, segs@[0]);
    }
    let d = match stream_rewrite(ds, &plan, num, &segs, rows) {
        Ok(d) => d,
        Err(e) => {
            let r = Err(e);
            assert(gives(r, restore_schema_outcome(t, num@, ops@, nb, blob, revision, w)));
            return r;
        },
    };
    assert(d.table().fields.len() == plan@.len());
    let schema = wire_schema(&plan, &d, num);
    let records = list_redo(ds, rows, &s);
    let program = make_restore_schema(ds, rows, records);
    let out = EditOutput {
        rows,
        schema: Some(schema),
        invalidation: Invalidation { all: Some(true), rows_from: None, rows_to: None },
        inverse_meta: Some(make_inverse(revision, program)),
        inverse_bytes: redo,
    };
    let r = Ok((out, d));
    assert(gives(r, restore_schema_outcome(t, num@, ops@, nb, blob, revision, w)));
    r
}

} // verus!
