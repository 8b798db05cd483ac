//! What the data lane answers.
use vstd::prelude::*;
use vstd::string::*;
use crate::json::JsonV;
use crate::lane::{
    column_json, error_payload, op_name, opened_payload, reply, viewed_payload, ColumnInfo,
    ConvertOutput, DataResultV, ViewOutput,
};
use crate::messages::{DataOp, Status};

verus! {

/// An answer names the work that it is for, its session and revision, and says how it went; its
/// payload is the one that was given.
pub proof fn law_answers_name_their_work(
    session: Option<Seq<char>>,
    work_id: Seq<char>,
    revision: u64,
    status: Status,
    payload: DataResultV,
)
    ensures
        ({
            let r = reply(session, work_id, revision, status, payload);
            &&& r.session == session
            &&& r.work_id == work_id
            &&& r.revision == revision
            &&& r.status == status
            &&& r.payload == payload
            &&& r.format is None
            &&& r.id == "data-result-"@ + work_id
        }),
{
}

/// What is told of a failure is its message, and nothing else.
pub proof fn law_failures_tell_the_message(message: Seq<char>)
    ensures
        ({
            let p = error_payload(message);
            &&& p.error_message == Some(message)
            &&& p.rows is None
            &&& p.schema is None
            &&& p.dataset_id is None
            &&& p.dataset_revision is None
            &&& p.row_offset is None
            &&& p.row_count is None
            &&& p.truncated is None
        }),
{
}

/// A view is answered with the size of the table and with the rows that are shown: where they
/// start, how many they are, and whether they were cut short.
pub proof fn law_views_tell_what_is_shown(out: ViewOutput)
    ensures
        ({
            let p = viewed_payload(out);
            &&& p.rows == Some(out.rows_total)
            &&& p.row_offset == Some(out.row_offset)
            &&& p.row_count == Some(out.row_count)
            &&& p.truncated == Some(out.truncated)
            &&& p.schema is None
            &&& p.error_message is None
            &&& p.dataset_id is None
            &&& p.dataset_revision is None
        }),
{
}

/// What is told of a column of an opened file: its names, its level and its counts; whether it
/// holds integers only where it is a scale; and its levels and how many of them are numbers
/// where it has them.
pub open spec fn tells_column(v: JsonV, c: ColumnInfo) -> bool {
    let m = v->Object_0;
    let a = m["levels"@]->Array_0;
    &&& v is Object
    &&& m.contains_key("name"@) && m["name"@] == JsonV::Str(c.name@)
    &&& m.contains_key("display_name"@) && m["display_name"@] == JsonV::Str(c.display_name@)
    &&& m.contains_key("type"@) && m["type"@] == JsonV::Str(c.level@)
    &&& m.contains_key("value_count"@) && m["value_count"@] == JsonV::Number(c.value_count)
    &&& m.contains_key("distinct_count"@) && m["distinct_count"@] == JsonV::Number(
        c.distinct_count,
    )
    &&& m.contains_key("all_integer"@) <==> c.level@ == "scale"@
    &&& m.contains_key("all_integer"@) ==> m["all_integer"@] == JsonV::Bool(c.all_integer)
    &&& m.contains_key("levels"@) <==> c.levels is Some
    &&& c.levels is Some ==> m["levels"@] is Array && a.len() == c.levels->0@.len() && forall|
        i: int,
    |
        0 <= i < a.len() ==> #[trigger] a[i] == JsonV::Str(c.levels->0@[i]@)
    &&& m.contains_key("numeric_levels"@) <==> c.numeric_levels is Some
    &&& c.numeric_levels is Some ==> m["numeric_levels"@] == JsonV::Number(c.numeric_levels->0)
}

/// An opened file is answered with its size and with what there is to tell of each column, in
/// order.
pub proof fn law_opened_files_tell_their_columns(out: ConvertOutput, i: int)
    requires
        0 <= i < out.columns@.len(),
    ensures
        ({
            let p = opened_payload(out);
            &&& p.rows == Some(out.rows)
            &&& p.error_message is None
            &&& p.dataset_id is None
            &&& p.dataset_revision is None
            &&& p.row_offset is None
            &&& p.row_count is None
            &&& p.truncated is None
            &&& p.schema is Some
            &&& p.schema->0 is Array
            &&& p.schema->0->Array_0.len() == out.columns@.len()
            &&& tells_column(p.schema->0->Array_0[i], out.columns@[i])
        }),
{
    crate::told_laws::lemma_members_differ();
    let c = out.columns@[i];
    assert(opened_payload(out).schema->0->Array_0[i] == column_json(c));
}

/// A refusal of the lane calls an operation by its name.
pub proof fn law_operations_have_names(op: DataOp)
    ensures
        op is Open ==> op_name(op) == "Open"@,
        op is Edit ==> op_name(op) == "Edit"@,
        op is Close ==> op_name(op) == "Close"@,
        op is Update ==> op_name(op) == "Update"@,
        op is View ==> op_name(op) == "View"@,
{
}

} // verus!
