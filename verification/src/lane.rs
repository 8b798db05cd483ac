//! The data lane: what a data runner takes on, and what it answers.
use vstd::prelude::*;
use vstd::string::*;
use crate::json::{
    items, json_array, json_number, json_object, json_text, json_texts, no_members, put, text_array,
    Json, JsonV,
};
use crate::messages::{
    opt_text, Capability, DataOp, Envelope, Message, RegisterAck, Status, WorkPayload,
};
use crate::text::{same, texts};

verus! {

/// A column of a converted file.
pub struct ColumnInfo {
    pub name: String,
    pub display_name: String,
    /// The measurement level, by its name.
    pub level: String,
    pub all_integer: bool,
    pub levels: Option<Vec<String>>,
    /// Cells that are not empty.
    pub value_count: u64,
    pub distinct_count: u64,
    pub numeric_levels: Option<u64>,
}

/// What a conversion tells of the file it wrote.
pub struct ConvertOutput {
    pub rows: u64,
    pub columns: Vec<ColumnInfo>,
}

/// A rendered window of a cached dataset.
pub struct ViewOutput {
    pub rows_total: u64,
    pub row_offset: u64,
    pub row_count: u64,
    pub truncated: bool,
    pub tsv: Vec<u8>,
}

/// The payload of a result of data work. The lane leaves identity to the orchestrator.
pub struct DataResult {
    pub dataset_id: Option<String>,
    pub dataset_revision: Option<u64>,
    pub rows: Option<u64>,
    pub schema: Option<Json>,
    pub error_message: Option<String>,
    pub row_offset: Option<u64>,
    pub row_count: Option<u64>,
    pub truncated: Option<bool>,
}

/// The mathematical value of a [`DataResult`].
pub struct DataResultV {
    pub dataset_id: Option<Seq<char>>,
    pub dataset_revision: Option<u64>,
    pub rows: Option<u64>,
    pub schema: Option<JsonV>,
    pub error_message: Option<Seq<char>>,
    pub row_offset: Option<u64>,
    pub row_count: Option<u64>,
    pub truncated: Option<bool>,
}

impl View for DataResult {
    type V = DataResultV;

    open spec fn view(&self) -> DataResultV {
        DataResultV {
            dataset_id: opt_text(self.dataset_id),
            dataset_revision: self.dataset_revision,
            rows: self.rows,
            schema: match self.schema {
                Some(j) => Some(j@),
                None => None,
            },
            error_message: opt_text(self.error_message),
            row_offset: self.row_offset,
            row_count: self.row_count,
            truncated: self.truncated,
        }
    }
}

/// The answer to a data work unit.
pub struct LaneReply {
    pub id: String,
    pub session_id: Option<String>,
    /// How the bytes behind the message are encoded, where there are any.
    pub format: Option<String>,
    pub work_id: String,
    pub revision: u64,
    pub status: Status,
    pub payload: DataResult,
}

/// The mathematical value of a [`LaneReply`].
pub struct LaneReplyV {
    pub id: Seq<char>,
    pub session: Option<Seq<char>>,
    pub format: Option<Seq<char>>,
    pub work_id: Seq<char>,
    pub revision: u64,
    pub status: Status,
    pub payload: DataResultV,
}

impl View for LaneReply {
    type V = LaneReplyV;

    open spec fn view(&self) -> LaneReplyV {
        LaneReplyV {
            id: self.id@,
            session: opt_text(self.session_id),
            format: opt_text(self.format),
            work_id: self.work_id@,
            revision: self.revision,
            status: self.status,
            payload: self.payload@,
        }
    }
}

/// A result that tells nothing.
pub open spec fn blank() -> DataResultV {
    DataResultV {
        dataset_id: None,
        dataset_revision: None,
        rows: None,
        schema: None,
        error_message: None,
        row_offset: None,
        row_count: None,
        truncated: None,
    }
}

/// What a frontend learns of a column: its names and level, whether a scale holds integers
/// only, its levels where it has any, and the counts that forms check against.
pub open spec fn column_json(c: ColumnInfo) -> JsonV {
    let base = Map::<Seq<char>, JsonV>::empty().insert("name"@, JsonV::Str(c.name@)).insert(
        "display_name"@,
        JsonV::Str(c.display_name@),
    ).insert("type"@, JsonV::Str(c.level@));
    let a = if c.level@ == "scale"@ {
        base.insert("all_integer"@, JsonV::Bool(c.all_integer))
    } else {
        base
    };
    let b = match c.levels {
        Some(v) => a.insert("levels"@, text_array(texts(v@))),
        None => a,
    };
    let d = b.insert("value_count"@, JsonV::Number(c.value_count)).insert(
        "distinct_count"@,
        JsonV::Number(c.distinct_count),
    );
    JsonV::Object(
        match c.numeric_levels {
            Some(n) => d.insert("numeric_levels"@, JsonV::Number(n)),
            None => d,
        },
    )
}

/// Describes a column.
fn describe_column(c: &ColumnInfo) -> (r: Json)
    ensures
        r@ == column_json(*c),
{
    let mut o = no_members();
    put(&mut o, "name", json_text(c.name.as_str()));
    put(&mut o, "display_name", json_text(c.display_name.as_str()));
    put(&mut o, "type", json_text(c.level.as_str()));
    if same(&c.level, "scale") {
        put(&mut o, "all_integer", Json::Bool(c.all_integer));
    }
    if let Some(v) = &c.levels {
        put(&mut o, "levels", json_texts(v));
    }
    put(&mut o, "value_count", json_number(c.value_count));
    put(&mut o, "distinct_count", json_number(c.distinct_count));
    if let Some(n) = c.numeric_levels {
        put(&mut o, "numeric_levels", json_number(n));
    }
    json_object(o)
}

/// The payload for a file that was opened: its rows and its columns, in order.
pub open spec fn opened_payload(out: ConvertOutput) -> DataResultV {
    DataResultV {
        rows: Some(out.rows),
        schema: Some(
            JsonV::Array(Seq::new(out.columns@.len(), |i: int| column_json(out.columns@[i]))),
        ),
        ..blank()
    }
}

/// The payload for a file that was opened.
pub fn data_payload(out: &ConvertOutput) -> (r: DataResult)
    ensures
        r@ == opened_payload(*out),
{
    let mut columns: Vec<Json> = Vec::new();
    let mut i: usize = 0;
    while i < out.columns.len()
        invariant
            i <= out.columns.len(),
            columns@.len() == i,
            forall|k: int| 0 <= k < i ==> (#[trigger] columns@[k])@ == column_json(out.columns@[k]),
        decreases out.columns.len() - i,
    {
        columns.push(describe_column(&out.columns[i]));
        i = i + 1;
    }
    assert(items(columns@) =~= Seq::new(
        out.columns@.len(),
        |i: int| column_json(out.columns@[i]),
    ));
    DataResult {
        dataset_id: None,
        dataset_revision: None,
        rows: Some(out.rows),
        schema: Some(json_array(columns)),
        error_message: None,
        row_offset: None,
        row_count: None,
        truncated: None,
    }
}

/// The payload of a failure.
pub open spec fn error_payload(message: Seq<char>) -> DataResultV {
    DataResultV { error_message: Some(message), ..blank() }
}

/// The payload of a failure.
pub fn data_error(message: String) -> (r: DataResult)
    ensures
        r@ == error_payload(message@),
{
    DataResult {
        dataset_id: None,
        dataset_revision: None,
        rows: None,
        schema: None,
        error_message: Some(message),
        row_offset: None,
        row_count: None,
        truncated: None,
    }
}

/// An answer without bytes behind it.
pub open spec fn reply(
    session: Option<Seq<char>>,
    work_id: Seq<char>,
    revision: u64,
    status: Status,
    payload: DataResultV,
) -> LaneReplyV {
    LaneReplyV {
        id: "data-result-"@ + work_id,
        session,
        format: None,
        work_id,
        revision,
        status,
        payload,
    }
}

/// An answer without bytes behind it.
pub fn result_env(
    session_id: &Option<String>,
    work_id: &str,
    revision: u64,
    status: Status,
    payload: DataResult,
) -> (r: LaneReply)
    ensures
        r@ == reply(opt_text(*session_id), work_id@, revision, status, payload@),
{
    let mut id = "data-result-".to_string();
    id.append(work_id);
    LaneReply {
        id,
        session_id: match session_id {
            Some(t) => Some(t.clone()),
            None => None,
        },
        format: None,
        work_id: work_id.to_string(),
        revision,
        status,
        payload,
    }
}

/// What the lane does with a message.
pub enum LaneStep {
    /// It is not for the lane.
    Skip,
    /// The lane answers that it cannot do it.
    Refuse(LaneReply),
    /// Render a window of a cached dataset.
    View,
    /// Convert a file.
    Open,
}

/// The name of an operation, as messages to the user show it.
pub open spec fn op_name(op: DataOp) -> Seq<char> {
    match op {
        DataOp::Open => "Open"@,
        DataOp::Edit => "Edit"@,
        DataOp::Close => "Close"@,
        DataOp::Update => "Update"@,
        DataOp::View => "View"@,
    }
}

/// The name of an operation.
fn name_op(op: DataOp) -> (r: &'static str)
    ensures
        r@ == op_name(op),
{
    match op {
        DataOp::Open => "Open",
        DataOp::Edit => "Edit",
        DataOp::Close => "Close",
        DataOp::Update => "Update",
        DataOp::View => "View",
    }
}

/// Decides what the lane does with a message: data work is served where it opens a CSV file or
/// views a cache, and refused otherwise; anything else is not for the lane.
pub fn choose_step(env: &Envelope) -> (r: LaneStep)
    ensures
        match env.body {
            Message::Work(w) => match w.payload {
                WorkPayload::Data(d) => match d.op {
                    DataOp::View => r is View,
                    DataOp::Open => if d.format@ == "csv"@ {
                        r is Open
                    } else {
                        r is Refuse && r->Refuse_0@ == reply(
                            opt_text(env.session_id),
                            w.work_id@,
                            w.revision,
                            Status::FatalError,
                            error_payload(
                                "this lane only serves data_open for csv (got '"@ + d.format@
                                    + "')"@,
                            ),
                        )
                    },
                    _ => r is Refuse && r->Refuse_0@ == reply(
                        opt_text(env.session_id),
                        w.work_id@,
                        w.revision,
                        Status::FatalError,
                        error_payload(
                            "this lane only serves data_open and data_view (got "@ + op_name(d.op)
                                + ")"@,
                        ),
                    ),
                },
                _ => r is Skip,
            },
            _ => r is Skip,
        },
{
    let w = match &env.body {
        Message::Work(w) => w,
        _ => {
            return LaneStep::Skip;
        },
    };
    let d = match &w.payload {
        WorkPayload::Data(d) => d,
        _ => {
            return LaneStep::Skip;
        },
    };
    match d.op {
        DataOp::View => LaneStep::View,
        DataOp::Open => {
            if same(&d.format, "csv") {
                return LaneStep::Open;
            }
            let mut t = "this lane only serves data_open for csv (got '".to_string();
            t.append(d.format.as_str());
            t.append("')");
            LaneStep::Refuse(
                result_env(
                    &env.session_id,
                    w.work_id.as_str(),
                    w.revision,
                    Status::FatalError,
                    data_error(t),
                ),
            )
        },
        _ => {
            let mut t = "this lane only serves data_open and data_view (got ".to_string();
            t.append(name_op(d.op));
            t.append(")");
            LaneStep::Refuse(
                result_env(
                    &env.session_id,
                    w.work_id.as_str(),
                    w.revision,
                    Status::FatalError,
                    data_error(t),
                ),
            )
        },
    }
}

/// Answers an open with what the conversion gave.
pub fn answer_open(
    session_id: &Option<String>,
    work_id: &str,
    revision: u64,
    source: &str,
    converted: Result<ConvertOutput, String>,
) -> (r: LaneReply)
    ensures
        r@ == (match converted {
            Ok(out) => reply(
                opt_text(*session_id),
                work_id@,
                revision,
                Status::Complete,
                opened_payload(out),
            ),
            Err(e) => reply(
                opt_text(*session_id),
                work_id@,
                revision,
                Status::FatalError,
                error_payload("could not open '"@ + source@ + "': "@ + e@),
            ),
        }),
{
    match converted {
        Ok(out) => result_env(
            session_id,
            work_id,
            revision,
            Status::Complete,
            data_payload(&out),
        ),
        Err(e) => {
            let mut t = "could not open '".to_string();
            t.append(source);
            t.append("': ");
            t.append(e.as_str());
            result_env(session_id, work_id, revision, Status::FatalError, data_error(t))
        },
    }
}

/// The payload of a rendered window.
pub open spec fn viewed_payload(out: ViewOutput) -> DataResultV {
    DataResultV {
        rows: Some(out.rows_total),
        row_offset: Some(out.row_offset),
        row_count: Some(out.row_count),
        truncated: Some(out.truncated),
        ..blank()
    }
}

/// Answers a view with what the rendering gave. The rows travel as bytes behind the message,
/// whose format is named if and only if there are any.
pub fn answer_view(
    session_id: &Option<String>,
    work_id: &str,
    revision: u64,
    viewed: Result<ViewOutput, String>,
) -> (r: (LaneReply, Vec<u8>))
    ensures
        match viewed {
            Ok(out) => r.1@ == out.tsv@ && r.0@ == (LaneReplyV {
                format: if out.tsv@.len() == 0 {
                    None
                } else {
                    Some("text/tsv"@)
                },
                ..reply(
                    opt_text(*session_id),
                    work_id@,
                    revision,
                    Status::Complete,
                    viewed_payload(out),
                )
            }),
            Err(e) => r.1@.len() == 0 && r.0@ == reply(
                opt_text(*session_id),
                work_id@,
                revision,
                Status::FatalError,
                error_payload(e@),
            ),
        },
{
    match viewed {
        Ok(out) => {
            let payload = DataResult {
                dataset_id: None,
                dataset_revision: None,
                rows: Some(out.rows_total),
                schema: None,
                error_message: None,
                row_offset: Some(out.row_offset),
                row_count: Some(out.row_count),
                truncated: Some(out.truncated),
            };
            let mut r = result_env(session_id, work_id, revision, Status::Complete, payload);
            if out.tsv.len() > 0 {
                r.format = Some("text/tsv".to_string());
            }
            (r, out.tsv)
        },
        Err(e) => (
            result_env(session_id, work_id, revision, Status::FatalError, data_error(e)),
            Vec::new(),
        ),
    }
}

/// The work that the lane takes: opens of CSV files and views of any cache.
pub fn lane_capabilities() -> (r: Vec<Capability>)
    ensures
        r@.len() == 2,
        r@[0] matches Capability::Data { op, formats: Some(f) } && op == DataOp::Open && texts(f@)
            == seq!["csv"@],
        r@[1] == (Capability::Data { op: DataOp::View, formats: None }),
{
    let mut formats: Vec<String> = Vec::new();
    formats.push("csv".to_string());
    assert(texts(formats@) =~= seq!["csv"@]);
    let mut r: Vec<Capability> = Vec::new();
    r.push(Capability::Data { op: DataOp::Open, formats: Some(formats) });
    r.push(Capability::Data { op: DataOp::View, formats: None });
    r
}

/// Reads the answer to the lane's registration: its id and the channel to dial, or why there is
/// none.
pub fn read_ack(a: &RegisterAck) -> (r: Result<(String, String), String>)
    ensures
        match r {
            Ok(p) => a.ok && opt_text(a.runner_id) == Some(p.0@) && opt_text(a.channel_url) == Some(
                p.1@,
            ),
            Err(e) => if !a.ok {
                e@ == "registration rejected: "@ + (match a.reason {
                    Some(t) => t@,
                    None => Seq::empty(),
                })
            } else if a.runner_id is None {
                e@ == "register_ack missing runner_id"@
            } else {
                a.channel_url is None && e@ == "register_ack missing channel_url"@
            },
        },
{
    if !a.ok {
        let mut t = "registration rejected: ".to_string();
        if let Some(reason) = &a.reason {
            t.append(reason.as_str());
        }
        assert(a.reason is None ==> t@ =~= "registration rejected: "@ + Seq::<char>::empty());
        return Err(t);
    }
    match (&a.runner_id, &a.channel_url) {
        (None, _) => Err("register_ack missing runner_id".to_string()),
        (Some(_), None) => Err("register_ack missing channel_url".to_string()),
        (Some(id), Some(url)) => Ok((id.clone(), url.clone())),
    }
}

} // verus!
