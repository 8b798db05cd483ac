//! The wire protocol: what the frontend, the orchestrator and the runners say to each other.
use vstd::prelude::*;
use crate::json::{Json, JsonV};
use crate::text::texts;

verus! {

/// The envelope that every message shares.
#[derive(Debug, Clone, PartialEq)]
pub struct Envelope {
    /// Protocol version.
    pub v: u32,
    /// Correlation id of this message.
    pub id: String,
    /// The `id` that this message answers; responses only.
    pub reply_to: Option<String>,
    /// The session the message belongs to.
    pub session_id: Option<String>,
    /// Milliseconds since the epoch, stamped by the orchestrator.
    pub ts: Option<u64>,
    pub body: Message,
}

/// Every message on the wire.
#[derive(Debug, Clone, PartialEq)]
pub enum Message {
    Work(Work),
    Result(ResultMsg),
    Abort(Abort),
    WorkClose(WorkClose),
    Ping,
    Pong,
    Error(ErrorMsg),
    Register(Register),
    RegisterAck(RegisterAck),
    Hello(Hello),
    Welcome(Welcome),
    Activity(Activity),
    Deregister(Deregister),
    ListModules,
    Modules(ModulesMsg),
}

/// Frontend to orchestrator: run a work unit.
#[derive(Debug, Clone, PartialEq)]
pub struct Work {
    pub work_id: String,
    pub revision: u64,
    /// The revision whose finished results seed this one; absent for a full recompute.
    pub base_revision: Option<u64>,
    pub dataset_ids: Vec<String>,
    pub payload: WorkPayload,
}

/// The part of a work unit that depends on its kind.
#[derive(Debug, Clone, PartialEq)]
pub enum WorkPayload {
    Analysis(AnalysisWork),
    Rcode(RcodeWork),
    /// Data-plane work for a data lane; the lane keeps no state of its own.
    Data(DataWork),
}

/// A data-plane work unit.
#[derive(Debug, Clone, PartialEq)]
pub struct DataWork {
    pub op: DataOp,
    /// The file to read.
    pub source: String,
    /// The file to write, assigned by the orchestrator at dispatch.
    pub cache_path: String,
    /// Selects the lane and its parser; meaningful for an open.
    pub format: String,
    /// Ingestion settings captured at the open, carried by every operation.
    pub ingest: IngestParams,
}

#[derive(Debug, Clone, PartialEq)]
pub struct AnalysisWork {
    pub module: String,
    pub module_version: String,
    pub analysis: String,
    /// Analysis options, never interpreted.
    pub options: Json,
    pub settings: Settings,
}

#[derive(Debug, Clone, PartialEq, Eq)]
pub struct Settings {
    pub ppi: u32,
    pub num_decimals: u32,
}

#[derive(Debug, Clone, PartialEq)]
pub struct RcodeWork {
    pub code: String,
    /// The environment of the code, never interpreted.
    pub env: Json,
}

/// Orchestrator to frontend: a result for a work unit, possibly one of several.
#[derive(Debug, Clone, PartialEq)]
pub struct ResultMsg {
    pub work_id: String,
    pub revision: u64,
    pub status: Status,
    pub payload: ResultPayload,
}

#[derive(Debug, Clone, PartialEq)]
pub struct ResultPayload {
    /// The results tree, forwarded verbatim.
    pub results: Json,
}

/// Where a result stands in the life of its work unit.
#[derive(Debug, Clone, Copy, PartialEq, Eq, Structural)]
pub enum Status {
    Running,
    Complete,
    FatalError,
    ValidationError,
}

#[derive(Debug, Clone, PartialEq, Eq)]
pub struct Abort {
    pub work_id: String,
}

/// Frontend to orchestrator: a work unit is consumed forever. Closing an unknown or closed
/// work unit does nothing.
#[derive(Debug, Clone, PartialEq, Eq)]
pub struct WorkClose {
    pub work_id: String,
    /// Present: close this revision only. Absent: close every revision.
    pub revision: Option<u64>,
}

#[derive(Debug, Clone, PartialEq, Eq)]
pub struct ErrorMsg {
    pub code: String,
    pub message: String,
    pub work_id: Option<String>,
}

/// How a source file was read. The settings are baked into the cache at conversion: they
/// decide how numbers are parsed and when a column of integers is a scale.
#[derive(Debug, Clone, PartialEq, Eq)]
pub struct IngestParams {
    pub format: String,
    pub decimal_sep: char,
    pub thousands_sep: Option<char>,
    /// A column of integers with more distinct values than this is a scale.
    pub threshold: usize,
    /// The spellings that read as null; the empty one makes blank cells null.
    pub nulls: Vec<String>,
    /// Dictionaries of at most this many values are sorted by value.
    pub sort_limit: usize,
}

impl IngestParams {
    pub fn default_decimal_sep() -> (r: char)
        ensures
            r == '.',
    {
        '.'
    }

    pub fn default_threshold() -> (r: usize)
        ensures
            r == 10,
    {
        10
    }

    pub fn default_nulls() -> (r: Vec<String>)
        ensures
            texts(r@) == seq![""@, "NA"@, "NaN"@],
    {
        let mut r: Vec<String> = Vec::new();
        r.push("".to_string());
        r.push("NA".to_string());
        r.push("NaN".to_string());
        assert(texts(r@) =~= seq![""@, "NA"@, "NaN"@]);
        r
    }

    pub fn default_sort_limit() -> (r: usize)
        ensures
            r == 2000,
    {
        2000
    }
}

impl Default for IngestParams {
    fn default() -> (r: IngestParams)
        ensures
            r.format@ == ""@,
            r.decimal_sep == '.',
            r.thousands_sep is None,
            r.threshold == 10,
            texts(r.nulls@) == seq![""@, "NA"@, "NaN"@],
            r.sort_limit == 2000,
    {
        IngestParams {
            format: "".to_string(),
            decimal_sep: IngestParams::default_decimal_sep(),
            thousands_sep: None,
            threshold: IngestParams::default_threshold(),
            nulls: IngestParams::default_nulls(),
            sort_limit: IngestParams::default_sort_limit(),
        }
    }
}

/// Runner to orchestrator: what the runner can do.
#[derive(Debug, Clone, PartialEq)]
pub struct Register {
    /// A hint; the orchestrator assigns the id that counts.
    pub runner_id: Option<String>,
    pub capabilities: Vec<Capability>,
    /// Among runners that can do a work unit the one with the highest priority gets it.
    pub priority: u32,
    /// Hardware and runtime facts.
    pub environment: Json,
}

/// The routing key of one kind of work that a runner takes.
#[derive(Debug, Clone, PartialEq, Eq)]
pub enum Capability {
    /// Runs an analysis module of this name and version. A runner that vouches for the
    /// module's assets says where they are.
    Analysis { name: String, version: String, base_uri: Option<String> },
    /// Runs raw R code.
    Rcode,
    /// Does a data-plane operation; the formats matter for an open only.
    Data { op: DataOp, formats: Option<Vec<String>> },
}

/// The data-plane operations.
#[derive(Debug, Clone, Copy, PartialEq, Eq, Structural)]
pub enum DataOp {
    Open,
    Edit,
    Close,
    Update,
    View,
}

/// Orchestrator to runner: the answer to a registration.
#[derive(Debug, Clone, PartialEq, Eq)]
pub struct RegisterAck {
    pub ok: bool,
    pub runner_id: Option<String>,
    /// The channel the runner dials; all further traffic flows on it.
    pub channel_url: Option<String>,
    pub activity_min_interval_ms: Option<u64>,
    pub reason: Option<String>,
}

/// Frontend to orchestrator: the opening of a connection.
#[derive(Debug, Clone, PartialEq, Eq)]
pub struct Hello {
    pub client_id: Option<String>,
    pub client_version: Option<String>,
}

/// Orchestrator to frontend: the connection is accepted. The session id rides the envelope.
#[derive(Debug, Clone, PartialEq, Eq)]
pub struct Welcome {
    pub ok: bool,
    pub channel_url: Option<String>,
    pub error: Option<String>,
}

/// Runner to orchestrator: a sign of life during long work.
#[derive(Debug, Clone, PartialEq, Eq)]
pub struct Activity {
    pub work_id: Option<String>,
}

/// Runner to orchestrator: a graceful leave.
#[derive(Debug, Clone, PartialEq, Eq)]
pub struct Deregister {
    pub runner_id: String,
}

/// Orchestrator to frontend: the module catalog.
#[derive(Debug, Clone, PartialEq, Eq)]
pub struct ModulesMsg {
    pub modules: Vec<ModuleInfo>,
}

/// One discoverable module. The base URI ends in a slash.
#[derive(Debug, Clone, PartialEq, Eq, PartialOrd, Ord)]
pub struct ModuleInfo {
    pub name: String,
    pub version: String,
    pub base_uri: String,
}

/// The largest payload that rides inside a frame, in bytes.
pub const MAX_INLINE_PAYLOAD: usize = 67_108_864;

/// One edit of a dataset.
#[derive(Debug)]
pub enum EditOp {
    InsertBlock { row: u64, col: u64, target_schema: Option<Json> },
    InsertRows { at: u64, count: u64 },
    DeleteRows { at: u64, count: u64 },
    InsertCols { at: u64, columns: Vec<NewColumnSpec> },
    DeleteCols { at: u64, count: u64 },
    SchemaChange { target_schema: Json },
    ApplyInverse { inverse: InverseMeta },
}

/// A column to insert.
#[derive(Debug)]
pub struct NewColumnSpec {
    pub name: String,
    pub display_name: Option<String>,
    pub column_type: Option<String>,
    pub levels: Option<Vec<String>>,
}

/// The restore program of an edit; the frontend stores it verbatim.
#[derive(Debug, Clone)]
pub struct InverseMeta {
    pub format: String,
    /// The revision the edit was computed against.
    pub base_revision: u64,
    pub ops: Json,
}

/// The mathematical value of an [`InverseMeta`].
pub struct InverseMetaV {
    pub format: Seq<char>,
    pub base_revision: u64,
    pub ops: JsonV,
}

impl View for InverseMeta {
    type V = InverseMetaV;

    open spec fn view(&self) -> InverseMetaV {
        InverseMetaV { format: self.format@, base_revision: self.base_revision, ops: self.ops@ }
    }
}

/// What a frontend must fetch again after an edit.
#[derive(Debug, Clone, Copy, PartialEq, Eq)]
pub struct Invalidation {
    pub all: Option<bool>,
    pub rows_from: Option<u64>,
    pub rows_to: Option<u64>,
}

/// Everything is stale.
pub open spec fn all_stale() -> Invalidation {
    Invalidation { all: Some(true), rows_from: None, rows_to: None }
}

/// Why an edit was refused.
#[derive(Debug, Clone, PartialEq, Eq)]
pub struct ValidationIssue {
    pub column: Option<String>,
    pub code: String,
    pub message: String,
    pub count: Option<u64>,
    pub rows: Option<Vec<u64>>,
}

/// The mathematical value of a [`ValidationIssue`].
pub struct IssueV {
    pub column: Option<Seq<char>>,
    pub code: Seq<char>,
    pub message: Seq<char>,
    pub count: Option<u64>,
    pub rows: Option<Seq<u64>>,
}

/// The text of an optional string.
pub open spec fn opt_text(t: Option<String>) -> Option<Seq<char>> {
    match t {
        Some(s) => Some(s@),
        None => None,
    }
}

impl View for ValidationIssue {
    type V = IssueV;

    open spec fn view(&self) -> IssueV {
        IssueV {
            column: opt_text(self.column),
            code: self.code@,
            message: self.message@,
            count: self.count,
            rows: match self.rows {
                Some(v) => Some(v@),
                None => None,
            },
        }
    }
}

/// Why an edit did not land: a refusal with nothing applied, or a fault underneath.
#[derive(Debug, PartialEq, Eq)]
pub enum EditFailure {
    Validation(Vec<ValidationIssue>),
    Fatal(String),
}

/// The mathematical value of an [`EditFailure`].
#[verifier::ext_equal]
pub enum FailureV {
    Validation(Seq<IssueV>),
    Fatal(Seq<char>),
}

impl View for EditFailure {
    type V = FailureV;

    open spec fn view(&self) -> FailureV {
        match self {
            EditFailure::Validation(v) => FailureV::Validation(
                Seq::new(v@.len(), |i: int| v@[i]@),
            ),
            EditFailure::Fatal(m) => FailureV::Fatal(m@),
        }
    }
}

/// A refusal for one reason that names no column.
pub open spec fn refusal(code: Seq<char>, message: Seq<char>) -> FailureV {
    FailureV::Validation(seq![IssueV { column: None, code, message, count: None, rows: None }])
}

/// A refusal for one reason that names a column.
pub open spec fn column_refusal(
    column: Seq<char>,
    code: Seq<char>,
    message: Seq<char>,
) -> FailureV {
    FailureV::Validation(
        seq![IssueV { column: Some(column), code, message, count: None, rows: None }],
    )
}

/// A refusal for one reason, with the rows it concerns.
pub open spec fn rows_refusal(code: Seq<char>, message: Seq<char>, rows: Seq<u64>) -> FailureV {
    FailureV::Validation(
        seq![IssueV { column: None, code, message, count: None, rows: Some(rows) }],
    )
}

impl EditFailure {
    /// A fault underneath.
    pub fn fatal(msg: String) -> (r: EditFailure)
        ensures
            r@ == FailureV::Fatal(msg@),
    {
        EditFailure::Fatal(msg)
    }

    /// A fault underneath, with a fixed text.
    pub fn fault(msg: &str) -> (r: EditFailure)
        ensures
            r@ == FailureV::Fatal(msg@),
    {
        EditFailure::Fatal(msg.to_string())
    }

    /// A refusal for one reason that names no column.
    pub fn refused(code: &str, message: String) -> (r: EditFailure)
        ensures
            r@ == refusal(code@, message@),
    {
        let mut v: Vec<ValidationIssue> = Vec::new();
        v.push(issue(code, message));
        let r = EditFailure::Validation(v);
        assert(r@->Validation_0 =~= refusal(code@, message@)->Validation_0);
        r
    }

    /// A refusal for one reason that names a column.
    pub fn refused_column(column: &str, code: &str, message: String) -> (r: EditFailure)
        ensures
            r@ == column_refusal(column@, code@, message@),
    {
        let mut v: Vec<ValidationIssue> = Vec::new();
        v.push(
            ValidationIssue {
                column: Some(column.to_string()),
                code: code.to_string(),
                message,
                count: None,
                rows: None,
            },
        );
        let r = EditFailure::Validation(v);
        assert(r@->Validation_0 =~= column_refusal(column@, code@, message@)->Validation_0);
        r
    }

    /// A refusal for one reason, with the row it concerns.
    pub fn refused_row(code: &str, message: String, row: u64) -> (r: EditFailure)
        ensures
            r@ == rows_refusal(code@, message@, seq![row]),
    {
        let mut rows: Vec<u64> = Vec::new();
        rows.push(row);
        let mut v: Vec<ValidationIssue> = Vec::new();
        v.push(
            ValidationIssue {
                column: None,
                code: code.to_string(),
                message,
                count: None,
                rows: Some(rows),
            },
        );
        assert(rows@ =~= seq![row]);
        let r = EditFailure::Validation(v);
        assert(r@->Validation_0 =~= rows_refusal(code@, message@, seq![row])->Validation_0);
        r
    }
}

/// An issue that names no column.
pub fn issue(code: &str, message: String) -> (r: ValidationIssue)
    ensures
        r@ == (IssueV { column: None, code: code@, message: message@, count: None, rows: None }),
{
    ValidationIssue { column: None, code: code.to_string(), message, count: None, rows: None }
}

} // verus!
