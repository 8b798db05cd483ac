//! The messages that the orchestrator itself writes.
use vstd::prelude::*;
use vstd::string::*;
use crate::catalog::{copy_modules, module_views, ModuleV};
use crate::json::{json_object, json_text, no_members, put, Json, JsonV};
use crate::messages::{
    opt_text, Abort, Envelope, ErrorMsg, Message, ModuleInfo, ModulesMsg, RegisterAck, ResultMsg,
    ResultPayload, Status, Welcome,
};
use crate::text::{decimal, push_decimal};

verus! {

/// The mathematical value of an [`Envelope`].
#[verifier::ext_equal]
pub struct EnvelopeV {
    pub v: u32,
    pub id: Seq<char>,
    pub reply_to: Option<Seq<char>>,
    pub session: Option<Seq<char>>,
    pub ts: Option<u64>,
    pub body: BodyV,
}

/// The mathematical value of a message. One that the orchestrator only passes on stands for
/// itself.
pub enum BodyV {
    Given(Message),
    Outcome { work_id: Seq<char>, revision: u64, status: Status, results: JsonV },
    Abort { work_id: Seq<char> },
    Modules(Seq<ModuleV>),
    Pong,
    RegisterAck {
        ok: bool,
        runner_id: Option<Seq<char>>,
        channel_url: Option<Seq<char>>,
        interval: Option<u64>,
        reason: Option<Seq<char>>,
    },
    Welcome { ok: bool, channel_url: Option<Seq<char>>, error: Option<Seq<char>> },
    Fault { code: Seq<char>, message: Seq<char>, work_id: Option<Seq<char>> },
}

/// The value of a message.
pub open spec fn body_view(m: Message) -> BodyV {
    match m {
        Message::Result(r) => BodyV::Outcome {
            work_id: r.work_id@,
            revision: r.revision,
            status: r.status,
            results: r.payload.results@,
        },
        Message::Abort(a) => BodyV::Abort { work_id: a.work_id@ },
        Message::Modules(m) => BodyV::Modules(module_views(m.modules@)),
        Message::Pong => BodyV::Pong,
        Message::RegisterAck(a) => BodyV::RegisterAck {
            ok: a.ok,
            runner_id: opt_text(a.runner_id),
            channel_url: opt_text(a.channel_url),
            interval: a.activity_min_interval_ms,
            reason: opt_text(a.reason),
        },
        Message::Welcome(w) => BodyV::Welcome {
            ok: w.ok,
            channel_url: opt_text(w.channel_url),
            error: opt_text(w.error),
        },
        Message::Error(e) => BodyV::Fault {
            code: e.code@,
            message: e.message@,
            work_id: opt_text(e.work_id),
        },
        _ => BodyV::Given(m),
    }
}

impl View for Envelope {
    type V = EnvelopeV;

    open spec fn view(&self) -> EnvelopeV {
        EnvelopeV {
            v: self.v,
            id: self.id@,
            reply_to: opt_text(self.reply_to),
            session: opt_text(self.session_id),
            ts: self.ts,
            body: body_view(self.body),
        }
    }
}

/// A message of the orchestrator's own.
pub open spec fn own(
    id: Seq<char>,
    reply_to: Option<Seq<char>>,
    session: Option<Seq<char>>,
    body: BodyV,
) -> EnvelopeV {
    EnvelopeV { v: 1, id, reply_to, session, ts: None, body }
}

fn with_prefix(prefix: &str, rest: &str) -> (r: String)
    ensures
        r@ == prefix@ + rest@,
{
    let mut out = prefix.to_string();
    out.append(rest);
    out
}

/// A result of the orchestrator's own for a work unit.
fn result_envelope(
    id: String,
    work_id: &str,
    revision: u64,
    session_id: &str,
    status: Status,
    results: Json,
) -> (r: Envelope)
    ensures
        r@ == own(
            id@,
            None,
            Some(session_id@),
            BodyV::Outcome { work_id: work_id@, revision, status, results: results@ },
        ),
{
    Envelope {
        v: 1,
        id,
        reply_to: None,
        session_id: Some(session_id.to_string()),
        ts: None,
        body: Message::Result(
            ResultMsg {
                work_id: work_id.to_string(),
                revision,
                status,
                payload: ResultPayload { results },
            },
        ),
    }
}

/// Work is accepted and waits for a runner.
pub open spec fn running_envelope(work_id: Seq<char>, revision: u64, session: Seq<char>) -> EnvelopeV {
    own(
        "orch-running-"@ + work_id,
        None,
        Some(session),
        BodyV::Outcome {
            work_id,
            revision,
            status: Status::Running,
            results: JsonV::Object(
                Map::<Seq<char>, JsonV>::empty().insert(
                    "title"@,
                    JsonV::Str("provisioning a runner"@),
                ),
            ),
        },
    )
}

/// Acknowledges work that waits for a runner.
pub fn running_result(work_id: &str, revision: u64, session_id: &str) -> (r: Envelope)
    ensures
        r@ == running_envelope(work_id@, revision, session_id@),
{
    let mut o = no_members();
    put(&mut o, "title", json_text("provisioning a runner"));
    result_envelope(
        with_prefix("orch-running-", work_id),
        work_id,
        revision,
        session_id,
        Status::Running,
        json_object(o),
    )
}

/// Work failed for want of a runner; the detail is what the user reads.
pub open spec fn failed_envelope(
    work_id: Seq<char>,
    revision: u64,
    session: Seq<char>,
    detail: Seq<char>,
) -> EnvelopeV {
    own(
        "orch-norunner-"@ + work_id,
        None,
        Some(session),
        BodyV::Outcome {
            work_id,
            revision,
            status: Status::FatalError,
            results: JsonV::Object(
                Map::<Seq<char>, JsonV>::empty().insert("error"@, JsonV::Bool(true)).insert(
                    "errorMessage"@,
                    JsonV::Str(detail),
                ).insert("title"@, JsonV::Str("Analysis could not be completed"@)),
            ),
        },
    )
}

/// Tells a frontend that its work failed for want of a runner.
pub fn no_runner_result(work_id: &str, revision: u64, session_id: &str, detail: &str) -> (r:
    Envelope)
    ensures
        r@ == failed_envelope(work_id@, revision, session_id@, detail@),
{
    let mut o = no_members();
    put(&mut o, "error", Json::Bool(true));
    put(&mut o, "errorMessage", json_text(detail));
    put(&mut o, "title", json_text("Analysis could not be completed"));
    result_envelope(
        with_prefix("orch-norunner-", work_id),
        work_id,
        revision,
        session_id,
        Status::FatalError,
        json_object(o),
    )
}

/// An error on the control endpoint.
pub fn orch_err(reply_to: Option<&str>, code: &str, message: &str) -> (r: Envelope)
    ensures
        r@ == own(
            "orch-err"@,
            match reply_to {
                Some(t) => Some(t@),
                None => None,
            },
            None,
            BodyV::Fault { code: code@, message: message@, work_id: None },
        ),
{
    Envelope {
        v: 1,
        id: "orch-err".to_string(),
        reply_to: match reply_to {
            Some(t) => Some(t.to_string()),
            None => None,
        },
        session_id: None,
        ts: None,
        body: Message::Error(
            ErrorMsg { code: code.to_string(), message: message.to_string(), work_id: None },
        ),
    }
}

/// What the control endpoint makes of a message.
pub enum Handshake {
    /// A runner registers.
    Register,
    /// A frontend connects.
    Hello,
    /// Anything else is answered with an error.
    Neither(Envelope),
}

/// Reads a message on the control endpoint, which carries the handshake only.
pub fn read_handshake(env: &Envelope) -> (r: Handshake)
    ensures
        match env.body {
            Message::Register(_) => r is Register,
            Message::Hello(_) => r is Hello,
            _ => r is Neither && r->Neither_0@ == own(
                "orch-err"@,
                Some(env.id@),
                None,
                BodyV::Fault {
                    code: "unexpected_on_control"@,
                    message: "control endpoint carries only the handshake"@,
                    work_id: None,
                },
            ),
        },
{
    match &env.body {
        Message::Register(_) => Handshake::Register,
        Message::Hello(_) => Handshake::Hello,
        _ => Handshake::Neither(
            orch_err(
                Some(env.id.as_str()),
                "unexpected_on_control",
                "control endpoint carries only the handshake",
            ),
        ),
    }
}

/// A request to stop a work unit.
pub open spec fn abort_envelope(session: Seq<char>, work_id: Seq<char>) -> EnvelopeV {
    own("orch-abort-"@ + work_id, None, Some(session), BodyV::Abort { work_id })
}

/// Asks a runner to stop a work unit.
pub fn make_abort(session_id: &str, work_id: &str) -> (r: Envelope)
    ensures
        r@ == abort_envelope(session_id@, work_id@),
{
    Envelope {
        v: 1,
        id: with_prefix("orch-abort-", work_id),
        reply_to: None,
        session_id: Some(session_id.to_string()),
        ts: None,
        body: Message::Abort(Abort { work_id: work_id.to_string() }),
    }
}

/// The answer to a ping.
pub open spec fn pong_envelope(id: Seq<char>, session: Seq<char>) -> EnvelopeV {
    own("orch-pong-"@ + id, Some(id), Some(session), BodyV::Pong)
}

/// Answers a ping.
pub fn make_pong(id: &str, session_id: &str) -> (r: Envelope)
    ensures
        r@ == pong_envelope(id@, session_id@),
{
    Envelope {
        v: 1,
        id: with_prefix("orch-pong-", id),
        reply_to: Some(id.to_string()),
        session_id: Some(session_id.to_string()),
        ts: None,
        body: Message::Pong,
    }
}

/// The catalog, as an answer or as news.
pub open spec fn modules_message(
    catalog: Seq<ModuleV>,
    reply_to: Option<Seq<char>>,
    session: Option<Seq<char>>,
    now: u64,
) -> EnvelopeV {
    own("orch-modules-"@ + decimal(now as nat), reply_to, session, BodyV::Modules(catalog))
}

/// Tells a frontend the catalog.
pub fn modules_envelope(
    catalog: &Vec<ModuleInfo>,
    reply_to: Option<&str>,
    session_id: Option<&str>,
    now: u64,
) -> (r: Envelope)
    ensures
        r@ == modules_message(
            module_views(catalog@),
            match reply_to {
                Some(t) => Some(t@),
                None => None,
            },
            match session_id {
                Some(t) => Some(t@),
                None => None,
            },
            now,
        ),
{
    let mut id = "orch-modules-".to_string();
    push_decimal(&mut id, now);
    Envelope {
        v: 1,
        id,
        reply_to: match reply_to {
            Some(t) => Some(t.to_string()),
            None => None,
        },
        session_id: match session_id {
            Some(t) => Some(t.to_string()),
            None => None,
        },
        ts: None,
        body: Message::Modules(ModulesMsg { modules: copy_modules(catalog) }),
    }
}

/// A registration is accepted: the runner's id and its channel.
pub fn register_ack(runner_id: &str, channel_url: &str, interval: u64, reply_to: &str) -> (r:
    Envelope)
    ensures
        r@ == own(
            "orch-ack-"@ + runner_id@,
            Some(reply_to@),
            None,
            BodyV::RegisterAck {
                ok: true,
                runner_id: Some(runner_id@),
                channel_url: Some(channel_url@),
                interval: Some(interval),
                reason: None,
            },
        ),
{
    Envelope {
        v: 1,
        id: with_prefix("orch-ack-", runner_id),
        reply_to: Some(reply_to.to_string()),
        session_id: None,
        ts: None,
        body: Message::RegisterAck(
            RegisterAck {
                ok: true,
                runner_id: Some(runner_id.to_string()),
                channel_url: Some(channel_url.to_string()),
                activity_min_interval_ms: Some(interval),
                reason: None,
            },
        ),
    }
}

/// A registration that is refused.
pub open spec fn register_refusal(reason: Seq<char>, reply_to: Seq<char>) -> EnvelopeV {
    own(
        "orch-ack-err"@,
        Some(reply_to),
        None,
        BodyV::RegisterAck {
            ok: false,
            runner_id: None,
            channel_url: None,
            interval: None,
            reason: if reason.len() == 0 {
                None
            } else {
                Some(reason)
            },
        },
    )
}

/// Refuses a registration.
pub fn refuse_register(reason: &str, reply_to: &str) -> (r: Envelope)
    ensures
        r@ == register_refusal(reason@, reply_to@),
{
    Envelope {
        v: 1,
        id: "orch-ack-err".to_string(),
        reply_to: Some(reply_to.to_string()),
        session_id: None,
        ts: None,
        body: Message::RegisterAck(
            RegisterAck {
                ok: false,
                runner_id: None,
                channel_url: None,
                activity_min_interval_ms: None,
                reason: if reason.unicode_len() == 0 {
                    None
                } else {
                    Some(reason.to_string())
                },
            },
        ),
    }
}

/// A frontend is accepted: its session and its channel.
pub fn welcome(session_id: &str, channel_url: &str, reply_to: &str) -> (r: Envelope)
    ensures
        r@ == own(
            "orch-welcome-"@ + session_id@,
            Some(reply_to@),
            Some(session_id@),
            BodyV::Welcome { ok: true, channel_url: Some(channel_url@), error: None },
        ),
{
    Envelope {
        v: 1,
        id: with_prefix("orch-welcome-", session_id),
        reply_to: Some(reply_to.to_string()),
        session_id: Some(session_id.to_string()),
        ts: None,
        body: Message::Welcome(
            Welcome { ok: true, channel_url: Some(channel_url.to_string()), error: None },
        ),
    }
}

/// A frontend that is refused.
pub open spec fn welcome_refusal(error: Seq<char>, reply_to: Seq<char>) -> EnvelopeV {
    own(
        "orch-welcome-err"@,
        Some(reply_to),
        None,
        BodyV::Welcome { ok: false, channel_url: None, error: Some(error) },
    )
}

/// Refuses a frontend.
pub fn refuse_hello(error: &str, reply_to: &str) -> (r: Envelope)
    ensures
        r@ == welcome_refusal(error@, reply_to@),
{
    Envelope {
        v: 1,
        id: "orch-welcome-err".to_string(),
        reply_to: Some(reply_to.to_string()),
        session_id: None,
        ts: None,
        body: Message::Welcome(
            Welcome { ok: false, channel_url: None, error: Some(error.to_string()) },
        ),
    }
}

} // verus!
