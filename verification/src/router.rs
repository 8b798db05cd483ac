//! The router: what the orchestrator knows of its peers and their work, and what it does on
//! each event. The outside work (sending, listening, deleting) is handed out as actions.
use vstd::prelude::*;
use vstd::string::*;
use crate::catalog::{
    advertised, analysis_names, arrange, arranged, cap_views, copy_modules, lemma_merged_add,
    list_analyses, merge_ads, merged, module_views, same_modules, CapV, ModuleV,
};
use crate::config::{path_below, results_dir, Config};
use crate::envelopes::{
    abort_envelope, failed_envelope, make_abort, make_pong, modules_envelope, modules_message,
    no_runner_result, pong_envelope, refuse_hello, refuse_register, register_refusal,
    running_envelope, running_result, welcome_refusal, EnvelopeV,
};
use crate::json::{json_object, members, no_members, put, Json, JsonV};
use crate::messages::{Capability, DataOp, Envelope, Message, ModuleInfo, Status, Work, WorkPayload};
use crate::router_laws::{
    law_closing_keeps_consistent, law_disconnection_keeps_consistent, law_eviction_keeps_consistent,
    law_frontend_keeps_consistent, law_handing_out_keeps_consistent, law_lapse_keeps_consistent,
    law_registration_keeps_consistent, law_runner_keeps_consistent, lemma_runner_at,
    lemma_same_runners,
};
use crate::text::{contains_text, decimal, push_decimal, same, texts};

verus! {

/// A registered runner.
pub struct Runner {
    pub runner_id: String,
    pub capabilities: Vec<Capability>,
    pub priority: u32,
    /// Counts registrations; later runners have higher numbers.
    pub seq: u64,
    pub last_activity: u64,
    pub outstanding: usize,
}

/// The mathematical value of a [`Runner`].
#[verifier::ext_equal]
pub struct RunnerV {
    pub id: Seq<char>,
    pub caps: Seq<CapV>,
    pub priority: u32,
    pub seq: u64,
    pub last_activity: u64,
    pub outstanding: usize,
}

impl View for Runner {
    type V = RunnerV;

    open spec fn view(&self) -> RunnerV {
        RunnerV {
            id: self.runner_id@,
            caps: cap_views(self.capabilities@),
            priority: self.priority,
            seq: self.seq,
            last_activity: self.last_activity,
            outstanding: self.outstanding,
        }
    }
}

/// The values of a list of runners.
pub open spec fn runner_views(v: Seq<Runner>) -> Seq<RunnerV> {
    Seq::new(v.len(), |i: int| v[i]@)
}

/// Where a work unit runs, and which revision of it.
pub struct WorkRoute {
    pub session_id: String,
    pub work_id: String,
    pub runner_id: String,
    pub revision: u64,
}

/// The mathematical value of a [`WorkRoute`].
#[verifier::ext_equal]
pub struct RouteV {
    pub session: Seq<char>,
    pub work_id: Seq<char>,
    pub runner: Seq<char>,
    pub revision: u64,
}

impl View for WorkRoute {
    type V = RouteV;

    open spec fn view(&self) -> RouteV {
        RouteV {
            session: self.session_id@,
            work_id: self.work_id@,
            runner: self.runner_id@,
            revision: self.revision,
        }
    }
}

/// The values of a list of routes.
pub open spec fn route_views(v: Seq<WorkRoute>) -> Seq<RouteV> {
    Seq::new(v.len(), |i: int| v[i]@)
}

/// A work unit that waits for a runner.
pub struct ParkedWork {
    pub session_id: String,
    pub work_id: String,
    pub revision: u64,
    pub module: String,
    pub env: Envelope,
    pub parked_ms: u64,
}

/// The mathematical value of a [`ParkedWork`]. The message stands for itself.
pub struct ParkedV {
    pub session: Seq<char>,
    pub work_id: Seq<char>,
    pub revision: u64,
    pub module: Seq<char>,
    pub env: Envelope,
    pub parked_ms: u64,
}

impl View for ParkedWork {
    type V = ParkedV;

    open spec fn view(&self) -> ParkedV {
        ParkedV {
            session: self.session_id@,
            work_id: self.work_id@,
            revision: self.revision,
            module: self.module@,
            env: self.env,
            parked_ms: self.parked_ms,
        }
    }
}

/// The values of a list of waiting work units.
pub open spec fn parked_views(v: Seq<ParkedWork>) -> Seq<ParkedV> {
    Seq::new(v.len(), |i: int| v[i]@)
}

/// What is to be done outside.
pub enum Action {
    /// Send to a frontend; a failure is tolerated.
    ToFrontend { session_id: String, env: Envelope },
    /// Send to a runner, with further members beside those of the message. Where `evict` is
    /// set, a failure evicts the runner.
    ToRunner { runner_id: String, env: Envelope, fields: Vec<(String, Json)>, evict: bool },
    /// Ask for a runner that takes work for a module.
    Provision { module: String, version: String },
    /// A runner registered that takes work for these modules.
    RunnerUp { modules: Vec<String> },
    /// A runner is gone that took work for these modules.
    RunnerGone { modules: Vec<String> },
    /// Delete a directory.
    Reclaim { path: String },
}

/// The mathematical value of an [`Action`].
pub enum ActionV {
    ToFrontend { session: Seq<char>, env: EnvelopeV },
    ToRunner {
        runner: Seq<char>,
        env: EnvelopeV,
        fields: Map<Seq<char>, JsonV>,
        evict: bool,
    },
    Provision { module: Seq<char>, version: Seq<char> },
    RunnerUp { modules: Seq<Seq<char>> },
    RunnerGone { modules: Seq<Seq<char>> },
    Reclaim { path: Seq<char> },
}

impl View for Action {
    type V = ActionV;

    open spec fn view(&self) -> ActionV {
        match self {
            Action::ToFrontend { session_id, env } => ActionV::ToFrontend {
                session: session_id@,
                env: env@,
            },
            Action::ToRunner { runner_id, env, fields, evict } => ActionV::ToRunner {
                runner: runner_id@,
                env: env@,
                fields: members(fields@),
                evict: *evict,
            },
            Action::Provision { module, version } => ActionV::Provision {
                module: module@,
                version: version@,
            },
            Action::RunnerUp { modules } => ActionV::RunnerUp { modules: texts(modules@) },
            Action::RunnerGone { modules } => ActionV::RunnerGone { modules: texts(modules@) },
            Action::Reclaim { path } => ActionV::Reclaim { path: path@ },
        }
    }
}

/// The values of a list of actions.
pub open spec fn action_views(v: Seq<Action>) -> Seq<ActionV> {
    Seq::new(v.len(), |i: int| v[i]@)
}

/// The state of the orchestrator.
pub struct Router {
    pub runners: Vec<Runner>,
    pub frontends: Vec<String>,
    pub work: Vec<WorkRoute>,
    pub parked: Vec<ParkedWork>,
    pub counter: u64,
    pub ever_registered: bool,
    pub config: Config,
    /// Runners are started on demand.
    pub provisions: bool,
    pub park_timeout_ms: u64,
    pub libset_modules: Vec<ModuleInfo>,
    pub catalog: Vec<ModuleInfo>,
}

/// The mathematical value of a [`Router`].
#[verifier::ext_equal]
pub struct RouterV {
    pub runners: Seq<RunnerV>,
    pub frontends: Seq<Seq<char>>,
    pub work: Seq<RouteV>,
    pub parked: Seq<ParkedV>,
    pub counter: u64,
    pub ever_registered: bool,
    pub config: Config,
    pub provisions: bool,
    pub park_timeout_ms: u64,
    pub libset: Seq<ModuleV>,
    pub catalog: Seq<ModuleV>,
}

impl View for Router {
    type V = RouterV;

    open spec fn view(&self) -> RouterV {
        RouterV {
            runners: runner_views(self.runners@),
            frontends: texts(self.frontends@),
            work: route_views(self.work@),
            parked: parked_views(self.parked@),
            counter: self.counter,
            ever_registered: self.ever_registered,
            config: self.config,
            provisions: self.provisions,
            park_timeout_ms: self.park_timeout_ms,
            libset: module_views(self.libset_modules@),
            catalog: module_views(self.catalog@),
        }
    }
}

/// A step of the router: the state after it, and what is to be done outside.
pub struct Step {
    pub state: RouterV,
    pub actions: Seq<ActionV>,
}

/// A step that changes nothing.
pub open spec fn idle(s: RouterV) -> Step {
    Step { state: s, actions: Seq::empty() }
}

/// The work unit that a message carries.
pub open spec fn work_of(env: Envelope) -> Work {
    env.body->Work_0
}

/// The place of a work unit among the routes.
pub open spec fn route_at(work: Seq<RouteV>, session: Seq<char>, work_id: Seq<char>) -> Option<nat>
    decreases work.len(),
{
    if work.len() == 0 {
        None
    } else if work.last().session == session && work.last().work_id == work_id {
        Some((work.len() - 1) as nat)
    } else {
        route_at(work.drop_last(), session, work_id)
    }
}

/// The place of a work unit among those that wait.
pub open spec fn parked_at(p: Seq<ParkedV>, session: Seq<char>, work_id: Seq<char>) -> Option<nat>
    decreases p.len(),
{
    if p.len() == 0 {
        None
    } else if p.last().session == session && p.last().work_id == work_id {
        Some((p.len() - 1) as nat)
    } else {
        parked_at(p.drop_last(), session, work_id)
    }
}

/// The place of a runner.
pub open spec fn runner_at(rs: Seq<RunnerV>, id: Seq<char>) -> Option<nat>
    decreases rs.len(),
{
    if rs.len() == 0 {
        None
    } else if rs.last().id == id {
        Some((rs.len() - 1) as nat)
    } else {
        runner_at(rs.drop_last(), id)
    }
}

/// A capability covers a work unit: an analysis by its module, in any version, R code in any
/// case, and data work by its operation, an open by its format too.
pub open spec fn covers(c: CapV, p: WorkPayload) -> bool {
    match (c, p) {
        (CapV::Analysis { name, .. }, WorkPayload::Analysis(a)) => name == a.module@,
        (CapV::Rcode, WorkPayload::Rcode(_)) => true,
        (CapV::Data { op, formats }, WorkPayload::Data(d)) => op == d.op && (d.op is Open ==> (
        formats is Some && formats->0.contains(d.format@))),
        _ => false,
    }
}

/// Some capability covers a work unit.
pub open spec fn can_serve(caps: Seq<CapV>, p: WorkPayload) -> bool {
    exists|i: int| 0 <= i < caps.len() && covers(#[trigger] caps[i], p)
}

/// A capability covers a work unit in the very version that it asks for. Only analyses ask for
/// one.
pub open spec fn covers_exactly(c: CapV, p: WorkPayload) -> bool {
    covers(c, p) && match (c, p) {
        (CapV::Analysis { version, .. }, WorkPayload::Analysis(a)) => version == a.module_version@,
        _ => true,
    }
}

/// Some capability covers a work unit in the version that it asks for.
pub open spec fn serves_exactly(caps: Seq<CapV>, p: WorkPayload) -> bool {
    exists|i: int| 0 <= i < caps.len() && covers_exactly(#[trigger] caps[i], p)
}

/// A runner is preferred to another one for a work unit: by the version, then by priority, then
/// by the later registration.
pub open spec fn preferred(a: RunnerV, b: RunnerV, p: WorkPayload) -> bool {
    let x = serves_exactly(a.caps, p);
    let y = serves_exactly(b.caps, p);
    (x && !y) || (x == y && (a.priority > b.priority || (a.priority == b.priority && a.seq
        >= b.seq)))
}

/// The runner that gets a work unit: of those that can do it, the preferred one.
pub open spec fn selected(rs: Seq<RunnerV>, p: WorkPayload) -> Option<nat>
    decreases rs.len(),
{
    if rs.len() == 0 {
        None
    } else {
        let k = (rs.len() - 1) as nat;
        match selected(rs.drop_last(), p) {
            Some(i) => if can_serve(rs.last().caps, p) && preferred(
                rs.last(),
                rs[i as int],
                p,
            ) {
                Some(k)
            } else {
                Some(i)
            },
            None => if can_serve(rs.last().caps, p) {
                Some(k)
            } else {
                None
            },
        }
    }
}

/// The advertisements of all runners, in the order of their registration.
pub open spec fn all_ads(rs: Seq<RunnerV>) -> Seq<ModuleV>
    decreases rs.len(),
{
    if rs.len() == 0 {
        Seq::empty()
    } else {
        all_ads(rs.drop_last()) + advertised(rs.last().caps)
    }
}

/// The catalog: the modules of the library paths, and the runners' advertisements of others.
pub open spec fn catalog_of(libset: Seq<ModuleV>, rs: Seq<RunnerV>) -> Seq<ModuleV> {
    arranged(merged(libset, all_ads(rs)))
}

/// The catalog goes to every frontend.
pub open spec fn catalog_news(frontends: Seq<Seq<char>>, catalog: Seq<ModuleV>, now: u64) -> Seq<
    ActionV,
> {
    Seq::new(
        frontends.len(),
        |i: int|
            ActionV::ToFrontend {
                session: frontends[i],
                env: modules_message(catalog, None, None, now),
            },
    )
}

/// Computes the catalog again; frontends hear of it only where it changed.
pub open spec fn recomputed(s: RouterV, now: u64) -> Step {
    let c = catalog_of(s.libset, s.runners);
    if c == s.catalog {
        idle(s)
    } else {
        Step {
            state: RouterV { catalog: c, ..s },
            actions: catalog_news(s.frontends, c, now),
        }
    }
}

/// One outstanding work unit more.
pub open spec fn busier(r: RunnerV) -> RunnerV {
    RunnerV { outstanding: wrapping_next(r.outstanding), ..r }
}

/// The next count; the largest one is followed by zero.
pub open spec fn wrapping_next(n: usize) -> usize {
    if n == usize::MAX {
        0
    } else {
        (n + 1) as usize
    }
}

/// One outstanding work unit less, if there is one.
pub open spec fn freer(r: RunnerV) -> RunnerV {
    RunnerV {
        outstanding: if r.outstanding > 0 {
            (r.outstanding - 1) as usize
        } else {
            0
        },
        ..r
    }
}

/// A runner's outstanding work units are one less.
pub open spec fn released(rs: Seq<RunnerV>, id: Seq<char>) -> Seq<RunnerV> {
    match runner_at(rs, id) {
        Some(i) => rs.update(i as int, freer(rs[i as int])),
        None => rs,
    }
}

/// The members that work carries to a runner: the dataset, the directory of this revision's
/// results, and that of the revision that seeds it.
pub open spec fn work_fields(config: Config, session: Seq<char>, w: Work) -> Map<
    Seq<char>,
    JsonV,
> {
    let root = config.orchestrator_dir_root@;
    let base = Map::<Seq<char>, JsonV>::empty().insert(
        "dataset_paths"@,
        JsonV::Object(
            Map::<Seq<char>, JsonV>::empty().insert(
                "ds-001"@,
                JsonV::Str(config.dataset_path@),
            ),
        ),
    ).insert("output_dir"@, JsonV::Str(results_dir(root, session, w.work_id@, w.revision)));
    match w.base_revision {
        Some(b) => base.insert(
            "base_results_dir"@,
            JsonV::Str(results_dir(root, session, w.work_id@, b)),
        ),
        None => base,
    }
}

/// The routes with one more; it takes the place of an older one for the same work unit.
pub open spec fn with_route(work: Seq<RouteV>, r: RouteV) -> Seq<RouteV> {
    match route_at(work, r.session, r.work_id) {
        Some(i) => work.update(i as int, r),
        None => work.push(r),
    }
}

/// A work unit goes to a runner: the session is stamped, the route recorded.
pub open spec fn dispatched(s: RouterV, i: int, session: Seq<char>, env: Envelope) -> Step {
    let w = work_of(env);
    Step {
        state: RouterV {
            runners: s.runners.update(i, busier(s.runners[i])),
            work: with_route(
                s.work,
                RouteV {
                    session,
                    work_id: w.work_id@,
                    runner: s.runners[i].id,
                    revision: w.revision,
                },
            ),
            ..s
        },
        actions: seq![
            ActionV::ToRunner {
                runner: s.runners[i].id,
                env: EnvelopeV { session: Some(session), ..env@ },
                fields: work_fields(s.config, session, w),
                evict: true,
            },
        ],
    }
}

/// What the user reads where no runner can do a work unit.
pub open spec fn no_runner_detail(p: WorkPayload) -> Seq<char> {
    match p {
        WorkPayload::Analysis(a) => "No runner is available to run analyses from module '"@
            + a.module@ + "'."@,
        WorkPayload::Rcode(_) => "No runner is available to run R code."@,
        WorkPayload::Data(_) => "No runner is available to do data work."@,
    }
}

/// A work unit waits. A newer revision takes the place of an older one; any other repeat is
/// only acknowledged. A runner is asked for once.
pub open spec fn parks(s: RouterV, session: Seq<char>, env: Envelope, now: u64) -> Step {
    let w = work_of(env);
    let a = w.payload->Analysis_0;
    let ack = ActionV::ToFrontend {
        session,
        env: running_envelope(w.work_id@, w.revision, session),
    };
    match parked_at(s.parked, session, w.work_id@) {
        Some(i) => {
            let old_one = s.parked[i as int];
            Step {
                state: if w.revision > old_one.revision {
                    RouterV {
                        parked: s.parked.update(
                            i as int,
                            ParkedV { env, revision: w.revision, ..old_one },
                        ),
                        ..s
                    }
                } else {
                    s
                },
                actions: seq![ack],
            }
        },
        None => Step {
            state: RouterV {
                parked: s.parked.push(
                    ParkedV {
                        session,
                        work_id: w.work_id@,
                        revision: w.revision,
                        module: a.module@,
                        env,
                        parked_ms: now,
                    },
                ),
                ..s
            },
            actions: seq![
                ack,
                ActionV::Provision { module: a.module@, version: a.module_version@ },
            ],
        },
    }
}

/// No runner can do a work unit. Where runners are started on demand, an analysis waits for
/// one. Otherwise the frontend hears of it, unless no runner ever registered.
pub open spec fn missed(s: RouterV, session: Seq<char>, env: Envelope, now: u64) -> Step {
    let w = work_of(env);
    if s.provisions && w.payload is Analysis {
        parks(s, session, env, now)
    } else if s.ever_registered {
        Step {
            state: s,
            actions: seq![
                ActionV::ToFrontend {
                    session,
                    env: failed_envelope(
                        w.work_id@,
                        w.revision,
                        session,
                        no_runner_detail(w.payload),
                    ),
                },
            ],
        }
    } else {
        idle(s)
    }
}

/// Work from a frontend.
pub open spec fn routed_work(s: RouterV, session: Seq<char>, env: Envelope, now: u64) -> Step {
    match selected(s.runners, work_of(env).payload) {
        Some(i) => dispatched(s, i as int, session, env),
        None => missed(s, session, env, now),
    }
}

/// The first waiting work unit for one of some modules that a runner can do.
pub open spec fn first_ready(s: RouterV, modules: Seq<Seq<char>>, k: nat) -> Option<nat>
    decreases k,
{
    if k == 0 {
        None
    } else {
        match first_ready(s, modules, (k - 1) as nat) {
            Some(i) => Some(i),
            None => if modules.contains(s.parked[k - 1].module) && selected(
                s.runners,
                work_of(s.parked[k - 1].env).payload,
            ) is Some {
                Some((k - 1) as nat)
            } else {
                None
            },
        }
    }
}

/// A waiting work unit goes to a runner.
pub open spec fn unparked(s: RouterV, i: int) -> Step {
    let p = s.parked[i];
    let rest = RouterV { parked: s.parked.remove(i), ..s };
    dispatched(
        rest,
        selected(s.runners, work_of(p.env).payload)->0 as int,
        p.session,
        p.env,
    )
}

/// Why waiting work fails.
pub enum Lapse<'a> {
    /// No runner can be started for a module.
    Module { module: &'a str, reason: &'a str },
    /// The time is up.
    Timeout { now: u64, limit: u64 },
}

/// Waiting work fails.
pub open spec fn lapses(p: ParkedV, l: Lapse) -> bool {
    match l {
        Lapse::Module { module, .. } => p.module == module@,
        Lapse::Timeout { now, limit } => now > p.parked_ms && now - p.parked_ms > limit,
    }
}

/// What the user reads where waiting work fails.
pub open spec fn lapse_detail(p: ParkedV, l: Lapse) -> Seq<char> {
    match l {
        Lapse::Module { module, reason } => "Could not start a runner for module '"@ + module@
            + "': "@ + reason@,
        Lapse::Timeout { .. } => "Timed out waiting for a runner for module '"@ + p.module + "'."@,
    }
}

/// The waiting work that does not fail.
pub open spec fn still_parked(p: Seq<ParkedV>, l: Lapse) -> Seq<ParkedV>
    decreases p.len(),
{
    if p.len() == 0 {
        Seq::empty()
    } else if lapses(p.last(), l) {
        still_parked(p.drop_last(), l)
    } else {
        still_parked(p.drop_last(), l).push(p.last())
    }
}

/// Frontends hear of waiting work that fails.
pub open spec fn lapse_news(p: Seq<ParkedV>, l: Lapse) -> Seq<ActionV>
    decreases p.len(),
{
    if p.len() == 0 {
        Seq::empty()
    } else if lapses(p.last(), l) {
        lapse_news(p.drop_last(), l).push(
            ActionV::ToFrontend {
                session: p.last().session,
                env: failed_envelope(
                    p.last().work_id,
                    p.last().revision,
                    p.last().session,
                    lapse_detail(p.last(), l),
                ),
            },
        )
    } else {
        lapse_news(p.drop_last(), l)
    }
}

/// Waiting work fails back to its frontends.
pub open spec fn lapsed(s: RouterV, l: Lapse) -> Step {
    Step {
        state: RouterV { parked: still_parked(s.parked, l), ..s },
        actions: lapse_news(s.parked, l),
    }
}

/// A work unit is done with this status.
pub open spec fn is_final(s: Status) -> bool {
    !(s is Running)
}

/// A result from a runner. One for unknown work or for an older revision is dropped; a final
/// one ends the route.
pub open spec fn routed_result(s: RouterV, env: Envelope) -> Step {
    let r = env.body->Result_0;
    let session = match env.session_id {
        Some(t) => t@,
        None => Seq::empty(),
    };
    match route_at(s.work, session, r.work_id@) {
        None => idle(s),
        Some(i) => if r.revision < s.work[i as int].revision {
            idle(s)
        } else {
            Step {
                state: if is_final(r.status) {
                    RouterV { work: s.work.remove(i as int), ..s }
                } else {
                    s
                },
                actions: seq![ActionV::ToFrontend { session, env: env@ }],
            }
        },
    }
}

/// A message from a runner.
pub open spec fn runner_said(s: RouterV, id: Seq<char>, env: Envelope) -> Step {
    match env.body {
        Message::Result(r) => routed_result(
            if is_final(r.status) {
                RouterV { runners: released(s.runners, id), ..s }
            } else {
                s
            },
            env,
        ),
        _ => idle(s),
    }
}

/// An abort from a frontend goes to the runner that has the work.
pub open spec fn routed_abort(s: RouterV, session: Seq<char>, work_id: Seq<char>) -> Step {
    match route_at(s.work, session, work_id) {
        None => idle(s),
        Some(i) => Step {
            state: s,
            actions: seq![
                ActionV::ToRunner {
                    runner: s.work[i as int].runner,
                    env: abort_envelope(session, work_id),
                    fields: Map::empty(),
                    evict: true,
                },
            ],
        },
    }
}

/// A route ends and its runner is told to stop.
pub open spec fn stopped(s: RouterV, i: int) -> Step {
    let r = s.work[i];
    Step {
        state: RouterV {
            work: s.work.remove(i),
            runners: released(s.runners, r.runner),
            ..s
        },
        actions: seq![
            ActionV::ToRunner {
                runner: r.runner,
                env: abort_envelope(r.session, r.work_id),
                fields: Map::empty(),
                evict: false,
            },
        ],
    }
}

/// A step with a directory to delete, unless workspaces are kept.
pub open spec fn reclaiming(x: Step, path: Seq<char>) -> Step {
    if x.state.config.keep_workspaces {
        x
    } else {
        Step { actions: x.actions.push(ActionV::Reclaim { path }), ..x }
    }
}

/// A work unit that waits does not wait any longer, where it, or the revision that waits, is
/// closed.
pub open spec fn forgotten(
    s: RouterV,
    session: Seq<char>,
    work_id: Seq<char>,
    revision: Option<u64>,
) -> RouterV {
    match parked_at(s.parked, session, work_id) {
        Some(i) => if revision is None || s.parked[i as int].revision == revision->0 {
            RouterV { parked: s.parked.remove(i as int), ..s }
        } else {
            s
        },
        None => s,
    }
}

/// A frontend closes a work unit, or one revision of it. Work that runs is stopped and work
/// that waits is forgotten, where it is the revision that is closed.
pub open spec fn closed(
    s: RouterV,
    session: Seq<char>,
    work_id: Seq<char>,
    revision: Option<u64>,
) -> Step {
    let s = forgotten(s, session, work_id, revision);
    let root = s.config.orchestrator_dir_root@;
    let at = route_at(s.work, session, work_id);
    match revision {
        Some(rev) => reclaiming(
            if at is Some && s.work[at->0 as int].revision == rev {
                stopped(s, at->0 as int)
            } else {
                idle(s)
            },
            results_dir(root, session, work_id, rev),
        ),
        None => reclaiming(
            if at is Some {
                stopped(s, at->0 as int)
            } else {
                idle(s)
            },
            path_below(path_below(root, session), work_id),
        ),
    }
}

/// A message from a frontend.
pub open spec fn frontend_said(s: RouterV, session: Seq<char>, env: Envelope, now: u64) -> Step {
    match env.body {
        Message::Work(_) => routed_work(s, session, env, now),
        Message::Abort(a) => routed_abort(s, session, a.work_id@),
        Message::WorkClose(c) => closed(s, session, c.work_id@, c.revision),
        Message::ListModules => Step {
            state: s,
            actions: seq![
                ActionV::ToFrontend {
                    session,
                    env: modules_message(s.catalog, Some(env.id@), Some(session), now),
                },
            ],
        },
        Message::Ping => Step {
            state: s,
            actions: seq![
                ActionV::ToFrontend { session, env: pong_envelope(env.id@, session) },
            ],
        },
        _ => idle(s),
    }
}

/// The routes that do not lead to a runner.
pub open spec fn routes_elsewhere(work: Seq<RouteV>, id: Seq<char>) -> Seq<RouteV>
    decreases work.len(),
{
    if work.len() == 0 {
        Seq::empty()
    } else if work.last().runner == id {
        routes_elsewhere(work.drop_last(), id)
    } else {
        routes_elsewhere(work.drop_last(), id).push(work.last())
    }
}

/// Frontends hear of the work that a runner takes with it.
pub open spec fn crash_news(work: Seq<RouteV>, id: Seq<char>) -> Seq<ActionV>
    decreases work.len(),
{
    if work.len() == 0 {
        Seq::empty()
    } else if work.last().runner == id {
        crash_news(work.drop_last(), id).push(
            ActionV::ToFrontend {
                session: work.last().session,
                env: failed_envelope(
                    work.last().work_id,
                    work.last().revision,
                    work.last().session,
                    "A fatal crash occurred while running the analysis (the runner stopped unexpectedly)."@,
                ),
            },
        )
    } else {
        crash_news(work.drop_last(), id)
    }
}

/// The provisioner hears of a runner that is gone.
pub open spec fn gone_news(s: RouterV, caps: Seq<CapV>) -> Seq<ActionV> {
    if s.provisions && analysis_names(caps).len() > 0 {
        seq![ActionV::RunnerGone { modules: analysis_names(caps) }]
    } else {
        Seq::empty()
    }
}

/// A runner is gone. Its work fails back to the frontends, and the catalog loses what only it
/// advertised.
pub open spec fn evicted(s: RouterV, id: Seq<char>, now: u64) -> Step {
    match runner_at(s.runners, id) {
        None => idle(s),
        Some(i) => {
            let rest = RouterV { runners: s.runners.remove(i as int), ..s };
            let x = recomputed(rest, now);
            Step {
                state: RouterV { work: routes_elsewhere(s.work, id), ..x.state },
                actions: gone_news(s, s.runners[i as int].caps) + x.actions + crash_news(
                    s.work,
                    id,
                ),
            }
        },
    }
}

/// The sessions other than one.
pub open spec fn sessions_without(f: Seq<Seq<char>>, session: Seq<char>) -> Seq<Seq<char>>
    decreases f.len(),
{
    if f.len() == 0 {
        Seq::empty()
    } else if f.last() == session {
        sessions_without(f.drop_last(), session)
    } else {
        sessions_without(f.drop_last(), session).push(f.last())
    }
}

/// The routes of other sessions.
pub open spec fn routes_without(work: Seq<RouteV>, session: Seq<char>) -> Seq<RouteV>
    decreases work.len(),
{
    if work.len() == 0 {
        Seq::empty()
    } else if work.last().session == session {
        routes_without(work.drop_last(), session)
    } else {
        routes_without(work.drop_last(), session).push(work.last())
    }
}

/// A frontend is gone: its routes end and its directory is deleted.
pub open spec fn dropped(s: RouterV, session: Seq<char>) -> Step {
    reclaiming(
        Step {
            state: RouterV {
                frontends: sessions_without(s.frontends, session),
                work: routes_without(s.work, session),
                ..s
            },
            actions: Seq::empty(),
        },
        path_below(s.config.orchestrator_dir_root@, session),
    )
}

/// An id that was not given out before.
pub open spec fn minted(prefix: Seq<char>, n: u64) -> Seq<char> {
    prefix + "-"@ + decimal(n as nat)
}

/// A runner is registered under an id.
pub open spec fn registered(
    s: RouterV,
    seq: u64,
    caps: Seq<CapV>,
    priority: u32,
    now: u64,
) -> Step {
    let names = analysis_names(caps);
    Step {
        state: RouterV {
            runners: s.runners.push(
                RunnerV {
                    id: minted("r"@, seq),
                    caps,
                    priority,
                    seq,
                    last_activity: now,
                    outstanding: 0,
                },
            ),
            ever_registered: true,
            ..s
        },
        actions: if s.provisions && names.len() > 0 {
            seq![ActionV::RunnerUp { modules: names }]
        } else {
            Seq::empty()
        },
    }
}

/// A frontend is connected; the catalog is the first thing it hears.
pub open spec fn connected(s: RouterV, session: Seq<char>, now: u64) -> Step {
    Step {
        state: RouterV { frontends: s.frontends.push(session), ..s },
        actions: seq![
            ActionV::ToFrontend {
                session,
                env: modules_message(s.catalog, None, Some(session), now),
            },
        ],
    }
}

/// A runner has work outstanding and showed no sign of life for longer than allowed.
pub open spec fn hangs(r: RunnerV, now: u64, limit: u64) -> bool {
    r.outstanding > 0 && now > r.last_activity && now - r.last_activity > limit
}

/// The runners that hang.
pub open spec fn hung(rs: Seq<RunnerV>, now: u64, limit: u64) -> Seq<Seq<char>>
    decreases rs.len(),
{
    if rs.len() == 0 {
        Seq::empty()
    } else if hangs(rs.last(), now, limit) {
        hung(rs.drop_last(), now, limit).push(rs.last().id)
    } else {
        hung(rs.drop_last(), now, limit)
    }
}

/// Every route leads to a registered runner, no work unit has two routes or waits twice, ids
/// are given out once, and the runners stand in the order of their registration.
pub open spec fn consistent(s: RouterV) -> bool {
    &&& forall|i: int|
        0 <= i < s.runners.len() ==> (#[trigger] s.runners[i]).id == minted(
            "r"@,
            s.runners[i].seq,
        ) && s.runners[i].seq <= s.counter
    &&& forall|i: int, k: int|
        0 <= i < k < s.runners.len() ==> (#[trigger] s.runners[i]).seq < (
        #[trigger] s.runners[k]).seq
    &&& forall|i: int|
        0 <= i < s.work.len() ==> runner_at(s.runners, (#[trigger] s.work[i]).runner) is Some
    &&& forall|i: int, k: int|
        0 <= i < k < s.work.len() ==> (#[trigger] s.work[i]).session != (
        #[trigger] s.work[k]).session || s.work[i].work_id != s.work[k].work_id
    &&& forall|i: int, k: int|
        0 <= i < k < s.parked.len() ==> (#[trigger] s.parked[i]).session != (
        #[trigger] s.parked[k]).session || s.parked[i].work_id != s.parked[k].work_id
    &&& forall|i: int|
        0 <= i < s.parked.len() ==> (#[trigger] s.parked[i]).env.body is Work && work_of(
            s.parked[i].env,
        ).payload is Analysis
}

/// Finds a route.
fn find_route(work: &Vec<WorkRoute>, session: &str, work_id: &str) -> (r: Option<usize>)
    ensures
        match (r, route_at(route_views(work@), session@, work_id@)) {
            (Some(a), Some(b)) => a == b && a < work@.len() && work@[a as int]@.session == session@
                && work@[a as int]@.work_id == work_id@,
            (None, None) => true,
            _ => false,
        },
{
    let ghost all = route_views(work@);
    let mut i: usize = work.len();
    assert(all.take(all.len() as int) =~= all);
    while i > 0
        invariant
            i <= work.len(),
            all == route_views(work@),
            route_at(all, session@, work_id@) == route_at(
                all.take(i as int),
                session@,
                work_id@,
            ),
        decreases i,
    {
        i = i - 1;
        assert(all.take(i + 1).drop_last() =~= all.take(i as int));
        assert(all.take(i + 1).last() == work@[i as int]@);
        if same(&work[i].session_id, session) && same(&work[i].work_id, work_id) {
            return Some(i);
        }
    }
    None
}

/// Finds a waiting work unit.
fn find_parked(p: &Vec<ParkedWork>, session: &str, work_id: &str) -> (r: Option<usize>)
    ensures
        match (r, parked_at(parked_views(p@), session@, work_id@)) {
            (Some(a), Some(b)) => a == b && a < p@.len(),
            (None, None) => true,
            _ => false,
        },
{
    let ghost all = parked_views(p@);
    let mut i: usize = p.len();
    assert(all.take(all.len() as int) =~= all);
    while i > 0
        invariant
            i <= p.len(),
            all == parked_views(p@),
            parked_at(all, session@, work_id@) == parked_at(
                all.take(i as int),
                session@,
                work_id@,
            ),
        decreases i,
    {
        i = i - 1;
        assert(all.take(i + 1).drop_last() =~= all.take(i as int));
        assert(all.take(i + 1).last() == p@[i as int]@);
        if same(&p[i].session_id, session) && same(&p[i].work_id, work_id) {
            return Some(i);
        }
    }
    None
}

/// Finds a runner.
fn find_runner(rs: &Vec<Runner>, id: &str) -> (r: Option<usize>)
    ensures
        match (r, runner_at(runner_views(rs@), id@)) {
            (Some(a), Some(b)) => a == b && a < rs@.len(),
            (None, None) => true,
            _ => false,
        },
{
    let ghost all = runner_views(rs@);
    let mut i: usize = rs.len();
    assert(all.take(all.len() as int) =~= all);
    while i > 0
        invariant
            i <= rs.len(),
            all == runner_views(rs@),
            runner_at(all, id@) == runner_at(all.take(i as int), id@),
        decreases i,
    {
        i = i - 1;
        assert(all.take(i + 1).drop_last() =~= all.take(i as int));
        assert(all.take(i + 1).last() == rs@[i as int]@);
        if same(&rs[i].runner_id, id) {
            return Some(i);
        }
    }
    None
}

/// Whether a capability covers a work unit.
fn cap_covers(c: &Capability, p: &WorkPayload) -> (r: bool)
    ensures
        r == covers(c@, *p),
{
    match (c, p) {
        (Capability::Analysis { name, .. }, WorkPayload::Analysis(a)) => same(
            name,
            a.module.as_str(),
        ),
        (Capability::Rcode, WorkPayload::Rcode(_)) => true,
        (Capability::Data { op, formats }, WorkPayload::Data(d)) => {
            if *op != d.op {
                return false;
            }
            match d.op {
                DataOp::Open => match formats {
                    Some(f) => contains_text(f, d.format.as_str()),
                    None => false,
                },
                _ => true,
            }
        },
        _ => false,
    }
}

/// Whether some capability covers a work unit.
fn serves(caps: &Vec<Capability>, p: &WorkPayload) -> (r: bool)
    ensures
        r == can_serve(cap_views(caps@), *p),
{
    let ghost all = cap_views(caps@);
    let mut i: usize = 0;
    while i < caps.len()
        invariant
            i <= caps.len(),
            all == cap_views(caps@),
            forall|k: int| 0 <= k < i ==> !covers(#[trigger] all[k], *p),
        decreases caps.len() - i,
    {
        if cap_covers(&caps[i], p) {
            assert(covers(all[i as int], *p));
            return true;
        }
        i = i + 1;
    }
    false
}

/// Whether a capability covers a work unit in the version that it asks for.
fn cap_covers_exactly(c: &Capability, p: &WorkPayload) -> (r: bool)
    ensures
        r == covers_exactly(c@, *p),
{
    cap_covers(c, p) && match (c, p) {
        (Capability::Analysis { version, .. }, WorkPayload::Analysis(a)) => same(
            version,
            a.module_version.as_str(),
        ),
        _ => true,
    }
}

/// Whether some capability covers a work unit in the version that it asks for.
fn has_version(caps: &Vec<Capability>, p: &WorkPayload) -> (r: bool)
    ensures
        r == serves_exactly(cap_views(caps@), *p),
{
    let ghost all = cap_views(caps@);
    let mut i: usize = 0;
    while i < caps.len()
        invariant
            i <= caps.len(),
            all == cap_views(caps@),
            forall|k: int| 0 <= k < i ==> !covers_exactly(#[trigger] all[k], *p),
        decreases caps.len() - i,
    {
        if cap_covers_exactly(&caps[i], p) {
            assert(covers_exactly(all[i as int], *p));
            return true;
        }
        i = i + 1;
    }
    false
}

/// Selects the runner for a work unit.
pub fn select_runner(runners: &Vec<Runner>, p: &WorkPayload) -> (r: Option<usize>)
    ensures
        match (r, selected(runner_views(runners@), *p)) {
            (Some(a), Some(b)) => a == b && a < runners@.len(),
            (None, None) => true,
            _ => false,
        },
{
    let ghost all = runner_views(runners@);
    let mut best: Option<usize> = None;
    let mut i: usize = 0;
    assert(all.take(0) =~= Seq::empty());
    while i < runners.len()
        invariant
            i <= runners.len(),
            all == runner_views(runners@),
            match (best, selected(all.take(i as int), *p)) {
                (Some(a), Some(b)) => a == b && a < i,
                (None, None) => true,
                _ => false,
            },
        decreases runners.len() - i,
    {
        assert(all.take(i + 1).drop_last() =~= all.take(i as int));
        assert(all.take(i + 1).last() == runners@[i as int]@);
        let r = &runners[i];
        let can = serves(&r.capabilities, p);
        match best {
            Some(b) => {
                assert(all.take(i + 1)[b as int] == runners@[b as int]@);
                let x = &runners[b];
                let new = has_version(&r.capabilities, p);
                let old_one = has_version(&x.capabilities, p);
                if can && ((new && !old_one) || (new == old_one && (r.priority > x.priority || (
                r.priority == x.priority && r.seq >= x.seq)))) {
                    best = Some(i);
                }
            },
            None => {
                if can {
                    best = Some(i);
                }
            },
        }
        i = i + 1;
    }
    assert(all.take(all.len() as int) =~= all);
    best
}

/// Makes the members that work carries to a runner.
fn make_fields(config: &Config, session: &str, w: &Work) -> (r: Vec<(String, Json)>)
    ensures
        members(r@) == work_fields(*config, session@, *w),
{
    let mut paths = no_members();
    put(&mut paths, "ds-001", Json::Str(config.dataset_path.clone()));
    let mut o = no_members();
    put(&mut o, "dataset_paths", json_object(paths));
    put(
        &mut o,
        "output_dir",
        Json::Str(config.revision_dir(session, w.work_id.as_str(), w.revision)),
    );
    if let Some(b) = w.base_revision {
        put(
            &mut o,
            "base_results_dir",
            Json::Str(config.revision_dir(session, w.work_id.as_str(), b)),
        );
    }
    o
}

/// What the user reads where no runner can do a work unit.
fn make_detail(p: &WorkPayload) -> (r: String)
    ensures
        r@ == no_runner_detail(*p),
{
    match p {
        WorkPayload::Analysis(a) => {
            let mut t = "No runner is available to run analyses from module '".to_string();
            t.append(a.module.as_str());
            t.append("'.");
            t
        },
        WorkPayload::Rcode(_) => "No runner is available to run R code.".to_string(),
        WorkPayload::Data(_) => "No runner is available to do data work.".to_string(),
    }
}

/// What the user reads where waiting work fails.
fn make_lapse(p: &ParkedWork, l: &Lapse) -> (r: String)
    ensures
        r@ == lapse_detail(p@, *l),
{
    match l {
        Lapse::Module { module, reason } => {
            let mut t = "Could not start a runner for module '".to_string();
            t.append(module);
            t.append("': ");
            t.append(reason);
            t
        },
        Lapse::Timeout { .. } => {
            let mut t = "Timed out waiting for a runner for module '".to_string();
            t.append(p.module.as_str());
            t.append("'.");
            t
        },
    }
}

/// Whether waiting work fails.
fn has_lapsed(p: &ParkedWork, l: &Lapse) -> (r: bool)
    ensures
        r == lapses(p@, *l),
{
    match l {
        Lapse::Module { module, .. } => same(&p.module, module),
        Lapse::Timeout { now, limit } => *now > p.parked_ms && *now - p.parked_ms > *limit,
    }
}

impl Router {
    /// A router that knows no peer. Where runners are started on demand, it knows the modules
    /// of the library paths, and they are the catalog.
    pub fn new(config: Config, provisioner: Option<(u64, Vec<ModuleInfo>)>) -> (r: Router)
        ensures
            r@ == (RouterV {
                runners: Seq::empty(),
                frontends: Seq::empty(),
                work: Seq::empty(),
                parked: Seq::empty(),
                counter: 0,
                ever_registered: false,
                config,
                provisions: provisioner is Some,
                park_timeout_ms: match provisioner {
                    Some(p) => p.0,
                    None => 0,
                },
                libset: match provisioner {
                    Some(p) => module_views(p.1@),
                    None => Seq::empty(),
                },
                catalog: match provisioner {
                    Some(p) => module_views(p.1@),
                    None => Seq::empty(),
                },
            }),
            consistent(r@),
    {
        let provisions = provisioner.is_some();
        let (park_timeout_ms, libset_modules) = match provisioner {
            Some((t, m)) => (t, m),
            None => (0, Vec::new()),
        };
        let catalog = copy_modules(&libset_modules);
        let r = Router {
            runners: Vec::new(),
            frontends: Vec::new(),
            work: Vec::new(),
            parked: Vec::new(),
            counter: 0,
            ever_registered: false,
            config,
            provisions,
            park_timeout_ms,
            libset_modules,
            catalog,
        };
        proof {
            assert(r@.runners =~= Seq::empty());
            assert(r@.frontends =~= Seq::empty());
            assert(r@.work =~= Seq::empty());
            assert(r@.parked =~= Seq::empty());
            if provisioner is None {
                assert(r@.libset =~= Seq::empty());
                assert(r@.catalog =~= Seq::empty());
            }
        }
        r
    }

    /// Gives out the next id.
    fn next_id(&mut self, prefix: &str) -> (r: (String, u64))
        requires
            old(self).counter < u64::MAX,
        ensures
            final(self)@ == (RouterV { counter: (old(self).counter + 1) as u64, ..old(self)@ }),
            r.1 == old(self).counter + 1,
            r.0@ == minted(prefix@, r.1),
            consistent(old(self)@) ==> consistent(final(self)@),
    {
        self.counter = self.counter + 1;
        let mut id = prefix.to_string();
        id.append("-");
        push_decimal(&mut id, self.counter);
        (id, self.counter)
    }

    /// The first half of a registration: the id under which the runner's channel is made, or
    /// the refusal.
    pub fn begin_register(&mut self, env: &Envelope) -> (r: Result<(String, u64), Envelope>)
        requires
            old(self).counter < u64::MAX,
        ensures
            match r {
                Ok(p) => env.v == 1 && p.1 == old(self).counter + 1 && p.0@ == minted("r"@, p.1)
                    && final(self)@ == (RouterV { counter: p.1, ..old(self)@ }),
                Err(e) => env.v != 1 && final(self)@ == old(self)@ && e@ == register_refusal(
                    "unsupported_version"@,
                    env.id@,
                ),
            },
            consistent(old(self)@) ==> consistent(final(self)@),
    {
        if env.v != 1 {
            return Err(refuse_register("unsupported_version", env.id.as_str()));
        }
        Ok(self.next_id("r"))
    }

    /// The first half of a connection: the session under which the frontend's channel is made,
    /// or the refusal.
    pub fn begin_hello(&mut self, env: &Envelope) -> (r: Result<String, Envelope>)
        requires
            old(self).counter < u64::MAX,
        ensures
            match r {
                Ok(p) => env.v == 1 && p@ == minted("s"@, (old(self).counter + 1) as u64)
                    && final(self)@ == (RouterV {
                    counter: (old(self).counter + 1) as u64,
                    ..old(self)@
                }),
                Err(e) => env.v != 1 && final(self)@ == old(self)@ && e@ == welcome_refusal(
                    "unsupported_version"@,
                    env.id@,
                ),
            },
            consistent(old(self)@) ==> consistent(final(self)@),
    {
        if env.v != 1 {
            return Err(refuse_hello("unsupported_version", env.id.as_str()));
        }
        let p = self.next_id("s");
        Ok(p.0)
    }

    /// The second half of a registration, once the channel is there. The actions are followed
    /// by handing out waiting work ([`Router::dispatch_parked`]) and by computing the catalog
    /// ([`Router::recompute_catalog`]).
    pub fn finish_register(
        &mut self,
        seq: u64,
        capabilities: Vec<Capability>,
        priority: u32,
        now: u64,
    ) -> (r: Vec<Action>)
        ensures
            ({
                let x = registered(
                    old(self)@,
                    seq,
                    cap_views(capabilities@),
                    priority,
                    now,
                );
                final(self)@ == x.state && action_views(r@) == x.actions
            }),
            consistent(old(self)@) && seq <= old(self).counter && (forall|i: int|
                0 <= i < old(self)@.runners.len() ==> (#[trigger] old(self)@.runners[i]).seq < seq)
                ==> consistent(final(self)@),
    {
        proof {
            if consistent(self@) && seq <= self.counter && (forall|i: int|
                0 <= i < self@.runners.len() ==> (#[trigger] self@.runners[i]).seq < seq) {
                law_registration_keeps_consistent(
                    self@,
                    seq,
                    cap_views(capabilities@),
                    priority,
                    now,
                );
            }
        }
        let ghost before = self@;
        let ghost caps = cap_views(capabilities@);
        let modules = list_analyses(&capabilities);
        let mut runner_id = "r".to_string();
        runner_id.append("-");
        push_decimal(&mut runner_id, seq);
        let runner = Runner {
            runner_id,
            capabilities,
            priority,
            seq,
            last_activity: now,
            outstanding: 0,
        };
        let ghost rv = runner@;
        self.runners.push(runner);
        self.ever_registered = true;
        assert(self@.runners =~= before.runners.push(rv));
        assert(texts(modules@).len() == modules@.len());
        let mut out: Vec<Action> = Vec::new();
        if self.provisions && modules.len() > 0 {
            out.push(Action::RunnerUp { modules });
        }
        proof {
            let x = registered(before, seq, caps, priority, now);
            assert(action_views(out@) =~= x.actions);
            assert(self@ =~= x.state);
        }
        out
    }

    /// Hands a work unit to a runner.
    fn dispatch_work(&mut self, i: usize, session: &str, env: Envelope) -> (r: Action)
        requires
            i < old(self).runners@.len(),
            env.body is Work,
        ensures
            ({
                let x = dispatched(old(self)@, i as int, session@, env);
                final(self)@ == x.state && seq![r@] == x.actions
            }),
    {
        let ghost before = self@;
        let ghost given = env;
        let mut env = env;
        env.session_id = Some(session.to_string());
        let runner_id = self.runners[i].runner_id.clone();
        let fields: Vec<(String, Json)>;
        let mut work_id = String::new();
        let mut revision: u64 = 0;
        if let Message::Work(w) = &env.body {
            fields = make_fields(&self.config, session, w);
            work_id = w.work_id.clone();
            revision = w.revision;
        } else {
            fields = Vec::new();
        }
        let route = WorkRoute {
            session_id: session.to_string(),
            work_id: work_id.clone(),
            runner_id: runner_id.clone(),
            revision,
        };
        let ghost rv = route@;
        match find_route(&self.work, session, work_id.as_str()) {
            Some(k) => {
                self.work.set(k, route);
                assert(self@.work =~= before.work.update(k as int, rv));
            },
            None => {
                self.work.push(route);
                assert(self@.work =~= before.work.push(rv));
            },
        }
        let ghost old_runner = self.runners@[i as int]@;
        let n = self.runners[i].outstanding;
        self.runners[i].outstanding = if n == usize::MAX {
            0
        } else {
            n + 1
        };
        proof {
            assert(self.runners@[i as int]@ =~= busier(old_runner));
            assert(self@.runners =~= before.runners.update(i as int, busier(old_runner)));
            let x = dispatched(before, i as int, session@, given);
            assert(self@ =~= x.state);
        }
        let r = Action::ToRunner { runner_id, env, fields, evict: true };
        assert(r@ == dispatched(before, i as int, session@, given).actions[0]);
        assert(seq![r@] =~= dispatched(before, i as int, session@, given).actions);
        r
    }

    /// Lets a work unit wait for a runner.
    fn park_work(&mut self, session: &str, env: Envelope, now: u64) -> (r: Vec<Action>)
        requires
            env.body is Work,
            work_of(env).payload is Analysis,
        ensures
            ({
                let x = parks(old(self)@, session@, env, now);
                final(self)@ == x.state && action_views(r@) == x.actions
            }),
    {
        let ghost before = self@;
        let ghost x = parks(before, session@, env, now);
        let mut out: Vec<Action> = Vec::new();
        let mut work_id = String::new();
        let mut revision: u64 = 0;
        let mut module = String::new();
        let mut version = String::new();
        if let Message::Work(w) = &env.body {
            work_id = w.work_id.clone();
            revision = w.revision;
            if let WorkPayload::Analysis(a) = &w.payload {
                module = a.module.clone();
                version = a.module_version.clone();
            }
        }
        out.push(
            Action::ToFrontend {
                session_id: session.to_string(),
                env: running_result(work_id.as_str(), revision, session),
            },
        );
        match find_parked(&self.parked, session, work_id.as_str()) {
            Some(i) => {
                if revision > self.parked[i].revision {
                    let ghost one = self.parked@[i as int]@;
                    self.parked[i].env = env;
                    self.parked[i].revision = revision;
                    assert(self@.parked =~= before.parked.update(
                        i as int,
                        ParkedV { env, revision, ..one },
                    ));
                }
                assert(action_views(out@) =~= x.actions);
            },
            None => {
                let p = ParkedWork {
                    session_id: session.to_string(),
                    work_id,
                    revision,
                    module: module.clone(),
                    env,
                    parked_ms: now,
                };
                let ghost pv = p@;
                self.parked.push(p);
                assert(self@.parked =~= before.parked.push(pv));
                out.push(Action::Provision { module, version });
                assert(action_views(out@) =~= x.actions);
            },
        }
        assert(self@ =~= x.state);
        out
    }

    /// Answers for a work unit that no runner can do.
    fn miss_work(&mut self, session: &str, env: Envelope, now: u64) -> (r: Vec<Action>)
        requires
            env.body is Work,
        ensures
            ({
                let x = missed(old(self)@, session@, env, now);
                final(self)@ == x.state && action_views(r@) == x.actions
            }),
    {
        let ghost x = missed(self@, session@, env, now);
        let mut out: Vec<Action> = Vec::new();
        if let Message::Work(w) = &env.body {
            let analysis = match &w.payload {
                WorkPayload::Analysis(_) => true,
                _ => false,
            };
            if self.provisions && analysis {
                return self.park_work(session, env, now);
            }
            if self.ever_registered {
                let detail = make_detail(&w.payload);
                out.push(
                    Action::ToFrontend {
                        session_id: session.to_string(),
                        env: no_runner_result(
                            w.work_id.as_str(),
                            w.revision,
                            session,
                            detail.as_str(),
                        ),
                    },
                );
            }
        }
        assert(action_views(out@) =~= x.actions);
        out
    }

    /// Routes work from a frontend.
    fn route_work(&mut self, session: &str, env: Envelope, now: u64) -> (r: Vec<Action>)
        requires
            env.body is Work,
        ensures
            ({
                let x = routed_work(old(self)@, session@, env, now);
                final(self)@ == x.state && action_views(r@) == x.actions
            }),
    {
        let ghost x = routed_work(self@, session@, env, now);
        let choice = match &env.body {
            Message::Work(w) => select_runner(&self.runners, &w.payload),
            _ => None,
        };
        match choice {
            Some(i) => {
                let a = self.dispatch_work(i, session, env);
                let mut out: Vec<Action> = Vec::new();
                out.push(a);
                assert(action_views(out@) =~= seq![a@]);
                out
            },
            None => self.miss_work(session, env, now),
        }
    }

    /// Hands out the first waiting work unit for one of some modules that a runner can do.
    /// Called again and again, until it gives nothing.
    pub fn dispatch_parked(&mut self, modules: &Vec<String>) -> (r: Option<Action>)
        requires
            consistent(old(self)@),
        ensures
            match (
                r,
                first_ready(old(self)@, texts(modules@), old(self)@.parked.len()),
            ) {
                (Some(a), Some(i)) => ({
                    let x = unparked(old(self)@, i as int);
                    final(self)@ == x.state && seq![a@] == x.actions
                }),
                (None, None) => final(self)@ == old(self)@,
                _ => false,
            },
            consistent(final(self)@),
    {
        let ghost before = self@;
        let ghost names = texts(modules@);
        let mut i: usize = 0;
        while i < self.parked.len()
            invariant
                i <= self.parked.len(),
                self@ == before,
                names == texts(modules@),
                consistent(before),
                first_ready(before, names, i as nat) is None,
                before == old(self)@,
            decreases self.parked.len() - i,
        {
            assert(before.parked[i as int] == self.parked@[i as int]@);
            if contains_text(modules, self.parked[i].module.as_str()) {
                let choice = match &self.parked[i].env.body {
                    Message::Work(w) => select_runner(&self.runners, &w.payload),
                    _ => None,
                };
                if let Some(k) = choice {
                    proof {
                        lemma_first_ready(before, names, (i + 1) as nat, before.parked.len());
                        law_handing_out_keeps_consistent(before, names);
                    }
                    let p = self.parked.remove(i);
                    assert(self@.parked =~= before.parked.remove(i as int));
                    let ghost rest = RouterV { parked: before.parked.remove(i as int), ..before };
                    assert(self@ =~= rest);
                    let a = self.dispatch_work(k, p.session_id.as_str(), p.env);
                    return Some(a);
                }
            }
            i = i + 1;
        }
        None
    }

    /// Fails waiting work back to its frontends.
    fn fail_parked(&mut self, l: &Lapse) -> (r: Vec<Action>)
        ensures
            ({
                let x = lapsed(old(self)@, *l);
                final(self)@ == x.state && action_views(r@) == x.actions
            }),
            consistent(old(self)@) ==> consistent(final(self)@),
    {
        proof {
            if consistent(self@) {
                law_lapse_keeps_consistent(self@, *l);
            }
        }
        let ghost before = self@;
        let ghost all = before.parked;
        let mut out: Vec<Action> = Vec::new();
        let mut i: usize = 0;
        let ghost mut k: int = 0;
        assert(all.take(0) =~= Seq::empty());
        assert(action_views(out@) =~= Seq::empty());
        assert(self@.parked =~= still_parked(all.take(0), *l) + all.skip(0));
        while i < self.parked.len()
            invariant
                all == before.parked,
                0 <= k <= all.len(),
                i <= self.parked.len(),
                i == still_parked(all.take(k), *l).len(),
                self@.parked == still_parked(all.take(k), *l) + all.skip(k),
                action_views(out@) == lapse_news(all.take(k), *l),
                self@ == (RouterV { parked: self@.parked, ..before }),
            decreases all.len() - k,
        {
            let ghost kept = still_parked(all.take(k), *l);
            assert(self@.parked.len() == self.parked@.len());
            assert(k < all.len());
            assert(self@.parked[i as int] == all[k]);
            assert(all.take(k + 1).drop_last() =~= all.take(k));
            assert(all.take(k + 1).last() == all[k]);
            if has_lapsed(&self.parked[i], l) {
                let ghost prior = self@.parked;
                let p = self.parked.remove(i);
                assert(self@.parked =~= prior.remove(i as int));
                assert(self@.parked =~= kept + all.skip(k + 1));
                let detail = make_lapse(&p, l);
                let env = no_runner_result(
                    p.work_id.as_str(),
                    p.revision,
                    p.session_id.as_str(),
                    detail.as_str(),
                );
                let ghost b4 = out@;
                let a = Action::ToFrontend { session_id: p.session_id, env };
                let ghost av = a@;
                out.push(a);
                assert(action_views(out@) =~= action_views(b4).push(av));
            } else {
                assert(self@.parked =~= kept.push(all[k]) + all.skip(k + 1));
                i = i + 1;
            }
            proof {
                k = k + 1;
            }
        }
        proof {
            assert(k == all.len());
            assert(all.take(k) =~= all);
            assert(self@.parked =~= still_parked(all, *l));
            assert(self@ =~= lapsed(before, *l).state);
        }
        out
    }

    /// No runner can be started for a module: the work that waits for it fails.
    pub fn fail_parked_module(&mut self, module: &str, reason: &str) -> (r: Vec<Action>)
        ensures
            ({
                let x = lapsed(old(self)@, Lapse::Module { module, reason });
                final(self)@ == x.state && action_views(r@) == x.actions
            }),
            consistent(old(self)@) ==> consistent(final(self)@),
    {
        self.fail_parked(&Lapse::Module { module, reason })
    }

    /// Fails work that waited too long.
    pub fn scan_parked(&mut self, now: u64) -> (r: Vec<Action>)
        ensures
            ({
                let s = old(self)@;
                let x = if s.park_timeout_ms == 0 {
                    idle(s)
                } else {
                    lapsed(s, Lapse::Timeout { now, limit: s.park_timeout_ms })
                };
                final(self)@ == x.state && action_views(r@) == x.actions
            }),
            consistent(old(self)@) ==> consistent(final(self)@),
    {
        if self.park_timeout_ms == 0 {
            let out: Vec<Action> = Vec::new();
            assert(action_views(out@) =~= Seq::empty());
            return out;
        }
        let limit = self.park_timeout_ms;
        self.fail_parked(&Lapse::Timeout { now, limit })
    }

    /// Takes one off a runner's outstanding work.
    fn release(&mut self, id: &str)
        ensures
            final(self)@ == (RouterV { runners: released(old(self)@.runners, id@), ..old(self)@ }),
    {
        let ghost before = self@;
        if let Some(i) = find_runner(&self.runners, id) {
            let ghost one = self.runners@[i as int]@;
            let n = self.runners[i].outstanding;
            if n > 0 {
                self.runners[i].outstanding = n - 1;
            }
            assert(self.runners@[i as int]@ =~= freer(one));
            assert(self@.runners =~= before.runners.update(i as int, freer(one)));
        }
        assert(self@ =~= (RouterV { runners: released(before.runners, id@), ..before }));
    }

    /// Routes a result to its frontend.
    fn route_result(&mut self, env: Envelope) -> (r: Vec<Action>)
        requires
            env.body is Result,
        ensures
            ({
                let x = routed_result(old(self)@, env);
                final(self)@ == x.state && action_views(r@) == x.actions
            }),
            forall|i: int|
                0 <= i < r@.len() ==> (#[trigger] r@[i]) is ToFrontend && r@[i]->ToFrontend_env
                    == env,
    {
        let ghost before = self@;
        let ghost x = routed_result(before, env);
        let mut out: Vec<Action> = Vec::new();
        let session = match &env.session_id {
            Some(t) => t.clone(),
            None => String::new(),
        };
        assert(env.session_id is None ==> session@ =~= Seq::empty());
        let mut ends = false;
        let mut found: Option<usize> = None;
        if let Message::Result(m) = &env.body {
            ends = match m.status {
                Status::Running => false,
                _ => true,
            };
            if let Some(i) = find_route(&self.work, session.as_str(), m.work_id.as_str()) {
                assert(before.work[i as int] == self.work@[i as int]@);
                if m.revision >= self.work[i].revision {
                    found = Some(i);
                }
            }
        }
        if let Some(i) = found {
            if ends {
                self.work.remove(i);
                assert(self@.work =~= before.work.remove(i as int));
            }
            out.push(Action::ToFrontend { session_id: session, env });
        }
        assert(self@ =~= x.state);
        assert(action_views(out@) =~= x.actions);
        out
    }

    /// A sign of life from a runner.
    pub fn touch(&mut self, id: &str, now: u64)
        ensures
            final(self)@ == (match runner_at(old(self)@.runners, id@) {
                Some(i) => RouterV {
                    runners: old(self)@.runners.update(
                        i as int,
                        RunnerV { last_activity: now, ..old(self)@.runners[i as int] },
                    ),
                    ..old(self)@
                },
                None => old(self)@,
            }),
            consistent(old(self)@) ==> consistent(final(self)@),
    {
        proof {
            if consistent(self@) {
                lemma_runner_at(self@.runners, id@);
                if let Some(i) = runner_at(self@.runners, id@) {
                    lemma_same_runners(
                        self@,
                        self@.runners.update(
                            i as int,
                            RunnerV { last_activity: now, ..self@.runners[i as int] },
                        ),
                    );
                }
            }
        }
        let ghost before = self@;
        if let Some(i) = find_runner(&self.runners, id) {
            let ghost one = self.runners@[i as int]@;
            self.runners[i].last_activity = now;
            assert(self.runners@[i as int]@ =~= (RunnerV { last_activity: now, ..one }));
            assert(self@.runners =~= before.runners.update(
                i as int,
                RunnerV { last_activity: now, ..one },
            ));
        }
    }

    /// A message from a runner.
    pub fn on_runner_message(&mut self, id: &str, env: Envelope) -> (r: Vec<Action>)
        ensures
            ({
                let x = runner_said(old(self)@, id@, env);
                final(self)@ == x.state && action_views(r@) == x.actions
            }),
            forall|i: int|
                0 <= i < r@.len() ==> (#[trigger] r@[i]) is ToFrontend && r@[i]->ToFrontend_env
                    == env,
            consistent(old(self)@) ==> consistent(final(self)@),
    {
        proof {
            if consistent(self@) {
                law_runner_keeps_consistent(self@, id@, env);
            }
        }
        if let Message::Result(m) = &env.body {
            match m.status {
                Status::Running => {},
                _ => {
                    self.release(id);
                },
            }
            return self.route_result(env);
        }
        let out: Vec<Action> = Vec::new();
        assert(action_views(out@) =~= Seq::empty());
        out
    }

    /// Ends a route and tells its runner to stop.
    fn abort_and_release(&mut self, i: usize) -> (r: Action)
        requires
            i < old(self).work@.len(),
        ensures
            ({
                let x = stopped(old(self)@, i as int);
                final(self)@ == x.state && seq![r@] == x.actions
            }),
    {
        let ghost before = self@;
        let route = self.work.remove(i);
        assert(self@.work =~= before.work.remove(i as int));
        assert(before.work[i as int] == route@);
        self.release(route.runner_id.as_str());
        let env = make_abort(route.session_id.as_str(), route.work_id.as_str());
        let fields: Vec<(String, Json)> = no_members();
        let r = Action::ToRunner { runner_id: route.runner_id, env, fields, evict: false };
        let ghost x = stopped(before, i as int);
        assert(seq![r@] =~= x.actions);
        assert(self@ =~= x.state);
        r
    }

    /// Closes a work unit, or one revision of it.
    pub fn close_work(&mut self, session: &str, work_id: &str, revision: Option<u64>) -> (r: Vec<
        Action,
    >)
        ensures
            ({
                let x = closed(old(self)@, session@, work_id@, revision);
                final(self)@ == x.state && action_views(r@) == x.actions
            }),
            consistent(old(self)@) ==> consistent(final(self)@),
    {
        let ghost before = self@;
        let ghost x = closed(before, session@, work_id@, revision);
        let mut out: Vec<Action> = Vec::new();
        if let Some(k) = find_parked(&self.parked, session, work_id) {
            assert(before.parked[k as int] == self.parked@[k as int]@);
            let leaves = match revision {
                Some(rev) => self.parked[k].revision == rev,
                None => true,
            };
            if leaves {
                self.parked.remove(k);
                assert(parked_views(self.parked@) =~= before.parked.remove(k as int));
            }
        }
        assert(self@ =~= forgotten(before, session@, work_id@, revision));
        let at = find_route(&self.work, session, work_id);
        let stops = match (at, revision) {
            (Some(i), Some(rev)) => self.work[i].revision == rev,
            (Some(_), None) => true,
            _ => false,
        };
        if let Some(i) = at {
            assert(before.work[i as int] == self.work@[i as int]@);
            if stops {
                let a = self.abort_and_release(i);
                out.push(a);
            }
        }
        if !self.config.keep_workspaces {
            let path = match revision {
                Some(rev) => self.config.revision_dir(session, work_id, rev),
                None => self.config.work_workspace(session, work_id),
            };
            out.push(Action::Reclaim { path });
        }
        assert(action_views(out@) =~= x.actions);
        assert(self@ =~= x.state);
        proof {
            if consistent(before) {
                law_closing_keeps_consistent(before, session@, work_id@, revision);
            }
        }
        out
    }

    /// Routes an abort to the runner that has the work.
    fn route_abort(&self, session: &str, work_id: &str) -> (r: Vec<Action>)
        ensures
            action_views(r@) == routed_abort(self@, session@, work_id@).actions,
            self@ == routed_abort(self@, session@, work_id@).state,
    {
        let mut out: Vec<Action> = Vec::new();
        if let Some(i) = find_route(&self.work, session, work_id) {
            assert(self@.work[i as int] == self.work@[i as int]@);
            let fields: Vec<(String, Json)> = no_members();
            out.push(
                Action::ToRunner {
                    runner_id: self.work[i].runner_id.clone(),
                    env: make_abort(session, work_id),
                    fields,
                    evict: true,
                },
            );
        }
        assert(action_views(out@) =~= routed_abort(self@, session@, work_id@).actions);
        out
    }

    /// A message from a frontend.
    pub fn on_frontend_message(&mut self, session: &str, env: Envelope, now: u64) -> (r: Vec<
        Action,
    >)
        ensures
            ({
                let x = frontend_said(old(self)@, session@, env, now);
                final(self)@ == x.state && action_views(r@) == x.actions
            }),
            consistent(old(self)@) ==> consistent(final(self)@),
    {
        proof {
            if consistent(self@) {
                law_frontend_keeps_consistent(self@, session@, env, now);
            }
        }
        let ghost x = frontend_said(self@, session@, env, now);
        let mut out: Vec<Action> = Vec::new();
        match &env.body {
            Message::Work(_) => {
                return self.route_work(session, env, now);
            },
            Message::Abort(a) => {
                return self.route_abort(session, a.work_id.as_str());
            },
            Message::WorkClose(c) => {
                return self.close_work(session, c.work_id.as_str(), c.revision);
            },
            Message::ListModules => {
                out.push(
                    Action::ToFrontend {
                        session_id: session.to_string(),
                        env: modules_envelope(
                            &self.catalog,
                            Some(env.id.as_str()),
                            Some(session),
                            now,
                        ),
                    },
                );
            },
            Message::Ping => {
                out.push(
                    Action::ToFrontend {
                        session_id: session.to_string(),
                        env: make_pong(env.id.as_str(), session),
                    },
                );
            },
            _ => {},
        }
        assert(action_views(out@) =~= x.actions);
        out
    }

    /// Computes the catalog again and tells the frontends where it changed.
    pub fn recompute_catalog(&mut self, now: u64) -> (r: Vec<Action>)
        ensures
            ({
                let x = recomputed(old(self)@, now);
                final(self)@ == x.state && action_views(r@) == x.actions
            }),
            consistent(old(self)@) ==> consistent(final(self)@),
    {
        let ghost before = self@;
        let mut list = copy_modules(&self.libset_modules);
        let ghost all = before.runners;
        let mut i: usize = 0;
        assert(all.take(0) =~= Seq::empty());
        while i < self.runners.len()
            invariant
                i <= self.runners.len(),
                self@ == before,
                all == before.runners,
                module_views(list@) == merged(before.libset, all_ads(all.take(i as int))),
            decreases self.runners.len() - i,
        {
            assert(all.take(i + 1).drop_last() =~= all.take(i as int));
            assert(all.take(i + 1).last() == self.runners@[i as int]@);
            proof {
                lemma_merged_add(
                    before.libset,
                    all_ads(all.take(i as int)),
                    advertised(all[i as int].caps),
                );
            }
            merge_ads(&mut list, &self.runners[i].capabilities);
            i = i + 1;
        }
        assert(all.take(all.len() as int) =~= all);
        let catalog = arrange(&list);
        let mut out: Vec<Action> = Vec::new();
        if same_modules(&catalog, &self.catalog) {
            assert(action_views(out@) =~= Seq::empty());
            return out;
        }
        self.catalog = catalog;
        let ghost cv = self@.catalog;
        let ghost news = catalog_news(before.frontends, cv, now);
        let mut k: usize = 0;
        while k < self.frontends.len()
            invariant
                k <= self.frontends.len(),
                self@ == (RouterV { catalog: cv, ..before }),
                cv == self@.catalog,
                news == catalog_news(before.frontends, cv, now),
                out@.len() == k,
                action_views(out@) == news.take(k as int),
            decreases self.frontends.len() - k,
        {
            assert(before.frontends[k as int] == self.frontends@[k as int]@);
            let a = Action::ToFrontend {
                session_id: self.frontends[k].clone(),
                env: modules_envelope(&self.catalog, None, None, now),
            };
            assert(a@ == news[k as int]);
            let ghost b4 = out@;
            let ghost av = a@;
            out.push(a);
            assert(action_views(out@) =~= action_views(b4).push(av));
            assert(news.take(k + 1) =~= news.take(k as int).push(news[k as int]));
            k = k + 1;
        }
        assert(news.take(news.len() as int) =~= news);
        out
    }

    /// Removes the routes to a runner and lists what their frontends hear.
    fn fail_work(&mut self, id: &str) -> (r: Vec<Action>)
        ensures
            final(self)@ == (RouterV {
                work: routes_elsewhere(old(self)@.work, id@),
                ..old(self)@
            }),
            action_views(r@) == crash_news(old(self)@.work, id@),
    {
        let ghost before = self@;
        let ghost all = before.work;
        let mut out: Vec<Action> = Vec::new();
        let mut i: usize = 0;
        let ghost mut k: int = 0;
        assert(all.take(0) =~= Seq::empty());
        assert(action_views(out@) =~= Seq::empty());
        assert(self@.work =~= routes_elsewhere(all.take(0), id@) + all.skip(0));
        while i < self.work.len()
            invariant
                all == before.work,
                0 <= k <= all.len(),
                i <= self.work.len(),
                i == routes_elsewhere(all.take(k), id@).len(),
                self@.work == routes_elsewhere(all.take(k), id@) + all.skip(k),
                action_views(out@) == crash_news(all.take(k), id@),
                self@ == (RouterV { work: self@.work, ..before }),
            decreases all.len() - k,
        {
            let ghost kept = routes_elsewhere(all.take(k), id@);
            assert(self@.work.len() == self.work@.len());
            assert(k < all.len());
            assert(self@.work[i as int] == all[k]);
            assert(all.take(k + 1).drop_last() =~= all.take(k));
            assert(all.take(k + 1).last() == all[k]);
            if same(&self.work[i].runner_id, id) {
                let ghost prior = self@.work;
                let p = self.work.remove(i);
                assert(self@.work =~= prior.remove(i as int));
                assert(self@.work =~= kept + all.skip(k + 1));
                let env = no_runner_result(
                    p.work_id.as_str(),
                    p.revision,
                    p.session_id.as_str(),
                    "A fatal crash occurred while running the analysis (the runner stopped unexpectedly).",
                );
                let ghost b4 = out@;
                let a = Action::ToFrontend { session_id: p.session_id, env };
                let ghost av = a@;
                out.push(a);
                assert(action_views(out@) =~= action_views(b4).push(av));
            } else {
                assert(self@.work =~= kept.push(all[k]) + all.skip(k + 1));
                i = i + 1;
            }
            proof {
                k = k + 1;
            }
        }
        proof {
            assert(k == all.len());
            assert(all.take(k) =~= all);
            assert(self@.work =~= routes_elsewhere(all, id@));
            assert(self@ =~= (RouterV { work: routes_elsewhere(all, id@), ..before }));
        }
        out
    }

    /// A runner is gone.
    pub fn evict_runner(&mut self, id: &str, now: u64) -> (r: Vec<Action>)
        ensures
            ({
                let x = evicted(old(self)@, id@, now);
                final(self)@ == x.state && action_views(r@) == x.actions
            }),
            consistent(old(self)@) ==> consistent(final(self)@),
    {
        proof {
            if consistent(self@) {
                law_eviction_keeps_consistent(self@, id@, now);
            }
        }
        let ghost before = self@;
        let ghost x = evicted(before, id@, now);
        let mut out: Vec<Action> = Vec::new();
        let i = match find_runner(&self.runners, id) {
            Some(i) => i,
            None => {
                assert(action_views(out@) =~= Seq::empty());
                return out;
            },
        };
        let gone = self.runners.remove(i);
        assert(before.runners[i as int] == gone@);
        assert(self@.runners =~= before.runners.remove(i as int));
        let ghost rest = RouterV { runners: before.runners.remove(i as int), ..before };
        assert(self@ =~= rest);
        if self.provisions {
            let modules = list_analyses(&gone.capabilities);
            assert(texts(modules@).len() == modules@.len());
            if modules.len() > 0 {
                out.push(Action::RunnerGone { modules });
            }
        }
        let ghost a0 = action_views(out@);
        assert(a0 =~= gone_news(before, gone@.caps));
        let mut news = self.recompute_catalog(now);
        let ghost a1 = action_views(news@);
        let mut crashes = self.fail_work(id);
        let ghost a2 = action_views(crashes@);
        out.append(&mut news);
        out.append(&mut crashes);
        proof {
            assert(action_views(out@) =~= a0 + a1 + a2);
            assert(self@ =~= x.state);
        }
        out
    }

    /// A frontend is gone.
    pub fn drop_frontend(&mut self, session: &str) -> (r: Vec<Action>)
        ensures
            ({
                let x = dropped(old(self)@, session@);
                final(self)@ == x.state && action_views(r@) == x.actions
            }),
            consistent(old(self)@) ==> consistent(final(self)@),
    {
        proof {
            if consistent(self@) {
                law_disconnection_keeps_consistent(self@, session@);
            }
        }
        let ghost before = self@;
        let ghost x = dropped(before, session@);
        let mut kept: Vec<String> = Vec::new();
        let mut i: usize = 0;
        let ghost all = before.frontends;
        assert(all.take(0) =~= Seq::empty());
        assert(texts(kept@) =~= Seq::empty());
        while i < self.frontends.len()
            invariant
                i <= self.frontends.len(),
                self@ == before,
                all == before.frontends,
                texts(kept@) == sessions_without(all.take(i as int), session@),
            decreases self.frontends.len() - i,
        {
            assert(all.take(i + 1).drop_last() =~= all.take(i as int));
            assert(all.take(i + 1).last() == self.frontends@[i as int]@);
            if !same(&self.frontends[i], session) {
                let ghost b4 = kept@;
                kept.push(self.frontends[i].clone());
                assert(texts(kept@) =~= texts(b4).push(all[i as int]));
            }
            i = i + 1;
        }
        assert(all.take(all.len() as int) =~= all);
        self.frontends = kept;
        let ghost work = before.work;
        let mut m: usize = 0;
        let ghost mut k: int = 0;
        assert(work.take(0) =~= Seq::empty());
        assert(self@.work =~= routes_without(work.take(0), session@) + work.skip(0));
        while m < self.work.len()
            invariant
                work == before.work,
                0 <= k <= work.len(),
                m <= self.work.len(),
                m == routes_without(work.take(k), session@).len(),
                self@.work == routes_without(work.take(k), session@) + work.skip(k),
                self@ == (RouterV {
                    work: self@.work,
                    frontends: sessions_without(all, session@),
                    ..before
                }),
            decreases work.len() - k,
        {
            let ghost stay = routes_without(work.take(k), session@);
            assert(self@.work.len() == self.work@.len());
            assert(k < work.len());
            assert(self@.work[m as int] == work[k]);
            assert(work.take(k + 1).drop_last() =~= work.take(k));
            assert(work.take(k + 1).last() == work[k]);
            if same(&self.work[m].session_id, session) {
                let ghost prior = self@.work;
                self.work.remove(m);
                assert(self@.work =~= prior.remove(m as int));
                assert(self@.work =~= stay + work.skip(k + 1));
            } else {
                assert(self@.work =~= stay.push(work[k]) + work.skip(k + 1));
                m = m + 1;
            }
            proof {
                k = k + 1;
            }
        }
        proof {
            assert(k == work.len());
            assert(work.take(k) =~= work);
            assert(self@.work =~= routes_without(work, session@));
        }
        let mut out: Vec<Action> = Vec::new();
        if !self.config.keep_workspaces {
            out.push(Action::Reclaim { path: self.config.session_workspace(session) });
        }
        assert(action_views(out@) =~= x.actions);
        assert(self@ =~= x.state);
        out
    }

    /// The second half of a connection, once the channel is there.
    pub fn finish_hello(&mut self, session_id: String, now: u64) -> (r: Action)
        ensures
            ({
                let x = connected(old(self)@, session_id@, now);
                final(self)@ == x.state && seq![r@] == x.actions
            }),
            consistent(old(self)@) ==> consistent(final(self)@),
    {
        let ghost before = self@;
        let env = modules_envelope(&self.catalog, None, Some(session_id.as_str()), now);
        let r = Action::ToFrontend { session_id: session_id.clone(), env };
        let ghost sv = session_id@;
        self.frontends.push(session_id);
        assert(self@.frontends =~= before.frontends.push(sv));
        assert(self@ =~= connected(before, sv, now).state);
        assert(seq![r@] =~= connected(before, sv, now).actions);
        r
    }

    /// The runners that hang.
    pub fn hung_runners(&self, now: u64) -> (r: Vec<String>)
        ensures
            texts(r@) == hung(self@.runners, now, self.config.hang_timeout_ms),
    {
        let limit = self.config.hang_timeout_ms;
        let ghost all = self@.runners;
        let mut out: Vec<String> = Vec::new();
        let mut i: usize = 0;
        assert(all.take(0) =~= Seq::empty());
        assert(texts(out@) =~= Seq::empty());
        while i < self.runners.len()
            invariant
                i <= self.runners.len(),
                all == self@.runners,
                limit == self.config.hang_timeout_ms,
                texts(out@) == hung(all.take(i as int), now, limit),
            decreases self.runners.len() - i,
        {
            assert(all.take(i + 1).drop_last() =~= all.take(i as int));
            assert(all.take(i + 1).last() == self.runners@[i as int]@);
            let r = &self.runners[i];
            if r.outstanding > 0 && now > r.last_activity && now - r.last_activity > limit {
                let ghost b4 = out@;
                out.push(r.runner_id.clone());
                assert(texts(out@) =~= texts(b4).push(all[i as int].id));
            }
            i = i + 1;
        }
        assert(all.take(all.len() as int) =~= all);
        out
    }
}

proof fn lemma_first_ready(s: RouterV, modules: Seq<Seq<char>>, k: nat, m: nat)
    requires
        k <= m,
        first_ready(s, modules, k) is Some,
    ensures
        first_ready(s, modules, m) == first_ready(s, modules, k),
    decreases m - k,
{
    if k < m {
        lemma_first_ready(s, modules, k, (m - 1) as nat);
    }
}

} // verus!
