//! What peers see of the router: where work, results and aborts go, and what they carry.
use vstd::prelude::*;
use vstd::string::*;
use crate::config::{path_below, results_dir};
use crate::envelopes::{BodyV, EnvelopeV};
use crate::json::JsonV;
use crate::messages::{DataOp, Envelope, Status, Work, WorkPayload};
use crate::router::{
    frontend_said, route_at, runner_at, runner_said, selected, with_route, work_of, ActionV,
    RouteV, RouterV, RunnerV,
};
use crate::router_laws::{
    law_the_preferred_runner_is_selected, lemma_parked_at, lemma_route_at, lemma_runner_at,
};
use crate::text::decimal;

verus! {

/// A runner takes a work unit: it names the module of an analysis, or takes R code, or the
/// operation on data, and the format where that is an open.
pub open spec fn takes(r: RunnerV, p: WorkPayload) -> bool {
    exists|i: int|
        0 <= i < r.caps.len() && match p {
            WorkPayload::Analysis(a) => #[trigger] r.caps[i] is Analysis && r.caps[i]->name
                == a.module@,
            WorkPayload::Rcode(_) => r.caps[i] is Rcode,
            WorkPayload::Data(d) => r.caps[i] is Data && r.caps[i]->op == d.op && (d.op
                == DataOp::Open ==> r.caps[i]->formats is Some && r.caps[i]->formats->0.contains(
                d.format@,
            )),
        }
}

/// A runner has the module of an analysis in the very version that is asked for.
pub open spec fn has_version(r: RunnerV, p: WorkPayload) -> bool {
    exists|i: int|
        0 <= i < r.caps.len() && #[trigger] r.caps[i] is Analysis && r.caps[i]->name
            == p->Analysis_0.module@ && r.caps[i]->version == p->Analysis_0.module_version@
}

pub proof fn lemma_takes(r: RunnerV, p: WorkPayload)
    ensures
        takes(r, p) == crate::router::can_serve(r.caps, p),
        takes(r, p) && p is Analysis ==> has_version(r, p) == crate::router::serves_exactly(
            r.caps,
            p,
        ),
        takes(r, p) && !(p is Analysis) ==> crate::router::serves_exactly(r.caps, p),
{
    if takes(r, p) {
        let i = choose|i: int|
            0 <= i < r.caps.len() && match p {
                WorkPayload::Analysis(a) => #[trigger] r.caps[i] is Analysis && r.caps[i]->name
                    == a.module@,
                WorkPayload::Rcode(_) => r.caps[i] is Rcode,
                WorkPayload::Data(d) => r.caps[i] is Data && r.caps[i]->op == d.op && (d.op
                    == DataOp::Open ==> r.caps[i]->formats is Some
                    && r.caps[i]->formats->0.contains(d.format@)),
            };
        assert(crate::router::covers(r.caps[i], p));
        if !(p is Analysis) {
            assert(crate::router::covers_exactly(r.caps[i], p));
        }
    }
    if crate::router::can_serve(r.caps, p) {
        let i = choose|i: int|
            0 <= i < r.caps.len() && crate::router::covers(#[trigger] r.caps[i], p);
        assert(r.caps[i] == r.caps[i]);
    }
    if p is Analysis && has_version(r, p) {
        let i = choose|i: int|
            0 <= i < r.caps.len() && #[trigger] r.caps[i] is Analysis && r.caps[i]->name
                == p->Analysis_0.module@ && r.caps[i]->version == p->Analysis_0.module_version@;
        assert(crate::router::covers_exactly(r.caps[i], p));
    }
    if p is Analysis && crate::router::serves_exactly(r.caps, p) {
        let i = choose|i: int|
            0 <= i < r.caps.len() && crate::router::covers_exactly(#[trigger] r.caps[i], p);
        assert(r.caps[i] is Analysis);
    }
}

/// Work goes to a runner that takes it, where there is one. Of several, one with the version
/// asked for comes before one without; then the higher priority counts, then the later
/// registration. The message is the frontend's own, under the session's name; it is the only
/// thing that is sent, and failing to send it evicts the runner.
#[verifier::rlimit(60)]
pub proof fn law_work_goes_to_the_best_runner(
    s: RouterV,
    session: Seq<char>,
    env: Envelope,
    now: u64,
    k: int,
)
    requires
        env.body is Work,
        0 <= k < s.runners.len(),
        takes(s.runners[k], env.body->Work_0.payload),
    ensures
        exists|i: int|
            #![trigger s.runners[i]]
            {
                let p = env.body->Work_0.payload;
                let x = frontend_said(s, session, env, now);
                let a = s.runners[i];
                let b = s.runners[k];
                &&& 0 <= i < s.runners.len()
                &&& takes(a, p)
                &&& x.actions.len() == 1
                &&& x.actions[0] is ToRunner
                &&& x.actions[0]->runner == a.id
                &&& x.actions[0]->ToRunner_env == (EnvelopeV { session: Some(session), ..env@ })
                &&& x.actions[0]->evict
                &&& p is Analysis && has_version(b, p) ==> has_version(a, p)
                &&& (p is Analysis ==> has_version(a, p) == has_version(b, p)) ==> a.priority
                    >= b.priority && (a.priority == b.priority ==> a.seq >= b.seq)
                &&& x.state.runners == s.runners.update(
                    i,
                    RunnerV {
                        outstanding: if a.outstanding < usize::MAX {
                            (a.outstanding + 1) as usize
                        } else {
                            0
                        },
                        ..a
                    },
                )
                &&& x.state == RouterV { runners: x.state.runners, work: x.state.work, ..s }
            },
{
    let p = env.body->Work_0.payload;
    law_the_preferred_runner_is_selected(s.runners, p);
    lemma_takes(s.runners[k], p);
    let i = selected(s.runners, p)->0 as int;
    lemma_takes(s.runners[i], p);
    assert(s.runners[i] == s.runners[i]);
}

/// Once work is sent to a runner there is one route for it, to that runner and for that
/// revision, and every other route is as it was.
#[verifier::rlimit(60)]
pub proof fn law_sent_work_has_a_route(
    s: RouterV,
    session: Seq<char>,
    env: Envelope,
    now: u64,
    r: RouteV,
)
    requires
        crate::router::consistent(s),
        env.body is Work,
        frontend_said(s, session, env, now).actions.len() == 1,
        frontend_said(s, session, env, now).actions[0] is ToRunner,
    ensures
        ({
            let x = frontend_said(s, session, env, now);
            let w = env.body->Work_0;
            x.state.work.contains(r) <==> if r.session == session && r.work_id == w.work_id@ {
                r.runner == x.actions[0]->runner && r.revision == w.revision
            } else {
                s.work.contains(r)
            }
        }),
{
    let w = env.body->Work_0;
    let x = frontend_said(s, session, env, now);
    lemma_route_at(s.work, session, w.work_id@);
    lemma_parked_at(s.parked, session, w.work_id@);
    let i = selected(s.runners, w.payload)->0 as int;
    let own = RouteV {
        session,
        work_id: w.work_id@,
        runner: s.runners[i].id,
        revision: w.revision,
    };
    assert(x.state.work == with_route(s.work, own));
    match route_at(s.work, session, w.work_id@) {
        Some(n) => {
            assert(x.state.work[n as int] == own);
            if s.work.contains(r) && (r.session != session || r.work_id != w.work_id@) {
                let m = s.work.index_of(r);
                assert(x.state.work[m] == r);
            }
            if x.state.work.contains(r) {
                let m = x.state.work.index_of(r);
                if m != n {
                    assert(s.work[m] == r);
                    assert(s.work[n as int].session == session);
                }
            }
        },
        None => {
            assert(x.state.work[s.work.len() as int] == own);
            if s.work.contains(r) {
                let m = s.work.index_of(r);
                assert(x.state.work[m] == r);
            }
            if x.state.work.contains(r) {
                let m = x.state.work.index_of(r);
                if m < s.work.len() {
                    assert(s.work[m] == r);
                }
            }
        },
    }
}

/// Beside the frontend's message a runner is handed the dataset and a directory for the
/// results; one with the results of an earlier revision only where the work names one.
#[verifier::rlimit(60)]
pub proof fn law_runners_are_handed_places(s: RouterV, session: Seq<char>, env: Envelope, now: u64)
    requires
        env.body is Work,
        frontend_said(s, session, env, now).actions.len() == 1,
        frontend_said(s, session, env, now).actions[0] is ToRunner,
    ensures
        ({
            let m = frontend_said(s, session, env, now).actions[0]->fields;
            &&& m.contains_key("dataset_paths"@)
            &&& m["dataset_paths"@] is Object
            &&& forall|k: Seq<char>|
                (#[trigger] m["dataset_paths"@]->Object_0.contains_key(k)) <==> k == "ds-001"@
            &&& m["dataset_paths"@]->Object_0["ds-001"@] == JsonV::Str(s.config.dataset_path@)
            &&& m.contains_key("output_dir"@)
            &&& m["output_dir"@] is Str
            &&& m.contains_key("base_results_dir"@) <==> env.body->Work_0.base_revision is Some
            &&& forall|k: Seq<char>| #[trigger]
                m.contains_key(k) ==> k == "dataset_paths"@ || k == "output_dir"@ || k
                    == "base_results_dir"@
        }),
{
    lemma_field_names();
    lemma_parked_at(s.parked, session, env.body->Work_0.work_id@);
}

proof fn lemma_field_names()
    ensures
        "dataset_paths"@ != "output_dir"@,
        "dataset_paths"@ != "base_results_dir"@,
        "output_dir"@ != "base_results_dir"@,
{
    reveal_strlit("dataset_paths");
    reveal_strlit("output_dir");
    reveal_strlit("base_results_dir");
    assert("dataset_paths"@.len() == 13);
    assert("output_dir"@.len() == 10);
    assert("base_results_dir"@.len() == 16);
}

/// Work that builds on an earlier revision is told to look for that revision's results in the
/// very directory where that revision, when it was sent out, was told to leave them.
#[verifier::rlimit(60)]
pub proof fn law_work_builds_on_earlier_results(
    s: RouterV,
    t: RouterV,
    session: Seq<char>,
    env: Envelope,
    earlier: Envelope,
    now: u64,
    before: u64,
)
    requires
        s.config.orchestrator_dir_root@ == t.config.orchestrator_dir_root@,
        env.body is Work,
        earlier.body is Work,
        earlier.body->Work_0.work_id@ == env.body->Work_0.work_id@,
        env.body->Work_0.base_revision == Some(earlier.body->Work_0.revision),
        frontend_said(s, session, env, now).actions.len() == 1,
        frontend_said(s, session, env, now).actions[0] is ToRunner,
        frontend_said(t, session, earlier, before).actions.len() == 1,
        frontend_said(t, session, earlier, before).actions[0] is ToRunner,
    ensures
        ({
            let m = frontend_said(s, session, env, now).actions[0]->fields;
            let e = frontend_said(t, session, earlier, before).actions[0]->fields;
            m.contains_key("base_results_dir"@) && e.contains_key("output_dir"@)
                && m["base_results_dir"@] == e["output_dir"@]
        }),
{
    lemma_field_names();
    lemma_parked_at(s.parked, session, env.body->Work_0.work_id@);
    lemma_parked_at(t.parked, session, env.body->Work_0.work_id@);
}

/// Two revisions of a work unit never share a directory.
#[verifier::rlimit(60)]
pub proof fn law_results_are_kept_apart(
    root: Seq<char>,
    session: Seq<char>,
    work_id: Seq<char>,
    a: u64,
    b: u64,
)
    ensures
        results_dir(root, session, work_id, a) == results_dir(root, session, work_id, b) <==> a
            == b,
{
    if a != b {
        let d = path_below(path_below(root, session), work_id);
        let x = "results_"@ + decimal(a as nat);
        let y = "results_"@ + decimal(b as nat);
        reveal_strlit("results_");
        reveal_strlit("/");
        assert(x[0] == 'r' && y[0] == 'r');
        let cut = if d.len() == 0 || d.last() == '/' {
            d.len() as int
        } else {
            (d.len() + 1) as int
        };
        let p = results_dir(root, session, work_id, a);
        let q = results_dir(root, session, work_id, b);
        if p == q {
            assert(p.skip(cut + 8) =~= decimal(a as nat));
            assert(q.skip(cut + 8) =~= decimal(b as nat));
            crate::text::lemma_decimal_injective(a as nat, b as nat);
        }
    }
}

/// Results lie below the root in a directory of their session, and there in one of their work
/// unit. Every name that is a plain one is a single step down.
#[verifier::rlimit(60)]
pub proof fn law_results_lie_below_the_root(
    root: Seq<char>,
    session: Seq<char>,
    work_id: Seq<char>,
    revision: u64,
)
    requires
        root.len() > 0,
        root.last() != '/',
        session.len() > 0,
        session[0] != '/',
        session.last() != '/',
        work_id.len() > 0,
        work_id[0] != '/',
        work_id.last() != '/',
    ensures
        results_dir(root, session, work_id, revision) == root + "/"@ + session + "/"@ + work_id
            + "/results_"@ + decimal(revision as nat),
{
    reveal_strlit("results_");
    reveal_strlit("/results_");
    reveal_strlit("/");
    let n = decimal(revision as nat);
    assert(path_below(root, session) =~= root + "/"@ + session);
    assert(path_below(root, session).last() == session.last());
    let d = root + "/"@ + session + "/"@ + work_id;
    assert(path_below(root + "/"@ + session, work_id) =~= d);
    assert(d.last() == work_id.last());
    assert("/results_"@ =~= "/"@ + "results_"@);
    assert(path_below(d, "results_"@ + n) =~= d + "/"@ + ("results_"@ + n));
    assert(d + "/"@ + ("results_"@ + n) =~= d + "/results_"@ + n);
}

/// A result, whatever its status, for work that has a route and of a revision that is not
/// older than the route's, is passed on as it is to the session of the route, and nothing else
/// is sent.
#[verifier::rlimit(60)]
pub proof fn law_results_reach_their_session(s: RouterV, id: Seq<char>, env: Envelope, i: int)
    requires
        crate::router::consistent(s),
        0 <= i < s.work.len(),
        env.body is Result,
        env.session_id is Some,
        env.session_id->0@ == s.work[i].session,
        env.body->Result_0.work_id@ == s.work[i].work_id,
        env.body->Result_0.revision >= s.work[i].revision,
    ensures
        runner_said(s, id, env).actions.len() == 1,
        runner_said(s, id, env).actions[0] == (ActionV::ToFrontend {
            session: s.work[i].session,
            env: env@,
        }),
{
    lemma_route_at(s.work, s.work[i].session, s.work[i].work_id);
}

/// The route of a result ends with the result, unless the work still runs; every other route
/// stays. A result that is not passed on leaves all routes.
#[verifier::rlimit(60)]
pub proof fn law_last_results_end_their_route(
    s: RouterV,
    id: Seq<char>,
    env: Envelope,
    r: RouteV,
)
    requires
        crate::router::consistent(s),
        env.body is Result,
    ensures
        ({
            let m = env.body->Result_0;
            let named = env.session_id is Some && env.session_id->0@ == r.session && m.work_id@
                == r.work_id;
            (env.session_id is Some || r.session.len() > 0) ==> (runner_said(
                s,
                id,
                env,
            ).state.work.contains(r) <==> s.work.contains(r) && !(named && m.revision
                >= r.revision && m.status != Status::Running))
        }),
{
    let m = env.body->Result_0;
    let session = match env.session_id {
        Some(t) => t@,
        None => Seq::empty(),
    };
    lemma_route_at(s.work, session, m.work_id@);
    let t = runner_said(s, id, env).state;
    if let Some(n) = route_at(s.work, session, m.work_id@) {
        let n = n as int;
        let w = s.work.remove(n);
        if s.work.contains(r) && r != s.work[n] {
            let k = s.work.index_of(r);
            if k < n {
                assert(w[k] == r);
            } else {
                assert(w[k - 1] == r);
            }
        }
        if w.contains(r) {
            let k = w.index_of(r);
            if k < n {
                assert(s.work[k] == r);
            } else {
                assert(s.work[k + 1] == r);
            }
        }
        assert(s.work.contains(s.work[n]));
    }
}

/// A result that says the work is over leaves its runner with one work unit less, where it had
/// any; any other message leaves all runners as they are. Nothing else changes.
#[verifier::rlimit(60)]
pub proof fn law_last_results_free_their_runner(s: RouterV, id: Seq<char>, env: Envelope, k: int)
    requires
        crate::router::consistent(s),
        0 <= k < s.runners.len(),
    ensures
        ({
            let x = runner_said(s, id, env);
            let over = env.body is Result && env.body->Result_0.status != Status::Running;
            let a = s.runners[k];
            &&& x.state.runners.len() == s.runners.len()
            &&& x.state.runners[k] == RunnerV {
                outstanding: if over && a.id == id && a.outstanding > 0 {
                    (a.outstanding - 1) as usize
                } else {
                    a.outstanding
                },
                ..a
            }
            &&& x.state == RouterV { runners: x.state.runners, work: x.state.work, ..s }
        }),
{
    lemma_runner_at(s.runners, id);
    if s.runners[k].id == id {
        let j = runner_at(s.runners, id)->0 as int;
        lemma_one_runner(s, k, j);
    }
}

/// No two runners have one id.
pub proof fn lemma_one_runner(s: RouterV, a: int, b: int)
    requires
        crate::router::consistent(s),
        0 <= a < s.runners.len(),
        0 <= b < s.runners.len(),
        s.runners[a].id == s.runners[b].id,
    ensures
        a == b,
{
    if a != b {
        crate::router_laws::law_ids_differ(s.runners[a].seq, s.runners[b].seq);
    }
}

/// A result of unknown or superseded work, and any other message of a runner, makes nobody
/// hear anything.
#[verifier::rlimit(60)]
pub proof fn law_other_results_are_not_passed_on(s: RouterV, id: Seq<char>, env: Envelope)
    requires
        crate::router::consistent(s),
        env.session_id is Some,
        env.body is Result ==> forall|i: int|
            0 <= i < s.work.len() && (#[trigger] s.work[i]).session == env.session_id->0@
                && s.work[i].work_id == env.body->Result_0.work_id@
                ==> env.body->Result_0.revision < s.work[i].revision,
    ensures
        runner_said(s, id, env).actions.len() == 0,
        runner_said(s, id, env).state.work == s.work,
{
    if env.body is Result {
        lemma_route_at(s.work, env.session_id->0@, env.body->Result_0.work_id@);
    }
}

/// An abort goes to the runner that has the work, under the session's name, and nothing
/// changes; where no route leads to the work nothing is sent.
#[verifier::rlimit(60)]
pub proof fn law_aborts_reach_the_runner(
    s: RouterV,
    session: Seq<char>,
    env: Envelope,
    now: u64,
    i: int,
)
    requires
        crate::router::consistent(s),
        env.body is Abort,
    ensures
        ({
            let x = frontend_said(s, session, env, now);
            &&& x.state == s
            &&& (0 <= i < s.work.len() && s.work[i].session == session && s.work[i].work_id
                == env.body->Abort_0.work_id@) ==> x.actions.len() == 1 && x.actions[0] is ToRunner
                && x.actions[0]->runner == s.work[i].runner && x.actions[0]->evict
                && x.actions[0]->ToRunner_env.session == Some(session)
                && x.actions[0]->ToRunner_env.body == (BodyV::Abort {
                work_id: s.work[i].work_id,
            }) && x.actions[0]->fields == Map::<Seq<char>, JsonV>::empty()
            &&& (forall|k: int|
                0 <= k < s.work.len() ==> (#[trigger] s.work[k]).session != session
                    || s.work[k].work_id != env.body->Abort_0.work_id@) ==> x.actions.len() == 0
        }),
{
    lemma_route_at(s.work, session, env.body->Abort_0.work_id@);
}

/// A ping is answered with a pong, and a request for the modules with the catalog: one message,
/// to the session that asked, as the answer to its message. Nothing changes.
#[verifier::rlimit(60)]
pub proof fn law_questions_are_answered(s: RouterV, session: Seq<char>, env: Envelope, now: u64)
    requires
        env.body is Ping || env.body is ListModules,
    ensures
        ({
            let x = frontend_said(s, session, env, now);
            &&& x.state == s
            &&& x.actions.len() == 1
            &&& x.actions[0] is ToFrontend
            &&& x.actions[0]->ToFrontend_session == session
            &&& x.actions[0]->ToFrontend_env.v == 1
            &&& x.actions[0]->ToFrontend_env.reply_to == Some(env.id@)
            &&& x.actions[0]->ToFrontend_env.session == Some(session)
            &&& x.actions[0]->ToFrontend_env.body == if env.body is Ping {
                BodyV::Pong
            } else {
                BodyV::Modules(s.catalog)
            }
        }),
{
}

/// A message reports that a work unit failed, with the words for the user.
pub open spec fn reports_failure(
    a: ActionV,
    session: Seq<char>,
    work_id: Seq<char>,
    revision: u64,
    detail: Seq<char>,
) -> bool {
    &&& a is ToFrontend
    &&& a->ToFrontend_session == session
    &&& a->ToFrontend_env.v == 1
    &&& a->ToFrontend_env.session == Some(session)
    &&& a->ToFrontend_env.reply_to is None
    &&& a->ToFrontend_env.body is Outcome
    &&& a->ToFrontend_env.body->Outcome_work_id == work_id
    &&& a->ToFrontend_env.body->Outcome_revision == revision
    &&& a->ToFrontend_env.body->status == Status::FatalError
    &&& a->ToFrontend_env.body->results is Object
    &&& a->ToFrontend_env.body->results->Object_0.contains_key("error"@)
    &&& a->ToFrontend_env.body->results->Object_0["error"@] == JsonV::Bool(true)
    &&& a->ToFrontend_env.body->results->Object_0.contains_key("errorMessage"@)
    &&& a->ToFrontend_env.body->results->Object_0["errorMessage"@] == JsonV::Str(detail)
}

/// The members of a failure have different names.
pub proof fn lemma_error_names()
    ensures
        "error"@ != "errorMessage"@,
        "error"@ != "title"@,
        "errorMessage"@ != "title"@,
{
    reveal_strlit("error");
    reveal_strlit("errorMessage");
    reveal_strlit("title");
    assert("error"@[0] == 'e' && "errorMessage"@[0] == 'e' && "title"@[0] == 't');
    assert("error"@.len() == 5);
    assert("errorMessage"@.len() == 12);
}

/// Work that no runner takes, and that does not wait for one, fails back to its session with
/// the reason, and nothing changes. While no runner ever registered it is passed over.
#[verifier::rlimit(60)]
pub proof fn law_work_without_a_runner_fails(
    s: RouterV,
    session: Seq<char>,
    env: Envelope,
    now: u64,
)
    requires
        env.body is Work,
        forall|k: int|
            0 <= k < s.runners.len() ==> !takes(
                #[trigger] s.runners[k],
                env.body->Work_0.payload,
            ),
        !(s.provisions && env.body->Work_0.payload is Analysis),
    ensures
        ({
            let x = frontend_said(s, session, env, now);
            let w = env.body->Work_0;
            &&& x.state == s
            &&& !s.ever_registered ==> x.actions.len() == 0
            &&& s.ever_registered ==> x.actions.len() == 1 && reports_failure(
                x.actions[0],
                session,
                w.work_id@,
                w.revision,
                match w.payload {
                    WorkPayload::Analysis(a) =>
                        "No runner is available to run analyses from module '"@ + a.module@
                        + "'."@,
                    WorkPayload::Rcode(_) => "No runner is available to run R code."@,
                    WorkPayload::Data(_) => "No runner is available to do data work."@,
                },
            )
        }),
{
    lemma_error_names();
    lemma_nobody(s, env);
}

proof fn lemma_nobody(s: RouterV, env: Envelope)
    requires
        env.body is Work,
        forall|k: int|
            0 <= k < s.runners.len() ==> !takes(
                #[trigger] s.runners[k],
                env.body->Work_0.payload,
            ),
    ensures
        selected(s.runners, work_of(env).payload) is None,
{
    let p = env.body->Work_0.payload;
    law_the_preferred_runner_is_selected(s.runners, p);
    if let Some(i) = selected(s.runners, p) {
        lemma_takes(s.runners[i as int], p);
        assert(takes(s.runners[i as int], p));
    }
}

/// Where runners are started on demand, an analysis that no runner takes waits, in the newest
/// revision that was sent. Its session is told that it runs, and a runner for its module and
/// version is asked for when the work unit first waits.
#[verifier::rlimit(60)]
pub proof fn law_work_waits_for_a_runner(
    s: RouterV,
    session: Seq<char>,
    env: Envelope,
    now: u64,
)
    requires
        crate::router::consistent(s),
        env.body is Work,
        env.body->Work_0.payload is Analysis,
        s.provisions,
        forall|k: int|
            0 <= k < s.runners.len() ==> !takes(
                #[trigger] s.runners[k],
                env.body->Work_0.payload,
            ),
    ensures
        ({
            let x = frontend_said(s, session, env, now);
            let w = env.body->Work_0;
            let known = exists|k: int|
                0 <= k < s.parked.len() && (#[trigger] s.parked[k]).session == session
                    && s.parked[k].work_id == w.work_id@;
            &&& x.state == RouterV { parked: x.state.parked, ..s }
            &&& x.actions.len() == if known {
                1nat
            } else {
                2nat
            }
            &&& x.actions[0] is ToFrontend
            &&& x.actions[0]->ToFrontend_session == session
            &&& x.actions[0]->ToFrontend_env.session == Some(session)
            &&& x.actions[0]->ToFrontend_env.body is Outcome
            &&& x.actions[0]->ToFrontend_env.body->Outcome_work_id == w.work_id@
            &&& x.actions[0]->ToFrontend_env.body->Outcome_revision == w.revision
            &&& x.actions[0]->ToFrontend_env.body->status == Status::Running
            &&& !known ==> x.actions[1] == (ActionV::Provision {
                module: w.payload->Analysis_0.module@,
                version: w.payload->Analysis_0.module_version@,
            })
            &&& !known ==> x.state.parked.len() == s.parked.len() + 1
            &&& known ==> x.state.parked.len() == s.parked.len()
            &&& forall|k: int|
                0 <= k < s.parked.len() ==> if (#[trigger] s.parked[k]).session != session
                    || s.parked[k].work_id != w.work_id@ || s.parked[k].revision >= w.revision {
                    x.state.parked[k] == s.parked[k]
                } else {
                    x.state.parked[k].env == env && x.state.parked[k].revision == w.revision
                        && x.state.parked[k].session == session && x.state.parked[k].work_id
                        == w.work_id@ && x.state.parked[k].module == s.parked[k].module
                        && x.state.parked[k].parked_ms == s.parked[k].parked_ms
                }
            &&& !known ==> x.state.parked.last().env == env && x.state.parked.last().session
                == session && x.state.parked.last().work_id == w.work_id@
                && x.state.parked.last().revision == w.revision && x.state.parked.last().module
                == w.payload->Analysis_0.module@ && x.state.parked.last().parked_ms == now
        }),
{
    lemma_nobody(s, env);
    lemma_parked_at(s.parked, session, env.body->Work_0.work_id@);
}

} // verus!
