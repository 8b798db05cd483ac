//! What happens as peers come and go and work is closed: who hears of it, and what is left.
use vstd::prelude::*;
use vstd::string::*;
use crate::catalog::{
    advertised, analysis_names, law_catalog_is_in_order, law_earliest_advertisement_wins, merged,
    CapV, ModuleV,
};
use crate::dispatch_laws::{lemma_error_names, lemma_one_runner, lemma_takes, reports_failure, takes};
use crate::edit_schema::lemma_less_total;
use crate::envelopes::{own, register_refusal, welcome_refusal, BodyV};
use crate::json::JsonV;
use crate::levels::text_less;
use crate::messages::{Envelope, Work};
use crate::router::{
    all_ads, catalog_of, connected, consistent, crash_news, dropped, evicted, first_ready,
    frontend_said, hung, lapse_news, lapsed, minted, recomputed, registered, route_at,
    routes_elsewhere, routes_without, runner_at, selected, sessions_without, still_parked,
    unparked, ActionV, Lapse, ParkedV, RouteV, RouterV, RunnerV,
};
use crate::router_laws::{
    law_hung_runners_are_flagged, law_the_preferred_runner_is_selected, lemma_elsewhere,
    lemma_others, lemma_parked_at, lemma_route_at, lemma_runner_at, lemma_still_parked,
};
use crate::text::decimal;

verus! {

/// Closing a work unit ends its route, and closing one revision of it ends the route where that
/// revision runs; every other route stays. Work that waits is forgotten in the same way.
#[verifier::rlimit(60)]
pub proof fn law_closing_ends_routes_and_waits(
    s: RouterV,
    session: Seq<char>,
    env: Envelope,
    now: u64,
    r: RouteV,
    p: ParkedV,
)
    requires
        consistent(s),
        env.body is WorkClose,
    ensures
        ({
            let c = env.body->WorkClose_0;
            let t = frontend_said(s, session, env, now).state;
            &&& t.work.contains(r) <==> s.work.contains(r) && !(r.session == session && r.work_id
                == c.work_id@ && (c.revision is None || c.revision == Some(r.revision)))
            &&& t.parked.contains(p) <==> s.parked.contains(p) && !(p.session == session
                && p.work_id == c.work_id@ && (c.revision is None || c.revision == Some(
                p.revision,
            )))
            &&& t == RouterV { work: t.work, parked: t.parked, runners: t.runners, ..s }
        }),
{
    let c = env.body->WorkClose_0;
    let id = c.work_id@;
    lemma_route_at(s.work, session, id);
    lemma_parked_at(s.parked, session, id);
    let t = frontend_said(s, session, env, now).state;
    if let Some(n) = route_at(s.work, session, id) {
        lemma_removed(s.work, n as int, r);
        if s.work.contains(r) && r.session == session && r.work_id == id {
            let m = s.work.index_of(r);
            assert(m == n);
        }
        if s.work.remove(n as int).contains(r) && r == s.work[n as int] {
            lemma_twice(s.work, n as int);
        }
    }
    if let Some(n) = crate::router::parked_at(s.parked, session, id) {
        lemma_removed(s.parked, n as int, p);
        if s.parked.contains(p) && p.session == session && p.work_id == id {
            let m = s.parked.index_of(p);
            assert(m == n);
        }
        if s.parked.remove(n as int).contains(p) && p == s.parked[n as int] {
            lemma_twice(s.parked, n as int);
        }
    }
}

/// What is in a list without one item is in the list, and what is in the list is there too, or
/// is the item.
proof fn lemma_removed<T>(s: Seq<T>, n: int, x: T)
    requires
        0 <= n < s.len(),
    ensures
        s.remove(n).contains(x) ==> s.contains(x),
        s.contains(x) && x != s[n] ==> s.remove(n).contains(x),
{
    let w = s.remove(n);
    if w.contains(x) {
        let k = w.index_of(x);
        assert(s[if k < n {
            k
        } else {
            k + 1
        }] == x);
    }
    if s.contains(x) && x != s[n] {
        let k = s.index_of(x);
        assert(w[if k < n {
            k
        } else {
            k - 1
        }] == x);
    }
}

/// An item that is still there after it was taken out stood in the list twice.
proof fn lemma_twice<T>(s: Seq<T>, n: int)
    requires
        0 <= n < s.len(),
        s.remove(n).contains(s[n]),
    ensures
        exists|k: int| 0 <= k < s.len() && k != n && #[trigger] s[k] == s[n],
{
    let w = s.remove(n);
    let k = w.index_of(s[n]);
    let m = if k < n {
        k
    } else {
        k + 1
    };
    assert(s[m] == s[n]);
}

/// Where work that is closed runs, its runner, and no other, is told to stop it, and has one
/// work unit less; failing to tell it evicts nobody. Unless workspaces are kept, one directory
/// is deleted last. Nothing else is sent.
#[verifier::rlimit(60)]
pub proof fn law_closing_stops_the_runner(
    s: RouterV,
    session: Seq<char>,
    env: Envelope,
    now: u64,
    i: int,
)
    requires
        consistent(s),
        env.body is WorkClose,
        0 <= i < s.work.len(),
        s.work[i].session == session,
        s.work[i].work_id == env.body->WorkClose_0.work_id@,
        env.body->WorkClose_0.revision is None || env.body->WorkClose_0.revision == Some(
            s.work[i].revision,
        ),
    ensures
        ({
            let x = frontend_said(s, session, env, now);
            &&& x.actions.len() == if s.config.keep_workspaces {
                1nat
            } else {
                2nat
            }
            &&& x.actions[0] is ToRunner
            &&& x.actions[0]->runner == s.work[i].runner
            &&& x.actions[0]->ToRunner_env.session == Some(session)
            &&& x.actions[0]->ToRunner_env.body == (BodyV::Abort {
                work_id: env.body->WorkClose_0.work_id@,
            })
            &&& !x.actions[0]->evict
            &&& !s.config.keep_workspaces ==> x.actions[1] is Reclaim
            &&& x.state.runners.len() == s.runners.len()
            &&& forall|k: int|
                0 <= k < s.runners.len() ==> (#[trigger] x.state.runners[k]) == RunnerV {
                    outstanding: if s.runners[k].id == s.work[i].runner && s.runners[k].outstanding
                        > 0 {
                        (s.runners[k].outstanding - 1) as usize
                    } else {
                        s.runners[k].outstanding
                    },
                    ..s.runners[k]
                }
        }),
{
    let c = env.body->WorkClose_0;
    lemma_route_at(s.work, session, c.work_id@);
    lemma_runner_at(s.runners, s.work[i].runner);
    let x = frontend_said(s, session, env, now);
    assert forall|k: int| 0 <= k < s.runners.len() implies (#[trigger] x.state.runners[k])
        == RunnerV {
        outstanding: if s.runners[k].id == s.work[i].runner && s.runners[k].outstanding > 0 {
            (s.runners[k].outstanding - 1) as usize
        } else {
            s.runners[k].outstanding
        },
        ..s.runners[k]
    } by {
        if s.runners[k].id == s.work[i].runner {
            lemma_one_runner(s, k, runner_at(s.runners, s.work[i].runner)->0 as int);
        }
    }
}

/// Where work that is closed does not run, no runner hears of it: unless workspaces are kept one
/// directory is deleted, and that is all.
#[verifier::rlimit(60)]
pub proof fn law_closing_idle_work_tells_nobody(
    s: RouterV,
    session: Seq<char>,
    env: Envelope,
    now: u64,
)
    requires
        env.body is WorkClose,
        forall|i: int|
            0 <= i < s.work.len() ==> (#[trigger] s.work[i]).session != session
                || s.work[i].work_id != env.body->WorkClose_0.work_id@ || (
            env.body->WorkClose_0.revision is Some && env.body->WorkClose_0.revision != Some(
                s.work[i].revision,
            )),
    ensures
        ({
            let x = frontend_said(s, session, env, now);
            &&& x.state.runners == s.runners
            &&& x.actions.len() == if s.config.keep_workspaces {
                0nat
            } else {
                1nat
            }
            &&& !s.config.keep_workspaces ==> x.actions[0] is Reclaim
        }),
{
    lemma_route_at(s.work, session, env.body->WorkClose_0.work_id@);
}

/// The directory that is deleted when a revision is closed is the one where that revision, when
/// it was sent out, was told to leave its results. When a whole work unit is closed, it is the
/// one that holds those of all its revisions.
#[verifier::rlimit(60)]
pub proof fn law_closing_deletes_the_results(
    s: RouterV,
    t: RouterV,
    session: Seq<char>,
    env: Envelope,
    now: u64,
    sent: Envelope,
    before: u64,
)
    requires
        s.config.orchestrator_dir_root@ == t.config.orchestrator_dir_root@,
        !s.config.keep_workspaces,
        env.body is WorkClose,
        sent.body is Work,
        sent.body->Work_0.work_id@ == env.body->WorkClose_0.work_id@,
        frontend_said(t, session, sent, before).actions.len() == 1,
        frontend_said(t, session, sent, before).actions[0] is ToRunner,
    ensures
        ({
            let x = frontend_said(s, session, env, now);
            let path = x.actions.last()->path;
            let dir = frontend_said(t, session, sent, before).actions[0]->fields["output_dir"@];
            &&& x.actions.len() > 0
            &&& x.actions.last() is Reclaim
            &&& env.body->WorkClose_0.revision == Some(sent.body->Work_0.revision) ==> dir
                == JsonV::Str(path)
            &&& env.body->WorkClose_0.revision is None && path.len() > 0 && path.last() != '/'
                ==> dir == JsonV::Str(
                path + "/results_"@ + decimal(sent.body->Work_0.revision as nat),
            )
        }),
{
    let x = frontend_said(s, session, env, now);
    reveal_strlit("output_dir");
    reveal_strlit("base_results_dir");
    reveal_strlit("results_");
    reveal_strlit("/results_");
    reveal_strlit("/");
    assert("output_dir"@.len() == 10);
    assert("base_results_dir"@.len() == 16);
    lemma_parked_at(t.parked, session, sent.body->Work_0.work_id@);
    let path = x.actions.last()->path;
    let n = decimal(sent.body->Work_0.revision as nat);
    assert("/results_"@ =~= "/"@ + "results_"@);
    assert(path + "/"@ + ("results_"@ + n) =~= path + "/results_"@ + n);
    assert(("results_"@ + n)[0] == 'r');
}

/// A runner that is evicted is gone, and so is every route to it. Other runners and routes,
/// frontends and waiting work stay.
#[verifier::rlimit(60)]
pub proof fn law_evicted_runners_are_gone(s: RouterV, id: Seq<char>, now: u64, r: RouteV, a: RunnerV)
    requires
        consistent(s),
    ensures
        ({
            let t = evicted(s, id, now).state;
            &&& t.work.contains(r) <==> s.work.contains(r) && r.runner != id
            &&& t.runners.contains(a) <==> s.runners.contains(a) && a.id != id
            &&& t == RouterV { work: t.work, runners: t.runners, catalog: t.catalog, ..s }
        }),
{
    lemma_runner_at(s.runners, id);
    lemma_elsewhere(s.work, id);
    let t = evicted(s, id, now).state;
    if let Some(n) = runner_at(s.runners, id) {
        let n = n as int;
        lemma_removed(s.runners, n, a);
        if s.runners.contains(a) && a.id == id {
            let k = s.runners.index_of(a);
            lemma_one_runner(s, k, n);
        }
        if s.runners.remove(n).contains(a) && a.id == id {
            let w = s.runners.remove(n);
            let k = w.index_of(a);
            let m = if k < n {
                k
            } else {
                k + 1
            };
            assert(s.runners[m] == a);
            lemma_one_runner(s, m, n);
        }
        if t.work.contains(r) {
            let k = t.work.index_of(r);
            assert(s.work.contains(routes_elsewhere(s.work, id)[k]));
        }
        if s.work.contains(r) && r.runner != id {
            let k = s.work.index_of(r);
            assert(s.work[k].runner != id);
        }
    } else {
        if s.work.contains(r) {
            let k = s.work.index_of(r);
            assert(runner_at(s.runners, s.work[k].runner) is Some);
        }
        if s.runners.contains(a) && a.id == id {
            let k = s.runners.index_of(a);
            assert(s.runners[k].id != id);
        }
    }
}

/// Every work unit that a runner had when it was evicted is reported to its session as failed,
/// with its revision and the reason.
#[verifier::rlimit(60)]
pub proof fn law_evicted_work_is_reported(s: RouterV, id: Seq<char>, now: u64, i: int)
    requires
        consistent(s),
        0 <= i < s.work.len(),
        s.work[i].runner == id,
    ensures
        exists|k: int|
            0 <= k < evicted(s, id, now).actions.len() && reports_failure(
                #[trigger] evicted(s, id, now).actions[k],
                s.work[i].session,
                s.work[i].work_id,
                s.work[i].revision,
                "A fatal crash occurred while running the analysis (the runner stopped unexpectedly)."@,
            ),
{
    assert(runner_at(s.runners, s.work[i].runner) is Some);
    crate::router_laws::law_no_work_is_lost(s, id, now, i);
    lemma_error_names();
    let a = ActionV::ToFrontend {
        session: s.work[i].session,
        env: crate::envelopes::failed_envelope(
            s.work[i].work_id,
            s.work[i].revision,
            s.work[i].session,
            "A fatal crash occurred while running the analysis (the runner stopped unexpectedly)."@,
        ),
    };
    let k = evicted(s, id, now).actions.index_of(a);
    assert(evicted(s, id, now).actions[k] == a);
}

/// All that frontends hear of an eviction is the catalog, without an answer's mark, and the
/// failures of the work that the runner had. Nothing is sent to runners.
#[verifier::rlimit(60)]
pub proof fn law_evictions_tell_nothing_else(s: RouterV, id: Seq<char>, now: u64, k: int)
    requires
        consistent(s),
        0 <= k < evicted(s, id, now).actions.len(),
    ensures
        ({
            let x = evicted(s, id, now);
            let a = x.actions[k];
            match a {
                ActionV::ToFrontend { session, env } => (env.body == BodyV::Modules(
                    x.state.catalog,
                ) && env.reply_to is None && s.frontends.contains(session)) || exists|i: int|
                    0 <= i < s.work.len() && (#[trigger] s.work[i]).runner == id
                        && reports_failure(
                        a,
                        s.work[i].session,
                        s.work[i].work_id,
                        s.work[i].revision,
                        "A fatal crash occurred while running the analysis (the runner stopped unexpectedly)."@,
                    ),
                ActionV::RunnerGone { modules } => s.provisions && modules.len() > 0 && exists|
                    j: int,
                |
                    0 <= j < s.runners.len() && (#[trigger] s.runners[j]).id == id
                        && names_modules(s.runners[j].caps, modules),
                _ => false,
            }
        }),
{
    let x = evicted(s, id, now);
    lemma_runner_at(s.runners, id);
    lemma_error_names();
    if let Some(n) = runner_at(s.runners, id) {
        let n = n as int;
        let caps = s.runners[n].caps;
        let gone = crate::router::gone_news(s, caps);
        let rest = RouterV { runners: s.runners.remove(n), ..s };
        let y = recomputed(rest, now);
        let c = crash_news(s.work, id);
        assert(x.actions == gone + y.actions + c);
        lemma_names_modules(caps);
        if k < gone.len() {
            assert(names_modules(s.runners[n].caps, analysis_names(caps)));
        } else if k < gone.len() + y.actions.len() {
            let m = k - gone.len();
            assert(x.actions[k] == y.actions[m]);
            assert(s.frontends.contains(s.frontends[m]));
        } else {
            let m = k - gone.len() - y.actions.len();
            assert(x.actions[k] == c[m]);
            lemma_crash_from(s.work, id, m);
        }
    }
}

proof fn lemma_crash_from(work: Seq<RouteV>, id: Seq<char>, m: int)
    requires
        0 <= m < crash_news(work, id).len(),
    ensures
        exists|i: int|
            0 <= i < work.len() && (#[trigger] work[i]).runner == id && reports_failure(
                crash_news(work, id)[m],
                work[i].session,
                work[i].work_id,
                work[i].revision,
                "A fatal crash occurred while running the analysis (the runner stopped unexpectedly)."@,
            ),
    decreases work.len(),
{
    lemma_error_names();
    if work.len() > 0 {
        let d = work.drop_last();
        let a = crash_news(d, id);
        if m < a.len() {
            lemma_crash_from(d, id, m);
            assert(crash_news(work, id)[m] == a[m]);
            let i = choose|i: int|
                0 <= i < d.len() && (#[trigger] d[i]).runner == id && reports_failure(
                    a[m],
                    d[i].session,
                    d[i].work_id,
                    d[i].revision,
                    "A fatal crash occurred while running the analysis (the runner stopped unexpectedly)."@,
                );
            assert(work[i] == d[i]);
        } else {
            let i = work.len() - 1;
            assert(work[i].runner == id);
        }
    }
}

/// A list names the modules of the analyses among some capabilities.
pub open spec fn names_modules(caps: Seq<CapV>, names: Seq<Seq<char>>) -> bool {
    forall|m: Seq<char>| #[trigger]
        names.contains(m) <==> exists|i: int|
            0 <= i < caps.len() && (#[trigger] caps[i]) is Analysis && caps[i]->name == m
}

proof fn lemma_names_modules(caps: Seq<CapV>)
    ensures
        names_modules(caps, analysis_names(caps)),
    decreases caps.len(),
{
    if caps.len() > 0 {
        let d = caps.drop_last();
        let k = caps.len() - 1;
        lemma_names_modules(d);
        let a = analysis_names(d);
        let b = analysis_names(caps);
        assert forall|m: Seq<char>| #[trigger] b.contains(m) <==> exists|i: int|
            0 <= i < caps.len() && (#[trigger] caps[i]) is Analysis && caps[i]->name == m by {
            assert(a.contains(m) <==> exists|i: int|
                0 <= i < d.len() && (#[trigger] d[i]) is Analysis && d[i]->name == m);
            if b.contains(m) {
                let n = b.index_of(m);
                if n < a.len() {
                    assert(a[n] == m);
                    let i = choose|i: int|
                        0 <= i < d.len() && (#[trigger] d[i]) is Analysis && d[i]->name == m;
                    assert(caps[i] == d[i]);
                } else {
                    assert(caps[k] is Analysis && caps[k]->name == m);
                }
            }
            if exists|i: int|
                0 <= i < caps.len() && (#[trigger] caps[i]) is Analysis && caps[i]->name == m {
                let i = choose|i: int|
                    0 <= i < caps.len() && (#[trigger] caps[i]) is Analysis && caps[i]->name == m;
                if i < k {
                    assert(d[i] == caps[i]);
                    let n = a.index_of(m);
                    assert(b[n] == m);
                } else {
                    assert(b[b.len() - 1] == m);
                }
            }
        }
    } else {
        assert(analysis_names(caps) =~= Seq::empty());
    }
}

/// A session that is dropped is gone, and so is every route of it; other sessions and their
/// routes stay. Unless workspaces are kept, the directory of the session below the root is
/// deleted, and nothing is sent.
#[verifier::rlimit(60)]
pub proof fn law_dropped_sessions_are_gone(
    s: RouterV,
    session: Seq<char>,
    r: RouteV,
    other: Seq<char>,
)
    ensures
        ({
            let x = dropped(s, session);
            let root = s.config.orchestrator_dir_root@;
            &&& x.state.work.contains(r) <==> s.work.contains(r) && r.session != session
            &&& x.state.frontends.contains(other) <==> s.frontends.contains(other) && other
                != session
            &&& x.state == RouterV { work: x.state.work, frontends: x.state.frontends, ..s }
            &&& s.config.keep_workspaces ==> x.actions.len() == 0
            &&& !s.config.keep_workspaces ==> x.actions.len() == 1 && x.actions[0] is Reclaim
            &&& !s.config.keep_workspaces && root.len() > 0 && root.last() != '/' && session.len()
                > 0 && session[0] != '/' ==> x.actions[0]->path == root + "/"@ + session
        }),
{
    lemma_others(s.work, session);
    lemma_sessions(s.frontends, session, other);
    let w = routes_without(s.work, session);
    if w.contains(r) {
        let k = w.index_of(r);
        assert(s.work.contains(w[k]));
    }
    if s.work.contains(r) && r.session != session {
        let k = s.work.index_of(r);
        assert(s.work[k].session != session);
    }
}

proof fn lemma_sessions(f: Seq<Seq<char>>, session: Seq<char>, other: Seq<char>)
    ensures
        sessions_without(f, session).contains(other) <==> f.contains(other) && other != session,
    decreases f.len(),
{
    let b = sessions_without(f, session);
    if f.len() > 0 {
        let d = f.drop_last();
        let a = sessions_without(d, session);
        let m = f.len() - 1;
        lemma_sessions(d, session, other);
        assert(f[m] == f.last());
        if b.contains(other) {
            let k = b.index_of(other);
            if k < a.len() {
                assert(a[k] == other);
                let i = d.index_of(other);
                assert(f[i] == other);
            } else {
                assert(f[m] == other);
            }
        }
        if f.contains(other) && other != session {
            let i = f.index_of(other);
            if i < m {
                assert(d[i] == other);
                let k = a.index_of(other);
                assert(b[k] == other);
            } else {
                assert(b[b.len() - 1] == other);
            }
        }
    } else {
        assert(b =~= Seq::empty());
    }
}

/// Waiting work lapses where no runner can be started for its module, or where it waited for
/// longer than the limit. It no longer waits then, and its session hears that it failed, and
/// why; all other work goes on waiting.
#[verifier::rlimit(60)]
pub proof fn law_lapsed_work_fails(s: RouterV, l: Lapse, i: int, p: ParkedV)
    requires
        0 <= i < s.parked.len(),
    ensures
        ({
            let x = lapsed(s, l);
            let over = |q: ParkedV|
                match l {
                    Lapse::Module { module, reason } => q.module == module@,
                    Lapse::Timeout { now, limit } => now - q.parked_ms > limit,
                };
            let why = match l {
                Lapse::Module { module, reason } => "Could not start a runner for module '"@
                    + module@ + "': "@ + reason@,
                Lapse::Timeout { now, limit } => "Timed out waiting for a runner for module '"@
                    + s.parked[i].module + "'."@,
            };
            &&& x.state == RouterV { parked: x.state.parked, ..s }
            &&& x.state.parked.contains(p) <==> s.parked.contains(p) && !over(p)
            &&& over(s.parked[i]) ==> exists|k: int|
                0 <= k < x.actions.len() && reports_failure(
                    #[trigger] x.actions[k],
                    s.parked[i].session,
                    s.parked[i].work_id,
                    s.parked[i].revision,
                    why,
                )
        }),
{
    let x = lapsed(s, l);
    lemma_still_parked(s.parked, l);
    lemma_error_names();
    let w = still_parked(s.parked, l);
    if w.contains(p) {
        let k = w.index_of(p);
        assert(s.parked.contains(w[k]));
    }
    if s.parked.contains(p) {
        let k = s.parked.index_of(p);
        assert(s.parked[k] == p);
    }
    if crate::router::lapses(s.parked[i], l) {
        crate::router_laws::law_lapsed_work_is_reported(s, l, i);
        let a = ActionV::ToFrontend {
            session: s.parked[i].session,
            env: crate::envelopes::failed_envelope(
                s.parked[i].work_id,
                s.parked[i].revision,
                s.parked[i].session,
                crate::router::lapse_detail(s.parked[i], l),
            ),
        };
        let k = x.actions.index_of(a);
        assert(x.actions[k] == a);
    }
}

/// A runner that registers stands last, under an id with its number, with what it offers, and
/// with no work. Where runners are started on demand, it is announced with the modules of its
/// analyses, if it has any.
#[verifier::rlimit(60)]
pub proof fn law_registered_runners_are_known(
    s: RouterV,
    seq: u64,
    caps: Seq<CapV>,
    priority: u32,
    now: u64,
)
    ensures
        ({
            let x = registered(s, seq, caps, priority, now);
            let offers = exists|i: int| 0 <= i < caps.len() && (#[trigger] caps[i]) is Analysis;
            &&& x.state.runners.len() == s.runners.len() + 1
            &&& x.state.runners.drop_last() =~= s.runners
            &&& x.state.runners.last().id == "r-"@ + decimal(seq as nat)
            &&& x.state.runners.last().caps == caps
            &&& x.state.runners.last().priority == priority
            &&& x.state.runners.last().seq == seq
            &&& x.state.runners.last().last_activity == now
            &&& x.state.runners.last().outstanding == 0
            &&& x.state.ever_registered
            &&& x.state == RouterV { runners: x.state.runners, ever_registered: true, ..s }
            &&& if s.provisions && offers {
                x.actions.len() == 1 && x.actions[0] is RunnerUp && names_modules(
                    caps,
                    x.actions[0]->RunnerUp_modules,
                )
            } else {
                x.actions.len() == 0
            }
        }),
{
    lemma_names_modules(caps);
    reveal_strlit("r-");
    reveal_strlit("r");
    reveal_strlit("-");
    assert("r-"@ =~= "r"@ + "-"@);
    let names = analysis_names(caps);
    if exists|i: int| 0 <= i < caps.len() && (#[trigger] caps[i]) is Analysis {
        let i = choose|i: int| 0 <= i < caps.len() && (#[trigger] caps[i]) is Analysis;
        assert(names.contains(caps[i]->name));
    }
    if names.len() > 0 {
        assert(names.contains(names[0]));
    }
}

/// Ids are spelled as a letter, a dash and a number.
#[verifier::rlimit(60)]
pub proof fn law_ids_are_spelled(n: u64)
    ensures
        minted("r"@, n) == "r-"@ + decimal(n as nat),
        minted("s"@, n) == "s-"@ + decimal(n as nat),
{
    reveal_strlit("r-");
    reveal_strlit("s-");
    reveal_strlit("r");
    reveal_strlit("s");
    reveal_strlit("-");
    assert("r-"@ =~= "r"@ + "-"@);
    assert("s-"@ =~= "s"@ + "-"@);
}

/// A frontend that connects stands last among the sessions; the first thing it is sent is the
/// catalog.
#[verifier::rlimit(60)]
pub proof fn law_connected_sessions_hear_the_catalog(s: RouterV, session: Seq<char>, now: u64)
    ensures
        ({
            let x = connected(s, session, now);
            &&& x.state == RouterV { frontends: s.frontends.push(session), ..s }
            &&& x.actions.len() == 1
            &&& x.actions[0] is ToFrontend
            &&& x.actions[0]->ToFrontend_session == session
            &&& x.actions[0]->ToFrontend_env.session == Some(session)
            &&& x.actions[0]->ToFrontend_env.reply_to is None
            &&& x.actions[0]->ToFrontend_env.body == BodyV::Modules(s.catalog)
        }),
{
}

/// Waiting work is ready where it is for one of some modules and a runner takes it; the first
/// that is ready is handed out, and none only where none is ready.
#[verifier::rlimit(60)]
pub proof fn law_the_first_ready_work_is_handed_out(
    s: RouterV,
    modules: Seq<Seq<char>>,
    k: nat,
)
    requires
        consistent(s),
        k <= s.parked.len(),
    ensures
        ({
            let ready = |i: int|
                modules.contains(s.parked[i].module) && exists|j: int|
                    0 <= j < s.runners.len() && takes(
                        #[trigger] s.runners[j],
                        s.parked[i].env.body->Work_0.payload,
                    );
            match first_ready(s, modules, k) {
                Some(n) => n < k && ready(n as int) && forall|i: int|
                    0 <= i < n ==> !#[trigger] ready(i),
                None => forall|i: int| 0 <= i < k ==> !#[trigger] ready(i),
            }
        }),
    decreases k,
{
    if k > 0 {
        law_the_first_ready_work_is_handed_out(s, modules, (k - 1) as nat);
        let p = s.parked[k - 1].env.body->Work_0.payload;
        law_the_preferred_runner_is_selected(s.runners, p);
        if let Some(i) = selected(s.runners, p) {
            lemma_takes(s.runners[i as int], p);
        } else {
            assert forall|j: int| 0 <= j < s.runners.len() implies !takes(
                #[trigger] s.runners[j],
                p,
            ) by {
                lemma_takes(s.runners[j], p);
            }
        }
    }
}

/// Work that is handed out after it waited goes the way it would go if its frontend sent it
/// now, and waits no longer.
#[verifier::rlimit(60)]
pub proof fn law_waiting_work_is_sent_like_new(
    s: RouterV,
    modules: Seq<Seq<char>>,
    i: int,
    now: u64,
)
    requires
        consistent(s),
        first_ready(s, modules, s.parked.len()) == Some(i as nat),
        0 <= i,
    ensures
        ({
            let x = unparked(s, i);
            let y = frontend_said(
                RouterV { parked: s.parked.remove(i), ..s },
                s.parked[i].session,
                s.parked[i].env,
                now,
            );
            i < s.parked.len() && x.state == y.state && x.actions == y.actions && x.actions.len()
                == 1 && x.actions[0] is ToRunner
        }),
{
    law_the_first_ready_work_is_handed_out(s, modules, s.parked.len());
    let p = s.parked[i].env.body->Work_0.payload;
    law_the_preferred_runner_is_selected(s.runners, p);
    let j = choose|j: int|
        0 <= j < s.runners.len() && takes(
            #[trigger] s.runners[j],
            s.parked[i].env.body->Work_0.payload,
        );
    lemma_takes(s.runners[j], p);
}

/// A runner is listed as hanging exactly where it has work and gave no sign of life for longer
/// than the limit.
#[verifier::rlimit(60)]
pub proof fn law_silent_runners_hang(rs: Seq<RunnerV>, now: u64, limit: u64, id: Seq<char>)
    ensures
        hung(rs, now, limit).contains(id) <==> exists|i: int|
            0 <= i < rs.len() && (#[trigger] rs[i]).id == id && rs[i].outstanding > 0 && now
                - rs[i].last_activity > limit,
{
    law_hung_runners_are_flagged(rs, now, limit, id);
    if hung(rs, now, limit).contains(id) {
        let i = choose|i: int|
            0 <= i < rs.len() && crate::router::hangs(#[trigger] rs[i], now, limit) && rs[i].id
                == id;
        assert(rs[i].id == id);
    }
    if exists|i: int|
        0 <= i < rs.len() && (#[trigger] rs[i]).id == id && rs[i].outstanding > 0 && now
            - rs[i].last_activity > limit {
        let i = choose|i: int|
            0 <= i < rs.len() && (#[trigger] rs[i]).id == id && rs[i].outstanding > 0 && now
                - rs[i].last_activity > limit;
        assert(crate::router::hangs(rs[i], now, limit));
    }
}

/// A runner advertises a module: one of its analyses has the name and version, and an address.
pub open spec fn advertises(r: RunnerV, m: ModuleV) -> bool {
    exists|i: int|
        0 <= i < r.caps.len() && #[trigger] r.caps[i] == (CapV::Analysis {
            name: m.name,
            version: m.version,
            base_uri: Some(m.base_uri),
        })
}

/// When the catalog is computed again it holds the modules of the library paths, and of the
/// others only such as a runner advertises; every module that a runner advertises is in it
/// under its name and version. It is sorted by name. All frontends are sent it where it
/// changed, and nothing is sent where it did not.
#[verifier::rlimit(60)]
pub proof fn law_the_catalog_lists_what_there_is(s: RouterV, now: u64, m: ModuleV, a: int, b: int)
    ensures
        ({
            let x = recomputed(s, now);
            let c = x.state.catalog;
            let mine = exists|i: int|
                0 <= i < s.libset.len() && (#[trigger] s.libset[i]).name == m.name
                    && s.libset[i].version == m.version;
            let offered = exists|j: int|
                0 <= j < s.runners.len() && advertises(#[trigger] s.runners[j], m);
            &&& s.libset.contains(m) ==> c.contains(m)
            &&& c.contains(m) ==> s.libset.contains(m) || (offered && !mine)
            &&& offered ==> exists|i: int|
                0 <= i < c.len() && (#[trigger] c[i]).name == m.name && c[i].version == m.version
            &&& 0 <= a < b < c.len() ==> !text_less(c[b].name, c[a].name)
            &&& x.state == RouterV { catalog: c, ..s }
            &&& x.actions.len() == if c == s.catalog {
                0
            } else {
                s.frontends.len()
            }
            &&& c != s.catalog && 0 <= a < s.frontends.len() ==> x.actions[a] is ToFrontend
                && x.actions[a]->ToFrontend_session == s.frontends[a]
                && x.actions[a]->ToFrontend_env.body == BodyV::Modules(c)
                && x.actions[a]->ToFrontend_env.reply_to is None
                && x.actions[a]->ToFrontend_env.session is None
        }),
{
    let ads = all_ads(s.runners);
    let all = merged(s.libset, ads);
    let c = catalog_of(s.libset, s.runners);
    law_catalog_is_in_order(all);
    lemma_same_members(all, c, m);
    law_earliest_advertisement_wins(s.libset, ads, m);
    lemma_ads(s.runners, m);
    if 0 <= a < b < c.len() {
        assert(!crate::catalog::module_less(c[b], c[a]));
    }
    let mine = exists|i: int|
        0 <= i < s.libset.len() && (#[trigger] s.libset[i]).name == m.name && s.libset[i].version
            == m.version;
    assert(mine == crate::catalog::known(s.libset, m)) by {
        if mine {
            let i = choose|i: int|
                0 <= i < s.libset.len() && (#[trigger] s.libset[i]).name == m.name
                    && s.libset[i].version == m.version;
            assert(crate::catalog::same_module(s.libset[i], m));
        }
        if crate::catalog::known(s.libset, m) {
            let i = choose|i: int|
                0 <= i < s.libset.len() && crate::catalog::same_module(#[trigger] s.libset[i], m);
            assert(s.libset[i].name == m.name);
        }
    }
    if ads.contains(m) {
        lemma_known(s.libset, ads, m);
        let i = choose|i: int|
            0 <= i < all.len() && crate::catalog::same_module(#[trigger] all[i], m);
        lemma_same_members(all, c, all[i]);
        assert(all.contains(all[i]));
        let k = c.index_of(all[i]);
        assert(c[k].name == m.name && c[k].version == m.version);
    }
}

proof fn lemma_known(s: Seq<ModuleV>, ads: Seq<ModuleV>, m: ModuleV)
    requires
        ads.contains(m),
    ensures
        crate::catalog::known(merged(s, ads), m),
    decreases ads.len(),
{
    let d = ads.drop_last();
    let p = merged(s, d);
    let all = merged(s, ads);
    if d.contains(m) {
        lemma_known(s, d, m);
        let i = choose|i: int|
            0 <= i < p.len() && crate::catalog::same_module(#[trigger] p[i], m);
        assert(all[i] == p[i]);
    } else {
        let k = ads.index_of(m);
        if k < d.len() {
            assert(d[k] == m);
        }
        if !crate::catalog::known(p, m) {
            assert(all[p.len() as int] == m);
        }
    }
}

proof fn lemma_same_members(all: Seq<ModuleV>, c: Seq<ModuleV>, m: ModuleV)
    requires
        c.to_multiset() == all.to_multiset(),
    ensures
        c.contains(m) <==> all.contains(m),
{
    all.to_multiset_ensures();
    c.to_multiset_ensures();
    assert(all.contains(m) <==> all.to_multiset().count(m) > 0);
    assert(c.contains(m) <==> c.to_multiset().count(m) > 0);
}

proof fn lemma_ads(rs: Seq<RunnerV>, m: ModuleV)
    ensures
        all_ads(rs).contains(m) <==> exists|j: int|
            0 <= j < rs.len() && advertises(#[trigger] rs[j], m),
    decreases rs.len(),
{
    let b = all_ads(rs);
    if rs.len() > 0 {
        let d = rs.drop_last();
        let a = all_ads(d);
        let k = rs.len() - 1;
        let last = advertised(rs.last().caps);
        lemma_ads(d, m);
        lemma_advertised(rs.last().caps, m);
        if b.contains(m) {
            let i = b.index_of(m);
            if i < a.len() {
                assert(a[i] == m);
                let j = choose|j: int| 0 <= j < d.len() && advertises(#[trigger] d[j], m);
                assert(rs[j] == d[j]);
            } else {
                assert(last[i - a.len()] == m);
                assert(advertises(rs[k], m));
            }
        }
        if exists|j: int| 0 <= j < rs.len() && advertises(#[trigger] rs[j], m) {
            let j = choose|j: int| 0 <= j < rs.len() && advertises(#[trigger] rs[j], m);
            if j < k {
                assert(d[j] == rs[j]);
                let i = a.index_of(m);
                assert(b[i] == m);
            } else {
                let i = last.index_of(m);
                assert(b[a.len() + i] == m);
            }
        }
    } else {
        assert(b =~= Seq::empty());
    }
}

proof fn lemma_advertised(caps: Seq<CapV>, m: ModuleV)
    ensures
        advertised(caps).contains(m) <==> exists|i: int|
            0 <= i < caps.len() && #[trigger] caps[i] == (CapV::Analysis {
                name: m.name,
                version: m.version,
                base_uri: Some(m.base_uri),
            }),
    decreases caps.len(),
{
    let b = advertised(caps);
    let x = CapV::Analysis { name: m.name, version: m.version, base_uri: Some(m.base_uri) };
    if caps.len() > 0 {
        let d = caps.drop_last();
        let a = advertised(d);
        let k = caps.len() - 1;
        lemma_advertised(d, m);
        if b.contains(m) {
            let i = b.index_of(m);
            if i < a.len() {
                assert(a[i] == m);
                let j = choose|j: int| 0 <= j < d.len() && #[trigger] d[j] == x;
                assert(caps[j] == x);
            } else {
                assert(caps[k] == x);
            }
        }
        if exists|j: int| 0 <= j < caps.len() && #[trigger] caps[j] == x {
            let j = choose|j: int| 0 <= j < caps.len() && #[trigger] caps[j] == x;
            if j < k {
                assert(d[j] == x);
                let i = a.index_of(m);
                assert(b[i] == m);
            } else {
                assert(b[b.len() - 1] == m);
            }
        }
    } else {
        assert(b =~= Seq::empty());
    }
}

/// A registration or a greeting that is refused is answered, and the answer says no and why;
/// it hands out no channel.
#[verifier::rlimit(60)]
pub proof fn law_refusals_say_why(reason: Seq<char>, reply_to: Seq<char>)
    ensures
        ({
            let r = register_refusal(reason, reply_to);
            &&& r.v == 1
            &&& r.reply_to == Some(reply_to)
            &&& r.session is None
            &&& r.body is RegisterAck
            &&& !r.body->RegisterAck_ok
            &&& r.body->runner_id is None
            &&& r.body->RegisterAck_channel_url is None
            &&& reason.len() > 0 ==> r.body->reason == Some(reason)
        }),
        ({
            let r = welcome_refusal(reason, reply_to);
            &&& r.v == 1
            &&& r.reply_to == Some(reply_to)
            &&& r.session is None
            &&& r.body is Welcome
            &&& !r.body->Welcome_ok
            &&& r.body->Welcome_channel_url is None
            &&& r.body->error == Some(reason)
        }),
{
}

/// A message of the orchestrator's own is of the first version and carries what it was given.
#[verifier::rlimit(60)]
pub proof fn law_own_messages_carry_what_they_are_given(
    id: Seq<char>,
    reply_to: Option<Seq<char>>,
    session: Option<Seq<char>>,
    body: BodyV,
)
    ensures
        own(id, reply_to, session, body).v == 1,
        own(id, reply_to, session, body).id == id,
        own(id, reply_to, session, body).reply_to == reply_to,
        own(id, reply_to, session, body).session == session,
        own(id, reply_to, session, body).ts is None,
        own(id, reply_to, session, body).body == body,
{
}

/// After an eviction the catalog is the one that there is to compute, and where it changed
/// every frontend is sent it.
#[verifier::rlimit(60)]
pub proof fn law_evictions_refresh_the_catalog(
    s: RouterV,
    id: Seq<char>,
    now: u64,
    later: u64,
    i: int,
)
    requires
        runner_at(s.runners, id) is Some,
    ensures
        ({
            let x = evicted(s, id, now);
            &&& recomputed(x.state, later).state == x.state
            &&& recomputed(x.state, later).actions.len() == 0
            &&& x.state.catalog != s.catalog && 0 <= i < s.frontends.len() ==> exists|k: int|
                0 <= k < x.actions.len() && (#[trigger] x.actions[k]) is ToFrontend
                    && x.actions[k]->ToFrontend_session == s.frontends[i]
                    && x.actions[k]->ToFrontend_env.body == BodyV::Modules(x.state.catalog)
            &&& s.provisions && (exists|n: int|
                0 <= n < s.runners[runner_at(s.runners, id)->0 as int].caps.len() && (
                #[trigger] s.runners[runner_at(s.runners, id)->0 as int].caps[n]) is Analysis)
                ==> x.actions.len() > 0 && x.actions[0] is RunnerGone
        }),
{
    let x = evicted(s, id, now);
    let n = runner_at(s.runners, id)->0 as int;
    let caps = s.runners[n].caps;
    let gone = crate::router::gone_news(s, caps);
    let rest = RouterV { runners: s.runners.remove(n), ..s };
    let y = recomputed(rest, now);
    let c = crash_news(s.work, id);
    assert(x.actions == gone + y.actions + c);
    assert(x.state.catalog == catalog_of(s.libset, x.state.runners));
    if x.state.catalog != s.catalog && 0 <= i < s.frontends.len() {
        let k = gone.len() + i;
        assert(x.actions[k] == y.actions[i]);
    }
    lemma_names_modules(caps);
    if exists|m: int| 0 <= m < caps.len() && (#[trigger] caps[m]) is Analysis {
        let m = choose|m: int| 0 <= m < caps.len() && (#[trigger] caps[m]) is Analysis;
        assert(analysis_names(caps).contains(caps[m]->name));
        if s.provisions {
            assert(x.actions[0] == gone[0]);
        }
    }
}

/// All that is sent when waiting work lapses are the failures of that work, one for each.
#[verifier::rlimit(60)]
pub proof fn law_lapses_tell_nothing_else(s: RouterV, l: Lapse, k: int)
    requires
        0 <= k < lapsed(s, l).actions.len(),
    ensures
        exists|i: int|
            0 <= i < s.parked.len() && crate::router::lapses(#[trigger] s.parked[i], l)
                && reports_failure(
                lapsed(s, l).actions[k],
                s.parked[i].session,
                s.parked[i].work_id,
                s.parked[i].revision,
                crate::router::lapse_detail(s.parked[i], l),
            ),
        lapsed(s, l).actions.len() + lapsed(s, l).state.parked.len() == s.parked.len(),
{
    lemma_lapse_from(s.parked, l, k);
    lemma_lapse_count(s.parked, l);
}

proof fn lemma_lapse_count(p: Seq<ParkedV>, l: Lapse)
    ensures
        lapse_news(p, l).len() + still_parked(p, l).len() == p.len(),
    decreases p.len(),
{
    if p.len() > 0 {
        lemma_lapse_count(p.drop_last(), l);
    }
}

proof fn lemma_lapse_from(p: Seq<ParkedV>, l: Lapse, k: int)
    requires
        0 <= k < lapse_news(p, l).len(),
    ensures
        exists|i: int|
            0 <= i < p.len() && crate::router::lapses(#[trigger] p[i], l) && reports_failure(
                lapse_news(p, l)[k],
                p[i].session,
                p[i].work_id,
                p[i].revision,
                crate::router::lapse_detail(p[i], l),
            ),
    decreases p.len(),
{
    lemma_error_names();
    if p.len() > 0 {
        let d = p.drop_last();
        let a = lapse_news(d, l);
        if k < a.len() {
            lemma_lapse_from(d, l, k);
            assert(lapse_news(p, l)[k] == a[k]);
            let i = choose|i: int|
                0 <= i < d.len() && crate::router::lapses(#[trigger] d[i], l) && reports_failure(
                    a[k],
                    d[i].session,
                    d[i].work_id,
                    d[i].revision,
                    crate::router::lapse_detail(d[i], l),
                );
            assert(p[i] == d[i]);
        } else {
            let i = p.len() - 1;
            assert(crate::router::lapses(p[i], l));
        }
    }
}

/// A module of the catalog that is not one of the library paths has the address that the runner
/// that registered first, of those that advertise it, gives it. The catalog has each name and
/// version once if the library paths do, and stands in the order of names, then versions, then
/// addresses.
#[verifier::rlimit(60)]
pub proof fn law_the_first_advertisement_counts(s: RouterV, now: u64, m: ModuleV, a: int, b: int)
    ensures
        ({
            let c = recomputed(s, now).state.catalog;
            &&& c.contains(m) && !s.libset.contains(m) ==> exists|j: int|
                0 <= j < s.runners.len() && advertises(#[trigger] s.runners[j], m) && forall|
                    i: int,
                    u: Seq<char>,
                |
                    0 <= i < j ==> !#[trigger] advertises(
                        s.runners[i],
                        ModuleV { base_uri: u, ..m },
                    )
            &&& 0 <= a < b < c.len() ==> {
                let x = c[a];
                let y = c[b];
                text_less(x.name, y.name) || (x.name == y.name && (text_less(x.version, y.version)
                    || (x.version == y.version && !text_less(y.base_uri, x.base_uri))))
            }
        }),
{
    let ads = all_ads(s.runners);
    let all = merged(s.libset, ads);
    let c = catalog_of(s.libset, s.runners);
    assert(recomputed(s, now).state.catalog == c);
    law_catalog_is_in_order(all);
    lemma_same_members(all, c, m);
    law_earliest_advertisement_wins(s.libset, ads, m);
    if c.contains(m) && !s.libset.contains(m) {
        let i = choose|i: int|
            0 <= i < ads.len() && #[trigger] ads[i] == m && forall|k: int|
                0 <= k < i ==> !crate::catalog::same_module(#[trigger] ads[k], m);
        lemma_first_ad(s.runners, m, i);
    }
    if 0 <= a < b < c.len() {
        assert(!crate::catalog::module_less(c[b], c[a]));
        lemma_less_total(c[a].name, c[b].name);
        lemma_less_total(c[a].version, c[b].version);
    }
}

proof fn lemma_first_ad(rs: Seq<RunnerV>, m: ModuleV, i: int)
    requires
        0 <= i < all_ads(rs).len(),
        all_ads(rs)[i] == m,
        forall|k: int|
            0 <= k < i ==> !crate::catalog::same_module(#[trigger] all_ads(rs)[k], m),
    ensures
        exists|j: int|
            0 <= j < rs.len() && advertises(#[trigger] rs[j], m) && forall|n: int, u: Seq<char>|
                0 <= n < j ==> !#[trigger] advertises(rs[n], ModuleV { base_uri: u, ..m }),
    decreases rs.len(),
{
    if rs.len() > 0 {
        let d = rs.drop_last();
        let a = all_ads(d);
        let b = all_ads(rs);
        let last = advertised(rs.last().caps);
        let top = rs.len() - 1;
        if i < a.len() {
            assert(a[i] == m);
            assert forall|k: int| 0 <= k < i implies !crate::catalog::same_module(
                #[trigger] a[k],
                m,
            ) by {
                assert(b[k] == a[k]);
            }
            lemma_first_ad(d, m, i);
            let j = choose|j: int|
                0 <= j < d.len() && advertises(#[trigger] d[j], m) && forall|
                    n: int,
                    u: Seq<char>,
                |
                    0 <= n < j ==> !#[trigger] advertises(d[n], ModuleV { base_uri: u, ..m });
            assert(rs[j] == d[j]);
            assert forall|n: int, u: Seq<char>| 0 <= n < j implies !#[trigger] advertises(
                rs[n],
                ModuleV { base_uri: u, ..m },
            ) by {
                assert(rs[n] == d[n]);
                assert(!advertises(d[n], ModuleV { base_uri: u, ..m }));
            }
        } else {
            assert(last[i - a.len()] == m);
            lemma_advertised(rs.last().caps, m);
            assert(advertises(rs[top], m));
            assert forall|n: int, u: Seq<char>| 0 <= n < top implies !#[trigger] advertises(
                rs[n],
                ModuleV { base_uri: u, ..m },
            ) by {
                let o = ModuleV { base_uri: u, ..m };
                if advertises(rs[n], o) {
                    assert(d[n] == rs[n]);
                    lemma_ads(d, o);
                    let k = a.index_of(o);
                    assert(b[k] == o);
                    assert(crate::catalog::same_module(b[k], m));
                }
            }
        }
    }
}

} // verus!
