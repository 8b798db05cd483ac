//! What the router keeps over every event.
use vstd::prelude::*;
use vstd::string::*;
use crate::catalog::{
    arranged, law_catalog_is_in_order, law_earliest_advertisement_wins, merged, CapV, ModuleV,
};
use crate::config::{path_below, results_dir};
use crate::envelopes::{abort_envelope, failed_envelope};
use crate::messages::{Envelope, Message, WorkPayload};
use crate::router::{
    all_ads, busier, can_serve, catalog_of, closed, connected, consistent, crash_news, dispatched,
    dropped, evicted, first_ready, forgotten, frontend_said, hangs, hung, idle, lapse_detail, lapse_news,
    lapsed, lapses, minted, parked_at, parks, preferred, recomputed, registered, released, route_at,
    routed_result, routes_elsewhere, routes_without, runner_at, runner_said, selected, still_parked,
    stopped, unparked, with_route, work_of, ActionV, Lapse, ParkedV, RouteV, RouterV, RunnerV,
};
use crate::text::{decimal, lemma_decimal_injective};

verus! {

/// A route that is found is there, and one that is not found is not.
pub proof fn lemma_route_at(work: Seq<RouteV>, session: Seq<char>, work_id: Seq<char>)
    ensures
        match route_at(work, session, work_id) {
            Some(i) => i < work.len() && work[i as int].session == session
                && work[i as int].work_id == work_id,
            None => forall|k: int|
                0 <= k < work.len() ==> (#[trigger] work[k]).session != session
                    || work[k].work_id != work_id,
        },
    decreases work.len(),
{
    if work.len() > 0 {
        let rest = work.drop_last();
        lemma_route_at(rest, session, work_id);
        assert forall|k: int| 0 <= k < work.len() - 1 implies work[k] == rest[k] by {}
    }
}

/// A waiting work unit that is found is there, and one that is not found is not.
pub proof fn lemma_parked_at(p: Seq<ParkedV>, session: Seq<char>, work_id: Seq<char>)
    ensures
        match parked_at(p, session, work_id) {
            Some(i) => i < p.len() && p[i as int].session == session
                && p[i as int].work_id == work_id,
            None => forall|k: int|
                0 <= k < p.len() ==> (#[trigger] p[k]).session != session
                    || p[k].work_id != work_id,
        },
    decreases p.len(),
{
    if p.len() > 0 {
        let rest = p.drop_last();
        lemma_parked_at(rest, session, work_id);
        assert forall|k: int| 0 <= k < p.len() - 1 implies p[k] == rest[k] by {}
    }
}

/// A runner that is found is there, and one that is not found is not.
pub proof fn lemma_runner_at(rs: Seq<RunnerV>, id: Seq<char>)
    ensures
        match runner_at(rs, id) {
            Some(i) => i < rs.len() && rs[i as int].id == id,
            None => forall|k: int| 0 <= k < rs.len() ==> (#[trigger] rs[k]).id != id,
        },
    decreases rs.len(),
{
    if rs.len() > 0 {
        let rest = rs.drop_last();
        lemma_runner_at(rest, id);
        assert forall|k: int| 0 <= k < rs.len() - 1 implies rs[k] == rest[k] by {}
    }
}

/// Runners may change in anything but their ids and registration numbers.
pub proof fn lemma_same_runners(s: RouterV, rs: Seq<RunnerV>)
    requires
        consistent(s),
        rs.len() == s.runners.len(),
        forall|i: int|
            0 <= i < rs.len() ==> (#[trigger] rs[i]).id == s.runners[i].id && rs[i].seq
                == s.runners[i].seq,
    ensures
        consistent(RouterV { runners: rs, ..s }),
{
    assert forall|i: int| 0 <= i < s.work.len() implies runner_at(
        rs,
        (#[trigger] s.work[i]).runner,
    ) is Some by {
        let id = s.work[i].runner;
        lemma_runner_at(s.runners, id);
        lemma_runner_at(rs, id);
        let k = runner_at(s.runners, id)->0 as int;
        assert(rs[k].id == id);
    }
}

proof fn lemma_released(s: RouterV, id: Seq<char>)
    requires
        consistent(s),
    ensures
        consistent(RouterV { runners: released(s.runners, id), ..s }),
{
    lemma_runner_at(s.runners, id);
    lemma_same_runners(s, released(s.runners, id));
}

proof fn lemma_dispatched(s: RouterV, i: int, session: Seq<char>, env: Envelope)
    requires
        consistent(s),
        0 <= i < s.runners.len(),
    ensures
        consistent(dispatched(s, i, session, env).state),
{
    let w = work_of(env);
    let rs = s.runners.update(i, busier(s.runners[i]));
    let t = RouterV { runners: rs, ..s };
    lemma_same_runners(s, rs);
    let r = RouteV { session, work_id: w.work_id@, runner: s.runners[i].id, revision: w.revision };
    lemma_route_at(s.work, session, w.work_id@);
    lemma_runner_at(rs, s.runners[i].id);
    assert(rs[i].id == s.runners[i].id);
    let x = dispatched(s, i, session, env).state;
    assert(x.work == with_route(s.work, r));
    assert forall|k: int| 0 <= k < x.work.len() implies runner_at(
        x.runners,
        (#[trigger] x.work[k]).runner,
    ) is Some by {
        if k < s.work.len() && x.work[k] == s.work[k] {
            assert(runner_at(t.runners, t.work[k].runner) is Some);
        }
    }
}

proof fn lemma_without(s: RouterV, i: int)
    requires
        consistent(s),
        0 <= i < s.work.len(),
    ensures
        consistent(RouterV { work: s.work.remove(i), ..s }),
{
    let work = s.work.remove(i);
    assert forall|k: int| 0 <= k < work.len() implies runner_at(
        s.runners,
        (#[trigger] work[k]).runner,
    ) is Some by {
        assert(work[k] == s.work[if k < i {
            k
        } else {
            k + 1
        }]);
    }
    assert forall|a: int, b: int| 0 <= a < b < work.len() implies (#[trigger] work[a]).session != (
    #[trigger] work[b]).session || work[a].work_id != work[b].work_id by {
        let a2 = if a < i {
            a
        } else {
            a + 1
        };
        let b2 = if b < i {
            b
        } else {
            b + 1
        };
        assert(work[a] == s.work[a2]);
        assert(work[b] == s.work[b2]);
    }
}

pub proof fn lemma_elsewhere(work: Seq<RouteV>, id: Seq<char>)
    ensures
        forall|i: int|
            0 <= i < routes_elsewhere(work, id).len() ==> work.contains(
                #[trigger] routes_elsewhere(work, id)[i],
            ) && routes_elsewhere(work, id)[i].runner != id,
        forall|i: int|
            0 <= i < work.len() && (#[trigger] work[i]).runner != id ==> routes_elsewhere(
                work,
                id,
            ).contains(work[i]),
    decreases work.len(),
{
    if work.len() > 0 {
        let rest = work.drop_last();
        lemma_elsewhere(rest, id);
        let a = routes_elsewhere(rest, id);
        let b = routes_elsewhere(work, id);
        assert forall|i: int| 0 <= i < b.len() implies work.contains(#[trigger] b[i]) && b[i].runner
            != id by {
            if i < a.len() {
                assert(b[i] == a[i]);
                assert(rest.contains(a[i]));
                let k = rest.index_of(a[i]);
                assert(work[k] == a[i]);
            } else {
                assert(work[work.len() - 1] == b[i]);
            }
        }
        assert forall|i: int| 0 <= i < work.len() && (#[trigger] work[i]).runner
            != id implies b.contains(work[i]) by {
            if i < rest.len() {
                assert(rest[i] == work[i]);
                assert(a.contains(rest[i]));
                let k = a.index_of(rest[i]);
                assert(b[k] == work[i]);
            } else {
                assert(b[b.len() - 1] == work[i]);
            }
        }
    }
}

/// No work unit has two routes.
spec fn apart(work: Seq<RouteV>) -> bool {
    forall|i: int, k: int|
        0 <= i < k < work.len() ==> (#[trigger] work[i]).session != (#[trigger] work[k]).session
            || work[i].work_id != work[k].work_id
}

proof fn lemma_elsewhere_apart(work: Seq<RouteV>, id: Seq<char>)
    requires
        apart(work),
    ensures
        apart(routes_elsewhere(work, id)),
    decreases work.len(),
{
    if work.len() > 0 {
        let rest = work.drop_last();
        assert(apart(rest)) by {
            assert forall|k: int| 0 <= k < rest.len() implies rest[k] == work[k] by {}
        }
        lemma_elsewhere_apart(rest, id);
        lemma_elsewhere(rest, id);
        let a = routes_elsewhere(rest, id);
        let b = routes_elsewhere(work, id);
        assert forall|i: int, k: int| 0 <= i < k < b.len() implies (#[trigger] b[i]).session != (
        #[trigger] b[k]).session || b[i].work_id != b[k].work_id by {
            assert(b[i] == a[i]);
            if k < a.len() {
                assert(b[k] == a[k]);
            } else {
                let m = rest.index_of(a[i]);
                assert(work[m] == a[i]);
            }
        }
    }
}

pub proof fn lemma_others(work: Seq<RouteV>, session: Seq<char>)
    ensures
        forall|i: int|
            0 <= i < routes_without(work, session).len() ==> work.contains(
                #[trigger] routes_without(work, session)[i],
            ) && routes_without(work, session)[i].session != session,
        forall|i: int|
            0 <= i < work.len() && (#[trigger] work[i]).session != session ==> routes_without(
                work,
                session,
            ).contains(work[i]),
    decreases work.len(),
{
    if work.len() > 0 {
        let rest = work.drop_last();
        lemma_others(rest, session);
        let a = routes_without(rest, session);
        let b = routes_without(work, session);
        assert forall|i: int| 0 <= i < b.len() implies work.contains(#[trigger] b[i])
            && b[i].session != session by {
            if i < a.len() {
                assert(b[i] == a[i]);
                let k = rest.index_of(a[i]);
                assert(work[k] == a[i]);
            } else {
                assert(work[work.len() - 1] == b[i]);
            }
        }
        assert forall|i: int| 0 <= i < work.len() && (#[trigger] work[i]).session
            != session implies b.contains(work[i]) by {
            if i < rest.len() {
                assert(rest[i] == work[i]);
                let k = a.index_of(rest[i]);
                assert(b[k] == work[i]);
            } else {
                assert(b[b.len() - 1] == work[i]);
            }
        }
    }
}

proof fn lemma_others_apart(work: Seq<RouteV>, session: Seq<char>)
    requires
        apart(work),
    ensures
        apart(routes_without(work, session)),
    decreases work.len(),
{
    if work.len() > 0 {
        let rest = work.drop_last();
        assert(apart(rest)) by {
            assert forall|k: int| 0 <= k < rest.len() implies rest[k] == work[k] by {}
        }
        lemma_others_apart(rest, session);
        lemma_others(rest, session);
        let a = routes_without(rest, session);
        let b = routes_without(work, session);
        assert forall|i: int, k: int| 0 <= i < k < b.len() implies (#[trigger] b[i]).session != (
        #[trigger] b[k]).session || b[i].work_id != b[k].work_id by {
            assert(b[i] == a[i]);
            if k < a.len() {
                assert(b[k] == a[k]);
            } else {
                let m = rest.index_of(a[i]);
                assert(work[m] == a[i]);
            }
        }
    }
}

/// No work unit waits twice, and what waits is an analysis.
spec fn parked_apart(p: Seq<ParkedV>) -> bool {
    &&& forall|i: int, k: int|
        0 <= i < k < p.len() ==> (#[trigger] p[i]).session != (#[trigger] p[k]).session
            || p[i].work_id != p[k].work_id
    &&& forall|i: int|
        0 <= i < p.len() ==> (#[trigger] p[i]).env.body is Work && work_of(
            p[i].env,
        ).payload is Analysis
}

pub proof fn lemma_still_parked(p: Seq<ParkedV>, l: Lapse)
    ensures
        forall|i: int|
            0 <= i < still_parked(p, l).len() ==> p.contains(#[trigger] still_parked(p, l)[i])
                && !lapses(still_parked(p, l)[i], l),
        forall|i: int|
            0 <= i < p.len() && !lapses(#[trigger] p[i], l) ==> still_parked(p, l).contains(p[i]),
    decreases p.len(),
{
    if p.len() > 0 {
        let rest = p.drop_last();
        lemma_still_parked(rest, l);
        let a = still_parked(rest, l);
        let b = still_parked(p, l);
        assert forall|i: int| 0 <= i < b.len() implies p.contains(#[trigger] b[i]) && !lapses(
            b[i],
            l,
        ) by {
            if i < a.len() {
                assert(b[i] == a[i]);
                let k = rest.index_of(a[i]);
                assert(p[k] == a[i]);
            } else {
                assert(p[p.len() - 1] == b[i]);
            }
        }
        assert forall|i: int| 0 <= i < p.len() && !lapses(#[trigger] p[i], l) implies b.contains(
            p[i],
        ) by {
            if i < rest.len() {
                assert(rest[i] == p[i]);
                let k = a.index_of(rest[i]);
                assert(b[k] == p[i]);
            } else {
                assert(b[b.len() - 1] == p[i]);
            }
        }
    }
}

proof fn lemma_still_apart(p: Seq<ParkedV>, l: Lapse)
    requires
        parked_apart(p),
    ensures
        parked_apart(still_parked(p, l)),
    decreases p.len(),
{
    if p.len() > 0 {
        let rest = p.drop_last();
        assert(parked_apart(rest)) by {
            assert forall|k: int| 0 <= k < rest.len() implies rest[k] == p[k] by {}
        }
        lemma_still_apart(rest, l);
        lemma_still_parked(rest, l);
        let a = still_parked(rest, l);
        let b = still_parked(p, l);
        assert forall|i: int, k: int| 0 <= i < k < b.len() implies (#[trigger] b[i]).session != (
        #[trigger] b[k]).session || b[i].work_id != b[k].work_id by {
            assert(b[i] == a[i]);
            if k < a.len() {
                assert(b[k] == a[k]);
            } else {
                let m = rest.index_of(a[i]);
                assert(p[m] == a[i]);
            }
        }
        assert forall|i: int| 0 <= i < b.len() implies (#[trigger] b[i]).env.body is Work
            && work_of(b[i].env).payload is Analysis by {
            if i < a.len() {
                assert(b[i] == a[i]);
            } else {
                assert(b[i] == p[p.len() - 1]);
            }
        }
    }
}

/// Work goes to a runner that can do it, and no runner that can do it is preferred. Only where
/// none can do it is none selected.
pub proof fn law_the_preferred_runner_is_selected(rs: Seq<RunnerV>, p: WorkPayload)
    ensures
        match selected(rs, p) {
            Some(i) => i < rs.len() && can_serve(rs[i as int].caps, p) && forall|k: int|
                0 <= k < rs.len() && can_serve((#[trigger] rs[k]).caps, p) ==> preferred(
                    rs[i as int],
                    rs[k],
                    p,
                ),
            None => forall|k: int| 0 <= k < rs.len() ==> !can_serve((#[trigger] rs[k]).caps, p),
        },
    decreases rs.len(),
{
    if rs.len() > 0 {
        let rest = rs.drop_last();
        law_the_preferred_runner_is_selected(rest, p);
        assert forall|k: int| 0 <= k < rest.len() implies rest[k] == rs[k] by {}
        let i = selected(rs, p);
        if i is Some {
            assert forall|k: int| 0 <= k < rs.len() && can_serve(
                (#[trigger] rs[k]).caps,
                p,
            ) implies preferred(rs[i->0 as int], rs[k], p) by {
                if k < rest.len() {
                    assert(rest[k] == rs[k]);
                }
            }
        } else {
            assert forall|k: int| 0 <= k < rs.len() implies !can_serve(
                (#[trigger] rs[k]).caps,
                p,
            ) by {
                if k < rest.len() {
                    assert(rest[k] == rs[k]);
                }
            }
        }
    }
}

/// Ids that are given out differ, by the number or by the kind of peer.
pub proof fn law_ids_differ(n: u64, m: u64)
    ensures
        minted("r"@, n) == minted("r"@, m) ==> n == m,
        minted("s"@, n) == minted("s"@, m) ==> n == m,
        minted("r"@, n) != minted("s"@, m),
{
    reveal_strlit("r");
    reveal_strlit("s");
    reveal_strlit("-");
    let a = minted("r"@, n);
    let b = minted("r"@, m);
    assert(a.skip(2) =~= decimal(n as nat));
    assert(b.skip(2) =~= decimal(m as nat));
    if a == b {
        lemma_decimal_injective(n as nat, m as nat);
    }
    let c = minted("s"@, n);
    let d = minted("s"@, m);
    assert(c.skip(2) =~= decimal(n as nat));
    assert(d.skip(2) =~= decimal(m as nat));
    if c == d {
        lemma_decimal_injective(n as nat, m as nat);
    }
    assert(a[0] == 'r');
    assert(d[0] == 's');
}

/// A registration under a new number keeps the router consistent.
pub proof fn law_registration_keeps_consistent(
    s: RouterV,
    seq: u64,
    caps: Seq<CapV>,
    priority: u32,
    now: u64,
)
    requires
        consistent(s),
        seq <= s.counter,
        forall|i: int| 0 <= i < s.runners.len() ==> (#[trigger] s.runners[i]).seq < seq,
    ensures
        consistent(registered(s, seq, caps, priority, now).state),
{
    let t = registered(s, seq, caps, priority, now).state;
    assert forall|i: int| 0 <= i < t.work.len() implies runner_at(
        t.runners,
        (#[trigger] t.work[i]).runner,
    ) is Some by {
        let id = s.work[i].runner;
        lemma_runner_at(s.runners, id);
        lemma_runner_at(t.runners, id);
        let k = runner_at(s.runners, id)->0 as int;
        assert(t.runners[k].id == id);
    }
}

/// A connection, and a new catalog, keep the router consistent.
pub proof fn law_catalog_keeps_consistent(s: RouterV, session: Seq<char>, now: u64)
    requires
        consistent(s),
    ensures
        consistent(connected(s, session, now).state),
        consistent(recomputed(s, now).state),
{
}

/// Any message from a frontend keeps the router consistent.
pub proof fn law_frontend_keeps_consistent(
    s: RouterV,
    session: Seq<char>,
    env: Envelope,
    now: u64,
)
    requires
        consistent(s),
    ensures
        consistent(frontend_said(s, session, env, now).state),
{
    match env.body {
        Message::Work(w) => {
            law_the_preferred_runner_is_selected(s.runners, w.payload);
            match selected(s.runners, w.payload) {
                Some(i) => lemma_dispatched(s, i as int, session, env),
                None => {
                    lemma_parked_at(s.parked, session, w.work_id@);
                },
            }
        },
        Message::WorkClose(c) => {
            law_closing_keeps_consistent(s, session, c.work_id@, c.revision);
        },
        _ => {},
    }
}

proof fn lemma_forgotten(s: RouterV, session: Seq<char>, work_id: Seq<char>, revision: Option<u64>)
    requires
        consistent(s),
    ensures
        ({
            let x = forgotten(s, session, work_id, revision);
            consistent(x) && match parked_at(x.parked, session, work_id) {
                Some(i) => revision is Some && x.parked[i as int].revision != revision->0,
                None => true,
            }
        }),
{
    lemma_parked_at(s.parked, session, work_id);
    let x = forgotten(s, session, work_id, revision);
    lemma_parked_at(x.parked, session, work_id);
    if let Some(at) = parked_at(s.parked, session, work_id) {
        let i = at as int;
        let rest = s.parked.remove(i);
        assert forall|k: int| 0 <= k < rest.len() implies #[trigger] rest[k] == s.parked[if k < i {
            k
        } else {
            k + 1
        }] by {}
    }
}

/// Closing a work unit keeps the router consistent.
pub proof fn law_closing_keeps_consistent(
    s: RouterV,
    session: Seq<char>,
    work_id: Seq<char>,
    revision: Option<u64>,
)
    requires
        consistent(s),
    ensures
        consistent(closed(s, session, work_id, revision).state),
{
    lemma_forgotten(s, session, work_id, revision);
    let t = forgotten(s, session, work_id, revision);
    lemma_route_at(t.work, session, work_id);
    if let Some(i) = route_at(t.work, session, work_id) {
        lemma_without(t, i as int);
        lemma_released(RouterV { work: t.work.remove(i as int), ..t }, t.work[i as int].runner);
    }
}

/// Any message from a runner keeps the router consistent.
pub proof fn law_runner_keeps_consistent(s: RouterV, id: Seq<char>, env: Envelope)
    requires
        consistent(s),
    ensures
        consistent(runner_said(s, id, env).state),
{
    match env.body {
        Message::Result(r) => {
            lemma_released(s, id);
            let t = RouterV { runners: released(s.runners, id), ..s };
            let session = match env.session_id {
                Some(x) => x@,
                None => Seq::empty(),
            };
            lemma_route_at(s.work, session, r.work_id@);
            match route_at(s.work, session, r.work_id@) {
                Some(i) => {
                    lemma_without(s, i as int);
                    lemma_without(t, i as int);
                },
                None => {},
            }
        },
        _ => {},
    }
}

/// The loss of a runner keeps the router consistent: no route leads to it any more.
pub proof fn law_eviction_keeps_consistent(s: RouterV, id: Seq<char>, now: u64)
    requires
        consistent(s),
    ensures
        consistent(evicted(s, id, now).state),
        forall|i: int|
            0 <= i < evicted(s, id, now).state.work.len() ==> (
            #[trigger] evicted(s, id, now).state.work[i]).runner != id,
{
    lemma_runner_at(s.runners, id);
    lemma_elsewhere(s.work, id);
    assert(apart(s.work));
    lemma_elsewhere_apart(s.work, id);
    match runner_at(s.runners, id) {
        Some(at) => {
            let i = at as int;
            let rs = s.runners.remove(i);
            let t = evicted(s, id, now).state;
            assert(t.runners == rs);
            assert forall|k: int| 0 <= k < rs.len() implies (#[trigger] rs[k]).id == minted(
                "r"@,
                rs[k].seq,
            ) && rs[k].seq <= s.counter by {
                assert(rs[k] == s.runners[if k < i {
                    k
                } else {
                    k + 1
                }]);
            }
            assert forall|a: int, b: int| 0 <= a < b < rs.len() implies (#[trigger] rs[a]).seq < (
            #[trigger] rs[b]).seq by {
                assert(rs[a] == s.runners[if a < i {
                    a
                } else {
                    a + 1
                }]);
                assert(rs[b] == s.runners[if b < i {
                    b
                } else {
                    b + 1
                }]);
            }
            assert(apart(t.work));
            assert forall|k: int| 0 <= k < t.work.len() implies runner_at(
                rs,
                (#[trigger] t.work[k]).runner,
            ) is Some by {
                let other = t.work[k].runner;
                assert(s.work.contains(t.work[k]));
                let m = s.work.index_of(t.work[k]);
                assert(runner_at(s.runners, s.work[m].runner) is Some);
                lemma_runner_at(s.runners, other);
                lemma_runner_at(rs, other);
                let q = runner_at(s.runners, other)->0 as int;
                assert(rs[if q < i {
                    q
                } else {
                    q - 1
                }] == s.runners[q]);
            }
        },
        None => {
            assert forall|k: int| 0 <= k < s.work.len() implies (#[trigger] s.work[k]).runner
                != id by {
                assert(runner_at(s.runners, s.work[k].runner) is Some);
            }
        },
    }
}

/// The loss of a frontend keeps the router consistent: its routes are gone, and those of others
/// are not.
pub proof fn law_disconnection_keeps_consistent(s: RouterV, session: Seq<char>)
    requires
        consistent(s),
    ensures
        consistent(dropped(s, session).state),
        forall|r: RouteV| #[trigger]
            dropped(s, session).state.work.contains(r) <==> s.work.contains(r) && r.session
                != session,
{
    lemma_others(s.work, session);
    assert(apart(s.work));
    lemma_others_apart(s.work, session);
    let t = dropped(s, session).state;
    assert(apart(t.work));
    assert forall|k: int| 0 <= k < t.work.len() implies runner_at(
        s.runners,
        (#[trigger] t.work[k]).runner,
    ) is Some by {
        assert(s.work.contains(t.work[k]));
        let m = s.work.index_of(t.work[k]);
        assert(runner_at(s.runners, s.work[m].runner) is Some);
    }
    assert forall|r: RouteV| #[trigger] t.work.contains(r) implies s.work.contains(r) && r.session
        != session by {
        let k = t.work.index_of(r);
        assert(t.work[k] == r);
    }
    assert forall|r: RouteV| s.work.contains(r) && r.session != session implies
        #[trigger] t.work.contains(r) by {
        let k = s.work.index_of(r);
        assert(s.work[k] == r);
    }
}

/// Waiting work that is handed out keeps the router consistent.
pub proof fn law_handing_out_keeps_consistent(s: RouterV, modules: Seq<Seq<char>>)
    requires
        consistent(s),
        first_ready(s, modules, s.parked.len()) is Some,
    ensures
        ({
            let i = first_ready(s, modules, s.parked.len())->0;
            i < s.parked.len() && consistent(unparked(s, i as int).state)
        }),
{
    lemma_ready(s, modules, s.parked.len());
    let i = first_ready(s, modules, s.parked.len())->0 as int;
    let p = s.parked[i];
    let rest = s.parked.remove(i);
    assert forall|k: int| 0 <= k < rest.len() implies (#[trigger] rest[k]).env.body is Work
        && work_of(rest[k].env).payload is Analysis by {
        assert(rest[k] == s.parked[if k < i {
            k
        } else {
            k + 1
        }]);
    }
    assert forall|a: int, b: int| 0 <= a < b < rest.len() implies (#[trigger] rest[a]).session != (
    #[trigger] rest[b]).session || rest[a].work_id != rest[b].work_id by {
        assert(rest[a] == s.parked[if a < i {
            a
        } else {
            a + 1
        }]);
        assert(rest[b] == s.parked[if b < i {
            b
        } else {
            b + 1
        }]);
    }
    law_the_preferred_runner_is_selected(s.runners, work_of(p.env).payload);
    lemma_dispatched(
        RouterV { parked: rest, ..s },
        selected(s.runners, work_of(p.env).payload)->0 as int,
        p.session,
        p.env,
    );
}

proof fn lemma_ready(s: RouterV, modules: Seq<Seq<char>>, k: nat)
    requires
        k <= s.parked.len(),
    ensures
        match first_ready(s, modules, k) {
            Some(i) => i < k && modules.contains(s.parked[i as int].module) && selected(
                s.runners,
                work_of(s.parked[i as int].env).payload,
            ) is Some,
            None => forall|i: int|
                0 <= i < k && modules.contains((#[trigger] s.parked[i]).module) ==> selected(
                    s.runners,
                    work_of(s.parked[i].env).payload,
                ) is None,
        },
    decreases k,
{
    if k > 0 {
        lemma_ready(s, modules, (k - 1) as nat);
    }
}

/// Where nothing more is handed out, no work waits for one of the modules that a runner could
/// do.
pub proof fn law_no_ready_work_is_left(s: RouterV, modules: Seq<Seq<char>>, i: int)
    requires
        first_ready(s, modules, s.parked.len()) is None,
        0 <= i < s.parked.len(),
        modules.contains(s.parked[i].module),
    ensures
        forall|k: int|
            0 <= k < s.runners.len() ==> !can_serve(
                (#[trigger] s.runners[k]).caps,
                work_of(s.parked[i].env).payload,
            ),
{
    lemma_ready(s, modules, s.parked.len());
    law_the_preferred_runner_is_selected(s.runners, work_of(s.parked[i].env).payload);
}

/// Handing out makes the waiting list shorter by one, so it comes to an end.
pub proof fn law_handing_out_ends(s: RouterV, modules: Seq<Seq<char>>)
    requires
        first_ready(s, modules, s.parked.len()) is Some,
    ensures
        unparked(s, first_ready(s, modules, s.parked.len())->0 as int).state.parked.len()
            == s.parked.len() - 1,
{
    lemma_ready(s, modules, s.parked.len());
}

/// Failing waiting work keeps the router consistent.
pub proof fn law_lapse_keeps_consistent(s: RouterV, l: Lapse)
    requires
        consistent(s),
    ensures
        consistent(lapsed(s, l).state),
{
    assert(parked_apart(s.parked));
    lemma_still_apart(s.parked, l);
    assert(parked_apart(lapsed(s, l).state.parked));
}

/// Exactly the waiting work that fails leaves, and its frontend hears why.
pub proof fn law_lapsed_work_is_reported(s: RouterV, l: Lapse, i: int)
    requires
        0 <= i < s.parked.len(),
    ensures
        lapses(s.parked[i], l) ==> !lapsed(s, l).state.parked.contains(s.parked[i]) && lapsed(
            s,
            l,
        ).actions.contains(
            ActionV::ToFrontend {
                session: s.parked[i].session,
                env: failed_envelope(
                    s.parked[i].work_id,
                    s.parked[i].revision,
                    s.parked[i].session,
                    lapse_detail(s.parked[i], l),
                ),
            },
        ),
        !lapses(s.parked[i], l) ==> lapsed(s, l).state.parked.contains(s.parked[i]),
{
    lemma_still_parked(s.parked, l);
    if lapses(s.parked[i], l) {
        lemma_lapse_news(s.parked, l, i);
    }
    let t = lapsed(s, l).state.parked;
    if lapses(s.parked[i], l) && t.contains(s.parked[i]) {
        let k = t.index_of(s.parked[i]);
        assert(!lapses(t[k], l));
    }
}

proof fn lemma_lapse_news(p: Seq<ParkedV>, l: Lapse, i: int)
    requires
        0 <= i < p.len(),
        lapses(p[i], l),
    ensures
        lapse_news(p, l).contains(
            ActionV::ToFrontend {
                session: p[i].session,
                env: failed_envelope(
                    p[i].work_id,
                    p[i].revision,
                    p[i].session,
                    lapse_detail(p[i], l),
                ),
            },
        ),
    decreases p.len(),
{
    let rest = p.drop_last();
    let a = lapse_news(rest, l);
    let b = lapse_news(p, l);
    let x = ActionV::ToFrontend {
        session: p[i].session,
        env: failed_envelope(
            p[i].work_id,
            p[i].revision,
            p[i].session,
            lapse_detail(p[i], l),
        ),
    };
    if i < rest.len() {
        assert(rest[i] == p[i]);
        lemma_lapse_news(rest, l, i);
        let k = a.index_of(x);
        assert(b[k] == x);
    } else {
        assert(b[b.len() - 1] == x);
    }
}

/// No work is lost in silence: whatever a runner had when it went, its frontend hears of.
pub proof fn law_no_work_is_lost(s: RouterV, id: Seq<char>, now: u64, i: int)
    requires
        0 <= i < s.work.len(),
        s.work[i].runner == id,
        runner_at(s.runners, id) is Some,
    ensures
        evicted(s, id, now).actions.contains(
            ActionV::ToFrontend {
                session: s.work[i].session,
                env: failed_envelope(
                    s.work[i].work_id,
                    s.work[i].revision,
                    s.work[i].session,
                    "A fatal crash occurred while running the analysis (the runner stopped unexpectedly)."@,
                ),
            },
        ),
{
    lemma_crash_news(s.work, id, i);
    let x = evicted(s, id, now);
    let c = crash_news(s.work, id);
    let a = ActionV::ToFrontend {
        session: s.work[i].session,
        env: failed_envelope(
            s.work[i].work_id,
            s.work[i].revision,
            s.work[i].session,
            "A fatal crash occurred while running the analysis (the runner stopped unexpectedly)."@,
        ),
    };
    let k = c.index_of(a);
    assert(x.actions[x.actions.len() - c.len() + k] == a);
}

proof fn lemma_crash_news(work: Seq<RouteV>, id: Seq<char>, i: int)
    requires
        0 <= i < work.len(),
        work[i].runner == id,
    ensures
        crash_news(work, id).contains(
            ActionV::ToFrontend {
                session: work[i].session,
                env: failed_envelope(
                    work[i].work_id,
                    work[i].revision,
                    work[i].session,
                    "A fatal crash occurred while running the analysis (the runner stopped unexpectedly)."@,
                ),
            },
        ),
    decreases work.len(),
{
    let rest = work.drop_last();
    let a = crash_news(rest, id);
    let b = crash_news(work, id);
    let x = ActionV::ToFrontend {
        session: work[i].session,
        env: failed_envelope(
            work[i].work_id,
            work[i].revision,
            work[i].session,
            "A fatal crash occurred while running the analysis (the runner stopped unexpectedly)."@,
        ),
    };
    if i < rest.len() {
        assert(rest[i] == work[i]);
        lemma_crash_news(rest, id, i);
        let k = a.index_of(x);
        assert(b[k] == x);
    } else {
        assert(b[b.len() - 1] == x);
    }
}

/// Evicting a runner that is gone does nothing.
pub proof fn law_eviction_is_idempotent(s: RouterV, id: Seq<char>, now: u64, later: u64)
    requires
        consistent(s),
    ensures
        evicted(evicted(s, id, now).state, id, later) == idle(evicted(s, id, now).state),
{
    lemma_runner_at(s.runners, id);
    match runner_at(s.runners, id) {
        Some(at) => {
            let i = at as int;
            let rs = s.runners.remove(i);
            let t = evicted(s, id, now).state;
            assert(t.runners == rs);
            lemma_runner_at(rs, id);
            if runner_at(rs, id) is Some {
                let k = runner_at(rs, id)->0 as int;
                let m = if k < i {
                    k
                } else {
                    k + 1
                };
                assert(rs[k] == s.runners[m]);
                law_ids_differ(s.runners[m].seq, s.runners[i].seq);
            }
        },
        None => {},
    }
}

/// Where a work unit is closed, its runner is told to stop exactly where the work runs in the
/// revision that is closed, and the route then ends; otherwise no route changes. Exactly one
/// directory is deleted. Work that is closed as a whole neither runs nor waits afterwards.
pub proof fn law_close_stops_what_runs(
    s: RouterV,
    session: Seq<char>,
    work_id: Seq<char>,
    revision: Option<u64>,
)
    requires
        consistent(s),
        !s.config.keep_workspaces,
    ensures
        ({
            let x = closed(s, session, work_id, revision);
            let at = route_at(s.work, session, work_id);
            let root = s.config.orchestrator_dir_root@;
            let gone = ActionV::Reclaim {
                path: match revision {
                    Some(rev) => results_dir(root, session, work_id, rev),
                    None => path_below(path_below(root, session), work_id),
                },
            };
            &&& if at is Some && (revision is None || s.work[at->0 as int].revision
                == revision->0) {
                &&& x.state.work == s.work.remove(at->0 as int)
                &&& route_at(x.state.work, session, work_id) is None
                &&& x.actions == seq![
                    ActionV::ToRunner {
                        runner: s.work[at->0 as int].runner,
                        env: abort_envelope(session, work_id),
                        fields: Map::empty(),
                        evict: false,
                    },
                    gone,
                ]
            } else {
                &&& x.state.work == s.work
                &&& x.actions == seq![gone]
            }
            &&& revision is None ==> route_at(x.state.work, session, work_id) is None
                && parked_at(x.state.parked, session, work_id) is None
        }),
{
    lemma_forgotten(s, session, work_id, revision);
    lemma_ended(s, session, work_id);
    let x = closed(s, session, work_id, revision);
    if let Some(at) = route_at(s.work, session, work_id) {
        if revision is None || s.work[at as int].revision == revision->0 {
            assert(x.actions.len() == 2);
            assert(x.actions[0] is ToRunner);
        }
    }
}

proof fn lemma_ended(s: RouterV, session: Seq<char>, work_id: Seq<char>)
    requires
        consistent(s),
    ensures
        match route_at(s.work, session, work_id) {
            Some(i) => i < s.work.len() && s.work[i as int].session == session
                && s.work[i as int].work_id == work_id && route_at(
                s.work.remove(i as int),
                session,
                work_id,
            ) is None,
            None => true,
        },
{
    lemma_route_at(s.work, session, work_id);
    if let Some(at) = route_at(s.work, session, work_id) {
        let i = at as int;
        let rest = s.work.remove(i);
        lemma_route_at(rest, session, work_id);
        if let Some(k) = route_at(rest, session, work_id) {
            assert(rest[k as int] == s.work[if k < i {
                k as int
            } else {
                k as int + 1
            }]);
        }
    }
}

/// Closing the same work, or the same revision of it, once more changes nothing and sends
/// nothing: only the directory is deleted again.
pub proof fn law_close_is_idempotent(
    s: RouterV,
    session: Seq<char>,
    work_id: Seq<char>,
    revision: Option<u64>,
)
    requires
        consistent(s),
    ensures
        ({
            let x = closed(s, session, work_id, revision).state;
            let y = closed(x, session, work_id, revision);
            y.state == x && forall|i: int|
                0 <= i < y.actions.len() ==> (#[trigger] y.actions[i]) is Reclaim
        }),
{
    lemma_forgotten(s, session, work_id, revision);
    let t = forgotten(s, session, work_id, revision);
    lemma_ended(t, session, work_id);
    let x = closed(s, session, work_id, revision).state;
    assert(forgotten(x, session, work_id, revision) == x);
}

/// A result for an older revision than the one that runs, or for work that is not known, is
/// dropped: no frontend hears of it and no route ends.
pub proof fn law_stale_results_are_dropped(s: RouterV, env: Envelope, session: Seq<char>)
    requires
        env.body is Result,
        env.session_id is Some,
        session == env.session_id->0@,
        match route_at(s.work, session, env.body->Result_0.work_id@) {
            Some(i) => env.body->Result_0.revision < s.work[i as int].revision,
            None => true,
        },
    ensures
        routed_result(s, env) == idle(s),
{
}

/// A newer revision that goes to a runner makes results of the older one stale: the route that
/// is found afterwards is that of the newer revision.
pub proof fn law_a_newer_revision_takes_over(s: RouterV, i: int, session: Seq<char>, env: Envelope)
    requires
        consistent(s),
        0 <= i < s.runners.len(),
    ensures
        ({
            let work = dispatched(s, i, session, env).state.work;
            let at = route_at(work, session, work_of(env).work_id@);
            at is Some && work[at->0 as int].revision == work_of(env).revision
                && work[at->0 as int].runner == s.runners[i].id
        }),
{
    let id = work_of(env).work_id@;
    lemma_dispatched(s, i, session, env);
    lemma_route_at(s.work, session, id);
    let work = dispatched(s, i, session, env).state.work;
    lemma_route_at(work, session, id);
    let k = match route_at(s.work, session, id) {
        Some(k) => k as int,
        None => s.work.len() as int,
    };
    assert(work[k].session == session && work[k].work_id == id);
    assert(apart(work));
}

/// Waiting work gives way to a newer revision of it, and to nothing else; it waits from the time
/// it first came, and a runner is asked for only then.
pub proof fn law_waiting_work_gives_way_to_newer(
    s: RouterV,
    session: Seq<char>,
    env: Envelope,
    now: u64,
    i: nat,
)
    requires
        parked_at(s.parked, session, work_of(env).work_id@) == Some(i),
    ensures
        ({
            let x = parks(s, session, env, now);
            let p = x.state.parked;
            &&& p.len() == s.parked.len()
            &&& p[i as int].parked_ms == s.parked[i as int].parked_ms
            &&& work_of(env).revision > s.parked[i as int].revision ==> p[i as int].env == env
            &&& work_of(env).revision <= s.parked[i as int].revision ==> p == s.parked
            &&& x.actions.len() == 1
        }),
{
    lemma_parked_at(s.parked, session, work_of(env).work_id@);
}

/// Work units of different sessions are apart, though they carry the same id.
pub proof fn law_sessions_are_apart(
    s: RouterV,
    i: int,
    session: Seq<char>,
    env: Envelope,
    other: Seq<char>,
    id: Seq<char>,
)
    requires
        consistent(s),
        0 <= i < s.runners.len(),
        other != session,
    ensures
        ({
            let work = dispatched(s, i, session, env).state.work;
            match route_at(s.work, other, id) {
                Some(k) => route_at(work, other, id) == Some(k) && work[k as int]
                    == s.work[k as int],
                None => route_at(work, other, id) is None,
            }
        }),
{
    let work = dispatched(s, i, session, env).state.work;
    let own = work_of(env).work_id@;
    lemma_dispatched(s, i, session, env);
    assert(apart(work));
    lemma_route_at(s.work, session, own);
    lemma_route_at(s.work, other, id);
    lemma_route_at(work, other, id);
    match route_at(s.work, other, id) {
        Some(k) => {
            assert(work[k as int] == s.work[k as int]);
        },
        None => {
            if let Some(k) = route_at(work, other, id) {
                assert(k < s.work.len());
                assert(work[k as int] == s.work[k as int]);
            }
        },
    }
}

/// The catalog is sent once for each change: computed again, nothing is sent.
pub proof fn law_catalog_is_sent_on_change_only(s: RouterV, now: u64, later: u64)
    ensures
        recomputed(recomputed(s, now).state, later) == idle(recomputed(s, now).state),
        recomputed(s, now).actions.len() > 0 ==> recomputed(s, now).state.catalog != s.catalog,
{
}

/// What is in the library paths is in the catalog, whichever runners come and go.
pub proof fn law_libset_stays(libset: Seq<ModuleV>, rs: Seq<RunnerV>, m: ModuleV)
    requires
        libset.contains(m),
    ensures
        catalog_of(libset, rs).contains(m),
{
    let all = merged(libset, all_ads(rs));
    law_earliest_advertisement_wins(libset, all_ads(rs), m);
    law_catalog_is_in_order(all);
    assert(all.contains(m));
    all.to_multiset_ensures();
    arranged(all).to_multiset_ensures();
    assert(all.to_multiset().count(m) > 0);
    assert(arranged(all).to_multiset().count(m) > 0);
}

/// A runner is flagged if and only if it has work outstanding and was silent for too long.
pub proof fn law_hung_runners_are_flagged(rs: Seq<RunnerV>, now: u64, limit: u64, id: Seq<char>)
    ensures
        hung(rs, now, limit).contains(id) <==> exists|i: int|
            0 <= i < rs.len() && hangs(#[trigger] rs[i], now, limit) && rs[i].id == id,
    decreases rs.len(),
{
    if rs.len() > 0 {
        let rest = rs.drop_last();
        law_hung_runners_are_flagged(rest, now, limit, id);
        let a = hung(rest, now, limit);
        let b = hung(rs, now, limit);
        assert forall|i: int| 0 <= i < rest.len() implies rest[i] == rs[i] by {}
        if b.contains(id) {
            let k = b.index_of(id);
            if k < a.len() {
                assert(a[k] == id);
                assert(a.contains(id));
                let i = choose|i: int|
                    0 <= i < rest.len() && hangs(#[trigger] rest[i], now, limit) && rest[i].id
                        == id;
                assert(hangs(rs[i], now, limit));
            } else {
                assert(hangs(rs[rs.len() - 1], now, limit));
            }
        }
        if exists|i: int|
            0 <= i < rs.len() && hangs(#[trigger] rs[i], now, limit) && rs[i].id == id {
            let i = choose|i: int|
                0 <= i < rs.len() && hangs(#[trigger] rs[i], now, limit) && rs[i].id == id;
            if i < rest.len() {
                assert(hangs(rest[i], now, limit));
                let k = a.index_of(id);
                assert(b[k] == id);
            } else {
                assert(b[b.len() - 1] == id);
            }
        }
    }
}

} // verus!
