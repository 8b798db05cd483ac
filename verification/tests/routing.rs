//! The router: who gets which message on each event.
use neo_orchestrator::catalog::list_analyses;
use neo_orchestrator::config::Config;
use neo_orchestrator::json::Json;
use neo_orchestrator::messages::{
    Abort, AnalysisWork, Capability, DataOp, DataWork, Envelope, IngestParams, Message, ModuleInfo,
    RcodeWork, ResultMsg, ResultPayload, Settings, Status, Work, WorkClose, WorkPayload,
};
use neo_orchestrator::router::{select_runner, Action, Router, Runner};

/// A router with peers that hear what is sent to them.
struct Desk {
    router: Router,
    now: u64,
    to_runners: Vec<(String, Envelope, Vec<(String, Json)>)>,
    to_frontends: Vec<(String, Envelope)>,
    provisions: Vec<String>,
    ups: Vec<Vec<String>>,
    gone: Vec<Vec<String>>,
    reclaimed: Vec<String>,
}

fn config(url: &str) -> Config {
    Config {
        control_url: url.to_string(),
        dataset_path: "/data/alpha.arrow".to_string(),
        orchestrator_dir_root: "/tmp/orch".to_string(),
        hang_timeout_ms: 30_000,
        activity_min_ms: 1_000,
        keep_workspaces: false,
        provisioner: None,
    }
}

fn envelope(id: &str, body: Message) -> Envelope {
    Envelope { v: 1, id: id.to_string(), reply_to: None, session_id: None, ts: None, body }
}

fn analysis(id: &str, module: &str, revision: u64, base_revision: Option<u64>) -> Envelope {
    envelope(
        "t-work",
        Message::Work(Work {
            work_id: id.to_string(),
            revision,
            base_revision,
            dataset_ids: vec!["ds-001".to_string()],
            payload: WorkPayload::Analysis(AnalysisWork {
                module: module.to_string(),
                module_version: "0.1".to_string(),
                analysis: "A".to_string(),
                options: Json::Null,
                settings: Settings { ppi: 96, num_decimals: 3 },
            }),
        }),
    )
}

fn close(id: &str, revision: Option<u64>) -> Envelope {
    envelope("t-close", Message::WorkClose(WorkClose { work_id: id.to_string(), revision }))
}

fn result(session: &str, id: &str, revision: u64, status: Status) -> Envelope {
    Envelope {
        session_id: Some(session.to_string()),
        ..envelope(
            "rn",
            Message::Result(ResultMsg {
                work_id: id.to_string(),
                revision,
                status,
                payload: ResultPayload {
                    results: Json::Object(vec![(
                        "title".to_string(),
                        Json::Str("ok".to_string()),
                    )]),
                },
            }),
        )
    }
}

fn module_info(name: &str, version: &str, base_uri: &str) -> ModuleInfo {
    ModuleInfo {
        name: name.to_string(),
        version: version.to_string(),
        base_uri: base_uri.to_string(),
    }
}

fn analyses(module: &str, base_uri: Option<&str>) -> Vec<Capability> {
    vec![Capability::Analysis {
        name: module.to_string(),
        version: "0.1".to_string(),
        base_uri: base_uri.map(|u| u.to_string()),
    }]
}

impl Desk {
    fn with(config: Config, provisioner: Option<(u64, Vec<ModuleInfo>)>) -> Desk {
        Desk {
            router: Router::new(config, provisioner),
            now: 1_000,
            to_runners: Vec::new(),
            to_frontends: Vec::new(),
            provisions: Vec::new(),
            ups: Vec::new(),
            gone: Vec::new(),
            reclaimed: Vec::new(),
        }
    }

    fn new() -> Desk {
        Desk::with(config("inproc://orch"), None)
    }

    fn provisioning(libset: Vec<ModuleInfo>) -> Desk {
        Desk::with(config("inproc://orch"), Some((60_000, libset)))
    }

    fn perform(&mut self, actions: Vec<Action>) {
        for a in actions {
            match a {
                Action::ToFrontend { session_id, env } => self.to_frontends.push((session_id, env)),
                Action::ToRunner { runner_id, env, fields, .. } => {
                    self.to_runners.push((runner_id, env, fields))
                }
                Action::Provision { module, .. } => self.provisions.push(module),
                Action::RunnerUp { modules } => self.ups.push(modules),
                Action::RunnerGone { modules } => self.gone.push(modules),
                Action::Reclaim { path } => self.reclaimed.push(path),
            }
        }
    }

    fn register_as(&mut self, capabilities: Vec<Capability>, priority: u32) -> String {
        let hail = envelope("t-reg", Message::Ping);
        let (id, seq) = self.router.begin_register(&hail).expect("accepted");
        let names = list_analyses(&capabilities);
        let first = self.router.finish_register(seq, capabilities, priority, self.now);
        self.perform(first);
        while let Some(a) = self.router.dispatch_parked(&names) {
            self.perform(vec![a]);
        }
        let news = self.router.recompute_catalog(self.now);
        self.perform(news);
        id
    }

    fn register(&mut self, module: &str, base_uri: Option<&str>) -> String {
        self.register_as(analyses(module, base_uri), 0)
    }

    fn hello(&mut self) -> String {
        let hail = envelope("t-hello", Message::Ping);
        let session = self.router.begin_hello(&hail).expect("accepted");
        let first = self.router.finish_hello(session.clone(), self.now);
        self.perform(vec![first]);
        session
    }

    /// A connection whose first message is set aside.
    fn quiet_hello(&mut self) -> String {
        let session = self.hello();
        let (s, env) = self.to_frontends.pop().expect("the catalog");
        assert_eq!(s, session);
        assert!(matches!(env.body, Message::Modules(_)));
        session
    }

    fn says(&mut self, session: &str, env: Envelope) {
        let actions = self.router.on_frontend_message(session, env, self.now);
        self.perform(actions);
    }

    fn answers(&mut self, runner: &str, env: Envelope) {
        self.router.touch(runner, self.now);
        let actions = self.router.on_runner_message(runner, env);
        self.perform(actions);
    }

    fn evict(&mut self, runner: &str) {
        let actions = self.router.evict_runner(runner, self.now);
        self.perform(actions);
    }

    fn heard(&mut self) -> (String, Envelope) {
        assert!(!self.to_frontends.is_empty(), "a frontend heard something");
        self.to_frontends.remove(0)
    }

    fn got(&mut self) -> (String, Envelope, Vec<(String, Json)>) {
        assert!(!self.to_runners.is_empty(), "a runner got something");
        self.to_runners.remove(0)
    }

    fn runner_ids(&self) -> Vec<String> {
        self.router.runners.iter().map(|r| r.runner_id.clone()).collect()
    }
}

fn member<'a>(fields: &'a [(String, Json)], key: &str) -> Option<&'a Json> {
    fields.iter().find(|(k, _)| k == key).map(|(_, v)| v)
}

fn text_of(j: Option<&Json>) -> String {
    match j {
        Some(Json::Str(s)) => s.clone(),
        other => panic!("expected a text, got {other:?}"),
    }
}

fn status_of(env: &Envelope) -> (String, u64, Status) {
    match &env.body {
        Message::Result(r) => (r.work_id.clone(), r.revision, r.status),
        other => panic!("expected result, got {other:?}"),
    }
}

fn modules_of(env: &Envelope) -> Vec<ModuleInfo> {
    match &env.body {
        Message::Modules(m) => m.modules.clone(),
        other => panic!("expected modules, got {other:?}"),
    }
}

#[test]
fn registration_yields_a_usable_channel() {
    let mut desk = Desk::new();
    let id = desk.register("jaspTTests", None);
    assert!(id.starts_with("r-"), "assigned id is r-N: {id}");
    assert!(desk.runner_ids().contains(&id), "runner registered");
}

#[test]
fn work_routes_only_to_the_matching_runner() {
    let mut desk = Desk::new();
    let x = desk.register("moduleX", None);
    let y = desk.register("moduleY", None);
    let session = desk.quiet_hello();
    desk.says(&session, analysis("w-x", "moduleX", 0, None));
    let (to, env, _) = desk.got();
    assert_eq!(to, x);
    match env.body {
        Message::Work(w) => assert_eq!(w.work_id, "w-x"),
        other => panic!("expected work, got {other:?}"),
    }
    assert!(!desk.to_runners.iter().any(|m| m.0 == y));
}

#[test]
fn frontend_round_trips_with_correlation() {
    let mut desk = Desk::new();
    let runner = desk.register("jaspDescriptives", None);
    let session = desk.quiet_hello();
    desk.says(&session, analysis("w-1", "jaspDescriptives", 0, None));

    let (_, env, fields) = desk.got();
    assert_eq!(env.session_id.as_deref(), Some(session.as_str()), "session_id stamped");
    match member(&fields, "dataset_paths") {
        Some(Json::Object(o)) => {
            assert_eq!(text_of(member(o, "ds-001")), "/data/alpha.arrow")
        }
        other => panic!("expected dataset_paths, got {other:?}"),
    }
    assert_eq!(
        text_of(member(&fields, "output_dir")),
        format!("/tmp/orch/{session}/w-1/results_0")
    );
    match &env.body {
        Message::Work(w) => assert_eq!(w.work_id, "w-1"),
        other => panic!("expected work, got {other:?}"),
    }

    let answer = result(&session, "w-1", 0, Status::Complete);
    desk.answers(&runner, answer.clone());
    let (to, res) = desk.heard();
    assert_eq!(to, session);
    assert_eq!(status_of(&res), ("w-1".to_string(), 0, Status::Complete));
    assert_eq!(res, answer, "forwarded as it came");
    assert!(desk.router.work.is_empty());
    assert_eq!(desk.router.runners[0].outstanding, 0);
}

#[test]
fn work_close_aborts_outstanding_and_is_idempotent() {
    let mut desk = Desk::new();
    desk.register("jaspTTests", None);
    let session = desk.quiet_hello();
    desk.says(&session, analysis("w-close", "jaspTTests", 0, None));
    let (_, env, _) = desk.got();
    assert!(matches!(&env.body, Message::Work(w) if w.work_id == "w-close"));

    desk.says(&session, close("w-close", None));
    let (_, env, _) = desk.got();
    match env.body {
        Message::Abort(a) => assert_eq!(a.work_id, "w-close"),
        other => panic!("expected abort, got {other:?}"),
    }
    assert_eq!(desk.router.runners[0].outstanding, 0);
    assert_eq!(desk.reclaimed, vec![format!("/tmp/orch/{session}/w-close")]);

    desk.says(&session, close("w-close", None));
    assert!(desk.to_runners.is_empty(), "no second abort");
}

#[test]
fn per_revision_workspace_and_granular_close() {
    let mut desk = Desk::new();
    desk.register("jaspTTests", None);
    let session = desk.quiet_hello();

    desk.says(&session, analysis("w-rev", "jaspTTests", 0, None));
    let (_, _, v0) = desk.got();
    assert!(text_of(member(&v0, "output_dir")).ends_with("results_0"));
    assert!(member(&v0, "base_results_dir").is_none(), "no base for the first revision");

    desk.says(&session, analysis("w-rev", "jaspTTests", 1, Some(0)));
    let (_, _, v1) = desk.got();
    assert!(text_of(member(&v1, "output_dir")).ends_with("results_1"));
    assert!(text_of(member(&v1, "base_results_dir")).ends_with("results_0"));

    desk.says(&session, close("w-rev", Some(0)));
    assert!(desk.to_runners.is_empty(), "a revision that does not run is not aborted");
    assert_eq!(desk.reclaimed, vec![format!("/tmp/orch/{session}/w-rev/results_0")]);

    desk.says(&session, close("w-rev", Some(1)));
    let (_, env, _) = desk.got();
    match env.body {
        Message::Abort(a) => assert_eq!(a.work_id, "w-rev"),
        other => panic!("expected abort, got {other:?}"),
    }
}

#[test]
fn runner_disconnect_evicts_and_fails_outstanding_work() {
    let mut desk = Desk::new();
    let runner = desk.register("jaspTTests", None);
    let session = desk.quiet_hello();
    desk.says(&session, analysis("w-orphan", "jaspTTests", 0, None));
    desk.got();
    assert_eq!(desk.router.runners[0].outstanding, 1);

    desk.evict(&runner);
    let (to, env) = desk.heard();
    assert_eq!(to, session);
    assert_eq!(status_of(&env), ("w-orphan".to_string(), 0, Status::FatalError));
    assert!(!desk.runner_ids().contains(&runner), "runner evicted");
    assert!(desk.router.work.is_empty());

    desk.evict(&runner);
    assert!(desk.to_frontends.is_empty(), "a second eviction does nothing");
}

#[test]
fn work_errors_when_no_live_runner() {
    let mut desk = Desk::new();
    let runner = desk.register("jaspTTests", None);
    desk.evict(&runner);
    let session = desk.quiet_hello();
    desk.says(&session, analysis("w-dead", "jaspTTests", 0, None));
    let (_, env) = desk.heard();
    assert_eq!(status_of(&env).2, Status::FatalError);
}

#[test]
fn hang_detection_flags_a_wedged_runner() {
    let mut c = config("inproc://orch");
    c.hang_timeout_ms = 50;
    let mut desk = Desk::with(c, None);
    let runner = desk.register("jaspTTests", None);
    let session = desk.quiet_hello();
    assert!(desk.router.hung_runners(desk.now + 51).is_empty(), "nothing outstanding");

    desk.says(&session, analysis("w-hang", "jaspTTests", 0, None));
    assert!(desk.router.hung_runners(desk.now + 50).is_empty());
    assert_eq!(desk.router.hung_runners(desk.now + 51), vec![runner.clone()]);
    desk.router.touch(&runner, desk.now + 40);
    assert!(desk.router.hung_runners(desk.now + 51).is_empty(), "a sign of life");
}

fn routes_over(url: &str, work_id: &str) -> Desk {
    let mut desk = Desk::with(config(url), None);
    let runner = desk.register("jaspTTests", None);
    let session = desk.quiet_hello();
    desk.says(&session, analysis(work_id, "jaspTTests", 0, None));
    let (_, env, _) = desk.got();
    match env.body {
        Message::Work(w) => assert_eq!(w.work_id, work_id),
        other => panic!("expected work, got {other:?}"),
    }
    desk.answers(&runner, result(&session, work_id, 0, Status::Complete));
    let (_, env) = desk.heard();
    assert_eq!(status_of(&env).0, work_id);
    desk
}

#[test]
fn routing_over_tcp() {
    let desk = routes_over("tcp://127.0.0.1:9555", "w-tcp");
    assert_eq!(desk.router.config.channel_address(7, "r-1", 42), "tcp://127.0.0.1:0");
}

#[test]
fn routing_over_ipc() {
    let desk = routes_over("ipc:///tmp/jasp-orch-test.sock", "w-ipc");
    assert_eq!(desk.router.config.scheme(), "ipc");
    let a = desk.router.config.channel_address(7, "r-1", 42);
    assert!(a.starts_with("ipc://"), "{a}");
    assert!(a.contains("r-1"), "{a}");
}

#[test]
fn parked_work_is_dispatched_when_a_runner_registers() {
    let mut desk = Desk::provisioning(vec![]);
    let session = desk.quiet_hello();
    desk.says(&session, analysis("w-park", "M", 0, None));

    let (_, marker) = desk.heard();
    assert_eq!(status_of(&marker), ("w-park".to_string(), 0, Status::Running));
    assert_eq!(desk.provisions, vec!["M"]);

    let runner = desk.register("M", None);
    let (to, env, _) = desk.got();
    assert_eq!(to, runner);
    assert!(matches!(&env.body, Message::Work(w) if w.work_id == "w-park"));
    assert_eq!(env.session_id.as_deref(), Some(session.as_str()));
    assert!(desk.router.parked.is_empty());
    assert_eq!(desk.ups, vec![vec!["M".to_string()]]);

    desk.answers(&runner, result(&session, "w-park", 0, Status::Complete));
    let (_, env) = desk.heard();
    assert_eq!(status_of(&env), ("w-park".to_string(), 0, Status::Complete));
    assert!(desk.runner_ids().contains(&runner), "still registered");
}

#[test]
fn provision_failure_fails_parked_work() {
    let mut desk = Desk::provisioning(vec![]);
    let session = desk.quiet_hello();
    desk.says(&session, analysis("w-fail", "M", 0, None));
    let (_, marker) = desk.heard();
    assert_eq!(status_of(&marker).2, Status::Running);
    assert_eq!(desk.provisions.len(), 1);

    let actions = desk.router.fail_parked_module("M", "not in libset");
    desk.perform(actions);
    let (to, env) = desk.heard();
    assert_eq!(to, session);
    assert_eq!(status_of(&env), ("w-fail".to_string(), 0, Status::FatalError));
    assert!(desk.router.parked.is_empty());
}

#[test]
fn parked_work_is_superseded_by_a_newer_revision() {
    let mut desk = Desk::provisioning(vec![]);
    let session = desk.quiet_hello();
    for rev in [0u64, 1] {
        desk.says(&session, analysis("w-sup", "M", rev, None));
        let (_, marker) = desk.heard();
        assert_eq!(status_of(&marker).2, Status::Running);
    }
    assert_eq!(desk.provisions, vec!["M"], "no second request");

    desk.register("M", None);
    let (_, env, _) = desk.got();
    match &env.body {
        Message::Work(w) => {
            assert_eq!(w.work_id, "w-sup");
            assert_eq!(w.revision, 1, "the newer revision is handed out");
        }
        other => panic!("expected work, got {other:?}"),
    }
    assert_eq!(env.session_id.as_deref(), Some(session.as_str()));
    assert!(desk.to_runners.is_empty());
}

#[test]
fn list_modules_responds_with_the_current_catalog() {
    let mut desk = Desk::new();
    desk.register("jaspTTests", Some("file:///tmp/jaspTTests/"));
    desk.register("jaspAnova", None);
    let session = desk.quiet_hello();
    desk.says(&session, envelope("t-query", Message::ListModules));
    let (_, env) = desk.heard();
    assert_eq!(env.reply_to.as_deref(), Some("t-query"));
    assert_eq!(env.session_id.as_deref(), Some(session.as_str()));
    assert_eq!(
        modules_of(&env),
        vec![module_info("jaspTTests", "0.1", "file:///tmp/jaspTTests/")]
    );
}

#[test]
fn catalog_pushed_only_on_actual_change() {
    let mut desk = Desk::new();
    desk.quiet_hello();

    let a = desk.register("M", Some("file:///a/M/"));
    let (_, env) = desk.heard();
    assert!(env.reply_to.is_none(), "a push is unsolicited");
    assert_eq!(modules_of(&env), vec![module_info("M", "0.1", "file:///a/M/")]);

    let b = desk.register("M", Some("file:///b/M/"));
    assert!(desk.to_frontends.is_empty(), "no push for a redundant advertisement");

    desk.evict(&a);
    let (_, env) = desk.heard();
    assert_eq!(modules_of(&env), vec![module_info("M", "0.1", "file:///b/M/")]);

    desk.evict(&b);
    let (_, env) = desk.heard();
    assert!(modules_of(&env).is_empty());
}

#[test]
fn libset_modules_are_stable_across_runner_churn() {
    let lib = module_info("jaspTTests", "0.1", "file:///lib/jaspTTests/");
    let mut desk = Desk::provisioning(vec![lib.clone()]);
    let session = desk.quiet_hello();
    desk.says(&session, envelope("t-query", Message::ListModules));
    let (_, env) = desk.heard();
    assert_eq!(modules_of(&env), vec![lib.clone()]);

    desk.register("jaspTTests", Some("file:///dev/jaspTTests/"));
    assert!(desk.to_frontends.is_empty(), "the library entry is stable");

    let dev = desk.register("jaspDev", Some("file:///dev/jaspDev/"));
    let (_, env) = desk.heard();
    assert_eq!(
        modules_of(&env),
        vec![module_info("jaspDev", "0.1", "file:///dev/jaspDev/"), lib.clone()]
    );

    desk.evict(&dev);
    let (_, env) = desk.heard();
    assert_eq!(modules_of(&env), vec![lib]);
    assert_eq!(desk.gone, vec![vec!["jaspDev".to_string()]]);
}

#[test]
fn hello_receives_catalog_as_first_channel_frame() {
    let lib = module_info("jaspTTests", "0.1", "file:///lib/jaspTTests/");
    let mut desk = Desk::provisioning(vec![lib.clone()]);
    let session = desk.hello();
    let (to, env) = desk.heard();
    assert_eq!(to, session);
    assert!(env.reply_to.is_none(), "unsolicited");
    assert_eq!(env.session_id.as_deref(), Some(session.as_str()));
    assert_eq!(modules_of(&env), vec![lib]);
}

#[test]
fn reconnect_receives_a_fresh_catalog() {
    let mut desk = Desk::new();
    let first = desk.hello();
    let (_, env) = desk.heard();
    assert!(modules_of(&env).is_empty());
    desk.register("jaspDev", Some("file:///dev/jaspDev/"));
    let (_, env) = desk.heard();
    assert_eq!(modules_of(&env).len(), 1);

    let actions = desk.router.drop_frontend(&first);
    desk.perform(actions);
    assert_eq!(desk.reclaimed, vec![format!("/tmp/orch/{first}")]);
    let second = desk.hello();
    assert_ne!(first, second);
    let (_, env) = desk.heard();
    assert_eq!(
        modules_of(&env),
        vec![module_info("jaspDev", "0.1", "file:///dev/jaspDev/")]
    );
}

#[test]
fn other_versions_are_refused() {
    let mut desk = Desk::new();
    let mut env = envelope("t-old", Message::Ping);
    env.v = 2;
    let no = desk.router.begin_register(&env).expect_err("refused");
    assert_eq!(no.reply_to.as_deref(), Some("t-old"));
    match no.body {
        Message::RegisterAck(a) => {
            assert!(!a.ok);
            assert_eq!(a.reason.as_deref(), Some("unsupported_version"));
        }
        other => panic!("expected register_ack, got {other:?}"),
    }
    let no = desk.router.begin_hello(&env).expect_err("refused");
    match no.body {
        Message::Welcome(w) => {
            assert!(!w.ok);
            assert_eq!(w.error.as_deref(), Some("unsupported_version"));
        }
        other => panic!("expected welcome, got {other:?}"),
    }
    assert_eq!(desk.router.counter, 0);
}

#[test]
fn the_preferred_runner_gets_the_work() {
    let mut desk = Desk::new();
    let low = desk.register_as(analyses("M", None), 1);
    let high = desk.register_as(analyses("M", None), 5);
    let late = desk.register_as(analyses("M", None), 5);
    let session = desk.quiet_hello();
    desk.says(&session, analysis("w", "M", 0, None));
    assert_eq!(desk.got().0, late, "the later one of two with the same priority");
    desk.evict(&late);
    desk.to_frontends.clear();
    desk.says(&session, analysis("w", "M", 0, None));
    assert_eq!(desk.got().0, high);
    desk.evict(&high);
    desk.to_frontends.clear();
    desk.says(&session, analysis("w", "M", 0, None));
    assert_eq!(desk.got().0, low);
}

#[test]
fn capabilities_cover_their_kind_of_work() {
    let data = |op: DataOp, format: &str| {
        WorkPayload::Data(DataWork {
            op,
            source: "s".to_string(),
            cache_path: "c".to_string(),
            format: format.to_string(),
            ingest: IngestParams::default(),
        })
    };
    let runner = |id: &str, seq: u64, capabilities: Vec<Capability>| Runner {
        runner_id: id.to_string(),
        capabilities,
        priority: 0,
        seq,
        last_activity: 0,
        outstanding: 0,
    };
    let runners = vec![
        runner("r-1", 1, vec![Capability::Rcode]),
        runner(
            "r-2",
            2,
            vec![Capability::Data { op: DataOp::Open, formats: Some(vec!["csv".to_string()]) }],
        ),
        runner("r-3", 3, vec![Capability::Data { op: DataOp::View, formats: None }]),
    ];
    let code = WorkPayload::Rcode(RcodeWork { code: "1".to_string(), env: Json::Null });
    assert_eq!(select_runner(&runners, &code), Some(0));
    assert_eq!(select_runner(&runners, &data(DataOp::Open, "csv")), Some(1));
    assert_eq!(select_runner(&runners, &data(DataOp::Open, "spss")), None);
    assert_eq!(select_runner(&runners, &data(DataOp::View, "spss")), Some(2));
    assert_eq!(select_runner(&runners, &data(DataOp::Edit, "csv")), None);
}

#[test]
fn misses_are_silent_before_any_registration() {
    let mut desk = Desk::new();
    let session = desk.quiet_hello();
    desk.says(&session, analysis("w", "M", 0, None));
    assert!(desk.to_frontends.is_empty());
    assert!(desk.to_runners.is_empty());
}

#[test]
fn stale_results_are_dropped() {
    let mut desk = Desk::new();
    let runner = desk.register("M", None);
    let session = desk.quiet_hello();
    desk.says(&session, analysis("w", "M", 0, None));
    desk.says(&session, analysis("w", "M", 1, None));
    desk.answers(&runner, result(&session, "w", 0, Status::Complete));
    assert!(desk.to_frontends.is_empty(), "an older revision");
    desk.answers(&runner, result(&session, "other", 0, Status::Complete));
    assert!(desk.to_frontends.is_empty(), "unknown work");
    desk.answers(&runner, result(&session, "w", 1, Status::Running));
    assert_eq!(desk.to_frontends.len(), 1);
    assert_eq!(desk.router.work.len(), 1, "still running");
    desk.answers(&runner, result(&session, "w", 1, Status::ValidationError));
    assert_eq!(desk.to_frontends.len(), 2);
    assert!(desk.router.work.is_empty());
}

#[test]
fn sessions_do_not_share_work_ids() {
    let mut desk = Desk::new();
    let runner = desk.register("M", None);
    let a = desk.quiet_hello();
    let b = desk.quiet_hello();
    desk.says(&a, analysis("w", "M", 0, None));
    desk.says(&b, analysis("w", "M", 0, None));
    desk.answers(&runner, result(&b, "w", 0, Status::Complete));
    assert_eq!(desk.heard().0, b);
    assert_eq!(desk.router.work.len(), 1);
    assert_eq!(desk.router.work[0].session_id, a);
    let actions = desk.router.drop_frontend(&a);
    desk.perform(actions);
    assert!(desk.router.work.is_empty());
}

#[test]
fn aborts_and_pings_are_answered() {
    let mut desk = Desk::new();
    let runner = desk.register("M", None);
    let session = desk.quiet_hello();
    desk.says(&session, analysis("w", "M", 0, None));
    desk.got();
    desk.says(&session, envelope("t-abort", Message::Abort(Abort { work_id: "w".to_string() })));
    let (to, env, _) = desk.got();
    assert_eq!(to, runner);
    assert_eq!(env.session_id.as_deref(), Some(session.as_str()));
    assert!(matches!(&env.body, Message::Abort(a) if a.work_id == "w"));
    assert_eq!(desk.router.work.len(), 1, "the route ends with its result");
    desk.says(&session, envelope("t-abort", Message::Abort(Abort { work_id: "x".to_string() })));
    assert!(desk.to_runners.is_empty());

    desk.says(&session, envelope("t-ping", Message::Ping));
    let (_, env) = desk.heard();
    assert_eq!(env.reply_to.as_deref(), Some("t-ping"));
    assert!(matches!(env.body, Message::Pong));
}

#[test]
fn parked_work_times_out() {
    let mut desk = Desk::provisioning(vec![]);
    let session = desk.quiet_hello();
    desk.says(&session, analysis("w", "M", 3, None));
    desk.heard();
    let actions = desk.router.scan_parked(desk.now + 60_000);
    assert!(actions.is_empty(), "not yet");
    let actions = desk.router.scan_parked(desk.now + 60_001);
    desk.perform(actions);
    let (_, env) = desk.heard();
    assert_eq!(status_of(&env), ("w".to_string(), 3, Status::FatalError));
    assert!(desk.router.parked.is_empty());

    let mut never = Desk::new();
    assert!(never.router.scan_parked(u64::MAX).is_empty());
}

#[test]
fn workspaces_are_kept_on_demand() {
    let mut c = config("inproc://orch");
    c.keep_workspaces = true;
    let mut desk = Desk::with(c, None);
    let session = desk.quiet_hello();
    desk.says(&session, close("w", None));
    let actions = desk.router.drop_frontend(&session);
    desk.perform(actions);
    assert!(desk.reclaimed.is_empty());
}

#[test]
fn the_version_asked_for_comes_first() {
    let mut desk = Desk::new();
    let offers = |version: &str| {
        vec![Capability::Analysis {
            name: "M".to_string(),
            version: version.to_string(),
            base_uri: None,
        }]
    };
    let other = desk.register_as(offers("0.2"), 5);
    let exact = desk.register_as(offers("0.1"), 0);
    let session = desk.quiet_hello();
    desk.says(&session, analysis("w", "M", 0, None));
    assert_eq!(desk.got().0, exact);
    desk.evict(&exact);
    desk.to_frontends.clear();
    desk.says(&session, analysis("w", "M", 0, None));
    assert_eq!(desk.got().0, other, "another version where there is no other");
}

#[test]
fn closed_work_does_not_wait() {
    let mut desk = Desk::provisioning(vec![]);
    let session = desk.quiet_hello();
    desk.says(&session, analysis("w", "M", 3, None));
    desk.heard();
    desk.says(&session, close("w", Some(2)));
    assert_eq!(desk.router.parked.len(), 1, "another revision waits");
    desk.says(&session, close("w", None));
    assert!(desk.router.parked.is_empty());
    desk.register("M", None);
    assert!(desk.to_runners.is_empty(), "no runner gets closed work");

    desk.says(&session, close("w", None));
    assert!(desk.to_runners.is_empty());
    assert!(desk.to_frontends.is_empty());
}
