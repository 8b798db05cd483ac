//! The smaller parts: frames, settings, messages, the data lane, names and dictionaries.
use arrow::array::{ArrayRef, DictionaryArray, Int32Array, RecordBatch, StringArray};
use arrow::datatypes::{DataType, Field as ArrowField, Schema};
use arrow::ipc::writer::{DictionaryHandling, FileWriter, IpcWriteOptions};
use neo_orchestrator::block::parse_block;
use neo_orchestrator::capture::{decode_inverse, write_columns, Column};
use neo_orchestrator::catalog::{arrange, list_analyses, merge_ads};
use neo_orchestrator::config::{parse_libset, parse_number, Config, Vars};
use neo_orchestrator::envelopes::{orch_err, read_handshake, register_ack, welcome, Handshake};
use neo_orchestrator::framing::{deframe, frame_bytes, frame_parts, frame_tail};
use neo_orchestrator::json::Json;
use neo_orchestrator::lane::{
    answer_open, answer_view, choose_step, lane_capabilities, read_ack, ColumnInfo, ConvertOutput,
    LaneStep, ViewOutput,
};
use neo_orchestrator::levels::{dedup_texts, prebuild_dict};
use neo_orchestrator::messages::{
    Capability, DataOp, DataWork, EditFailure, Envelope, Hello, IngestParams, Message, ModuleInfo,
    RegisterAck, Status, Work, WorkPayload,
};
use neo_orchestrator::names::unique_new_name;
use neo_orchestrator::number::Numerals;
use neo_orchestrator::table::{Field, Kind};
use neo_orchestrator::wire::ScaleStats;
use std::sync::Arc;

fn list(texts: &[&str]) -> Vec<String> {
    texts.iter().map(|t| t.to_string()).collect()
}

#[test]
fn frames_carry_both_parts() {
    let f = frame_parts(b"{}", b"a\tb\n");
    assert_eq!(f, b"\x00\x00\x00\x02{}a\tb\n");
    assert_eq!(deframe(&f), Some(b"{}".to_vec()));
    assert_eq!(frame_tail(&f), Some(b"a\tb\n".to_vec()));
    assert_eq!(frame_bytes(b"[1]"), b"\x00\x00\x00\x03[1]");
}

#[test]
fn cut_frames_are_refused() {
    let f = frame_bytes(&[7u8; 300]);
    assert_eq!(f[..4], [0, 0, 1, 44]);
    for k in 0..f.len() {
        assert_eq!(deframe(&f[..k]), None);
    }
    assert_eq!(deframe(&f), Some(vec![7u8; 300]));
}

fn vars() -> Vars {
    Vars {
        url: None,
        dir_root: None,
        hang_timeout_ms: None,
        activity_min_ms: None,
        keep_workspaces: None,
        libset: None,
        runner_script: None,
        rscript: None,
        spawn_timeout_ms: None,
        park_timeout_ms: None,
    }
}

#[test]
fn settings_have_defaults() {
    let c = Config::from_vars(&vars(), "/data/a.arrow".to_string());
    assert_eq!(c.control_url, "tcp://127.0.0.1:9555");
    assert_eq!(c.orchestrator_dir_root, "/tmp/jasp-orchestrator");
    assert_eq!(c.hang_timeout_ms, 30_000);
    assert_eq!(c.activity_min_ms, 1_000);
    assert!(!c.keep_workspaces);
    assert!(c.provisioner.is_none());
    assert_eq!(c.scheme(), "tcp");
    assert_eq!(c.tcp_host(), "127.0.0.1");
    assert_eq!(c.session_workspace("s-1"), "/tmp/jasp-orchestrator/s-1");
    assert_eq!(c.work_workspace("s-1", "w"), "/tmp/jasp-orchestrator/s-1/w");
    assert_eq!(c.revision_dir("s-1", "w", 7), "/tmp/jasp-orchestrator/s-1/w/results_7");
}

#[test]
fn bracketed_hosts_stay_whole() {
    let host = |url: &str| {
        let mut v = vars();
        v.url = Some(url.to_string());
        Config::from_vars(&v, String::new()).tcp_host().to_string()
    };
    assert_eq!(host("tcp://[::1]:9555"), "[::1]");
    assert_eq!(host("tcp://[::1]"), "[::1]");
    assert_eq!(host("tcp://broker:9555"), "broker");
    assert_eq!(host("tcp://:9555"), "127.0.0.1");
}

#[test]
fn settings_are_read() {
    let mut v = vars();
    v.url = Some("ipc:///tmp/o.sock".to_string());
    v.hang_timeout_ms = Some("50".to_string());
    v.activity_min_ms = Some("soon".to_string());
    v.keep_workspaces = Some("true".to_string());
    v.libset = Some(" /a/lib :/b/lib".to_string());
    v.runner_script = Some("runner.R".to_string());
    let c = Config::from_vars(&v, String::new());
    assert_eq!(c.scheme(), "ipc");
    assert_eq!(c.hang_timeout_ms, 50);
    assert_eq!(c.activity_min_ms, 1_000, "no number");
    assert!(c.keep_workspaces);
    let p = c.provisioner.expect("library paths are given");
    assert_eq!(p.libset, list(&["/a/lib", "/b/lib"]));
    assert_eq!(p.runner_script, "runner.R");
    assert_eq!(p.rscript_bin, "Rscript");
    assert_eq!(p.spawn_timeout_ms, 120_000);
    assert_eq!(p.park_timeout_ms, 180_000);
}

#[test]
fn library_paths_are_trimmed() {
    assert_eq!(parse_libset(" /a/lib \u{a0}:/b c/lib::\t"), list(&["/a/lib", "/b c/lib"]));
    assert!(parse_libset("").is_empty());
}

#[test]
fn numbers_are_read_in_full() {
    assert_eq!(parse_number("0"), Some(0));
    assert_eq!(parse_number("18446744073709551615"), Some(u64::MAX));
    assert_eq!(parse_number("18446744073709551616"), None);
    assert_eq!(parse_number(""), None);
    assert_eq!(parse_number("4x"), None);
}

#[test]
fn replies_carry_what_they_answer() {
    let e = orch_err(Some("t-1"), "bad_message", "what");
    assert_eq!(e.reply_to.as_deref(), Some("t-1"));
    match e.body {
        Message::Error(m) => {
            assert_eq!(m.code, "bad_message");
            assert_eq!(m.message, "what");
        }
        other => panic!("expected error, got {other:?}"),
    }
    let e = register_ack("r-4", "tcp://127.0.0.1:5", 1_000, "t-2");
    assert_eq!(e.reply_to.as_deref(), Some("t-2"));
    match e.body {
        Message::RegisterAck(a) => {
            assert!(a.ok);
            assert_eq!(a.runner_id.as_deref(), Some("r-4"));
            assert_eq!(a.channel_url.as_deref(), Some("tcp://127.0.0.1:5"));
            assert_eq!(a.activity_min_interval_ms, Some(1_000));
        }
        other => panic!("expected register_ack, got {other:?}"),
    }
    let e = welcome("s-2", "tcp://127.0.0.1:6", "t-3");
    assert_eq!(e.session_id.as_deref(), Some("s-2"));
    assert!(matches!(&e.body, Message::Welcome(w) if w.ok));
}

#[test]
fn the_control_endpoint_carries_the_handshake() {
    let env = |body: Message| Envelope {
        v: 1,
        id: "t-9".to_string(),
        reply_to: None,
        session_id: None,
        ts: None,
        body,
    };
    let hello = Message::Hello(Hello { client_id: None, client_version: None });
    assert!(matches!(read_handshake(&env(hello)), Handshake::Hello));
    let Handshake::Neither(e) = read_handshake(&env(Message::Ping)) else {
        panic!("expected an error");
    };
    assert_eq!(e.reply_to.as_deref(), Some("t-9"));
    assert!(matches!(&e.body, Message::Error(m) if m.code == "unexpected_on_control"));
}

fn data_work(op: DataOp, format: &str) -> Envelope {
    Envelope {
        v: 1,
        id: "t".to_string(),
        reply_to: None,
        session_id: Some("s-1".to_string()),
        ts: None,
        body: Message::Work(Work {
            work_id: "d-1".to_string(),
            revision: 2,
            base_revision: None,
            dataset_ids: Vec::new(),
            payload: WorkPayload::Data(DataWork {
                op,
                source: "/x.csv".to_string(),
                cache_path: "/x.arrow".to_string(),
                format: format.to_string(),
                ingest: IngestParams::default(),
            }),
        }),
    }
}

#[test]
fn the_lane_serves_opens_and_views() {
    assert!(matches!(choose_step(&data_work(DataOp::Open, "csv")), LaneStep::Open));
    assert!(matches!(choose_step(&data_work(DataOp::View, "")), LaneStep::View));
    let mut other = data_work(DataOp::View, "");
    other.body = Message::Ping;
    assert!(matches!(choose_step(&other), LaneStep::Skip));

    let LaneStep::Refuse(r) = choose_step(&data_work(DataOp::Open, "spss")) else {
        panic!("expected a refusal");
    };
    assert_eq!(r.id, "data-result-d-1");
    assert_eq!(r.session_id.as_deref(), Some("s-1"));
    assert_eq!((r.work_id.as_str(), r.revision, r.status), ("d-1", 2, Status::FatalError));
    assert_eq!(
        r.payload.error_message.as_deref(),
        Some("this lane only serves data_open for csv (got 'spss')")
    );
    let LaneStep::Refuse(r) = choose_step(&data_work(DataOp::Edit, "csv")) else {
        panic!("expected a refusal");
    };
    assert_eq!(
        r.payload.error_message.as_deref(),
        Some("this lane only serves data_open and data_view (got Edit)")
    );
    let caps = lane_capabilities();
    assert_eq!(
        caps,
        vec![
            Capability::Data { op: DataOp::Open, formats: Some(list(&["csv"])) },
            Capability::Data { op: DataOp::View, formats: None },
        ]
    );
}

#[test]
fn opens_describe_their_columns() {
    let column = |name: &str, level: &str, levels: Option<Vec<String>>| ColumnInfo {
        name: name.to_string(),
        display_name: name.to_string(),
        level: level.to_string(),
        all_integer: false,
        levels,
        value_count: 3,
        distinct_count: 2,
        numeric_levels: None,
    };
    let out = ConvertOutput {
        rows: 3,
        columns: vec![column("a", "scale", None), column("b", "nominal", Some(list(&["x", "y"])))],
    };
    let r = answer_open(&Some("s-1".to_string()), "d", 0, "/x.csv", Ok(out));
    assert_eq!(r.status, Status::Complete);
    assert_eq!(r.payload.rows, Some(3));
    let Some(Json::Array(cols)) = &r.payload.schema else {
        panic!("expected columns");
    };
    assert_eq!(cols.len(), 2);
    assert_eq!(cols[0].get("type"), Some(&Json::Str("scale".to_string())));
    assert_eq!(cols[0].get("all_integer"), Some(&Json::Bool(false)));
    assert_eq!(cols[0].get("levels"), None);
    assert_eq!(cols[1].get("all_integer"), None);
    assert_eq!(
        cols[1].get("levels"),
        Some(&Json::Array(vec![Json::Str("x".to_string()), Json::Str("y".to_string())]))
    );
    assert_eq!(cols[1].get("distinct_count"), Some(&Json::Number(2)));

    let r = answer_open(&None, "d", 0, "/x.csv", Err("no such file".to_string()));
    assert_eq!(r.status, Status::FatalError);
    assert_eq!(
        r.payload.error_message.as_deref(),
        Some("could not open '/x.csv': no such file")
    );
}

#[test]
fn views_name_their_bytes() {
    let out = |tsv: &[u8]| ViewOutput {
        rows_total: 10,
        row_offset: 2,
        row_count: 1,
        truncated: true,
        tsv: tsv.to_vec(),
    };
    let (r, tsv) = answer_view(&None, "d", 0, Ok(out(b"1\n")));
    assert_eq!(r.format.as_deref(), Some("text/tsv"));
    assert_eq!(tsv, b"1\n");
    assert_eq!(r.payload.rows, Some(10));
    assert_eq!(r.payload.row_offset, Some(2));
    assert_eq!(r.payload.truncated, Some(true));
    let (r, tsv) = answer_view(&None, "d", 0, Ok(out(b"")));
    assert_eq!(r.format, None);
    assert!(tsv.is_empty());
    let (r, _) = answer_view(&None, "d", 0, Err("gone".to_string()));
    assert_eq!(r.payload.error_message.as_deref(), Some("gone"));
    assert_eq!(r.format, None);
}

#[test]
fn acks_are_read() {
    let ack = |ok: bool, id: Option<&str>, url: Option<&str>, reason: Option<&str>| RegisterAck {
        ok,
        runner_id: id.map(|t| t.to_string()),
        channel_url: url.map(|t| t.to_string()),
        activity_min_interval_ms: None,
        reason: reason.map(|t| t.to_string()),
    };
    assert_eq!(
        read_ack(&ack(true, Some("r-1"), Some("u"), None)),
        Ok(("r-1".to_string(), "u".to_string()))
    );
    assert_eq!(
        read_ack(&ack(false, None, None, Some("full"))),
        Err("registration rejected: full".to_string())
    );
    assert_eq!(
        read_ack(&ack(false, None, None, None)),
        Err("registration rejected: ".to_string())
    );
    assert_eq!(
        read_ack(&ack(true, None, Some("u"), None)),
        Err("register_ack missing runner_id".to_string())
    );
    assert_eq!(
        read_ack(&ack(true, Some("r-1"), None, None)),
        Err("register_ack missing channel_url".to_string())
    );
}

#[test]
fn names_are_made_free() {
    let used = list(&["score", "score_2", "V4"]);
    assert_eq!(unique_new_name(&used, &"age".to_string(), 4), "age");
    assert_eq!(unique_new_name(&used, &"score".to_string(), 4), "score_3");
    assert_eq!(unique_new_name(&used, &String::new(), 4), "V4_2");
    assert_eq!(unique_new_name(&used, &"12".to_string(), 4), "V12");
}

#[test]
fn dictionaries_are_sorted_up_to_a_limit() {
    let mut num = Numerals::new(false);
    for (t, v) in [("10", 10.0f64), ("9", 9.0), ("-1", -1.0)] {
        num.add_parsed(t.to_string(), v.to_bits());
    }
    assert_eq!(
        dedup_texts(&list(&["b", "a", "b", "c", "a"])),
        list(&["b", "a", "c"])
    );
    assert_eq!(prebuild_dict(&list(&["10", "9", "-1"]), &num, 10), list(&["-1", "9", "10"]));
    assert_eq!(prebuild_dict(&list(&["10", "9", "x"]), &num, 10), list(&["10", "9", "x"]));
    assert_eq!(prebuild_dict(&list(&["b", "a"]), &num, 1), list(&["b", "a"]));
    assert_eq!(prebuild_dict(&list(&["b", "a", "Z"]), &num, 3), list(&["Z", "a", "b"]));
}

#[test]
fn odd_bytes_are_replaced() {
    let b = parse_block(b"a\xffb\n").expect("parses");
    assert_eq!(b.cells[0][0].0, "a\u{fffd}b");
}

#[test]
fn scales_count_their_values() {
    let mut s = ScaleStats::new();
    for v in [1.5f64, 1.5, 0.0, -0.0] {
        s.observe(Some(v.to_bits()));
    }
    s.observe(None);
    assert_eq!(s.distinct(), 2);
}

#[test]
fn catalogs_are_merged_and_sorted() {
    let info = |n: &str, v: &str, u: &str| ModuleInfo {
        name: n.to_string(),
        version: v.to_string(),
        base_uri: u.to_string(),
    };
    let ad = |n: &str, v: &str, u: Option<&str>| Capability::Analysis {
        name: n.to_string(),
        version: v.to_string(),
        base_uri: u.map(|t| t.to_string()),
    };
    let mut all = vec![info("b", "1", "file:///lib/b/")];
    let caps = vec![
        ad("b", "1", Some("file:///dev/b/")),
        ad("a", "2", Some("file:///dev/a/")),
        ad("c", "1", None),
        Capability::Rcode,
    ];
    merge_ads(&mut all, &caps);
    assert_eq!(
        arrange(&all),
        vec![info("a", "2", "file:///dev/a/"), info("b", "1", "file:///lib/b/")]
    );
    assert_eq!(list_analyses(&caps), list(&["b", "a", "c"]));
}

fn column(kind: Kind, levels: &[&str], cells: Vec<Option<u64>>) -> Column {
    Column {
        field: Field {
            name: "x".to_string(),
            kind,
            display_name: "X".to_string(),
            all_integer: false,
            labels: vec![("a".to_string(), "A \"quoted\" label".to_string())],
        },
        levels: list(levels),
        cells,
    }
}

#[test]
fn captures_are_written_and_read_back() {
    let number = column(Kind::Float64, &[], vec![Some(2.5f64.to_bits()), None]);
    let nominal = column(Kind::Dictionary { ordered: false }, &["b", "a"], vec![None, Some(1)]);
    let cols = vec![number, nominal];
    let bytes = write_columns(&cols).expect("written");
    let back = decode_inverse(&bytes).map(|d| d.columns);
    assert_eq!(back.ok(), Some(cols));
    let blank = vec![
        column(Kind::Dictionary { ordered: true }, &["b", "a"], vec![None, None]),
        column(Kind::Dictionary { ordered: false }, &[], vec![None, None]),
        column(Kind::Float64, &[], vec![None, None]),
    ];
    let bytes = write_columns(&blank).expect("written");
    assert_eq!(decode_inverse(&bytes).map(|d| d.columns).ok(), Some(blank));
    let bare = vec![
        column(Kind::Dictionary { ordered: true }, &["b", "a"], vec![]),
        column(Kind::Float64, &[], vec![]),
    ];
    let bytes = write_columns(&bare).expect("written");
    assert_eq!(decode_inverse(&bytes).map(|d| d.columns).ok(), Some(bare));
}

#[test]
fn captures_that_cannot_be_written_are_refused() {
    let refused = |cols: Vec<Column>| write_columns(&cols).expect_err("refused");
    assert_eq!(refused(vec![]), "there are no columns to write");
    let nominal = || Kind::Dictionary { ordered: true };
    assert_eq!(
        refused(vec![column(nominal(), &["a"], vec![Some(0), Some(1)])]),
        "a key lies outside its dictionary"
    );
    assert_eq!(
        refused(vec![column(Kind::Other("Int8".to_string()), &[], vec![])]),
        "a column has an unsupported type"
    );
    // 512 for the column; 64, 16 and 5 for one entry of its metadata; 64, 17 and 1 for the other.
    let mut wide = column(Kind::Float64, &[], vec![]);
    wide.field.name = "n".repeat(0x7fff_ffff - 512 - 85 - 82);
    wide.field.labels = vec![("a".to_string(), "b".to_string())];
    assert_eq!(refused(vec![wide]), "the names and labels of the columns are too long");
}

#[test]
fn large_captures_are_written() {
    let mut wide = column(Kind::Float64, &[], vec![None]);
    wide.field.name = "n".repeat(70_000_000);
    assert!(write_columns(&vec![wide]).expect("written").len() > 140_000_000);
}

#[test]
fn faults_of_a_file_are_reported() {
    let fault = |bytes: &[u8]| match decode_inverse(bytes) {
        Err(EditFailure::Fatal(text)) => text,
        _ => panic!("expected a fault"),
    };
    assert!(fault(&[0u8; 40]).contains("Arrow file does not contain correct footer"));
    let mut bytes = [0xffu8; 40];
    bytes[30..34].copy_from_slice(&[8, 0, 0, 0]);
    bytes[34..].copy_from_slice(b"ARROW1");
    assert!(fault(&bytes).contains("Unable to get root as footer"));
}

#[test]
fn dictionaries_that_grow_are_read() {
    let text = DataType::Dictionary(Box::new(DataType::Int32), Box::new(DataType::Utf8));
    let schema = Arc::new(Schema::new(vec![ArrowField::new("g", text, true)]));
    let options =
        IpcWriteOptions::default().with_dictionary_handling(DictionaryHandling::Delta);
    let mut w = FileWriter::try_new_with_options(Vec::new(), &schema, options).expect("a writer");
    for levels in [vec!["a", "b"], vec!["a", "b", "c"]] {
        let keys = Int32Array::from(vec![Some(1), None]);
        let array = DictionaryArray::try_new(keys, Arc::new(StringArray::from(levels)));
        let column: ArrayRef = Arc::new(array.expect("an array"));
        let batch = RecordBatch::try_new(Arc::clone(&schema), vec![column]).expect("a batch");
        w.write(&batch).expect("written");
    }
    let bytes = w.into_inner().expect("a file");
    let columns = decode_inverse(&bytes).expect("read").columns;
    assert_eq!(columns[0].levels, list(&["a", "b", "c"]));
    assert_eq!(columns[0].cells, vec![Some(1), None]);
    assert_eq!(columns[0].field.display_name, "g");
}
