//! Edits of cached datasets: what lands, what is refused, and what comes back.
use arrow::array::{Array, AsArray, RecordBatch};
use arrow::ipc::reader::FileReader;
use neo_orchestrator::block::parse_block;
use neo_orchestrator::consult::list_consulted;
use neo_orchestrator::edit_block::block_invalidation;
use neo_orchestrator::json::Json;
use neo_orchestrator::messages::{
    EditFailure, EditOp, IngestParams, InverseMeta, Invalidation, NewColumnSpec,
};
use neo_orchestrator::number::Numerals;
use neo_orchestrator::outcome::{EditJob, EditOutput};
use neo_orchestrator::paste::derive_dict;
use neo_orchestrator::serve::{read_cache_schema, serve};
use neo_orchestrator::table::{Batch, Dataset, Field, Kind, Level};
use serde_json::Value;
use std::collections::BTreeMap;

type Edited = Result<(EditOutput, Dataset), EditFailure>;

/// A JSON value from its text.
fn js(text: &str) -> Json {
    from_value(&serde_json::from_str::<Value>(text).expect("well-formed JSON"))
}

fn from_value(v: &Value) -> Json {
    match v {
        Value::Null => Json::Null,
        Value::Bool(b) => Json::Bool(*b),
        Value::Number(n) => match n.as_u64() {
            Some(u) => Json::Number(u),
            None => Json::OtherNumber(n.to_string()),
        },
        Value::String(s) => Json::Str(s.clone()),
        Value::Array(a) => Json::Array(a.iter().map(from_value).collect()),
        Value::Object(o) => {
            Json::Object(o.iter().map(|(k, x)| (k.clone(), from_value(x))).collect())
        }
    }
}

fn to_value(j: &Json) -> Value {
    match j {
        Json::Null => Value::Null,
        Json::Bool(b) => Value::Bool(*b),
        Json::Number(n) => Value::from(*n),
        Json::OtherNumber(t) => serde_json::from_str(t).expect("a number"),
        Json::Str(s) => Value::String(s.clone()),
        Json::Array(a) => Value::Array(a.iter().map(to_value).collect()),
        Json::Object(o) => {
            Value::Object(o.iter().map(|(k, x)| (k.clone(), to_value(x))).collect())
        }
    }
}

fn val(text: &str) -> Value {
    serde_json::from_str(text).expect("well-formed JSON")
}

/// Ten significant digits, without trailing zeros.
fn g10(v: f64) -> String {
    if v == 0.0 {
        return "0".to_string();
    }
    let e = v.abs().log10().floor() as i32;
    let decimals = (9 - e).max(0) as usize;
    let s = format!("{:.*}", decimals, v);
    if s.contains('.') {
        s.trim_end_matches('0').trim_end_matches('.').to_string()
    } else {
        s
    }
}

fn number(t: &str) -> Option<f64> {
    if t.is_empty() || !t.chars().all(|c| c.is_ascii_digit() || "+-.eE".contains(c)) {
        return None;
    }
    t.parse::<f64>().ok().filter(|v| v.is_finite())
}

fn add_numeral(num: &mut Numerals, t: &str) {
    if let Some(v) = number(t) {
        num.add_parsed(t.to_string(), v.to_bits());
        num.add_canonical(t.to_string(), g10(v));
        num.add_shown(v.to_bits(), g10(v));
    }
}

/// The numerals that an edit of a dataset can meet.
fn numerals(ds: &Dataset, tail: &[u8]) -> Numerals {
    let mut num = Numerals::new(false);
    for levels in &ds.dicts {
        for l in levels {
            add_numeral(&mut num, l);
        }
    }
    for t in String::from_utf8_lossy(tail).split(['\t', '\n']) {
        add_numeral(&mut num, t);
    }
    for b in &ds.batches {
        for (j, col) in b.cols.iter().enumerate() {
            if ds.fields[j].kind == Kind::Float64 {
                for c in col.iter().flatten() {
                    let v = f64::from_bits(*c);
                    num.add_shown(*c, g10(v));
                    add_numeral(&mut num, &g10(v));
                }
            }
        }
    }
    num
}

fn level_kind(level: Level) -> Kind {
    match level {
        Level::Scale => Kind::Float64,
        Level::Ordinal => Kind::Dictionary { ordered: true },
        Level::Nominal => Kind::Dictionary { ordered: false },
    }
}

fn field(name: &str, level: Level, all_integer: bool) -> Field {
    Field {
        name: name.to_string(),
        kind: level_kind(level),
        display_name: name.to_string(),
        all_integer,
        labels: Vec::new(),
    }
}

/// A dataset as an import of the text would cache it.
fn fixture(csv: &str) -> Dataset {
    let ingest = IngestParams::default();
    let mut lines = csv.lines();
    let names: Vec<&str> = lines.next().expect("a header").split(',').collect();
    let rows: Vec<Vec<&str>> = lines.map(|l| l.split(',').collect()).collect();
    let mut fields = Vec::new();
    let mut dicts = Vec::new();
    let mut cols = Vec::new();
    for (j, name) in names.iter().enumerate() {
        let ts: Vec<Option<String>> = rows
            .iter()
            .map(|r| Some(r[j].to_string()).filter(|t| !ingest.nulls.contains(t)))
            .collect();
        let mut num = Numerals::new(false);
        for t in ts.iter().flatten() {
            add_numeral(&mut num, t);
        }
        let d = derive_dict(&ts, &num, ingest.threshold, ingest.sort_limit);
        if d.level == Level::Scale {
            fields.push(field(name, Level::Scale, d.integers));
            dicts.push(Vec::new());
            cols.push(
                ts.iter()
                    .map(|t| t.as_ref().and_then(|t| num.parse_num(t)))
                    .collect::<Vec<Option<u64>>>(),
            );
        } else {
            fields.push(field(name, d.level, false));
            dicts.push(if rows.is_empty() { Vec::new() } else { d.levels });
            cols.push(d.keys);
        }
    }
    let batches = if rows.is_empty() {
        Vec::new()
    } else {
        vec![Batch { rows: rows.len(), cols }]
    };
    Dataset::new(fields, dicts, batches).expect("a sound dataset")
}

/// A cell for [`direct_cache`].
#[derive(Clone, Copy)]
enum Cell {
    F(f64),
    S(&'static str),
}

/// A dataset with explicit batch boundaries and one dictionary for all of them.
fn direct_cache(cols: &[(&str, Level)], batches: &[Vec<Vec<Cell>>]) -> Dataset {
    let mut dicts: Vec<Vec<String>> = Vec::new();
    for (j, (_, level)) in cols.iter().enumerate() {
        let mut list: Vec<String> = Vec::new();
        if *level != Level::Scale {
            for r in batches.iter().flatten() {
                if let Cell::S(s) = r[j] {
                    if !list.iter().any(|x| x == s) {
                        list.push(s.to_string());
                    }
                }
            }
            list.sort();
        }
        dicts.push(list);
    }
    let made = batches
        .iter()
        .map(|rows| Batch {
            rows: rows.len(),
            cols: (0..cols.len())
                .map(|j| {
                    rows.iter()
                        .map(|r| match r[j] {
                            Cell::F(v) => Some(v.to_bits()),
                            Cell::S(s) => dicts[j].iter().position(|x| x == s).map(|k| k as u64),
                        })
                        .collect()
                })
                .collect(),
        })
        .collect();
    let fields = cols.iter().map(|(n, l)| field(n, *l, false)).collect();
    Dataset::new(fields, dicts, made).expect("a sound dataset")
}

fn job(edit: EditOp, tail: &[u8]) -> EditJob {
    EditJob {
        source: "before.arrow".to_string(),
        cache_path: "after.arrow".to_string(),
        ingest: IngestParams::default(),
        revision: 3,
        edit,
        tail: tail.to_vec(),
    }
}

fn run(ds: &Dataset, edit: EditOp, tail: &[u8]) -> Edited {
    serve(&job(edit, tail), ds, &numerals(ds, tail))
}

fn paste(ds: &Dataset, row: u64, col: u64, tail: &str) -> Edited {
    run(ds, EditOp::InsertBlock { row, col, target_schema: None }, tail.as_bytes())
}

fn declared(ds: &Dataset, row: u64, col: u64, schema: &str, tail: &str) -> Edited {
    run(
        ds,
        EditOp::InsertBlock { row, col, target_schema: Some(js(schema)) },
        tail.as_bytes(),
    )
}

fn change(ds: &Dataset, target: &str) -> Edited {
    run(ds, EditOp::SchemaChange { target_schema: js(target) }, b"")
}

fn undo(ds: &Dataset, out: &EditOutput) -> Edited {
    run(
        ds,
        EditOp::ApplyInverse { inverse: out.inverse_meta.clone().expect("an inverse") },
        &out.inverse_bytes,
    )
}

fn column(ds: &Dataset, name: &str) -> usize {
    ds.fields.iter().position(|f| f.name == name).expect("column exists")
}

fn read_f64(ds: &Dataset, name: &str) -> Vec<Option<f64>> {
    let j = column(ds, name);
    assert_eq!(ds.fields[j].kind, Kind::Float64);
    ds.batches
        .iter()
        .flat_map(|b| b.cols[j].iter().map(|c| c.map(f64::from_bits)))
        .collect()
}

fn read_dict_values(ds: &Dataset, name: &str) -> Vec<Option<String>> {
    let j = column(ds, name);
    ds.batches
        .iter()
        .flat_map(|b| b.cols[j].iter().map(|c| c.map(|k| ds.dicts[j][k as usize].clone())))
        .collect()
}

fn read_dict_dictionary(ds: &Dataset, name: &str) -> Vec<String> {
    ds.dicts[column(ds, name)].clone()
}

fn read_field_names(ds: &Dataset) -> Vec<String> {
    ds.fields.iter().map(|f| f.name.clone()).collect()
}

fn read_field_ordered(ds: &Dataset, name: &str) -> bool {
    ds.fields[column(ds, name)].kind == Kind::Dictionary { ordered: true }
}

fn read_field_labels(ds: &Dataset, name: &str) -> BTreeMap<String, String> {
    ds.fields[column(ds, name)].labels.iter().cloned().collect()
}

/// Texts, with `~` for null.
fn some(texts: &[&str]) -> Vec<Option<String>> {
    texts
        .iter()
        .map(|t| if *t == "~" { None } else { Some(t.to_string()) })
        .collect()
}

fn list(texts: &[&str]) -> Vec<String> {
    texts.iter().map(|t| t.to_string()).collect()
}

fn schema(out: &EditOutput) -> Value {
    to_value(out.schema.as_ref().expect("schema present"))
}

fn ops(out: &EditOutput) -> Value {
    to_value(&out.inverse_meta.as_ref().expect("inverse present").ops)
}

/// The one batch of a captured blob.
fn blob(out: &EditOutput) -> RecordBatch {
    let reader = FileReader::try_new(std::io::Cursor::new(&out.inverse_bytes[..]), None)
        .expect("a readable blob");
    reader.into_iter().next().expect("a batch").expect("a sound batch")
}

fn blob_f64(b: &RecordBatch, c: usize) -> Vec<u64> {
    let a = b.column(c).as_primitive::<arrow::datatypes::Float64Type>();
    (0..a.len()).map(|i| a.value(i).to_bits()).collect()
}

fn blob_texts(b: &RecordBatch, c: usize) -> Vec<String> {
    let d = b.column(c).as_dictionary::<arrow::datatypes::Int32Type>();
    let vals = d.values().as_string::<i32>();
    (0..d.len()).map(|i| vals.value(d.keys().value(i) as usize).to_string()).collect()
}

fn bits(v: &[f64]) -> Vec<u64> {
    v.iter().map(|x| x.to_bits()).collect()
}

fn stale(all: Option<bool>, rows_from: Option<u64>, rows_to: Option<u64>) -> Invalidation {
    Invalidation { all, rows_from, rows_to }
}

fn issues(r: Edited) -> Vec<neo_orchestrator::messages::ValidationIssue> {
    match r {
        Err(EditFailure::Validation(v)) => v,
        other => panic!("expected a validation refusal, got {other:?}"),
    }
}

fn is_fatal(r: &Edited) -> bool {
    matches!(r, Err(EditFailure::Fatal(_)))
}

fn spec(name: &str, ty: Option<&str>, levels: Option<Vec<&str>>) -> NewColumnSpec {
    NewColumnSpec {
        name: name.to_string(),
        display_name: None,
        column_type: ty.map(|t| t.to_string()),
        levels: levels.map(|l| l.into_iter().map(|s| s.to_string()).collect()),
    }
}

#[derive(Debug, PartialEq, Clone)]
enum CellSnap {
    N,
    F(u64),
    S(String),
}

/// Everything about a column: its identity, its dictionary and its cells.
#[derive(Debug, PartialEq)]
struct ColSnap {
    name: String,
    display: String,
    kind: Kind,
    all_integer: bool,
    labels: BTreeMap<String, String>,
    dict: Vec<String>,
    cells: Vec<CellSnap>,
}

fn snapshot(ds: &Dataset) -> Vec<ColSnap> {
    ds.fields
        .iter()
        .enumerate()
        .map(|(j, f)| ColSnap {
            name: f.name.clone(),
            display: f.display_name.clone(),
            kind: match &f.kind {
                Kind::Float64 => Kind::Float64,
                Kind::Dictionary { ordered } => Kind::Dictionary { ordered: *ordered },
                Kind::Other(t) => Kind::Other(t.clone()),
            },
            all_integer: f.all_integer,
            labels: f.labels.iter().cloned().collect(),
            dict: ds.dicts[j].clone(),
            cells: ds
                .batches
                .iter()
                .flat_map(|b| b.cols[j].iter())
                .map(|c| match c {
                    None => CellSnap::N,
                    Some(k) => match f.kind {
                        Kind::Dictionary { .. } => CellSnap::S(ds.dicts[j][*k as usize].clone()),
                        _ => CellSnap::F(*k),
                    },
                })
                .collect(),
        })
        .collect()
}

/// The edit, its undo and the redo of it: the undo gives the dataset back and the redo gives
/// what the edit made.
fn round_trip(source: &Dataset, edit: EditOp, tail: &[u8]) {
    let before = snapshot(source);
    let (out1, rev1) = run(source, edit, tail).expect("the forward edit applies");
    assert!(out1.inverse_meta.is_some(), "every edit carries its inverse");
    let after_edit = snapshot(&rev1);
    assert_ne!(after_edit, before, "the edit changed something");
    let (out2, rev2) = undo(&rev1, &out1).expect("the undo applies");
    assert_eq!(snapshot(&rev2), before, "undo after edit");
    let (_, rev3) = undo(&rev2, &out2).expect("the redo applies");
    assert_eq!(snapshot(&rev3), after_edit, "redo after undo after edit");
}

fn round_trip_csv(csv: &str, edit: EditOp, tail: &str) {
    round_trip(&fixture(csv), edit, tail.as_bytes());
}

#[test]
fn block_parses_rectangular_cells() {
    let tail = b"val\t\t\\N\nhas\\ttab\t\t\\\\N\n";
    let block = parse_block(tail).expect("parses");
    assert_eq!(block.cells.len(), 2);
    assert_eq!(block.cells[0][0], ("val".to_string(), false));
    assert_eq!(block.cells[0][1], (String::new(), false));
    assert_eq!(block.cells[0][2], (String::new(), true));
    assert_eq!(block.cells[1][0], ("has\ttab".to_string(), false));
    assert_eq!(block.cells[1][2], ("\\N".to_string(), false));
}

#[test]
fn single_lf_is_one_empty_string_cell() {
    let block = parse_block(b"\n").expect("parses");
    assert_eq!(block.cells, vec![vec![(String::new(), false)]]);
}

#[test]
fn block_shape_refusals_are_anchor() {
    for (tail, why) in [
        (&b""[..], "empty"),
        (b"no terminator", "unterminated"),
        (b"a\tb\nc\n", "ragged"),
    ] {
        let err = match parse_block(tail) {
            Err(e) => e,
            Ok(_) => panic!("{why}"),
        };
        let EditFailure::Validation(issues) = err else {
            panic!("{why}: expected a validation refusal, got {err:?}");
        };
        assert_eq!(issues.len(), 1, "{why}: one issue");
        assert_eq!(issues[0].code, "anchor", "{why}");
    }
    let Err(EditFailure::Validation(issues)) = parse_block(b"a\tb\nc\n") else {
        unreachable!()
    };
    assert_eq!(issues[0].rows, Some(vec![1]));
}

#[test]
fn cache_schema_reads_levels_from_a_converted_cache() {
    let ds = fixture("score,group,rank\n1.5,A,1\n2.5,B,2\n3.5,A,3\n");
    assert_eq!(ds.rows(), 3);
    let cs = read_cache_schema(&ds);
    assert_eq!(cs.rows_total, 3);
    assert_eq!(cs.block_rows, vec![3]);
    let levels: Vec<Option<Level>> = cs.schema.iter().map(|f| f.level()).collect();
    assert_eq!(
        levels,
        vec![Some(Level::Scale), Some(Level::Nominal), Some(Level::Ordinal)]
    );

    let weird = Dataset::new(
        vec![Field {
            name: "i".to_string(),
            kind: Kind::Other("Int64".to_string()),
            display_name: "i".to_string(),
            all_integer: false,
            labels: Vec::new(),
        }],
        vec![Vec::new()],
        vec![Batch { rows: 1, cols: vec![vec![Some(1)]] }],
    )
    .expect("a sound dataset");
    let Err(EditFailure::Fatal(msg)) = paste(&weird, 0, 0, "\n") else {
        panic!("expected a fatal refusal");
    };
    assert!(msg.contains("unsupported type"), "{msg}");
}

#[test]
fn in_range_paste_into_scale() {
    let ds = fixture("score,group\n1.5,A\n2.5,B\n");
    let (out, after) = paste(&ds, 0, 0, "9.75\n").expect("applies");

    assert_eq!(out.rows, 2);
    assert_eq!(read_f64(&after, "score"), vec![Some(9.75), Some(2.5)]);
    assert_eq!(read_dict_values(&after, "group"), some(&["A", "B"]));
    assert_eq!(out.invalidation, stale(None, Some(0), Some(1)));

    let s = schema(&out);
    assert_eq!(s[0]["type"], "scale");
    assert_eq!(s[0]["value_count"], 2);
    assert_eq!(s[0]["distinct_count"], 2);
    assert_eq!(s[0]["all_integer"], false);
    assert_eq!(s[1]["levels"], val(r#"["A", "B"]"#));
    assert_eq!(s[1]["value_count"], 2);

    let meta = out.inverse_meta.as_ref().expect("inverse present");
    assert_eq!(meta.format, "arrow_ipc_v1");
    assert_eq!(meta.base_revision, 3);
    let o = ops(&out);
    assert_eq!(o["op"], "restore_block");
    assert_eq!(o["capture"], "rect");
    assert_eq!(o["capture_rows"], 1);
    assert_eq!(o["trim_rows_from"], Value::Null);
    assert_eq!(o["trim_cols_from"], Value::Null);

    assert_eq!(blob_f64(&blob(&out), 0), bits(&[1.5]));
}

#[test]
fn absorption_appends_new_levels() {
    let ds = fixture("score,group\n1.5,A\n2.5,B\n");
    let (out, after) = paste(&ds, 0, 1, "C\n").expect("applies");
    assert_eq!(read_dict_values(&after, "group"), some(&["C", "B"]));
    let s = schema(&out);
    assert_eq!(s[1]["levels"], val(r#"["A", "B", "C"]"#), "appended at the end");
    assert_eq!(s[1]["distinct_count"], 3);
    assert_eq!(s[1]["value_count"], 2, "A is unused but retained");
}

#[test]
fn promotion_retypes_scale_to_nominal() {
    let ds = fixture("score,group\n1.5,A\n2.5,B\n3.5,A\n");
    let (out, after) = paste(&ds, 1, 0, "oops\n").expect("applies");
    assert_eq!(read_dict_values(&after, "score"), some(&["1.5", "oops", "3.5"]));
    let s = schema(&out);
    assert_eq!(s[0]["type"], "nominal");
    assert_eq!(s[0]["levels"], val(r#"["1.5", "3.5", "oops"]"#));
    assert_eq!(out.invalidation, stale(Some(true), None, None));

    let o = ops(&out);
    assert_eq!(o["capture"], "full");
    assert_eq!(o["capture_rows"], 3);
    assert_eq!(blob_f64(&blob(&out), 0), bits(&[1.5, 2.5, 3.5]));
}

#[test]
fn inverse_is_machine_exact_where_tsv_would_corrupt() {
    let ds = fixture("score\n0.3333333333333333\n");
    let orig = 0.3333333333333333f64;
    let rendered = numerals(&ds, b"").render(orig.to_bits());
    assert_ne!(
        rendered.parse::<f64>().unwrap().to_bits(),
        orig.to_bits(),
        "the display grammar is lossy here"
    );
    let (out, _) = paste(&ds, 0, 0, "1\n").expect("applies");
    assert_eq!(blob_f64(&blob(&out), 0), bits(&[orig]), "the exact bits");
}

#[test]
fn growth_extends_rows_and_columns() {
    let ds = fixture("score,group\n1.5,A\n2.5,B\n");
    let (out, after) = paste(&ds, 5, 1, "7\tq\n8\tz\n").expect("applies");

    assert_eq!(out.rows, 7, "row growth to anchor and block");
    assert_eq!(
        read_f64(&after, "score"),
        vec![Some(1.5), Some(2.5), None, None, None, None, None]
    );
    assert_eq!(
        read_dict_values(&after, "group"),
        some(&["A", "B", "~", "~", "~", "7", "8"])
    );
    assert_eq!(
        read_dict_values(&after, "V3"),
        some(&["~", "~", "~", "~", "~", "q", "z"])
    );
    let s = schema(&out);
    assert_eq!(s.as_array().unwrap().len(), 3);
    assert_eq!(s[2]["name"], "V3");
    assert_eq!(s[2]["type"], "nominal", "two distinct texts are nominal");
    assert_eq!(out.invalidation, stale(Some(true), None, None));

    let o = ops(&out);
    assert_eq!(o["capture"], "rect");
    assert_eq!(o["capture_rows"], 0);
    assert_eq!(o["trim_rows_from"], 2);
    assert_eq!(o["trim_cols_from"], 2);
}

#[test]
fn row_growth_invalidates_from_the_anchor() {
    let ds = fixture("score,group\n1.5,A\n2.5,B\n");
    let (out, _) = paste(&ds, 2, 0, "9\tB\n").expect("applies");
    assert_eq!(out.rows, 3);
    assert_eq!(out.invalidation, stale(None, Some(2), None));
    assert_eq!(schema(&out).as_array().unwrap().len(), 2, "no column change");
}

#[test]
fn refused_edit_writes_nothing() {
    let ds = fixture("score,group\n1.5,A\n2.5,B\n");
    let before = snapshot(&ds);
    assert!(matches!(paste(&ds, 0, 0, "a\tb\nc\n"), Err(EditFailure::Validation(_))));
    assert_eq!(issues(declared(&ds, 0, 0, "[]", "1\n"))[0].code, "schema_mismatch");
    assert_eq!(snapshot(&ds), before);
}

#[test]
fn invalidation_table() {
    assert_eq!(block_invalidation(2, 2, false, 0, 1, 2), stale(None, Some(0), Some(1)));
    assert_eq!(block_invalidation(2, 2, false, 2, 2, 2), stale(None, Some(2), None));
    assert_eq!(block_invalidation(2, 3, false, 0, 1, 2), stale(Some(true), None, None));
    assert_eq!(block_invalidation(2, 2, true, 0, 1, 2), stale(Some(true), None, None));
}

#[test]
fn insert_block_declared_schema_names_overflow() {
    let ds = fixture("score,group\n1.5,A\n2.5,B\n");
    let (out, after) = declared(
        &ds,
        1,
        1,
        r#"[
            null,
            { "name": "Q1", "type": "scale" },
            { "name": "Q3", "type": "nominal", "levels": ["c", "a", "b"],
              "display_name": "Question 3" }
        ]"#,
        "D\t9\tc\n",
    )
    .expect("the declared paste applies");
    assert_eq!(out.rows, 2);
    assert_eq!(out.invalidation.all, Some(true));
    assert_eq!(out.invalidation.rows_from, None);
    let s = schema(&out);
    let names: Vec<&str> =
        s.as_array().unwrap().iter().map(|c| c["name"].as_str().unwrap()).collect();
    assert_eq!(names, vec!["score", "group", "Q1", "Q3"]);
    assert_eq!(s[2]["type"], "scale");
    assert_eq!(s[3]["type"], "nominal");
    assert_eq!(s[3]["display_name"], "Question 3");
    assert_eq!(s[3]["levels"], val(r#"["c", "a", "b"]"#));
    assert_eq!(read_f64(&after, "Q1"), vec![None, Some(9.0)]);
    assert_eq!(read_dict_values(&after, "Q3"), some(&["~", "c"]));
    assert_eq!(read_dict_values(&after, "group"), some(&["A", "D"]));
}

#[test]
fn insert_block_declared_schema_covered_remap() {
    let ds = fixture("code,label\n1,lo\n2,mid\n1,lo\n2,mid\n");
    let (out, after) = declared(
        &ds,
        1,
        1,
        r#"[{ "name": "label", "levels": ["mid", "hi", "lo"] }]"#,
        "hi\n",
    )
    .expect("the declared remap applies");
    assert_eq!(out.invalidation.all, Some(true));
    let s = schema(&out);
    let label = s.as_array().unwrap().iter().find(|c| c["name"] == "label").unwrap();
    assert_eq!(label["levels"], val(r#"["mid", "hi", "lo"]"#));
    assert_eq!(read_dict_values(&after, "label"), some(&["lo", "hi", "lo", "mid"]));
    let o = ops(&out);
    assert_eq!(o["capture"], "full");
    assert_eq!(o["capture_rows"], 4);
}

#[test]
fn insert_block_declared_schema_covered_adherence() {
    let ds = fixture("score,group\n1.5,A\n2.5,B\n");

    let v = issues(declared(
        &ds,
        1,
        0,
        r#"[{ "name": "score", "type": "scale" }, null]"#,
        "oops\tA\n",
    ));
    assert_eq!(v[0].code, "schema_mismatch");
    assert!(v[0].message.contains("score"));

    let v = issues(declared(&ds, 1, 1, r#"[{ "name": "group", "levels": ["A", "B"] }]"#, "zzz\n"));
    assert_eq!(v[0].code, "schema_mismatch");
    assert!(v[0].message.contains("zzz"));

    let v =
        issues(declared(&ds, 1, 1, r#"[{ "name": "group", "levels": ["B", "zzz"] }]"#, "zzz\n"));
    assert_eq!(v[0].code, "level_in_use");
    assert!(v[0].message.contains('A'));

    let (out, after) =
        declared(&ds, 1, 1, r#"[{ "name": "group", "levels": ["A", "zzz"] }]"#, "zzz\n")
            .expect("a level used in the window alone may drop");
    assert_eq!(out.invalidation.all, Some(true));
    assert_eq!(read_dict_values(&after, "group"), some(&["A", "zzz"]));
}

#[test]
fn insert_block_declared_schema_refusals() {
    let ds = fixture("score,group\n1.5,A\n2.5,B\n");
    for (schema, tail, col) in [
        ("[null]", "1\tA\n", 0),
        (r#"[{ "name": "group" }, null]"#, "1\tA\n", 0),
        (r#"[{ "name": "score", "type": "nominal" }, null]"#, "1\tA\n", 0),
        (r#"[{ "name": "score", "display_name": "s" }, null]"#, "1\tA\n", 0),
        (r#"[null, null, { "name": "group" }]"#, "1\tA\tX\n", 0),
        (r#"[null, { "name": "Q1" }, { "name": "Q1" }]"#, "1\tA\tX\n", 0),
        (r#"[{ "name": "score", "labels": { "1.5": "one" } }, null]"#, "1\tA\n", 0),
        (r#"[null, { "name": "Q1", "type": "scale", "levels": ["1"] }]"#, "1\tA\n", 1),
        (r#"[null, { "name": "Q1", "type": "ratio" }]"#, "1\tA\n", 1),
        (
            r#"[null, { "name": "Q1", "type": "nominal", "levels": ["x", "x"] }]"#,
            "1\tA\n",
            1,
        ),
    ] {
        let v = issues(declared(&ds, 0, col, schema, tail));
        assert_eq!(v[0].code, "schema_mismatch", "{schema}");
    }
}

#[test]
fn rt_insert_block_declared_overflow() {
    round_trip_csv(
        "score,group\n1.5,A\n2.5,B\n",
        EditOp::InsertBlock {
            row: 1,
            col: 1,
            target_schema: Some(js(
                r#"[
                    null,
                    { "name": "Q1", "type": "scale" },
                    { "name": "Q3", "type": "nominal", "levels": ["c", "a", "b"] }
                ]"#,
            )),
        },
        "D\t9\tc\n",
    );
}

#[test]
fn rt_insert_block_declared_remap() {
    round_trip_csv(
        "code,label\n1,lo\n2,mid\n1,lo\n2,mid\n",
        EditOp::InsertBlock {
            row: 1,
            col: 1,
            target_schema: Some(js(r#"[{ "name": "label", "levels": ["mid", "hi", "lo"] }]"#)),
        },
        "hi\n",
    );
}

#[test]
fn rt_insert_block_declared_scale_growth() {
    round_trip_csv(
        "score,group\n1.5,A\n2.5,B\n",
        EditOp::InsertBlock {
            row: 2,
            col: 1,
            target_schema: Some(js(r#"[null, { "name": "ratio", "type": "scale" }]"#)),
        },
        "A\t0.25\nB\t0.75\n",
    );
}

#[test]
fn insert_rows_shifts_and_null_fills() {
    let ds = fixture("score,group\n1.5,A\n2.5,B\n3.5,A\n");
    let (out, after) = run(&ds, EditOp::InsertRows { at: 1, count: 2 }, b"").expect("applies");
    assert_eq!(out.rows, 5);
    assert_eq!(
        read_f64(&after, "score"),
        vec![Some(1.5), None, None, Some(2.5), Some(3.5)]
    );
    assert_eq!(read_dict_values(&after, "group"), some(&["A", "~", "~", "B", "A"]));
    assert_eq!(out.invalidation, stale(None, Some(1), None));
    assert!(out.schema.is_none(), "nulls move nothing in the schema");

    let meta = out.inverse_meta.as_ref().expect("inverse present");
    assert_eq!(meta.base_revision, 3);
    assert_eq!(meta.format, "arrow_ipc_v1");
    let o = ops(&out);
    assert_eq!(o["op"], "delete_rows");
    assert_eq!(o["at"], 1);
    assert_eq!(o["count"], 2);
    assert_eq!(o["old_rows"], 3);
    assert!(out.inverse_bytes.is_empty());
}

#[test]
fn insert_rows_at_the_top_and_end() {
    let ds = fixture("score,group\n1.5,A\n2.5,B\n");
    let (_, top) = run(&ds, EditOp::InsertRows { at: 0, count: 1 }, b"").expect("applies");
    assert_eq!(read_dict_values(&top, "group"), some(&["~", "A", "B"]));
    assert_eq!(read_dict_dictionary(&top, "group"), list(&["A", "B"]));

    let (out, end) = run(&ds, EditOp::InsertRows { at: 2, count: 3 }, b"").expect("applies");
    assert_eq!(out.rows, 5);
    assert_eq!(read_f64(&end, "score"), vec![Some(1.5), Some(2.5), None, None, None]);
}

#[test]
fn insert_rows_on_an_empty_dataset() {
    let ds = fixture("score,group\n");
    assert_eq!(ds.rows(), 0);
    let (out, after) = run(&ds, EditOp::InsertRows { at: 0, count: 2 }, b"").expect("applies");
    assert_eq!(out.rows, 2);
    assert_eq!(read_dict_values(&after, "score"), vec![None, None]);
    assert_eq!(read_dict_values(&after, "group"), vec![None, None]);
}

#[test]
fn insert_rows_refusals_are_range() {
    let ds = fixture("score,group\n1.5,A\n2.5,B\n");
    for (at, count) in [(3u64, 1u64), (0, 0)] {
        let v = issues(run(&ds, EditOp::InsertRows { at, count }, b""));
        assert_eq!(v.len(), 1);
        assert_eq!(v[0].code, "range");
    }
}

#[test]
fn delete_rows_removes_and_captures() {
    let ds = fixture("score,group\n1.5,A\n2.5,B\n3.5,C\n9.5,A\n");
    let (out, after) = run(&ds, EditOp::DeleteRows { at: 1, count: 2 }, b"").expect("applies");
    assert_eq!(out.rows, 2);
    assert_eq!(read_f64(&after, "score"), vec![Some(1.5), Some(9.5)]);
    assert_eq!(read_dict_values(&after, "group"), some(&["A", "A"]));
    assert_eq!(out.invalidation, stale(None, Some(1), None));

    let s = schema(&out);
    assert_eq!(s[0]["value_count"], 2);
    assert_eq!(s[1]["levels"], val(r#"["A", "B", "C"]"#), "no pruning");
    assert_eq!(s[1]["value_count"], 2);
    assert_eq!(s[1]["distinct_count"], 3);

    assert_eq!(out.inverse_meta.as_ref().unwrap().base_revision, 3);
    let o = ops(&out);
    assert_eq!(o["op"], "restore_rows");
    assert_eq!(o["at"], 1);
    assert_eq!(o["count"], 2);
    assert_eq!(o["old_rows"], 4);
    assert_eq!(o["columns"].as_array().unwrap().len(), 2);

    let b = blob(&out);
    assert_eq!(blob_f64(&b, 0), bits(&[2.5, 3.5]));
    assert_eq!(blob_texts(&b, 1), list(&["B", "C"]));
}

#[test]
fn delete_rows_refusals_are_range() {
    let ds = fixture("score,group\n1.5,A\n2.5,B\n");
    for (at, count) in [(1u64, 2u64), (0, 0)] {
        let v = issues(run(&ds, EditOp::DeleteRows { at, count }, b""));
        assert_eq!(v.len(), 1);
        assert_eq!(v[0].code, "range");
    }
}

#[test]
fn row_ops_across_batch_boundaries() {
    let row = |f: f64, s: &'static str| vec![Cell::F(f), Cell::S(s)];
    let b1: Vec<Vec<Cell>> =
        (0..3).map(|i| row(i as f64, if i == 1 { "b" } else { "a" })).collect();
    let b2: Vec<Vec<Cell>> =
        (3..6).map(|i| row(i as f64, if i == 4 { "c" } else { "a" })).collect();
    let ds = direct_cache(&[("score", Level::Scale), ("tag", Level::Nominal)], &[b1, b2]);

    let (o, ins) = run(&ds, EditOp::InsertRows { at: 3, count: 2 }, b"").expect("applies");
    assert_eq!(o.rows, 8);
    assert_eq!(
        read_f64(&ins, "score"),
        vec![Some(0.), Some(1.), Some(2.), None, None, Some(3.), Some(4.), Some(5.)]
    );
    assert_eq!(
        read_dict_values(&ins, "tag"),
        some(&["a", "b", "a", "~", "~", "a", "c", "a"])
    );

    let (o2, del) = run(&ds, EditOp::DeleteRows { at: 2, count: 2 }, b"").expect("applies");
    assert_eq!(o2.rows, 4);
    assert_eq!(read_f64(&del, "score"), vec![Some(0.), Some(1.), Some(4.), Some(5.)]);
    let b = blob(&o2);
    assert_eq!(b.num_rows(), 2);
    assert_eq!(blob_f64(&b, 0), bits(&[2.0, 3.0]));
    assert_eq!(blob_texts(&b, 1), list(&["a", "a"]));

    let (o3, tail) = run(&ds, EditOp::DeleteRows { at: 3, count: 3 }, b"").expect("applies");
    assert_eq!(o3.rows, 3);
    assert_eq!(read_f64(&tail, "score"), vec![Some(0.), Some(1.), Some(2.)]);
    assert_eq!(read_dict_dictionary(&tail, "tag"), list(&["a", "b", "c"]), "no pruning");
}

#[test]
fn chained_edits_keep_the_cache_contract() {
    let ds = fixture("score,group\n1.5,A\n2.5,B\n");
    let (o1, rev1) = paste(&ds, 2, 0, "9.5\tC\n").expect("applies");
    assert_eq!(o1.rows, 3);
    assert_eq!(read_f64(&rev1, "score"), vec![Some(1.5), Some(2.5), Some(9.5)]);
    assert_eq!(read_dict_values(&rev1, "group"), some(&["A", "B", "C"]));

    let (o2, rev2) = run(&rev1, EditOp::InsertRows { at: 1, count: 1 }, b"").expect("applies");
    assert_eq!(o2.rows, 4);
    assert_eq!(read_f64(&rev2, "score"), vec![Some(1.5), None, Some(2.5), Some(9.5)]);
    assert_eq!(read_dict_dictionary(&rev2, "group"), list(&["A", "B", "C"]));

    let (o3, rev3) = run(&rev2, EditOp::DeleteRows { at: 1, count: 2 }, b"").expect("applies");
    assert_eq!(o3.rows, 2);
    assert_eq!(read_f64(&rev3, "score"), vec![Some(1.5), Some(9.5)]);
    assert_eq!(read_dict_values(&rev3, "group"), some(&["A", "C"]));
    assert_eq!(read_dict_dictionary(&rev3, "group"), list(&["A", "B", "C"]));
}

#[test]
fn insert_cols_shifts_and_fills() {
    let ds = fixture("score,group\n1.5,A\n2.5,B\n");
    let (out, after) = run(
        &ds,
        EditOp::InsertCols {
            at: 1,
            columns: vec![
                spec("age", Some("scale"), None),
                spec("rank", Some("ordinal"), Some(vec!["3", "1", "2"])),
            ],
        },
        b"",
    )
    .expect("applies");
    assert_eq!(out.rows, 2, "rows never move");
    assert_eq!(read_field_names(&after), vec!["score", "age", "rank", "group"]);
    assert_eq!(read_f64(&after, "age"), vec![None, None]);
    assert_eq!(read_dict_values(&after, "rank"), vec![None, None]);
    assert_eq!(read_dict_dictionary(&after, "rank"), list(&["3", "1", "2"]));
    assert!(read_field_ordered(&after, "rank"));

    let s = schema(&out);
    assert_eq!(
        s.as_array().unwrap().iter().map(|c| c["name"].as_str().unwrap()).collect::<Vec<_>>(),
        vec!["score", "age", "rank", "group"]
    );
    assert_eq!(s[1]["type"], "scale");
    assert_eq!(s[1]["value_count"], 0);
    assert_eq!(s[2]["type"], "ordinal");
    assert_eq!(s[2]["levels"], val(r#"["3", "1", "2"]"#));
    assert_eq!(s[2]["distinct_count"], 3);
    assert_eq!(s[2]["value_count"], 0);
    assert_eq!(out.invalidation, stale(Some(true), None, None));

    assert_eq!(out.inverse_meta.as_ref().unwrap().base_revision, 3);
    let o = ops(&out);
    assert_eq!(o["op"], "delete_cols");
    assert_eq!(o["at"], 1);
    assert_eq!(o["count"], 2);
    assert_eq!(o["old_cols"], 2);
    assert!(out.inverse_bytes.is_empty());
}

#[test]
fn insert_cols_names_uniquefy() {
    let ds = fixture("score,score_2,score_3\n1,2,3\n");
    let (_, after) = run(
        &ds,
        EditOp::InsertCols {
            at: 1,
            columns: vec![spec("score", None, None), spec("", None, None), spec("5", None, None)],
        },
        b"",
    )
    .expect("applies");
    assert_eq!(
        read_field_names(&after),
        vec!["score", "score_4", "V3", "V5", "score_2", "score_3"]
    );
}

#[test]
fn insert_cols_refusals() {
    let ds = fixture("score,group\n1.5,A\n");
    let cases = vec![
        (0, vec![], "range", "empty spec list"),
        (3, vec![spec("x", None, None)], "range", "anchor beyond extent"),
        (0, vec![spec("x", Some("interval"), None)], "schema_mismatch", "unknown type"),
        (
            0,
            vec![spec("x", Some("scale"), Some(vec!["a"]))],
            "schema_mismatch",
            "scale with levels",
        ),
        (
            0,
            vec![spec("x", Some("nominal"), Some(vec!["a", "a"]))],
            "schema_mismatch",
            "duplicate levels",
        ),
    ];
    for (at, columns, code, why) in cases {
        let v = issues(run(&ds, EditOp::InsertCols { at, columns }, b""));
        assert_eq!(v.len(), 1, "{why}: one issue");
        assert_eq!(v[0].code, code, "{why}");
    }
}

#[test]
fn delete_cols_removes_and_captures() {
    let ds = fixture("score,group,extra\n1.5,A,x\n2.5,B,y\n3.5,C,x\n");
    let (out, after) = run(&ds, EditOp::DeleteCols { at: 1, count: 1 }, b"").expect("applies");
    assert_eq!(out.rows, 3);
    assert_eq!(read_field_names(&after), vec!["score", "extra"]);
    assert_eq!(read_dict_values(&after, "extra"), some(&["x", "y", "x"]));
    assert_eq!(out.invalidation, stale(Some(true), None, None));
    assert_eq!(schema(&out).as_array().unwrap().len(), 2);

    let o = ops(&out);
    assert_eq!(o["op"], "restore_cols");
    assert_eq!(o["at"], 1);
    assert_eq!(o["count"], 1);
    assert_eq!(o["old_cols"], 3);
    assert_eq!(o["columns"][0]["name"], "group");

    let b = blob(&out);
    assert_eq!(b.num_rows(), 3, "the whole column");
    assert_eq!(blob_texts(&b, 0), list(&["A", "B", "C"]));
}

#[test]
fn delete_cols_refusals() {
    let ds = fixture("score,group\n1.5,A\n");
    for (at, count, why) in [
        (1u64, 2u64, "window beyond extent"),
        (0, 0, "count 0"),
        (1, 0, "count 0 mid-extent"),
        (0, 2, "the last column"),
        (2, 1, "anchor at extent end"),
        (3, 1, "anchor beyond extent"),
    ] {
        let v = issues(run(&ds, EditOp::DeleteCols { at, count }, b""));
        assert_eq!(v[0].code, "range", "{why}");
    }
}

#[test]
fn schema_change_renames_and_reorders() {
    let ds = fixture("score,group\n1.5,A\n2.5,B\n");
    let (out, after) =
        change(&ds, r#"[{ "name": "group" }, { "name": "score", "display_name": "Score v2" }]"#)
            .expect("applies");
    assert_eq!(read_field_names(&after), vec!["group", "Score v2"]);
    assert_eq!(read_f64(&after, "Score v2"), vec![Some(1.5), Some(2.5)]);
    assert_eq!(out.invalidation, stale(Some(true), None, None));
    assert_eq!(schema(&out)[1]["display_name"], "Score v2");

    let o = ops(&out);
    assert_eq!(o["op"], "restore_schema");
    assert_eq!(o["old_order"], val(r#"["score", "group"]"#));
    let col = &o["columns"][0];
    assert_eq!(col["current"], "Score v2");
    assert_eq!(col["old_name"], "score");
    assert_eq!(col["old_display"], "score");
    assert_eq!(col["capture"], Value::Null);
    assert!(out.inverse_bytes.is_empty());

    let (o2, _) =
        change(&ds, r#"[{ "name": "score", "display_name": "New Score" }, { "name": "group" }]"#)
            .expect("applies");
    assert_eq!(o2.invalidation, stale(None, None, None), "no row is stale");
}

#[test]
fn schema_change_retype_scale_to_nominal() {
    let ds = fixture("score,group\n1.5,A\n2.5,B\n3.5,A\n");
    let (out, after) =
        change(&ds, r#"[{ "name": "score", "type": "nominal" }, { "name": "group" }]"#)
            .expect("applies");
    assert_eq!(read_dict_values(&after, "score"), some(&["1.5", "2.5", "3.5"]));
    assert_eq!(out.invalidation, stale(Some(true), None, None));
    let s = schema(&out);
    assert_eq!(s[0]["type"], "nominal");
    assert_eq!(s[0]["levels"], val(r#"["1.5", "2.5", "3.5"]"#));

    let o = ops(&out);
    assert_eq!(o["columns"][0]["old_type"], "scale");
    assert_eq!(o["columns"][0]["capture"], "full");
    assert_eq!(blob_f64(&blob(&out), 0), bits(&[1.5, 2.5, 3.5]));
}

#[test]
fn schema_change_retype_categorical_to_scale() {
    let ds = fixture("code\n1\n2\n1\n3\n");
    let (_, rev1) = paste(&ds, 0, 0, "x\n").expect("applies");
    let (_, rev2) = paste(&rev1, 0, 0, "1\n").expect("applies");
    assert_eq!(read_dict_dictionary(&rev2, "code"), list(&["1", "2", "3", "x"]));

    let (out, after) = change(&rev2, r#"[{ "name": "code", "type": "scale" }]"#).expect("applies");
    assert_eq!(
        read_f64(&after, "code"),
        vec![Some(1.0), Some(2.0), Some(1.0), Some(3.0)]
    );
    let s = schema(&out);
    assert_eq!(s[0]["type"], "scale");
    assert_eq!(s[0]["all_integer"], true);

    let b = blob(&out);
    let d = b.column(0).as_dictionary::<arrow::datatypes::Int32Type>();
    let vals = d.values().as_string::<i32>();
    assert_eq!(vals.len(), 4, "the unused level is in the capture");
    assert_eq!(vals.value(3), "x");
    assert_eq!(d.keys().value(0), 0);
}

#[test]
fn schema_change_coercion_refusal() {
    let ds = fixture("group\nA\nB\n");
    let v = issues(change(&ds, r#"[{ "name": "group", "type": "scale" }]"#));
    assert_eq!(v[0].code, "coercion");
    assert_eq!(v[0].column.as_deref(), Some("group"));
    assert!(v[0].message.contains('A'), "names an offending level");
}

#[test]
fn schema_change_flag_flip() {
    let ds = fixture("rank\n1\n2\n3\n");
    assert!(read_field_ordered(&ds, "rank"));
    let (out, after) = change(&ds, r#"[{ "name": "rank", "type": "nominal" }]"#).expect("applies");
    assert!(!read_field_ordered(&after, "rank"));
    assert_eq!(read_dict_values(&after, "rank"), some(&["1", "2", "3"]));
    assert_eq!(out.invalidation.all, Some(true));
    let o = ops(&out);
    assert_eq!(o["columns"][0]["old_type"], "ordinal");
    assert_eq!(o["columns"][0]["capture"], Value::Null);
    assert!(out.inverse_bytes.is_empty());
}

#[test]
fn schema_change_remaps_levels() {
    let ds = fixture("group\nA\nB\nA\n");
    let (out, after) =
        change(&ds, r#"[{ "name": "group", "levels": ["B", "A", "C"] }]"#).expect("applies");
    assert_eq!(read_dict_dictionary(&after, "group"), list(&["B", "A", "C"]));
    assert_eq!(read_dict_values(&after, "group"), some(&["A", "B", "A"]));
    let s = schema(&out);
    assert_eq!(s[0]["levels"], val(r#"["B", "A", "C"]"#));
    assert_eq!(s[0]["distinct_count"], 3);
    assert_eq!(out.invalidation.all, Some(true));
    let o = ops(&out);
    assert_eq!(o["columns"][0]["old_levels"], val(r#"["A", "B"]"#));
    assert_eq!(o["columns"][0]["capture"], Value::Null);
    assert!(out.inverse_bytes.is_empty());
}

#[test]
fn schema_change_level_in_use_refusal() {
    let ds = fixture("group\nA\nB\nA\n");
    let v = issues(change(&ds, r#"[{ "name": "group", "levels": ["B", "C"] }]"#));
    assert_eq!(v[0].code, "level_in_use");
    assert!(v[0].message.contains('A'));
}

#[test]
fn schema_change_labels() {
    let ds = fixture("group\nA\nB\n");
    let (out, after) =
        change(&ds, r#"[{ "name": "group", "labels": { "A": "Alpha" } }]"#).expect("applies");
    assert_eq!(
        read_field_labels(&after, "group"),
        BTreeMap::from([("A".to_string(), "Alpha".to_string())])
    );
    assert_eq!(read_dict_dictionary(&after, "group"), list(&["A", "B"]));
    assert_eq!(schema(&out)[0]["labels"], val(r#"{ "A": "Alpha" }"#));
    assert_eq!(out.invalidation, stale(None, None, None));
    assert_eq!(ops(&out)["columns"][0]["old_labels"], Value::Null);

    let (_, detached) = change(&after, r#"[{ "name": "group", "labels": {} }]"#).expect("applies");
    assert!(read_field_labels(&detached, "group").is_empty());

    let v = issues(change(&ds, r#"[{ "name": "group", "labels": { "Z": "zed" } }]"#));
    assert_eq!(v[0].code, "level_unknown");
}

#[test]
fn schema_change_refusals() {
    let ds = fixture("score,group\n1.5,A\n");
    for (target, why) in [
        ("null", "not an array"),
        ("[]", "empty list"),
        (r#"[{ "name": "score" }]"#, "count mismatch"),
        (r#"[{ "name": "nope" }, { "name": "group" }]"#, "unknown column"),
        (r#"[{ "name": "score" }, { "name": "score" }]"#, "duplicate entries"),
        (r#"[{ "name": "score", "type": "interval" }, { "name": "group" }]"#, "unknown type"),
        (r#"[{ "name": "score", "levels": ["a"] }, { "name": "group" }]"#, "scale with levels"),
        (r#"[{ "name": "group", "levels": "not-a-list" }]"#, "levels not an array"),
        (r#"[{ "name": "group", "labels": ["not", "a", "map"] }]"#, "labels not an object"),
        (r#"[{ "name": "group", "levels": ["A", "A"] }]"#, "duplicate levels"),
    ] {
        let v = issues(change(&ds, target));
        assert_eq!(v[0].code, "schema_mismatch", "{why}");
    }
}

#[test]
fn schema_change_cap_rule() {
    let mut csv = String::from("v\n");
    for i in 0..=10_000u32 {
        csv.push_str(&format!("v{i}\n"));
    }
    let ds = fixture(&csv);
    assert_eq!(ds.rows(), 10_001);
    assert_eq!(ds.fields[0].level(), Some(Level::Nominal));
    assert_eq!(ds.dicts[0].len(), 10_001);
    let v = issues(change(&ds, r#"[{ "name": "v", "levels": ["0", "1"] }]"#));
    assert_eq!(v[0].code, "schema_mismatch");
    assert!(v[0].message.contains("cap"));
}

#[test]
fn schema_change_noop() {
    let ds = fixture("score,group\n1.5,A\n");
    let (out, after) = change(&ds, r#"[{ "name": "score" }, { "name": "group" }]"#).expect("applies");
    assert_eq!(out.rows, 1);
    assert_eq!(read_field_names(&after), vec!["score", "group"]);
    assert_eq!(out.invalidation, stale(None, None, None));
    assert_eq!(ops(&out)["columns"].as_array().unwrap().len(), 0);
    assert!(out.inverse_bytes.is_empty());
}

#[test]
fn col_ops_across_batch_boundaries() {
    let mk = |i: u64| {
        vec![
            Cell::F(i as f64),
            Cell::S(if i % 2 == 0 { "even" } else { "odd" }),
            Cell::S(if i % 3 == 0 { "lo" } else { "hi" }),
        ]
    };
    let b1: Vec<Vec<Cell>> = (0..3).map(mk).collect();
    let b2: Vec<Vec<Cell>> = (3..6).map(mk).collect();
    let ds = direct_cache(
        &[("score", Level::Scale), ("tag", Level::Nominal), ("band", Level::Ordinal)],
        &[b1, b2],
    );

    let (o, del) = run(&ds, EditOp::DeleteCols { at: 1, count: 1 }, b"").expect("applies");
    let b = blob(&o);
    assert_eq!(b.num_rows(), 6);
    assert_eq!(blob_texts(&b, 0), list(&["even", "odd", "even", "odd", "even", "odd"]));
    assert_eq!(read_field_names(&del), vec!["score", "band"]);

    let (_, ins) = run(
        &ds,
        EditOp::InsertCols {
            at: 0,
            columns: vec![spec("new", Some("nominal"), Some(vec!["p", "q"]))],
        },
        b"",
    )
    .expect("applies");
    assert_eq!(read_field_names(&ins), vec!["new", "score", "tag", "band"]);
    assert_eq!(read_dict_dictionary(&ins, "band"), list(&["hi", "lo"]));
    assert_eq!(
        read_dict_values(&ins, "tag"),
        some(&["even", "odd", "even", "odd", "even", "odd"])
    );
}

#[test]
fn rt_insert_block_in_range() {
    round_trip_csv(
        "score,group\n1.5,A\n2.5,B\n3.5,A\n",
        EditOp::InsertBlock { row: 1, col: 0, target_schema: None },
        "9.75\tC\n",
    );
}

#[test]
fn rt_insert_block_growth() {
    round_trip_csv(
        "score,group\n1.5,A\n2.5,B\n",
        EditOp::InsertBlock { row: 4, col: 1, target_schema: None },
        "7\tq\n8\tz\n",
    );
}

#[test]
fn rt_insert_block_promotion() {
    round_trip_csv(
        "score,group\n1.5,A\n2.5,B\n3.5,A\n",
        EditOp::InsertBlock { row: 1, col: 0, target_schema: None },
        "oops\tB\n",
    );
}

#[test]
fn rt_insert_rows_variants() {
    for at in [1u64, 0, 3] {
        round_trip_csv(
            "score,group\n1.5,A\n2.5,B\n3.5,A\n",
            EditOp::InsertRows { at, count: 2 },
            "",
        );
    }
}

#[test]
fn rt_delete_rows_variants() {
    for (at, count) in [(1u64, 1u64), (2, 1), (0, 2)] {
        round_trip_csv(
            "score,group\n1.5,A\n2.5,B\n3.5,C\n",
            EditOp::DeleteRows { at, count },
            "",
        );
    }
}

#[test]
fn rt_delete_rows_across_batches() {
    let mk =
        |i: u64| vec![Cell::F(i as f64), Cell::S(if i % 2 == 0 { "even" } else { "odd" })];
    let b1: Vec<Vec<Cell>> = (0..3).map(mk).collect();
    let b2: Vec<Vec<Cell>> = (3..6).map(mk).collect();
    let ds = direct_cache(&[("score", Level::Scale), ("tag", Level::Nominal)], &[b1, b2]);
    round_trip(&ds, EditOp::DeleteRows { at: 2, count: 2 }, b"");
}

#[test]
fn rt_insert_cols_and_delete_cols() {
    let ds = fixture("score,group\n1.5,A\n2.5,B\n");
    round_trip(
        &ds,
        EditOp::InsertCols {
            at: 1,
            columns: vec![
                spec("age", Some("scale"), None),
                spec("rank", Some("ordinal"), Some(vec!["3", "1", "2"])),
            ],
        },
        b"",
    );
    round_trip(&ds, EditOp::DeleteCols { at: 0, count: 1 }, b"");
}

#[test]
fn rt_insert_cols_name_collision() {
    let ds = fixture("score,score_2\n1,2\n3,4\n");
    round_trip(
        &ds,
        EditOp::InsertCols { at: 0, columns: vec![spec("score", None, None)] },
        b"",
    );
}

#[test]
fn rt_chained_edits_lifo() {
    let ds = fixture("score,group\n1.5,A\n2.5,B\n");
    let before = snapshot(&ds);
    let (out1, rev1) = paste(&ds, 1, 0, "9.9\tB\n").expect("the first edit");
    let (out2, rev2) =
        run(&rev1, EditOp::InsertRows { at: 0, count: 1 }, b"").expect("the second edit");
    let (_, rev3) = undo(&rev2, &out2).expect("undo of the second");
    assert_eq!(snapshot(&rev3), snapshot(&rev1));
    let (_, rev4) = undo(&rev3, &out1).expect("undo of the first");
    assert_eq!(snapshot(&rev4), before);
}

#[test]
fn rt_schema_change_rename_reorder() {
    round_trip_csv(
        "score,group\n1.5,A\n2.5,B\n",
        EditOp::SchemaChange {
            target_schema: js(
                r#"[{ "name": "group", "display_name": "The Group" }, { "name": "score" }]"#,
            ),
        },
        "",
    );
}

#[test]
fn rt_schema_change_flag_flip_and_labels() {
    round_trip_csv(
        "score,group\n1.5,A\n2.5,B\n",
        EditOp::SchemaChange {
            target_schema: js(
                r#"[
                    { "name": "score" },
                    { "name": "group", "type": "ordinal", "labels": { "A": "Alpha" } }
                ]"#,
            ),
        },
        "",
    );
}

#[test]
fn rt_schema_change_remaps_levels() {
    round_trip_csv(
        "score,group\n1.5,A\n2.5,B\n3.5,A\n",
        EditOp::SchemaChange {
            target_schema: js(
                r#"[{ "name": "score" }, { "name": "group", "levels": ["B", "A"] }]"#,
            ),
        },
        "",
    );
}

#[test]
fn rt_schema_change_scale_to_nominal() {
    round_trip_csv(
        "score,group\n1.5,A\n2.5,B\n3.5,A\n",
        EditOp::SchemaChange {
            target_schema: js(r#"[{ "name": "score", "type": "nominal" }, { "name": "group" }]"#),
        },
        "",
    );
}

#[test]
fn rt_schema_change_categorical_to_scale() {
    let ds = fixture("code\n1\n2\n1\n3\n");
    let (_, rev1) = paste(&ds, 0, 0, "x\n").expect("applies");
    let (_, rev2) = paste(&rev1, 0, 0, "1\n").expect("applies");
    round_trip(
        &rev2,
        EditOp::SchemaChange { target_schema: js(r#"[{ "name": "code", "type": "scale" }]"#) },
        b"",
    );
}

#[test]
fn rt_schema_change_mixed() {
    round_trip_csv(
        "score,group\n1.5,A\n2.5,B\n",
        EditOp::SchemaChange {
            target_schema: js(
                r#"[
                    { "name": "group", "display_name": "Grp" },
                    { "name": "score", "type": "nominal", "labels": { "1.5": "one point five" } }
                ]"#,
            ),
        },
        "",
    );
}

#[test]
fn rt_schema_change_labels_detach() {
    let ds = fixture("score,group\n1.5,A\n2.5,B\n");
    let (_, attached) = change(
        &ds,
        r#"[{ "name": "score" }, { "name": "group", "labels": { "A": "Alpha" } }]"#,
    )
    .expect("attaches");
    round_trip(
        &attached,
        EditOp::SchemaChange {
            target_schema: js(r#"[{ "name": "score" }, { "name": "group", "labels": {} }]"#),
        },
        b"",
    );
}

#[test]
fn restore_schema_undo_output_shape() {
    let ds = fixture("score,group\n1.5,A\n2.5,B\n");
    let (out, rev1) = change(
        &ds,
        r#"[
            { "name": "group", "display_name": "Grp" },
            { "name": "score", "type": "nominal" }
        ]"#,
    )
    .expect("applies");
    assert_eq!(read_field_names(&rev1), list(&["Grp", "score"]));

    let (back, rev2) = undo(&rev1, &out).expect("undo applies");
    assert_eq!(back.invalidation, stale(Some(true), None, None));
    assert!(back.schema.is_some(), "undo always ships the schema");
    assert_eq!(read_field_names(&rev2), list(&["score", "group"]));

    let o = ops(&back);
    assert_eq!(o["op"], "restore_schema");
    assert_eq!(o["old_order"], val(r#"["Grp", "score"]"#));
    let cols = o["columns"].as_array().unwrap();
    let grp = cols.iter().find(|c| c["current"] == "group").unwrap();
    assert_eq!(grp["old_name"], "Grp");
    assert_eq!(grp["old_type"], "nominal");
    assert_eq!(grp["old_levels"], val(r#"["A", "B"]"#));
    let score = cols.iter().find(|c| c["current"] == "score").unwrap();
    assert_eq!(score["old_type"], "nominal");
    assert_eq!(score["capture"], "full");
    assert!(!back.inverse_bytes.is_empty());
}

fn inverse(ds: &Dataset, program: &str) -> Edited {
    run(
        ds,
        EditOp::ApplyInverse {
            inverse: InverseMeta {
                format: "arrow_ipc_v1".to_string(),
                base_revision: 3,
                ops: js(program),
            },
        },
        b"",
    )
}

#[test]
fn restore_schema_refusals() {
    let ds = fixture("score,group\n1.5,A\n");
    let e = inverse(
        &ds,
        r#"{ "v": 1, "op": "restore_schema",
             "old_order": ["score", "group"], "old_cols": 2, "old_rows": 1,
             "columns": [{ "current": "ghost", "old_name": "score", "old_display": "score",
                           "old_type": "scale" }] }"#,
    );
    assert!(is_fatal(&e), "ghost current");
    let e = inverse(
        &ds,
        r#"{ "v": 1, "op": "restore_schema",
             "old_order": ["score", "group"], "old_cols": 3, "old_rows": 1, "columns": [] }"#,
    );
    assert!(is_fatal(&e), "extent mismatch");
    let e = inverse(
        &ds,
        r#"{ "v": 1, "op": "restore_schema",
             "old_order": ["score", "group"], "old_cols": 2, "old_rows": 1,
             "columns": [{ "current": "score", "old_name": "score", "old_display": "score",
                           "old_type": "nominal" }] }"#,
    );
    assert!(is_fatal(&e), "family mismatch");
    let e = inverse(
        &ds,
        r#"{ "v": 1, "op": "restore_schema",
             "old_order": ["score", "ghost"], "old_cols": 2, "old_rows": 1, "columns": [] }"#,
    );
    assert!(is_fatal(&e), "unrestorable name");
    let e = inverse(
        &ds,
        r#"{ "v": 1, "op": "restore_schema",
             "old_order": ["score", "group"], "old_cols": 2, "old_rows": 1,
             "columns": [{ "current": "group", "old_name": "group", "old_display": "group",
                           "old_type": "scale", "capture": "full", "capture_rows": 1 }] }"#,
    );
    assert!(is_fatal(&e), "capture without a blob");
}

#[test]
fn apply_inverse_refusals() {
    let ds = fixture("score,group\n1.5,A\n");
    let apply = |format: &str, base_revision: u64, program: &str| {
        run(
            &ds,
            EditOp::ApplyInverse {
                inverse: InverseMeta {
                    format: format.to_string(),
                    base_revision,
                    ops: js(program),
                },
            },
            b"",
        )
    };
    let e = apply(
        "magic_tokens_v9",
        3,
        r#"{ "v": 1, "op": "delete_rows", "at": 0, "count": 1 }"#,
    );
    assert!(is_fatal(&e));
    let v = issues(apply(
        "arrow_ipc_v1",
        99,
        r#"{ "v": 1, "op": "delete_rows", "at": 0, "count": 1, "old_rows": 1 }"#,
    ));
    assert_eq!(v[0].code, "stale_edit");
    let e = apply("arrow_ipc_v1", 3, r#"{ "v": 1, "op": "time_travel" }"#);
    assert!(is_fatal(&e));
}

#[test]
fn an_unchanged_schema_is_not_handed_out() {
    let ds = fixture("score,group\n1.5,A\n");
    let (out, _) = change(&ds, r#"[{ "name": "score" }, { "name": "group" }]"#).expect("applies");
    assert!(out.schema.is_none());
    let (out, _) = change(
        &ds,
        r#"[{ "name": "score" }, { "name": "group", "levels": ["A"] }]"#,
    )
    .expect("applies");
    assert!(out.schema.is_none(), "the same levels");
    let (out, _) = change(&ds, r#"[{ "name": "group" }, { "name": "score" }]"#).expect("applies");
    assert_eq!(schema(&out)[0]["name"], "group");
    let labelled = r#"[{ "name": "score" }, { "name": "group", "labels": { "A": "first" } }]"#;
    let (out, after) = change(&ds, labelled).expect("applies");
    assert!(out.schema.is_some());
    let (out, _) = change(&after, labelled).expect("applies");
    assert!(out.schema.is_none(), "the same labels");
}

#[test]
fn new_columns_are_declared_by_name() {
    let ds = fixture("score,group\n1.5,A\n");
    let v = issues(declared(&ds, 0, 1, r#"[null, { "type": "scale" }]"#, "A\t1\n"));
    assert_eq!(v[0].code, "schema_mismatch");
    assert!(declared(&ds, 0, 1, "[null, null]", "A\t1\n").is_ok());
}

#[test]
fn dictionaries_outlive_their_rows() {
    let ds = fixture("group\nA\nB\n");
    let (out, after) = run(&ds, EditOp::DeleteRows { at: 0, count: 2 }, b"").expect("applies");
    assert_eq!(out.rows, 0);
    assert_eq!(read_dict_dictionary(&after, "group"), list(&["A", "B"]));
    round_trip(&ds, EditOp::DeleteRows { at: 0, count: 2 }, b"");
    let columns = || vec![spec("size", Some("ordinal"), Some(vec!["s", "m"]))];
    let (_, wide) = run(&after, EditOp::InsertCols { at: 1, columns: columns() }, b"").expect("applies");
    assert_eq!(read_dict_dictionary(&wide, "size"), list(&["s", "m"]));
    round_trip(&after, EditOp::InsertCols { at: 1, columns: columns() }, b"");
    round_trip(&wide, EditOp::DeleteCols { at: 1, count: 1 }, b"");
    round_trip(&after, EditOp::InsertRows { at: 0, count: 1 }, b"");
}

#[test]
fn an_undo_makes_everything_stale() {
    let ds = fixture("score,group\n1.5,A\n2.5,B\n3.5,A\n");
    let (out, after) = run(&ds, EditOp::InsertRows { at: 1, count: 2 }, b"").expect("applies");
    assert_eq!(out.invalidation, stale(None, Some(1), None));
    let (back, _) = undo(&after, &out).expect("applies");
    assert_eq!(back.rows, 3);
    assert!(back.schema.is_some());
    assert!(back.inverse_meta.is_some());
    assert_eq!(back.invalidation, stale(Some(true), None, None));
}

#[test]
fn empty_dictionaries_come_back() {
    let mut ds = fixture("score,group\n1.5,A\n2.5,A\n");
    ds.dicts[1].clear();
    ds.batches[0].cols[1] = vec![None, None];
    let target = r#"[{ "name": "score" }, { "name": "group", "levels": ["x", "y"] }]"#;
    let (out, after) = change(&ds, target).expect("applies");
    assert_eq!(read_dict_dictionary(&after, "group"), list(&["x", "y"]));
    assert_eq!(ops(&out)["columns"][0]["old_levels"], val("[]"));
    round_trip(&ds, EditOp::SchemaChange { target_schema: js(target) }, b"");
    let emptied = r#"[{ "name": "score" }, { "name": "group", "levels": [] }]"#;
    round_trip(&after, EditOp::SchemaChange { target_schema: js(emptied) }, b"");
}

#[test]
fn damaged_inverses_are_refused() {
    let ds = fixture("score,group\n1.5,A\n2.5,B\n3.5,A\n");
    let (out, after) = run(&ds, EditOp::DeleteRows { at: 1, count: 2 }, b"").expect("applies");
    let good = snapshot(&undo(&after, &out).expect("applies").1);
    let meta = || out.inverse_meta.clone().expect("an inverse");
    let apply = |bytes: &[u8]| run(&after, EditOp::ApplyInverse { inverse: meta() }, bytes);
    for n in 0..out.inverse_bytes.len() {
        assert!(is_fatal(&apply(&out.inverse_bytes[..n])), "cut at {n}");
    }
    for i in 0..out.inverse_bytes.len() {
        for flip in [0x01u8, 0x80, 0xff] {
            let mut bytes = out.inverse_bytes.clone();
            bytes[i] ^= flip;
            if let Ok((_, back)) = apply(&bytes) {
                assert_eq!(back.fields.len(), good.len(), "byte {i}");
            }
        }
    }
}

#[test]
fn edits_tell_which_texts_they_read() {
    let ds = fixture("score,group\n1.5,A\n2.5,B\n");
    let list_for = |edit: EditOp, tail: &[u8]| list_consulted(&ds, &job(edit, tail));
    assert_eq!(list_for(EditOp::DeleteRows { at: 0, count: 1 }, b""), list(&["A", "B"]));
    let paste = EditOp::InsertBlock {
        row: 0,
        col: 1,
        target_schema: Some(js(r#"[{ "levels": ["7"] }]"#)),
    };
    assert_eq!(list_for(paste, b"8\n\\N\n"), list(&["A", "B", "7", "8", ""]));
    let columns = vec![spec("n", None, Some(vec!["3"])), spec("m", None, None)];
    assert_eq!(list_for(EditOp::InsertCols { at: 0, columns }, b""), list(&["A", "B", "3"]));
    let target_schema = js(r#"[{ "name": "score" }, { "name": "group", "levels": ["1"] }]"#);
    assert_eq!(
        list_for(EditOp::SchemaChange { target_schema }, b""),
        list(&["A", "B", "score", "1", "group"])
    );
    let (out, after) = run(&ds, EditOp::DeleteCols { at: 1, count: 1 }, b"").expect("applies");
    let inverse = InverseMeta { ops: js(r#"{ "op": "restore_cols" }"#), ..out.inverse_meta.unwrap() };
    let undo_job = job(EditOp::ApplyInverse { inverse }, &out.inverse_bytes);
    assert_eq!(list_consulted(&after, &undo_job), list(&["restore_cols", "A", "B"]));
}

#[test]
fn levels_are_declared_once() {
    let ds = fixture("score,group\n1.5,A\n2.5,B\n");
    let target = |levels: &str| {
        format!(r#"[{{ "name": "score", "type": "nominal", "levels": {levels} }}, {{ "name": "group" }}]"#)
    };
    let v = issues(change(&ds, &target(r#"["1.5", "2.5", "1.5"]"#)));
    assert_eq!(v[0].code, "schema_mismatch");
    assert_eq!(v[0].column.as_deref(), Some("score"));
    let (_, after) = change(&ds, &target(r#"["2.5", "1.5"]"#)).expect("applies");
    assert_eq!(read_dict_dictionary(&after, "score"), list(&["2.5", "1.5"]));
    assert_eq!(read_dict_values(&after, "score"), some(&["1.5", "2.5"]));
}

#[test]
fn repeated_levels_read_as_before() {
    let mut ds = fixture("score,group\n1.5,A\n2.5,B\n3.5,A\n");
    ds.dicts[1] = list(&["A", "B", "A"]);
    ds.batches[0].cols[1] = vec![Some(0), Some(1), Some(2)];
    let change_to = |target: &str| EditOp::SchemaChange { target_schema: js(target) };
    round_trip(&ds, change_to(r#"[{ "name": "score" }, { "name": "group", "labels": { "A": "x" } }]"#), b"");
    round_trip(&ds, change_to(r#"[{ "name": "score" }, { "name": "group", "levels": ["B", "A"] }]"#), b"");
    round_trip(&ds, change_to(r#"[{ "name": "score" }, { "name": "group", "display_name": "g" }]"#), b"");
    round_trip(&ds, EditOp::DeleteRows { at: 0, count: 1 }, b"");
    round_trip(&ds, EditOp::InsertBlock { row: 1, col: 1, target_schema: None }, b"C\n");
}

#[test]
fn labels_of_a_renamed_scale_come_back() {
    let mut ds = fixture("score,group\n1.5,A\n");
    ds.fields[0].labels = vec![("1.5".to_string(), "low".to_string())];
    let target = r#"[{ "name": "score", "display_name": "points" }, { "name": "group" }]"#;
    round_trip(&ds, EditOp::SchemaChange { target_schema: js(target) }, b"");
}

#[test]
fn inverses_ask_no_numerals() {
    let ds = fixture("score,group\n1.5,A\n2.5,10\n");
    let none = Numerals::new(false);
    for (edit, tail) in [
        (EditOp::InsertBlock { row: 0, col: 0, target_schema: None }, &b"x\ty\n"[..]),
        (EditOp::DeleteRows { at: 0, count: 1 }, b""),
        (EditOp::DeleteCols { at: 0, count: 1 }, b""),
        (
            EditOp::SchemaChange {
                target_schema: js(r#"[{ "name": "group" }, { "name": "score", "type": "ordinal" }]"#),
            },
            b"",
        ),
    ] {
        let (out, after) = run(&ds, edit, tail).expect("applies");
        let inverse = out.inverse_meta.clone().expect("an inverse");
        let back = job(EditOp::ApplyInverse { inverse }, &out.inverse_bytes);
        let (redo, restored) = serve(&back, &after, &none).expect("applies");
        assert_eq!(snapshot(&restored), snapshot(&ds));
        let inverse = redo.inverse_meta.clone().expect("an inverse");
        let forth = job(EditOp::ApplyInverse { inverse }, &redo.inverse_bytes);
        let (_, again) = serve(&forth, &restored, &none).expect("applies");
        assert_eq!(snapshot(&again), snapshot(&after));
    }
}

#[test]
fn other_numerals_do_not_matter() {
    let ds = fixture("score,group\n1.5,A\n2.5,10\n");
    let edit = EditOp::InsertBlock { row: 0, col: 1, target_schema: None };
    let asked = job(edit, b"20\n");
    let num = numerals(&ds, b"20\n");
    let mut more = numerals(&ds, b"20\n");
    more.add_parsed("elsewhere".to_string(), 7);
    more.add_canonical("elsewhere".to_string(), "seven".to_string());
    more.add_shown(7, "seven".to_string());
    assert!(!list_consulted(&ds, &asked).contains(&"elsewhere".to_string()));
    let (a, x) = serve(&asked, &ds, &num).expect("applies");
    let (b, y) = serve(&asked, &ds, &more).expect("applies");
    assert_eq!(snapshot(&x), snapshot(&y));
    assert_eq!(schema(&a), schema(&b));
    assert_eq!(ops(&a), ops(&b));
    assert_eq!(a.inverse_bytes, b.inverse_bytes);
}

#[test]
fn sound_edits_land() {
    let ds = fixture("score,group\n1.5,A\n2.5,B\n");
    let target = r#"[{ "name": "group", "levels": ["B", "C", "A"] }, { "name": "score", "type": "nominal" }]"#;
    let (_, after) = change(&ds, target).expect("applies");
    assert_eq!(read_dict_values(&after, "group"), some(&["A", "B"]));
    assert_eq!(read_dict_values(&after, "score"), some(&["1.5", "2.5"]));
    let (_, pasted) = paste(&ds, 1, 0, "word\tC\t9\nlast\t\\N\t8\n").expect("applies");
    assert_eq!(read_dict_values(&pasted, "score"), some(&["1.5", "word", "last"]));
    assert_eq!(read_dict_values(&pasted, "group"), some(&["A", "C", "~"]));
}
