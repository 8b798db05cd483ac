//! Captured columns and the Arrow IPC files that carry them. The files are little-endian, as are
//! the machines that they are written and read on.
use arrow::array::{
    make_array, Array, ArrayRef, AsArray, DictionaryArray, Int32Array, StringArray, UInt64Array,
};
use arrow::datatypes::{DataType, Schema};
use arrow::record_batch::RecordBatch;
use std::collections::HashMap;
use std::sync::Arc;
use vstd::prelude::*;
use vstd::utf8::encode_utf8;
use crate::blob::{check_file, readable};
use crate::levels::text_less;
use crate::messages::{EditFailure, FailureV};
use crate::table::{cell_fits, copy_labels, label_map, Cell, Field, FieldV, Kind, KindV};
use crate::text::{clone_texts, same, texts};
use crate::wording;

verus! {

/// A column with its identity, dictionary and cells.
#[derive(Debug, PartialEq, Eq)]
pub struct Column {
    pub field: Field,
    pub levels: Vec<String>,
    pub cells: Vec<Cell>,
}

/// The mathematical value of a [`Column`].
#[verifier::ext_equal]
pub struct ColumnV {
    pub field: FieldV,
    pub levels: Seq<Seq<char>>,
    pub cells: Seq<Cell>,
}

impl View for Column {
    type V = ColumnV;

    open spec fn view(&self) -> ColumnV {
        ColumnV { field: self.field@, levels: texts(self.levels@), cells: self.cells@ }
    }
}

/// The values of a list of columns.
pub open spec fn column_views(v: Seq<Column>) -> Seq<ColumnV> {
    Seq::new(v.len(), |i: int| v[i]@)
}

/// A column as Arrow holds it: numbers by their bit patterns, strings by their position in
/// the dictionary's values, metadata in the order of its keys.
#[verifier::ext_equal]
pub struct ArrowColumnV {
    pub name: Seq<char>,
    pub kind: KindV,
    pub meta: Seq<(Seq<char>, Seq<char>)>,
    pub levels: Seq<Seq<char>>,
    pub cells: Seq<Cell>,
}

/// Columns of equal length that are put together in an Arrow record batch.
#[verifier::external_body]
pub struct ArrowColumns {
    batch: RecordBatch,
}

/// The columns that are put together.
pub uninterp spec fn arrow_columns(c: ArrowColumns) -> Seq<ArrowColumnV>;

/// A record batch that was read.
#[verifier::external_body]
pub struct ReadColumns {
    batch: RecordBatch,
}

/// The columns of a record batch that was read.
pub uninterp spec fn read_columns(c: ReadColumns) -> Seq<ArrowColumnV>;

/// The texts of a list of pairs.
pub open spec fn pair_texts(v: Seq<(String, String)>) -> Seq<(Seq<char>, Seq<char>)> {
    Seq::new(v.len(), |i: int| (v[i].0@, v[i].1@))
}

/// The keys of a list of pairs ascend.
pub open spec fn keys_ascend(s: Seq<(Seq<char>, Seq<char>)>) -> bool {
    forall|i: int, k: int| 0 <= i < k < s.len() ==> text_less(s[i].0, s[k].0)
}

/// Columns that join others have the others' length.
pub open spec fn joins(cols: Seq<ArrowColumnV>, rows: nat) -> bool {
    cols.len() > 0 ==> cols[0].cells.len() == rows
}

/// `RecordBatch::new_empty` of a schema without fields: no columns.
#[verifier::external_body]
fn no_columns() -> (r: ArrowColumns)
    ensures
        arrow_columns(r) == Seq::<ArrowColumnV>::empty(),
{
    let schema = Schema::empty();
    ArrowColumns { batch: RecordBatch::new_empty(Arc::new(schema)) }
}

/// `RecordBatch::try_new` of the fields and columns there are and a nullable Float64 one
/// more, made of bit patterns. It fails on columns of unequal length only.
#[verifier::external_body]
fn push_numbers(
    cols: ArrowColumns,
    name: String,
    meta: Vec<(String, String)>,
    cells: Vec<Cell>,
) -> (r: ArrowColumns)
    requires
        joins(arrow_columns(cols), cells@.len()),
        keys_ascend(pair_texts(meta@)),
    ensures
        arrow_columns(r) == arrow_columns(cols).push(
            ArrowColumnV {
                name: name@,
                kind: KindV::Float64,
                meta: pair_texts(meta@),
                levels: Seq::empty(),
                cells: cells@,
            },
        ),
{
    let meta: HashMap<String, String> = meta.into_iter().collect();
    let kind = DataType::Float64;
    let field = arrow::datatypes::Field::new(name, kind.clone(), true).with_metadata(meta);
    let mut fields = cols.batch.schema().fields().to_vec();
    fields.push(Arc::new(field));
    let data = UInt64Array::from(cells).into_data();
    let mut arrays = cols.batch.columns().to_vec();
    arrays.push(make_array(data.into_builder().data_type(kind).build().unwrap()));
    let schema = Arc::new(Schema::new(fields));
    ArrowColumns { batch: RecordBatch::try_new(schema, arrays).unwrap() }
}

/// The cells as dictionary keys.
pub open spec fn key_cells(keys: Seq<Option<i32>>) -> Seq<Cell> {
    Seq::new(
        keys.len(),
        |i: int|
            match keys[i] {
                Some(k) => Some(k as u64),
                None => None,
            },
    )
}

/// The number of bytes of a list of texts.
pub open spec fn text_size(s: Seq<Seq<char>>) -> nat
    decreases s.len(),
{
    if s.len() == 0 {
        0
    } else {
        text_size(s.drop_last()) + encode_utf8(s.last()).len()
    }
}

/// `RecordBatch::try_new` of the fields and columns there are and a nullable dictionary of
/// strings more. It fails on columns of unequal length and on keys outside the dictionary
/// only; the values of a string array must stay below two gibibytes.
#[verifier::external_body]
fn push_keys(
    cols: ArrowColumns,
    name: String,
    ordered: bool,
    meta: Vec<(String, String)>,
    keys: Vec<Option<i32>>,
    levels: Vec<String>,
) -> (r: ArrowColumns)
    requires
        joins(arrow_columns(cols), keys@.len()),
        keys_ascend(pair_texts(meta@)),
        forall|i: int|
            0 <= i < keys@.len() && keys@[i] is Some ==> 0 <= #[trigger] keys@[i]->0
                < levels@.len(),
        text_size(texts(levels@)) <= 0x7fff_ffff,
        levels@.len() <= 0x7fff_ffff,
    ensures
        arrow_columns(r) == arrow_columns(cols).push(
            ArrowColumnV {
                name: name@,
                kind: KindV::Dictionary { ordered },
                meta: pair_texts(meta@),
                levels: texts(levels@),
                cells: key_cells(keys@),
            },
        ),
{
    let meta: HashMap<String, String> = meta.into_iter().collect();
    let levels = Arc::new(StringArray::from(levels));
    let array = DictionaryArray::try_new(Int32Array::from(keys), levels);
    let array: ArrayRef = Arc::new(array.unwrap());
    let field = arrow::datatypes::Field::new(name, array.data_type().clone(), true);
    let field = field.with_dict_is_ordered(ordered).with_metadata(meta);
    let mut fields = cols.batch.schema().fields().to_vec();
    fields.push(Arc::new(field));
    let mut arrays = cols.batch.columns().to_vec();
    arrays.push(array);
    let schema = Arc::new(Schema::new(fields));
    ArrowColumns { batch: RecordBatch::try_new(schema, arrays).unwrap() }
}

/// What the header of a file needs for the names and the metadata of its columns, at most.
pub open spec fn header_size(cols: Seq<ArrowColumnV>) -> nat
    decreases cols.len(),
{
    if cols.len() == 0 {
        0
    } else {
        header_size(cols.drop_last()) + header_share(cols.last().name, cols.last().meta)
    }
}

/// What the header needs for one column, at most.
pub open spec fn header_share(name: Seq<char>, meta: Seq<(Seq<char>, Seq<char>)>) -> nat {
    512 + encode_utf8(name).len() + pairs_size(meta)
}

/// What the header needs for a list of pairs, at most.
pub open spec fn pairs_size(s: Seq<(Seq<char>, Seq<char>)>) -> nat
    decreases s.len(),
{
    if s.len() == 0 {
        0
    } else {
        pairs_size(s.drop_last()) + 64 + encode_utf8(s.last().0).len() + encode_utf8(
            s.last().1,
        ).len()
    }
}

/// The largest header that is written: what a flat buffer can hold.
pub const MAX_HEADER: u64 = 0x7fff_ffff;

/// The largest file whose header is sure to have fewer than a million tables.
pub const MAX_LEGIBLE: u64 = 67_108_864;

/// What `arrow_ipc`'s file reader makes of bytes: the first batch of the file, if it has
/// one, or the text of the reader's error.
pub uninterp spec fn ipc_read(bytes: Seq<u8>) -> Result<Option<Seq<ArrowColumnV>>, Seq<char>>;

/// A read gives exactly these columns.
pub open spec fn reads_as(
    read: Result<Option<Seq<ArrowColumnV>>, Seq<char>>,
    cols: Seq<ArrowColumnV>,
) -> bool {
    match read {
        Ok(Some(c)) => c == cols,
        _ => false,
    }
}

/// The file that `arrow_ipc`'s file writer makes of columns.
pub uninterp spec fn ipc_bytes(cols: Seq<ArrowColumnV>) -> Seq<u8>;

/// `arrow_ipc::writer::FileWriter` with LZ4 frames, one batch written and the file finished. The
/// writer has no fault to report for one batch that goes into memory, and the file depends on the
/// columns alone. The header must stay below two gibibytes. The file can be read, and the file
/// reader reads the columns back from it, where the header has no more than the million tables
/// that the reader takes. The schema stands in the file twice, and every dictionary has a message
/// of its own: that makes more than 68 bytes to a table, so that a file of 64 mebibytes has fewer.
#[verifier::external_body]
fn ipc_write(cols: &ArrowColumns) -> (r: Vec<u8>)
    requires
        arrow_columns(*cols).len() > 0,
        header_size(arrow_columns(*cols)) <= MAX_HEADER,
    ensures
        r@ == ipc_bytes(arrow_columns(*cols)),
        r@.len() <= MAX_LEGIBLE ==> readable(r@) && reads_as(ipc_read(r@), arrow_columns(*cols)),
{
    let lz4 = Some(arrow_ipc::CompressionType::LZ4_FRAME);
    let options = arrow_ipc::writer::IpcWriteOptions::default().try_with_compression(lz4);
    let schema = cols.batch.schema();
    let file = Vec::new();
    let w = arrow_ipc::writer::FileWriter::try_new_with_options(file, &schema, options.unwrap());
    let mut w = w.unwrap();
    w.write(&cols.batch).unwrap();
    w.into_inner().unwrap()
}

/// `arrow_ipc::reader::FileReader` over bytes that were looked over, its first batch taken. The
/// result depends on the bytes alone. The reader slices a file by the lengths and places that its
/// footer and its messages give, and takes the buffers of numbers as whole numbers: these are what
/// is in order in readable bytes. Any other fault it reports.
#[verifier::external_body]
fn ipc_first_batch(bytes: &[u8]) -> (r: Result<Option<ReadColumns>, String>)
    requires
        readable(bytes@),
    ensures
        match (r, ipc_read(bytes@)) {
            (Ok(Some(c)), Ok(Some(cols))) => read_columns(c) == cols,
            (Ok(None), Ok(None)) => true,
            (Err(e), Err(t)) => e@ == t,
            _ => false,
        },
{
    let reader = arrow_ipc::reader::FileReader::try_new(std::io::Cursor::new(bytes), None);
    let mut reader = reader.map_err(|e| e.to_string())?;
    let batch = reader.next().transpose().map_err(|e| e.to_string())?;
    Ok(batch.map(|batch| ReadColumns { batch }))
}

/// `RecordBatch::num_columns`.
#[verifier::external_body]
fn column_count(cols: &ReadColumns) -> (r: usize)
    ensures
        r == read_columns(*cols).len(),
{
    cols.batch.num_columns()
}

/// `Field::name` of a column.
#[verifier::external_body]
fn column_name(cols: &ReadColumns, i: usize) -> (r: String)
    requires
        i < read_columns(*cols).len(),
    ensures
        r@ == read_columns(*cols)[i as int].name,
{
    cols.batch.schema().field(i).name().clone()
}

/// `Field::data_type` of a column: Float64, strings under 32-bit keys with their order flag,
/// or the name of any other type.
#[verifier::external_body]
fn column_kind(cols: &ReadColumns, i: usize) -> (r: Kind)
    requires
        i < read_columns(*cols).len(),
    ensures
        r@ == read_columns(*cols)[i as int].kind,
{
    let schema = cols.batch.schema();
    let field = schema.field(i);
    let text = (DataType::Int32, DataType::Utf8);
    match (field.data_type(), field.dict_is_ordered()) {
        (DataType::Float64, _) => Kind::Float64,
        (DataType::Dictionary(k, v), Some(ordered)) if (&**k, &**v) == (
            &text.0,
            &text.1,
        ) => Kind::Dictionary { ordered },
        (other, _) => Kind::Other(other.to_string()),
    }
}

/// `Field::metadata` of a column: the pairs in the order of their keys.
#[verifier::external_body]
fn column_meta(cols: &ReadColumns, i: usize) -> (r: Vec<(String, String)>)
    requires
        i < read_columns(*cols).len(),
    ensures
        pair_texts(r@) == read_columns(*cols)[i as int].meta,
{
    let schema = cols.batch.schema();
    schema.field(i).metadata().iter().map(|(k, v)| (k.clone(), v.clone())).collect()
}

/// The values of a Float64 column by their bit patterns.
#[verifier::external_body]
fn number_column(cols: &ReadColumns, i: usize) -> (r: Vec<Cell>)
    requires
        i < read_columns(*cols).len(),
        read_columns(*cols)[i as int].kind is Float64,
    ensures
        r@ == read_columns(*cols)[i as int].cells,
{
    let data = cols.batch.column(i).to_data().into_builder();
    let data = data.data_type(DataType::UInt64).build().unwrap();
    UInt64Array::from(data).iter().collect()
}

/// `DictionaryArray::keys` of a dictionary column.
#[verifier::external_body]
fn key_column(cols: &ReadColumns, i: usize) -> (r: Vec<Cell>)
    requires
        i < read_columns(*cols).len(),
        read_columns(*cols)[i as int].kind is Dictionary,
    ensures
        r@ == read_columns(*cols)[i as int].cells,
{
    let column = cols.batch.column(i).as_dictionary::<arrow::datatypes::Int32Type>();
    column.keys().iter().map(|k| k.map(|k| k as u64)).collect()
}

/// `DictionaryArray::values` of a dictionary column.
#[verifier::external_body]
fn level_column(cols: &ReadColumns, i: usize) -> (r: Vec<String>)
    requires
        i < read_columns(*cols).len(),
        read_columns(*cols)[i as int].kind is Dictionary,
    ensures
        texts(r@) == read_columns(*cols)[i as int].levels,
{
    let column = cols.batch.column(i).as_dictionary::<arrow::datatypes::Int32Type>();
    let values = column.values().as_string::<i32>();
    (0..values.len()).map(|k| values.value(k).to_string()).collect()
}

/// The labels that a JSON text lists, where it is an object of strings.
pub uninterp spec fn labels_in(text: Seq<char>) -> Option<Map<Seq<char>, Seq<char>>>;

/// The JSON text of a map of strings, as `serde_json` writes it.
pub uninterp spec fn labels_written(labels: Map<Seq<char>, Seq<char>>) -> Seq<char>;

/// `serde_json::to_string` of a map of strings in the order of its keys: the text depends on
/// the map alone, and reads back as the same map.
#[verifier::external_body]
fn labels_text(labels: Vec<(String, String)>) -> (r: String)
    ensures
        r@ == labels_written(label_map(labels@)),
        labels_in(r@) == Some(label_map(labels@)),
{
    let map: std::collections::BTreeMap<String, String> = labels.into_iter().collect();
    serde_json::to_string(&map).unwrap()
}

/// `serde_json::from_str` into a map of strings.
#[verifier::external_body]
fn labels_of_text(text: &String) -> (r: Option<Vec<(String, String)>>)
    ensures
        match (r, labels_in(text@)) {
            (Some(v), Some(m)) => label_map(v@) == m,
            (None, None) => true,
            _ => false,
        },
{
    let map: Option<std::collections::BTreeMap<String, String>> = serde_json::from_str(text).ok();
    map.map(|m| m.into_iter().collect())
}

/// The value under a metadata key.
pub open spec fn meta_value(meta: Seq<(Seq<char>, Seq<char>)>, key: Seq<char>) -> Option<Seq<char>>
    decreases meta.len(),
{
    if meta.len() == 0 {
        None
    } else if meta.last().0 == key {
        Some(meta.last().1)
    } else {
        meta_value(meta.drop_last(), key)
    }
}

/// The field that Arrow's name, type and metadata describe.
pub open spec fn field_of(
    name: Seq<char>,
    kind: KindV,
    meta: Seq<(Seq<char>, Seq<char>)>,
) -> FieldV {
    FieldV {
        name,
        kind,
        display: match meta_value(meta, "jasp:display_name"@) {
            Some(t) => t,
            None => name,
        },
        all_integer: meta_value(meta, "jasp:all_integer"@) == Some("true"@),
        labels: match meta_value(meta, "jasp:labels"@) {
            Some(t) => match labels_in(t) {
                Some(m) => m,
                None => Map::empty(),
            },
            None => Map::empty(),
        },
    }
}

/// The column that an Arrow column stands for.
pub open spec fn column_of(c: ArrowColumnV) -> ColumnV {
    ColumnV {
        field: field_of(c.name, c.kind, c.meta),
        levels: if c.kind is Dictionary {
            c.levels
        } else {
            Seq::empty()
        },
        cells: if c.kind is Other {
            Seq::empty()
        } else {
            c.cells
        },
    }
}

/// What a blob carries: the columns of its first batch, if it has one. What is no file that can
/// be read carries nothing.
pub open spec fn blob_columns(bytes: Seq<u8>) -> Result<Option<Seq<ColumnV>>, Seq<char>> {
    if !readable(bytes) {
        Err("the inverse is no Arrow file that can be read"@)
    } else {
        match ipc_read(bytes) {
            Ok(Some(cols)) => Ok(Some(Seq::new(cols.len(), |i: int| column_of(cols[i])))),
            Ok(None) => Ok(None),
            Err(t) => Err(t),
        }
    }
}

/// A blob carries exactly these columns.
pub open spec fn carries(bytes: Seq<u8>, cols: Seq<ColumnV>) -> bool {
    blob_columns(bytes) == Ok::<Option<Seq<ColumnV>>, Seq<char>>(Some(cols))
}

/// The metadata of a field, in the order of its keys.
pub open spec fn field_meta(f: FieldV) -> Seq<(Seq<char>, Seq<char>)> {
    let base = seq![
        (
            "jasp:all_integer"@,
            if f.all_integer {
                "true"@
            } else {
                "false"@
            },
        ),
        ("jasp:display_name"@, f.display),
    ];
    if f.labels =~= Map::empty() {
        base
    } else {
        base.push(("jasp:labels"@, labels_written(f.labels)))
    }
}

/// What the header needs for the first `k` columns, at most.
pub open spec fn header_need(cols: Seq<ColumnV>, k: nat) -> nat
    decreases k,
{
    if k == 0 {
        0
    } else {
        let f = cols[k - 1].field;
        header_need(cols, (k - 1) as nat) + header_share(f.name, field_meta(f))
    }
}

/// Every key lies in a dictionary of `n` levels.
pub open spec fn keys_inside(cells: Seq<Cell>, n: nat) -> bool {
    forall|i: int| 0 <= i < cells.len() && (#[trigger] cells[i]) is Some ==> cells[i]->0 < n
}

/// Why a column cannot be written, whatever stands before it: its type, or a dictionary that
/// is too large or too small for its keys.
pub open spec fn column_fault(c: ColumnV) -> Option<Seq<char>> {
    match c.field.kind {
        KindV::Float64 => None,
        KindV::Dictionary { .. } => if c.levels.len() > 0x7fff_ffff || text_size(c.levels)
            > 0x7fff_ffff {
            Some("a dictionary is too large"@)
        } else if !keys_inside(c.cells, c.levels.len()) {
            Some("a key lies outside its dictionary"@)
        } else {
            None
        },
        KindV::Other(_) => Some("a column has an unsupported type"@),
    }
}

/// The first reason why the first `k` columns cannot be written.
pub open spec fn write_fault(cols: Seq<ColumnV>, k: nat) -> Option<Seq<char>>
    decreases k,
{
    if k == 0 {
        None
    } else {
        match write_fault(cols, (k - 1) as nat) {
            Some(m) => Some(m),
            None => if header_need(cols, k) > MAX_HEADER {
                Some("the names and labels of the columns are too long"@)
            } else {
                column_fault(cols[k - 1])
            },
        }
    }
}

/// A column as Arrow holds it.
pub open spec fn arrow_of(c: ColumnV) -> ArrowColumnV {
    ArrowColumnV {
        name: c.field.name,
        kind: c.field.kind,
        meta: field_meta(c.field),
        levels: c.levels,
        cells: c.cells,
    }
}

/// What writing columns gives: the file, or why they cannot be written.
pub open spec fn column_file(cols: Seq<ColumnV>) -> Result<Seq<u8>, Seq<char>> {
    if cols.len() == 0 {
        Err("there are no columns to write"@)
    } else {
        match write_fault(cols, cols.len()) {
            Some(m) => Err(m),
            None => Ok(ipc_bytes(Seq::new(cols.len(), |i: int| arrow_of(cols[i])))),
        }
    }
}

/// What was written of columns, where there are some: their file, which carries them unless it is
/// too large, or why they cannot be written.
pub open spec fn written(w: Result<Seq<u8>, Seq<char>>, cols: Seq<ColumnV>) -> bool {
    &&& w matches Ok(b) ==> b.len() <= MAX_LEGIBLE ==> carries(b, cols)
    &&& cols.len() > 0 ==> w == column_file(cols)
}

/// What writing a capture gives, where there is one.
pub open spec fn capture_file(c: Option<Seq<ColumnV>>) -> Result<Seq<u8>, Seq<char>> {
    match c {
        Some(cols) => column_file(cols),
        None => column_file(Seq::empty()),
    }
}

/// What was written of a capture; where there is none, nothing is said.
pub open spec fn wrote(w: Result<Seq<u8>, Seq<char>>, c: Option<Seq<ColumnV>>) -> bool {
    match c {
        Some(cols) => written(w, cols),
        None => true,
    }
}

/// Finds the value under a metadata key.
fn find_meta<'a>(meta: &'a Vec<(String, String)>, key: &str) -> (r: Option<&'a String>)
    ensures
        match (r, meta_value(pair_texts(meta@), key@)) {
            (Some(a), Some(b)) => a@ == b,
            (None, None) => true,
            _ => false,
        },
{
    let ghost all = pair_texts(meta@);
    let mut i: usize = meta.len();
    assert(all.take(all.len() as int) =~= all);
    while i > 0
        invariant
            i <= meta.len(),
            all == pair_texts(meta@),
            meta_value(all, key@) == meta_value(all.take(i as int), key@),
        decreases i,
    {
        assert(all.take(i as int).last() == all[i - 1]);
        assert(all.take(i as int).drop_last() =~= all.take(i - 1));
        i = i - 1;
        if same(&meta[i].0, key) {
            return Some(&meta[i].1);
        }
    }
    None
}

/// Reads the field that a name, a type and metadata describe.
pub fn read_field(name: String, kind: Kind, meta: &Vec<(String, String)>) -> (r: Field)
    ensures
        r@ == field_of(name@, kind@, pair_texts(meta@)),
{
    let display_name = match find_meta(meta, "jasp:display_name") {
        Some(t) => t.clone(),
        None => name.clone(),
    };
    let all_integer = match find_meta(meta, "jasp:all_integer") {
        Some(t) => same(t, "true"),
        None => false,
    };
    let labels: Vec<(String, String)> = match find_meta(meta, "jasp:labels") {
        Some(t) => match labels_of_text(t) {
            Some(v) => v,
            None => Vec::new(),
        },
        None => Vec::new(),
    };
    Field { name, kind, display_name, all_integer, labels }
}

/// Reads a column out of a record batch.
fn read_column(cols: &ReadColumns, i: usize) -> (r: Column)
    requires
        i < read_columns(*cols).len(),
    ensures
        r@ == column_of(read_columns(*cols)[i as int]),
{
    let name = column_name(cols, i);
    let kind = column_kind(cols, i);
    let meta = column_meta(cols, i);
    let (levels, cells): (Vec<String>, Vec<Cell>) = match &kind {
        Kind::Float64 => (Vec::new(), number_column(cols, i)),
        Kind::Dictionary { .. } => (level_column(cols, i), key_column(cols, i)),
        Kind::Other(_) => (Vec::new(), Vec::new()),
    };
    assert(kind@ is Dictionary || texts(levels@) =~= Seq::empty());
    assert(kind@ is Other ==> cells@ =~= Seq::empty());
    Column { field: read_field(name, kind, &meta), levels, cells }
}

proof fn lemma_keys_ascend(a: Seq<char>, b: Seq<char>, c: Seq<char>)
    ensures
        keys_ascend(seq![("jasp:all_integer"@, a), ("jasp:display_name"@, b)]),
        keys_ascend(seq![("jasp:all_integer"@, a), ("jasp:display_name"@, b), ("jasp:labels"@, c)]),
        "jasp:all_integer"@ != "jasp:display_name"@,
        "jasp:all_integer"@ != "jasp:labels"@,
        "jasp:display_name"@ != "jasp:labels"@,
{
    reveal_strlit("jasp:all_integer");
    reveal_strlit("jasp:display_name");
    reveal_strlit("jasp:labels");
    let x = "jasp:all_integer"@;
    let y = "jasp:display_name"@;
    let z = "jasp:labels"@;
    lemma_less_at(x, y, 5);
    lemma_less_at(y, z, 5);
    lemma_less_at(x, z, 5);
    assert(x[5] != y[5] && y[5] != z[5] && x[5] != z[5]);
}

/// The first difference decides the order of texts.
pub proof fn lemma_less_at(a: Seq<char>, b: Seq<char>, k: int)
    requires
        0 <= k < a.len(),
        k < b.len(),
        forall|i: int| 0 <= i < k ==> a[i] == b[i],
        a[k] < b[k],
    ensures
        text_less(a, b),
    decreases k,
{
    if k > 0 {
        assert(a[0] == b[0]);
        let p = a.drop_first();
        let q = b.drop_first();
        assert forall|i: int| 0 <= i < k - 1 implies p[i] == q[i] by {
            assert(a[i + 1] == b[i + 1]);
        }
        assert(p[k - 1] == a[k]);
        assert(q[k - 1] == b[k]);
        lemma_less_at(p, q, k - 1);
    }
}

/// Lists the metadata of a field, in the order of its keys.
pub fn meta_of(field: &Field) -> (r: Vec<(String, String)>)
    ensures
        keys_ascend(pair_texts(r@)),
        pair_texts(r@) == field_meta(field@),
        forall|name: Seq<char>, kind: KindV|
            #![trigger field_of(name, kind, pair_texts(r@))]
            field_of(name, kind, pair_texts(r@)) == (FieldV { name, kind, ..field@ }),
{
    let flag = if field.all_integer {
        "true".to_string()
    } else {
        "false".to_string()
    };
    proof {
        reveal_strlit("true");
        reveal_strlit("false");
        assert("true"@.len() != "false"@.len());
    }
    let mut meta: Vec<(String, String)> = Vec::new();
    meta.push(("jasp:all_integer".to_string(), flag));
    meta.push(("jasp:display_name".to_string(), field.display_name.clone()));
    let ghost two = seq![
        ("jasp:all_integer"@, flag@),
        ("jasp:display_name"@, field.display_name@),
    ];
    assert(pair_texts(meta@) =~= two);
    proof {
        crate::wire::lemma_label_map_empty(field.labels@);
        lemma_keys_ascend(flag@, field.display_name@, Seq::empty());
        assert(two.drop_last() =~= seq![("jasp:all_integer"@, flag@)]);
        assert(two.drop_last().drop_last() =~= Seq::empty());
        reveal_with_fuel(meta_value, 4);
    }
    if field.labels.len() > 0 {
        let text = labels_text(copy_labels(&field.labels));
        meta.push(("jasp:labels".to_string(), text));
        let ghost three = seq![
            ("jasp:all_integer"@, flag@),
            ("jasp:display_name"@, field.display_name@),
            ("jasp:labels"@, text@),
        ];
        assert(pair_texts(meta@) =~= three);
        proof {
            lemma_keys_ascend(flag@, field.display_name@, text@);
            assert(three.drop_last() =~= two);
            assert(three =~= field_meta(field@));
        }
    } else {
        assert(two =~= field_meta(field@));
    }
    meta
}

/// Whether the bytes of a list of texts keep to a limit.
fn texts_fit(v: &Vec<String>, limit: u64) -> (r: bool)
    ensures
        r == (text_size(texts(v@)) <= limit),
{
    let mut left: u64 = limit;
    let mut i: usize = 0;
    let ghost all = texts(v@);
    assert(all.take(0) =~= Seq::empty());
    while i < v.len()
        invariant
            i <= v.len(),
            all == texts(v@),
            left + text_size(all.take(i as int)) == limit,
        decreases v.len() - i,
    {
        assert(all.take(i + 1).drop_last() =~= all.take(i as int));
        proof {
            lemma_text_size_grows(all, i + 1);
        }
        let n = v[i].as_str().as_bytes().len() as u64;
        if n > left {
            return false;
        }
        left = left - n;
        i = i + 1;
    }
    assert(all.take(all.len() as int) =~= all);
    true
}

proof fn lemma_text_size_grows(s: Seq<Seq<char>>, k: int)
    requires
        0 <= k <= s.len(),
    ensures
        text_size(s.take(k)) <= text_size(s),
    decreases s.len() - k,
{
    if k < s.len() {
        assert(s.take(k + 1).drop_last() =~= s.take(k));
        lemma_text_size_grows(s, k + 1);
    } else {
        assert(s.take(k) =~= s);
    }
}

proof fn lemma_pairs_size_grows(s: Seq<(Seq<char>, Seq<char>)>, k: int)
    requires
        0 <= k <= s.len(),
    ensures
        pairs_size(s.take(k)) <= pairs_size(s),
    decreases s.len() - k,
{
    if k < s.len() {
        assert(s.take(k + 1).drop_last() =~= s.take(k));
        lemma_pairs_size_grows(s, k + 1);
    } else {
        assert(s.take(k) =~= s);
    }
}

/// Takes the header's share of one column off what is left of a header; nothing where it
/// does not fit.
fn header_left(left: u64, name: &String, meta: &Vec<(String, String)>) -> (r: Option<u64>)
    ensures
        match r {
            Some(x) => x + header_share(name@, pair_texts(meta@)) == left,
            None => header_share(name@, pair_texts(meta@)) > left,
        },
{
    if left < 512 {
        return None;
    }
    let mut rest: u64 = left - 512;
    let n = name.as_str().as_bytes().len() as u64;
    if n > rest {
        return None;
    }
    rest = rest - n;
    let ghost all = pair_texts(meta@);
    let mut i: usize = 0;
    assert(all.take(0) =~= Seq::empty());
    while i < meta.len()
        invariant
            i <= meta.len(),
            all == pair_texts(meta@),
            rest + 512 + encode_utf8(name@).len() + pairs_size(all.take(i as int)) == left,
        decreases meta.len() - i,
    {
        assert(all.take(i + 1).drop_last() =~= all.take(i as int));
        proof {
            lemma_pairs_size_grows(all, i + 1);
        }
        let a = meta[i].0.as_str().as_bytes().len() as u64;
        let b = meta[i].1.as_str().as_bytes().len() as u64;
        if rest < 64 || a > rest - 64 || b > rest - 64 - a {
            return None;
        }
        rest = rest - 64 - a - b;
        i = i + 1;
    }
    assert(all.take(all.len() as int) =~= all);
    Some(rest)
}

/// The cells as dictionary keys; nothing where one lies outside the dictionary.
fn keys_of(cells: &Vec<Cell>, levels: usize) -> (r: Option<Vec<Option<i32>>>)
    requires
        levels <= 0x7fff_ffff,
    ensures
        match r {
            Some(k) => key_cells(k@) == cells@ && (forall|i: int|
                0 <= i < k@.len() && k@[i] is Some ==> 0 <= #[trigger] k@[i]->0 < levels)
                && keys_inside(cells@, levels as nat),
            None => !keys_inside(cells@, levels as nat),
        },
{
    let mut r: Vec<Option<i32>> = Vec::new();
    let mut i: usize = 0;
    while i < cells.len()
        invariant
            i <= cells.len(),
            levels <= 0x7fff_ffff,
            r@.len() == i,
            key_cells(r@) =~= cells@.take(i as int),
            forall|i: int|
                0 <= i < r@.len() && r@[i] is Some ==> 0 <= #[trigger] r@[i]->0 < levels,
            keys_inside(cells@.take(i as int), levels as nat),
        decreases cells.len() - i,
    {
        match cells[i] {
            Some(k) => {
                if k >= levels as u64 {
                    return None;
                }
                r.push(Some(k as i32));
            },
            None => {
                r.push(None);
            },
        }
        i = i + 1;
    }
    assert(key_cells(r@) =~= cells@);
    assert(cells@.take(i as int) =~= cells@);
    Some(r)
}

/// A reason that some columns cannot be written holds of more columns too.
proof fn lemma_fault_stays(cols: Seq<ColumnV>, k: nat)
    requires
        k <= cols.len(),
        write_fault(cols, k) is Some,
    ensures
        write_fault(cols, cols.len()) == write_fault(cols, k),
    decreases cols.len() - k,
{
    if k < cols.len() {
        lemma_fault_stays(cols, k + 1);
    }
}

/// Writes columns of equal length to a blob. Columns that cannot be written are refused with
/// the first reason.
#[verifier::rlimit(30)]
pub fn write_columns(cols: &Vec<Column>) -> (r: Result<Vec<u8>, String>)
    requires
        forall|i: int|
            0 <= i < cols@.len() ==> (#[trigger] cols@[i])@.cells.len() == cols@[0]@.cells.len(),
        forall|i: int|
            0 <= i < cols@.len() ==> (#[trigger] cols@[i])@.field.is_scale() ==> cols@[i]@.levels
                =~= Seq::empty(),
    ensures
        write_view(r) == column_file(column_views(cols@)),
        written(write_view(r), column_views(cols@)),
{
    if cols.len() == 0 {
        return Err("there are no columns to write".to_string());
    }
    let mut out = no_columns();
    let mut left: u64 = MAX_HEADER;
    let mut i: usize = 0;
    let ghost goal = column_views(cols@);
    while i < cols.len()
        invariant
            i <= cols.len(),
            goal == column_views(cols@),
            forall|i: int|
                0 <= i < cols@.len() ==> (#[trigger] cols@[i])@.cells.len()
                    == cols@[0]@.cells.len(),
            forall|i: int|
                0 <= i < cols@.len() ==> (#[trigger] cols@[i])@.field.is_scale()
                    ==> cols@[i]@.levels =~= Seq::empty(),
            arrow_columns(out).len() == i,
            left + header_size(arrow_columns(out)) == MAX_HEADER,
            header_need(goal, i as nat) == header_size(arrow_columns(out)),
            forall|k: int| 0 <= k < i ==> (#[trigger] arrow_columns(out)[k]) == arrow_of(goal[k]),
            write_fault(goal, i as nat) is None,
            i > 0 ==> arrow_columns(out)[0].cells.len() == cols@[0]@.cells.len(),
            forall|k: int| 0 <= k < i ==> column_of(#[trigger] arrow_columns(out)[k]) == goal[k],
        decreases cols.len() - i,
    {
        let c = &cols[i];
        let ghost before = arrow_columns(out);
        let ghost next = (i + 1) as nat;
        assert(goal[i as int] == c@);
        let meta = meta_of(&c.field);
        left = match header_left(left, &c.field.name, &meta) {
            Some(x) => x,
            None => {
                proof {
                    lemma_fault_stays(goal, next);
                }
                return Err("the names and labels of the columns are too long".to_string());
            },
        };
        assert(cols@[i as int]@.cells.len() == cols@[0]@.cells.len());
        let ghost mt = pair_texts(meta@);
        match &c.field.kind {
            Kind::Float64 => {
                let mut cells: Vec<Cell> = Vec::new();
                let mut k: usize = 0;
                while k < c.cells.len()
                    invariant
                        k <= c.cells.len(),
                        cells@ =~= c.cells@.take(k as int),
                    decreases c.cells.len() - k,
                {
                    cells.push(c.cells[k]);
                    k = k + 1;
                }
                assert(cells@ =~= c.cells@);
                out = push_numbers(out, c.field.name.clone(), meta, cells);
            },
            Kind::Dictionary { ordered } => {
                if c.levels.len() > 0x7fff_ffff || !texts_fit(&c.levels, 0x7fff_ffff) {
                    proof {
                        lemma_fault_stays(goal, next);
                    }
                    return Err("a dictionary is too large".to_string());
                }
                match keys_of(&c.cells, c.levels.len()) {
                    Some(keys) => {
                        let levels = clone_texts(&c.levels);
                        assert(texts(levels@) =~= texts(c.levels@));
                        out = push_keys(out, c.field.name.clone(), *ordered, meta, keys, levels);
                    },
                    None => {
                        proof {
                            lemma_fault_stays(goal, next);
                        }
                        return Err("a key lies outside its dictionary".to_string());
                    },
                }
            },
            Kind::Other(_) => {
                proof {
                    lemma_fault_stays(goal, next);
                }
                return Err("a column has an unsupported type".to_string());
            },
        }
        proof {
            let after = arrow_columns(out);
            assert(after.drop_last() =~= before);
            assert(after.last().meta == mt);
            let got = column_of(after.last());
            assert(field_of(c.field.name@, c.field.kind@, mt) == c.field@);
            assert(got.field == c@.field);
            assert(got.levels =~= c@.levels);
            assert(got.cells =~= c@.cells);
            assert(after.last() =~= arrow_of(goal[i as int]));
            assert forall|k: int| 0 <= k < i + 1 implies (#[trigger] after[k]) == arrow_of(
                goal[k],
            ) by {
                if k < i {
                    assert(after[k] == before[k]);
                }
            }
            assert forall|k: int| 0 <= k < i + 1 implies column_of(#[trigger] after[k]) == goal[k] by {
                if k < i {
                    assert(after[k] == before[k]);
                }
            }
        }
        i = i + 1;
    }
    let r = ipc_write(&out);
    proof {
        let cols_a = arrow_columns(out);
        assert(Seq::new(cols_a.len(), |i: int| column_of(cols_a[i])) =~= goal);
        assert(cols_a =~= Seq::new(goal.len(), |i: int| arrow_of(goal[i])));
    }
    Ok(r)
}

/// The most bytes that an inverse may have: a frame's payload less room for the envelope.
pub const INVERSE_CEILING: u64 = 67_043_328;

/// The inverse's bytes that a write gives: what cannot fit one frame is a fault.
pub open spec fn sealed(w: Result<Seq<u8>, Seq<char>>) -> Result<Seq<u8>, FailureV> {
    match w {
        Err(e) => Err(FailureV::Fatal(wording::inverse_write_failed_msg(e))),
        Ok(b) => if b.len() > INVERSE_CEILING {
            Err(
                FailureV::Fatal(
                    wording::inverse_too_large_msg(b.len() as u64, INVERSE_CEILING),
                ),
            )
        } else {
            Ok(b)
        },
    }
}

/// Settles what a write gives.
pub fn seal(w: Result<Vec<u8>, String>) -> (r: Result<Vec<u8>, EditFailure>)
    ensures
        match (r, sealed(write_view(w))) {
            (Ok(b), Ok(s)) => b@ == s,
            (Err(e), Err(f)) => e@ == f,
            _ => false,
        },
{
    match w {
        Err(e) => Err(EditFailure::fatal(wording::inverse_write_failed(e.as_str()))),
        Ok(b) => {
            if b.len() as u64 > INVERSE_CEILING {
                Err(
                    EditFailure::fatal(
                        wording::inverse_too_large(b.len() as u64, INVERSE_CEILING),
                    ),
                )
            } else {
                Ok(b)
            }
        },
    }
}

/// The value of a write.
pub open spec fn write_view(w: Result<Vec<u8>, String>) -> Result<Seq<u8>, Seq<char>> {
    match w {
        Ok(b) => Ok(b@),
        Err(e) => Err(e@),
    }
}

/// The redo's bytes that a write gives.
pub open spec fn sealed_redo(w: Result<Seq<u8>, Seq<char>>) -> Result<Seq<u8>, FailureV> {
    match w {
        Err(e) => Err(FailureV::Fatal(wording::redo_write_failed_msg(e))),
        Ok(b) => if b.len() > INVERSE_CEILING {
            Err(
                FailureV::Fatal(
                    "the redo is too large to transport — the change itself is too large"@,
                ),
            )
        } else {
            Ok(b)
        },
    }
}

/// Settles what the write of a redo gives.
pub fn seal_redo(w: Result<Vec<u8>, String>) -> (r: Result<Vec<u8>, EditFailure>)
    ensures
        match (r, sealed_redo(write_view(w))) {
            (Ok(b), Ok(s)) => b@ == s,
            (Err(e), Err(f)) => e@ == f,
            _ => false,
        },
{
    match w {
        Err(e) => Err(EditFailure::fatal(wording::redo_write_failed(e.as_str()))),
        Ok(b) => {
            if b.len() as u64 > INVERSE_CEILING {
                Err(
                    EditFailure::fault(
                        "the redo is too large to transport — the change itself is too large",
                    ),
                )
            } else {
                Ok(b)
            }
        },
    }
}

/// The first column whose type no edit supports.
pub open spec fn first_unsupported(cols: Seq<ColumnV>) -> Option<nat>
    decreases cols.len(),
{
    if cols.len() == 0 {
        None
    } else {
        match first_unsupported(cols.drop_last()) {
            Some(i) => Some(i),
            None => if cols.last().field.level() is None {
                Some((cols.len() - 1) as nat)
            } else {
                None
            },
        }
    }
}

/// The columns have equal lengths and keys in their dictionaries.
pub open spec fn columns_fit(cols: Seq<ColumnV>) -> bool {
    forall|i: int| #![trigger cols[i]]
        0 <= i < cols.len() ==> cols[i].cells.len() == cols[0].cells.len() && (forall|k: int|
            0 <= k < cols[i].cells.len() ==> cell_fits(
                cols[i].field,
                cols[i].levels,
                #[trigger] cols[i].cells[k],
            ))
}

/// The name of a type that no edit supports.
pub open spec fn kind_text(k: KindV) -> Seq<char> {
    match k {
        KindV::Other(t) => t,
        _ => Seq::empty(),
    }
}

/// The columns of an inverse blob; it is round-tripped bytes, so every fault is expected.
pub open spec fn decoded(blob: Result<Option<Seq<ColumnV>>, Seq<char>>) -> Result<
    Seq<ColumnV>,
    FailureV,
> {
    match blob {
        Err(t) => Err(FailureV::Fatal(wording::blob_fault_msg(t))),
        Ok(None) => Err(FailureV::Fatal("the inverse blob carries no batch"@)),
        Ok(Some(cols)) => if cols.len() == 0 {
            Err(FailureV::Fatal("the inverse blob has no columns"@))
        } else {
            match first_unsupported(cols) {
                Some(i) => Err(
                    FailureV::Fatal(
                        wording::blob_type_msg(
                            cols[i as int].field.name,
                            kind_text(cols[i as int].field.kind),
                        ),
                    ),
                ),
                None => if columns_fit(cols) {
                    Ok(cols)
                } else {
                    Err(FailureV::Fatal("the inverse blob is not rectangular"@))
                },
            }
        },
    }
}

/// The columns of an inverse blob.
pub struct InverseData {
    pub columns: Vec<Column>,
}

proof fn lemma_unsupported_prefix(cols: Seq<ColumnV>, k: int)
    requires
        0 <= k <= cols.len(),
        first_unsupported(cols.take(k)) is Some,
    ensures
        first_unsupported(cols) == first_unsupported(cols.take(k)),
    decreases cols.len() - k,
{
    if k < cols.len() {
        assert(cols.take(k + 1).drop_last() =~= cols.take(k));
        lemma_unsupported_prefix(cols, k + 1);
    } else {
        assert(cols.take(k) =~= cols);
    }
}

/// Whether every cell of a column lies in its dictionary.
fn column_fits(c: &Column) -> (r: bool)
    ensures
        r == (forall|k: int|
            0 <= k < c@.cells.len() ==> cell_fits(
                c@.field,
                c@.levels,
                #[trigger] c@.cells[k],
            )),
{
    let dictionary = match &c.field.kind {
        Kind::Dictionary { .. } => true,
        _ => false,
    };
    if !dictionary {
        return true;
    }
    let mut k: usize = 0;
    while k < c.cells.len()
        invariant
            k <= c.cells.len(),
            c@.field.kind is Dictionary,
            forall|m: int|
                0 <= m < k ==> cell_fits(c@.field, c@.levels, #[trigger] c@.cells[m]),
        decreases c.cells.len() - k,
    {
        if let Some(x) = c.cells[k] {
            if x >= c.levels.len() as u64 {
                assert(!cell_fits(c@.field, c@.levels, c@.cells[k as int]));
                return false;
            }
        }
        k = k + 1;
    }
    true
}

/// Settles the columns that a blob carries.
pub fn settle_blob(blob: Result<Option<Vec<Column>>, String>) -> (r: Result<
    InverseData,
    EditFailure,
>)
    ensures
        match (r, decoded(blob_view(blob))) {
            (Ok(d), Ok(cols)) => column_views(d.columns@) == cols,
            (Err(e), Err(f)) => e@ == f,
            _ => false,
        },
{
    let columns = match blob {
        Err(t) => {
            return Err(EditFailure::fatal(wording::blob_fault(t.as_str())));
        },
        Ok(None) => {
            return Err(EditFailure::fault("the inverse blob carries no batch"));
        },
        Ok(Some(c)) => c,
    };
    let ghost cols = column_views(columns@);
    if columns.len() == 0 {
        return Err(EditFailure::fault("the inverse blob has no columns"));
    }
    let mut i: usize = 0;
    assert(cols.take(0) =~= Seq::empty());
    while i < columns.len()
        invariant
            i <= columns.len(),
            columns@.len() > 0,
            cols == column_views(columns@),
            blob_view(blob) == Ok::<Option<Seq<ColumnV>>, Seq<char>>(Some(cols)),
            first_unsupported(cols.take(i as int)) is None,
        decreases columns.len() - i,
    {
        assert(cols.take(i + 1).drop_last() =~= cols.take(i as int));
        if columns[i].field.level().is_none() {
            proof {
                lemma_unsupported_prefix(cols, i + 1);
            }
            let ty = match &columns[i].field.kind {
                Kind::Other(t) => t.clone(),
                _ => String::new(),
            };
            assert(ty@ =~= kind_text(columns@[i as int]@.field.kind));
            return Err(
                EditFailure::fatal(
                    wording::blob_type(columns[i].field.name.as_str(), ty.as_str()),
                ),
            );
        }
        i = i + 1;
    }
    assert(cols.take(cols.len() as int) =~= cols);
    let mut k: usize = 0;
    while k < columns.len()
        invariant
            k <= columns.len(),
            columns@.len() > 0,
            cols == column_views(columns@),
            blob_view(blob) == Ok::<Option<Seq<ColumnV>>, Seq<char>>(Some(cols)),
            first_unsupported(cols) is None,
            forall|i: int| #![trigger cols[i]]
                0 <= i < k ==> cols[i].cells.len() == cols[0].cells.len() && (forall|m: int|
                    0 <= m < cols[i].cells.len() ==> cell_fits(
                        cols[i].field,
                        cols[i].levels,
                        #[trigger] cols[i].cells[m],
                    )),
        decreases columns.len() - k,
    {
        let ok = columns[k].cells.len() == columns[0].cells.len() && column_fits(&columns[k]);
        assert(cols[k as int] == columns@[k as int]@);
        if !ok {
            assert(!columns_fit(cols));
            return Err(EditFailure::fault("the inverse blob is not rectangular"));
        }
        k = k + 1;
    }
    Ok(InverseData { columns })
}

/// The value of what a blob carries.
pub open spec fn blob_view(blob: Result<Option<Vec<Column>>, String>) -> Result<
    Option<Seq<ColumnV>>,
    Seq<char>,
> {
    match blob {
        Ok(Some(v)) => Ok(Some(column_views(v@))),
        Ok(None) => Ok(None),
        Err(e) => Err(e@),
    }
}

/// Decodes an inverse blob.
pub fn decode_inverse(bytes: &[u8]) -> (r: Result<InverseData, EditFailure>)
    ensures
        match (r, decoded(blob_columns(bytes@))) {
            (Ok(d), Ok(cols)) => column_views(d.columns@) == cols,
            (Err(e), Err(f)) => e@ == f,
            _ => false,
        },
{
    if !check_file(bytes) {
        return settle_blob(Err("the inverse is no Arrow file that can be read".to_string()));
    }
    let blob: Result<Option<Vec<Column>>, String> = match ipc_first_batch(bytes) {
        Err(e) => Err(e),
        Ok(None) => Ok(None),
        Ok(Some(batch)) => {
            let n = column_count(&batch);
            let ghost goal = Seq::new(
                read_columns(batch).len(),
                |i: int| column_of(read_columns(batch)[i]),
            );
            let mut columns: Vec<Column> = Vec::new();
            let mut i: usize = 0;
            while i < n
                invariant
                    i <= n,
                    n == read_columns(batch).len(),
                    columns@.len() == i,
                    goal == Seq::new(
                        read_columns(batch).len(),
                        |i: int| column_of(read_columns(batch)[i]),
                    ),
                    column_views(columns@) =~= goal.take(i as int),
                decreases n - i,
            {
                columns.push(read_column(&batch, i));
                i = i + 1;
            }
            assert(column_views(columns@) =~= goal);
            Ok(Some(columns))
        },
    };
    settle_blob(blob)
}

/// Decoded columns are supported, of equal length, with keys in their dictionaries.
pub proof fn lemma_decoded(blob: Result<Option<Seq<ColumnV>>, Seq<char>>)
    requires
        decoded(blob) is Ok,
    ensures
        forall|i: int|
            0 <= i < decoded(blob)->Ok_0.len() ==> (
            #[trigger] decoded(blob)->Ok_0[i]).field.level() is Some,
        columns_fit(decoded(blob)->Ok_0),
{
    let cols = decoded(blob)->Ok_0;
    assert forall|i: int| 0 <= i < cols.len() implies (#[trigger] cols[i]).field.level() is Some by {
        lemma_supported_at(cols, i);
    }
}

proof fn lemma_supported_at(cols: Seq<ColumnV>, i: int)
    requires
        first_unsupported(cols) is None,
        0 <= i < cols.len(),
    ensures
        cols[i].field.level() is Some,
    decreases cols.len(),
{
    if i < cols.len() - 1 {
        lemma_supported_at(cols.drop_last(), i);
        assert(cols.drop_last()[i] == cols[i]);
    }
}

} // verus!
