//! Datasets: columns with their measurement levels, dictionaries and cells, in row batches.
use vstd::prelude::*;
use crate::text::{same, texts};

verus! {

/// The measurement level of a column.
#[derive(Debug, Clone, Copy, PartialEq, Eq, Structural)]
pub enum Level {
    Scale,
    Ordinal,
    Nominal,
}

/// The name of a level on the wire.
pub open spec fn level_text(level: Level) -> Seq<char> {
    match level {
        Level::Scale => "scale"@,
        Level::Ordinal => "ordinal"@,
        Level::Nominal => "nominal"@,
    }
}

/// The level a wire name stands for.
pub open spec fn text_level(t: Seq<char>) -> Option<Level> {
    if t == "scale"@ {
        Some(Level::Scale)
    } else if t == "ordinal"@ {
        Some(Level::Ordinal)
    } else if t == "nominal"@ {
        Some(Level::Nominal)
    } else {
        None
    }
}

impl Level {
    /// The name of the level on the wire.
    pub fn as_str(&self) -> (r: &'static str)
        ensures
            r@ == level_text(*self),
    {
        match self {
            Level::Scale => "scale",
            Level::Ordinal => "ordinal",
            Level::Nominal => "nominal",
        }
    }

    pub fn is_scale(&self) -> (r: bool)
        ensures
            r == (*self is Scale),
    {
        match self {
            Level::Scale => true,
            _ => false,
        }
    }
}

/// The level a wire name stands for.
pub fn level_of_str(s: &String) -> (r: Option<Level>)
    ensures
        r == text_level(s@),
{
    if crate::text::same(s, "scale") {
        Some(Level::Scale)
    } else if crate::text::same(s, "ordinal") {
        Some(Level::Ordinal)
    } else if crate::text::same(s, "nominal") {
        Some(Level::Nominal)
    } else {
        None
    }
}

/// The physical type of a column.
#[derive(Debug, Clone, PartialEq, Eq)]
pub enum Kind {
    Float64,
    /// Strings by their position in the column's dictionary.
    Dictionary { ordered: bool },
    /// A type that no edit supports, by its name.
    Other(String),
}

/// The mathematical value of a [`Kind`].
pub enum KindV {
    Float64,
    Dictionary { ordered: bool },
    Other(Seq<char>),
}

impl View for Kind {
    type V = KindV;

    open spec fn view(&self) -> KindV {
        match self {
            Kind::Float64 => KindV::Float64,
            Kind::Dictionary { ordered } => KindV::Dictionary { ordered: *ordered },
            Kind::Other(t) => KindV::Other(t@),
        }
    }
}

/// The level of a physical type.
pub open spec fn kind_level(k: KindV) -> Option<Level> {
    match k {
        KindV::Float64 => Some(Level::Scale),
        KindV::Dictionary { ordered } => Some(
            if ordered {
                Level::Ordinal
            } else {
                Level::Nominal
            },
        ),
        KindV::Other(_) => None,
    }
}

/// The physical type of a level.
pub open spec fn level_kind(level: Level) -> KindV {
    match level {
        Level::Scale => KindV::Float64,
        Level::Ordinal => KindV::Dictionary { ordered: true },
        Level::Nominal => KindV::Dictionary { ordered: false },
    }
}

/// The identity of a column: everything about it but its cells and its dictionary.
#[derive(Debug, PartialEq, Eq)]
pub struct Field {
    pub name: String,
    pub kind: Kind,
    pub display_name: String,
    /// A hint that a scale holds integers only.
    pub all_integer: bool,
    /// Display labels of levels; of entries for one level the last counts.
    pub labels: Vec<(String, String)>,
}

/// The mathematical value of a [`Field`].
#[verifier::ext_equal]
pub struct FieldV {
    pub name: Seq<char>,
    pub kind: KindV,
    pub display: Seq<char>,
    pub all_integer: bool,
    pub labels: Map<Seq<char>, Seq<char>>,
}

/// The labels that a list of entries gives.
pub open spec fn label_map(v: Seq<(String, String)>) -> Map<Seq<char>, Seq<char>>
    decreases v.len(),
{
    if v.len() == 0 {
        Map::empty()
    } else {
        label_map(v.drop_last()).insert(v.last().0@, v.last().1@)
    }
}

impl View for Field {
    type V = FieldV;

    open spec fn view(&self) -> FieldV {
        FieldV {
            name: self.name@,
            kind: self.kind@,
            display: self.display_name@,
            all_integer: self.all_integer,
            labels: label_map(self.labels@),
        }
    }
}

impl FieldV {
    pub open spec fn level(self) -> Option<Level> {
        kind_level(self.kind)
    }

    pub open spec fn is_scale(self) -> bool {
        self.kind is Float64
    }
}

/// A fresh field of a level, without labels.
pub open spec fn plain_field(
    name: Seq<char>,
    display: Seq<char>,
    level: Level,
    all_integer: bool,
) -> FieldV {
    FieldV { name, kind: level_kind(level), display, all_integer, labels: Map::empty() }
}

/// Copies a list of labels.
pub fn copy_labels(v: &Vec<(String, String)>) -> (r: Vec<(String, String)>)
    ensures
        r@ =~= v@,
{
    let mut r: Vec<(String, String)> = Vec::new();
    let mut i: usize = 0;
    while i < v.len()
        invariant
            i <= v.len(),
            r@ =~= v@.take(i as int),
        decreases v.len() - i,
    {
        r.push((v[i].0.clone(), v[i].1.clone()));
        i = i + 1;
    }
    r
}

impl Field {
    /// A fresh field of a level, without labels.
    pub fn plain(name: &String, display: &String, level: Level, all_integer: bool) -> (r: Field)
        ensures
            r@ == plain_field(name@, display@, level, all_integer),
    {
        Field {
            name: name.clone(),
            kind: match level {
                Level::Scale => Kind::Float64,
                Level::Ordinal => Kind::Dictionary { ordered: true },
                Level::Nominal => Kind::Dictionary { ordered: false },
            },
            display_name: display.clone(),
            all_integer,
            labels: Vec::new(),
        }
    }

    /// A copy of the field.
    pub fn copy(&self) -> (r: Field)
        ensures
            r@ == self@,
    {
        Field {
            name: self.name.clone(),
            kind: match &self.kind {
                Kind::Float64 => Kind::Float64,
                Kind::Dictionary { ordered } => Kind::Dictionary { ordered: *ordered },
                Kind::Other(t) => Kind::Other(t.clone()),
            },
            display_name: self.display_name.clone(),
            all_integer: self.all_integer,
            labels: copy_labels(&self.labels),
        }
    }

    /// The measurement level; none for a type that no edit supports.
    pub fn level(&self) -> (r: Option<Level>)
        ensures
            r == self@.level(),
    {
        match &self.kind {
            Kind::Float64 => Some(Level::Scale),
            Kind::Dictionary { ordered } => Some(
                if *ordered {
                    Level::Ordinal
                } else {
                    Level::Nominal
                },
            ),
            Kind::Other(_) => None,
        }
    }

    pub fn is_scale(&self) -> (r: bool)
        ensures
            r == self@.is_scale(),
    {
        match &self.kind {
            Kind::Float64 => true,
            _ => false,
        }
    }
}

/// A cell: null, the bit pattern of a number, or a position in the column's dictionary.
pub type Cell = Option<u64>;

/// Consecutive rows of a dataset, column by column.
#[derive(Debug, PartialEq, Eq)]
pub struct Batch {
    pub rows: usize,
    pub cols: Vec<Vec<Cell>>,
}

/// A dataset: its columns' identities and dictionaries, and its rows in batches.
#[derive(Debug, PartialEq, Eq)]
pub struct Dataset {
    pub fields: Vec<Field>,
    pub dicts: Vec<Vec<String>>,
    pub batches: Vec<Batch>,
}

/// The largest number of rows a dataset can have.
pub const MAX_ROWS: u64 = 4611686018427387903;

/// A dataset as a table: its batches put end to end.
#[verifier::ext_equal]
pub struct TableV {
    pub fields: Seq<FieldV>,
    pub dicts: Seq<Seq<Seq<char>>>,
    pub cols: Seq<Seq<Cell>>,
    pub rows: nat,
}

/// The identities of a list of fields.
pub open spec fn field_views(v: Seq<Field>) -> Seq<FieldV> {
    Seq::new(v.len(), |i: int| v[i]@)
}

/// The texts of a list of dictionaries.
pub open spec fn dict_views(v: Seq<Vec<String>>) -> Seq<Seq<Seq<char>>> {
    Seq::new(v.len(), |i: int| texts(v[i]@))
}

/// The number of rows in a list of batches.
pub open spec fn total_rows(b: Seq<Batch>) -> nat
    decreases b.len(),
{
    if b.len() == 0 {
        0
    } else {
        total_rows(b.drop_last()) + b.last().rows as nat
    }
}

/// Column `j` of a list of batches, put end to end.
pub open spec fn flat(b: Seq<Batch>, j: int) -> Seq<Cell>
    decreases b.len(),
{
    if b.len() == 0 {
        Seq::empty()
    } else {
        flat(b.drop_last(), j) + b.last().cols@[j]@
    }
}

impl Batch {
    /// The batch is rectangular, has rows, and its keys lie in the dictionaries.
    pub open spec fn wf(self, fields: Seq<FieldV>, dicts: Seq<Seq<Seq<char>>>) -> bool {
        &&& self.rows > 0
        &&& self.cols@.len() == fields.len()
        &&& forall|j: int| 0 <= j < fields.len() ==> (#[trigger] self.cols@[j])@.len() == self.rows
        &&& forall|j: int, i: int|
            0 <= j < fields.len() && 0 <= i < self.rows ==> cell_fits(
                fields[j],
                dicts[j],
                #[trigger] self.cols@[j]@[i],
            )
    }
}

/// A cell of a dictionary column lies in the dictionary.
pub open spec fn cell_fits(field: FieldV, dict: Seq<Seq<char>>, c: Cell) -> bool {
    field.kind is Dictionary && c is Some ==> c->0 < dict.len()
}

impl Dataset {
    /// The dataset as a table.
    pub open spec fn table(self) -> TableV {
        TableV {
            fields: field_views(self.fields@),
            dicts: dict_views(self.dicts@),
            cols: Seq::new(self.fields@.len(), |j: int| flat(self.batches@, j)),
            rows: total_rows(self.batches@),
        }
    }

    /// Every batch has the dataset's shape, and only dictionary columns have levels.
    pub open spec fn wf(self) -> bool {
        &&& self.dicts@.len() == self.fields@.len()
        &&& forall|k: int|
            0 <= k < self.batches@.len() ==> (#[trigger] self.batches@[k]).wf(
                field_views(self.fields@),
                dict_views(self.dicts@),
            )
        &&& total_rows(self.batches@) <= MAX_ROWS
        &&& forall|j: int|
            0 <= j < self.dicts@.len() && !(self.fields@[j]@.kind is Dictionary) ==> (
            #[trigger] self.dicts@[j])@.len() == 0
    }
}

impl TableV {
    /// The table is rectangular, its keys lie in its dictionaries, and only dictionary columns
    /// have levels.
    pub open spec fn wf(self) -> bool {
        &&& self.dicts.len() == self.fields.len()
        &&& self.cols.len() == self.fields.len()
        &&& self.rows <= MAX_ROWS
        &&& forall|j: int| 0 <= j < self.cols.len() ==> (#[trigger] self.cols[j]).len() == self.rows
        &&& forall|j: int, i: int|
            0 <= j < self.cols.len() && 0 <= i < self.rows ==> cell_fits(
                self.fields[j],
                self.dicts[j],
                #[trigger] self.cols[j][i],
            )
        &&& forall|j: int|
            0 <= j < self.dicts.len() && !(self.fields[j].kind is Dictionary) ==> (
            #[trigger] self.dicts[j]) =~= Seq::empty()
    }

    /// No dictionary lists a level twice.
    pub open spec fn levels_distinct(self) -> bool {
        forall|j: int| 0 <= j < self.dicts.len() ==> crate::text::distinct(#[trigger] self.dicts[j])
    }

    /// Every column has a measurement level.
    pub open spec fn supported(self) -> bool {
        forall|j: int| 0 <= j < self.fields.len() ==> (#[trigger] self.fields[j]).level() is Some
    }

    /// No two columns share a name.
    pub open spec fn names_distinct(self) -> bool {
        forall|i: int, k: int|
            0 <= i < k < self.fields.len() ==> (#[trigger] self.fields[i]).name != (
            #[trigger] self.fields[k]).name
    }
}

/// Where a batch starts, as a row of the table.
pub open spec fn batch_start(b: Seq<Batch>, k: int) -> nat {
    total_rows(b.take(k))
}

/// Batches of the right shape make columns of the right length.
pub proof fn lemma_flat_len(
    b: Seq<Batch>,
    fields: Seq<FieldV>,
    dicts: Seq<Seq<Seq<char>>>,
    j: int,
)
    requires
        0 <= j < fields.len(),
        forall|k: int| 0 <= k < b.len() ==> (#[trigger] b[k]).wf(fields, dicts),
    ensures
        flat(b, j).len() == total_rows(b),
    decreases b.len(),
{
    if b.len() > 0 {
        assert(b.last() == b[b.len() - 1]);
        assert forall|k: int| 0 <= k < b.drop_last().len() implies (
        #[trigger] b.drop_last()[k]).wf(fields, dicts) by {
            assert(b.drop_last()[k] == b[k]);
        }
        lemma_flat_len(b.drop_last(), fields, dicts, j);
    }
}

/// Rows of a prefix come before the next batch.
pub proof fn lemma_start_step(b: Seq<Batch>, k: int)
    requires
        0 <= k < b.len(),
    ensures
        batch_start(b, k + 1) == batch_start(b, k) + b[k].rows,
        batch_start(b, 0) == 0,
        batch_start(b, b.len() as int) == total_rows(b),
{
    assert(b.take(k + 1).drop_last() =~= b.take(k));
    assert(b.take(b.len() as int) =~= b);
    assert(b.take(0) =~= Seq::empty());
}

/// Starts of batches grow.
pub proof fn lemma_start_grows(b: Seq<Batch>, i: int, k: int)
    requires
        0 <= i <= k <= b.len(),
    ensures
        batch_start(b, i) <= batch_start(b, k),
        batch_start(b, k) <= total_rows(b),
    decreases 2 * b.len() - i - k,
{
    if i < k {
        lemma_start_step(b, i);
        lemma_start_grows(b, i + 1, k);
    } else if k < b.len() {
        lemma_start_step(b, k);
        lemma_start_grows(b, k, k + 1);
    } else {
        assert(b.take(k) =~= b);
    }
}

/// The cells of a batch stand in the flat column from the batch's start on.
pub proof fn lemma_flat_at(
    b: Seq<Batch>,
    fields: Seq<FieldV>,
    dicts: Seq<Seq<Seq<char>>>,
    j: int,
    k: int,
)
    requires
        0 <= j < fields.len(),
        0 <= k < b.len(),
        forall|k: int| 0 <= k < b.len() ==> (#[trigger] b[k]).wf(fields, dicts),
    ensures
        batch_start(b, k) + b[k].rows <= total_rows(b),
        flat(b, j).len() == total_rows(b),
        forall|i: int|
            0 <= i < b[k].rows ==> flat(b, j)[batch_start(b, k) + i] == #[trigger] b[k].cols@[j]@[i],
    decreases b.len(),
{
    lemma_flat_len(b, fields, dicts, j);
    let p = b.drop_last();
    assert forall|m: int| 0 <= m < p.len() implies (#[trigger] p[m]).wf(fields, dicts) by {
        assert(p[m] == b[m]);
    }
    lemma_flat_len(p, fields, dicts, j);
    if k < p.len() {
        lemma_flat_at(p, fields, dicts, j, k);
        assert(p.take(k) =~= b.take(k));
        assert(p[k] == b[k]);
    } else {
        assert(b.take(k) =~= p);
    }
}

/// The table of a well-formed dataset is well formed.
pub proof fn lemma_table_wf(d: Dataset)
    requires
        d.wf(),
    ensures
        d.table().wf(),
{
    let t = d.table();
    let fields = t.fields;
    let dicts = t.dicts;
    assert forall|j: int| 0 <= j < t.cols.len() implies (#[trigger] t.cols[j]).len() == t.rows by {
        lemma_flat_len(d.batches@, fields, dicts, j);
    }
    assert forall|j: int, i: int| 0 <= j < t.cols.len() && 0 <= i < t.rows implies cell_fits(
        t.fields[j],
        t.dicts[j],
        #[trigger] t.cols[j][i],
    ) by {
        let k = lemma_locate(d.batches@, i);
        lemma_flat_at(d.batches@, fields, dicts, j, k);
        let off = i - batch_start(d.batches@, k);
        assert(d.batches@[k].wf(fields, dicts));
        assert(flat(d.batches@, j)[batch_start(d.batches@, k) + off] == d.batches@[k].cols@[j]@[off]);
    }
    assert forall|j: int| 0 <= j < t.dicts.len() && !(t.fields[j].kind is Dictionary) implies (
    #[trigger] t.dicts[j]) =~= Seq::empty() by {
        assert(d.dicts@[j]@.len() == 0);
    }
}

/// Every row lies in some batch.
pub proof fn lemma_locate(b: Seq<Batch>, row: int) -> (k: int)
    requires
        0 <= row < total_rows(b),
    ensures
        0 <= k < b.len(),
        batch_start(b, k) <= row < batch_start(b, k) + b[k].rows,
    decreases b.len(),
{
    let p = b.drop_last();
    if row < total_rows(p) {
        let k = lemma_locate(p, row);
        assert(p.take(k) =~= b.take(k));
        assert(p[k] == b[k]);
        k
    } else {
        assert(b.take(b.len() - 1) =~= p);
        b.len() - 1
    }
}

impl Dataset {
    /// The number of rows.
    pub fn rows(&self) -> (r: u64)
        requires
            self.wf(),
        ensures
            r == self.table().rows,
    {
        let mut r: u64 = 0;
        let mut k: usize = 0;
        assert(self.batches@.take(0) =~= Seq::empty());
        while k < self.batches.len()
            invariant
                k <= self.batches.len(),
                self.wf(),
                r == batch_start(self.batches@, k as int),
            decreases self.batches.len() - k,
        {
            proof {
                lemma_start_step(self.batches@, k as int);
                lemma_start_grows(self.batches@, k + 1, self.batches@.len() as int);
            }
            r = r + self.batches[k].rows as u64;
            k = k + 1;
        }
        assert(self.batches@.take(self.batches@.len() as int) =~= self.batches@);
        r
    }

    /// The cells of column `j` from row `from` up to row `to`.
    #[verifier::rlimit(50)]
    pub fn read_range(&self, j: usize, from: u64, to: u64) -> (r: Vec<Cell>)
        requires
            self.wf(),
            j < self.fields@.len(),
            from <= to <= self.table().rows,
        ensures
            r@ == self.table().cols[j as int].subrange(from as int, to as int),
    {
        let mut r: Vec<Cell> = Vec::new();
        let mut k: usize = 0;
        let mut base: u64 = 0;
        let ghost col = self.table().cols[j as int];
        let ghost fields = self.table().fields;
        let ghost dicts = self.table().dicts;
        proof {
            lemma_flat_len(self.batches@, fields, dicts, j as int);
        }
        assert(self.batches@.take(0) =~= Seq::empty());
        assert(r@ =~= col.subrange(from as int, from as int));
        while k < self.batches.len()
            invariant
                k <= self.batches.len(),
                self.wf(),
                j < self.fields@.len(),
                from <= to <= self.table().rows,
                col == self.table().cols[j as int],
                fields == self.table().fields,
                dicts == self.table().dicts,
                col.len() == self.table().rows,
                base == batch_start(self.batches@, k as int),
                r@ == col.subrange(
                    from as int,
                    if base <= from {
                        from as int
                    } else if base <= to {
                        base as int
                    } else {
                        to as int
                    },
                ),
            decreases self.batches.len() - k,
        {
            proof {
                lemma_start_step(self.batches@, k as int);
                lemma_start_grows(self.batches@, k + 1, self.batches@.len() as int);
                lemma_flat_at(self.batches@, fields, dicts, j as int, k as int);
                assert(self.batches@[k as int].wf(fields, dicts));
            }
            let b = &self.batches[k];
            let rows: u64 = b.rows as u64;
            let end: u64 = base + rows;
            let lo: u64 = if from > base {
                if from < end {
                    from
                } else {
                    end
                }
            } else {
                base
            };
            let hi: u64 = if to < end {
                to
            } else {
                end
            };
            if lo < hi {
                let c = &b.cols[j];
                let mut i: u64 = lo;
                while i < hi
                    invariant
                        lo <= i <= hi,
                        from <= lo,
                        base <= lo,
                        hi <= base + b.rows,
                        hi <= col.len(),
                        b.cols@[j as int]@.len() == b.rows,
                        c@ == b.cols@[j as int]@,
                        r@ == col.subrange(from as int, i as int),
                        forall|m: int|
                            0 <= m < b.rows ==> col[base + m] == #[trigger] b.cols@[j as int]@[m],
                    decreases hi - i,
                {
                    let off: usize = (i - base) as usize;
                    r.push(c[off]);
                    assert(col[base + off] == b.cols@[j as int]@[off as int]);
                    assert(col.subrange(from as int, i + 1) =~= col.subrange(
                        from as int,
                        i as int,
                    ).push(col[i as int]));
                    i = i + 1;
                }
            }
            base = end;
            k = k + 1;
        }
        assert(self.batches@.take(self.batches@.len() as int) =~= self.batches@);
        r
    }

    /// All cells of column `j`.
    pub fn column(&self, j: usize) -> (r: Vec<Cell>)
        requires
            self.wf(),
            j < self.fields@.len(),
        ensures
            r@ == self.table().cols[j as int],
    {
        proof {
            lemma_flat_len(
                self.batches@,
                self.table().fields,
                self.table().dicts,
                j as int,
            );
        }
        let r = self.read_range(j, 0, self.rows());
        assert(r@ =~= self.table().cols[j as int]);
        r
    }
}

/// The label of a level; of several entries the last counts.
fn label_for<'a>(v: &'a Vec<(String, String)>, key: &String) -> (r: Option<&'a String>)
    ensures
        match r {
            Some(t) => label_map(v@).contains_key(key@) && label_map(v@)[key@] == t@,
            None => !label_map(v@).contains_key(key@),
        },
{
    let mut i: usize = v.len();
    assert(v@.take(v@.len() as int) =~= v@);
    while i > 0
        invariant
            i <= v.len(),
            label_map(v@).contains_key(key@) == label_map(v@.take(i as int)).contains_key(key@),
            label_map(v@).contains_key(key@) ==> label_map(v@)[key@] == label_map(
                v@.take(i as int),
            )[key@],
        decreases i,
    {
        assert(v@.take(i as int).drop_last() =~= v@.take(i - 1));
        assert(v@.take(i as int).last() == v@[i - 1]);
        i = i - 1;
        if same(&v[i].0, key.as_str()) {
            return Some(&v[i].1);
        }
    }
    None
}

proof fn lemma_label_source(v: Seq<(String, String)>, k: Seq<char>)
    requires
        label_map(v).contains_key(k),
    ensures
        exists|m: int| 0 <= m < v.len() && (#[trigger] v[m]).0@ == k,
    decreases v.len(),
{
    if v.last().0@ != k {
        lemma_label_source(v.drop_last(), k);
        let m = choose|m: int| 0 <= m < v.len() - 1 && (#[trigger] v.drop_last()[m]).0@ == k;
        assert(v[m].0@ == k);
    } else {
        assert(v[v.len() - 1].0@ == k);
    }
}

/// Whether the labels of one list are among those of another one.
fn labels_within(a: &Vec<(String, String)>, b: &Vec<(String, String)>) -> (r: bool)
    ensures
        r == (forall|k: Seq<char>| #[trigger]
            label_map(a@).contains_key(k) ==> label_map(b@).contains_key(k) && label_map(b@)[k]
                == label_map(a@)[k]),
{
    let mut i: usize = 0;
    while i < a.len()
        invariant
            i <= a.len(),
            forall|m: int|
                0 <= m < i ==> label_map(b@).contains_key((#[trigger] a@[m]).0@) && label_map(
                    b@,
                )[a@[m].0@] == label_map(a@)[a@[m].0@],
        decreases a.len() - i,
    {
        let x = label_for(a, &a[i].0);
        let y = label_for(b, &a[i].0);
        let fits = match (x, y) {
            (Some(s), Some(t)) => same(s, t.as_str()),
            _ => false,
        };
        proof {
            lemma_label_has(a@, i as int);
        }
        if !fits {
            assert(label_map(a@).contains_key(a@[i as int].0@));
            return false;
        }
        i = i + 1;
    }
    assert forall|k: Seq<char>| #[trigger] label_map(a@).contains_key(k) implies label_map(
        b@,
    ).contains_key(k) && label_map(b@)[k] == label_map(a@)[k] by {
        lemma_label_source(a@, k);
    }
    true
}

proof fn lemma_label_has(v: Seq<(String, String)>, i: int)
    requires
        0 <= i < v.len(),
    ensures
        label_map(v).contains_key(v[i].0@),
    decreases v.len(),
{
    if i < v.len() - 1 {
        assert(v.drop_last()[i] == v[i]);
        lemma_label_has(v.drop_last(), i);
    }
}

/// Whether two columns have the same identity.
pub fn same_field(a: &Field, b: &Field) -> (r: bool)
    ensures
        r == (a@ == b@),
{
    let kinds = match (&a.kind, &b.kind) {
        (Kind::Float64, Kind::Float64) => true,
        (Kind::Dictionary { ordered: x }, Kind::Dictionary { ordered: y }) => *x == *y,
        (Kind::Other(x), Kind::Other(y)) => same(x, y.as_str()),
        _ => false,
    };
    let labels = labels_within(&a.labels, &b.labels) && labels_within(&b.labels, &a.labels);
    assert(labels == (label_map(a.labels@) == label_map(b.labels@))) by {
        if labels {
            assert(label_map(a.labels@) =~= label_map(b.labels@));
        }
    }
    kinds && labels && same(&a.name, b.name.as_str()) && same(
        &a.display_name,
        b.display_name.as_str(),
    ) && a.all_integer == b.all_integer
}

/// Whether two lists of texts are the same.
fn same_texts(a: &Vec<String>, b: &Vec<String>) -> (r: bool)
    ensures
        r == (texts(a@) == texts(b@)),
{
    if a.len() != b.len() {
        assert(texts(a@).len() != texts(b@).len());
        return false;
    }
    let mut i: usize = 0;
    while i < a.len()
        invariant
            i <= a.len(),
            a.len() == b.len(),
            forall|k: int| 0 <= k < i ==> (#[trigger] a@[k])@ == b@[k]@,
        decreases a.len() - i,
    {
        if !same(&a[i], b[i].as_str()) {
            assert(texts(a@)[i as int] != texts(b@)[i as int]);
            return false;
        }
        i = i + 1;
    }
    assert(texts(a@) =~= texts(b@));
    true
}

/// Whether two datasets have the same columns, with the same levels, in the same order.
pub fn same_schema(a: &Dataset, b: &Dataset) -> (r: bool)
    requires
        a.wf(),
        b.wf(),
    ensures
        r == (a.table().fields == b.table().fields && a.table().dicts == b.table().dicts),
{
    let ghost x = a.table();
    let ghost y = b.table();
    if a.fields.len() != b.fields.len() {
        assert(x.fields.len() != y.fields.len());
        return false;
    }
    let mut j: usize = 0;
    while j < a.fields.len()
        invariant
            j <= a.fields.len(),
            a.wf(),
            b.wf(),
            x == a.table(),
            y == b.table(),
            a.fields.len() == b.fields.len(),
            forall|k: int| 0 <= k < j ==> (#[trigger] x.fields[k]) == y.fields[k],
            forall|k: int| 0 <= k < j ==> (#[trigger] x.dicts[k]) == y.dicts[k],
        decreases a.fields.len() - j,
    {
        assert(x.fields[j as int] == a.fields@[j as int]@);
        assert(y.fields[j as int] == b.fields@[j as int]@);
        assert(x.dicts[j as int] == texts(a.dicts@[j as int]@));
        assert(y.dicts[j as int] == texts(b.dicts@[j as int]@));
        if !same_field(&a.fields[j], &b.fields[j]) || !same_texts(&a.dicts[j], &b.dicts[j]) {
            return false;
        }
        j = j + 1;
    }
    assert(x.fields =~= y.fields);
    assert(x.dicts =~= y.dicts);
    true
}

} // verus!
