//! Undoing and redoing a paste.
use vstd::prelude::*;
use crate::capture::{
    blob_columns, capture_file, column_views, decode_inverse, decoded, lemma_decoded, seal_redo,
    sealed_redo, write_columns, write_view, written, wrote, ColumnV, InverseData,
};
use crate::edit_block::{make_restore_block, restore_block_program};
use crate::edit_rows::{
    inverse_rows, levels_tidy, program_u64, restored_col, restored_colv, u64_of,
};
use crate::engine::{plan_views, plan_wf, rewritten, stream_rewrite, OutCol, OutColV};
use crate::json::{array_at, array_of, items, number_at, number_of, text_at, text_of, Json, JsonV};
use crate::messages::{all_stale, EditFailure, FailureV, Invalidation};
use crate::number::{Numerals, NumeralsV};
use crate::outcome::{
    capture_cols, capture_of, gives, inverse_of, make_inverse, make_run, pass_col, pass_colv, run,
    EditOutput, OutcomeV,
};
use crate::segments::{table_rows, Seg};
use crate::table::{lemma_table_wf, Dataset, TableV, MAX_ROWS};
use crate::text::{same, texts};
use crate::wire::{schema_json, wire_schema};

verus! {

/// What a program to restore a pasted block says.
pub struct BlockProgram {
    pub row: u64,
    pub col: u64,
    pub height: u64,
    pub width: u64,
    pub old_rows: u64,
    pub old_cols: u64,
    pub capture_rows: u64,
    /// Whole columns were captured, and not only the block.
    pub full: bool,
    pub indices: Vec<u64>,
}

/// The mathematical value of a [`BlockProgram`].
pub struct BlockProgramV {
    pub row: u64,
    pub col: u64,
    pub height: u64,
    pub width: u64,
    pub old_rows: u64,
    pub old_cols: u64,
    pub capture_rows: u64,
    pub full: bool,
    pub indices: Seq<u64>,
}

impl View for BlockProgram {
    type V = BlockProgramV;

    open spec fn view(&self) -> BlockProgramV {
        BlockProgramV {
            row: self.row,
            col: self.col,
            height: self.height,
            width: self.width,
            old_rows: self.old_rows,
            old_cols: self.old_cols,
            capture_rows: self.capture_rows,
            full: self.full,
            indices: self.indices@,
        }
    }
}

/// The positions that the column entries of a program give; an entry without one is skipped.
pub open spec fn old_indices(a: Seq<JsonV>) -> Seq<u64>
    decreases a.len(),
{
    if a.len() == 0 {
        Seq::empty()
    } else {
        match number_at(a.last(), "old_index"@) {
            Some(j) => old_indices(a.drop_last()).push(j),
            None => old_indices(a.drop_last()),
        }
    }
}

/// A number of the anchor, or zero.
pub open spec fn anchor_number(v: JsonV, key: Seq<char>) -> u64 {
    match number_at(v, key) {
        Some(n) => n,
        None => 0,
    }
}

/// What a program to restore a pasted block says; the first missing part decides.
pub open spec fn block_program(ops: JsonV) -> Result<BlockProgramV, FailureV> {
    match ops.get("anchor"@) {
        None => Err(FailureV::Fatal("restore_block: no anchor"@)),
        Some(anchor) => match (
            program_u64(anchor, "row"@),
            program_u64(anchor, "rows"@),
            program_u64(ops, "old_rows"@),
            program_u64(ops, "old_cols"@),
            program_u64(ops, "capture_rows"@),
            array_at(ops, "columns"@),
        ) {
            (Err(f), _, _, _, _, _) => Err(f),
            (_, Err(f), _, _, _, _) => Err(f),
            (_, _, Err(f), _, _, _) => Err(f),
            (_, _, _, Err(f), _, _) => Err(f),
            (_, _, _, _, Err(f), _) => Err(f),
            (_, _, _, _, _, None) => Err(FailureV::Fatal("restore_block: no columns list"@)),
            (Ok(row), Ok(height), Ok(old_rows), Ok(old_cols), Ok(capture_rows), Some(a)) => Ok(
                BlockProgramV {
                    row,
                    col: anchor_number(anchor, "col"@),
                    height,
                    width: anchor_number(anchor, "cols"@),
                    old_rows,
                    old_cols,
                    capture_rows,
                    full: text_at(ops, "capture"@) == Some("full"@),
                    indices: old_indices(a),
                },
            ),
        },
    }
}

/// The numbers below a bound, in their order.
pub open spec fn below(s: Seq<u64>, n: nat) -> Seq<u64>
    decreases s.len(),
{
    if s.len() == 0 {
        Seq::empty()
    } else if s.last() < n {
        below(s.drop_last(), n).push(s.last())
    } else {
        below(s.drop_last(), n)
    }
}

/// The numbers from a bound on, in their order.
pub open spec fn beyond(s: Seq<u64>, n: nat) -> Seq<u64>
    decreases s.len(),
{
    if s.len() == 0 {
        Seq::empty()
    } else if s.last() >= n {
        beyond(s.drop_last(), n).push(s.last())
    } else {
        beyond(s.drop_last(), n)
    }
}

/// The numbers from `from` up to `to`; none where `to` is not above `from`.
pub open spec fn tail_run(from: u64, to: u64) -> Seq<u64> {
    if from < to {
        run(from, to)
    } else {
        Seq::empty()
    }
}

/// The first place of a number.
pub open spec fn first_place(s: Seq<u64>, j: u64) -> Option<nat>
    decreases s.len(),
{
    if s.len() == 0 {
        None
    } else {
        match first_place(s.drop_last(), j) {
            Some(i) => Some(i),
            None => if s.last() == j {
                Some((s.len() - 1) as nat)
            } else {
                None
            },
        }
    }
}

/// The first row that the window of a program covers.
pub open spec fn window_start(p: BlockProgramV) -> u64 {
    if p.full {
        0
    } else {
        p.row
    }
}

/// Every column that a program names lies below its column count, those that the dataset
/// lacks are exactly the missing tail, and the extents are within bounds.
pub open spec fn consistent(p: BlockProgramV, n: nat) -> bool {
    &&& p.indices.len() > 0
    &&& forall|i: int| 0 <= i < p.indices.len() ==> #[trigger] p.indices[i] < p.old_cols
    &&& beyond(p.indices, n) =~= tail_run(n as u64, p.old_cols)
    &&& window_start(p) + p.capture_rows <= u64::MAX
    &&& p.old_rows <= MAX_ROWS
}

/// One list begins with the other.
pub open spec fn one_begins(a: Seq<Seq<char>>, b: Seq<Seq<char>>) -> bool {
    a.is_prefix_of(b) || b.is_prefix_of(a)
}

/// Restoring a column changes its type or replaces its dictionary, so that the cells
/// outside the window would not keep their meaning.
pub open spec fn reencodes_back(t: TableV, c: ColumnV, j: int) -> bool {
    t.fields[j].is_scale() != c.field.is_scale() || !one_begins(t.dicts[j], c.levels)
}

/// Restoring one of the first `k` columns that a program names re-encodes it.
pub open spec fn some_reencodes(t: TableV, indices: Seq<u64>, inv: Seq<ColumnV>, k: nat) -> bool
    decreases k,
{
    k > 0 && (some_reencodes(t, indices, inv, (k - 1) as nat) || (indices[k - 1] < t.fields.len()
        && reencodes_back(
        t,
        inv[first_place(indices, indices[k - 1])->0 as int],
        indices[k - 1] as int,
    )))
}

/// Restoring one of the first `k` columns that a program names changes its type.
pub open spec fn some_retypes(t: TableV, indices: Seq<u64>, inv: Seq<ColumnV>, k: nat) -> bool
    decreases k,
{
    k > 0 && (some_retypes(t, indices, inv, (k - 1) as nat) || (indices[k - 1] < t.fields.len()
        && t.fields[indices[k - 1] as int].is_scale()
        != inv[first_place(indices, indices[k - 1])->0 as int].field.is_scale()))
}

/// The columns that the redo captures: those the program names, and those it trims.
pub open spec fn redo_indices(p: BlockProgramV, n: nat) -> Seq<u64> {
    below(p.indices, n) + tail_run(p.old_cols, n as u64)
}

/// How many rows the redo captures.
pub open spec fn redo_rows(p: BlockProgramV, rows: nat, full: bool) -> u64 {
    if full {
        rows as u64
    } else if p.row >= rows {
        0
    } else if rows - p.row < p.height {
        (rows - p.row) as u64
    } else {
        p.height
    }
}

/// The first row that the redo captures.
pub open spec fn redo_start(p: BlockProgramV, rows: nat, full: bool) -> u64 {
    if full || p.row >= rows {
        0
    } else {
        p.row
    }
}

/// What the redo captures.
pub open spec fn redo_capture(t: TableV, p: BlockProgramV, inv: Seq<ColumnV>) -> Seq<ColumnV> {
    let full = some_reencodes(t, p.indices, inv, p.indices.len());
    let from = redo_start(p, t.rows, full);
    capture_of(
        t,
        redo_indices(p, t.fields.len()),
        from as int,
        from + redo_rows(p, t.rows, full),
    )
}

/// How column `j` is restored: a column that the program names gets its captured identity
/// and cells, any other one stays.
pub open spec fn restored_block_col(
    t: TableV,
    p: BlockProgramV,
    inv: Seq<ColumnV>,
    j: int,
) -> OutColV {
    match first_place(p.indices, j as u64) {
        Some(i) => restored_colv(
            inv[i as int].field,
            if j < t.fields.len() {
                Some((j, t.fields[j]))
            } else {
                None
            },
            inv[i as int],
        ),
        None => pass_colv(t, j),
    }
}

/// How the columns are restored.
pub open spec fn restored_block_cols(t: TableV, p: BlockProgramV, inv: Seq<ColumnV>) -> Seq<
    OutColV,
> {
    Seq::new(p.old_cols as nat, |j: int| restored_block_col(t, p, inv, j))
}

/// How many rows before the window stay.
pub open spec fn rows_before(p: BlockProgramV, rows: nat) -> u64 {
    let w = window_start(p);
    let a = if w < rows {
        w
    } else {
        rows as u64
    };
    if a < p.old_rows {
        a
    } else {
        p.old_rows
    }
}

/// The first row after the window.
pub open spec fn window_end(p: BlockProgramV) -> u64 {
    (window_start(p) + p.capture_rows) as u64
}

/// The segments of a restored block: the rows before the window, holes down to a window
/// beyond the extent, the window, and the rows after it.
pub open spec fn restore_table(p: BlockProgramV, rows: nat) -> Seq<Seg> {
    let w = window_start(p);
    let pre = rows_before(p, rows);
    let end = window_end(p);
    (if pre > 0 {
        seq![Seg::Copy { out: 0, old: 0, len: pre }]
    } else {
        Seq::empty()
    }) + (if w > rows {
        seq![Seg::Null { len: (w - rows) as u64 }]
    } else {
        Seq::empty()
    }) + (if p.capture_rows > 0 {
        seq![Seg::Block { out: w, len: p.capture_rows }]
    } else {
        Seq::empty()
    }) + (if p.old_rows > end {
        seq![Seg::Copy { out: end, old: end, len: (p.old_rows - end) as u64 }]
    } else {
        Seq::empty()
    })
}

/// A program together with the columns that its blob carries.
pub open spec fn block_restore(
    t: TableV,
    ops: JsonV,
    blob: Result<Option<Seq<ColumnV>>, Seq<char>>,
) -> Result<(BlockProgramV, Seq<ColumnV>), FailureV> {
    match block_program(ops) {
        Err(f) => Err(f),
        Ok(p) => if !consistent(p, t.fields.len()) {
            Err(
                FailureV::Fatal("restore_block: the program is inconsistent with the dataset"@),
            )
        } else {
            match decoded(blob) {
                Err(f) => Err(f),
                Ok(inv) => if inv.len() != p.indices.len() || inverse_rows(inv) != p.capture_rows {
                    Err(FailureV::Fatal("restore_block: the blob does not match the program"@))
                } else {
                    Ok((p, inv))
                },
            }
        },
    }
}

/// The outcome of restoring a pasted block, given what writing the redo gave.
pub open spec fn restore_block_outcome(
    t: TableV,
    num: NumeralsV,
    ops: JsonV,
    blob: Result<Option<Seq<ColumnV>>, Seq<char>>,
    revision: u64,
    w: Result<Seq<u8>, Seq<char>>,
) -> Result<OutcomeV, FailureV> {
    match block_restore(t, ops, blob) {
        Err(f) => Err(f),
        Ok((p, inv)) => match sealed_redo(w) {
            Err(f) => Err(f),
            Ok(bytes) => if some_retypes(t, p.indices, inv, p.indices.len()) && (rows_before(
                p,
                t.rows,
            ) > 0 || p.old_rows > window_end(p)) {
                Err(
                    FailureV::Fatal(
                        "output batch assembly failed: a column is not of its field's type"@,
                    ),
                )
            } else {
                let plan = restored_block_cols(t, p, inv);
                let full = some_reencodes(t, p.indices, inv, p.indices.len());
                match rewritten(t, plan, num, restore_table(p, t.rows), p.old_rows as nat) {
                    Err(f) => Err(f),
                    Ok(after) => Ok(
                        OutcomeV {
                            rows: p.old_rows,
                            schema: Some(schema_json(plan, after.cols, num)),
                            invalidation: all_stale(),
                            inverse: Some(
                                inverse_of(
                                    revision,
                                    restore_block_program(
                                        t,
                                        (p.row, p.col, p.height, p.width),
                                        full,
                                        redo_rows(p, t.rows, full),
                                        redo_indices(p, t.fields.len()),
                                        None,
                                    ),
                                ),
                            ),
                            bytes,
                            table: after,
                        },
                    ),
                }
            },
        },
    }
}

/// Reads the positions that the column entries of a program give.
fn read_indices(a: &Vec<Json>) -> (r: Vec<u64>)
    ensures
        r@ == old_indices(items(a@)),
{
    let mut out: Vec<u64> = Vec::new();
    let mut i: usize = 0;
    let ghost all = items(a@);
    assert(all.take(0) =~= Seq::empty());
    while i < a.len()
        invariant
            i <= a.len(),
            all == items(a@),
            out@ == old_indices(all.take(i as int)),
        decreases a.len() - i,
    {
        assert(all.take(i + 1).drop_last() =~= all.take(i as int));
        assert(all.take(i + 1).last() == a@[i as int]@);
        if let Some(j) = number_of(&a[i], "old_index") {
            out.push(j);
        }
        i = i + 1;
    }
    assert(all.take(all.len() as int) =~= all);
    out
}

fn number_or_zero(v: &Json, key: &str) -> (r: u64)
    ensures
        r == anchor_number(v@, key@),
{
    match number_of(v, key) {
        Some(n) => n,
        None => 0,
    }
}

/// Reads a program to restore a pasted block.
pub fn parse_block_program(ops: &Json) -> (r: Result<BlockProgram, EditFailure>)
    ensures
        match (r, block_program(ops@)) {
            (Ok(p), Ok(s)) => p@ == s,
            (Err(e), Err(f)) => e@ == f,
            _ => false,
        },
{
    let anchor = match ops.get("anchor") {
        Some(a) => a,
        None => {
            return Err(EditFailure::fault("restore_block: no anchor"));
        },
    };
    let row = u64_of(anchor, "row")?;
    let height = u64_of(anchor, "rows")?;
    let old_rows = u64_of(ops, "old_rows")?;
    let old_cols = u64_of(ops, "old_cols")?;
    let capture_rows = u64_of(ops, "capture_rows")?;
    let full = match text_of(ops, "capture") {
        Some(t) => same(t, "full"),
        None => false,
    };
    let indices = match array_of(ops, "columns") {
        Some(a) => read_indices(a),
        None => {
            return Err(EditFailure::fault("restore_block: no columns list"));
        },
    };
    Ok(
        BlockProgram {
            row,
            col: number_or_zero(anchor, "col"),
            height,
            width: number_or_zero(anchor, "cols"),
            old_rows,
            old_cols,
            capture_rows,
            full,
            indices,
        },
    )
}

/// Parts the numbers below a bound from the others.
fn part(s: &Vec<u64>, n: u64) -> (r: (Vec<u64>, Vec<u64>))
    ensures
        r.0@ == below(s@, n as nat),
        r.1@ == beyond(s@, n as nat),
        forall|i: int| 0 <= i < r.0@.len() ==> #[trigger] r.0@[i] < n,
{
    let mut a: Vec<u64> = Vec::new();
    let mut b: Vec<u64> = Vec::new();
    let mut i: usize = 0;
    assert(s@.take(0) =~= Seq::empty());
    while i < s.len()
        invariant
            i <= s.len(),
            a@ == below(s@.take(i as int), n as nat),
            b@ == beyond(s@.take(i as int), n as nat),
            forall|i: int| 0 <= i < a@.len() ==> #[trigger] a@[i] < n,
        decreases s.len() - i,
    {
        assert(s@.take(i + 1).drop_last() =~= s@.take(i as int));
        if s[i] < n {
            a.push(s[i]);
        } else {
            b.push(s[i]);
        }
        i = i + 1;
    }
    assert(s@.take(s@.len() as int) =~= s@);
    (a, b)
}

fn make_tail_run(from: u64, to: u64) -> (r: Vec<u64>)
    ensures
        r@ == tail_run(from, to),
{
    if from < to {
        make_run(from, to)
    } else {
        Vec::new()
    }
}

/// Whether a list is a run of numbers.
fn is_tail_run(s: &Vec<u64>, from: u64, to: u64) -> (r: bool)
    ensures
        r == (s@ =~= tail_run(from, to)),
{
    let ghost goal = tail_run(from, to);
    let len: u64 = if from < to {
        to - from
    } else {
        0
    };
    if s.len() as u64 != len {
        return false;
    }
    let mut i: usize = 0;
    while i < s.len()
        invariant
            i <= s.len(),
            goal == tail_run(from, to),
            s@.len() == goal.len(),
            from < to ==> s@.len() == to - from,
            from >= to ==> s@.len() == 0,
            s@.take(i as int) =~= goal.take(i as int),
        decreases s.len() - i,
    {
        assert(goal[i as int] == from + i);
        if s[i] != from + i as u64 {
            return false;
        }
        assert(s@.take(i + 1) =~= s@.take(i as int).push(s@[i as int]));
        assert(goal.take(i + 1) =~= goal.take(i as int).push(goal[i as int]));
        i = i + 1;
    }
    assert(s@.take(s@.len() as int) =~= s@);
    assert(goal.take(s@.len() as int) =~= goal);
    true
}

fn all_below(s: &Vec<u64>, n: u64) -> (r: bool)
    ensures
        r == (forall|i: int| 0 <= i < s@.len() ==> #[trigger] s@[i] < n),
{
    let mut i: usize = 0;
    while i < s.len()
        invariant
            i <= s.len(),
            forall|k: int| 0 <= k < i ==> #[trigger] s@[k] < n,
        decreases s.len() - i,
    {
        if s[i] >= n {
            assert(s@[i as int] >= n);
            return false;
        }
        i = i + 1;
    }
    true
}

fn start_of(p: &BlockProgram) -> (r: u64)
    ensures
        r == window_start(p@),
{
    if p.full {
        0
    } else {
        p.row
    }
}

/// Whether a program fits the dataset.
fn is_consistent(p: &BlockProgram, n: u64) -> (r: bool)
    ensures
        r == consistent(p@, n as nat),
{
    let parts = part(&p.indices, n);
    let inside = all_below(&p.indices, p.old_cols);
    let tail = is_tail_run(&parts.1, n, p.old_cols);
    p.indices.len() > 0 && inside && tail && start_of(p) <= u64::MAX - p.capture_rows
        && p.old_rows <= MAX_ROWS
}

/// A first place holds the number, and a number in the list has one.
pub proof fn lemma_place(s: Seq<u64>, j: u64)
    ensures
        match first_place(s, j) {
            Some(i) => i < s.len() && s[i as int] == j,
            None => !s.contains(j),
        },
        s.contains(j) ==> first_place(s, j) is Some,
    decreases s.len(),
{
    if s.len() > 0 {
        lemma_place(s.drop_last(), j);
        assert forall|i: int| 0 <= i < s.len() && s[i] == j implies s.drop_last().contains(j)
            || s.last() == j by {
            if i < s.len() - 1 {
                assert(s.drop_last()[i] == j);
            }
        }
    }
}

proof fn lemma_place_prefix(s: Seq<u64>, j: u64, k: int)
    requires
        0 <= k <= s.len(),
        first_place(s.take(k), j) is Some,
    ensures
        first_place(s, j) == first_place(s.take(k), j),
    decreases s.len() - k,
{
    if k < s.len() {
        assert(s.take(k + 1).drop_last() =~= s.take(k));
        lemma_place_prefix(s, j, k + 1);
    } else {
        assert(s.take(k) =~= s);
    }
}

/// Finds the first place of a number.
fn find_place(s: &Vec<u64>, j: u64) -> (r: Option<usize>)
    ensures
        match (r, first_place(s@, j)) {
            (Some(a), Some(b)) => a == b && a < s@.len(),
            (None, None) => true,
            _ => false,
        },
{
    let mut i: usize = 0;
    assert(s@.take(0) =~= Seq::empty());
    while i < s.len()
        invariant
            i <= s.len(),
            first_place(s@.take(i as int), j) is None,
        decreases s.len() - i,
    {
        assert(s@.take(i + 1).drop_last() =~= s@.take(i as int));
        if s[i] == j {
            proof {
                lemma_place_prefix(s@, j, i + 1);
            }
            return Some(i);
        }
        i = i + 1;
    }
    assert(s@.take(s@.len() as int) =~= s@);
    None
}

/// Whether one list begins with the other.
fn begins(a: &Vec<String>, b: &Vec<String>) -> (r: bool)
    ensures
        r == one_begins(texts(a@), texts(b@)),
{
    let n = if a.len() < b.len() {
        a.len()
    } else {
        b.len()
    };
    let ghost ta = texts(a@);
    let ghost tb = texts(b@);
    let mut i: usize = 0;
    while i < n
        invariant
            i <= n,
            n <= a.len(),
            n <= b.len(),
            ta == texts(a@),
            tb == texts(b@),
            forall|k: int| 0 <= k < i ==> ta[k] == tb[k],
        decreases n - i,
    {
        if !same(&a[i], b[i].as_str()) {
            assert(ta[i as int] != tb[i as int]);
            return false;
        }
        i = i + 1;
    }
    if a.len() < b.len() {
        assert(ta.is_prefix_of(tb));
    } else {
        assert(tb.is_prefix_of(ta));
    }
    true
}

/// Whether restoring re-encodes a column, and whether it changes the type of one.
fn find_reencoding(ds: &Dataset, indices: &Vec<u64>, inv: &InverseData) -> (r: (bool, bool))
    requires
        ds.wf(),
        indices@.len() == inv.columns@.len(),
    ensures
        r.0 == some_reencodes(
            ds.table(),
            indices@,
            column_views(inv.columns@),
            indices@.len(),
        ),
        r.1 == some_retypes(ds.table(), indices@, column_views(inv.columns@), indices@.len()),
{
    let ghost t = ds.table();
    let ghost cols = column_views(inv.columns@);
    let mut codes = false;
    let mut types = false;
    let mut k: usize = 0;
    while k < indices.len()
        invariant
            k <= indices.len(),
            ds.wf(),
            t == ds.table(),
            cols == column_views(inv.columns@),
            indices@.len() == inv.columns@.len(),
            codes == some_reencodes(t, indices@, cols, k as nat),
            types == some_retypes(t, indices@, cols, k as nat),
        decreases indices.len() - k,
    {
        let j = indices[k];
        assert(ds.fields@.len() == ds.fields.len());
        if j < ds.fields.len() as u64 {
            proof {
                lemma_place(indices@, j);
                assert(indices@[k as int] == j);
            }
            if let Some(i) = find_place(indices, j) {
                let f = &ds.fields[j as usize];
                assert(t.fields[j as int] == f@);
                assert(t.dicts[j as int] == texts(ds.dicts@[j as int]@));
                assert(cols[i as int] == inv.columns@[i as int]@);
                let differs = f.is_scale() != inv.columns[i].field.is_scale();
                if differs {
                    types = true;
                }
                if differs || !begins(&ds.dicts[j as usize], &inv.columns[i].levels) {
                    codes = true;
                }
            }
        }
        k = k + 1;
    }
    (codes, types)
}

/// Plans the restored columns.
fn plan_restored(ds: &Dataset, p: &BlockProgram, inv: &InverseData) -> (r: Vec<OutCol>)
    requires
        ds.wf(),
        consistent(p@, ds.fields@.len()),
        inv.columns@.len() == p.indices@.len(),
        levels_tidy(column_views(inv.columns@)),
    ensures
        plan_views(r@) == restored_block_cols(ds.table(), p@, column_views(inv.columns@)),
        plan_wf(r@, ds.fields@.len()),
{
    let ghost t = ds.table();
    let ghost cols = column_views(inv.columns@);
    let ghost goal = restored_block_cols(t, p@, cols);
    let n = ds.fields.len();
    let mut out: Vec<OutCol> = Vec::new();
    let mut j: u64 = 0;
    while j < p.old_cols
        invariant
            j <= p.old_cols,
            ds.wf(),
            n == ds.fields.len(),
            t == ds.table(),
            cols == column_views(inv.columns@),
            goal == restored_block_cols(t, p@, cols),
            consistent(p@, ds.fields@.len()),
            inv.columns@.len() == p.indices@.len(),
            levels_tidy(cols),
            out@.len() == j,
            plan_wf(out@, ds.fields@.len()),
            plan_views(out@) == goal.take(j as int),
        decreases p.old_cols - j,
    {
        let c = match find_place(&p.indices, j) {
            Some(i) => {
                assert(cols[i as int] == inv.columns@[i as int]@);
                let col = &inv.columns[i];
                if j < n as u64 {
                    assert(t.fields[j as int] == ds.fields@[j as int]@);
                    let alike = ds.fields[j as usize].is_scale() == col.field.is_scale();
                    restored_col(col.field.copy(), Some(j as usize), alike, col)
                } else {
                    restored_col(col.field.copy(), None, false, col)
                }
            },
            None => {
                proof {
                    lemma_place(p.indices@, j);
                    if j >= n {
                        let m = j - n;
                        assert(tail_run(n as u64, p.old_cols)[m] == j);
                        lemma_beyond(p.indices@, n as nat, j);
                    }
                }
                pass_col(ds, j as usize)
            },
        };
        assert(c@ == goal[j as int]);
        assert(c.wf(ds.fields@.len()));
        let ghost before = out@;
        out.push(c);
        assert(plan_views(out@) =~= plan_views(before).push(goal[j as int]));
        assert(plan_views(out@) =~= goal.take(j + 1));
        j = j + 1;
    }
    assert(goal.take(p.old_cols as int) =~= goal);
    out
}

proof fn lemma_beyond(s: Seq<u64>, n: nat, j: u64)
    requires
        beyond(s, n).contains(j),
    ensures
        s.contains(j),
    decreases s.len(),
{
    if s.len() > 0 {
        if s.last() >= n {
            let i = choose|i: int| 0 <= i < beyond(s, n).len() && beyond(s, n)[i] == j;
            if i < beyond(s, n).len() - 1 {
                assert(beyond(s.drop_last(), n)[i] == j);
                lemma_beyond(s.drop_last(), n, j);
                let k = choose|k: int| 0 <= k < s.len() - 1 && s.drop_last()[k] == j;
                assert(s[k] == j);
            } else {
                assert(s[s.len() - 1] == j);
            }
        } else {
            lemma_beyond(s.drop_last(), n, j);
            let k = choose|k: int| 0 <= k < s.len() - 1 && s.drop_last()[k] == j;
            assert(s[k] == j);
        }
    }
}

/// The segments of a restored block.
fn restore_segments(p: &BlockProgram, rows: u64) -> (r: Vec<Seg>)
    requires
        window_start(p@) + p.capture_rows <= u64::MAX,
    ensures
        r@ == restore_table(p@, rows as nat),
        table_rows(r@) <= u64::MAX,
{
    let w = start_of(p);
    let mut pre = w;
    if rows < pre {
        pre = rows;
    }
    if p.old_rows < pre {
        pre = p.old_rows;
    }
    let end: u64 = w + p.capture_rows;
    let mut out: Vec<Seg> = Vec::new();
    assert(table_rows(out@) == 0);
    if pre > 0 {
        let ghost before = out@;
        out.push(Seg::Copy { out: 0, old: 0, len: pre });
        assert(out@.drop_last() =~= before);
    }
    assert(table_rows(out@) == pre);
    if w > rows {
        let ghost before = out@;
        out.push(Seg::Null { len: w - rows });
        assert(out@.drop_last() =~= before);
    }
    assert(table_rows(out@) <= w);
    if p.capture_rows > 0 {
        let ghost before = out@;
        out.push(Seg::Block { out: w, len: p.capture_rows });
        assert(out@.drop_last() =~= before);
    }
    assert(table_rows(out@) <= end);
    if p.old_rows > end {
        let ghost before = out@;
        out.push(Seg::Copy { out: end, old: end, len: p.old_rows - end });
        assert(out@.drop_last() =~= before);
    }
    assert(out@ =~= restore_table(p@, rows as nat));
    out
}

/// Restores what a paste replaced; where the program is a redo, pastes again.
#[verifier::rlimit(50)]
pub fn restore_block_exec(
    ds: &Dataset,
    num: &Numerals,
    ops: &Json,
    bytes: &[u8],
    revision: u64,
) -> (r: Result<(EditOutput, Dataset), EditFailure>)
    requires
        ds.wf(),
        ds.table().supported(),
    ensures
        ({
            let t = ds.table();
            let blob = blob_columns(bytes@);
            let c = match block_restore(t, ops@, blob) {
                Ok((p, inv)) => Some(redo_capture(t, p, inv)),
                Err(_) => None,
            };
            let w = capture_file(c);
            gives(r, restore_block_outcome(t, num@, ops@, blob, revision, w)) && (r is Ok ==> wrote(
                w,
                c,
            ))
        }),
{
    let ghost t = ds.table();
    let ghost blob = blob_columns(bytes@);
    let ghost none = capture_file(
        match block_restore(t, ops@, blob) {
            Ok((p, inv)) => Some(redo_capture(t, p, inv)),
            Err(_) => None,
        },
    );
    proof {
        lemma_table_wf(*ds);
    }
    let p = match parse_block_program(ops) {
        Ok(p) => p,
        Err(e) => {
            let r = Err(e);
            assert(gives(r, restore_block_outcome(t, num@, ops@, blob, revision, none)));
            return r;
        },
    };
    let rows = ds.rows();
    let n = ds.fields.len() as u64;
    if !is_consistent(&p, n) {
        let r = Err(
            EditFailure::fault("restore_block: the program is inconsistent with the dataset"),
        );
        assert(gives(r, restore_block_outcome(t, num@, ops@, blob, revision, none)));
        return r;
    }
    let inv = match decode_inverse(bytes) {
        Ok(d) => d,
        Err(e) => {
            let r = Err(e);
            assert(gives(r, restore_block_outcome(t, num@, ops@, blob, revision, none)));
            return r;
        },
    };
    let ghost cols = column_views(inv.columns@);
    assert(cols.len() == inv.columns@.len());
    if inv.columns.len() != p.indices.len() || inv.rows() != p.capture_rows {
        let r = Err(
            EditFailure::fault("restore_block: the blob does not match the program"),
        );
        assert(gives(r, restore_block_outcome(t, num@, ops@, blob, revision, none)));
        return r;
    }
    proof {
        lemma_decoded(blob);
        assert(levels_tidy(cols));
    }
    let (full, retypes) = find_reencoding(ds, &p.indices, &inv);
    let redo_len: u64 = if full {
        rows
    } else if p.row >= rows {
        0
    } else if rows - p.row < p.height {
        rows - p.row
    } else {
        p.height
    };
    let from: u64 = if full || p.row >= rows {
        0
    } else {
        p.row
    };
    let mut js = part(&p.indices, n).0;
    let mut extra = make_tail_run(p.old_cols, n);
    let ghost head = js@;
    js.append(&mut extra);
    assert(js@ =~= redo_indices(p@, n as nat));
    assert forall|i: int| 0 <= i < js@.len() implies #[trigger] js@[i] < ds.fields@.len() by {
        if i < head.len() {
            assert(head[i] < n);
        }
    }
    let captured = capture_cols(ds, &js, from, from + redo_len);
    let write = write_columns(&captured);
    let ghost w = write_view(write);
    assert(written(w, redo_capture(t, p@, cols)));
    let redo = match seal_redo(write) {
        Ok(b) => b,
        Err(e) => {
            let r = Err(e);
            assert(gives(r, restore_block_outcome(t, num@, ops@, blob, revision, w)));
            return r;
        },
    };
    let w0 = start_of(&p);
    if retypes && ((w0 > 0 && rows > 0 && p.old_rows > 0) || p.old_rows > w0 + p.capture_rows) {
        let r = Err(
            EditFailure::fault(
                "output batch assembly failed: a column is not of its field's type",
            ),
        );
        assert(gives(r, restore_block_outcome(t, num@, ops@, blob, revision, w)));
        return r;
    }
    let plan = plan_restored(ds, &p, &inv);
    let ghost pv = plan_views(plan@);
    let segs = restore_segments(&p, rows);
    let d = match stream_rewrite(ds, &plan, num, &segs, p.old_rows) {
        Ok(d) => d,
        Err(e) => {
            let r = Err(e);
            assert(gives(r, restore_block_outcome(t, num@, ops@, blob, revision, w)));
            return r;
        },
    };
    assert forall|c: int| 0 <= c < plan@.len() implies (#[trigger] plan@[c])@.field.level() is Some by {
        assert(pv[c] == plan@[c]@);
        lemma_place(p.indices@, c as u64);
        match first_place(p.indices@, c as u64) {
            Some(i) => {
                assert(cols[i as int].field.level() is Some);
            },
            None => {
                if c >= n {
                    assert(tail_run(n, p.old_cols)[c - n] == c);
                    lemma_beyond(p.indices@, n as nat, c as u64);
                }
                assert(t.fields[c].level() is Some);
            },
        }
    }
    assert(d.table().fields.len() == plan@.len());
    let schema = wire_schema(&plan, &d, num);
    let program = make_restore_block(
        ds,
        rows,
        (p.row, p.col, p.height, p.width),
        full,
        redo_len,
        &js,
        None,
    );
    let out = EditOutput {
        rows: p.old_rows,
        schema: Some(schema),
        invalidation: Invalidation { all: Some(true), rows_from: None, rows_to: None },
        inverse_meta: Some(make_inverse(revision, program)),
        inverse_bytes: redo,
    };
    let r = Ok((out, d));
    assert(gives(r, restore_block_outcome(t, num@, ops@, blob, revision, w)));
    r
}

} // verus!
