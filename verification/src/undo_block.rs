//! What undoing and redoing a paste gives back.
use vstd::prelude::*;
use crate::capture::{blob_columns, sealed, sealed_redo, written, ColumnV};
use crate::edit_block::{
    missing_levels, output_col, output_cols, paste_capture, paste_outcome, plan_names, remap_issue,
    remap_issues, restore_block_program, used_in, window_sound, PasteV,
};
use crate::edit_cols::lemma_planned;
use crate::engine::{old_cell, planned, rewritten, seg_cell, seg_cells, walked, OutColV};
use crate::json::text_at;
use crate::messages::FailureV;
use crate::number::NumeralsV;
use crate::outcome::{capture_of, column_entries, column_entry, pass_colv, OutcomeV};
use crate::restore_block::{
    below, beyond, block_program, block_restore, consistent, first_place, lemma_place, old_indices,
    redo_capture, redo_indices, redo_rows, redo_start, reencodes_back, restore_table,
    restored_block_cols, rows_before, some_reencodes, some_retypes, tail_run, window_end,
    window_start, BlockProgramV,
};
use crate::segments::{block_table, table_overrun, table_rows, Seg};
use crate::serve::lemma_programs_differ;
use crate::table::{cell_fits, Cell, TableV, MAX_ROWS};
use crate::text::distinct;
use crate::undo::{lemma_capture_reads_back, lemma_keys, lemma_reversed_alike, regular, reversed};

verus! {

proof fn lemma_walked_add(
    oc: OutColV,
    num: NumeralsV,
    cols: Seq<Seq<Cell>>,
    n: nat,
    a: Seq<Seg>,
    b: Seq<Seg>,
)
    ensures
        walked(oc, num, cols, n, a + b) == walked(oc, num, cols, n, a) + walked(
            oc,
            num,
            cols,
            n,
            b,
        ),
        table_rows(a + b) == table_rows(a) + table_rows(b),
        table_overrun(a, n) is None && table_overrun(b, n) is None ==> table_overrun(a + b, n)
            is None,
    decreases b.len(),
{
    if b.len() == 0 {
        assert(a + b =~= a);
        assert(walked(oc, num, cols, n, a) + walked(oc, num, cols, n, b) =~= walked(
            oc,
            num,
            cols,
            n,
            a,
        ));
    } else {
        lemma_walked_add(oc, num, cols, n, a, b.drop_last());
        assert((a + b).drop_last() =~= a + b.drop_last());
        assert((a + b).last() == b.last());
        assert(walked(oc, num, cols, n, a + b) =~= walked(oc, num, cols, n, a) + walked(
            oc,
            num,
            cols,
            n,
            b,
        ));
    }
}

/// A segment that is left out where it is empty.
spec fn part(cond: bool, s: Seg) -> Seq<Seg> {
    if cond {
        seq![s]
    } else {
        Seq::empty()
    }
}

/// Rows that stay, holes, a window, and rows that stay.
spec fn four(pre: u64, hole: u64, out: u64, len: u64, from: u64, tail: u64) -> Seq<Seg> {
    part(pre > 0, Seg::Copy { out: 0, old: 0, len: pre }) + part(
        hole > 0,
        Seg::Null { len: hole },
    ) + part(len > 0, Seg::Block { out, len }) + part(
        tail > 0,
        Seg::Copy { out: from, old: from, len: tail },
    )
}

proof fn lemma_part(
    oc: OutColV,
    num: NumeralsV,
    cols: Seq<Seq<Cell>>,
    n: nat,
    cond: bool,
    s: Seg,
)
    requires
        cond == (s.rows() > 0),
    ensures
        walked(oc, num, cols, n, part(cond, s)) == seg_cells(oc, num, cols, n, s),
        table_rows(part(cond, s)) == s.rows(),
        s.overrun(n) is None ==> table_overrun(part(cond, s), n) is None,
{
    if cond {
        crate::edit_cols::lemma_one(oc, num, cols, n, s);
    } else {
        assert(seg_cells(oc, num, cols, n, s) =~= Seq::empty());
    }
}

/// The cells that such segments make.
#[verifier::rlimit(50)]
proof fn lemma_four(
    oc: OutColV,
    num: NumeralsV,
    cols: Seq<Seq<Cell>>,
    n: nat,
    pre: u64,
    hole: u64,
    out: u64,
    len: u64,
    from: u64,
    tail: u64,
)
    requires
        pre <= n,
        tail > 0 ==> from + tail <= n,
    ensures
        ({
            let s = four(pre, hole, out, len, from, tail);
            let c = walked(oc, num, cols, n, s);
            &&& table_rows(s) == pre + hole + len + tail
            &&& table_overrun(s, n) is None
            &&& c.len() == pre + hole + len + tail
            &&& forall|r: int| 0 <= r < pre ==> #[trigger] c[r] == old_cell(oc, num, cols, r)
            &&& forall|r: int| pre <= r < pre + hole ==> (#[trigger] c[r]) is None
            &&& forall|r: int|
                pre + hole <= r < pre + hole + len ==> #[trigger] c[r] == seg_cell(
                    oc,
                    num,
                    cols,
                    n,
                    Seg::Block { out, len },
                    r - pre - hole,
                )
            &&& forall|r: int|
                pre + hole + len <= r < pre + hole + len + tail ==> #[trigger] c[r] == old_cell(
                    oc,
                    num,
                    cols,
                    from + (r - pre - hole - len),
                )
        }),
{
    let a = Seg::Copy { out: 0, old: 0, len: pre };
    let b = Seg::Null { len: hole };
    let d = Seg::Block { out, len };
    let e = Seg::Copy { out: from, old: from, len: tail };
    let pa = part(pre > 0, a);
    let pb = part(hole > 0, b);
    let pd = part(len > 0, d);
    let pe = part(tail > 0, e);
    lemma_part(oc, num, cols, n, pre > 0, a);
    lemma_part(oc, num, cols, n, hole > 0, b);
    lemma_part(oc, num, cols, n, len > 0, d);
    lemma_part(oc, num, cols, n, tail > 0, e);
    lemma_walked_add(oc, num, cols, n, pa, pb);
    lemma_walked_add(oc, num, cols, n, pa + pb, pd);
    lemma_walked_add(oc, num, cols, n, pa + pb + pd, pe);
    let c = walked(oc, num, cols, n, four(pre, hole, out, len, from, tail));
    let ca = seg_cells(oc, num, cols, n, a);
    let cb = seg_cells(oc, num, cols, n, b);
    let cd = seg_cells(oc, num, cols, n, d);
    let ce = seg_cells(oc, num, cols, n, e);
    assert(c == ca + cb + cd + ce);
    assert forall|r: int| 0 <= r < pre implies #[trigger] c[r] == old_cell(oc, num, cols, r) by {
        assert(c[r] == ca[r]);
    }
    assert forall|r: int| pre <= r < pre + hole implies (#[trigger] c[r]) is None by {
        assert(c[r] == cb[r - pre]);
    }
    assert forall|r: int| pre + hole <= r < pre + hole + len implies #[trigger] c[r] == seg_cell(
        oc,
        num,
        cols,
        n,
        Seg::Block { out, len },
        r - pre - hole,
    ) by {
        assert(c[r] == cd[r - pre - hole]);
    }
    assert forall|r: int|
        pre + hole + len <= r < pre + hole + len + tail implies #[trigger] c[r] == old_cell(
        oc,
        num,
        cols,
        from + (r - pre - hole - len),
    ) by {
        assert(c[r] == ce[r - pre - hole - len]);
    }
}

/// The cells that a pasted column holds: those of the window, and around it what the old
/// column gives.
pub open spec fn block_cells(
    c: Seq<Cell>,
    oc: OutColV,
    num: NumeralsV,
    cols: Seq<Seq<Cell>>,
    n: nat,
    row: u64,
    len: u64,
) -> bool {
    &&& c.len() == if row + len > n {
        (row + len) as nat
    } else {
        n
    }
    &&& forall|r: int|
        0 <= r < c.len() && (r < row || r >= row + len) ==> #[trigger] c[r] == if r < n {
            old_cell(oc, num, cols, r)
        } else {
            None
        }
    &&& forall|r: int|
        row <= r < row + len ==> #[trigger] c[r] == seg_cell(
            oc,
            num,
            cols,
            n,
            Seg::Block { out: row, len },
            r - row,
        )
}

/// The rows of a paste are those that its segments walk.
pub proof fn lemma_block_cells(
    oc: OutColV,
    num: NumeralsV,
    cols: Seq<Seq<Cell>>,
    n: u64,
    row: u64,
    len: u64,
)
    requires
        row + len <= u64::MAX,
        len > 0,
    ensures
        block_cells(
            walked(oc, num, cols, n as nat, block_table(n, row, len)),
            oc,
            num,
            cols,
            n as nat,
            row,
            len,
        ),
        table_overrun(block_table(n, row, len), n as nat) is None,
        table_rows(block_table(n, row, len)) == if row + len > n {
            (row + len) as nat
        } else {
            n as nat
        },
{
    let pre = if row < n {
        row
    } else {
        n
    };
    let hole = if row > n {
        (row - n) as u64
    } else {
        0
    };
    let end = (row + len) as u64;
    let tail = if end < n {
        (n - end) as u64
    } else {
        0
    };
    assert(four(pre, hole, row, len, end, tail) =~= block_table(n, row, len));
    lemma_four(oc, num, cols, n as nat, pre, hole, row, len, end, tail);
}

/// The rows of a restored table add up.
spec fn extents(p: BlockProgramV, rows: nat) -> bool {
    let w = window_start(p);
    let e = w + p.capture_rows;
    &&& w + p.capture_rows <= u64::MAX
    &&& (e <= p.old_rows && (w > rows ==> rows <= p.old_rows)) || (w > p.old_rows
        && p.capture_rows == 0 && w <= rows)
    &&& p.old_rows > e ==> p.old_rows <= rows
    &&& rows <= u64::MAX
}

/// A column of the goal outside the window, where it is what the current column gives.
spec fn outside_agrees(c: TableV, g: TableV, p: BlockProgramV, j: int) -> bool {
    forall|r: int|
        0 <= r < g.rows && (r < window_start(p) || r >= window_end(p)) ==> #[trigger] g.cols[j][r]
            == if j < c.fields.len() && r < c.rows {
            c.cols[j][r]
        } else {
            None
        }
}

/// What a program and its blob must say for the goal to come out, column by column.
spec fn describes(
    c: TableV,
    g: TableV,
    p: BlockProgramV,
    inv: Seq<ColumnV>,
    j: int,
) -> bool {
    match first_place(p.indices, j as u64) {
        Some(i) => {
            &&& inv[i as int].field == g.fields[j]
            &&& inv[i as int].levels == g.dicts[j]
            &&& inv[i as int].cells.len() == p.capture_rows
            &&& forall|k: int|
                0 <= k < p.capture_rows ==> #[trigger] inv[i as int].cells[k]
                    == g.cols[j][window_start(p) + k]
            &&& outside_agrees(c, g, p, j)
            &&& j < c.fields.len() && c.fields[j].is_scale() != g.fields[j].is_scale() ==> p.full
                && p.capture_rows >= g.rows
        },
        None => {
            &&& j < c.fields.len()
            &&& g.fields[j] == c.fields[j]
            &&& g.dicts[j] == c.dicts[j]
            &&& forall|r: int|
                0 <= r < g.rows ==> #[trigger] g.cols[j][r] == if r < c.rows {
                    c.cols[j][r]
                } else {
                    None
                }
        },
    }
}

/// Where every column is described, the goal comes out.
proof fn lemma_restores(
    c: TableV,
    g: TableV,
    num: NumeralsV,
    p: BlockProgramV,
    inv: Seq<ColumnV>,
)
    requires
        extents(p, c.rows),
        p.old_rows == g.rows,
        p.old_cols == g.fields.len(),
        g.dicts.len() == g.fields.len(),
        g.cols.len() == g.fields.len(),
        forall|j: int| 0 <= j < g.cols.len() ==> (#[trigger] g.cols[j]).len() == g.rows,
        forall|j: int, i: int|
            0 <= j < g.cols.len() && 0 <= i < g.rows ==> cell_fits(
                g.fields[j],
                g.dicts[j],
                #[trigger] g.cols[j][i],
            ),
        forall|j: int| 0 <= j < g.fields.len() ==> #[trigger] describes(c, g, p, inv, j),
    ensures
        rewritten(c, restored_block_cols(c, p, inv), num, restore_table(p, c.rows), g.rows)
            == Ok::<TableV, FailureV>(g),
{
    let w = window_start(p);
    let e = window_end(p);
    let plan = restored_block_cols(c, p, inv);
    let pre = rows_before(p, c.rows);
    let hole = if w > c.rows {
        (w - c.rows) as u64
    } else {
        0
    };
    let tail = if p.old_rows > e {
        (p.old_rows - e) as u64
    } else {
        0
    };
    let segs = restore_table(p, c.rows);
    assert(four(pre, hole, w, p.capture_rows, e, tail) =~= segs);
    lemma_four(arbitrary(), num, c.cols, c.rows, pre, hole, w, p.capture_rows, e, tail);
    assert forall|j: int| 0 <= j < plan.len() implies g.fields[j] == (#[trigger] plan[j]).field
        && g.dicts[j] == plan[j].levels && g.cols[j] == walked(plan[j], num, c.cols, c.rows, segs) by {
        lemma_four(plan[j], num, c.cols, c.rows, pre, hole, w, p.capture_rows, e, tail);
        assert(describes(c, g, p, inv, j));
        let got = walked(plan[j], num, c.cols, c.rows, segs);
        assert(g.cols[j].len() == g.rows);
        assert forall|r: int| 0 <= r < g.rows implies got[r] == g.cols[j][r] by {
            if pre + hole <= r < pre + hole + p.capture_rows {
                if first_place(p.indices, j as u64) is Some {
                    let i = first_place(p.indices, j as u64)->0 as int;
                    assert(r == w + (r - w));
                    assert(inv[i].cells[r - w] == g.cols[j][w + (r - w)]);
                }
            }
        }
        assert(got =~= g.cols[j]);
    }
    lemma_planned(c, plan, num, segs, g);
}

/// The keys of a program that restores a block differ.
pub proof fn lemma_block_keys()
    ensures
        "v"@ != "anchor"@,
        "op"@ != "anchor"@,
        "op"@ != "capture"@,
        "op"@ != "capture_rows"@,
        "op"@ != "trim_rows_from"@,
        "op"@ != "trim_cols_from"@,
        "anchor"@ != "old_rows"@,
        "anchor"@ != "old_cols"@,
        "anchor"@ != "capture"@,
        "anchor"@ != "capture_rows"@,
        "anchor"@ != "columns"@,
        "anchor"@ != "trim_rows_from"@,
        "anchor"@ != "trim_cols_from"@,
        "row"@ != "col"@,
        "row"@ != "rows"@,
        "row"@ != "cols"@,
        "col"@ != "rows"@,
        "col"@ != "cols"@,
        "rows"@ != "cols"@,
        "old_rows"@ != "capture"@,
        "old_rows"@ != "capture_rows"@,
        "old_rows"@ != "trim_rows_from"@,
        "old_rows"@ != "trim_cols_from"@,
        "old_cols"@ != "capture"@,
        "old_cols"@ != "capture_rows"@,
        "old_cols"@ != "trim_rows_from"@,
        "old_cols"@ != "trim_cols_from"@,
        "capture"@ != "capture_rows"@,
        "capture"@ != "columns"@,
        "capture"@ != "trim_rows_from"@,
        "capture"@ != "trim_cols_from"@,
        "capture_rows"@ != "columns"@,
        "capture_rows"@ != "trim_rows_from"@,
        "capture_rows"@ != "trim_cols_from"@,
        "columns"@ != "trim_rows_from"@,
        "columns"@ != "trim_cols_from"@,
        "full"@ != "rect"@,
        "old_index"@ != "name"@,
        "old_index"@ != "type"@,
{
    reveal_strlit("v");
    reveal_strlit("op");
    reveal_strlit("anchor");
    reveal_strlit("row");
    reveal_strlit("col");
    reveal_strlit("rows");
    reveal_strlit("cols");
    reveal_strlit("old_rows");
    reveal_strlit("old_cols");
    reveal_strlit("capture");
    reveal_strlit("capture_rows");
    reveal_strlit("columns");
    reveal_strlit("trim_rows_from");
    reveal_strlit("trim_cols_from");
    reveal_strlit("full");
    reveal_strlit("rect");
    reveal_strlit("old_index");
    reveal_strlit("name");
    reveal_strlit("type");
    assert("v"@.len() == 1 && "op"@.len() == 2 && "anchor"@.len() == 6);
    assert("row"@.len() == 3 && "col"@.len() == 3 && "rows"@.len() == 4 && "cols"@.len() == 4);
    assert("row"@[0] == 'r' && "col"@[0] == 'c' && "rows"@[0] == 'r' && "cols"@[0] == 'c');
    assert("old_rows"@.len() == 8 && "old_cols"@.len() == 8 && "capture"@.len() == 7);
    assert("capture_rows"@.len() == 12 && "columns"@.len() == 7);
    assert("capture"@[1] == 'a' && "columns"@[1] == 'o');
    assert("trim_rows_from"@.len() == 14 && "trim_cols_from"@.len() == 14);
    assert("full"@[0] == 'f' && "rect"@[0] == 'r');
    assert("old_index"@.len() == 9 && "name"@.len() == 4 && "type"@.len() == 4);
}

proof fn lemma_old_indices(t: TableV, js: Seq<u64>)
    ensures
        old_indices(column_entries(t, js)) == js,
    decreases js.len(),
{
    let a = column_entries(t, js);
    if js.len() > 0 {
        lemma_old_indices(t, js.drop_last());
        assert(a.drop_last() =~= column_entries(t, js.drop_last()));
        lemma_block_keys();
        assert(a.last() == column_entry(js.last(), t.fields[js.last() as int]));
        assert(js.drop_last().push(js.last()) =~= js);
    } else {
        assert(a =~= Seq::empty());
        assert(js =~= Seq::empty());
    }
}

/// A program reads back as it was made.
proof fn lemma_block_program(
    t: TableV,
    anchor: (u64, u64, u64, u64),
    full: bool,
    capture_rows: u64,
    columns: Seq<u64>,
    trim: Option<(Option<u64>, Option<u64>)>,
)
    ensures
        ({
            let ops = restore_block_program(t, anchor, full, capture_rows, columns, trim);
            &&& text_at(ops, "op"@) == Some("restore_block"@)
            &&& block_program(ops) == Ok::<BlockProgramV, FailureV>(
                BlockProgramV {
                    row: anchor.0,
                    col: anchor.1,
                    height: anchor.2,
                    width: anchor.3,
                    old_rows: t.rows as u64,
                    old_cols: t.fields.len() as u64,
                    capture_rows,
                    full,
                    indices: columns,
                },
            )
        }),
{
    lemma_block_keys();
    lemma_keys();
    lemma_programs_differ();
    lemma_old_indices(t, columns);
}

proof fn lemma_parts(s: Seq<u64>, n: nat)
    requires
        forall|i: int| 0 <= i < s.len() ==> #[trigger] s[i] < n,
    ensures
        below(s, n) == s,
        beyond(s, n) == Seq::<u64>::empty(),
    decreases s.len(),
{
    if s.len() > 0 {
        assert forall|i: int| 0 <= i < s.drop_last().len() implies #[trigger] s.drop_last()[i] < n by {
            assert(s.drop_last()[i] == s[i]);
        }
        lemma_parts(s.drop_last(), n);
        assert(s.last() == s[s.len() - 1]);
        assert(s.drop_last().push(s.last()) =~= s);
    } else {
        assert(s =~= Seq::empty());
    }
}

proof fn lemma_parts_add(a: Seq<u64>, b: Seq<u64>, n: nat)
    requires
        forall|i: int| 0 <= i < a.len() ==> #[trigger] a[i] < n,
        forall|i: int| 0 <= i < b.len() ==> #[trigger] b[i] >= n,
    ensures
        beyond(a + b, n) == b,
    decreases b.len(),
{
    if b.len() == 0 {
        assert(a + b =~= a);
        lemma_parts(a, n);
        assert(b =~= Seq::empty());
    } else {
        assert((a + b).drop_last() =~= a + b.drop_last());
        assert forall|i: int| 0 <= i < b.drop_last().len() implies #[trigger] b.drop_last()[i] >= n by {
            assert(b.drop_last()[i] == b[i]);
        }
        lemma_parts_add(a, b.drop_last(), n);
        assert((a + b).last() == b.last());
        assert(b.last() == b[b.len() - 1]);
        assert(b.drop_last().push(b.last()) =~= b);
    }
}

/// A paste that gave an outcome: a block with cells, and a window that was accepted.
pub open spec fn pastable(p: PasteV) -> bool {
    &&& regular(p.t)
    &&& p.height() > 0
    &&& p.width() > 0
    &&& window_sound(p)
    &&& forall|c: int| #[trigger] p.remaps(c) ==> distinct(p.entry(c)->0.levels->0)
}

/// A dictionary that a paste replaces lists no level twice. Where it does, and begins with the
/// declared levels, the cells beside the paste change places and the redo does not find them.
pub open spec fn replaces_plain(p: PasteV) -> bool {
    forall|c: int| #[trigger] p.remaps(c) ==> distinct(p.t.dicts[p.col + c])
}

/// The plan of a paste, column by column.
pub proof fn lemma_output_at(p: PasteV, k: nat, j: int)
    requires
        output_cols(p, k) is Ok,
        0 <= j < k,
    ensures
        ({
            let q = output_cols(p, k)->Ok_0.0;
            &&& q.len() == k
            &&& output_col(p, j, plan_names(q.take(j))) is Ok
            &&& q[j] == output_col(p, j, plan_names(q.take(j)))->Ok_0.0
        }),
    decreases k,
{
    let q = output_cols(p, k)->Ok_0.0;
    let prev = output_cols(p, (k - 1) as nat)->Ok_0.0;
    lemma_output_len(p, k);
    lemma_output_len(p, (k - 1) as nat);
    if j < k - 1 {
        lemma_output_at(p, (k - 1) as nat, j);
        assert(q.take(j) =~= prev.take(j));
        assert(q[j] == prev[j]);
    } else {
        assert(q.take(j) =~= prev);
    }
}

pub proof fn lemma_output_len(p: PasteV, k: nat)
    requires
        output_cols(p, k) is Ok,
    ensures
        output_cols(p, k)->Ok_0.0.len() == k,
    decreases k,
{
    if k > 0 {
        lemma_output_len(p, (k - 1) as nat);
    }
}

/// A scale column of a plan has no dictionary, and every column has a level.
proof fn lemma_output_tidy(p: PasteV, j: int, used: Seq<Seq<char>>)
    requires
        pastable(p),
        output_col(p, j, used) is Ok,
        0 <= j,
    ensures
        ({
            let oc = output_col(p, j, used)->Ok_0.0;
            &&& !(oc.field.kind is Dictionary) ==> oc.levels =~= Seq::empty()
            &&& oc.field.level() is Some
        }),
{
    let t = p.t;
    let c = j - p.col;
    if j < t.fields.len() {
        assert(t.fields[j].level() is Some);
        assert(!(t.fields[j].kind is Dictionary) ==> t.dicts[j] =~= Seq::empty());
        if 0 <= c < p.width() && p.remaps(c) {
            assert(!p.t.fields[p.col + c].is_scale());
        }
    }
}

/// What a paste makes of the table.
pub proof fn lemma_pasted(p: PasteV, revision: u64, w: Result<Seq<u8>, Seq<char>>)
    requires
        pastable(p),
        paste_outcome(p, revision, w) is Ok,
    ensures
        ({
            let t = p.t;
            let g = paste_outcome(p, revision, w)->Ok_0.table;
            let q = output_cols(p, p.new_cols())->Ok_0.0;
            &&& p.row + p.height() <= MAX_ROWS
            &&& p.col + p.width() <= u64::MAX
            &&& output_cols(p, p.new_cols()) is Ok
            &&& q.len() == p.new_cols()
            &&& g.wf()
            &&& g.supported()
            &&& g.rows == p.new_rows()
            &&& g.fields.len() == p.new_cols()
            &&& forall|j: int| #![trigger g.fields[j]]
                0 <= j < p.new_cols() ==> g.fields[j] == q[j].field
            &&& forall|j: int| #![trigger g.dicts[j]]
                0 <= j < p.new_cols() ==> g.dicts[j] == q[j].levels
            &&& forall|j: int| #![trigger g.cols[j]]
                0 <= j < p.new_cols() ==> block_cells(
                    g.cols[j],
                    q[j],
                    p.num,
                    t.cols,
                    t.rows,
                    p.row,
                    p.height() as u64,
                )
            &&& remap_issues(p, p.width()) is None
        }),
{
    let t = p.t;
    let o = paste_outcome(p, revision, w)->Ok_0;
    let g = o.table;
    let q = output_cols(p, p.new_cols())->Ok_0.0;
    let segs = block_table(t.rows as u64, p.row, p.height() as u64);
    lemma_output_len(p, p.new_cols());
    assert(g == planned(t, q, p.num, segs, p.new_rows()));
    assert forall|j: int| #![trigger g.cols[j]] 0 <= j < p.new_cols() implies block_cells(
        g.cols[j],
        q[j],
        p.num,
        t.cols,
        t.rows,
        p.row,
        p.height() as u64,
    ) by {
        lemma_block_cells(q[j], p.num, t.cols, t.rows as u64, p.row, p.height() as u64);
    }
    assert forall|j: int| 0 <= j < q.len() implies (!((#[trigger] q[j]).field.kind is Dictionary)
        ==> q[j].levels =~= Seq::empty()) && q[j].field.level() is Some by {
        lemma_output_at(p, p.new_cols(), j);
        lemma_output_tidy(p, j, plan_names(q.take(j)));
    }
    assert forall|j: int| 0 <= j < g.cols.len() implies (#[trigger] g.cols[j]).len() == g.rows by {
        assert(block_cells(
            g.cols[j],
            q[j],
            p.num,
            t.cols,
            t.rows,
            p.row,
            p.height() as u64,
        ));
    }
    assert forall|j: int, i: int| 0 <= j < g.cols.len() && 0 <= i < g.rows implies cell_fits(
        g.fields[j],
        g.dicts[j],
        #[trigger] g.cols[j][i],
    ) by {
        assert(g.cols[j] == walked(q[j], p.num, t.cols, t.rows, segs));
    }
    assert forall|j: int| 0 <= j < g.dicts.len() && !(g.fields[j].kind is Dictionary) implies (
    #[trigger] g.dicts[j]) =~= Seq::empty() by {
        assert(q[j].levels =~= Seq::empty());
    }
    assert forall|j: int| 0 <= j < g.fields.len() implies (#[trigger] g.fields[j]).level() is Some by {
        assert(q[j].field.level() is Some);
    }
}

/// The places of the columns that a paste lands on.
proof fn lemma_touched(p: PasteV)
    requires
        p.t.fields.len() <= usize::MAX,
        p.col + p.width() <= u64::MAX,
    ensures
        forall|j: int| #![trigger first_place(p.touched(), j as u64)]
            0 <= j < p.new_cols() ==> first_place(p.touched(), j as u64) == if p.col <= j < p.col
                + p.width() && j < p.t.fields.len() {
                Some((j - p.col) as nat)
            } else {
                None
            },
        forall|i: int|
            0 <= i < p.touched().len() ==> #[trigger] p.touched()[i] == p.col + i
                && p.touched()[i] < p.t.fields.len(),
        p.touched().len() <= p.width(),
{
    let s = p.touched();
    assert forall|j: int| #![trigger first_place(s, j as u64)] 0 <= j < p.new_cols() implies
        first_place(s, j as u64) == if p.col <= j < p.col + p.width() && j < p.t.fields.len() {
        Some((j - p.col) as nat)
    } else {
        None
    } by {
        lemma_place(s, j as u64);
        if p.col <= j < p.col + p.width() && j < p.t.fields.len() {
            assert(s[j - p.col] == j as u64);
        } else if s.contains(j as u64) {
            let i = choose|i: int| 0 <= i < s.len() && s[i] == j as u64;
            assert(s[i] == p.col + i);
        }
    }
}

proof fn lemma_reencodes(p: PasteV, k: nat, c: int)
    requires
        0 <= c < k,
        p.promotes(c) || p.remaps(c),
    ensures
        p.reencodes_before(k),
    decreases k,
{
    if c < k - 1 {
        lemma_reencodes(p, (k - 1) as nat, c);
    }
}

proof fn lemma_no_retype(p: PasteV, g: TableV, inv: Seq<ColumnV>, k: nat)
    requires
        pastable(p),
        !p.reencodes(),
        p.col + p.width() <= u64::MAX,
        k <= p.touched().len(),
        inv.len() == p.touched().len(),
        g.fields.len() == p.new_cols(),
        output_cols(p, p.new_cols()) is Ok,
        forall|j: int| #![trigger g.fields[j]]
            0 <= j < p.new_cols() ==> g.fields[j] == output_cols(
                p,
                p.new_cols(),
            )->Ok_0.0[j].field,
        forall|i: int|
            0 <= i < inv.len() ==> (#[trigger] inv[i]).field == p.t.fields[p.touched()[i] as int],
    ensures
        !some_retypes(g, p.touched(), inv, k),
    decreases k,
{
    if k > 0 {
        lemma_no_retype(p, g, inv, (k - 1) as nat);
        lemma_touched(p);
        let j = p.touched()[k - 1];
        assert(j == p.col + (k - 1));
        let c = k - 1;
        assert(first_place(p.touched(), (j as int) as u64) == Some((j - p.col) as nat));
        lemma_output_at(p, p.new_cols(), j as int);
        if p.promotes(c) || p.remaps(c) {
            lemma_reencodes(p, p.width(), c);
        }
        assert(inv[c].field == p.t.fields[p.touched()[c] as int]);
    }
}

/// The program that undoes a paste.
spec fn undo_program(p: PasteV) -> BlockProgramV {
    BlockProgramV {
        row: p.row,
        col: p.col,
        height: p.height() as u64,
        width: p.width() as u64,
        old_rows: p.t.rows as u64,
        old_cols: p.t.fields.len() as u64,
        capture_rows: if p.reencodes() {
            p.t.rows as u64
        } else {
            p.overlap() as u64
        },
        full: p.reencodes(),
        indices: p.touched(),
    }
}

/// The undo of a paste describes each column.
proof fn lemma_undo_describes(
    p: PasteV,
    revision: u64,
    w: Result<Seq<u8>, Seq<char>>,
    j: int,
)
    requires
        pastable(p),
        paste_outcome(p, revision, w) is Ok,
        0 <= j < p.t.fields.len(),
    ensures
        describes(
            paste_outcome(p, revision, w)->Ok_0.table,
            p.t,
            undo_program(p),
            paste_capture(p),
            j,
        ),
{
    let t = p.t;
    let g = paste_outcome(p, revision, w)->Ok_0.table;
    let bp = undo_program(p);
    let inv = paste_capture(p);
    let q = output_cols(p, p.new_cols())->Ok_0.0;
    let js = p.touched();
    lemma_pasted(p, revision, w);
    lemma_touched(p);
    assert(block_cells(g.cols[j], q[j], p.num, t.cols, t.rows, p.row, p.height() as u64)) by {
        assert(g.cols[j].len() == g.rows);
    }
    lemma_output_at(p, p.new_cols(), j);
    assert(g.fields[j] == q[j].field);
    assert(g.dicts[j] == q[j].levels);
    assert(t.cols[j].len() == t.rows);
    let c = j - p.col;
    assert(first_place(js, j as u64) == if p.col <= j < p.col + p.width() {
        Some((j - p.col) as nat)
    } else {
        None
    });
    if p.col <= j < p.col + p.width() {
        assert(js[c] == j);
        assert(inv[c].field == t.fields[j]);
        assert(inv[c].levels == t.dicts[j]);
        assert forall|k: int| 0 <= k < bp.capture_rows implies #[trigger] inv[c].cells[k]
            == t.cols[j][window_start(bp) + k] by {}
        if !p.reencodes() {
            if p.promotes(c) || p.remaps(c) {
                lemma_reencodes(p, p.width(), c);
            }
            assert forall|r: int|
                0 <= r < t.rows && (r < window_start(bp) || r >= window_end(bp)) implies
                #[trigger] t.cols[j][r] == if j < g.fields.len() && r < g.rows {
                g.cols[j][r]
            } else {
                None
            } by {
                assert(g.cols[j][r] == old_cell(q[j], p.num, t.cols, r));
            }
        }
    } else {
        assert(q[j] == pass_colv(t, j));
        assert forall|r: int| 0 <= r < t.rows implies #[trigger] t.cols[j][r] == if r
            < g.rows {
            g.cols[j][r]
        } else {
            None
        } by {
            if r < p.row || r >= p.row + p.height() {
                assert(g.cols[j][r] == old_cell(q[j], p.num, t.cols, r));
            } else {
                assert(g.cols[j][r] == seg_cell(
                    q[j],
                    p.num,
                    t.cols,
                    t.rows,
                    Seg::Block { out: p.row, len: p.height() as u64 },
                    r - p.row,
                ));
            }
        }
    }
}

/// What the undo of a paste comes to.
#[verifier::rlimit(50)]
proof fn lemma_undo_block(
    p: PasteV,
    revision: u64,
    w: Result<Seq<u8>, Seq<char>>,
)
    requires
        pastable(p),
        p.touched().len() > 0,
        written(w, paste_capture(p)),
        paste_outcome(p, revision, w) is Ok,
    ensures
        ({
            let o = paste_outcome(p, revision, w)->Ok_0;
            let g = o.table;
            let bp = undo_program(p);
            let inv = paste_capture(p);
            &&& o.inverse is Some
            &&& text_at(o.inverse->0.ops, "op"@) == Some("restore_block"@)
            &&& block_restore(g, o.inverse->0.ops, blob_columns(o.bytes)) == Ok::<
                (BlockProgramV, Seq<ColumnV>),
                FailureV,
            >((bp, inv))
            &&& inv.len() == p.touched().len()
            &&& forall|i: int|
                0 <= i < inv.len() ==> (#[trigger] inv[i]).field
                    == p.t.fields[p.touched()[i] as int] && inv[i].levels
                    == p.t.dicts[p.touched()[i] as int]
            &&& !(some_retypes(g, bp.indices, inv, bp.indices.len()) && (rows_before(bp, g.rows)
                > 0 || bp.old_rows > window_end(bp)))
            &&& rewritten(
                g,
                restored_block_cols(g, bp, inv),
                p.num,
                restore_table(bp, g.rows),
                p.t.rows,
            ) == Ok::<TableV, FailureV>(p.t)
        }),
{
    let t = p.t;
    let n = t.fields.len();
    let o = paste_outcome(p, revision, w)->Ok_0;
    let g = o.table;
    let bp = undo_program(p);
    let inv = paste_capture(p);
    let q = output_cols(p, p.new_cols())->Ok_0.0;
    let js = p.touched();
    lemma_pasted(p, revision, w);
    lemma_touched(p);
    lemma_block_program(
        t,
        (p.row, p.col, p.height() as u64, p.width() as u64),
        p.reencodes(),
        bp.capture_rows,
        js,
        Some(
            (
                if p.new_rows() > t.rows {
                    Some(t.rows as u64)
                } else {
                    None
                },
                if p.new_cols() > n {
                    Some(n as u64)
                } else {
                    None
                },
            ),
        ),
    );
    assert forall|i: int| 0 <= i < js.len() implies #[trigger] js[i] < t.fields.len() by {}
    let from: int = if p.reencodes() {
        0
    } else if p.row < t.rows {
        p.row as int
    } else {
        t.rows as int
    };
    let to: int = from + bp.capture_rows;
    assert(inv =~= capture_of(t, js, from, to));
    assert(sealed(w) is Ok);
    lemma_capture_reads_back(t, js, from, to, o.bytes);
    assert(consistent(bp, g.fields.len())) by {
        assert forall|i: int| 0 <= i < bp.indices.len() implies #[trigger] bp.indices[i]
            < g.fields.len() by {}
        lemma_parts(bp.indices, g.fields.len());
    }
    if !p.reencodes() {
        lemma_no_retype(p, g, inv, js.len());
    }
    assert forall|j: int| 0 <= j < t.fields.len() implies #[trigger] describes(
        g,
        t,
        bp,
        inv,
        j,
    ) by {
        lemma_undo_describes(p, revision, w, j);
    }
    lemma_restores(g, t, p.num, bp, inv);
}

/// Undoing a paste that landed on a column gives back the table, unless the redo cannot be
/// captured.
pub proof fn law_undo_insert_block(
    p: PasteV,
    num2: NumeralsV,
    revision: u64,
    later: u64,
    w: Result<Seq<u8>, Seq<char>>,
    w2: Result<Seq<u8>, Seq<char>>,
)
    requires
        pastable(p),
        p.touched().len() > 0,
        written(w, paste_capture(p)),
        paste_outcome(p, revision, w) is Ok,
        revision <= later,
    ensures
        ({
            let o = paste_outcome(p, revision, w)->Ok_0;
            let u = reversed(o, num2, later, w2);
            match sealed_redo(w2) {
                Ok(_) => u is Ok && u->Ok_0.table == p.t,
                Err(f) => u == Err::<OutcomeV, FailureV>(f),
            }
        }),
{
    lemma_undo_block(p, revision, w);
    lemma_block_keys();
    lemma_keys();
    lemma_programs_differ();
    lemma_reversed_alike(paste_outcome(p, revision, w)->Ok_0, p.num, num2, later, w2);
}

/// Whether the undo of a paste re-encodes a column.
spec fn recodes(p: PasteV, g: TableV) -> bool {
    some_reencodes(g, p.touched(), paste_capture(p), p.touched().len())
}

/// The program that redoes a paste which made the table `g`.
spec fn redo_program(p: PasteV, g: TableV) -> BlockProgramV {
    let bp = undo_program(p);
    BlockProgramV {
        row: p.row,
        col: p.col,
        height: p.height() as u64,
        width: p.width() as u64,
        old_rows: g.rows as u64,
        old_cols: g.fields.len() as u64,
        capture_rows: redo_rows(bp, g.rows, recodes(p, g)),
        full: recodes(p, g),
        indices: redo_indices(bp, g.fields.len()),
    }
}

proof fn lemma_not_reencoded(
    t: TableV,
    indices: Seq<u64>,
    inv: Seq<ColumnV>,
    k: nat,
    i: int,
)
    requires
        !some_reencodes(t, indices, inv, k),
        0 <= i < k,
        indices[i] < t.fields.len(),
    ensures
        !reencodes_back(t, inv[first_place(indices, indices[i])->0 as int], indices[i] as int),
    decreases k,
{
    if i < k - 1 {
        lemma_not_reencoded(t, indices, inv, (k - 1) as nat, i);
    }
}

/// The places of the columns that the redo of a paste names.
proof fn lemma_redo_places(p: PasteV, j: int)
    requires
        p.t.fields.len() <= usize::MAX,
        p.col + p.width() <= u64::MAX,
        0 <= j < p.new_cols(),
    ensures
        ({
            let s = redo_indices(undo_program(p), p.new_cols());
            let n = p.t.fields.len();
            let m = p.touched().len();
            &&& s == p.touched() + tail_run(n as u64, p.new_cols() as u64)
            &&& first_place(s, j as u64) == if p.col <= j < p.col + p.width() && j < n {
                Some((j - p.col) as nat)
            } else if j >= n {
                Some((m + j - n) as nat)
            } else {
                None
            }
        }),
{
    let s = redo_indices(undo_program(p), p.new_cols());
    let n = p.t.fields.len();
    let a = p.touched();
    let b = tail_run(n as u64, p.new_cols() as u64);
    lemma_touched(p);
    assert forall|i: int| 0 <= i < a.len() implies #[trigger] a[i] < p.new_cols() by {}
    lemma_parts(a, p.new_cols());
    lemma_place(s, j as u64);
    if p.col <= j < p.col + p.width() && j < n {
        assert(s[j - p.col] == j as u64);
    } else if j >= n {
        assert(s[a.len() + j - n] == j as u64);
    } else if s.contains(j as u64) {
        let i = choose|i: int| 0 <= i < s.len() && s[i] == j as u64;
        if i < a.len() {
            assert(a[i] == p.col + i);
        } else {
            assert(b[i - a.len()] == n + (i - a.len()));
        }
    }
    match first_place(s, j as u64) {
        Some(i) => {
            if i < a.len() {
                assert(a[i as int] == p.col + i);
            } else {
                assert(b[i - a.len()] == n + (i - a.len()));
            }
        },
        None => {},
    }
}

pub proof fn lemma_remap_issue_none(p: PasteV, k: nat, c: int)
    requires
        remap_issues(p, k) is None,
        0 <= c < k,
    ensures
        remap_issue(p, c) is None,
    decreases k,
{
    if c < k - 1 {
        lemma_remap_issue_none(p, (k - 1) as nat, c);
    }
}

/// Where no level is missing, a declared list holds every level in use.
pub proof fn lemma_none_missing(
    levels: Seq<Seq<char>>,
    a: Seq<Cell>,
    b: Seq<Cell>,
    declared: Seq<Seq<char>>,
    k: int,
)
    requires
        missing_levels(levels, a, b, declared).len() == 0,
        0 <= k < levels.len(),
        used_in(a, k as u64) || used_in(b, k as u64),
        levels.len() <= u64::MAX,
    ensures
        declared.contains(levels[k]),
    decreases levels.len(),
{
    if k < levels.len() - 1 {
        assert(levels.drop_last()[k] == levels[k]);
        lemma_none_missing(levels.drop_last(), a, b, declared, k);
    }
}

/// Where one of two lists without repeats begins with the other, a common text has the same
/// place in both.
proof fn lemma_same_place(a: Seq<Seq<char>>, b: Seq<Seq<char>>, i: int, k: int)
    requires
        distinct(a),
        distinct(b),
        crate::restore_block::one_begins(a, b),
        0 <= i < a.len(),
        0 <= k < b.len(),
        a[i] == b[k],
    ensures
        i == k,
{
    if a.is_prefix_of(b) {
        assert(a[i] == b[i]);
    } else {
        assert(b[k] == a[k]);
    }
}

/// Outside the block, a column that was not re-encoded keeps its cells.
proof fn lemma_kept_cell(
    p: PasteV,
    revision: u64,
    w: Result<Seq<u8>, Seq<char>>,
    j: int,
    r: int,
)
    requires
        pastable(p),
        replaces_plain(p),
        paste_outcome(p, revision, w) is Ok,
        0 <= j < p.t.fields.len(),
        p.col <= j < p.col + p.width(),
        !reencodes_back(
            paste_outcome(p, revision, w)->Ok_0.table,
            ColumnV {
                field: p.t.fields[j],
                levels: p.t.dicts[j],
                cells: paste_capture(p)[j - p.col].cells,
            },
            j,
        ),
        0 <= r < p.t.rows,
        r < p.row || r >= p.row + p.height(),
    ensures
        paste_outcome(p, revision, w)->Ok_0.table.cols[j][r] == p.t.cols[j][r],
{
    let t = p.t;
    let g = paste_outcome(p, revision, w)->Ok_0.table;
    let q = output_cols(p, p.new_cols())->Ok_0.0;
    lemma_pasted(p, revision, w);
    lemma_output_at(p, p.new_cols(), j);
    assert(g.cols[j].len() == g.rows);
    assert(g.fields[j] == q[j].field);
    assert(g.dicts[j] == q[j].levels);
    assert(g.cols[j][r] == old_cell(q[j], p.num, t.cols, r));
    let c = j - p.col;
    let cell = t.cols[j][r];
    assert(t.cols[j].len() == t.rows);
    if p.remaps(c) && cell is Some {
        let k = cell->0;
        let levels = p.entry(c)->0.levels->0;
        let olds = t.dicts[j];
        assert(!p.t.fields[p.col + c].is_scale());
        assert(t.fields[j].level() is Some);
        assert(cell_fits(t.fields[j], olds, cell));
        lemma_remap_issue_none(p, p.width(), c);
        let a = p.before(t.cols[j]);
        let b = p.after(t.cols[j]);
        if r < p.row {
            assert(a[r] == cell);
        } else {
            assert(b[r - p.row - p.height()] == cell);
        }
        lemma_none_missing(olds, a, b, levels, k as int);
        crate::text::lemma_index_of(levels, olds[k as int]);
        let i = crate::text::index_of(levels, olds[k as int])->0 as int;
        lemma_same_place(levels, olds, i, k as int);
    }
}

/// The redo of a paste describes each column.
#[verifier::rlimit(50)]
proof fn lemma_redo_describes(
    p: PasteV,
    revision: u64,
    w: Result<Seq<u8>, Seq<char>>,
    j: int,
)
    requires
        pastable(p),
        replaces_plain(p),
        p.touched().len() > 0,
        paste_outcome(p, revision, w) is Ok,
        0 <= j < p.new_cols(),
    ensures
        ({
            let g = paste_outcome(p, revision, w)->Ok_0.table;
            describes(
                p.t,
                g,
                redo_program(p, g),
                redo_capture(g, undo_program(p), paste_capture(p)),
                j,
            )
        }),
{
    let t = p.t;
    let n = t.fields.len();
    let g = paste_outcome(p, revision, w)->Ok_0.table;
    let rp = redo_program(p, g);
    let bp = undo_program(p);
    let inv = paste_capture(p);
    let inv2 = redo_capture(g, bp, inv);
    let q = output_cols(p, p.new_cols())->Ok_0.0;
    lemma_pasted(p, revision, w);
    lemma_touched(p);
    lemma_redo_places(p, j);
    lemma_output_at(p, p.new_cols(), j);
    assert(g.cols[j].len() == g.rows);
    assert(g.fields[j] == q[j].field);
    assert(g.dicts[j] == q[j].levels);
    let full = recodes(p, g);
    if p.col <= j < p.col + p.width() && j < n {
        let c = j - p.col;
        assert(p.touched()[c] == j);
        assert(inv2[c].field == g.fields[j]);
        assert(inv2[c].levels == g.dicts[j]);
        if !full {
            lemma_not_reencoded(g, p.touched(), inv, p.touched().len(), c);
            assert(first_place(p.touched(), j as u64) == Some(c as nat));
            assert(inv[c].field == t.fields[j]);
            assert(inv[c].levels == t.dicts[j]);
            assert forall|r: int|
                0 <= r < g.rows && (r < window_start(rp) || r >= window_end(rp)) implies
                #[trigger] g.cols[j][r] == if j < t.fields.len() && r < t.rows {
                t.cols[j][r]
            } else {
                None
            } by {
                if r < t.rows {
                    lemma_kept_cell(p, revision, w, j, r);
                }
            }
        }
    } else if j >= n {
        let i = p.touched().len() + j - n;
        assert(tail_run(n as u64, p.new_cols() as u64)[j - n] == j);
        assert(inv2[i].field == g.fields[j]);
        assert(inv2[i].levels == g.dicts[j]);
        assert(q[j].old is None);
        assert forall|r: int|
            0 <= r < g.rows && (r < window_start(rp) || r >= window_end(rp)) implies
            #[trigger] g.cols[j][r] is None by {
            if r < t.rows {
                assert(g.cols[j][r] == old_cell(q[j], p.num, t.cols, r));
            }
        }
    } else {
        assert(q[j] == pass_colv(t, j));
        assert forall|r: int| 0 <= r < g.rows implies #[trigger] g.cols[j][r] == if r < t.rows {
            t.cols[j][r]
        } else {
            None
        } by {
            if r < p.row || r >= p.row + p.height() {
                assert(r < t.rows ==> g.cols[j][r] == old_cell(q[j], p.num, t.cols, r));
            } else {
                assert(g.cols[j][r] == seg_cell(
                    q[j],
                    p.num,
                    t.cols,
                    t.rows,
                    Seg::Block { out: p.row, len: p.height() as u64 },
                    r - p.row,
                ));
            }
        }
    }
}

proof fn lemma_redo_types(p: PasteV, g: TableV, inv2: Seq<ColumnV>, k: nat)
    requires
        pastable(p),
        p.col + p.width() <= u64::MAX,
        g.fields.len() == p.new_cols(),
        !recodes(p, g),
        k <= redo_indices(undo_program(p), p.new_cols()).len(),
        inv2.len() == redo_indices(undo_program(p), p.new_cols()).len(),
        forall|i: int|
            0 <= i < inv2.len() ==> (#[trigger] inv2[i]).field == g.fields[redo_indices(
                undo_program(p),
                p.new_cols(),
            )[i] as int],
    ensures
        !some_retypes(p.t, redo_indices(undo_program(p), p.new_cols()), inv2, k),
    decreases k,
{
    if k > 0 {
        lemma_redo_types(p, g, inv2, (k - 1) as nat);
        let s = redo_indices(undo_program(p), p.new_cols());
        lemma_touched(p);
        lemma_redo_places(p, p.col as int);
        let j = s[k - 1];
        let m = p.touched().len();
        if k - 1 < m {
            assert(j == p.touched()[k - 1]);
            lemma_redo_places(p, j as int);
            lemma_not_reencoded(g, p.touched(), paste_capture(p), m, k - 1);
            assert(first_place(p.touched(), (j as int) as u64) == Some((k - 1) as nat));
            assert(paste_capture(p)[k - 1].field == p.t.fields[j as int]);
            assert(inv2[k - 1].field == g.fields[s[k - 1] as int]);
        } else {
            assert(j >= p.t.fields.len());
        }
    }
}

/// The inverse of a paste is a program that restores a block.
pub proof fn lemma_paste_inverse_op(p: PasteV, revision: u64, w: Result<Seq<u8>, Seq<char>>)
    requires
        pastable(p),
        p.touched().len() > 0,
        written(w, paste_capture(p)),
        paste_outcome(p, revision, w) is Ok,
    ensures
        text_at(paste_outcome(p, revision, w)->Ok_0.inverse->0.ops, "op"@) == Some(
            "restore_block"@,
        ),
{
    lemma_undo_block(p, revision, w);
}

/// Redoing a paste that was undone gives the table that it made, unless the undo of the redo
/// cannot be captured.
#[verifier::rlimit(50)]
pub proof fn law_redo_insert_block(
    p: PasteV,
    num2: NumeralsV,
    num3: NumeralsV,
    revision: u64,
    later: u64,
    last: u64,
    w: Result<Seq<u8>, Seq<char>>,
    w2: Result<Seq<u8>, Seq<char>>,
    w3: Result<Seq<u8>, Seq<char>>,
)
    requires
        pastable(p),
        replaces_plain(p),
        p.touched().len() > 0,
        written(w, paste_capture(p)),
        paste_outcome(p, revision, w) is Ok,
        revision <= later <= last,
        ({
            let o = paste_outcome(p, revision, w)->Ok_0;
            match block_restore(o.table, o.inverse->0.ops, blob_columns(o.bytes)) {
                Ok((bp, inv)) => written(w2, redo_capture(o.table, bp, inv)),
                Err(_) => true,
            }
        }),
        sealed_redo(w2) is Ok,
    ensures
        ({
            let o = paste_outcome(p, revision, w)->Ok_0;
            let u = reversed(o, num2, later, w2);
            let r = reversed(u->Ok_0, num3, last, w3);
            u is Ok && match sealed_redo(w3) {
                Ok(_) => r is Ok && r->Ok_0.table == o.table,
                Err(f) => r == Err::<OutcomeV, FailureV>(f),
            }
        }),
{
    let t = p.t;
    let o = paste_outcome(p, revision, w)->Ok_0;
    let g = o.table;
    let bp = undo_program(p);
    let rp = redo_program(p, g);
    let inv = paste_capture(p);
    let inv2 = redo_capture(g, bp, inv);
    let s = rp.indices;
    lemma_undo_block(p, revision, w);
    lemma_block_keys();
    lemma_keys();
    lemma_programs_differ();
    lemma_pasted(p, revision, w);
    lemma_touched(p);
    lemma_redo_places(p, p.col as int);
    let u = reversed(o, p.num, later, w2)->Ok_0;
    lemma_block_program(
        g,
        (p.row, p.col, p.height() as u64, p.width() as u64),
        rp.full,
        rp.capture_rows,
        s,
        None,
    );
    assert(p.touched()[0] < t.fields.len());
    assert forall|i: int| 0 <= i < s.len() implies #[trigger] s[i] < g.fields.len() by {
        if i < p.touched().len() {
            assert(s[i] == p.touched()[i]);
        }
    }
    let from = redo_start(bp, g.rows, rp.full) as int;
    lemma_capture_reads_back(g, s, from, from + rp.capture_rows, u.bytes);
    assert(consistent(rp, t.fields.len())) by {
        lemma_parts_add(
            p.touched(),
            tail_run(t.fields.len() as u64, p.new_cols() as u64),
            t.fields.len(),
        );
    }
    assert(block_restore(t, u.inverse->0.ops, blob_columns(u.bytes)) == Ok::<
        (BlockProgramV, Seq<ColumnV>),
        FailureV,
    >((rp, inv2)));
    if !rp.full {
        assert forall|i: int| 0 <= i < inv2.len() implies (#[trigger] inv2[i]).field
            == g.fields[s[i] as int] by {}
        lemma_redo_types(p, g, inv2, s.len());
    }
    assert forall|j: int| 0 <= j < g.fields.len() implies #[trigger] describes(
        t,
        g,
        rp,
        inv2,
        j,
    ) by {
        lemma_redo_describes(p, revision, w, j);
    }
    lemma_restores(t, g, p.num, rp, inv2);
    lemma_reversed_alike(o, p.num, num2, later, w2);
    lemma_reversed_alike(u, p.num, num3, last, w3);
}

} // verus!
