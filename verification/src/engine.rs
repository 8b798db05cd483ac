//! The row-merge engine: rewrites a dataset by a column plan and a segment table.
use vstd::hash_map::StringHashMap;
use vstd::prelude::*;
use crate::messages::{EditFailure, FailureV};
use crate::number::{Numerals, NumeralsV};
use crate::segments::{table_overrun, table_rows, Seg};
use crate::table::{
    batch_start, cell_fits, flat, lemma_flat_at, lemma_start_grows, lemma_start_step,
    lemma_table_wf, total_rows, Batch, Cell, Dataset, Field, FieldV, TableV, MAX_ROWS,
};
use crate::text::{clone_texts, index_of, texts};
use crate::wording;

verus! {

/// The largest batch of rows that come from no input batch.
pub const OUT_BATCH: u64 = 65_536;

/// What becomes of an old cell.
pub enum Under {
    /// It stays.
    Same,
    /// It is not consulted: the output is null.
    Nothing,
    /// A position in the old dictionary turns into what stands at this position here.
    Remap(Vec<Cell>),
    /// A number turns into the position of its rendering in the new dictionary; the index
    /// holds the positions.
    Render(StringHashMap<u64>),
}

/// The mathematical value of [`Under`].
pub enum UnderV {
    Same,
    Nothing,
    Remap(Seq<Cell>),
    Render,
}

/// How one output column is made.
pub struct OutCol {
    pub field: Field,
    /// The input column; absent for a column that the edit creates.
    pub old: Option<usize>,
    /// The cells of the window, where the window overwrites this column.
    pub window: Option<Vec<Cell>>,
    pub under: Under,
    /// The dictionary of the output column.
    pub levels: Vec<String>,
}

/// The mathematical value of an [`OutCol`].
#[verifier::ext_equal]
pub struct OutColV {
    pub field: FieldV,
    pub old: Option<int>,
    pub window: Option<Seq<Cell>>,
    pub under: UnderV,
    pub levels: Seq<Seq<char>>,
}

impl View for OutCol {
    type V = OutColV;

    open spec fn view(&self) -> OutColV {
        OutColV {
            field: self.field@,
            old: match self.old {
                Some(j) => Some(j as int),
                None => None,
            },
            window: match self.window {
                Some(w) => Some(w@),
                None => None,
            },
            under: match self.under {
                Under::Same => UnderV::Same,
                Under::Nothing => UnderV::Nothing,
                Under::Remap(m) => UnderV::Remap(m@),
                Under::Render(_) => UnderV::Render,
            },
            levels: texts(self.levels@),
        }
    }
}

/// An index that gives the position of every level.
pub open spec fn indexes(index: Map<Seq<char>, u64>, levels: Seq<Seq<char>>) -> bool {
    forall|t: Seq<char>|
        match index_of(levels, t) {
            Some(i) => #[trigger] index.contains_key(t) && index[t] == i,
            None => !index.contains_key(t),
        }
}

impl OutCol {
    /// The input column exists, only a dictionary column has levels, and the index agrees
    /// with the dictionary.
    pub open spec fn wf(self, n: nat) -> bool {
        &&& self.old is Some ==> self.old->0 < n
        &&& !(self.field@.kind is Dictionary) ==> self.levels@.len() == 0
        &&& self.under matches Under::Render(ix) ==> indexes(ix@, texts(self.levels@))
    }
}

/// The plans of a list of output columns.
pub open spec fn plan_views(v: Seq<OutCol>) -> Seq<OutColV> {
    Seq::new(v.len(), |i: int| v[i]@)
}

/// Builds the index of a dictionary. Of equal levels the last counts.
pub fn build_index(levels: &Vec<String>) -> (r: StringHashMap<u64>)
    ensures
        indexes(r@, texts(levels@)),
{
    let mut r = StringHashMap::<u64>::new();
    let mut i: usize = 0;
    assert(texts(levels@).take(0) =~= Seq::empty());
    while i < levels.len()
        invariant
            i <= levels.len(),
            indexes(r@, texts(levels@).take(i as int)),
        decreases levels.len() - i,
    {
        let ghost p = texts(levels@).take(i as int);
        let ghost q = texts(levels@).take(i + 1);
        assert(q.drop_last() =~= p);
        assert(q.last() == levels@[i as int]@);
        let ghost before = r@;
        r.insert(levels[i].clone(), i as u64);
        assert forall|t: Seq<char>|
            match index_of(q, t) {
                Some(k) => #[trigger] r@.contains_key(t) && r@[t] == k,
                None => !r@.contains_key(t),
            } by {
            assert(before.contains_key(t) || !before.contains_key(t));
        }
        i = i + 1;
    }
    assert(texts(levels@).take(levels@.len() as int) =~= texts(levels@));
    r
}

/// What becomes of an old cell.
pub open spec fn under_cell(oc: OutColV, num: NumeralsV, c: Cell) -> Cell {
    match (oc.under, c) {
        (_, None) => None,
        (UnderV::Same, Some(_)) => c,
        (UnderV::Nothing, Some(_)) => None,
        (UnderV::Remap(m), Some(k)) => if k < m.len() {
            m[k as int]
        } else {
            None
        },
        (UnderV::Render, Some(bits)) => match index_of(oc.levels, num.show(bits)) {
            Some(i) => Some(i as u64),
            None => None,
        },
    }
}

/// The output cell that an old row gives.
pub open spec fn old_cell(oc: OutColV, num: NumeralsV, cols: Seq<Seq<Cell>>, row: int) -> Cell {
    match oc.old {
        Some(j) => under_cell(oc, num, cols[j][row]),
        None => None,
    }
}

/// Cell `k` of a window.
pub open spec fn window_cell(w: Seq<Cell>, k: int) -> Cell {
    if 0 <= k < w.len() {
        w[k]
    } else {
        None
    }
}

/// Row `i` of a segment, in one output column, over `n` old rows.
pub open spec fn seg_cell(
    oc: OutColV,
    num: NumeralsV,
    cols: Seq<Seq<Cell>>,
    n: nat,
    seg: Seg,
    i: int,
) -> Cell {
    match seg {
        Seg::Copy { old, .. } => old_cell(oc, num, cols, old + i),
        Seg::Block { out, .. } => match oc.window {
            Some(w) => window_cell(w, i),
            None => if out + i < n {
                old_cell(oc, num, cols, out + i)
            } else {
                None
            },
        },
        Seg::Null { .. } => None,
        Seg::Restore { .. } => match oc.window {
            Some(w) => window_cell(w, i),
            None => None,
        },
    }
}

/// One output column of a segment.
pub open spec fn seg_cells(
    oc: OutColV,
    num: NumeralsV,
    cols: Seq<Seq<Cell>>,
    n: nat,
    seg: Seg,
) -> Seq<Cell> {
    Seq::new(seg.rows(), |i: int| seg_cell(oc, num, cols, n, seg, i))
}

/// One output column of a segment table.
pub open spec fn walked(
    oc: OutColV,
    num: NumeralsV,
    cols: Seq<Seq<Cell>>,
    n: nat,
    segs: Seq<Seg>,
) -> Seq<Cell>
    decreases segs.len(),
{
    if segs.len() == 0 {
        Seq::empty()
    } else {
        walked(oc, num, cols, n, segs.drop_last()) + seg_cells(oc, num, cols, n, segs.last())
    }
}

/// Every key that a plan puts out lies in the column's dictionary.
pub open spec fn plan_fits(
    t: TableV,
    plan: Seq<OutColV>,
    num: NumeralsV,
    segs: Seq<Seg>,
) -> bool {
    forall|c: int, i: int|
        0 <= c < plan.len() && 0 <= i < table_rows(segs) ==> cell_fits(
            plan[c].field,
            plan[c].levels,
            #[trigger] walked(plan[c], num, t.cols, t.rows, segs)[i],
        )
}

/// The table that a plan and a segment table of `rows` rows make.
pub open spec fn planned(
    t: TableV,
    plan: Seq<OutColV>,
    num: NumeralsV,
    segs: Seq<Seg>,
    rows: nat,
) -> TableV {
    TableV {
        fields: Seq::new(plan.len(), |c: int| plan[c].field),
        dicts: Seq::new(plan.len(), |c: int| plan[c].levels),
        cols: Seq::new(plan.len(), |c: int| walked(plan[c], num, t.cols, t.rows, segs)),
        rows,
    }
}

/// The outcome of a rewrite to `total` rows.
pub open spec fn rewritten(
    t: TableV,
    plan: Seq<OutColV>,
    num: NumeralsV,
    segs: Seq<Seg>,
    total: nat,
) -> Result<TableV, FailureV> {
    match table_overrun(segs, t.rows) {
        Some(row) => Err(FailureV::Fatal(wording::cache_ended_msg(row as u64, t.rows as u64))),
        None => if table_rows(segs) != total {
            Err(
                FailureV::Fatal(
                    wording::plan_covered_msg(table_rows(segs) as u64, total as u64),
                ),
            )
        } else if !plan_fits(t, plan, num, segs) {
            Err(FailureV::Fatal("output batch assembly failed: a key lies outside its dictionary"@))
        } else {
            Ok(planned(t, plan, num, segs, total))
        },
    }
}

/// The rows of a table have the length of its segments.
pub proof fn lemma_walked_len(
    oc: OutColV,
    num: NumeralsV,
    cols: Seq<Seq<Cell>>,
    n: nat,
    segs: Seq<Seg>,
)
    ensures
        walked(oc, num, cols, n, segs).len() == table_rows(segs),
    decreases segs.len(),
{
    if segs.len() > 0 {
        lemma_walked_len(oc, num, cols, n, segs.drop_last());
    }
}

/// What becomes of one old cell.
fn under_of(oc: &OutCol, num: &Numerals, c: Cell) -> (r: Cell)
    requires
        oc.under matches Under::Render(ix) ==> indexes(ix@, texts(oc.levels@)),
    ensures
        r == under_cell(oc@, num@, c),
{
    match c {
        None => None,
        Some(k) => match &oc.under {
            Under::Same => Some(k),
            Under::Nothing => None,
            Under::Remap(m) => if k < m.len() as u64 {
                m[k as usize]
            } else {
                None
            },
            Under::Render(index) => {
                let t = num.render(k);
                assert(index@.contains_key(t@) || !index@.contains_key(t@));
                match index.get(t.as_str()) {
                    Some(i) => Some(*i),
                    None => None,
                }
            },
        },
    }
}

/// The rows of one output batch in the making: `len` rows, drawn from an input batch from
/// `old_off` on, from the window from row `block` on, or from both.
pub struct Win {
    pub len: usize,
    pub old_off: Option<usize>,
    pub block: Option<u64>,
}

/// The batch behind an optional reference.
pub open spec fn batch_value(b: Option<&Batch>) -> Option<Batch> {
    match b {
        Some(x) => Some(*x),
        None => None,
    }
}

/// Row `i` of a piece, in one output column.
pub open spec fn piece_cell(
    oc: OutColV,
    num: NumeralsV,
    batch: Option<Batch>,
    win: Win,
    i: int,
) -> Cell {
    if win.block is Some && oc.window is Some {
        window_cell(oc.window->0, win.block->0 + i)
    } else {
        match (batch, win.old_off, oc.old) {
            (Some(b), Some(off), Some(j)) => under_cell(oc, num, b.cols@[j]@[off + i]),
            _ => None,
        }
    }
}

/// Makes one output batch; nothing comes out where a key lies outside its dictionary.
#[verifier::rlimit(50)]
pub fn emit_piece(
    plan: &Vec<OutCol>,
    num: &Numerals,
    batch: Option<&Batch>,
    win: &Win,
) -> (r: Option<Batch>)
    requires
        forall|c: int| #![trigger plan@[c]]
            0 <= c < plan@.len() && plan@[c].under is Render ==> indexes(
                plan@[c].under->Render_0@,
                texts(plan@[c].levels@),
            ),
        match (batch, win.old_off) {
            (Some(b), Some(off)) => off + win.len <= b.rows && (forall|c: int|
                #![trigger plan@[c]]
                0 <= c < plan@.len() && plan@[c].old is Some ==> plan@[c].old->0 < b.cols@.len()
                    && b.cols@[plan@[c].old->0 as int]@.len() == b.rows),
            _ => true,
        },
        win.block is Some ==> win.block->0 + win.len <= u64::MAX,
    ensures
        match r {
            Some(out) => {
                &&& out.rows == win.len
                &&& out.cols@.len() == plan@.len()
                &&& forall|c: int|
                    0 <= c < plan@.len() ==> (#[trigger] out.cols@[c])@.len() == win.len
                &&& forall|c: int, i: int|
                    0 <= c < plan@.len() && 0 <= i < win.len ==> (#[trigger] out.cols@[c]@[i])
                        == piece_cell(
                        plan@[c]@,
                        num@,
                        batch_value(batch),
                        *win,
                        i,
                    )
                &&& forall|c: int, i: int|
                    0 <= c < plan@.len() && 0 <= i < win.len ==> cell_fits(
                        plan@[c]@.field,
                        plan@[c]@.levels,
                        #[trigger] out.cols@[c]@[i],
                    )
            },
            None => exists|c: int, i: int|
                0 <= c < plan@.len() && 0 <= i < win.len && !cell_fits(
                    plan@[c]@.field,
                    plan@[c]@.levels,
                    #[trigger] piece_cell(
                        plan@[c]@,
                        num@,
                        batch_value(batch),
                        *win,
                        i,
                    ),
                ),
        },
{
    let ghost gb = batch_value(batch);
    let mut cols: Vec<Vec<Cell>> = Vec::new();
    let mut c: usize = 0;
    while c < plan.len()
        invariant
            c <= plan.len(),
            cols@.len() == c,
            gb == batch_value(batch),
            forall|c: int| #![trigger plan@[c]]
                0 <= c < plan@.len() && plan@[c].under is Render ==> indexes(
                    plan@[c].under->Render_0@,
                    texts(plan@[c].levels@),
                ),
            match (batch, win.old_off) {
                (Some(b), Some(off)) => off + win.len <= b.rows && (forall|c: int|
                    #![trigger plan@[c]]
                    0 <= c < plan@.len() && plan@[c].old is Some ==> plan@[c].old->0
                        < b.cols@.len() && b.cols@[plan@[c].old->0 as int]@.len() == b.rows),
                _ => true,
            },
            win.block is Some ==> win.block->0 + win.len <= u64::MAX,
            forall|k: int| 0 <= k < c ==> (#[trigger] cols@[k])@.len() == win.len,
            forall|k: int, i: int|
                0 <= k < c && 0 <= i < win.len ==> (#[trigger] cols@[k]@[i]) == piece_cell(
                    plan@[k]@,
                    num@,
                    gb,
                    *win,
                    i,
                ),
            forall|k: int, i: int|
                0 <= k < c && 0 <= i < win.len ==> cell_fits(
                    plan@[k]@.field,
                    plan@[k]@.levels,
                    #[trigger] cols@[k]@[i],
                ),
        decreases plan.len() - c,
    {
        let oc = &plan[c];
        let dictionary = match &oc.field.kind {
            crate::table::Kind::Dictionary { .. } => true,
            _ => false,
        };
        let mut cells: Vec<Cell> = Vec::new();
        let mut i: usize = 0;
        while i < win.len
            invariant
                i <= win.len,
                c < plan.len(),
                *oc == plan@[c as int],
                cells@.len() == i,
                gb == batch_value(batch),
                dictionary == (oc@.field.kind is Dictionary),
                oc.under is Render ==> indexes(oc.under->Render_0@, texts(oc.levels@)),
                match (batch, win.old_off) {
                    (Some(b), Some(off)) => off + win.len <= b.rows && (oc.old is Some
                        ==> oc.old->0 < b.cols@.len() && b.cols@[oc.old->0 as int]@.len()
                        == b.rows),
                    _ => true,
                },
                win.block is Some ==> win.block->0 + win.len <= u64::MAX,
                forall|k: int|
                    0 <= k < i ==> (#[trigger] cells@[k]) == piece_cell(
                        plan@[c as int]@,
                        num@,
                        gb,
                        *win,
                        k,
                    ),
                forall|k: int|
                    0 <= k < i ==> cell_fits(
                        plan@[c as int]@.field,
                        plan@[c as int]@.levels,
                        #[trigger] cells@[k],
                    ),
            decreases win.len - i,
        {
            let cell: Cell = match (&oc.window, win.block) {
                (Some(w), Some(start)) => {
                    let at: u64 = start + i as u64;
                    if at < w.len() as u64 {
                        w[at as usize]
                    } else {
                        None
                    }
                },
                _ => match (batch, win.old_off, oc.old) {
                    (Some(b), Some(off), Some(j)) => under_of(oc, num, b.cols[j][off + i]),
                    _ => None,
                },
            };
            assert(cell == piece_cell(plan@[c as int]@, num@, gb, *win, i as int));
            if dictionary {
                if let Some(k) = cell {
                    if k >= oc.levels.len() as u64 {
                        assert(!cell_fits(
                            plan@[c as int]@.field,
                            plan@[c as int]@.levels,
                            piece_cell(plan@[c as int]@, num@, gb, *win, i as int),
                        ));
                        return None;
                    }
                }
            }
            cells.push(cell);
            i = i + 1;
        }
        cols.push(cells);
        c = c + 1;
    }
    Some(Batch { rows: win.len, cols })
}

/// The batches made so far have the shape of the plan.
pub open spec fn made(out: Seq<Batch>, plan: Seq<OutColV>) -> bool {
    forall|k: int|
        0 <= k < out.len() ==> (#[trigger] out[k]).wf(plan_fields(plan), plan_levels(plan))
}

/// The fields of a plan.
pub open spec fn plan_fields(plan: Seq<OutColV>) -> Seq<FieldV> {
    Seq::new(plan.len(), |c: int| plan[c].field)
}

/// The dictionaries of a plan.
pub open spec fn plan_levels(plan: Seq<OutColV>) -> Seq<Seq<Seq<char>>> {
    Seq::new(plan.len(), |c: int| plan[c].levels)
}

/// The cells that `len` old rows from `from` on give, under a window or not.
pub open spec fn copied(
    oc: OutColV,
    num: NumeralsV,
    cols: Seq<Seq<Cell>>,
    from: int,
    len: nat,
    block: bool,
) -> Seq<Cell> {
    Seq::new(
        len,
        |i: int|
            if block && oc.window is Some {
                window_cell(oc.window->0, i)
            } else {
                old_cell(oc, num, cols, from + i)
            },
    )
}

/// The cells of `len` rows without old rows, from row `start` of a window on.
pub open spec fn filled(oc: OutColV, len: nat, start: Option<u64>) -> Seq<Cell> {
    Seq::new(
        len,
        |i: int|
            if start is Some && oc.window is Some {
                window_cell(oc.window->0, start->0 + i)
            } else {
                None
            },
    )
}

/// The input columns of a plan exist, and its indexes agree with its dictionaries.
pub open spec fn plan_wf(plan: Seq<OutCol>, n: nat) -> bool {
    forall|c: int| 0 <= c < plan.len() ==> (#[trigger] plan[c]).wf(n)
}

proof fn lemma_push_batch(out: Seq<Batch>, b: Batch, plan: Seq<OutColV>)
    requires
        made(out, plan),
        b.wf(plan_fields(plan), plan_levels(plan)),
    ensures
        made(out.push(b), plan),
        total_rows(out.push(b)) == total_rows(out) + b.rows,
        forall|c: int| #![trigger flat(out.push(b), c)]
            0 <= c < plan.len() ==> flat(out.push(b), c) == flat(out, c) + b.cols@[c]@,
{
    assert(out.push(b).drop_last() =~= out);
}

/// Appends the rows that the old rows from `from` up to `to` give. Reports whether every
/// key lies in its dictionary.
#[verifier::rlimit(40)]
fn copy_rows(
    ds: &Dataset,
    plan: &Vec<OutCol>,
    num: &Numerals,
    from: u64,
    to: u64,
    block: bool,
    out: &mut Vec<Batch>,
) -> (r: bool)
    requires
        ds.wf(),
        plan_wf(plan@, ds.fields@.len()),
        from <= to <= ds.table().rows,
        made(old(out)@, plan_views(plan@)),
    ensures
        r ==> {
            &&& made(final(out)@, plan_views(plan@))
            &&& total_rows(final(out)@) == total_rows(old(out)@) + (to - from)
            &&& forall|c: int| #![trigger plan@[c]]
                0 <= c < plan@.len() ==> flat(final(out)@, c) == flat(old(out)@, c) + copied(
                    plan@[c]@,
                    num@,
                    ds.table().cols,
                    from as int,
                    (to - from) as nat,
                    block,
                )
        },
        !r ==> exists|c: int, i: int|
            0 <= c < plan@.len() && 0 <= i < to - from && !cell_fits(
                plan@[c]@.field,
                plan@[c]@.levels,
                #[trigger] copied(
                    plan@[c]@,
                    num@,
                    ds.table().cols,
                    from as int,
                    (to - from) as nat,
                    block,
                )[i],
            ),
{
    let ghost t = ds.table();
    let ghost pv = plan_views(plan@);
    let mut k: usize = 0;
    let mut base: u64 = 0;
    let mut next: u64 = from;
    proof {
        assert(ds.batches@.take(0) =~= Seq::empty());
        assert forall|c: int| #![trigger plan@[c]] 0 <= c < plan@.len() implies flat(out@, c)
            == flat(old(out)@, c) + copied(plan@[c]@, num@, t.cols, from as int, 0, block) by {
            assert(flat(out@, c) =~= flat(old(out)@, c) + copied(
                plan@[c]@,
                num@,
                t.cols,
                from as int,
                0,
                block,
            ));
        }
    }
    while k < ds.batches.len() && next < to
        invariant
            k <= ds.batches.len(),
            ds.wf(),
            t == ds.table(),
            pv == plan_views(plan@),
            plan_wf(plan@, ds.fields@.len()),
            from <= next <= to <= t.rows,
            base == batch_start(ds.batches@, k as int),
            next == from || next == base || next == to,
            next < to ==> base <= next || base <= from,
            base > from ==> next >= base || next == to,
            made(out@, pv),
            total_rows(out@) == total_rows(old(out)@) + (next - from),
            forall|c: int| #![trigger plan@[c]]
                0 <= c < plan@.len() ==> flat(out@, c) == flat(old(out)@, c) + copied(
                    plan@[c]@,
                    num@,
                    t.cols,
                    from as int,
                    (next - from) as nat,
                    block,
                ),
        decreases ds.batches.len() - k,
    {
        proof {
            lemma_start_step(ds.batches@, k as int);
            lemma_start_grows(ds.batches@, k + 1, ds.batches@.len() as int);
            assert(ds.batches@[k as int].wf(t.fields, t.dicts));
        }
        let b = &ds.batches[k];
        let end: u64 = base + b.rows as u64;
        if next < end {
            let stop: u64 = if to < end {
                to
            } else {
                end
            };
            let off: u64 = next - base;
            let done: u64 = next - from;
            let win = Win {
                len: (stop - next) as usize,
                old_off: Some(off as usize),
                block: if block {
                    Some(done)
                } else {
                    None
                },
            };
            assert forall|c: int| #![trigger plan@[c]]
                0 <= c < plan@.len() && plan@[c].old is Some implies plan@[c].old->0
                < b.cols@.len() && b.cols@[plan@[c].old->0 as int]@.len() == b.rows by {
                assert(plan@[c].wf(ds.fields@.len()));
            }
            assert forall|c: int| #![trigger plan@[c]]
                0 <= c < plan@.len() && plan@[c].under is Render implies indexes(
                plan@[c].under->Render_0@,
                texts(plan@[c].levels@),
            ) by {
                assert(plan@[c].wf(ds.fields@.len()));
            }
            let piece = emit_piece(plan, num, Some(b), &win);
            assert forall|c: int, i: int| #![trigger piece_cell(plan@[c]@, num@, Some(*b), win, i)]
                0 <= c < plan@.len() && 0 <= i < win.len implies piece_cell(
                plan@[c]@,
                num@,
                Some(*b),
                win,
                i,
            ) == copied(
                plan@[c]@,
                num@,
                t.cols,
                from as int,
                (to - from) as nat,
                block,
            )[done + i] by {
                assert(plan@[c].wf(ds.fields@.len()));
                if plan@[c].old is Some {
                    let j = plan@[c].old->0 as int;
                    lemma_flat_at(ds.batches@, t.fields, t.dicts, j, k as int);
                    assert(t.cols[j][base + (off + i)] == b.cols@[j]@[off + i]);
                }
            }
            match piece {
                None => {
                    proof {
                        let (c, i) = choose|c: int, i: int|
                            0 <= c < plan@.len() && 0 <= i < win.len && !cell_fits(
                                plan@[c]@.field,
                                plan@[c]@.levels,
                                #[trigger] piece_cell(plan@[c]@, num@, batch_value(Some(b)), win, i),
                            );
                        assert(piece_cell(plan@[c]@, num@, Some(*b), win, i) == copied(
                            plan@[c]@,
                            num@,
                            t.cols,
                            from as int,
                            (to - from) as nat,
                            block,
                        )[done + i]);
                    }
                    return false;
                },
                Some(p) => {
                    let ghost before = out@;
                    proof {
                        assert forall|c: int, i: int| 0 <= c < pv.len() && 0 <= i
                            < p.rows implies cell_fits(
                            plan_fields(pv)[c],
                            plan_levels(pv)[c],
                            #[trigger] p.cols@[c]@[i],
                        ) by {
                            assert(pv[c] == plan@[c]@);
                        }
                        assert(p.wf(plan_fields(pv), plan_levels(pv)));
                        lemma_push_batch(out@, p, pv);
                    }
                    out.push(p);
                    proof {
                        assert forall|c: int| #![trigger plan@[c]]
                            0 <= c < plan@.len() implies flat(out@, c) == flat(old(out)@, c)
                            + copied(
                            plan@[c]@,
                            num@,
                            t.cols,
                            from as int,
                            (stop - from) as nat,
                            block,
                        ) by {
                            assert(flat(before.push(p), c) == flat(before, c) + p.cols@[c]@);
                            assert(p.cols@[c]@.len() == win.len);
                            let whole = copied(
                                plan@[c]@,
                                num@,
                                t.cols,
                                from as int,
                                (to - from) as nat,
                                block,
                            );
                            assert forall|i: int| 0 <= i < win.len implies #[trigger] p.cols@[c]@[i]
                                == whole[done + i] by {
                                assert(p.cols@[c]@[i] == piece_cell(
                                    plan@[c]@,
                                    num@,
                                    Some(*b),
                                    win,
                                    i,
                                ));
                            }
                            assert(copied(
                                plan@[c]@,
                                num@,
                                t.cols,
                                from as int,
                                (stop - from) as nat,
                                block,
                            ) =~= copied(
                                plan@[c]@,
                                num@,
                                t.cols,
                                from as int,
                                done as nat,
                                block,
                            ) + p.cols@[c]@);
                            assert(flat(out@, c) =~= flat(old(out)@, c) + copied(
                                plan@[c]@,
                                num@,
                                t.cols,
                                from as int,
                                (stop - from) as nat,
                                block,
                            ));
                        }
                    }
                },
            }
            next = stop;
        }
        base = end;
        k = k + 1;
    }
    assert(ds.batches@.take(ds.batches@.len() as int) =~= ds.batches@);
    true
}

/// Appends `len` rows without old rows. Reports whether every key lies in its dictionary.
#[verifier::rlimit(50)]
fn fill_rows(
    plan: &Vec<OutCol>,
    num: &Numerals,
    len: u64,
    start: Option<u64>,
    out: &mut Vec<Batch>,
    n: Ghost<nat>,
) -> (r: bool)
    requires
        plan_wf(plan@, n@),
        start is Some ==> start->0 + len <= u64::MAX,
        made(old(out)@, plan_views(plan@)),
    ensures
        r ==> {
            &&& made(final(out)@, plan_views(plan@))
            &&& total_rows(final(out)@) == total_rows(old(out)@) + len
            &&& forall|c: int| #![trigger plan@[c]]
                0 <= c < plan@.len() ==> flat(final(out)@, c) == flat(old(out)@, c) + filled(
                    plan@[c]@,
                    len as nat,
                    start,
                )
        },
        !r ==> exists|c: int, i: int|
            0 <= c < plan@.len() && 0 <= i < len && !cell_fits(
                plan@[c]@.field,
                plan@[c]@.levels,
                #[trigger] filled(plan@[c]@, len as nat, start)[i],
            ),
{
    let ghost pv = plan_views(plan@);
    let mut done: u64 = 0;
    proof {
        assert forall|c: int| #![trigger plan@[c]] 0 <= c < plan@.len() implies flat(out@, c)
            == flat(old(out)@, c) + filled(plan@[c]@, 0, start) by {
            assert(flat(out@, c) =~= flat(old(out)@, c) + filled(plan@[c]@, 0, start));
        }
    }
    while done < len
        invariant
            done <= len,
            pv == plan_views(plan@),
            plan_wf(plan@, n@),
            start is Some ==> start->0 + len <= u64::MAX,
            made(out@, pv),
            total_rows(out@) == total_rows(old(out)@) + done,
            forall|c: int| #![trigger plan@[c]]
                0 <= c < plan@.len() ==> flat(out@, c) == flat(old(out)@, c) + filled(
                    plan@[c]@,
                    done as nat,
                    start,
                ),
        decreases len - done,
    {
        let take: u64 = if len - done < OUT_BATCH {
            len - done
        } else {
            OUT_BATCH
        };
        let win = Win {
            len: take as usize,
            old_off: None,
            block: match start {
                Some(s) => Some(s + done),
                None => None,
            },
        };
        assert forall|c: int| #![trigger plan@[c]]
            0 <= c < plan@.len() && plan@[c].under is Render implies indexes(
            plan@[c].under->Render_0@,
            texts(plan@[c].levels@),
        ) by {
            assert(plan@[c].wf(n@));
        }
        let piece = emit_piece(plan, num, None, &win);
        assert forall|c: int, i: int|
            #![trigger piece_cell(plan@[c]@, num@, None::<Batch>, win, i)]
            0 <= c < plan@.len() && 0 <= i < win.len implies piece_cell(
            plan@[c]@,
            num@,
            None::<Batch>,
            win,
            i,
        ) == filled(plan@[c]@, len as nat, start)[done + i] by {}
        match piece {
            None => {
                proof {
                    let (c, i) = choose|c: int, i: int|
                        0 <= c < plan@.len() && 0 <= i < win.len && !cell_fits(
                            plan@[c]@.field,
                            plan@[c]@.levels,
                            #[trigger] piece_cell(
                                plan@[c]@,
                                num@,
                                batch_value(None),
                                win,
                                i,
                            ),
                        );
                    assert(piece_cell(plan@[c]@, num@, None::<Batch>, win, i) == filled(
                        plan@[c]@,
                        len as nat,
                        start,
                    )[done + i]);
                }
                return false;
            },
            Some(p) => {
                let ghost before = out@;
                proof {
                    assert forall|c: int, i: int| 0 <= c < pv.len() && 0 <= i
                        < p.rows implies cell_fits(
                        plan_fields(pv)[c],
                        plan_levels(pv)[c],
                        #[trigger] p.cols@[c]@[i],
                    ) by {
                        assert(pv[c] == plan@[c]@);
                    }
                    assert(p.wf(plan_fields(pv), plan_levels(pv)));
                    lemma_push_batch(out@, p, pv);
                }
                out.push(p);
                proof {
                    assert forall|c: int| #![trigger plan@[c]]
                        0 <= c < plan@.len() implies flat(out@, c) == flat(old(out)@, c) + filled(
                        plan@[c]@,
                        (done + take) as nat,
                        start,
                    ) by {
                        assert(flat(before.push(p), c) == flat(before, c) + p.cols@[c]@);
                        assert(p.cols@[c]@.len() == win.len);
                        let whole = filled(plan@[c]@, len as nat, start);
                        assert forall|i: int| 0 <= i < win.len implies #[trigger] p.cols@[c]@[i]
                            == whole[done + i] by {
                            assert(p.cols@[c]@[i] == piece_cell(
                                plan@[c]@,
                                num@,
                                None::<Batch>,
                                win,
                                i,
                            ));
                        }
                        assert(filled(plan@[c]@, (done + take) as nat, start) =~= filled(
                            plan@[c]@,
                            done as nat,
                            start,
                        ) + p.cols@[c]@);
                        assert(flat(out@, c) =~= flat(old(out)@, c) + filled(
                            plan@[c]@,
                            (done + take) as nat,
                            start,
                        ));
                    }
                }
            },
        }
        done = done + take;
    }
    true
}

/// A segment stands in the walk from the rows of the segments before it on.
pub proof fn lemma_walked_at(
    oc: OutColV,
    num: NumeralsV,
    cols: Seq<Seq<Cell>>,
    n: nat,
    segs: Seq<Seg>,
    k: int,
    i: int,
)
    requires
        0 <= k < segs.len(),
        0 <= i < segs[k].rows(),
    ensures
        table_rows(segs.take(k)) + i < table_rows(segs),
        walked(oc, num, cols, n, segs)[table_rows(segs.take(k)) + i] == seg_cell(
            oc,
            num,
            cols,
            n,
            segs[k],
            i,
        ),
    decreases segs.len(),
{
    lemma_walked_len(oc, num, cols, n, segs.drop_last());
    if k == segs.len() - 1 {
        assert(segs.take(k) =~= segs.drop_last());
    } else {
        lemma_walked_at(oc, num, cols, n, segs.drop_last(), k, i);
        assert(segs.drop_last().take(k) =~= segs.take(k));
        assert(segs.drop_last()[k] == segs[k]);
    }
}

proof fn lemma_prefix(segs: Seq<Seg>, k: int, n: nat)
    requires
        0 <= k < segs.len(),
    ensures
        table_rows(segs.take(k + 1)) == table_rows(segs.take(k)) + segs[k].rows(),
        table_overrun(segs.take(k + 1), n) == (match table_overrun(segs.take(k), n) {
            Some(row) => Some(row),
            None => segs[k].overrun(n),
        }),
        table_rows(segs.take(k + 1)) <= table_rows(segs),
    decreases segs.len() - k,
{
    assert(segs.take(k + 1).drop_last() =~= segs.take(k));
    if k + 1 < segs.len() {
        lemma_prefix(segs, k + 1, n);
    } else {
        assert(segs.take(k + 1) =~= segs);
    }
}

proof fn lemma_overrun_prefix(segs: Seq<Seg>, k: int, n: nat)
    requires
        0 <= k <= segs.len(),
        table_overrun(segs.take(k), n) is Some,
    ensures
        table_overrun(segs, n) == table_overrun(segs.take(k), n),
    decreases segs.len() - k,
{
    if k < segs.len() {
        lemma_prefix(segs, k, n);
        lemma_overrun_prefix(segs, k + 1, n);
    } else {
        assert(segs.take(k) =~= segs);
    }
}

/// Checks that a segment table wants no row that the dataset lacks, and that it has `total`
/// rows.
fn check_segments(segs: &Vec<Seg>, n: u64, total: u64) -> (r: Result<(), EditFailure>)
    requires
        table_rows(segs@) <= u64::MAX,
    ensures
        match r {
            Ok(_) => table_overrun(segs@, n as nat) is None && table_rows(segs@) == total,
            Err(e) => match table_overrun(segs@, n as nat) {
                Some(row) => e@ == FailureV::Fatal(wording::cache_ended_msg(row as u64, n)),
                None => table_rows(segs@) != total && e@ == FailureV::Fatal(
                    wording::plan_covered_msg(table_rows(segs@) as u64, total),
                ),
            },
        },
{
    let mut k: usize = 0;
    let mut rows: u64 = 0;
    assert(segs@.take(0) =~= Seq::empty());
    while k < segs.len()
        invariant
            k <= segs.len(),
            table_rows(segs@) <= u64::MAX,
            rows == table_rows(segs@.take(k as int)),
            table_overrun(segs@.take(k as int), n as nat) is None,
        decreases segs.len() - k,
    {
        proof {
            lemma_prefix(segs@, k as int, n as nat);
        }
        match segs[k] {
            Seg::Copy { out: _, old, len } => {
                if len > 0 && (old > n || len > n - old) {
                    let row: u64 = if old > n {
                        old
                    } else {
                        n
                    };
                    proof {
                        lemma_overrun_prefix(segs@, k + 1, n as nat);
                    }
                    return Err(EditFailure::fatal(wording::cache_ended(row, n)));
                }
                rows = rows + len;
            },
            Seg::Block { out: _, len } => {
                rows = rows + len;
            },
            Seg::Null { len } => {
                rows = rows + len;
            },
            Seg::Restore { len } => {
                rows = rows + len;
            },
        }
        k = k + 1;
    }
    assert(segs@.take(segs@.len() as int) =~= segs@);
    if rows != total {
        return Err(EditFailure::fatal(wording::plan_covered(rows, total)));
    }
    Ok(())
}

/// No old row of an unfailing table lies beyond the dataset.
proof fn lemma_no_overrun(segs: Seq<Seg>, k: int, n: nat)
    requires
        0 <= k < segs.len(),
        table_overrun(segs, n) is None,
    ensures
        segs[k].overrun(n) is None,
{
    if segs[k].overrun(n) is Some {
        lemma_prefix(segs, k, n);
        lemma_overrun_prefix(segs, k + 1, n);
    }
}

/// Appends the rows of one segment. Reports whether every key lies in its dictionary.
#[verifier::rlimit(40)]
fn walk_segment(
    ds: &Dataset,
    plan: &Vec<OutCol>,
    num: &Numerals,
    seg: Seg,
    n: u64,
    out: &mut Vec<Batch>,
) -> (r: bool)
    requires
        ds.wf(),
        n == ds.table().rows,
        plan_wf(plan@, ds.fields@.len()),
        seg.overrun(n as nat) is None,
        made(old(out)@, plan_views(plan@)),
    ensures
        r ==> {
            &&& made(final(out)@, plan_views(plan@))
            &&& total_rows(final(out)@) == total_rows(old(out)@) + seg.rows()
            &&& forall|c: int| #![trigger plan@[c]]
                0 <= c < plan@.len() ==> flat(final(out)@, c) == flat(old(out)@, c) + seg_cells(
                    plan@[c]@,
                    num@,
                    ds.table().cols,
                    n as nat,
                    seg,
                )
        },
        !r ==> exists|c: int, i: int|
            0 <= c < plan@.len() && 0 <= i < seg.rows() && !cell_fits(
                plan@[c]@.field,
                plan@[c]@.levels,
                #[trigger] seg_cell(plan@[c]@, num@, ds.table().cols, n as nat, seg, i),
            ),
{
    let ghost cols = ds.table().cols;
    match seg {
        Seg::Copy { out: _, old: first, len } => {
            if len == 0 {
                proof {
                    assert forall|c: int| #![trigger plan@[c]] 0 <= c < plan@.len() implies flat(
                        out@,
                        c,
                    ) == flat(old(out)@, c) + seg_cells(plan@[c]@, num@, cols, n as nat, seg) by {
                        assert(flat(out@, c) =~= flat(old(out)@, c) + seg_cells(
                            plan@[c]@,
                            num@,
                            cols,
                            n as nat,
                            seg,
                        ));
                    }
                }
                return true;
            }
            let ok = copy_rows(ds, plan, num, first, first + len, false, out);
            proof {
                assert forall|c: int| #![trigger plan@[c]] 0 <= c < plan@.len() implies copied(
                    plan@[c]@,
                    num@,
                    cols,
                    first as int,
                    len as nat,
                    false,
                ) == seg_cells(plan@[c]@, num@, cols, n as nat, seg) by {
                    assert(copied(plan@[c]@, num@, cols, first as int, len as nat, false)
                        =~= seg_cells(plan@[c]@, num@, cols, n as nat, seg));
                }
                if !ok {
                    let (c, i) = choose|c: int, i: int|
                        0 <= c < plan@.len() && 0 <= i < len && !cell_fits(
                            plan@[c]@.field,
                            plan@[c]@.levels,
                            #[trigger] copied(
                                plan@[c]@,
                                num@,
                                cols,
                                first as int,
                                len as nat,
                                false,
                            )[i],
                        );
                    assert(plan@[c]@ == plan@[c]@);
                    assert(seg_cells(plan@[c]@, num@, cols, n as nat, seg)[i] == seg_cell(
                        plan@[c]@,
                        num@,
                        cols,
                        n as nat,
                        seg,
                        i,
                    ));
                }
            }
            ok
        },
        Seg::Block { out: start, len } => {
            let under: u64 = if start >= n {
                0
            } else if n - start < len {
                n - start
            } else {
                len
            };
            let ghost before = out@;
            if under > 0 {
                let ok = copy_rows(ds, plan, num, start, start + under, true, out);
                if !ok {
                    proof {
                        let (c, i) = choose|c: int, i: int|
                            0 <= c < plan@.len() && 0 <= i < under && !cell_fits(
                                plan@[c]@.field,
                                plan@[c]@.levels,
                                #[trigger] copied(
                                    plan@[c]@,
                                    num@,
                                    cols,
                                    start as int,
                                    under as nat,
                                    true,
                                )[i],
                            );
                        assert(seg_cell(plan@[c]@, num@, cols, n as nat, seg, i) == copied(
                            plan@[c]@,
                            num@,
                            cols,
                            start as int,
                            under as nat,
                            true,
                        )[i]);
                    }
                    return false;
                }
            } else {
                proof {
                    assert forall|c: int| #![trigger plan@[c]] 0 <= c < plan@.len() implies flat(
                        out@,
                        c,
                    ) == flat(before, c) + copied(
                        plan@[c]@,
                        num@,
                        cols,
                        start as int,
                        0,
                        true,
                    ) by {
                        assert(flat(out@, c) =~= flat(before, c) + copied(
                            plan@[c]@,
                            num@,
                            cols,
                            start as int,
                            0,
                            true,
                        ));
                    }
                }
            }
            let ghost mid = out@;
            let ok = fill_rows(plan, num, len - under, Some(under), out, Ghost(ds.fields@.len()));
            proof {
                if ok {
                    assert forall|c: int| #![trigger plan@[c]] 0 <= c < plan@.len() implies flat(
                        out@,
                        c,
                    ) == flat(before, c) + seg_cells(plan@[c]@, num@, cols, n as nat, seg) by {
                        assert(flat(mid, c) == flat(before, c) + copied(
                            plan@[c]@,
                            num@,
                            cols,
                            start as int,
                            under as nat,
                            true,
                        ));
                        assert(seg_cells(plan@[c]@, num@, cols, n as nat, seg) =~= copied(
                            plan@[c]@,
                            num@,
                            cols,
                            start as int,
                            under as nat,
                            true,
                        ) + filled(plan@[c]@, (len - under) as nat, Some(under)));
                        assert(flat(out@, c) =~= flat(before, c) + seg_cells(
                            plan@[c]@,
                            num@,
                            cols,
                            n as nat,
                            seg,
                        ));
                    }
                } else {
                    let (c, i) = choose|c: int, i: int|
                        0 <= c < plan@.len() && 0 <= i < len - under && !cell_fits(
                            plan@[c]@.field,
                            plan@[c]@.levels,
                            #[trigger] filled(plan@[c]@, (len - under) as nat, Some(under))[i],
                        );
                    assert(seg_cell(plan@[c]@, num@, cols, n as nat, seg, under + i) == filled(
                        plan@[c]@,
                        (len - under) as nat,
                        Some(under),
                    )[i]);
                }
            }
            ok
        },
        Seg::Null { len } => {
            let ok = fill_rows(plan, num, len, None, out, Ghost(ds.fields@.len()));
            proof {
                assert forall|c: int| #![trigger plan@[c]] 0 <= c < plan@.len() implies filled(
                    plan@[c]@,
                    len as nat,
                    None,
                ) == seg_cells(plan@[c]@, num@, cols, n as nat, seg) by {
                    assert(filled(plan@[c]@, len as nat, None) =~= seg_cells(
                        plan@[c]@,
                        num@,
                        cols,
                        n as nat,
                        seg,
                    ));
                }
                if !ok {
                    let (c, i) = choose|c: int, i: int|
                        0 <= c < plan@.len() && 0 <= i < len && !cell_fits(
                            plan@[c]@.field,
                            plan@[c]@.levels,
                            #[trigger] filled(plan@[c]@, len as nat, None)[i],
                        );
                    assert(seg_cell(plan@[c]@, num@, cols, n as nat, seg, i) == filled(
                        plan@[c]@,
                        len as nat,
                        None,
                    )[i]);
                }
            }
            ok
        },
        Seg::Restore { len } => {
            let ok = fill_rows(plan, num, len, Some(0), out, Ghost(ds.fields@.len()));
            proof {
                assert forall|c: int| #![trigger plan@[c]] 0 <= c < plan@.len() implies filled(
                    plan@[c]@,
                    len as nat,
                    Some(0),
                ) == seg_cells(plan@[c]@, num@, cols, n as nat, seg) by {
                    assert(filled(plan@[c]@, len as nat, Some(0)) =~= seg_cells(
                        plan@[c]@,
                        num@,
                        cols,
                        n as nat,
                        seg,
                    ));
                }
                if !ok {
                    let (c, i) = choose|c: int, i: int|
                        0 <= c < plan@.len() && 0 <= i < len && !cell_fits(
                            plan@[c]@.field,
                            plan@[c]@.levels,
                            #[trigger] filled(plan@[c]@, len as nat, Some(0))[i],
                        );
                    assert(seg_cell(plan@[c]@, num@, cols, n as nat, seg, i) == filled(
                        plan@[c]@,
                        len as nat,
                        Some(0),
                    )[i]);
                }
            }
            ok
        },
    }
}

/// Rewrites a dataset: walks the segment table in output order and makes every column by
/// its plan.
#[verifier::rlimit(50)]
pub fn stream_rewrite(
    ds: &Dataset,
    plan: &Vec<OutCol>,
    num: &Numerals,
    segs: &Vec<Seg>,
    total: u64,
) -> (r: Result<Dataset, EditFailure>)
    requires
        ds.wf(),
        plan_wf(plan@, ds.fields@.len()),
        table_rows(segs@) <= u64::MAX,
        total <= MAX_ROWS,
    ensures
        match (r, rewritten(ds.table(), plan_views(plan@), num@, segs@, total as nat)) {
            (Ok(d), Ok(t)) => d.wf() && d.table() == t,
            (Err(e), Err(f)) => e@ == f,
            _ => false,
        },
{
    let n = ds.rows();
    let ghost t = ds.table();
    let ghost pv = plan_views(plan@);
    if let Err(e) = check_segments(segs, n, total) {
        return Err(e);
    }
    let mut out: Vec<Batch> = Vec::new();
    let mut k: usize = 0;
    assert(segs@.take(0) =~= Seq::empty());
    while k < segs.len()
        invariant
            k <= segs.len(),
            ds.wf(),
            t == ds.table(),
            n == t.rows,
            pv == plan_views(plan@),
            plan_wf(plan@, ds.fields@.len()),
            table_overrun(segs@, n as nat) is None,
            table_rows(segs@) == total,
            made(out@, pv),
            total_rows(out@) == table_rows(segs@.take(k as int)),
            forall|c: int| #![trigger plan@[c]]
                0 <= c < plan@.len() ==> flat(out@, c) == walked(
                    plan@[c]@,
                    num@,
                    t.cols,
                    t.rows,
                    segs@.take(k as int),
                ),
        decreases segs.len() - k,
    {
        proof {
            lemma_no_overrun(segs@, k as int, n as nat);
            lemma_prefix(segs@, k as int, n as nat);
        }
        let ok = walk_segment(ds, plan, num, segs[k], n, &mut out);
        if !ok {
            proof {
                let (c, i) = choose|c: int, i: int|
                    0 <= c < plan@.len() && 0 <= i < segs@[k as int].rows() && !cell_fits(
                        plan@[c]@.field,
                        plan@[c]@.levels,
                        #[trigger] seg_cell(plan@[c]@, num@, t.cols, n as nat, segs@[k as int], i),
                    );
                lemma_walked_at(plan@[c]@, num@, t.cols, t.rows, segs@, k as int, i);
                let at = table_rows(segs@.take(k as int)) + i;
                assert(pv[c] == plan@[c]@);
                assert(!cell_fits(
                    pv[c].field,
                    pv[c].levels,
                    walked(pv[c], num@, t.cols, t.rows, segs@)[at],
                ));
                assert(!plan_fits(t, pv, num@, segs@));
            }
            return Err(
                EditFailure::fault(
                    "output batch assembly failed: a key lies outside its dictionary",
                ),
            );
        }
        proof {
            assert(segs@.take(k + 1).drop_last() =~= segs@.take(k as int));
        }
        k = k + 1;
    }
    assert(segs@.take(segs@.len() as int) =~= segs@);
    let mut fields: Vec<Field> = Vec::new();
    let mut dicts: Vec<Vec<String>> = Vec::new();
    let mut c: usize = 0;
    while c < plan.len()
        invariant
            c <= plan.len(),
            fields@.len() == c,
            dicts@.len() == c,
            forall|i: int| 0 <= i < c ==> (#[trigger] fields@[i])@ == plan@[i]@.field,
            forall|i: int|
                0 <= i < c ==> texts((#[trigger] dicts@[i])@) == plan@[i]@.levels,
        decreases plan.len() - c,
    {
        fields.push(plan[c].field.copy());
        let levels = clone_texts(&plan[c].levels);
        assert(texts(levels@) =~= plan@[c as int]@.levels);
        dicts.push(levels);
        c = c + 1;
    }
    let d = Dataset { fields, dicts, batches: out };
    proof {
        let goal = planned(t, pv, num@, segs@, total as nat);
        assert(d.table().fields =~= goal.fields);
        assert(d.table().dicts =~= goal.dicts);
        assert(d.table().cols =~= goal.cols);
        assert(plan_fields(pv) =~= goal.fields);
        assert(plan_levels(pv) =~= goal.dicts);
        assert forall|j: int| 0 <= j < d.dicts@.len() && !(d.fields@[j]@.kind is Dictionary) implies (
        #[trigger] d.dicts@[j])@.len() == 0 by {
            assert(plan@[j].wf(ds.fields@.len()));
            assert(d.fields@[j]@ == plan@[j]@.field);
            assert(texts(d.dicts@[j]@).len() == 0);
        }
        assert(d.wf());
        lemma_table_wf(d);
        assert forall|c: int, i: int| 0 <= c < pv.len() && 0 <= i < table_rows(
            segs@,
        ) implies cell_fits(
            pv[c].field,
            pv[c].levels,
            #[trigger] walked(pv[c], num@, t.cols, t.rows, segs@)[i],
        ) by {
            assert(d.table().cols[c][i] == walked(pv[c], num@, t.cols, t.rows, segs@)[i]);
            assert(cell_fits(d.table().fields[c], d.table().dicts[c], d.table().cols[c][i]));
        }
    }
    Ok(d)
}

} // verus!
