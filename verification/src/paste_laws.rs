//! What a paste writes, and what it leaves as it was.
use vstd::prelude::*;
use crate::edit_block::{
    created_col, output_cols, paste_outcome, plan_names, promoted_texts, PasteV,
};
use crate::engine::{old_cell, window_cell};
use crate::levels::{deduped, lemma_deduped, lemma_prebuilt, position};
use crate::number::NumeralsV;
use crate::paste::{
    canonical_dict, derived, first_undeclared, first_unparsed, lemma_extended, level_key,
    level_keys, shown, somes,
};
use crate::table::{cell_fits, Cell, TableV};
use crate::text::{distinct, index_of, lemma_index_of};
use crate::undo_block::{
    block_cells, lemma_none_missing, lemma_output_at, lemma_pasted, lemma_remap_issue_none,
    pastable,
};

verus! {

/// What a cell reads: nothing, the level its key stands for, or the numeral of its number.
pub open spec fn reading(t: TableV, num: NumeralsV, j: int, i: int) -> Option<Seq<char>> {
    match t.cols[j][i] {
        None => None,
        Some(k) => Some(
            if t.fields[j].kind is Dictionary {
                t.dicts[j][k as int]
            } else {
                num.show(k)
            },
        ),
    }
}

/// The dictionaries are small enough for machine numbers.
pub open spec fn numbered_levels(t: TableV) -> bool {
    forall|j: int| 0 <= j < t.dicts.len() ==> (#[trigger] t.dicts[j]).len() <= u64::MAX
}

pub proof fn lemma_shown(cells: Seq<Cell>, num: NumeralsV, i: int)
    requires
        0 <= i < cells.len(),
        cells[i] is Some,
    ensures
        shown(cells, num).contains(num.show(cells[i]->0)),
    decreases cells.len(),
{
    let rest = cells.drop_last();
    let a = shown(rest, num);
    let b = shown(cells, num);
    if i < rest.len() {
        assert(rest[i] == cells[i]);
        lemma_shown(rest, num, i);
        let k = a.index_of(num.show(cells[i]->0));
        assert(b[k] == num.show(cells[i]->0));
    } else {
        assert(b[b.len() - 1] == num.show(cells[i]->0));
    }
}

proof fn lemma_somes(ts: Seq<Option<Seq<char>>>, i: int)
    requires
        0 <= i < ts.len(),
        ts[i] is Some,
    ensures
        somes(ts).contains(ts[i]->0),
    decreases ts.len(),
{
    let rest = ts.drop_last();
    let a = somes(rest);
    let b = somes(ts);
    if i < rest.len() {
        assert(rest[i] == ts[i]);
        lemma_somes(rest, i);
        let k = a.index_of(ts[i]->0);
        assert(b[k] == ts[i]->0);
    } else {
        assert(b[b.len() - 1] == ts[i]->0);
    }
}

pub proof fn lemma_position(levels: Seq<Seq<char>>, t: Seq<char>)
    requires
        levels.contains(t),
        levels.len() <= u64::MAX,
    ensures
        position(levels, t) is Some,
        (position(levels, t)->0 as int) < levels.len(),
        levels[position(levels, t)->0 as int] == t,
{
    lemma_index_of(levels, t);
}

/// Outside the block a paste changes nothing that can be read: a column keeps its values also
/// where its type or its dictionary changes.
pub proof fn law_paste_keeps_the_rest(
    p: PasteV,
    revision: u64,
    w: Result<Seq<u8>, Seq<char>>,
    j: int,
    i: int,
)
    requires
        pastable(p),
        paste_outcome(p, revision, w) is Ok,
        numbered_levels(paste_outcome(p, revision, w)->Ok_0.table),
        0 <= j < p.t.fields.len(),
        0 <= i < p.t.rows,
        !(p.col <= j < p.col + p.width() && p.row <= i < p.row + p.height()),
    ensures
        reading(paste_outcome(p, revision, w)->Ok_0.table, p.num, j, i) == reading(
            p.t,
            p.num,
            j,
            i,
        ),
{
    let t = p.t;
    let g = paste_outcome(p, revision, w)->Ok_0.table;
    let q = output_cols(p, p.new_cols())->Ok_0.0;
    lemma_pasted(p, revision, w);
    lemma_output_at(p, p.new_cols(), j);
    let oc = q[j];
    let c = j - p.col;
    assert(g.cols[j].len() == g.rows);
    assert(g.fields[j] == oc.field);
    assert(g.dicts[j] == oc.levels);
    assert(t.cols[j].len() == t.rows);
    assert(g.cols[j][i] == old_cell(oc, p.num, t.cols, i));
    let cell = t.cols[j][i];
    assert(cell_fits(t.fields[j], t.dicts[j], cell));
    assert(t.fields[j].level() is Some);
    if cell is Some && p.col <= j < p.col + p.width() {
        let k = cell->0;
        let a = p.before(t.cols[j]);
        let b = p.after(t.cols[j]);
        if i < p.row {
            assert(a[i] == cell);
        } else {
            assert(b[i - p.row - p.height()] == cell);
        }
        if p.remaps(c) {
            let levels = p.entry(c)->0.levels->0;
            assert(!p.t.fields[p.col + c].is_scale());
            lemma_remap_issue_none(p, p.width(), c);
            lemma_none_missing(t.dicts[j], a, b, levels, k as int);
            lemma_position(levels, t.dicts[j][k as int]);
        } else if p.promotes(c) {
            let all = promoted_texts(p, c);
            let s = p.num.show(k);
            assert(all.contains(s)) by {
                let x = shown(a, p.num);
                let y = somes(p.reads(c));
                let z = shown(b, p.num);
                if i < p.row {
                    lemma_shown(a, p.num, i);
                    let m = x.index_of(s);
                    assert(all[m] == s);
                } else {
                    lemma_shown(b, p.num, i - p.row - p.height());
                    let m = z.index_of(s);
                    assert(all[x.len() + y.len() + m] == s);
                }
            }
            lemma_deduped(all);
            lemma_prebuilt(deduped(all), p.num, p.sort_limit);
            lemma_position(oc.levels, s);
        } else if !t.fields[j].is_scale() {
            let keys = level_keys(canonical_dict(t.dicts[j], p.num), p.num, somes(p.reads(c)));
            lemma_extended(t.dicts[j], keys);
            assert(oc.levels.take(t.dicts[j].len() as int)[k as int] == oc.levels[k as int]);
        }
    }
}

/// Rows that a paste adds are empty where it does not land.
pub proof fn law_paste_fills_with_nulls(
    p: PasteV,
    revision: u64,
    w: Result<Seq<u8>, Seq<char>>,
    j: int,
    i: int,
)
    requires
        pastable(p),
        paste_outcome(p, revision, w) is Ok,
        0 <= j < p.new_cols(),
        0 <= i < p.new_rows(),
        i >= p.t.rows || j >= p.t.fields.len(),
        !(p.col <= j < p.col + p.width() && p.row <= i < p.row + p.height()),
    ensures
        paste_outcome(p, revision, w)->Ok_0.table.cols[j][i] is None,
{
    let t = p.t;
    let g = paste_outcome(p, revision, w)->Ok_0.table;
    let q = output_cols(p, p.new_cols())->Ok_0.0;
    lemma_pasted(p, revision, w);
    lemma_output_at(p, p.new_cols(), j);
    let oc = q[j];
    assert(block_cells(g.cols[j], oc, p.num, t.cols, t.rows, p.row, p.height() as u64));
    assert(g.cols[j].len() == g.rows);
    if j >= t.fields.len() {
        assert(oc.old is None);
    }
}

/// Whether pasted texts land in a column by the canonical spelling of the numbers they are: so
/// they do where the dictionary that takes them holds numbers only.
pub open spec fn lands_canonically(p: PasteV, c: int) -> bool {
    let j = p.col + c;
    if j < p.t.fields.len() {
        !p.remaps(c) && !p.promotes(c) && canonical_dict(p.t.dicts[j], p.num)
    } else {
        let e = p.entry(c);
        let declared = e is Some && e->0.ty is Some && e->0.levels is Some;
        !declared && p.num.active && first_unparsed(p.reads(c), p.num) is None
    }
}

proof fn lemma_undeclared(levels: Seq<Seq<char>>, ts: Seq<Option<Seq<char>>>, r: int)
    requires
        first_undeclared(levels, ts) is None,
        0 <= r < ts.len(),
        ts[r] is Some,
    ensures
        levels.contains(ts[r]->0),
    decreases ts.len(),
{
    let rest = ts.drop_last();
    if r < rest.len() {
        assert(rest[r] == ts[r]);
        lemma_undeclared(levels, rest, r);
    }
}

proof fn lemma_keyed(canonical: bool, num: NumeralsV, ts: Seq<Option<Seq<char>>>, r: int)
    requires
        0 <= r < ts.len(),
        ts[r] is Some,
    ensures
        level_keys(canonical, num, somes(ts)).contains(level_key(canonical, num, ts[r]->0)),
{
    lemma_somes(ts, r);
    let s = somes(ts);
    let k = s.index_of(ts[r]->0);
    assert(level_keys(canonical, num, s)[k] == level_key(canonical, num, ts[r]->0));
}

proof fn lemma_derived_level(p: PasteV, c: int, r: int)
    requires
        0 <= r < p.reads(c).len(),
        p.reads(c)[r] is Some,
    ensures
        ({
            let canonical = p.num.active && first_unparsed(p.reads(c), p.num) is None;
            derived(p.reads(c), p.num, p.threshold, p.sort_limit).levels.contains(
                level_key(canonical, p.num, p.reads(c)[r]->0),
            )
        }),
{
    let canonical = p.num.active && first_unparsed(p.reads(c), p.num) is None;
    let keys = level_keys(canonical, p.num, somes(p.reads(c)));
    lemma_keyed(canonical, p.num, p.reads(c), r);
    lemma_deduped(keys);
    lemma_prebuilt(deduped(keys), p.num, p.sort_limit);
}

/// What is pasted is what is read: a cell that reads as null is null, a text in a scale is its
/// number, and a text in a categorical column is its level, in the spelling of the column.
#[verifier::rlimit(50)]
pub proof fn law_paste_writes_the_block(
    p: PasteV,
    revision: u64,
    w: Result<Seq<u8>, Seq<char>>,
    c: int,
    r: int,
)
    requires
        pastable(p),
        paste_outcome(p, revision, w) is Ok,
        numbered_levels(paste_outcome(p, revision, w)->Ok_0.table),
        0 <= c < p.width(),
        0 <= r < p.height(),
    ensures
        ({
            let g = paste_outcome(p, revision, w)->Ok_0.table;
            let j = p.col + c;
            let i = p.row + r;
            match p.reads(c)[r] {
                None => g.cols[j][i] is None,
                Some(t) => if g.fields[j].kind is Dictionary {
                    reading(g, p.num, j, i) == Some(level_key(lands_canonically(p, c), p.num, t))
                } else {
                    g.cols[j][i] == p.num.parse(t)
                },
            }
        }),
{
    let t = p.t;
    let g = paste_outcome(p, revision, w)->Ok_0.table;
    let q = output_cols(p, p.new_cols())->Ok_0.0;
    let j = p.col + c;
    let i = p.row + r;
    let ts = p.reads(c);
    lemma_pasted(p, revision, w);
    lemma_output_at(p, p.new_cols(), j);
    let oc = q[j];
    assert(g.fields[j] == oc.field);
    assert(g.dicts[j] == oc.levels);
    assert(oc.levels.len() <= u64::MAX);
    assert(oc.window is Some);
    assert(g.cols[j].len() == g.rows);
    assert(g.cols[j][i] == window_cell(oc.window->0, r));
    if j < t.fields.len() {
        assert(t.fields[j].level() is Some);
        if p.remaps(c) {
            assert(!p.t.fields[p.col + c].is_scale());
            let levels = p.entry(c)->0.levels->0;
            if ts[r] is Some {
                lemma_undeclared(levels, ts, r);
                lemma_position(levels, ts[r]->0);
            }
        } else if p.promotes(c) {
            if ts[r] is Some {
                let all = promoted_texts(p, c);
                let x = shown(p.before(t.cols[j]), p.num);
                let y = somes(ts);
                lemma_somes(ts, r);
                let m = y.index_of(ts[r]->0);
                assert(all[x.len() + m] == ts[r]->0);
                assert(all.contains(ts[r]->0));
                lemma_deduped(all);
                lemma_prebuilt(deduped(all), p.num, p.sort_limit);
                lemma_position(oc.levels, ts[r]->0);
            }
        } else if !t.fields[j].is_scale() {
            if ts[r] is Some {
                let canonical = canonical_dict(t.dicts[j], p.num);
                let keys = level_keys(canonical, p.num, somes(ts));
                lemma_keyed(canonical, p.num, ts, r);
                lemma_extended(t.dicts[j], keys);
                let key = level_key(canonical, p.num, ts[r]->0);
                let m = keys.index_of(key);
                assert(keys[m] == key);
                lemma_position(oc.levels, key);
            }
        }
    } else {
        assert(created_col(p, c, plan_names(q.take(j))) is Ok);
        if ts[r] is Some {
            lemma_derived_level(p, c, r);
            let canonical = p.num.active && first_unparsed(ts, p.num) is None;
            let key = level_key(canonical, p.num, ts[r]->0);
            let d = derived(ts, p.num, p.threshold, p.sort_limit);
            if oc.levels == d.levels && oc.field.kind is Dictionary {
                lemma_position(oc.levels, key);
            }
            let e = p.entry(c);
            if e is Some && e->0.ty is Some && !(e->0.ty->0 is Scale) && e->0.levels is Some {
                lemma_undeclared(e->0.levels->0, ts, r);
                lemma_position(oc.levels, ts[r]->0);
            }
        }
    }
}

/// A paste without declared levels takes no level away and moves none: the old dictionary of a
/// categorical column begins the new one.
pub proof fn law_paste_only_adds_levels(
    p: PasteV,
    revision: u64,
    w: Result<Seq<u8>, Seq<char>>,
    j: int,
)
    requires
        pastable(p),
        paste_outcome(p, revision, w) is Ok,
        0 <= j < p.t.fields.len(),
        p.t.fields[j].kind is Dictionary,
        !(p.col <= j < p.col + p.width()) || !p.remaps(j - p.col),
    ensures
        ({
            let g = paste_outcome(p, revision, w)->Ok_0.table;
            p.t.dicts[j].is_prefix_of(g.dicts[j]) && g.fields[j] == p.t.fields[j]
        }),
{
    let g = paste_outcome(p, revision, w)->Ok_0.table;
    let q = output_cols(p, p.new_cols())->Ok_0.0;
    lemma_pasted(p, revision, w);
    lemma_output_at(p, p.new_cols(), j);
    assert(g.fields[j] == q[j].field);
    assert(g.dicts[j] == q[j].levels);
    let c = j - p.col;
    if p.col <= j < p.col + p.width() {
        let keys = level_keys(
            canonical_dict(p.t.dicts[j], p.num),
            p.num,
            somes(p.reads(c)),
        );
        lemma_extended(p.t.dicts[j], keys);
    }
    assert(p.t.dicts[j].is_prefix_of(g.dicts[j]));
}

/// A paste keeps a dataset rectangular, its keys within their dictionaries, and its levels
/// distinct.
pub proof fn law_paste_keeps_sound(p: PasteV, revision: u64, w: Result<Seq<u8>, Seq<char>>)
    requires
        pastable(p),
        forall|c: int|
            0 <= c < p.width() && (#[trigger] p.entry(c)) is Some && p.entry(c)->0.levels is Some
                ==> distinct(p.entry(c)->0.levels->0),
        paste_outcome(p, revision, w) is Ok,
    ensures
        ({
            let g = paste_outcome(p, revision, w)->Ok_0.table;
            g.wf() && g.supported() && (p.t.levels_distinct() ==> g.levels_distinct())
        }),
{
    let t = p.t;
    let g = paste_outcome(p, revision, w)->Ok_0.table;
    let q = output_cols(p, p.new_cols())->Ok_0.0;
    lemma_pasted(p, revision, w);
    assert forall|j: int| 0 <= j < g.dicts.len() && t.levels_distinct() implies distinct(
        #[trigger] g.dicts[j],
    ) by {
        lemma_output_at(p, p.new_cols(), j);
        assert(g.dicts[j] == q[j].levels);
        let c = j - p.col;
        if 0 <= c < p.width() {
            let ts = p.reads(c);
            let canonical = p.num.active && first_unparsed(ts, p.num) is None;
            let keys = level_keys(canonical, p.num, somes(ts));
            lemma_deduped(keys);
            lemma_prebuilt(deduped(keys), p.num, p.sort_limit);
            if j < t.fields.len() {
                lemma_deduped(promoted_texts(p, c));
                lemma_prebuilt(deduped(promoted_texts(p, c)), p.num, p.sort_limit);
                lemma_extended(
                    t.dicts[j],
                    level_keys(canonical_dict(t.dicts[j], p.num), p.num, somes(ts)),
                );
                assert(distinct(t.dicts[j]));
            } else {
                assert(created_col(p, c, plan_names(q.take(j))) is Ok);
            }
            assert(p.entry(c) is Some ==> (p.entry(c)->0.levels is Some ==> distinct(
                p.entry(c)->0.levels->0,
            )));
        } else if j < t.fields.len() {
            assert(distinct(t.dicts[j]));
        }
    }
}

} // verus!
