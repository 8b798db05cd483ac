//! Edits that are in order land: what was found to have no issue cannot fail while it is rewritten.
use vstd::prelude::*;
use crate::capture::sealed;
use crate::edit_block::{
    covered_col, created_col, lemma_block_rows, output_cols, paste_outcome, plan_names,
    remap_issues, scale_issues, window_sound, PasteV,
};
use crate::edit_cols::lemma_one;
use crate::engine::{
    lemma_walked_len, old_cell, plan_fits, rewritten, seg_cell, seg_cells, walked, window_cell,
    OutColV, UnderV,
};
use crate::json::JsonV;
use crate::levels::position;
use crate::messages::FailureV;
use crate::number::NumeralsV;
use crate::outcome::OutcomeV;
use crate::paste::{canonical_dict, key_map, lemma_extended, level_keys, positions, somes};
use crate::schema_change::{
    asked_changes, change_issues, changed_col, changed_cols, lemma_classified, reencoded,
    schema_outcome, ChangeV,
};
use crate::segments::{block_table, table_overrun, table_rows, Seg};
use crate::table::{cell_fits, Cell, TableV, MAX_ROWS};
use crate::text::lemma_index_of;
use crate::undo_block::lemma_output_at;

verus! {

/// The lengths of the dictionaries that a plan gives are machine numbers.
pub open spec fn countable_plan(plan: Seq<OutColV>) -> bool {
    forall|c: int| 0 <= c < plan.len() ==> (#[trigger] plan[c]).levels.len() <= u64::MAX
}

/// Every cell that an output column can take lies in its dictionary.
spec fn column_fits(oc: OutColV, num: NumeralsV, cols: Seq<Seq<Cell>>, n: nat) -> bool {
    &&& forall|r: int|
        0 <= r < n ==> cell_fits(oc.field, oc.levels, #[trigger] old_cell(oc, num, cols, r))
    &&& oc.window is Some ==> forall|i: int|
        cell_fits(oc.field, oc.levels, #[trigger] window_cell(oc.window->0, i))
}

proof fn lemma_walked_fits(
    oc: OutColV,
    num: NumeralsV,
    cols: Seq<Seq<Cell>>,
    n: nat,
    segs: Seq<Seg>,
)
    requires
        column_fits(oc, num, cols, n),
        table_overrun(segs, n) is None,
    ensures
        forall|i: int|
            0 <= i < table_rows(segs) ==> cell_fits(
                oc.field,
                oc.levels,
                #[trigger] walked(oc, num, cols, n, segs)[i],
            ),
    decreases segs.len(),
{
    if segs.len() > 0 {
        let head = segs.drop_last();
        let seg = segs.last();
        lemma_walked_fits(oc, num, cols, n, head);
        lemma_walked_len(oc, num, cols, n, head);
        let m = table_rows(head) as int;
        assert forall|i: int| 0 <= i < table_rows(segs) implies cell_fits(
            oc.field,
            oc.levels,
            #[trigger] walked(oc, num, cols, n, segs)[i],
        ) by {
            if i < m {
                assert(walked(oc, num, cols, n, segs)[i] == walked(oc, num, cols, n, head)[i]);
            } else {
                let k = i - m;
                assert(walked(oc, num, cols, n, segs)[i] == seg_cells(oc, num, cols, n, seg)[k]);
                assert(seg_cells(oc, num, cols, n, seg)[k] == seg_cell(oc, num, cols, n, seg, k));
                match seg {
                    Seg::Copy { old, .. } => {
                        assert(cell_fits(
                            oc.field,
                            oc.levels,
                            old_cell(oc, num, cols, old + k),
                        ));
                    },
                    Seg::Block { out, .. } => {
                        if oc.window is None && out + k < n {
                            assert(cell_fits(
                                oc.field,
                                oc.levels,
                                old_cell(oc, num, cols, out + k),
                            ));
                        }
                    },
                    _ => {},
                }
            }
        }
    }
}

/// A rewrite whose columns fit succeeds.
proof fn lemma_rewrite_lands(
    t: TableV,
    plan: Seq<OutColV>,
    num: NumeralsV,
    segs: Seq<Seg>,
    total: nat,
)
    requires
        table_overrun(segs, t.rows) is None,
        table_rows(segs) == total,
        forall|c: int| 0 <= c < plan.len() ==> column_fits(#[trigger] plan[c], num, t.cols, t.rows),
    ensures
        rewritten(t, plan, num, segs, total) is Ok,
{
    assert forall|c: int, i: int| 0 <= c < plan.len() && 0 <= i < table_rows(segs) implies cell_fits(
        plan[c].field,
        plan[c].levels,
        #[trigger] walked(plan[c], num, t.cols, t.rows, segs)[i],
    ) by {
        lemma_walked_fits(plan[c], num, t.cols, t.rows, segs);
    }
    assert(plan_fits(t, plan, num, segs));
}

/// The position of a level lies in the dictionary.
proof fn lemma_position_inside(levels: Seq<Seq<char>>, s: Seq<char>)
    requires
        levels.len() <= u64::MAX,
    ensures
        position(levels, s) is Some ==> position(levels, s)->0 < levels.len(),
{
    lemma_index_of(levels, s);
}

/// An old cell of a sound table stays in a dictionary that is no shorter, moves to its level's
/// place, or moves to the place of its rendering.
proof fn lemma_under_fits(t: TableV, oc: OutColV, num: NumeralsV)
    requires
        t.wf(),
        oc.old is Some,
        0 <= oc.old->0 < t.fields.len(),
        oc.levels.len() <= u64::MAX,
        match oc.under {
            UnderV::Same => oc.field.kind is Dictionary ==> t.fields[oc.old->0].kind is Dictionary
                && t.dicts[oc.old->0].len() <= oc.levels.len(),
            UnderV::Remap(m) => oc.field.kind is Dictionary ==> m == key_map(
                t.dicts[oc.old->0],
                oc.levels,
            ),
            _ => true,
        },
    ensures
        forall|r: int|
            0 <= r < t.rows ==> cell_fits(
                oc.field,
                oc.levels,
                #[trigger] old_cell(oc, num, t.cols, r),
            ),
{
    let j = oc.old->0;
    assert forall|r: int| 0 <= r < t.rows implies cell_fits(
        oc.field,
        oc.levels,
        #[trigger] old_cell(oc, num, t.cols, r),
    ) by {
        let c = t.cols[j][r];
        assert(cell_fits(t.fields[j], t.dicts[j], c));
        if oc.field.kind is Dictionary && c is Some {
            match oc.under {
                UnderV::Remap(m) => {
                    if c->0 < m.len() {
                        lemma_position_inside(oc.levels, t.dicts[j][c->0 as int]);
                    }
                },
                UnderV::Render => {
                    lemma_position_inside(oc.levels, num.show(c->0));
                },
                _ => {},
            }
        }
    }
}

/// The positions of pasted texts lie in the dictionary.
proof fn lemma_positions_fit(
    oc: OutColV,
    canonical: bool,
    num: NumeralsV,
    ts: Seq<Option<Seq<char>>>,
)
    requires
        oc.levels.len() <= u64::MAX,
        oc.window == Some(positions(oc.levels, canonical, num, ts)),
    ensures
        forall|i: int| cell_fits(oc.field, oc.levels, #[trigger] window_cell(oc.window->0, i)),
{
    assert forall|i: int| cell_fits(
        oc.field,
        oc.levels,
        #[trigger] window_cell(oc.window->0, i),
    ) by {
        if 0 <= i < ts.len() && ts[i] is Some {
            lemma_position_inside(oc.levels, crate::paste::level_key(canonical, num, ts[i]->0));
        }
    }
}

proof fn lemma_changed_fits(t: TableV, num: NumeralsV, limit: nat, c: ChangeV)
    requires
        t.wf(),
        t.supported(),
        0 <= c.j < t.fields.len(),
        c.rebuild == crate::schema_change::rebuild_of(
            t.fields[c.j].is_scale(),
            c.level,
            c.e.levels,
        ),
        changed_col(t, num, limit, c).levels.len() <= u64::MAX,
    ensures
        column_fits(changed_col(t, num, limit, c), num, t.cols, t.rows),
{
    assert(t.fields[c.j].level() is Some);
    lemma_under_fits(t, changed_col(t, num, limit, c), num);
}

/// A change of the schema that the data has nothing against lands: all that can still fail is the
/// capture of the columns that are re-encoded.
pub proof fn law_sound_schema_changes_land(
    t: TableV,
    num: NumeralsV,
    limit: nat,
    target: JsonV,
    revision: u64,
    w: Result<Seq<u8>, Seq<char>>,
)
    requires
        t.wf(),
        t.supported(),
        asked_changes(t, target) is Ok,
        change_issues(t, num, asked_changes(t, target)->Ok_0) is None,
        countable_plan(changed_cols(t, num, limit, asked_changes(t, target)->Ok_0)),
    ensures
        match sealed(w) {
            Ok(_) => schema_outcome(t, num, limit, target, revision, w) is Ok,
            Err(f) => if reencoded(asked_changes(t, target)->Ok_0).len() == 0 {
                schema_outcome(t, num, limit, target, revision, w) is Ok
            } else {
                schema_outcome(t, num, limit, target, revision, w) == Err::<OutcomeV, FailureV>(f)
            },
        },
{
    let cs = asked_changes(t, target)->Ok_0;
    let plan = changed_cols(t, num, limit, cs);
    let es = crate::schema_change::change_entries(target->Array_0)->Ok_0;
    let js = crate::schema_change::entry_columns(t.fields, es)->Ok_0;
    let seg = Seg::Copy { out: 0, old: 0, len: t.rows as u64 };
    crate::undo_schema::lemma_entry_columns(t.fields, es);
    lemma_classified(t, es, js);
    assert forall|k: int| 0 <= k < plan.len() implies column_fits(
        #[trigger] plan[k],
        num,
        t.cols,
        t.rows,
    ) by {
        assert(cs[k].j == js[k]);
        assert(plan[k].levels.len() <= u64::MAX);
        lemma_changed_fits(t, num, limit, cs[k]);
    }
    lemma_one(arbitrary(), num, t.cols, t.rows, seg);
    lemma_rewrite_lands(t, plan, num, seq![seg], t.rows);
}

proof fn lemma_covered_fits(p: PasteV, c: int)
    requires
        p.t.wf(),
        p.t.supported(),
        window_sound(p),
        0 <= c < p.width(),
        p.covers(c),
        covered_col(p, c) is Ok,
        covered_col(p, c)->Ok_0.0.levels.len() <= u64::MAX,
    ensures
        column_fits(covered_col(p, c)->Ok_0.0, p.num, p.t.cols, p.t.rows),
{
    let oc = covered_col(p, c)->Ok_0.0;
    let j = p.col + c;
    let ts = p.reads(c);
    assert(p.t.fields[j].level() is Some);
    if p.remaps(c) || p.promotes(c) {
        lemma_positions_fit(oc, false, p.num, ts);
    } else if !p.t.fields[j].is_scale() {
        let canonical = canonical_dict(p.t.dicts[j], p.num);
        lemma_extended(p.t.dicts[j], level_keys(canonical, p.num, somes(ts)));
        lemma_positions_fit(oc, canonical, p.num, ts);
    }
    lemma_under_fits(p.t, oc, p.num);
}

proof fn lemma_created_fits(p: PasteV, c: int, used: Seq<Seq<char>>)
    requires
        created_col(p, c, used) is Ok,
        created_col(p, c, used)->Ok_0.levels.len() <= u64::MAX,
    ensures
        column_fits(created_col(p, c, used)->Ok_0, p.num, p.t.cols, p.t.rows),
{
    let oc = created_col(p, c, used)->Ok_0;
    let ts = p.reads(c);
    if oc.field.kind is Dictionary {
        if p.entry(c) is Some && p.entry(c)->0.ty is Some && p.entry(c)->0.levels is Some {
            lemma_positions_fit(oc, false, p.num, ts);
        } else {
            let canonical = p.num.active && crate::paste::first_unparsed(ts, p.num) is None;
            lemma_positions_fit(oc, canonical, p.num, ts);
        }
    }
}

/// A paste in which no issue was found lands: all that can still fail is the capture of what it
/// covers.
pub proof fn law_sound_pastes_land(p: PasteV, revision: u64, w: Result<Seq<u8>, Seq<char>>)
    requires
        p.t.wf(),
        p.t.supported(),
        window_sound(p),
        p.row + p.height() <= u64::MAX,
        p.new_rows() <= MAX_ROWS,
        p.col + p.width() <= u64::MAX,
        scale_issues(p, p.width()) is None,
        remap_issues(p, p.width()) is None,
        output_cols(p, p.new_cols()) is Ok,
        countable_plan(output_cols(p, p.new_cols())->Ok_0.0),
    ensures
        match sealed(w) {
            Ok(_) => paste_outcome(p, revision, w) is Ok,
            Err(f) => if p.touched().len() == 0 {
                paste_outcome(p, revision, w) is Ok
            } else {
                paste_outcome(p, revision, w) == Err::<OutcomeV, FailureV>(f)
            },
        },
{
    let plan = output_cols(p, p.new_cols())->Ok_0.0;
    let segs = block_table(p.t.rows as u64, p.row, p.height() as u64);
    lemma_block_rows(p.t.rows as u64, p.row, p.height() as u64);
    assert forall|j: int| 0 <= j < plan.len() implies column_fits(
        #[trigger] plan[j],
        p.num,
        p.t.cols,
        p.t.rows,
    ) by {
        crate::undo_block::lemma_output_len(p, p.new_cols());
        lemma_output_at(p, p.new_cols(), j);
        let c = j - p.col;
        assert(plan[j].levels.len() <= u64::MAX);
        if 0 <= c < p.width() {
            if j < p.t.fields.len() {
                lemma_covered_fits(p, c);
            } else {
                lemma_created_fits(p, c, plan_names(plan.take(j)));
            }
        } else if j < p.t.fields.len() {
            lemma_under_fits(p.t, plan[j], p.num);
        }
    }
    lemma_rewrite_lands(p.t, plan, p.num, segs, p.new_rows());
}

} // verus!
