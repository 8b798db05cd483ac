//! What a paste rests on: numerals that agree on what is pasted and on what stands in the table
//! give the same outcome.
use vstd::prelude::*;
use crate::agreement::{
    cells_alike, lemma_absorbed_alike, lemma_deduped_alike, lemma_derived_alike, lemma_keys_alike,
    lemma_prebuilt_alike, lemma_rewritten_alike, lemma_schema_alike, lemma_shown_alike,
    lemma_unparsed_alike, parses_alike, reads_alike, renders_alike, shows_alike,
};
use crate::edit_block::{
    covered_col, created_col, output_cols, paste_capture, paste_inverse, paste_outcome,
    plan_names, promoted_texts, remap_issue, remap_issues, scale_issue, scale_issues, PasteV,
};
use crate::engine::OutColV;
use crate::levels::deduped;
use crate::number::NumeralsV;
use crate::paste::{positions, shown, somes};
use crate::segments::block_table;
use crate::table::Cell;

verus! {

/// The same paste under other numerals.
pub open spec fn under_numerals(p: PasteV, b: NumeralsV) -> PasteV {
    PasteV { num: b, ..p }
}

/// Numerals agree on what a paste asks of them.
pub open spec fn paste_agrees(p: PasteV, b: NumeralsV) -> bool {
    let a = p.num;
    &&& p.t.wf()
    &&& a.active == b.active
    &&& forall|c: int| 0 <= c < p.width() ==> reads_alike(a, b, #[trigger] p.reads(c))
    &&& forall|j: int| 0 <= j < p.t.dicts.len() ==> parses_alike(a, b, #[trigger] p.t.dicts[j])
    &&& forall|j: int|
        0 <= j < p.t.fields.len() && (#[trigger] p.t.fields[j]).is_scale() ==> cells_alike(
            a,
            b,
            p.t.cols[j],
        )
    &&& forall|c: int|
        0 <= c < p.width() && (#[trigger] p.entry(c)) is Some && p.entry(c)->0.levels is Some
            ==> parses_alike(a, b, p.entry(c)->0.levels->0)
}

proof fn lemma_part_alike(a: NumeralsV, b: NumeralsV, cells: Seq<Cell>, from: int, to: int)
    requires
        cells_alike(a, b, cells),
        0 <= from <= to <= cells.len(),
    ensures
        cells_alike(a, b, cells.subrange(from, to)),
{
    let s = cells.subrange(from, to);
    assert forall|r: int| 0 <= r < s.len() && (#[trigger] s[r]) is Some implies shows_alike(
        a,
        b,
        s[r]->0,
    ) by {
        assert(s[r] == cells[from + r]);
    }
}

proof fn lemma_promoted_alike(p: PasteV, b: NumeralsV, c: int)
    requires
        paste_agrees(p, b),
        0 <= c < p.width(),
        p.promotes(c),
    ensures
        promoted_texts(p, c) == promoted_texts(under_numerals(p, b), c),
        parses_alike(p.num, b, promoted_texts(p, c)),
{
    let a = p.num;
    let j = p.col + c;
    let cells = p.t.cols[j];
    assert(p.t.fields[j].is_scale());
    assert(cells.len() == p.t.rows);
    let x = p.before(cells);
    let y = p.after(cells);
    if p.row < cells.len() {
        assert(x =~= cells.subrange(0, p.row as int));
        lemma_part_alike(a, b, cells, 0, p.row as int);
    }
    if p.row + p.height() < cells.len() {
        assert(y =~= cells.subrange(p.row + p.height(), cells.len() as int));
        lemma_part_alike(a, b, cells, p.row + p.height(), cells.len() as int);
    }
    lemma_shown_alike(a, b, x);
    lemma_shown_alike(a, b, y);
    let ts = p.reads(c);
    assert(reads_alike(a, b, ts));
    lemma_keys_alike(a, b, false, ts);
    assert(crate::paste::level_keys(false, a, somes(ts)) =~= somes(ts));
    let all = promoted_texts(p, c);
    let head = shown(x, a);
    let mid = somes(ts);
    assert(all =~= head + mid + shown(y, a));
    assert forall|i: int| 0 <= i < all.len() implies a.parse(#[trigger] all[i]) == b.parse(all[i]) by {
        if i < head.len() {
            assert(all[i] == head[i]);
        } else if i < head.len() + mid.len() {
            assert(all[i] == mid[i - head.len()]);
        } else {
            assert(all[i] == shown(y, a)[i - head.len() - mid.len()]);
        }
    }
}

/// A column that both numerals make, and make alike.
spec fn made_alike(p: PasteV, b: NumeralsV, oc: OutColV) -> bool {
    parses_alike(p.num, b, oc.levels) && renders_alike(oc, p.num, b, p.t.cols, p.t.rows)
}

proof fn lemma_covered_alike(p: PasteV, b: NumeralsV, c: int)
    requires
        paste_agrees(p, b),
        0 <= c < p.width(),
        p.covers(c),
    ensures
        covered_col(p, c) == covered_col(under_numerals(p, b), c),
        covered_col(p, c) is Ok ==> made_alike(p, b, covered_col(p, c)->Ok_0.0),
        p.promotes(c) == under_numerals(p, b).promotes(c),
        scale_issue(p, c) == scale_issue(under_numerals(p, b), c),
{
    let a = p.num;
    let q = under_numerals(p, b);
    let j = p.col + c;
    let ts = p.reads(c);
    assert(q.reads(c) == ts);
    assert(reads_alike(a, b, ts));
    lemma_unparsed_alike(a, b, ts);
    lemma_keys_alike(a, b, false, ts);
    assert(q.entry(c) == p.entry(c));
    assert(parses_alike(a, b, p.t.dicts[j]));
    if p.remaps(c) {
        let levels = p.entry(c)->0.levels->0;
        assert(positions(levels, false, a, ts) == positions(levels, false, b, ts));
    } else if p.promotes(c) {
        lemma_promoted_alike(p, b, c);
        let all = promoted_texts(p, c);
        lemma_deduped_alike(a, b, all);
        lemma_prebuilt_alike(a, b, deduped(all), p.sort_limit);
        let levels = covered_col(p, c)->Ok_0.0.levels;
        assert(positions(levels, false, a, ts) == positions(levels, false, b, ts));
        assert(p.t.fields[j].is_scale());
        assert(p.t.cols[j].len() == p.t.rows);
    } else if !p.t.fields[j].is_scale() {
        lemma_absorbed_alike(a, b, p.t.dicts[j], ts);
    }
}

proof fn lemma_created_alike(p: PasteV, b: NumeralsV, c: int, used: Seq<Seq<char>>)
    requires
        paste_agrees(p, b),
        0 <= c < p.width(),
    ensures
        created_col(p, c, used) == created_col(under_numerals(p, b), c, used),
        created_col(p, c, used) is Ok ==> made_alike(p, b, created_col(p, c, used)->Ok_0),
{
    let a = p.num;
    let q = under_numerals(p, b);
    let ts = p.reads(c);
    assert(q.reads(c) == ts);
    assert(reads_alike(a, b, ts));
    lemma_unparsed_alike(a, b, ts);
    lemma_keys_alike(a, b, false, ts);
    lemma_derived_alike(a, b, ts, p.threshold, p.sort_limit);
    assert(q.entry(c) == p.entry(c));
    if p.entry(c) is Some && p.entry(c)->0.levels is Some {
        let levels = p.entry(c)->0.levels->0;
        assert(positions(levels, false, a, ts) == positions(levels, false, b, ts));
    }
}

proof fn lemma_output_alike(p: PasteV, b: NumeralsV, k: nat)
    requires
        paste_agrees(p, b),
    ensures
        output_cols(p, k) == output_cols(under_numerals(p, b), k),
        output_cols(p, k) is Ok ==> forall|c: int|
            0 <= c < output_cols(p, k)->Ok_0.0.len() ==> made_alike(
                p,
                b,
                #[trigger] output_cols(p, k)->Ok_0.0[c],
            ),
    decreases k,
{
    if k > 0 {
        lemma_output_alike(p, b, (k - 1) as nat);
        if output_cols(p, (k - 1) as nat) is Ok {
            let prior = output_cols(p, (k - 1) as nat)->Ok_0.0;
            let used = plan_names(prior);
            let j = k - 1;
            let c = j - p.col;
            if 0 <= c < p.width() {
                if j < p.t.fields.len() {
                    lemma_covered_alike(p, b, c);
                } else {
                    lemma_created_alike(p, b, c, used);
                }
            } else if j < p.t.fields.len() {
                assert(parses_alike(p.num, b, p.t.dicts[j]));
            }
            if output_cols(p, k) is Ok {
                let all = output_cols(p, k)->Ok_0.0;
                assert forall|i: int| 0 <= i < all.len() implies made_alike(
                    p,
                    b,
                    #[trigger] all[i],
                ) by {
                    if i < prior.len() {
                        assert(all[i] == prior[i]);
                    }
                }
            }
        }
    }
}

proof fn lemma_issues_alike(p: PasteV, b: NumeralsV, k: nat)
    requires
        paste_agrees(p, b),
        k <= p.width(),
    ensures
        scale_issues(p, k) == scale_issues(under_numerals(p, b), k),
        remap_issues(p, k) == remap_issues(under_numerals(p, b), k),
        p.reencodes_before(k) == under_numerals(p, b).reencodes_before(k),
    decreases k,
{
    if k > 0 {
        lemma_issues_alike(p, b, (k - 1) as nat);
        let q = under_numerals(p, b);
        let c = k - 1;
        if p.covers(c) {
            lemma_covered_alike(p, b, c);
        }
        assert(q.entry(c) == p.entry(c));
        assert(p.remaps(c) == q.remaps(c));
        assert(remap_issue(p, c) == remap_issue(q, c)) by {
            if p.remaps(c) {
                let cells = p.t.cols[p.col + c];
                assert(p.before(cells) == q.before(cells));
                assert(p.after(cells) == q.after(cells));
            }
        }
    }
}

/// A paste comes out the same under numerals that agree on what it asks of them.
pub proof fn lemma_paste_alike(
    p: PasteV,
    b: NumeralsV,
    revision: u64,
    w: Result<Seq<u8>, Seq<char>>,
)
    requires
        paste_agrees(p, b),
    ensures
        paste_capture(p) == paste_capture(under_numerals(p, b)),
        paste_outcome(p, revision, w) == paste_outcome(under_numerals(p, b), revision, w),
{
    let q = under_numerals(p, b);
    lemma_issues_alike(p, b, p.width());
    lemma_output_alike(p, b, p.new_cols());
    assert(paste_inverse(p, revision) == paste_inverse(q, revision));
    if output_cols(p, p.new_cols()) is Ok {
        let plan = output_cols(p, p.new_cols())->Ok_0.0;
        let segs = block_table(p.t.rows as u64, p.row, p.height() as u64);
        assert forall|c: int| 0 <= c < plan.len() implies renders_alike(
            #[trigger] plan[c],
            p.num,
            b,
            p.t.cols,
            p.t.rows,
        ) && parses_alike(p.num, b, plan[c].levels) by {
            assert(made_alike(p, b, plan[c]));
        }
        lemma_rewritten_alike(p.t, plan, p.num, b, segs, p.new_rows());
        let after = crate::engine::rewritten(p.t, plan, p.num, segs, p.new_rows());
        if after is Ok {
            lemma_schema_alike(p.num, b, plan, after->Ok_0.cols);
        }
    }
}

} // verus!
