//! What a change of the schema rests on: numerals that agree on the levels and on how the numbers
//! of the table show give the same outcome.
use vstd::prelude::*;
use crate::agreement::{
    cells_alike, lemma_deduped_alike, lemma_prebuilt_alike, lemma_rewritten_alike,
    lemma_schema_alike, lemma_shown_alike, parses_alike, renders_alike,
};
use crate::json::JsonV;
use crate::number::NumeralsV;
use crate::paste::shown;
use crate::schema_change::{
    asked_changes, change_entries, change_issue, change_issues, changed_col, changed_cols,
    changed_field, data_issue, entry_columns, label_targets, lemma_classified, level_values,
    rebuild_of, rendered, schema_outcome, unparsed_levels, ChangeV,
};
use crate::segments::Seg;
use crate::table::{Cell, TableV};
use crate::undo_schema::lemma_entry_columns;

verus! {

/// Numerals agree on what a change of the schema of a table asks of them, as far as the table
/// goes.
pub open spec fn table_agrees(t: TableV, a: NumeralsV, b: NumeralsV) -> bool {
    &&& t.wf()
    &&& forall|j: int| 0 <= j < t.dicts.len() ==> parses_alike(a, b, #[trigger] t.dicts[j])
    &&& forall|j: int|
        0 <= j < t.fields.len() && (#[trigger] t.fields[j]).is_scale() ==> cells_alike(
            a,
            b,
            t.cols[j],
        )
}

/// A change of a column of the table whose declared levels read alike.
spec fn change_agrees(t: TableV, a: NumeralsV, b: NumeralsV, c: ChangeV) -> bool {
    &&& 0 <= c.j < t.fields.len()
    &&& c.rebuild == rebuild_of(t.fields[c.j].is_scale(), c.level, c.e.levels)
    &&& c.e.levels is Some ==> parses_alike(a, b, c.e.levels->0)
}

proof fn lemma_unparsed_levels_alike(
    a: NumeralsV,
    b: NumeralsV,
    levels: Seq<Seq<char>>,
    cells: Seq<Cell>,
)
    requires
        parses_alike(a, b, levels),
    ensures
        unparsed_levels(levels, cells, a) == unparsed_levels(levels, cells, b),
    decreases levels.len(),
{
    if levels.len() > 0 {
        let d = levels.drop_last();
        assert forall|i: int| 0 <= i < d.len() implies a.parse(#[trigger] d[i]) == b.parse(d[i]) by {
            assert(d[i] == levels[i]);
        }
        lemma_unparsed_levels_alike(a, b, d, cells);
        assert(a.parse(levels[levels.len() - 1]) == b.parse(levels[levels.len() - 1]));
    }
}

proof fn lemma_change_alike(t: TableV, a: NumeralsV, b: NumeralsV, limit: nat, c: ChangeV)
    requires
        table_agrees(t, a, b),
        change_agrees(t, a, b, c),
    ensures
        change_issue(t, a, c) == change_issue(t, b, c),
        changed_col(t, a, limit, c) == changed_col(t, b, limit, c),
        parses_alike(a, b, changed_col(t, a, limit, c).levels),
        renders_alike(changed_col(t, a, limit, c), a, b, t.cols, t.rows),
{
    let levels = t.dicts[c.j];
    assert(parses_alike(a, b, levels));
    lemma_unparsed_levels_alike(a, b, levels, t.cols[c.j]);
    assert forall|i: int| 0 <= i < levels.len() implies level_values(levels, a)[i] == level_values(
        levels,
        b,
    )[i] by {
        assert(a.parse(levels[i]) == b.parse(levels[i]));
    }
    assert(level_values(levels, a) =~= level_values(levels, b));
    if c.rebuild is ToCategorical {
        assert(t.fields[c.j].is_scale());
        lemma_shown_alike(a, b, t.cols[c.j]);
        lemma_deduped_alike(a, b, shown(t.cols[c.j], a));
        lemma_prebuilt_alike(a, b, rendered(t, a, c.j), limit);
        assert(t.cols[c.j].len() == t.rows);
    }
    assert(data_issue(t, a, c) == data_issue(t, b, c));
    assert(label_targets(t, a, c) == label_targets(t, b, c));
    assert(changed_field(t, a, c) == changed_field(t, b, c));
}

proof fn lemma_change_issues_alike(t: TableV, a: NumeralsV, b: NumeralsV, cs: Seq<ChangeV>)
    requires
        table_agrees(t, a, b),
        forall|k: int| 0 <= k < cs.len() ==> change_agrees(t, a, b, #[trigger] cs[k]),
    ensures
        change_issues(t, a, cs) == change_issues(t, b, cs),
    decreases cs.len(),
{
    if cs.len() > 0 {
        let d = cs.drop_last();
        assert forall|k: int| 0 <= k < d.len() implies change_agrees(t, a, b, #[trigger] d[k]) by {
            assert(d[k] == cs[k]);
        }
        lemma_change_issues_alike(t, a, b, d);
        assert(change_agrees(t, a, b, cs[cs.len() - 1]));
        lemma_change_alike(t, a, b, 0, cs.last());
    }
}

/// A change of the schema comes out the same under numerals that agree on what it asks of them.
pub proof fn lemma_schema_change_alike(
    t: TableV,
    a: NumeralsV,
    b: NumeralsV,
    limit: nat,
    target: JsonV,
    revision: u64,
    w: Result<Seq<u8>, Seq<char>>,
)
    requires
        table_agrees(t, a, b),
        asked_changes(t, target) is Ok ==> forall|k: int|
            0 <= k < asked_changes(t, target)->Ok_0.len() && (
            #[trigger] asked_changes(t, target)->Ok_0[k]).e.levels is Some ==> parses_alike(
                a,
                b,
                asked_changes(t, target)->Ok_0[k].e.levels->0,
            ),
    ensures
        schema_outcome(t, a, limit, target, revision, w) == schema_outcome(
            t,
            b,
            limit,
            target,
            revision,
            w,
        ),
{
    if asked_changes(t, target) is Ok {
        let cs = asked_changes(t, target)->Ok_0;
        let es = change_entries(target->Array_0)->Ok_0;
        let js = entry_columns(t.fields, es)->Ok_0;
        lemma_entry_columns(t.fields, es);
        lemma_classified(t, es, js);
        assert forall|k: int| 0 <= k < cs.len() implies change_agrees(t, a, b, #[trigger] cs[k]) by {
            assert(cs[k].j == js[k]);
        }
        lemma_change_issues_alike(t, a, b, cs);
        let plan = changed_cols(t, a, limit, cs);
        assert forall|k: int| 0 <= k < plan.len() implies plan[k] == changed_cols(
            t,
            b,
            limit,
            cs,
        )[k] && parses_alike(a, b, (#[trigger] plan[k]).levels) && renders_alike(
            plan[k],
            a,
            b,
            t.cols,
            t.rows,
        ) by {
            assert(change_agrees(t, a, b, cs[k]));
            lemma_change_alike(t, a, b, limit, cs[k]);
        }
        assert(plan =~= changed_cols(t, b, limit, cs));
        let segs = seq![Seg::Copy { out: 0, old: 0, len: t.rows as u64 }];
        lemma_rewritten_alike(t, plan, a, b, segs, t.rows);
        let after = crate::engine::rewritten(t, plan, a, segs, t.rows);
        if after is Ok {
            lemma_schema_alike(a, b, plan, after->Ok_0.cols);
        }
    }
}

} // verus!
