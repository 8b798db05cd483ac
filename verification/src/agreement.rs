//! What an edit rests on: numerals that agree on what an edit asks of them give the same outcome.
use vstd::prelude::*;
use crate::capture::ColumnV;
use crate::edit_cols::{delete_cols_outcome, restore_cols_outcome};
use crate::edit_rows::{
    delete_rows_outcome, program_u64, restore_rows_outcome, restore_rows_plan,
};
use crate::engine::{plan_fits, planned, rewritten, seg_cell, seg_cells, walked, OutColV};
use crate::json::{text_at, JsonV};
use crate::levels::{
    all_numbers, deduped, lemma_deduped, lemma_prebuilt, lemma_sorted, prebuilt, rank, sorted,
};
use crate::messages::{FailureV, InverseMetaV};
use crate::number::NumeralsV;
use crate::outcome::OutcomeV;
use crate::paste::{
    absorbed_keys, absorbed_levels, canonical_dict, derived, extended, first_unparsed, level_keys,
    positions, shown, somes, typed,
};
use crate::restore_block::{
    block_restore, restore_block_outcome, restore_table, restored_block_cols,
};
use crate::restore_schema::{
    restore_schema_outcome, restored_schema_cols, schema_restore,
    SchemaRestoreV,
};
use crate::segments::{table_overrun, table_rows, Seg};
use crate::serve::inverse_outcome;
use crate::table::{cell_fits, Cell, TableV};
use crate::wire::{level_numbers, schema_json};

verus! {

/// Numerals show alike the old numbers that an output column renders.
pub open spec fn renders_alike(
    oc: OutColV,
    a: NumeralsV,
    b: NumeralsV,
    cols: Seq<Seq<Cell>>,
    n: nat,
) -> bool {
    oc.under is Render && oc.old is Some ==> forall|r: int|
        0 <= r < n && (#[trigger] cols[oc.old->0][r]) is Some ==> a.show(cols[oc.old->0][r]->0)
            == b.show(cols[oc.old->0][r]->0)
}

proof fn lemma_walked_alike(
    oc: OutColV,
    a: NumeralsV,
    b: NumeralsV,
    cols: Seq<Seq<Cell>>,
    n: nat,
    segs: Seq<Seg>,
)
    requires
        renders_alike(oc, a, b, cols, n),
        table_overrun(segs, n) is None,
    ensures
        walked(oc, a, cols, n, segs) == walked(oc, b, cols, n, segs),
    decreases segs.len(),
{
    if segs.len() > 0 {
        lemma_walked_alike(oc, a, b, cols, n, segs.drop_last());
        let seg = segs.last();
        assert forall|i: int| 0 <= i < seg.rows() implies seg_cell(oc, a, cols, n, seg, i) == seg_cell(
            oc,
            b,
            cols,
            n,
            seg,
            i,
        ) by {
            if oc.old is Some {
                let j = oc.old->0;
                match seg {
                    Seg::Copy { old, len, .. } => {
                        assert(cols[j][old + i] is Some || cols[j][old + i] is None);
                    },
                    Seg::Block { out, .. } => {
                        assert(cols[j][out + i] is Some || cols[j][out + i] is None);
                    },
                    _ => {},
                }
            }
        }
        assert(seg_cells(oc, a, cols, n, seg) =~= seg_cells(oc, b, cols, n, seg));
    }
}

/// A rewrite asks only how the numbers that it renders show.
pub proof fn lemma_rewritten_alike(
    t: TableV,
    plan: Seq<OutColV>,
    a: NumeralsV,
    b: NumeralsV,
    segs: Seq<Seg>,
    total: nat,
)
    requires
        forall|c: int|
            0 <= c < plan.len() ==> renders_alike(#[trigger] plan[c], a, b, t.cols, t.rows),
    ensures
        rewritten(t, plan, a, segs, total) == rewritten(t, plan, b, segs, total),
{
    if table_overrun(segs, t.rows) is None {
        assert forall|c: int| 0 <= c < plan.len() implies #[trigger] walked(
            plan[c],
            a,
            t.cols,
            t.rows,
            segs,
        ) == walked(plan[c], b, t.cols, t.rows, segs) by {
            lemma_walked_alike(plan[c], a, b, t.cols, t.rows, segs);
        }
        assert(planned(t, plan, a, segs, total).cols =~= planned(t, plan, b, segs, total).cols);
        assert(plan_fits(t, plan, a, segs) == plan_fits(t, plan, b, segs)) by {
            if plan_fits(t, plan, a, segs) {
                assert forall|c: int, i: int|
                    0 <= c < plan.len() && 0 <= i < table_rows(segs) implies cell_fits(
                    plan[c].field,
                    plan[c].levels,
                    #[trigger] walked(plan[c], b, t.cols, t.rows, segs)[i],
                ) by {
                    assert(walked(plan[c], b, t.cols, t.rows, segs) == walked(
                        plan[c],
                        a,
                        t.cols,
                        t.rows,
                        segs,
                    ));
                }
            }
            if plan_fits(t, plan, b, segs) {
                assert forall|c: int, i: int|
                    0 <= c < plan.len() && 0 <= i < table_rows(segs) implies cell_fits(
                    plan[c].field,
                    plan[c].levels,
                    #[trigger] walked(plan[c], a, t.cols, t.rows, segs)[i],
                ) by {
                    assert(walked(plan[c], a, t.cols, t.rows, segs) == walked(
                        plan[c],
                        b,
                        t.cols,
                        t.rows,
                        segs,
                    ));
                }
            }
        }
    }
}

/// Numerals read the same numbers in texts.
pub open spec fn parses_alike(a: NumeralsV, b: NumeralsV, s: Seq<Seq<char>>) -> bool {
    forall|i: int| 0 <= i < s.len() ==> a.parse(#[trigger] s[i]) == b.parse(s[i])
}

proof fn lemma_level_numbers_alike(a: NumeralsV, b: NumeralsV, levels: Seq<Seq<char>>)
    requires
        parses_alike(a, b, levels),
    ensures
        level_numbers(levels, a) == level_numbers(levels, b),
    decreases levels.len(),
{
    if levels.len() > 0 {
        let d = levels.drop_last();
        assert forall|i: int| 0 <= i < d.len() implies a.parse(#[trigger] d[i]) == b.parse(d[i]) by {
            assert(d[i] == levels[i]);
        }
        lemma_level_numbers_alike(a, b, d);
        assert(a.parse(levels[levels.len() - 1]) == b.parse(levels[levels.len() - 1]));
    }
}

/// Frontends are told the same of columns whose levels read alike.
pub proof fn lemma_schema_alike(a: NumeralsV, b: NumeralsV, plan: Seq<OutColV>, cols: Seq<Seq<Cell>>)
    requires
        forall|c: int| 0 <= c < plan.len() ==> parses_alike(a, b, (#[trigger] plan[c]).levels),
    ensures
        schema_json(plan, cols, a) == schema_json(plan, cols, b),
{
    let x = schema_json(plan, cols, a)->Array_0;
    let y = schema_json(plan, cols, b)->Array_0;
    assert forall|c: int| 0 <= c < plan.len() implies x[c] == y[c] by {
        assert(parses_alike(a, b, plan[c].levels));
        lemma_level_numbers_alike(a, b, plan[c].levels);
    }
    assert(x =~= y);
}

proof fn lemma_rank_alike(
    a: NumeralsV,
    b: NumeralsV,
    numeric: bool,
    s: Seq<Seq<char>>,
    t: Seq<char>,
)
    requires
        parses_alike(a, b, s),
        a.parse(t) == b.parse(t),
    ensures
        rank(a, numeric, s, t) == rank(b, numeric, s, t),
    decreases s.len(),
{
    if s.len() > 0 {
        let d = s.drop_last();
        assert(parses_alike(a, b, d)) by {
            assert forall|i: int| 0 <= i < d.len() implies a.parse(#[trigger] d[i]) == b.parse(
                d[i],
            ) by {
                assert(d[i] == s[i]);
            }
        }
        lemma_rank_alike(a, b, numeric, d, t);
        assert(a.parse(s[s.len() - 1]) == b.parse(s[s.len() - 1]));
    }
}

proof fn lemma_sorted_alike(a: NumeralsV, b: NumeralsV, numeric: bool, s: Seq<Seq<char>>)
    requires
        parses_alike(a, b, s),
    ensures
        sorted(a, numeric, s) == sorted(b, numeric, s),
    decreases s.len(),
{
    if s.len() > 0 {
        let d = s.drop_last();
        assert(parses_alike(a, b, d)) by {
            assert forall|i: int| 0 <= i < d.len() implies a.parse(#[trigger] d[i]) == b.parse(
                d[i],
            ) by {
                assert(d[i] == s[i]);
            }
        }
        lemma_sorted_alike(a, b, numeric, d);
        let p = sorted(a, numeric, d);
        lemma_sorted(a, numeric, d);
        assert(parses_alike(a, b, p)) by {
            assert forall|i: int| 0 <= i < p.len() implies a.parse(#[trigger] p[i]) == b.parse(
                p[i],
            ) by {
                assert(p.contains(p[i]));
                let k = d.index_of(p[i]);
                assert(a.parse(d[k]) == b.parse(d[k]));
            }
        }
        assert(a.parse(s[s.len() - 1]) == b.parse(s[s.len() - 1]));
        lemma_rank_alike(a, b, numeric, p, s.last());
    }
}

/// A dictionary comes out the same where its levels read alike, and its levels read alike.
pub proof fn lemma_prebuilt_alike(a: NumeralsV, b: NumeralsV, s: Seq<Seq<char>>, limit: nat)
    requires
        parses_alike(a, b, s),
    ensures
        prebuilt(s, a, limit) == prebuilt(s, b, limit),
        parses_alike(a, b, prebuilt(s, a, limit)),
{
    assert(all_numbers(s, a) == all_numbers(s, b)) by {
        if all_numbers(s, a) {
            assert forall|i: int| 0 <= i < s.len() implies b.parse(#[trigger] s[i]) is Some by {
                assert(a.parse(s[i]) is Some);
            }
        }
        if all_numbers(s, b) {
            assert forall|i: int| 0 <= i < s.len() implies a.parse(#[trigger] s[i]) is Some by {
                assert(b.parse(s[i]) is Some);
            }
        }
    }
    lemma_sorted_alike(a, b, all_numbers(s, a), s);
    lemma_prebuilt(s, a, limit);
    let p = prebuilt(s, a, limit);
    assert forall|i: int| 0 <= i < p.len() implies a.parse(#[trigger] p[i]) == b.parse(p[i]) by {
        assert(p.contains(p[i]));
        let k = s.index_of(p[i]);
        assert(a.parse(s[k]) == b.parse(s[k]));
    }
}

/// Texts without repeats read alike where the texts do.
pub proof fn lemma_deduped_alike(a: NumeralsV, b: NumeralsV, s: Seq<Seq<char>>)
    requires
        parses_alike(a, b, s),
    ensures
        parses_alike(a, b, deduped(s)),
{
    lemma_deduped(s);
    let p = deduped(s);
    assert forall|i: int| 0 <= i < p.len() implies a.parse(#[trigger] p[i]) == b.parse(p[i]) by {
        assert(p.contains(p[i]));
        let k = s.index_of(p[i]);
        assert(a.parse(s[k]) == b.parse(s[k]));
    }
}

/// Numerals take a text for the same number and the same canonical form, which reads the same.
pub open spec fn alike(a: NumeralsV, b: NumeralsV, s: Seq<char>) -> bool {
    a.parse(s) == b.parse(s) && a.canon(s) == b.canon(s) && a.parse(a.canon(s)) == b.parse(
        a.canon(s),
    )
}

/// Numerals show a number alike, and read alike what is shown.
pub open spec fn shows_alike(a: NumeralsV, b: NumeralsV, bits: u64) -> bool {
    a.show(bits) == b.show(bits) && a.parse(a.show(bits)) == b.parse(a.show(bits))
}

/// Numerals take the texts of a pasted column alike.
pub open spec fn reads_alike(a: NumeralsV, b: NumeralsV, ts: Seq<Option<Seq<char>>>) -> bool {
    forall|r: int| 0 <= r < ts.len() && (#[trigger] ts[r]) is Some ==> alike(a, b, ts[r]->0)
}

/// Numerals show the numbers of cells alike.
pub open spec fn cells_alike(a: NumeralsV, b: NumeralsV, cells: Seq<Cell>) -> bool {
    forall|r: int| 0 <= r < cells.len() && (#[trigger] cells[r]) is Some ==> shows_alike(
        a,
        b,
        cells[r]->0,
    )
}

pub proof fn lemma_unparsed_alike(a: NumeralsV, b: NumeralsV, ts: Seq<Option<Seq<char>>>)
    requires
        reads_alike(a, b, ts),
    ensures
        first_unparsed(ts, a) == first_unparsed(ts, b),
        typed(ts, a) == typed(ts, b),
    decreases ts.len(),
{
    assert forall|r: int| 0 <= r < ts.len() implies typed(ts, a)[r] == typed(ts, b)[r] by {
        assert(ts[r] is Some || ts[r] is None);
    }
    assert(typed(ts, a) =~= typed(ts, b));
    if ts.len() > 0 {
        let d = ts.drop_last();
        assert(reads_alike(a, b, d)) by {
            assert forall|r: int| 0 <= r < d.len() && (#[trigger] d[r]) is Some implies alike(
                a,
                b,
                d[r]->0,
            ) by {
                assert(d[r] == ts[r]);
            }
        }
        lemma_unparsed_alike(a, b, d);
        assert(ts[ts.len() - 1] == ts.last());
    }
}

proof fn lemma_somes_alike(a: NumeralsV, b: NumeralsV, ts: Seq<Option<Seq<char>>>)
    requires
        reads_alike(a, b, ts),
    ensures
        forall|i: int| 0 <= i < somes(ts).len() ==> alike(a, b, #[trigger] somes(ts)[i]),
    decreases ts.len(),
{
    if ts.len() > 0 {
        let d = ts.drop_last();
        assert(reads_alike(a, b, d)) by {
            assert forall|r: int| 0 <= r < d.len() && (#[trigger] d[r]) is Some implies alike(
                a,
                b,
                d[r]->0,
            ) by {
                assert(d[r] == ts[r]);
            }
        }
        lemma_somes_alike(a, b, d);
        assert(ts[ts.len() - 1] == ts.last());
        let s = somes(ts);
        let p = somes(d);
        assert forall|i: int| 0 <= i < s.len() implies alike(a, b, #[trigger] s[i]) by {
            if i < p.len() {
                assert(s[i] == p[i]);
            } else {
                assert(s[i] == ts.last()->0);
            }
        }
    }
}

/// The levels and the positions of pasted texts are the same.
pub proof fn lemma_keys_alike(
    a: NumeralsV,
    b: NumeralsV,
    canonical: bool,
    ts: Seq<Option<Seq<char>>>,
)
    requires
        reads_alike(a, b, ts),
    ensures
        level_keys(canonical, a, somes(ts)) == level_keys(canonical, b, somes(ts)),
        parses_alike(a, b, level_keys(canonical, a, somes(ts))),
        forall|levels: Seq<Seq<char>>|
            #[trigger] positions(levels, canonical, a, ts) == positions(levels, canonical, b, ts),
{
    lemma_somes_alike(a, b, ts);
    let s = somes(ts);
    assert forall|i: int| 0 <= i < s.len() implies level_keys(canonical, a, s)[i] == level_keys(
        canonical,
        b,
        s,
    )[i] by {
        assert(alike(a, b, s[i]));
    }
    assert(level_keys(canonical, a, s) =~= level_keys(canonical, b, s));
    assert forall|i: int| 0 <= i < s.len() implies a.parse(
        #[trigger] level_keys(canonical, a, s)[i],
    ) == b.parse(level_keys(canonical, a, s)[i]) by {
        assert(alike(a, b, s[i]));
    }
    assert forall|levels: Seq<Seq<char>>| #[trigger]
        positions(levels, canonical, a, ts) == positions(levels, canonical, b, ts) by {
        assert forall|r: int| 0 <= r < ts.len() implies positions(levels, canonical, a, ts)[r]
            == positions(levels, canonical, b, ts)[r] by {
            assert(ts[r] is Some || ts[r] is None);
        }
        assert(positions(levels, canonical, a, ts) =~= positions(levels, canonical, b, ts));
    }
}

/// What pasted texts make of a new column is the same.
pub proof fn lemma_derived_alike(
    a: NumeralsV,
    b: NumeralsV,
    ts: Seq<Option<Seq<char>>>,
    threshold: nat,
    limit: nat,
)
    requires
        a.active == b.active,
        reads_alike(a, b, ts),
    ensures
        derived(ts, a, threshold, limit) == derived(ts, b, threshold, limit),
        parses_alike(a, b, derived(ts, a, threshold, limit).levels),
{
    lemma_unparsed_alike(a, b, ts);
    let canonical = a.active && first_unparsed(ts, a) is None;
    lemma_keys_alike(a, b, canonical, ts);
    let keys = level_keys(canonical, a, somes(ts));
    lemma_deduped_alike(a, b, keys);
    lemma_prebuilt_alike(a, b, deduped(keys), limit);
    let levels = prebuilt(deduped(keys), a, limit);
    assert(positions(levels, canonical, a, ts) == positions(levels, canonical, b, ts));
    assert(derived(ts, a, threshold, limit) == derived(ts, b, threshold, limit));
}

proof fn lemma_extended_alike(
    a: NumeralsV,
    b: NumeralsV,
    levels: Seq<Seq<char>>,
    keys: Seq<Seq<char>>,
)
    requires
        parses_alike(a, b, levels),
        parses_alike(a, b, keys),
    ensures
        parses_alike(a, b, extended(levels, keys)),
    decreases keys.len(),
{
    if keys.len() > 0 {
        let d = keys.drop_last();
        assert(parses_alike(a, b, d)) by {
            assert forall|i: int| 0 <= i < d.len() implies a.parse(#[trigger] d[i]) == b.parse(
                d[i],
            ) by {
                assert(d[i] == keys[i]);
            }
        }
        lemma_extended_alike(a, b, levels, d);
        assert(a.parse(keys[keys.len() - 1]) == b.parse(keys[keys.len() - 1]));
    }
}

/// What pasted texts make of a categorical column is the same.
pub proof fn lemma_absorbed_alike(
    a: NumeralsV,
    b: NumeralsV,
    levels: Seq<Seq<char>>,
    ts: Seq<Option<Seq<char>>>,
)
    requires
        a.active == b.active,
        parses_alike(a, b, levels),
        reads_alike(a, b, ts),
    ensures
        absorbed_levels(levels, a, ts) == absorbed_levels(levels, b, ts),
        absorbed_keys(levels, a, ts) == absorbed_keys(levels, b, ts),
        parses_alike(a, b, absorbed_levels(levels, a, ts)),
{
    assert(canonical_dict(levels, a) == canonical_dict(levels, b)) by {
        if all_numbers(levels, a) {
            assert forall|i: int| 0 <= i < levels.len() implies b.parse(
                #[trigger] levels[i],
            ) is Some by {
                assert(a.parse(levels[i]) is Some);
            }
        }
        if all_numbers(levels, b) {
            assert forall|i: int| 0 <= i < levels.len() implies a.parse(
                #[trigger] levels[i],
            ) is Some by {
                assert(b.parse(levels[i]) is Some);
            }
        }
    }
    let canonical = canonical_dict(levels, a);
    lemma_keys_alike(a, b, canonical, ts);
    lemma_extended_alike(a, b, levels, level_keys(canonical, a, somes(ts)));
    let all = absorbed_levels(levels, a, ts);
    assert(positions(all, canonical, a, ts) == positions(all, canonical, b, ts));
}

/// What cells show is the same, and reads alike.
pub proof fn lemma_shown_alike(a: NumeralsV, b: NumeralsV, cells: Seq<Cell>)
    requires
        cells_alike(a, b, cells),
    ensures
        shown(cells, a) == shown(cells, b),
        parses_alike(a, b, shown(cells, a)),
    decreases cells.len(),
{
    if cells.len() > 0 {
        let d = cells.drop_last();
        assert(cells_alike(a, b, d)) by {
            assert forall|r: int| 0 <= r < d.len() && (#[trigger] d[r]) is Some implies shows_alike(
                a,
                b,
                d[r]->0,
            ) by {
                assert(d[r] == cells[r]);
            }
        }
        lemma_shown_alike(a, b, d);
        assert(cells[cells.len() - 1] == cells.last());
    }
}

/// Two outcomes are the same but for what frontends are told of the columns.
pub open spec fn same_but_told(
    x: Result<OutcomeV, FailureV>,
    y: Result<OutcomeV, FailureV>,
) -> bool {
    match (x, y) {
        (Ok(o), Ok(u)) => o == (OutcomeV { schema: o.schema, ..u }),
        (Err(e), Err(f)) => e == f,
        _ => false,
    }
}

proof fn lemma_restored_unrendered(t: TableV, s: SchemaRestoreV, names: Seq<Seq<char>>)
    requires
        restored_schema_cols(t, s, names) is Ok,
    ensures
        forall|c: int|
            0 <= c < restored_schema_cols(t, s, names)->Ok_0.0.len() ==> !((
            #[trigger] restored_schema_cols(t, s, names)->Ok_0.0[c]).under is Render),
    decreases names.len(),
{
    if names.len() > 0 {
        lemma_restored_unrendered(t, s, names.drop_last());
    }
}

/// What an inverse makes does not depend on numerals: undoing and redoing puts cells back and
/// neither reads a text as a number nor shows a number. Numerals only count into what frontends
/// are told.
#[verifier::rlimit(40)]
pub proof fn law_inverses_ask_no_numerals(
    t: TableV,
    a: NumeralsV,
    b: NumeralsV,
    meta: InverseMetaV,
    size: nat,
    blob: Result<Option<Seq<ColumnV>>, Seq<char>>,
    revision: u64,
    w: Result<Seq<u8>, Seq<char>>,
)
    ensures
        same_but_told(
            inverse_outcome(t, a, meta, size, blob, revision, w),
            inverse_outcome(t, b, meta, size, blob, revision, w),
        ),
{
    let ops = meta.ops;
    let op = text_at(ops, "op"@);
    if op == Some("restore_rows"@) {
        lemma_restore_rows_told(t, a, b, ops, blob, revision);
    } else if op == Some("restore_cols"@) {
        lemma_restore_cols_told(t, a, b, ops, blob, revision);
    } else if op == Some("restore_block"@) {
        lemma_restore_block_told(t, a, b, ops, blob, revision, w);
    } else if op == Some("restore_schema"@) {
        lemma_restore_schema_told(t, a, b, ops, size, blob, revision, w);
    } else if program_u64(ops, "at"@) is Ok && program_u64(ops, "count"@) is Ok {
        let at = program_u64(ops, "at"@)->Ok_0;
        let count = program_u64(ops, "count"@)->Ok_0;
        lemma_delete_rows_told(t, a, b, at, count, revision, w);
        lemma_delete_cols_told(t, a, b, at, count, revision, w);
    }
}

proof fn lemma_delete_rows_told(
    t: TableV,
    a: NumeralsV,
    b: NumeralsV,
    at: u64,
    count: u64,
    revision: u64,
    w: Result<Seq<u8>, Seq<char>>,
)
    ensures
        same_but_told(
            delete_rows_outcome(t, a, at, count, revision, w),
            delete_rows_outcome(t, b, at, count, revision, w),
        ),
{
}

proof fn lemma_delete_cols_told(
    t: TableV,
    a: NumeralsV,
    b: NumeralsV,
    at: u64,
    count: u64,
    revision: u64,
    w: Result<Seq<u8>, Seq<char>>,
)
    ensures
        same_but_told(
            delete_cols_outcome(t, a, at, count, revision, w),
            delete_cols_outcome(t, b, at, count, revision, w),
        ),
{
}

proof fn lemma_restore_cols_told(
    t: TableV,
    a: NumeralsV,
    b: NumeralsV,
    ops: JsonV,
    blob: Result<Option<Seq<ColumnV>>, Seq<char>>,
    revision: u64,
)
    ensures
        same_but_told(
            restore_cols_outcome(t, a, ops, blob, revision),
            restore_cols_outcome(t, b, ops, blob, revision),
        ),
{
}

pub proof fn lemma_restore_rows_told(
    t: TableV,
    a: NumeralsV,
    b: NumeralsV,
    ops: JsonV,
    blob: Result<Option<Seq<ColumnV>>, Seq<char>>,
    revision: u64,
)
    ensures
        same_but_told(
            restore_rows_outcome(t, a, ops, blob, revision),
            restore_rows_outcome(t, b, ops, blob, revision),
        ),
{
    assert forall|inv: Seq<ColumnV>, segs: Seq<Seg>, total: nat| #[trigger]
        rewritten(t, restore_rows_plan(t, inv), a, segs, total) == rewritten(
            t,
            restore_rows_plan(t, inv),
            b,
            segs,
            total,
        ) by {
        lemma_rewritten_alike(t, restore_rows_plan(t, inv), a, b, segs, total);
    }
}

pub proof fn lemma_restore_block_told(
    t: TableV,
    a: NumeralsV,
    b: NumeralsV,
    ops: JsonV,
    blob: Result<Option<Seq<ColumnV>>, Seq<char>>,
    revision: u64,
    w: Result<Seq<u8>, Seq<char>>,
)
    ensures
        same_but_told(
            restore_block_outcome(t, a, ops, blob, revision, w),
            restore_block_outcome(t, b, ops, blob, revision, w),
        ),
{
    if let Ok((p, inv)) = block_restore(t, ops, blob) {
        let plan = restored_block_cols(t, p, inv);
        lemma_rewritten_alike(t, plan, a, b, restore_table(p, t.rows), p.old_rows as nat);
    }
}

pub proof fn lemma_restore_schema_told(
    t: TableV,
    a: NumeralsV,
    b: NumeralsV,
    ops: JsonV,
    size: nat,
    blob: Result<Option<Seq<ColumnV>>, Seq<char>>,
    revision: u64,
    w: Result<Seq<u8>, Seq<char>>,
)
    ensures
        same_but_told(
            restore_schema_outcome(t, a, ops, size, blob, revision, w),
            restore_schema_outcome(t, b, ops, size, blob, revision, w),
        ),
{
    if let Ok(s) = schema_restore(t, ops, size, blob) {
        if restored_schema_cols(t, s, s.order) is Ok {
            lemma_restored_unrendered(t, s, s.order);
            lemma_rewritten_alike(
                t,
                restored_schema_cols(t, s, s.order)->Ok_0.0,
                a,
                b,
                seq![Seg::Block { out: 0, len: t.rows as u64 }],
                t.rows,
            );
        }
    }
}

} // verus!
