//! How pasted texts read once they are pasted, and the order in which new levels appear.
use vstd::prelude::*;
use crate::block_laws::{
    block, declares, in_block, lemma_created_at, lemma_created_levels, lemma_paste_entry,
    lemma_pastes_numbers, lemma_reads, pastes, pastes_numbers, stands_for_null,
};
use crate::edit_block::{covered_col, output_col, output_cols, plan_names};
use crate::edit_laws::{refused_as, sendable};
use crate::levels::{deduped, lemma_prebuilt};
use crate::number::NumeralsV;
use crate::outcome::EditJob;
use crate::paste::{
    canonical_dict, extended, first_unparsed, lemma_extended, level_key, level_keys, somes,
};
use crate::paste_laws::{law_paste_writes_the_block, lands_canonically, reading};
use crate::serve::{edit_outcome, paste_asked};
use crate::table::TableV;
use crate::undo::regular;
use crate::undo_block::{lemma_output_at, lemma_pasted};
use crate::undo_laws::law_asked_pastes_are_in_order;

verus! {

/// A pasted text is spelled plainly: the locale is not the plain one, no levels are declared for
/// the column, and it holds numbers: all levels of a column that has some are numbers, or all
/// texts that are pasted into a new one are.
pub open spec fn spells_plainly(t: TableV, num: NumeralsV, job: EditJob, c: int) -> bool {
    let j = job.edit->InsertBlock_col + c;
    num.active && if j < t.fields.len() {
        &&& !declares(job, c, "levels"@)
        &&& t.fields[j].kind is Dictionary
        &&& t.dicts[j].len() > 0
        &&& forall|i: int| 0 <= i < t.dicts[j].len() ==> num.parse(#[trigger] t.dicts[j][i]) is Some
    } else {
        !(declares(job, c, "type"@) && declares(job, c, "levels"@)) && pastes_numbers(job, num, c)
    }
}

/// A text that is pasted into a categorical column reads as it was pasted, unless it is spelled
/// plainly there: then it reads as its plain spelling.
#[verifier::rlimit(60)]
pub proof fn law_pasted_texts_read_as_pasted(
    t: TableV,
    num: NumeralsV,
    job: EditJob,
    w: Result<Seq<u8>, Seq<char>>,
    r: int,
    c: int,
)
    requires
        pastes(t, num, job, w),
        in_block(job, r, c),
        block(job)[0].len() <= u64::MAX,
        !stands_for_null(job, r, c),
        edit_outcome(t, num, job, w)->Ok_0.table.fields[job.edit->InsertBlock_col
            + c].kind is Dictionary,
    ensures
        ({
            let g = edit_outcome(t, num, job, w)->Ok_0.table;
            let i = job.edit->InsertBlock_row + r;
            let j = job.edit->InsertBlock_col + c;
            let s = block(job)[r][c].0;
            reading(g, num, j, i) == Some(
                if spells_plainly(t, num, job, c) {
                    num.canon(s)
                } else {
                    s
                },
            )
        }),
{
    let p = lemma_paste_entry(t, num, job, w, c);
    let j = p.col + c;
    lemma_reads(p, job, r, c);
    law_paste_writes_the_block(p, job.revision, w, c, r);
    lemma_pastes_numbers(p, job, c);
    if j < t.fields.len() {
        assert(t.fields[j].level() is Some);
        lemma_pasted(p, job.revision, w);
        lemma_output_at(p, p.new_cols(), j);
        if t.fields[j].kind is Float64 {
            if p.remaps(c) {
                assert(!p.t.fields[p.col + c].is_scale());
            }
            assert(t.dicts[j] =~= Seq::empty());
        }
        assert(lands_canonically(p, c) <==> spells_plainly(t, num, job, c));
    } else {
        assert(lands_canonically(p, c) <==> spells_plainly(t, num, job, c));
    }
}

/// One text is pasted before another: it is pasted in a row before all rows of the other.
pub open spec fn pasted_before(
    job: EditJob,
    num: NumeralsV,
    plain: bool,
    c: int,
    a: Seq<char>,
    b: Seq<char>,
) -> bool {
    exists|r: int|
        0 <= r < block(job).len() && !(#[trigger] stands_for_null(job, r, c)) && a == (if plain {
            num.canon(block(job)[r][c].0)
        } else {
            block(job)[r][c].0
        }) && forall|k: int|
            0 <= k < block(job).len() && !(#[trigger] stands_for_null(job, k, c)) && b == (
            if plain {
                num.canon(block(job)[k][c].0)
            } else {
                block(job)[k][c].0
            }) ==> r < k
}

/// A text stands in a list before another does.
spec fn stands_before(
    ts: Seq<Option<Seq<char>>>,
    num: NumeralsV,
    plain: bool,
    a: Seq<char>,
    b: Seq<char>,
) -> bool {
    exists|r: int|
        0 <= r < ts.len() && (#[trigger] ts[r]) is Some && level_key(plain, num, ts[r]->0) == a
            && forall|k: int|
            0 <= k < ts.len() && (#[trigger] ts[k]) is Some && level_key(plain, num, ts[k]->0) == b
                ==> r < k
}

#[verifier::rlimit(60)]
proof fn lemma_stands_before(
    levels: Seq<Seq<char>>,
    ts: Seq<Option<Seq<char>>>,
    num: NumeralsV,
    plain: bool,
    a: int,
    b: int,
)
    requires
        levels.len() <= a < b < extended(levels, level_keys(plain, num, somes(ts))).len(),
    ensures
        ({
            let g = extended(levels, level_keys(plain, num, somes(ts)));
            stands_before(ts, num, plain, g[a], g[b])
        }),
    decreases ts.len(),
{
    let keys = level_keys(plain, num, somes(ts));
    let g = extended(levels, keys);
    if ts.len() > 0 {
        let d = ts.drop_last();
        let m = ts.len() - 1;
        let before = level_keys(plain, num, somes(d));
        let p = extended(levels, before);
        assert(ts[m] == ts.last());
        if ts[m] is Some {
            assert(keys.drop_last() =~= before);
            assert(keys.last() == level_key(plain, num, ts[m]->0));
        } else {
            assert(keys =~= before);
        }
        if b < p.len() {
            lemma_stands_before(levels, d, num, plain, a, b);
            let r = choose|r: int|
                0 <= r < d.len() && (#[trigger] d[r]) is Some && level_key(plain, num, d[r]->0)
                    == p[a] && forall|k: int|
                    0 <= k < d.len() && (#[trigger] d[k]) is Some && level_key(
                        plain,
                        num,
                        d[k]->0,
                    ) == p[b] ==> r < k;
            assert(ts[r] == d[r]);
            assert forall|k: int|
                0 <= k < ts.len() && (#[trigger] ts[k]) is Some && level_key(
                    plain,
                    num,
                    ts[k]->0,
                ) == g[b] implies r < k by {
                if k < m {
                    assert(d[k] == ts[k]);
                }
            }
        } else {
            assert(ts[m] is Some && b == p.len() && g[b] == keys.last());
            crate::block_laws::lemma_new_level(levels, before, a);
            crate::block_laws::lemma_keys_from(plain, num, d, p[a]);
            let r = choose|r: int|
                0 <= r < d.len() && (#[trigger] d[r]) is Some && p[a] == level_key(
                    plain,
                    num,
                    d[r]->0,
                );
            assert(ts[r] == d[r]);
            assert forall|k: int|
                0 <= k < ts.len() && (#[trigger] ts[k]) is Some && level_key(
                    plain,
                    num,
                    ts[k]->0,
                ) == g[b] implies r < k by {
                if k < m {
                    assert(d[k] == ts[k]);
                    crate::block_laws::lemma_keys_from(plain, num, d, g[b]);
                    assert(before.contains(g[b]));
                    let i = before.index_of(g[b]);
                    lemma_extended(levels, before);
                    assert(p.contains(before[i]));
                }
            }
        }
    }
}

proof fn lemma_deduped_extends(s: Seq<Seq<char>>)
    ensures
        deduped(s) == extended(Seq::empty(), s),
    decreases s.len(),
{
    if s.len() > 0 {
        lemma_deduped_extends(s.drop_last());
    }
}

/// New levels of a categorical column follow its own in the order in which their texts were
/// pasted, from the top down. So do all levels of a column that the paste creates, where none
/// are declared and they are more than the limit for sorting.
#[verifier::rlimit(60)]
pub proof fn law_new_levels_appear_in_order(
    t: TableV,
    num: NumeralsV,
    job: EditJob,
    w: Result<Seq<u8>, Seq<char>>,
    c: int,
    a: int,
    b: int,
)
    requires
        pastes(t, num, job, w),
        0 <= c < block(job)[0].len() <= u64::MAX,
        ({
            let g = edit_outcome(t, num, job, w)->Ok_0.table;
            let j = job.edit->InsertBlock_col + c;
            &&& g.fields[j].kind is Dictionary
            &&& a < b < g.dicts[j].len()
            &&& if j < t.fields.len() {
                t.fields[j].kind is Dictionary && !declares(job, c, "levels"@) && t.dicts[j].len()
                    <= a
            } else {
                !(declares(job, c, "type"@) && declares(job, c, "levels"@)) && g.dicts[j].len()
                    > job.ingest.sort_limit && 0 <= a
            }
        }),
    ensures
        ({
            let d = edit_outcome(t, num, job, w)->Ok_0.table.dicts[job.edit->InsertBlock_col + c];
            pasted_before(job, num, spells_plainly(t, num, job, c), c, d[a], d[b])
        }),
{
    let p = lemma_paste_entry(t, num, job, w, c);
    let g = edit_outcome(t, num, job, w)->Ok_0.table;
    let j = p.col + c;
    let ts = p.reads(c);
    let plain = spells_plainly(t, num, job, c);
    lemma_pasted(p, job.revision, w);
    lemma_pastes_numbers(p, job, c);
    if j < t.fields.len() {
        lemma_output_at(p, p.new_cols(), j);
        assert(output_col(p, j, plan_names(output_cols(p, p.new_cols())->Ok_0.0.take(j)))
            == covered_col(p, c));
        assert(g.dicts[j] == covered_col(p, c)->Ok_0.0.levels);
        assert(plain == canonical_dict(t.dicts[j], num));
        lemma_stands_before(t.dicts[j], ts, num, plain, a, b);
    } else {
        let used = lemma_created_at(p, job.revision, w, c);
        lemma_created_levels(p, c, used);
        let canonical = num.active && first_unparsed(ts, num) is None;
        assert(canonical == plain);
        let keys = level_keys(canonical, num, somes(ts));
        lemma_prebuilt(deduped(keys), num, p.sort_limit);
        lemma_deduped_extends(keys);
        assert(g.dicts[j] == deduped(keys));
        lemma_stands_before(Seq::empty(), ts, num, plain, a, b);
    }
    let d = g.dicts[j];
    let r = choose|r: int|
        0 <= r < ts.len() && (#[trigger] ts[r]) is Some && level_key(plain, num, ts[r]->0) == d[a]
            && forall|k: int|
            0 <= k < ts.len() && (#[trigger] ts[k]) is Some && level_key(plain, num, ts[k]->0)
                == d[b] ==> r < k;
    lemma_reads(p, job, r, c);
    assert(!stands_for_null(job, r, c));
    assert forall|k: int|
        0 <= k < block(job).len() && !(#[trigger] stands_for_null(job, k, c)) && d[b] == (
        if plain {
            num.canon(block(job)[k][c].0)
        } else {
            block(job)[k][c].0
        }) implies r < k by {
        lemma_reads(p, job, k, c);
        assert(ts[k] is Some);
    }
}

/// A paste that declares nothing is refused only for where it would stand: because its block
/// cannot be read, or because there is no room for it.
#[verifier::rlimit(60)]
pub proof fn law_plain_pastes_are_refused_for_their_place(
    t: TableV,
    num: NumeralsV,
    job: EditJob,
    w: Result<Seq<u8>, Seq<char>>,
)
    requires
        regular(t),
        job.edit is InsertBlock,
        job.edit->InsertBlock_target_schema is None,
        sendable(w),
        edit_outcome(t, num, job, w) is Err,
    ensures
        refused_as(edit_outcome(t, num, job, w)->Err_0, "anchor"@),
{
    let row = job.edit->InsertBlock_row;
    let col = job.edit->InsertBlock_col;
    crate::serve::lemma_supported(t.fields);
    let asked = paste_asked(t, num, job.ingest, row, col, None, job.tail@);
    if asked is Ok {
        law_asked_pastes_are_in_order(t, num, job.ingest, row, col, None, job.tail@);
        crate::acceptance_laws::law_plain_pastes_are_accepted(t, num, job, w);
        let p = asked->Ok_0;
        assert(p.cells == block(job));
    }
}

} // verus!
