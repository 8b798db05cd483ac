//! What a change of the schema leaves as it was.
use vstd::prelude::*;
use crate::json::JsonV;
use crate::levels::{lemma_deduped, lemma_prebuilt};
use crate::number::NumeralsV;
use crate::paste::shown;
use crate::paste_laws::{lemma_position, lemma_shown, reading};
use crate::schema_change::{
    asked_changes, changed_col, lacking, rendered, schema_outcome, unparsed_levels, Rebuild,
};
use crate::edit_block::used_in;
use crate::table::{cell_fits, Cell, TableV};
use crate::text::distinct;
use crate::undo_schema::{changed, countable, lemma_changed, lemma_survives, orderly};

verus! {

proof fn lemma_not_lacking(s: Seq<Seq<char>>, declared: Seq<Seq<char>>, i: int)
    requires
        lacking(s, declared).len() == 0,
        0 <= i < s.len(),
    ensures
        declared.contains(s[i]),
    decreases s.len(),
{
    if i < s.len() - 1 {
        assert(s.drop_last()[i] == s[i]);
        lemma_not_lacking(s.drop_last(), declared, i);
    }
}

proof fn lemma_parsed(levels: Seq<Seq<char>>, cells: Seq<Cell>, num: NumeralsV, k: int)
    requires
        unparsed_levels(levels, cells, num).len() == 0,
        0 <= k < levels.len(),
        levels.len() <= u64::MAX,
        used_in(cells, k as u64),
    ensures
        num.parse(levels[k]) is Some,
    decreases levels.len(),
{
    if k < levels.len() - 1 {
        assert(levels.drop_last()[k] == levels[k]);
        lemma_parsed(levels.drop_last(), cells, num, k);
    }
}

/// A change of the schema keeps every value: a cell reads as before where its column stays as it
/// was, where its dictionary is replaced and where a scale becomes categorical; where a
/// categorical column becomes a scale, the cell holds the number that its level spells.
#[verifier::rlimit(60)]
pub proof fn law_schema_change_keeps_values(
    t: TableV,
    num: NumeralsV,
    limit: nat,
    target: JsonV,
    revision: u64,
    w: Result<Seq<u8>, Seq<char>>,
    k: int,
    r: int,
)
    requires
        orderly(t),
        schema_outcome(t, num, limit, target, revision, w) is Ok,
        countable(schema_outcome(t, num, limit, target, revision, w)->Ok_0.table),
        0 <= k < t.fields.len(),
        0 <= r < t.rows,
    ensures
        ({
            let g = schema_outcome(t, num, limit, target, revision, w)->Ok_0.table;
            let c = asked_changes(t, target)->Ok_0[k];
            if c.rebuild is ToScale {
                match reading(t, num, c.j, r) {
                    None => g.cols[k][r] is None,
                    Some(s) => num.parse(s) is Some && g.cols[k][r] == num.parse(s),
                }
            } else {
                reading(g, num, k, r) == reading(t, num, c.j, r)
            }
        }),
{
    let g = schema_outcome(t, num, limit, target, revision, w)->Ok_0.table;
    let cs = asked_changes(t, target)->Ok_0;
    lemma_changed(t, num, limit, target, revision, w);
    assert(changed(t, num, limit, cs, g));
    let c = cs[k];
    let j = c.j;
    let cells = t.cols[j];
    assert(cells.len() == t.rows);
    assert(t.fields[j].level() is Some);
    assert(cell_fits(t.fields[j], t.dicts[j], cells[r]));
    assert(g.fields[k].level() is Some);
    assert(g.dicts[k] == changed_col(t, num, limit, c).levels);
    assert(g.dicts[k].len() <= u64::MAX);
    assert(t.dicts[j].len() <= u64::MAX);
    if cells[r] is Some {
        let x = cells[r]->0;
        match c.rebuild {
            Rebuild::Keep => {},
            Rebuild::Remap => {
                lemma_survives(t, num, c, r);
                lemma_position(c.e.levels->0, t.dicts[j][x as int]);
            },
            Rebuild::ToScale => {
                assert(used_in(cells, x));
                lemma_parsed(t.dicts[j], cells, num, x as int);
            },
            Rebuild::ToCategorical => {
                let s = num.show(x);
                lemma_shown(cells, num, r);
                lemma_deduped(shown(cells, num));
                let set = rendered(t, num, j);
                lemma_prebuilt(set, num, limit);
                assert(set.contains(s));
                match c.e.levels {
                    Some(d) => {
                        let m = set.index_of(s);
                        lemma_not_lacking(set, d, m);
                    },
                    None => {},
                }
                lemma_position(g.dicts[k], s);
            },
        }
    }
}

/// A change of the schema keeps a dataset in order: as many columns and rows, unique names, keys
/// within their dictionaries, and no level listed twice.
pub proof fn law_schema_change_keeps_named(
    t: TableV,
    num: NumeralsV,
    limit: nat,
    target: JsonV,
    revision: u64,
    w: Result<Seq<u8>, Seq<char>>,
)
    requires
        orderly(t),
        schema_outcome(t, num, limit, target, revision, w) is Ok,
        countable(schema_outcome(t, num, limit, target, revision, w)->Ok_0.table),
    ensures
        ({
            let g = schema_outcome(t, num, limit, target, revision, w)->Ok_0.table;
            &&& g.wf()
            &&& g.supported()
            &&& g.names_distinct()
            &&& g.rows == t.rows
            &&& g.fields.len() == t.fields.len()
            &&& t.levels_distinct() ==> g.levels_distinct()
        }),
{
    lemma_changed(t, num, limit, target, revision, w);
    let g = schema_outcome(t, num, limit, target, revision, w)->Ok_0.table;
    let cs = asked_changes(t, target)->Ok_0;
    if t.levels_distinct() {
        assert forall|k: int| 0 <= k < g.dicts.len() implies distinct(#[trigger] g.dicts[k]) by {
            let c = cs[k];
            assert(g.dicts[k] == changed_col(t, num, limit, c).levels);
            assert(distinct(t.dicts[c.j]));
            lemma_deduped(shown(t.cols[c.j], num));
            lemma_prebuilt(rendered(t, num, c.j), num, limit);
        }
    }
}

} // verus!
