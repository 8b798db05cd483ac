//! Which changes of the schema are accepted.
use vstd::prelude::*;
use crate::acceptance_laws::{lemma_map_inside, lemma_old_fits, takes_over};
use crate::change_laws::{asked_entries, at, changes, given, lemma_change_at};
use crate::edit_block::{missing_levels, used_in};
use crate::edit_laws::{lemma_types_differ, refused_as, sendable};
use crate::edit_schema::{change_entry, ChangeEntryV};
use crate::engine::{rewritten, walked};
use crate::json::JsonV;
use crate::levels::lemma_deduped;
use crate::messages::FailureV;
use crate::number::NumeralsV;
use crate::outcome::EditJob;
use crate::paste::shown;
use crate::paste_laws::lemma_shown;
use crate::schema_change::{
    asked_changes, change_entries, change_issue, change_issues, changed_col, changed_cols,
    classified, classified_all, data_issue, entry_columns, first_twice, label_targets, lacking,
    lemma_classified, name_count, name_index, reencoded, rendered, schema_outcome, stray_labels,
    unparsed_levels, ChangeV, Rebuild,
};
use crate::segments::{table_rows, Seg};
use crate::serve::edit_outcome;
use crate::table::{cell_fits, Cell, FieldV, TableV};
use crate::text::{distinct, lemma_first_repeat};
use crate::undo::regular;
use crate::undo_schema::{lemma_entry_columns, orderly};

verus! {

/// A member is a string where it is there.
pub open spec fn text_if_given(e: JsonV, key: Seq<char>) -> bool {
    given(e, key) ==> at(e, key) is Str
}

/// An entry is well formed: an object with a name; texts, a list of texts and an object of texts
/// where they are expected.
pub open spec fn well_formed(e: JsonV) -> bool {
    &&& e is Object
    &&& given(e, "name"@) && at(e, "name"@) is Str
    &&& text_if_given(e, "display_name"@)
    &&& text_if_given(e, "type"@)
    &&& given(e, "levels"@) ==> at(e, "levels"@) is Array && forall|i: int|
        0 <= i < at(e, "levels"@)->Array_0.len() ==> (#[trigger] at(e, "levels"@)->Array_0[i]) is Str
    &&& given(e, "labels"@) ==> at(e, "labels"@) is Object && forall|k: Seq<char>| #[trigger]
        at(e, "labels"@)->Object_0.contains_key(k) ==> at(e, "labels"@)->Object_0[k] is Str
}

/// The levels that an entry lists.
pub open spec fn listed(e: JsonV) -> Seq<Seq<char>> {
    Seq::new(
        at(e, "levels"@)->Array_0.len(),
        |i: int| at(e, "levels"@)->Array_0[i]->Str_0,
    )
}

/// An entry asks for a scale: it says so, or says nothing and the column is one.
pub open spec fn asks_scale(e: JsonV, f: FieldV) -> bool {
    if given(e, "type"@) {
        at(e, "type"@) == JsonV::Str("scale"@)
    } else {
        f.kind is Float64
    }
}

/// How the numbers of a column show.
pub open spec fn showings(t: TableV, num: NumeralsV, j: int) -> Set<Seq<char>> {
    Set::new(
        |s: Seq<char>|
            exists|r: int|
                0 <= r < t.rows && (#[trigger] t.cols[j][r]) is Some && num.show(t.cols[j][r]->0)
                    == s,
    )
}

/// What an entry asks of column `j` can be done: the type is known; a scale gets no levels and
/// no labels; no level is listed twice. A list of levels has all that are in use, and there are
/// not too many to have been seen. A column that becomes a scale holds numbers. Labels are for
/// levels.
pub open spec fn feasible(t: TableV, num: NumeralsV, e: JsonV, j: int) -> bool {
    let f = t.fields[j];
    let scale = asks_scale(e, f);
    &&& given(e, "type"@) ==> at(e, "type"@)->Str_0 == "scale"@ || at(e, "type"@)->Str_0
        == "ordinal"@ || at(e, "type"@)->Str_0 == "nominal"@
    &&& scale ==> !given(e, "levels"@) && !given(e, "labels"@)
    &&& given(e, "levels"@) ==> distinct(listed(e))
    &&& given(e, "levels"@) && !(f.kind is Float64) ==> t.dicts[j].to_set().len() <= 10_000 && (
    forall|r: int|
        0 <= r < t.rows && (#[trigger] t.cols[j][r]) is Some ==> listed(e).contains(
            t.dicts[j][t.cols[j][r]->0 as int],
        ))
    &&& given(e, "levels"@) && f.kind is Float64 ==> showings(t, num, j).len() <= 10_000 && (
    forall|r: int|
        0 <= r < t.rows && (#[trigger] t.cols[j][r]) is Some ==> listed(e).contains(
            num.show(t.cols[j][r]->0),
        ))
    &&& scale && !(f.kind is Float64) ==> forall|r: int|
        0 <= r < t.rows && (#[trigger] t.cols[j][r]) is Some ==> num.parse(
            t.dicts[j][t.cols[j][r]->0 as int],
        ) is Some
    &&& given(e, "labels"@) ==> forall|k: Seq<char>| #[trigger]
        at(e, "labels"@)->Object_0.contains_key(k) ==> if given(e, "levels"@) {
            listed(e).contains(k)
        } else if f.kind is Float64 {
            showings(t, num, j).contains(k)
        } else {
            t.dicts[j].contains(k)
        }
}

/// A column is the only one of its name.
pub open spec fn only_one(t: TableV, j: int) -> bool {
    forall|i: int| 0 <= i < t.fields.len() && i != j ==> (#[trigger] t.fields[i]).name
        != t.fields[j].name
}

proof fn lemma_entry_formed(e: JsonV)
    ensures
        well_formed(e) <==> change_entry(e) is Ok,
        well_formed(e) ==> ({
            let x = change_entry(e)->Ok_0;
            &&& x.name == at(e, "name"@)->Str_0
            &&& x.ty is Some <==> given(e, "type"@)
            &&& x.ty is Some ==> x.ty->0 == at(e, "type"@)->Str_0
            &&& x.levels is Some <==> given(e, "levels"@)
            &&& x.levels is Some ==> x.levels->0 == listed(e)
            &&& x.labels is Some <==> given(e, "labels"@)
            &&& x.labels is Some ==> forall|k: Seq<char>| #[trigger]
                x.labels->0.contains_key(k) <==> at(e, "labels"@)->Object_0.contains_key(k)
        }),
{
    if e is Object && given(e, "labels"@) && at(e, "labels"@) is Object {
        let m = at(e, "labels"@)->Object_0;
        let bad = crate::edit_schema::non_strings(m);
        if bad =~= Set::empty() {
            assert forall|k: Seq<char>| #[trigger] m.contains_key(k) implies m[k] is Str by {
                if !(m[k] is Str) {
                    assert(bad.contains(k));
                }
            }
        }
        if forall|k: Seq<char>| #[trigger] m.contains_key(k) ==> m[k] is Str {
            assert(bad =~= Set::empty());
        }
    }
    if well_formed(e) && given(e, "levels"@) {
        assert(change_entry(e)->Ok_0.levels->0 =~= listed(e));
    }
}

proof fn lemma_showings(t: TableV, num: NumeralsV, j: int)
    requires
        t.wf(),
        0 <= j < t.fields.len(),
    ensures
        forall|s: Seq<char>| #[trigger]
            rendered(t, num, j).contains(s) <==> showings(t, num, j).contains(s),
        rendered(t, num, j).len() == showings(t, num, j).len(),
{
    let all = shown(t.cols[j], num);
    let set = rendered(t, num, j);
    lemma_deduped(all);
    assert(t.cols[j].len() == t.rows);
    assert forall|s: Seq<char>| #[trigger] set.contains(s) <==> showings(t, num, j).contains(
        s,
    ) by {
        if set.contains(s) {
            crate::change_laws::lemma_shown_from(t.cols[j], num, s);
        }
        if showings(t, num, j).contains(s) {
            let r = choose|r: int|
                0 <= r < t.rows && (#[trigger] t.cols[j][r]) is Some && num.show(t.cols[j][r]->0)
                    == s;
            lemma_shown(t.cols[j], num, r);
        }
    }
    assert(set.to_set() =~= showings(t, num, j));
    assert(set.no_duplicates()) by {
        assert forall|a: int, b: int| 0 <= a < set.len() && 0 <= b < set.len() && a != b implies set[a]
            != set[b] by {
            if a < b {
                assert(set[a] != set[b]);
            } else {
                assert(set[b] != set[a]);
            }
        }
    }
    set.unique_seq_to_set();
}

proof fn lemma_none_unparsed(levels: Seq<Seq<char>>, cells: Seq<Cell>, num: NumeralsV)
    requires
        levels.len() <= u64::MAX,
        forall|k: int|
            0 <= k < levels.len() && used_in(cells, k as u64) ==> num.parse(
                #[trigger] levels[k],
            ) is Some,
    ensures
        unparsed_levels(levels, cells, num).len() == 0,
    decreases levels.len(),
{
    if levels.len() > 0 {
        let d = levels.drop_last();
        assert forall|k: int| 0 <= k < d.len() && used_in(cells, k as u64) implies num.parse(
            #[trigger] d[k],
        ) is Some by {
            assert(levels[k] == d[k]);
        }
        lemma_none_unparsed(d, cells, num);
        let m = levels.len() - 1;
        assert(levels[m] == levels.last());
    }
}

proof fn lemma_unparsed(levels: Seq<Seq<char>>, cells: Seq<Cell>, num: NumeralsV, k: int)
    requires
        levels.len() <= u64::MAX,
        unparsed_levels(levels, cells, num).len() == 0,
        0 <= k < levels.len(),
        used_in(cells, k as u64),
    ensures
        num.parse(levels[k]) is Some,
    decreases levels.len(),
{
    if k < levels.len() - 1 {
        assert(levels.drop_last()[k] == levels[k]);
        lemma_unparsed(levels.drop_last(), cells, num, k);
    }
}

proof fn lemma_nothing_missing(
    levels: Seq<Seq<char>>,
    cells: Seq<Cell>,
    list: Seq<Seq<char>>,
)
    requires
        levels.len() <= u64::MAX,
        forall|k: int|
            0 <= k < levels.len() && used_in(cells, k as u64) ==> list.contains(
                #[trigger] levels[k],
            ),
    ensures
        missing_levels(levels, cells, Seq::empty(), list).len() == 0,
    decreases levels.len(),
{
    if levels.len() > 0 {
        let d = levels.drop_last();
        assert forall|k: int| 0 <= k < d.len() && used_in(cells, k as u64) implies list.contains(
            #[trigger] d[k],
        ) by {
            assert(levels[k] == d[k]);
        }
        lemma_nothing_missing(d, cells, list);
        let m = levels.len() - 1;
        assert(levels[m] == levels.last());
    }
}

proof fn lemma_nothing_lacking(s: Seq<Seq<char>>, list: Seq<Seq<char>>)
    ensures
        lacking(s, list).len() == 0 <==> forall|i: int|
            0 <= i < s.len() ==> list.contains(#[trigger] s[i]),
    decreases s.len(),
{
    if s.len() > 0 {
        let d = s.drop_last();
        let m = s.len() - 1;
        lemma_nothing_lacking(d, list);
        assert(s[m] == s.last());
        if forall|i: int| 0 <= i < s.len() ==> list.contains(#[trigger] s[i]) {
            assert forall|i: int| 0 <= i < d.len() implies list.contains(#[trigger] d[i]) by {
                assert(s[i] == d[i]);
            }
        }
        if lacking(s, list).len() == 0 {
            assert forall|i: int| 0 <= i < s.len() implies list.contains(#[trigger] s[i]) by {
                if i < d.len() {
                    assert(d[i] == s[i]);
                }
            }
        }
    }
}

/// The change that an entry leads to has no fault exactly where what the entry asks can be done.
#[verifier::rlimit(60)]
proof fn lemma_feasible(t: TableV, num: NumeralsV, e: JsonV, j: int, used: Seq<Seq<char>>)
    requires
        regular(t),
        well_formed(e),
        0 <= j < t.fields.len(),
    ensures
        ({
            let x = classified(t, change_entry(e)->Ok_0, j, used);
            feasible(t, num, e, j) <==> x is Ok && change_issue(t, num, x->Ok_0) is None
        }),
{
    lemma_types_differ();
    lemma_entry_formed(e);
    let x = change_entry(e)->Ok_0;
    let y = classified(t, x, j, used);
    let f = t.fields[j];
    assert(f.level() is Some);
    if x.levels is Some {
        lemma_first_repeat(x.levels->0);
    }
    if y is Ok {
        let c = y->Ok_0;
        lemma_data(t, num, e, c);
        lemma_labels(t, num, e, c);
    }
}

#[verifier::rlimit(60)]
proof fn lemma_data(t: TableV, num: NumeralsV, e: JsonV, c: ChangeV)
    requires
        regular(t),
        well_formed(e),
        0 <= c.j < t.fields.len(),
        c.e == change_entry(e)->Ok_0,
        c.rebuild == crate::schema_change::rebuild_of(
            t.fields[c.j].is_scale(),
            c.level,
            c.e.levels,
        ),
        c.level is Scale <==> asks_scale(e, t.fields[c.j]),
        c.level is Scale ==> c.e.levels is None,
    ensures
        data_issue(t, num, c) is None <==> {
            let f = t.fields[c.j];
            let j = c.j;
            &&& given(e, "levels"@) && !(f.kind is Float64) ==> t.dicts[j].to_set().len() <= 10_000
                && (forall|r: int|
                0 <= r < t.rows && (#[trigger] t.cols[j][r]) is Some ==> listed(e).contains(
                    t.dicts[j][t.cols[j][r]->0 as int],
                ))
            &&& given(e, "levels"@) && f.kind is Float64 ==> showings(t, num, j).len() <= 10_000
                && (forall|r: int|
                0 <= r < t.rows && (#[trigger] t.cols[j][r]) is Some ==> listed(e).contains(
                    num.show(t.cols[j][r]->0),
                ))
            &&& asks_scale(e, f) && !(f.kind is Float64) ==> forall|r: int|
                0 <= r < t.rows && (#[trigger] t.cols[j][r]) is Some ==> num.parse(
                    t.dicts[j][t.cols[j][r]->0 as int],
                ) is Some
        },
{
    lemma_entry_formed(e);
    let j = c.j;
    let cells = t.cols[j];
    let levels = t.dicts[j];
    assert(t.fields[j].level() is Some);
    assert(cells.len() == t.rows);
    assert(levels.len() <= u64::MAX);
    match c.rebuild {
        Rebuild::Keep => {},
        Rebuild::Remap => {
            let list = listed(e);
            if forall|r: int|
                0 <= r < t.rows && (#[trigger] t.cols[j][r]) is Some ==> list.contains(
                    levels[t.cols[j][r]->0 as int],
                ) {
                assert forall|k: int|
                    0 <= k < levels.len() && used_in(cells, k as u64) implies list.contains(
                    #[trigger] levels[k],
                ) by {
                    let r = cells.index_of(Some(k as u64));
                    assert(t.cols[j][r] is Some);
                }
                lemma_nothing_missing(levels, cells, list);
            }
            if missing_levels(levels, cells, Seq::empty(), list).len() == 0 {
                assert forall|r: int| 0 <= r < t.rows && (#[trigger] t.cols[j][r]) is Some implies list.contains(
                    levels[t.cols[j][r]->0 as int],
                ) by {
                    assert(cell_fits(t.fields[j], levels, cells[r]));
                    let x = cells[r]->0 as int;
                    assert(used_in(cells, x as u64));
                    crate::undo_block::lemma_none_missing(levels, cells, Seq::empty(), list, x);
                }
            }
        },
        Rebuild::ToScale => {
            if forall|r: int|
                0 <= r < t.rows && (#[trigger] t.cols[j][r]) is Some ==> num.parse(
                    levels[t.cols[j][r]->0 as int],
                ) is Some {
                assert forall|k: int|
                    0 <= k < levels.len() && used_in(cells, k as u64) implies num.parse(
                    #[trigger] levels[k],
                ) is Some by {
                    let r = cells.index_of(Some(k as u64));
                    assert(t.cols[j][r] is Some);
                }
                lemma_none_unparsed(levels, cells, num);
            }
            if unparsed_levels(levels, cells, num).len() == 0 {
                assert forall|r: int| 0 <= r < t.rows && (#[trigger] t.cols[j][r]) is Some implies num.parse(
                    levels[t.cols[j][r]->0 as int],
                ) is Some by {
                    assert(cell_fits(t.fields[j], levels, cells[r]));
                    let x = cells[r]->0 as int;
                    assert(used_in(cells, x as u64));
                    lemma_unparsed(levels, cells, num, x);
                }
            }
        },
        Rebuild::ToCategorical => {
            lemma_showings(t, num, j);
            if c.e.levels is Some {
                let list = listed(e);
                let set = rendered(t, num, j);
                lemma_nothing_lacking(set, list);
                if lacking(set, list).len() == 0 {
                    assert forall|r: int|
                        0 <= r < t.rows && (#[trigger] t.cols[j][r]) is Some implies list.contains(
                        num.show(t.cols[j][r]->0),
                    ) by {
                        let s = num.show(t.cols[j][r]->0);
                        assert(showings(t, num, j).contains(s));
                        assert(set.contains(s));
                        let i = set.index_of(s);
                        assert(list.contains(set[i]));
                    }
                }
                if forall|r: int|
                    0 <= r < t.rows && (#[trigger] t.cols[j][r]) is Some ==> list.contains(
                        num.show(t.cols[j][r]->0),
                    ) {
                    assert forall|i: int| 0 <= i < set.len() implies list.contains(
                        #[trigger] set[i],
                    ) by {
                        assert(set.contains(set[i]));
                        assert(showings(t, num, j).contains(set[i]));
                    }
                }
            }
        },
    }
}

#[verifier::rlimit(60)]
proof fn lemma_labels(t: TableV, num: NumeralsV, e: JsonV, c: ChangeV)
    requires
        regular(t),
        well_formed(e),
        0 <= c.j < t.fields.len(),
        c.e == change_entry(e)->Ok_0,
        c.rebuild == crate::schema_change::rebuild_of(
            t.fields[c.j].is_scale(),
            c.level,
            c.e.levels,
        ),
        c.level is Scale ==> c.e.levels is None && c.e.labels is None,
    ensures
        c.e.labels is Some ==> (stray_labels(c.e.labels->0, label_targets(t, num, c))
            =~= Set::empty() <==> forall|k: Seq<char>| #[trigger]
            at(e, "labels"@)->Object_0.contains_key(k) ==> if given(e, "levels"@) {
                listed(e).contains(k)
            } else if t.fields[c.j].kind is Float64 {
                showings(t, num, c.j).contains(k)
            } else {
                t.dicts[c.j].contains(k)
            }),
{
    lemma_entry_formed(e);
    let j = c.j;
    assert(t.fields[j].level() is Some);
    lemma_showings(t, num, j);
    if c.e.labels is Some {
        let m = at(e, "labels"@)->Object_0;
        let targets = label_targets(t, num, c);
        let stray = stray_labels(c.e.labels->0, targets);
        assert forall|k: Seq<char>| #[trigger] m.contains_key(k) implies (stray.contains(k) <==> !(
        if given(e, "levels"@) {
            listed(e).contains(k)
        } else if t.fields[j].kind is Float64 {
            showings(t, num, j).contains(k)
        } else {
            t.dicts[j].contains(k)
        })) by {
            assert(c.e.labels->0.contains_key(k));
        }
        if stray =~= Set::empty() {
            assert(forall|k: Seq<char>| !stray.contains(k));
        }
        if forall|k: Seq<char>| #[trigger]
            m.contains_key(k) ==> if given(e, "levels"@) {
                listed(e).contains(k)
            } else if t.fields[j].kind is Float64 {
                showings(t, num, j).contains(k)
            } else {
                t.dicts[j].contains(k)
            } {
            assert forall|k: Seq<char>| !stray.contains(k) by {
                if stray.contains(k) {
                    assert(m.contains_key(k));
                }
            }
            assert(stray =~= Set::empty());
        }
    }
}

/// What a change of the schema asks is in order: it lists every column once, by a name that no
/// other column has, and what it asks of each can be done.
pub open spec fn acceptable(t: TableV, num: NumeralsV, target: JsonV) -> bool {
    let a = target->Array_0;
    &&& target is Array
    &&& a.len() == t.fields.len()
    &&& forall|k: int|
        0 <= k < a.len() ==> well_formed(#[trigger] a[k]) && exists|j: int|
            0 <= j < t.fields.len() && at(a[k], "name"@)->Str_0 == (#[trigger] t.fields[j]).name
                && only_one(t, j) && feasible(t, num, a[k], j)
    &&& forall|i: int, k: int|
        0 <= i < k < a.len() ==> at(#[trigger] a[i], "name"@)->Str_0 != at(
            #[trigger] a[k],
            "name"@,
        )->Str_0
}

/// Every accepted change of the schema is in order.
#[verifier::rlimit(60)]
pub proof fn law_accepted_changes_are_in_order(
    t: TableV,
    num: NumeralsV,
    job: EditJob,
    w: Result<Seq<u8>, Seq<char>>,
)
    requires
        changes(t, num, job, w),
    ensures
        acceptable(t, num, job.edit->SchemaChange_target_schema@),
{
    let target = job.edit->SchemaChange_target_schema@;
    let a = target->Array_0;
    if t.fields.len() > 0 {
        let c0 = lemma_change_at(t, num, job, w, 0);
    } else {
        crate::serve::lemma_supported(t.fields);
        crate::undo_schema::lemma_changed(
            t,
            num,
            job.ingest.sort_limit as nat,
            target,
            job.revision,
            w,
        );
        crate::change_laws::lemma_entries_len(a);
    }
    let cs = asked_changes(t, target)->Ok_0;
    assert forall|k: int| 0 <= k < a.len() implies well_formed(#[trigger] a[k]) && exists|j: int|
        0 <= j < t.fields.len() && at(a[k], "name"@)->Str_0 == (#[trigger] t.fields[j]).name
            && only_one(t, j) && feasible(t, num, a[k], j) by {
        let c = lemma_change_at(t, num, job, w, k);
        lemma_entry_formed(a[k]);
        assert(only_one(t, c.j)) by {
            assert forall|i: int| 0 <= i < t.fields.len() && i != c.j implies (
            #[trigger] t.fields[i]).name != t.fields[c.j].name by {
                if i < c.j {
                    assert(t.fields[i].name != t.fields[c.j].name);
                } else {
                    assert(t.fields[c.j].name != t.fields[i].name);
                }
            }
        }
        let es = change_entries(a)->Ok_0;
        let js = entry_columns(t.fields, es)->Ok_0;
        crate::change_laws::lemma_settled(t, es, js, k);
        let used = classified_all(t, es.take(k), js)->Ok_0.1;
        lemma_issue_at(t, num, cs, k);
        crate::change_laws::lemma_entry_at(a, k);
        lemma_entry_columns(t.fields, es);
        lemma_classified(t, es, js);
        lemma_feasible(t, num, a[k], c.j, used);
        assert(t.fields[c.j].name == at(a[k], "name"@)->Str_0);
    }
    assert forall|i: int, k: int| 0 <= i < k < a.len() implies at(
        #[trigger] a[i],
        "name"@,
    )->Str_0 != at(#[trigger] a[k], "name"@)->Str_0 by {
        let x = lemma_change_at(t, num, job, w, i);
        let y = lemma_change_at(t, num, job, w, k);
        lemma_entry_formed(a[i]);
        lemma_entry_formed(a[k]);
        assert(cs[i].j != cs[k].j);
        if x.j < y.j {
            assert(t.fields[x.j].name != t.fields[y.j].name);
        } else {
            assert(t.fields[y.j].name != t.fields[x.j].name);
        }
    }
}

proof fn lemma_issue_at(t: TableV, num: NumeralsV, cs: Seq<ChangeV>, k: int)
    requires
        change_issues(t, num, cs) is None,
        0 <= k < cs.len(),
    ensures
        change_issue(t, num, cs[k]) is None,
    decreases cs.len(),
{
    if k < cs.len() - 1 {
        assert(cs.drop_last()[k] == cs[k]);
        lemma_issue_at(t, num, cs.drop_last(), k);
    }
}

proof fn lemma_issues_none(t: TableV, num: NumeralsV, cs: Seq<ChangeV>)
    requires
        forall|k: int| 0 <= k < cs.len() ==> change_issue(t, num, #[trigger] cs[k]) is None,
    ensures
        change_issues(t, num, cs) is None,
    decreases cs.len(),
{
    if cs.len() > 0 {
        let d = cs.drop_last();
        assert forall|k: int| 0 <= k < d.len() implies change_issue(
            t,
            num,
            #[trigger] d[k],
        ) is None by {
            assert(cs[k] == d[k]);
        }
        lemma_issues_none(t, num, d);
        let m = cs.len() - 1;
        assert(cs[m] == cs.last());
    }
}

proof fn lemma_entries_ok(a: Seq<JsonV>)
    requires
        forall|k: int| 0 <= k < a.len() ==> well_formed(#[trigger] a[k]),
    ensures
        change_entries(a) is Ok,
        change_entries(a)->Ok_0.len() == a.len(),
        forall|k: int|
            0 <= k < a.len() ==> change_entry(#[trigger] a[k]) == Ok::<ChangeEntryV, FailureV>(
                change_entries(a)->Ok_0[k],
            ),
    decreases a.len(),
{
    if a.len() > 0 {
        let d = a.drop_last();
        let m = a.len() - 1;
        assert forall|k: int| 0 <= k < d.len() implies well_formed(#[trigger] d[k]) by {
            assert(a[k] == d[k]);
        }
        lemma_entries_ok(d);
        assert(well_formed(a[m]));
        lemma_entry_formed(a[m]);
        assert forall|k: int| 0 <= k < a.len() implies change_entry(#[trigger] a[k]) == Ok::<
            ChangeEntryV,
            FailureV,
        >(change_entries(a)->Ok_0[k]) by {
            if k < m {
                assert(d[k] == a[k]);
            }
        }
    }
}

proof fn lemma_counted(fields: Seq<FieldV>, name: Seq<char>)
    ensures
        (forall|i: int| 0 <= i < fields.len() ==> (#[trigger] fields[i]).name != name)
            ==> name_count(fields, name) == 0,
    decreases fields.len(),
{
    if fields.len() > 0 {
        let d = fields.drop_last();
        lemma_counted(d, name);
        if forall|i: int| 0 <= i < fields.len() ==> (#[trigger] fields[i]).name != name {
            assert forall|i: int| 0 <= i < d.len() implies (#[trigger] d[i]).name != name by {
                assert(fields[i] == d[i]);
            }
            let m = fields.len() - 1;
            assert(fields[m].name != name);
        }
    }
}

proof fn lemma_counted_once(fields: Seq<FieldV>, name: Seq<char>, j: int)
    requires
        0 <= j < fields.len(),
        fields[j].name == name,
        forall|i: int| 0 <= i < fields.len() && i != j ==> (#[trigger] fields[i]).name != name,
    ensures
        name_count(fields, name) == 1,
        name_index(fields, name) == j,
    decreases fields.len(),
{
    let d = fields.drop_last();
    let m = fields.len() - 1;
    assert forall|i: int| 0 <= i < d.len() && i != j implies (#[trigger] d[i]).name != name by {
        assert(fields[i] == d[i]);
    }
    if j < m {
        assert(d[j] == fields[j]);
        lemma_counted_once(d, name, j);
        assert(fields[m].name != name);
    } else {
        lemma_counted(d, name);
    }
}

proof fn lemma_columns_ok(fields: Seq<FieldV>, es: Seq<ChangeEntryV>, js: Seq<int>)
    requires
        js.len() == es.len(),
        forall|k: int|
            0 <= k < es.len() ==> name_count(fields, (#[trigger] es[k]).name) == 1 && name_index(
                fields,
                es[k].name,
            ) == js[k],
    ensures
        entry_columns(fields, es) == Ok::<Seq<int>, FailureV>(js),
    decreases es.len(),
{
    if es.len() > 0 {
        let d = es.drop_last();
        let g = js.drop_last();
        let m = es.len() - 1;
        assert forall|k: int| 0 <= k < d.len() implies name_count(fields, (#[trigger] d[k]).name)
            == 1 && name_index(fields, d[k].name) == g[k] by {
            assert(es[k] == d[k]);
        }
        lemma_columns_ok(fields, d, g);
        assert(es[m] == es.last());
        assert(g.push(js[m]) =~= js);
    } else {
        assert(js =~= Seq::empty());
    }
}

proof fn lemma_not_twice(js: Seq<int>)
    requires
        forall|i: int, k: int| 0 <= i < k < js.len() ==> js[i] != js[k],
    ensures
        first_twice(js) is None,
    decreases js.len(),
{
    if js.len() > 0 {
        let d = js.drop_last();
        lemma_not_twice(d);
        if d.contains(js.last()) {
            let i = d.index_of(js.last());
            assert(js[i] != js[js.len() - 1]);
        }
    }
}

proof fn lemma_classified_ok(t: TableV, num: NumeralsV, a: Seq<JsonV>, es: Seq<ChangeEntryV>, js: Seq<int>)
    requires
        regular(t),
        es.len() <= a.len(),
        es.len() <= js.len(),
        forall|k: int|
            0 <= k < es.len() ==> well_formed(#[trigger] a[k]) && change_entry(a[k]) == Ok::<
                ChangeEntryV,
                FailureV,
            >(es[k]) && 0 <= js[k] < t.fields.len() && feasible(t, num, a[k], js[k]),
    ensures
        classified_all(t, es, js) is Ok,
        ({
            let cs = classified_all(t, es, js)->Ok_0.0;
            &&& cs.len() == es.len()
            &&& forall|k: int|
                0 <= k < cs.len() ==> change_issue(t, num, #[trigger] cs[k]) is None && cs[k].j
                    == js[k]
        }),
    decreases es.len(),
{
    if es.len() > 0 {
        let d = es.drop_last();
        let m = es.len() - 1;
        lemma_classified_ok(t, num, a, d, js);
        let p = classified_all(t, d, js)->Ok_0;
        assert(well_formed(a[m]));
        lemma_feasible(t, num, a[m], js[m], p.1);
        let cs = classified_all(t, es, js)->Ok_0.0;
        assert forall|k: int| 0 <= k < cs.len() implies change_issue(
            t,
            num,
            #[trigger] cs[k],
        ) is None && cs[k].j == js[k] by {
            if k < m {
                assert(cs[k] == p.0[k]);
            }
        }
    }
}

/// A column that a change plans takes over what lies within its dictionary.
proof fn lemma_change_takes_over(t: TableV, num: NumeralsV, limit: nat, c: ChangeV)
    requires
        regular(t),
        0 <= c.j < t.fields.len(),
        c.rebuild == crate::schema_change::rebuild_of(
            t.fields[c.j].is_scale(),
            c.level,
            c.e.levels,
        ),
    ensures
        takes_over(changed_col(t, num, limit, c), t),
{
    assert(t.fields[c.j].level() is Some);
    if c.rebuild is Remap {
        lemma_map_inside(t.dicts[c.j], c.e.levels->0);
    }
}

/// A change of the schema that is in order is accepted, where what it makes anew can be sent:
/// any column that becomes a scale or stops being one. Otherwise nothing needs to be sent.
#[verifier::rlimit(60)]
pub proof fn law_changes_in_order_are_accepted(
    t: TableV,
    num: NumeralsV,
    job: EditJob,
    w: Result<Seq<u8>, Seq<char>>,
)
    requires
        orderly(t),
        job.edit is SchemaChange,
        acceptable(t, num, job.edit->SchemaChange_target_schema@),
        sendable(w) || forall|k: int, j: int|
            #![trigger asked_entries(job)[k], t.fields[j]]
            0 <= k < t.fields.len() && 0 <= j < t.fields.len() && at(
                asked_entries(job)[k],
                "name"@,
            )->Str_0 == t.fields[j].name ==> asks_scale(asked_entries(job)[k], t.fields[j]) == (
            t.fields[j].kind is Float64),
    ensures
        edit_outcome(t, num, job, w) is Ok,
{
    let target = job.edit->SchemaChange_target_schema@;
    let limit = job.ingest.sort_limit as nat;
    crate::serve::lemma_supported(t.fields);
    assert(edit_outcome(t, num, job, w) == schema_outcome(
        t,
        num,
        limit,
        target,
        job.revision,
        w,
    ));
    lemma_changes_settled(t, num, target);
    let cs = asked_changes(t, target)->Ok_0;
    lemma_changes_fit(t, num, limit, cs);
    if !sendable(w) {
        assert forall|k: int| 0 <= k < cs.len() implies !crate::schema_change::reencodes(
            #[trigger] cs[k],
        ) by {
            lemma_keeps_encoding(t, asked_entries(job)[k], cs[k]);
        }
        lemma_none_reencoded(cs);
    }
}

proof fn lemma_keeps_encoding(t: TableV, e: JsonV, c: ChangeV)
    requires
        regular(t),
        0 <= c.j < t.fields.len(),
        well_formed(e),
        change_entry(e) == Ok::<ChangeEntryV, FailureV>(c.e),
        crate::schema_change::asked_level(c.e, t.fields[c.j]) == Ok::<
            crate::table::Level,
            FailureV,
        >(c.level),
        c.rebuild == crate::schema_change::rebuild_of(
            t.fields[c.j].is_scale(),
            c.level,
            c.e.levels,
        ),
        asks_scale(e, t.fields[c.j]) == (t.fields[c.j].kind is Float64),
    ensures
        !crate::schema_change::reencodes(c),
{
    lemma_entry_formed(e);
    lemma_types_differ();
    assert(t.fields[c.j].level() is Some);
}

/// A schema that is in order settles what is to be done with each column, and nothing speaks
/// against it.
#[verifier::rlimit(60)]
proof fn lemma_changes_settled(t: TableV, num: NumeralsV, target: JsonV)
    requires
        regular(t),
        acceptable(t, num, target),
    ensures
        asked_changes(t, target) is Ok,
        ({
            let cs = asked_changes(t, target)->Ok_0;
            let a = target->Array_0;
            &&& cs.len() == t.fields.len()
            &&& change_issues(t, num, cs) is None
            &&& forall|k: int|
                #![trigger cs[k]]
                0 <= k < cs.len() ==> {
                    &&& well_formed(a[k])
                    &&& change_entry(a[k]) == Ok::<ChangeEntryV, FailureV>(cs[k].e)
                    &&& 0 <= cs[k].j < t.fields.len()
                    &&& at(a[k], "name"@)->Str_0 == t.fields[cs[k].j].name
                    &&& crate::schema_change::asked_level(cs[k].e, t.fields[cs[k].j]) == Ok::<
                        crate::table::Level,
                        FailureV,
                    >(cs[k].level)
                    &&& cs[k].rebuild == crate::schema_change::rebuild_of(
                        t.fields[cs[k].j].is_scale(),
                        cs[k].level,
                        cs[k].e.levels,
                    )
                }
        }),
{
    let a = target->Array_0;
    lemma_entries_ok(a);
    let es = change_entries(a)->Ok_0;
    let js = Seq::new(
        a.len(),
        |k: int|
            choose|j: int|
                0 <= j < t.fields.len() && at(a[k], "name"@)->Str_0 == (
                #[trigger] t.fields[j]).name && only_one(t, j) && feasible(t, num, a[k], j),
    );
    assert forall|k: int| 0 <= k < a.len() implies 0 <= #[trigger] js[k] < t.fields.len() && at(
        a[k],
        "name"@,
    )->Str_0 == t.fields[js[k]].name && only_one(t, js[k]) && feasible(t, num, a[k], js[k]) by {
        assert(well_formed(a[k]));
    }
    assert forall|k: int| 0 <= k < es.len() implies name_count(
        t.fields,
        (#[trigger] es[k]).name,
    ) == 1 && name_index(t.fields, es[k].name) == js[k] by {
        assert(well_formed(a[k]));
        lemma_entry_formed(a[k]);
        assert(change_entry(a[k]) == Ok::<ChangeEntryV, FailureV>(es[k]));
        let j = js[k];
        assert(only_one(t, j));
        lemma_counted_once(t.fields, es[k].name, j);
    }
    lemma_columns_ok(t.fields, es, js);
    assert forall|i: int, k: int| 0 <= i < k < js.len() implies js[i] != js[k] by {
        assert(at(a[i], "name"@)->Str_0 != at(a[k], "name"@)->Str_0);
        assert(at(a[i], "name"@)->Str_0 == t.fields[js[i]].name);
        assert(at(a[k], "name"@)->Str_0 == t.fields[js[k]].name);
    }
    lemma_not_twice(js);
    lemma_classified_ok(t, num, a, es, js);
    lemma_classified(t, es, js);
    let cs = asked_changes(t, target)->Ok_0;
    assert(cs == classified_all(t, es, js)->Ok_0.0);
    lemma_issues_none(t, num, cs);
    assert forall|k: int| #![trigger cs[k]] 0 <= k < cs.len() implies well_formed(a[k])
        && change_entry(a[k]) == Ok::<ChangeEntryV, FailureV>(cs[k].e) && 0 <= cs[k].j
        < t.fields.len() && at(a[k], "name"@)->Str_0 == t.fields[cs[k].j].name by {
        assert(cs[k].j == js[k]);
        assert(cs[k].e == es[k]);
        assert(well_formed(a[k]));
        assert(change_entry(a[k]) == Ok::<ChangeEntryV, FailureV>(es[k]));
    }
}

/// The cells of the columns that changes plan fit them.
proof fn lemma_changes_fit(t: TableV, num: NumeralsV, limit: nat, cs: Seq<ChangeV>)
    requires
        regular(t),
        cs.len() == t.fields.len(),
        forall|k: int|
            #![trigger cs[k]]
            0 <= k < cs.len() ==> 0 <= cs[k].j < t.fields.len() && cs[k].rebuild
                == crate::schema_change::rebuild_of(
                t.fields[cs[k].j].is_scale(),
                cs[k].level,
                cs[k].e.levels,
            ),
    ensures
        rewritten(
            t,
            changed_cols(t, num, limit, cs),
            num,
            seq![Seg::Copy { out: 0, old: 0, len: t.rows as u64 }],
            t.rows,
        ) is Ok,
{
    let plan = changed_cols(t, num, limit, cs);
    let seg = Seg::Copy { out: 0, old: 0, len: t.rows as u64 };
    let segs = seq![seg];
    crate::edit_cols::lemma_one(plan[0], num, t.cols, t.rows, seg);
    assert forall|c: int, i: int| 0 <= c < plan.len() && 0 <= i < table_rows(segs) implies cell_fits(
        plan[c].field,
        plan[c].levels,
        #[trigger] walked(plan[c], num, t.cols, t.rows, segs)[i],
    ) by {
        let k = cs[c];
        crate::edit_cols::lemma_one(plan[c], num, t.cols, t.rows, seg);
        lemma_change_takes_over(t, num, limit, k);
        lemma_old_fits(plan[c], num, t, i);
    }
}

proof fn lemma_none_reencoded(cs: Seq<ChangeV>)
    requires
        forall|k: int|
            0 <= k < cs.len() ==> !crate::schema_change::reencodes(#[trigger] cs[k]),
    ensures
        reencoded(cs).len() == 0,
    decreases cs.len(),
{
    if cs.len() > 0 {
        let d = cs.drop_last();
        assert forall|k: int| 0 <= k < d.len() implies !crate::schema_change::reencodes(
            #[trigger] d[k],
        ) by {
            assert(cs[k] == d[k]);
        }
        lemma_none_reencoded(d);
        let m = cs.len() - 1;
        assert(cs[m] == cs.last());
    }
}

/// What an entry asks of column `j` makes sense by itself: the type is known, a scale gets no
/// levels and no labels, and no level is listed twice.
pub open spec fn sensible(t: TableV, e: JsonV, j: int) -> bool {
    &&& given(e, "type"@) ==> at(e, "type"@)->Str_0 == "scale"@ || at(e, "type"@)->Str_0
        == "ordinal"@ || at(e, "type"@)->Str_0 == "nominal"@
    &&& asks_scale(e, t.fields[j]) ==> !given(e, "levels"@) && !given(e, "labels"@)
    &&& given(e, "levels"@) ==> distinct(listed(e))
}

/// A schema makes sense by itself: it lists every column once, by a name that no other column
/// has, and what it asks of each makes sense.
pub open spec fn understood(t: TableV, target: JsonV) -> bool {
    let a = target->Array_0;
    &&& target is Array
    &&& a.len() == t.fields.len()
    &&& forall|k: int|
        0 <= k < a.len() ==> well_formed(#[trigger] a[k]) && exists|j: int|
            0 <= j < t.fields.len() && at(a[k], "name"@)->Str_0 == (#[trigger] t.fields[j]).name
                && only_one(t, j) && sensible(t, a[k], j)
    &&& forall|i: int, k: int|
        0 <= i < k < a.len() ==> at(#[trigger] a[i], "name"@)->Str_0 != at(
            #[trigger] a[k],
            "name"@,
        )->Str_0
}

proof fn lemma_sensible(t: TableV, e: JsonV, j: int, used: Seq<Seq<char>>)
    requires
        regular(t),
        well_formed(e),
        0 <= j < t.fields.len(),
    ensures
        sensible(t, e, j) <==> classified(t, change_entry(e)->Ok_0, j, used) is Ok,
        classified(t, change_entry(e)->Ok_0, j, used) is Err ==> refused_as(
            classified(t, change_entry(e)->Ok_0, j, used)->Err_0,
            "schema_mismatch"@,
        ),
{
    lemma_types_differ();
    lemma_entry_formed(e);
    let x = change_entry(e)->Ok_0;
    assert(t.fields[j].level() is Some);
    if x.levels is Some {
        lemma_first_repeat(x.levels->0);
    }
}

proof fn lemma_sensible_all(t: TableV, a: Seq<JsonV>, es: Seq<ChangeEntryV>, js: Seq<int>)
    requires
        regular(t),
        es.len() <= a.len(),
        es.len() <= js.len(),
        forall|k: int|
            0 <= k < es.len() ==> well_formed(#[trigger] a[k]) && change_entry(a[k]) == Ok::<
                ChangeEntryV,
                FailureV,
            >(es[k]) && 0 <= js[k] < t.fields.len() && sensible(t, a[k], js[k]),
    ensures
        classified_all(t, es, js) is Ok,
    decreases es.len(),
{
    if es.len() > 0 {
        let d = es.drop_last();
        let m = es.len() - 1;
        lemma_sensible_all(t, a, d, js);
        let p = classified_all(t, d, js)->Ok_0;
        assert(well_formed(a[m]));
        lemma_sensible(t, a[m], js[m], p.1);
    }
}

/// A schema settles what is to be done with each column exactly where it makes sense.
proof fn lemma_understood(t: TableV, target: JsonV)
    requires
        regular(t),
    ensures
        understood(t, target) <==> asked_changes(t, target) is Ok,
        asked_changes(t, target) is Ok ==> ({
            let cs = asked_changes(t, target)->Ok_0;
            let a = target->Array_0;
            &&& cs.len() == t.fields.len()
            &&& forall|k: int|
                #![trigger cs[k]]
                0 <= k < cs.len() ==> {
                    &&& well_formed(a[k])
                    &&& change_entry(a[k]) == Ok::<ChangeEntryV, FailureV>(cs[k].e)
                    &&& 0 <= cs[k].j < t.fields.len()
                    &&& at(a[k], "name"@)->Str_0 == t.fields[cs[k].j].name
                    &&& crate::schema_change::asked_level(cs[k].e, t.fields[cs[k].j]) == Ok::<
                        crate::table::Level,
                        FailureV,
                    >(cs[k].level)
                    &&& cs[k].level is Scale ==> cs[k].e.levels is None && cs[k].e.labels is None
                    &&& cs[k].rebuild == crate::schema_change::rebuild_of(
                        t.fields[cs[k].j].is_scale(),
                        cs[k].level,
                        cs[k].e.levels,
                    )
                }
        }),
{
    if understood(t, target) {
        lemma_understood_settles(t, target);
    }
    if asked_changes(t, target) is Ok {
        lemma_settled_understood(t, target);
    }
}

#[verifier::rlimit(60)]
proof fn lemma_understood_settles(t: TableV, target: JsonV)
    requires
        regular(t),
        understood(t, target),
    ensures
        asked_changes(t, target) is Ok,
{
    let a = target->Array_0;
    lemma_entries_ok(a);
    let es = change_entries(a)->Ok_0;
    let js = Seq::new(
        a.len(),
        |k: int|
            choose|j: int|
                0 <= j < t.fields.len() && at(a[k], "name"@)->Str_0 == (
                #[trigger] t.fields[j]).name && only_one(t, j) && sensible(t, a[k], j),
    );
    assert forall|k: int| 0 <= k < a.len() implies 0 <= #[trigger] js[k] < t.fields.len() && at(
        a[k],
        "name"@,
    )->Str_0 == t.fields[js[k]].name && only_one(t, js[k]) && sensible(t, a[k], js[k]) by {
        assert(well_formed(a[k]));
    }
    assert forall|k: int| 0 <= k < es.len() implies name_count(
        t.fields,
        (#[trigger] es[k]).name,
    ) == 1 && name_index(t.fields, es[k].name) == js[k] by {
        assert(well_formed(a[k]));
        lemma_entry_formed(a[k]);
        assert(change_entry(a[k]) == Ok::<ChangeEntryV, FailureV>(es[k]));
        let j = js[k];
        assert(only_one(t, j));
        lemma_counted_once(t.fields, es[k].name, j);
    }
    lemma_columns_ok(t.fields, es, js);
    assert forall|i: int, k: int| 0 <= i < k < js.len() implies js[i] != js[k] by {
        assert(at(a[i], "name"@)->Str_0 != at(a[k], "name"@)->Str_0);
        assert(at(a[i], "name"@)->Str_0 == t.fields[js[i]].name);
        assert(at(a[k], "name"@)->Str_0 == t.fields[js[k]].name);
    }
    lemma_not_twice(js);
    assert forall|k: int| 0 <= k < es.len() implies well_formed(#[trigger] a[k]) && change_entry(
        a[k],
    ) == Ok::<ChangeEntryV, FailureV>(es[k]) && 0 <= js[k] < t.fields.len() && sensible(
        t,
        a[k],
        js[k],
    ) by {
        let j = js[k];
    }
    lemma_sensible_all(t, a, es, js);
}

#[verifier::rlimit(60)]
proof fn lemma_settled_understood(t: TableV, target: JsonV)
    requires
        regular(t),
        asked_changes(t, target) is Ok,
    ensures
        understood(t, target),
        ({
            let cs = asked_changes(t, target)->Ok_0;
            let a = target->Array_0;
            &&& cs.len() == t.fields.len()
            &&& forall|k: int|
                #![trigger cs[k]]
                0 <= k < cs.len() ==> {
                    &&& well_formed(a[k])
                    &&& change_entry(a[k]) == Ok::<ChangeEntryV, FailureV>(cs[k].e)
                    &&& 0 <= cs[k].j < t.fields.len()
                    &&& at(a[k], "name"@)->Str_0 == t.fields[cs[k].j].name
                    &&& crate::schema_change::asked_level(cs[k].e, t.fields[cs[k].j]) == Ok::<
                        crate::table::Level,
                        FailureV,
                    >(cs[k].level)
                    &&& cs[k].level is Scale ==> cs[k].e.levels is None && cs[k].e.labels is None
                    &&& cs[k].rebuild == crate::schema_change::rebuild_of(
                        t.fields[cs[k].j].is_scale(),
                        cs[k].level,
                        cs[k].e.levels,
                    )
                }
        }),
{
    let a = target->Array_0;
    let es = change_entries(a)->Ok_0;
    crate::change_laws::lemma_entries_len(a);
    lemma_entry_columns(t.fields, es);
    let js = entry_columns(t.fields, es)->Ok_0;
    lemma_classified(t, es, js);
    crate::undo_schema::law_changes_tell_columns_apart(t, target);
    let cs = asked_changes(t, target)->Ok_0;
    assert forall|k: int| 0 <= k < a.len() implies well_formed(#[trigger] a[k]) && change_entry(
        a[k],
    ) == Ok::<ChangeEntryV, FailureV>(es[k]) && at(a[k], "name"@)->Str_0 == es[k].name by {
        crate::change_laws::lemma_entry_at(a, k);
        lemma_entry_formed(a[k]);
    }
    assert forall|k: int| 0 <= k < a.len() implies well_formed(#[trigger] a[k]) && exists|j: int|
        0 <= j < t.fields.len() && at(a[k], "name"@)->Str_0 == (#[trigger] t.fields[j]).name
            && only_one(t, j) && sensible(t, a[k], j) by {
        let j = js[k];
        assert(t.fields[j].name == es[k].name);
        assert(only_one(t, j)) by {
            assert forall|i: int| 0 <= i < t.fields.len() && i != j implies (
            #[trigger] t.fields[i]).name != t.fields[j].name by {
                if i < j {
                    assert(t.fields[i].name != t.fields[j].name);
                } else {
                    assert(t.fields[j].name != t.fields[i].name);
                }
            }
        }
        crate::change_laws::lemma_settled(t, es, js, k);
        lemma_sensible(t, a[k], j, classified_all(t, es.take(k), js)->Ok_0.1);
    }
    assert forall|i: int, k: int| 0 <= i < k < a.len() implies at(
        #[trigger] a[i],
        "name"@,
    )->Str_0 != at(#[trigger] a[k], "name"@)->Str_0 by {
        lemma_never_twice(js, i, k);
        let x = js[i];
        let y = js[k];
        if x < y {
            assert(t.fields[x].name != t.fields[y].name);
        } else {
            assert(t.fields[y].name != t.fields[x].name);
        }
    }
    assert forall|k: int| #![trigger cs[k]] 0 <= k < cs.len() implies well_formed(a[k])
        && change_entry(a[k]) == Ok::<ChangeEntryV, FailureV>(cs[k].e) && 0 <= cs[k].j
        < t.fields.len() && at(a[k], "name"@)->Str_0 == t.fields[cs[k].j].name by {
        assert(well_formed(a[k]));
        assert(cs[k].j == js[k]);
        assert(cs[k].e == es[k]);
        assert(t.fields[js[k]].name == es[k].name);
    }
}

proof fn lemma_never_twice(js: Seq<int>, i: int, k: int)
    requires
        first_twice(js) is None,
        0 <= i < k < js.len(),
    ensures
        js[i] != js[k],
    decreases js.len(),
{
    let d = js.drop_last();
    if k < d.len() {
        lemma_never_twice(d, i, k);
    } else {
        assert(d[i] == js[i]);
        if js[i] == js[k] {
            assert(d.contains(js.last()));
        }
    }
}

proof fn lemma_unsettled(t: TableV, target: JsonV)
    requires
        regular(t),
        asked_changes(t, target) is Err,
    ensures
        refused_as(asked_changes(t, target)->Err_0, "schema_mismatch"@),
{
    if target is Array {
        let a = target->Array_0;
        lemma_entries_refused(a);
        if change_entries(a) is Ok {
            let es = change_entries(a)->Ok_0;
            lemma_columns_refused(t.fields, es);
            if entry_columns(t.fields, es) is Ok {
                lemma_classified_refused(t, es, entry_columns(t.fields, es)->Ok_0);
            }
        }
    }
}

proof fn lemma_entries_refused(a: Seq<JsonV>)
    ensures
        change_entries(a) is Err ==> refused_as(change_entries(a)->Err_0, "schema_mismatch"@),
    decreases a.len(),
{
    if a.len() > 0 {
        lemma_entries_refused(a.drop_last());
    }
}

proof fn lemma_columns_refused(fields: Seq<FieldV>, es: Seq<ChangeEntryV>)
    ensures
        entry_columns(fields, es) is Err ==> refused_as(
            entry_columns(fields, es)->Err_0,
            "schema_mismatch"@,
        ),
    decreases es.len(),
{
    if es.len() > 0 {
        lemma_columns_refused(fields, es.drop_last());
    }
}

proof fn lemma_classified_refused(t: TableV, es: Seq<ChangeEntryV>, js: Seq<int>)
    ensures
        classified_all(t, es, js) is Err ==> refused_as(
            classified_all(t, es, js)->Err_0,
            "schema_mismatch"@,
        ),
    decreases es.len(),
{
    if es.len() > 0 {
        lemma_classified_refused(t, es.drop_last(), js);
    }
}

/// A schema that does not make sense by itself is refused as a mismatch.
#[verifier::rlimit(60)]
pub proof fn law_senseless_changes_are_refused(
    t: TableV,
    num: NumeralsV,
    job: EditJob,
    w: Result<Seq<u8>, Seq<char>>,
)
    requires
        regular(t),
        job.edit is SchemaChange,
        !understood(t, job.edit->SchemaChange_target_schema@),
    ensures
        edit_outcome(t, num, job, w) is Err,
        refused_as(edit_outcome(t, num, job, w)->Err_0, "schema_mismatch"@),
{
    let target = job.edit->SchemaChange_target_schema@;
    crate::serve::lemma_supported(t.fields);
    lemma_understood(t, target);
    lemma_unsettled(t, target);
    assert(edit_outcome(t, num, job, w) == schema_outcome(
        t,
        num,
        job.ingest.sort_limit as nat,
        target,
        job.revision,
        w,
    ));
}

proof fn lemma_first_issue(t: TableV, num: NumeralsV, cs: Seq<ChangeV>, k: int)
    requires
        0 <= k < cs.len(),
        forall|i: int| 0 <= i < k ==> change_issue(t, num, #[trigger] cs[i]) is None,
        change_issue(t, num, cs[k]) is Some,
    ensures
        change_issues(t, num, cs) == change_issue(t, num, cs[k]),
    decreases cs.len(),
{
    let d = cs.drop_last();
    if k < d.len() {
        assert forall|i: int| 0 <= i < k implies change_issue(
            t,
            num,
            #[trigger] d[i],
        ) is None by {
            assert(cs[i] == d[i]);
        }
        assert(d[k] == cs[k]);
        lemma_first_issue(t, num, d, k);
    } else {
        assert forall|i: int| 0 <= i < d.len() implies change_issue(
            t,
            num,
            #[trigger] d[i],
        ) is None by {
            assert(cs[i] == d[i]);
        }
        lemma_issues_none(t, num, d);
    }
}

/// A schema that makes sense is refused for the first entry that cannot be done, and the refusal
/// names its column and says why: a level that is in use would go, a level is no number, a number
/// or a label has no level, or there are too many levels or numbers to have been seen.
#[verifier::rlimit(60)]
pub proof fn law_refused_changes_name_the_first_problem(
    t: TableV,
    num: NumeralsV,
    job: EditJob,
    w: Result<Seq<u8>, Seq<char>>,
    k: int,
    j: int,
)
    requires
        regular(t),
        job.edit is SchemaChange,
        understood(t, job.edit->SchemaChange_target_schema@),
        0 <= k < t.fields.len(),
        0 <= j < t.fields.len(),
        at(asked_entries(job)[k], "name"@) == JsonV::Str(t.fields[j].name),
        !feasible(t, num, asked_entries(job)[k], j),
        forall|i: int, n: int|
            #![trigger asked_entries(job)[i], t.fields[n]]
            0 <= i < k && 0 <= n < t.fields.len() && at(asked_entries(job)[i], "name"@)
                == JsonV::Str(t.fields[n].name) ==> feasible(t, num, asked_entries(job)[i], n),
    ensures
        ({
            let x = edit_outcome(t, num, job, w);
            let e = asked_entries(job)[k];
            let f = t.fields[j];
            let code = if given(e, "levels"@) && !(f.kind is Float64) && t.dicts[j].to_set().len()
                > 10_000 {
                "schema_mismatch"@
            } else if given(e, "levels"@) && !(f.kind is Float64) && exists|r: int|
                0 <= r < t.rows && (#[trigger] t.cols[j][r]) is Some && !listed(e).contains(
                    t.dicts[j][t.cols[j][r]->0 as int],
                ) {
                "level_in_use"@
            } else if asks_scale(e, f) && !(f.kind is Float64) {
                "coercion"@
            } else if given(e, "levels"@) && f.kind is Float64 && showings(t, num, j).len()
                > 10_000 {
                "schema_mismatch"@
            } else {
                "level_unknown"@
            };
            &&& x is Err
            &&& refused_as(x->Err_0, code)
            &&& x->Err_0->Validation_0[0].column == Some(f.name)
        }),
{
    let target = job.edit->SchemaChange_target_schema@;
    let a = target->Array_0;
    crate::serve::lemma_supported(t.fields);
    lemma_understood(t, target);
    assert(edit_outcome(t, num, job, w) == schema_outcome(
        t,
        num,
        job.ingest.sort_limit as nat,
        target,
        job.revision,
        w,
    ));
    let cs = asked_changes(t, target)->Ok_0;
    crate::undo_schema::law_changes_tell_columns_apart(t, target);
    assert forall|i: int| 0 <= i < k implies change_issue(t, num, #[trigger] cs[i]) is None by {
        let c = cs[i];
        assert(asked_entries(job)[i] == a[i]);
        assert(t.fields[c.j].name == at(a[i], "name"@)->Str_0);
        assert(feasible(t, num, a[i], c.j));
        lemma_sensible_at(t, target, i);
        lemma_issue_of(t, num, a[i], c);
    }
    let c = cs[k];
    crate::change_laws::lemma_same_column(t, c.j, j);
    lemma_sensible_at(t, target, k);
    lemma_issue_of(t, num, a[k], c);
    lemma_first_issue(t, num, cs, k);
    lemma_problem(t, num, a[k], c);
}

/// What an entry of a schema that makes sense asks makes sense.
proof fn lemma_sensible_at(t: TableV, target: JsonV, k: int)
    requires
        regular(t),
        asked_changes(t, target) is Ok,
        0 <= k < t.fields.len(),
    ensures
        sensible(t, target->Array_0[k], asked_changes(t, target)->Ok_0[k].j),
{
    lemma_understood(t, target);
    crate::undo_schema::law_changes_tell_columns_apart(t, target);
    let a = target->Array_0;
    let c = asked_changes(t, target)->Ok_0[k];
    assert(well_formed(a[k]));
    let j = choose|j: int|
        0 <= j < t.fields.len() && at(a[k], "name"@)->Str_0 == (#[trigger] t.fields[j]).name
            && only_one(t, j) && sensible(t, a[k], j);
    crate::change_laws::lemma_same_column(t, c.j, j);
}

/// What a settled change that cannot be done is refused as.
#[verifier::rlimit(60)]
proof fn lemma_problem(t: TableV, num: NumeralsV, e: JsonV, c: ChangeV)
    requires
        regular(t),
        well_formed(e),
        0 <= c.j < t.fields.len(),
        change_entry(e) == Ok::<ChangeEntryV, FailureV>(c.e),
        crate::schema_change::asked_level(c.e, t.fields[c.j]) == Ok::<
            crate::table::Level,
            FailureV,
        >(c.level),
        c.level is Scale ==> c.e.levels is None && c.e.labels is None,
        c.rebuild == crate::schema_change::rebuild_of(
            t.fields[c.j].is_scale(),
            c.level,
            c.e.levels,
        ),
        change_issue(t, num, c) is Some,
    ensures
        ({
            let j = c.j;
            let f = t.fields[j];
            let x = change_issue(t, num, c)->0;
            let code = if given(e, "levels"@) && !(f.kind is Float64) && t.dicts[j].to_set().len()
                > 10_000 {
                "schema_mismatch"@
            } else if given(e, "levels"@) && !(f.kind is Float64) && exists|r: int|
                0 <= r < t.rows && (#[trigger] t.cols[j][r]) is Some && !listed(e).contains(
                    t.dicts[j][t.cols[j][r]->0 as int],
                ) {
                "level_in_use"@
            } else if asks_scale(e, f) && !(f.kind is Float64) {
                "coercion"@
            } else if given(e, "levels"@) && f.kind is Float64 && showings(t, num, j).len()
                > 10_000 {
                "schema_mismatch"@
            } else {
                "level_unknown"@
            };
            refused_as(x, code) && x->Validation_0[0].column == Some(at(e, "name"@)->Str_0)
        }),
{
    lemma_entry_formed(e);
    lemma_asks_scale(t, e, c);
    lemma_data(t, num, e, c);
    assert(t.fields[c.j].level() is Some);
    if c.rebuild is ToCategorical {
        lemma_showings(t, num, c.j);
    }
}

proof fn lemma_asks_scale(t: TableV, e: JsonV, c: ChangeV)
    requires
        regular(t),
        well_formed(e),
        0 <= c.j < t.fields.len(),
        change_entry(e) == Ok::<ChangeEntryV, FailureV>(c.e),
        crate::schema_change::asked_level(c.e, t.fields[c.j]) == Ok::<
            crate::table::Level,
            FailureV,
        >(c.level),
    ensures
        c.level is Scale <==> asks_scale(e, t.fields[c.j]),
{
    lemma_entry_formed(e);
    lemma_types_differ();
    assert(t.fields[c.j].level() is Some);
}

/// A settled change has no fault exactly where what its entry asks can be done.
proof fn lemma_issue_of(t: TableV, num: NumeralsV, e: JsonV, c: ChangeV)
    requires
        regular(t),
        well_formed(e),
        0 <= c.j < t.fields.len(),
        change_entry(e) == Ok::<ChangeEntryV, FailureV>(c.e),
        crate::schema_change::asked_level(c.e, t.fields[c.j]) == Ok::<
            crate::table::Level,
            FailureV,
        >(c.level),
        c.level is Scale ==> c.e.levels is None && c.e.labels is None,
        c.rebuild == crate::schema_change::rebuild_of(
            t.fields[c.j].is_scale(),
            c.level,
            c.e.levels,
        ),
        sensible(t, e, c.j),
    ensures
        change_issue(t, num, c) is None <==> feasible(t, num, e, c.j),
{
    lemma_entry_formed(e);
    lemma_asks_scale(t, e, c);
    lemma_data(t, num, e, c);
    lemma_labels(t, num, e, c);
}

} // verus!
