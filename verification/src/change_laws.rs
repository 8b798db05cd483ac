//! What a change of the schema makes of each column, entry by entry of the schema asked for.
use vstd::prelude::*;
use crate::edit_laws::{is_of_type, lemma_types_differ};
use crate::edit_schema::ChangeEntryV;
use crate::json::JsonV;
use crate::levels::{lemma_deduped, lemma_prebuilt};
use crate::names::{base_name, law_new_name_is_least, numbered};
use crate::number::{integral, NumeralsV};
use crate::order_laws::{in_level_order, lemma_prebuilt_in_order};
use crate::outcome::EditJob;
use crate::paste::shown;
use crate::paste_laws::{lemma_shown, reading};
use crate::schema_change::{
    asked_changes, cell_values, change_entries, changed_col, changed_field, classified,
    classified_all, entry_columns, lemma_classified, level_values, moves_data, rendered, schema_outcome,
    ChangeV,
};
use crate::schema_laws::law_schema_change_keeps_values;
use crate::serve::edit_outcome;
use crate::table::{cell_fits, Cell, TableV};
use crate::text::{decimal, distinct};
use crate::undo_schema::{
    changed, countable, law_changes_tell_columns_apart, lemma_changed, lemma_entry_columns,
    orderly,
};

verus! {

/// A member of an object is there and not null.
pub open spec fn given(o: JsonV, key: Seq<char>) -> bool {
    o->Object_0.contains_key(key) && !(o->Object_0[key] is Null)
}

/// What a member of an object is.
pub open spec fn at(o: JsonV, key: Seq<char>) -> JsonV {
    o->Object_0[key]
}

/// The entries of the schema that a change asks for.
pub open spec fn asked_entries(job: EditJob) -> Seq<JsonV> {
    job.edit->SchemaChange_target_schema@->Array_0
}

/// A change of the schema is under way that succeeds.
pub open spec fn changes(
    t: TableV,
    num: NumeralsV,
    job: EditJob,
    w: Result<Seq<u8>, Seq<char>>,
) -> bool {
    &&& orderly(t)
    &&& job.edit is SchemaChange
    &&& edit_outcome(t, num, job, w) is Ok
    &&& countable(edit_outcome(t, num, job, w)->Ok_0.table)
}

/// A schema that a table was changed to is a list with one object for each column; the object
/// names the column.
#[verifier::rlimit(60)]
pub proof fn law_each_column_has_an_entry(
    t: TableV,
    num: NumeralsV,
    job: EditJob,
    w: Result<Seq<u8>, Seq<char>>,
    k: int,
)
    requires
        changes(t, num, job, w),
        0 <= k < t.fields.len(),
    ensures
        job.edit->SchemaChange_target_schema@ is Array,
        asked_entries(job).len() == t.fields.len(),
        asked_entries(job)[k] is Object,
        given(asked_entries(job)[k], "name"@),
        at(asked_entries(job)[k], "name"@) is Str,
        exists|j: int|
            0 <= j < t.fields.len() && (#[trigger] t.fields[j]).name == at(
                asked_entries(job)[k],
                "name"@,
            )->Str_0,
        edit_outcome(t, num, job, w)->Ok_0.table.fields.len() == t.fields.len(),
        edit_outcome(t, num, job, w)->Ok_0.table.rows == t.rows,
        edit_outcome(t, num, job, w)->Ok_0.rows == t.rows,
{
    let c = lemma_change_at(t, num, job, w, k);
    assert(t.fields[c.j].name == c.e.name);
}

/// What entry `k` says, and the change that it leads to.
#[verifier::rlimit(60)]
pub proof fn lemma_change_at(
    t: TableV,
    num: NumeralsV,
    job: EditJob,
    w: Result<Seq<u8>, Seq<char>>,
    k: int,
) -> (c: ChangeV)
    requires
        changes(t, num, job, w),
        0 <= k < t.fields.len(),
    ensures
        ({
            let target = job.edit->SchemaChange_target_schema@;
            let limit = job.ingest.sort_limit as nat;
            let a = asked_entries(job);
            let g = edit_outcome(t, num, job, w)->Ok_0.table;
            &&& edit_outcome(t, num, job, w) == schema_outcome(
                t,
                num,
                limit,
                target,
                job.revision,
                w,
            )
            &&& target is Array
            &&& a.len() == t.fields.len()
            &&& asked_changes(t, target) is Ok
            &&& c == asked_changes(t, target)->Ok_0[k]
            &&& crate::edit_schema::change_entry(a[k]) == Ok::<
                ChangeEntryV,
                crate::messages::FailureV,
            >(c.e)
            &&& 0 <= c.j < t.fields.len()
            &&& t.fields[c.j].name == c.e.name
            &&& crate::schema_change::asked_level(c.e, t.fields[c.j]) == Ok::<
                crate::table::Level,
                crate::messages::FailureV,
            >(c.level)
            &&& c.rename is Some <==> c.e.display is Some
            &&& c.level is Scale ==> c.e.levels is None && c.e.labels is None
            &&& changed(t, num, limit, asked_changes(t, target)->Ok_0, g)
            &&& t.names_distinct()
        }),
{
    let target = job.edit->SchemaChange_target_schema@;
    let limit = job.ingest.sort_limit as nat;
    crate::serve::lemma_supported(t.fields);
    assert(edit_outcome(t, num, job, w) == schema_outcome(
        t,
        num,
        limit,
        target,
        job.revision,
        w,
    ));
    lemma_changed(t, num, limit, target, job.revision, w);
    law_changes_tell_columns_apart(t, target);
    let a = target->Array_0;
    let es = change_entries(a)->Ok_0;
    lemma_entry_at(a, k);
    lemma_entry_columns(t.fields, es);
    let js = entry_columns(t.fields, es)->Ok_0;
    lemma_classified(t, es, js);
    asked_changes(t, target)->Ok_0[k]
}

pub proof fn lemma_entry_at(a: Seq<JsonV>, k: int)
    requires
        change_entries(a) is Ok,
        0 <= k < change_entries(a)->Ok_0.len(),
    ensures
        change_entries(a)->Ok_0.len() == a.len(),
        crate::edit_schema::change_entry(a[k]) == Ok::<ChangeEntryV, crate::messages::FailureV>(
            change_entries(a)->Ok_0[k],
        ),
    decreases a.len(),
{
    if a.len() > 0 {
        let p = a.drop_last();
        if k < change_entries(p)->Ok_0.len() {
            lemma_entry_at(p, k);
            assert(p[k] == a[k]);
        } else if p.len() > 0 {
            lemma_entries_len(p);
        }
    }
}

pub proof fn lemma_entries_len(a: Seq<JsonV>)
    requires
        change_entries(a) is Ok,
    ensures
        change_entries(a)->Ok_0.len() == a.len(),
    decreases a.len(),
{
    if a.len() > 0 {
        lemma_entries_len(a.drop_last());
    }
}

/// A changed column is of the type that its entry names, and of the type it was of where the
/// entry names none.
#[verifier::rlimit(60)]
pub proof fn law_changed_columns_have_the_type_asked_for(
    t: TableV,
    num: NumeralsV,
    job: EditJob,
    w: Result<Seq<u8>, Seq<char>>,
    k: int,
    j: int,
)
    requires
        changes(t, num, job, w),
        0 <= k < t.fields.len(),
        0 <= j < t.fields.len(),
        at(asked_entries(job)[k], "name"@) == JsonV::Str(t.fields[j].name),
    ensures
        ({
            let e = asked_entries(job)[k];
            let f = edit_outcome(t, num, job, w)->Ok_0.table.fields[k];
            if given(e, "type"@) {
                at(e, "type"@) is Str && is_of_type(f.kind, at(e, "type"@)->Str_0)
            } else {
                f.kind == t.fields[j].kind
            }
        }),
{
    let c = lemma_change_at(t, num, job, w, k);
    lemma_types_differ();
    lemma_same_column(t, c.j, j);
    assert(t.fields[j].level() is Some);
    let g = edit_outcome(t, num, job, w)->Ok_0.table;
    assert(g.fields[k] == changed_field(t, num, c));
}

pub proof fn lemma_same_column(t: TableV, i: int, j: int)
    requires
        t.names_distinct(),
        0 <= i < t.fields.len(),
        0 <= j < t.fields.len(),
        t.fields[i].name == t.fields[j].name,
    ensures
        i == j,
{
    if i < j {
        assert(t.fields[i].name != t.fields[j].name);
    } else if j < i {
        assert(t.fields[j].name != t.fields[i].name);
    }
}

/// A changed column is shown under the display name that its entry gives, and its name follows
/// from it: the display name itself where no column has that name and no earlier entry took it,
/// a number behind it otherwise. Without one it keeps both names.
#[verifier::rlimit(60)]
pub proof fn law_changed_columns_are_named(
    t: TableV,
    num: NumeralsV,
    job: EditJob,
    w: Result<Seq<u8>, Seq<char>>,
    k: int,
    j: int,
)
    requires
        changes(t, num, job, w),
        0 <= k < t.fields.len(),
        0 <= j < t.fields.len(),
        at(asked_entries(job)[k], "name"@) == JsonV::Str(t.fields[j].name),
    ensures
        ({
            let e = asked_entries(job)[k];
            let g = edit_outcome(t, num, job, w)->Ok_0.table;
            let f = g.fields[k];
            let d = at(e, "display_name"@)->Str_0;
            let digits = forall|i: int| 0 <= i < d.len() ==> '0' <= #[trigger] d[i] <= '9';
            let base = if d.len() == 0 {
                "V"@ + decimal((j + 1) as nat)
            } else if digits {
                "V"@ + d
            } else {
                d
            };
            if given(e, "display_name"@) {
                &&& at(e, "display_name"@) is Str
                &&& f.display == d
                &&& f.name == base || exists|m: nat|
                    m >= 2 && f.name == base + "_"@ + #[trigger] decimal(m)
                &&& (forall|i: int|
                    0 <= i < t.fields.len() ==> (#[trigger] t.fields[i]).name != base) && (forall|
                    i: int,
                |
                    0 <= i < k ==> (#[trigger] g.fields[i]).name != base) ==> f.name == base
            } else {
                f.display == t.fields[j].display && f.name == t.fields[j].name
            }
        }),
{
    let c = lemma_change_at(t, num, job, w, k);
    lemma_same_column(t, c.j, j);
    let g = edit_outcome(t, num, job, w)->Ok_0.table;
    assert(g.fields[k] == changed_field(t, num, c));
    if c.rename is Some {
        let used = lemma_names_at(t, num, job, w, k);
        let d = c.e.display->0;
        let base = base_name(d, (j + 1) as u64);
        law_new_name_is_least(used, d, (j + 1) as u64);
        let name = g.fields[k].name;
        if name != base {
            let m = choose|m: nat|
                2 <= m && name == #[trigger] numbered(base, m) && (forall|i: nat|
                    2 <= i < m ==> used.contains(#[trigger] numbered(base, i)));
            assert(name == base + "_"@ + decimal(m));
            assert(used.contains(base));
            let x = used.index_of(base);
            assert((exists|i: int| 0 <= i < k && (#[trigger] g.fields[i]).name == used[x])
                || t.fields[x].name == used[x]);
        }
    }
}

/// The names in use when entry `k` is settled: those of the columns and of the entries before.
#[verifier::rlimit(60)]
proof fn lemma_names_at(
    t: TableV,
    num: NumeralsV,
    job: EditJob,
    w: Result<Seq<u8>, Seq<char>>,
    k: int,
) -> (used: Seq<Seq<char>>)
    requires
        changes(t, num, job, w),
        0 <= k < t.fields.len(),
    ensures
        ({
            let c = asked_changes(t, job.edit->SchemaChange_target_schema@)->Ok_0[k];
            let g = edit_outcome(t, num, job, w)->Ok_0.table;
            &&& used.len() == t.fields.len()
            &&& c.rename is Some ==> c.rename->0 == crate::names::new_name(
                used,
                c.e.display->0,
                (c.j + 1) as u64,
            )
            &&& forall|x: int|
                0 <= x < used.len() ==> t.fields[x].name == #[trigger] used[x] || (exists|i: int|
                    0 <= i < k && (#[trigger] g.fields[i]).name == used[x])
        }),
{
    let c0 = lemma_change_at(t, num, job, w, k);
    let target = job.edit->SchemaChange_target_schema@;
    let g = edit_outcome(t, num, job, w)->Ok_0.table;
    let es = change_entries(target->Array_0)->Ok_0;
    let js = entry_columns(t.fields, es)->Ok_0;
    let cs = asked_changes(t, target)->Ok_0;
    lemma_entry_columns(t.fields, es);
    lemma_classified(t, es, js);
    lemma_settled(t, es, js, k);
    let p = classified_all(t, es.take(k), js)->Ok_0;
    let used = p.1;
    lemma_used_from(t, es.take(k), js);
    assert forall|x: int| 0 <= x < used.len() implies t.fields[x].name == #[trigger] used[x] || (
    exists|i: int| 0 <= i < k && (#[trigger] g.fields[i]).name == used[x]) by {
        if t.fields[x].name != used[x] {
            let i = choose|i: int|
                0 <= i < p.0.len() && (#[trigger] p.0[i]).rename == Some(used[x]);
            lemma_settled(t, es, js, i);
            assert(p.0[i] == cs[i]) by {
                lemma_settled(t, es.take(k), js, i);
                assert(es.take(k).take(i) =~= es.take(i));
            }
            assert(g.fields[i] == changed_field(t, num, cs[i]));
            assert(g.fields[i].name == used[x]);
        }
    }
    used
}

pub proof fn lemma_settled(t: TableV, es: Seq<ChangeEntryV>, js: Seq<int>, k: int)
    requires
        classified_all(t, es, js) is Ok,
        0 <= k < es.len(),
    ensures
        classified_all(t, es, js)->Ok_0.0.len() == es.len(),
        classified_all(t, es.take(k), js) is Ok,
        classified_all(t, es, js)->Ok_0.0[k] == classified(
            t,
            es[k],
            js[k],
            classified_all(t, es.take(k), js)->Ok_0.1,
        )->Ok_0,
        classified(t, es[k], js[k], classified_all(t, es.take(k), js)->Ok_0.1) is Ok,
    decreases es.len(),
{
    lemma_classified(t, es, js);
    let d = es.drop_last();
    if k < d.len() {
        lemma_settled(t, d, js, k);
        assert(d.take(k) =~= es.take(k));
        assert(d[k] == es[k]);
    } else {
        assert(es.take(k) =~= d);
        if d.len() > 0 {
            lemma_classified(t, d, js);
        }
    }
}

proof fn lemma_used_from(t: TableV, es: Seq<ChangeEntryV>, js: Seq<int>)
    requires
        classified_all(t, es, js) is Ok,
        es.len() <= js.len(),
        forall|i: int| 0 <= i < js.len() ==> 0 <= #[trigger] js[i] < t.fields.len(),
    ensures
        ({
            let p = classified_all(t, es, js)->Ok_0;
            &&& p.0.len() == es.len()
            &&& p.1.len() == t.fields.len()
            &&& forall|x: int|
                0 <= x < p.1.len() ==> t.fields[x].name == #[trigger] p.1[x] || (exists|i: int|
                    0 <= i < p.0.len() && (#[trigger] p.0[i]).rename == Some(p.1[x]))
        }),
    decreases es.len(),
{
    if es.len() > 0 {
        let d = es.drop_last();
        lemma_used_from(t, d, js);
        let q = classified_all(t, d, js)->Ok_0;
        let p = classified_all(t, es, js)->Ok_0;
        let m = es.len() - 1;
        assert(p.0[m].j == js[m]);
        assert forall|x: int| 0 <= x < p.1.len() implies t.fields[x].name == #[trigger] p.1[x] || (
        exists|i: int| 0 <= i < p.0.len() && (#[trigger] p.0[i]).rename == Some(p.1[x])) by {
            if x == js[m] && p.0[m].rename is Some {
                assert(p.0[m].rename == Some(p.1[x]));
            } else {
                assert(q.1[x] == p.1[x]);
                if t.fields[x].name != p.1[x] {
                    let i = choose|i: int|
                        0 <= i < q.0.len() && (#[trigger] q.0[i]).rename == Some(q.1[x]);
                    assert(p.0[i] == q.0[i]);
                }
            }
        }
    }
}

/// A changed column has exactly the labels that its entry gives. Without any it keeps its own,
/// and a scale has none.
#[verifier::rlimit(60)]
pub proof fn law_changed_columns_have_the_labels_asked_for(
    t: TableV,
    num: NumeralsV,
    job: EditJob,
    w: Result<Seq<u8>, Seq<char>>,
    k: int,
    j: int,
)
    requires
        changes(t, num, job, w),
        0 <= k < t.fields.len(),
        0 <= j < t.fields.len(),
        at(asked_entries(job)[k], "name"@) == JsonV::Str(t.fields[j].name),
    ensures
        ({
            let e = asked_entries(job)[k];
            let f = edit_outcome(t, num, job, w)->Ok_0.table.fields[k];
            let m = at(e, "labels"@)->Object_0;
            if given(e, "labels"@) {
                &&& at(e, "labels"@) is Object
                &&& forall|s: Seq<char>| #[trigger] f.labels.contains_key(s) <==> m.contains_key(s)
                &&& forall|s: Seq<char>| #[trigger]
                    f.labels.contains_key(s) ==> m[s] == JsonV::Str(f.labels[s])
            } else if f.kind is Float64 {
                f.labels =~= Map::<Seq<char>, Seq<char>>::empty()
            } else {
                f.labels == t.fields[j].labels
            }
        }),
{
    let c = lemma_change_at(t, num, job, w, k);
    lemma_same_column(t, c.j, j);
    let g = edit_outcome(t, num, job, w)->Ok_0.table;
    assert(g.fields[k] == changed_field(t, num, c));
    let e = asked_entries(job)[k];
    if given(e, "labels"@) {
        let m = at(e, "labels"@)->Object_0;
        assert forall|s: Seq<char>| m.contains_key(s) implies m[s] is Str by {
            if !(m[s] is Str) {
                assert(crate::edit_schema::non_strings(m).contains(s));
            }
        }
    }
}

/// A changed column has exactly the levels that its entry lists, in that order. Without a list a
/// categorical column that stays one keeps its levels, a scale has none, and a scale that
/// becomes categorical has the texts of its numbers as levels.
#[verifier::rlimit(60)]
pub proof fn law_changed_columns_have_the_levels_asked_for(
    t: TableV,
    num: NumeralsV,
    job: EditJob,
    w: Result<Seq<u8>, Seq<char>>,
    k: int,
    j: int,
)
    requires
        changes(t, num, job, w),
        0 <= k < t.fields.len(),
        0 <= j < t.fields.len(),
        at(asked_entries(job)[k], "name"@) == JsonV::Str(t.fields[j].name),
    ensures
        ({
            let e = asked_entries(job)[k];
            let g = edit_outcome(t, num, job, w)->Ok_0.table;
            let a = at(e, "levels"@)->Array_0;
            if given(e, "levels"@) {
                &&& at(e, "levels"@) is Array
                &&& !(g.fields[k].kind is Float64)
                &&& g.dicts[k].len() == a.len()
                &&& forall|i: int|
                    0 <= i < a.len() ==> #[trigger] a[i] == JsonV::Str(g.dicts[k][i])
                &&& distinct(g.dicts[k])
            } else if g.fields[k].kind is Float64 {
                g.dicts[k].len() == 0
            } else if t.fields[j].kind is Float64 {
                &&& distinct(g.dicts[k])
                &&& forall|s: Seq<char>| #[trigger]
                    g.dicts[k].contains(s) <==> exists|r: int|
                        0 <= r < t.rows && (#[trigger] t.cols[j][r]) is Some && num.show(
                            t.cols[j][r]->0,
                        ) == s
            } else {
                g.dicts[k] == t.dicts[j]
            }
        }),
{
    let c = lemma_change_at(t, num, job, w, k);
    lemma_same_column(t, c.j, j);
    let g = edit_outcome(t, num, job, w)->Ok_0.table;
    let limit = job.ingest.sort_limit as nat;
    assert(g.fields[k] == changed_field(t, num, c));
    assert(g.dicts[k] == changed_col(t, num, limit, c).levels);
    assert(t.fields[j].level() is Some);
    if c.rebuild is ToCategorical && c.e.levels is None {
        let all = shown(t.cols[j], num);
        lemma_deduped(all);
        lemma_prebuilt(rendered(t, num, j), num, limit);
        assert(t.cols[j].len() == t.rows);
        assert forall|s: Seq<char>| #[trigger] g.dicts[k].contains(s) implies exists|r: int|
            0 <= r < t.rows && (#[trigger] t.cols[j][r]) is Some && num.show(t.cols[j][r]->0)
                == s by {
            assert(all.contains(s));
            lemma_shown_from(t.cols[j], num, s);
        }
        assert forall|s: Seq<char>|
            (exists|r: int|
                0 <= r < t.rows && (#[trigger] t.cols[j][r]) is Some && num.show(t.cols[j][r]->0)
                    == s) implies #[trigger] g.dicts[k].contains(s) by {
            let r = choose|r: int|
                0 <= r < t.rows && (#[trigger] t.cols[j][r]) is Some && num.show(t.cols[j][r]->0)
                    == s;
            lemma_shown(t.cols[j], num, r);
        }
    }
    if c.rebuild is Keep && t.fields[j].kind is Float64 {
        assert(t.dicts[j] =~= Seq::empty());
    }
}

pub proof fn lemma_shown_from(cells: Seq<Cell>, num: NumeralsV, s: Seq<char>)
    requires
        shown(cells, num).contains(s),
    ensures
        exists|r: int|
            0 <= r < cells.len() && (#[trigger] cells[r]) is Some && num.show(cells[r]->0) == s,
    decreases cells.len(),
{
    if cells.len() > 0 {
        let p = cells.drop_last();
        let m = cells.len() - 1;
        let all = shown(cells, num);
        let i = all.index_of(s);
        if cells[m] is Some && i == all.len() - 1 {
            assert(num.show(cells[m]->0) == s);
        } else {
            assert(shown(p, num)[i] == s);
            lemma_shown_from(p, num, s);
            let r = choose|r: int|
                0 <= r < p.len() && (#[trigger] p[r]) is Some && num.show(p[r]->0) == s;
            assert(cells[r] == p[r]);
        }
    }
}

/// Every cell still reads as it did. Where a categorical column becomes a scale, the cell holds
/// the number that its level spells.
#[verifier::rlimit(60)]
pub proof fn law_changed_columns_keep_their_cells(
    t: TableV,
    num: NumeralsV,
    job: EditJob,
    w: Result<Seq<u8>, Seq<char>>,
    k: int,
    j: int,
    r: int,
)
    requires
        changes(t, num, job, w),
        0 <= k < t.fields.len(),
        0 <= j < t.fields.len(),
        0 <= r < t.rows,
        at(asked_entries(job)[k], "name"@) == JsonV::Str(t.fields[j].name),
    ensures
        ({
            let g = edit_outcome(t, num, job, w)->Ok_0.table;
            let was = reading(t, num, j, r);
            if t.fields[j].kind is Dictionary && g.fields[k].kind is Float64 && was is Some {
                num.parse(was->0) is Some && g.cols[k][r] == num.parse(was->0)
            } else {
                reading(g, num, k, r) == was
            }
        }),
{
    let c = lemma_change_at(t, num, job, w, k);
    lemma_same_column(t, c.j, j);
    let limit = job.ingest.sort_limit as nat;
    let g = edit_outcome(t, num, job, w)->Ok_0.table;
    law_schema_change_keeps_values(
        t,
        num,
        limit,
        job.edit->SchemaChange_target_schema@,
        job.revision,
        w,
        k,
        r,
    );
    assert(g.fields[k] == changed_field(t, num, c));
    assert(t.fields[j].level() is Some);
}

/// Frontends hear of the columns exactly where something about them changed, and everything is
/// stale exactly where a column moved, changed its type or got a list of levels.
#[verifier::rlimit(60)]
pub proof fn law_schema_changes_say_what_is_stale(
    t: TableV,
    num: NumeralsV,
    job: EditJob,
    w: Result<Seq<u8>, Seq<char>>,
)
    requires
        changes(t, num, job, w),
    ensures
        ({
            let o = edit_outcome(t, num, job, w)->Ok_0;
            let still = forall|k: int|
                0 <= k < t.fields.len() ==> at(#[trigger] asked_entries(job)[k], "name"@)
                    == JsonV::Str(t.fields[k].name) && o.table.fields[k].kind == t.fields[k].kind
                    && !given(asked_entries(job)[k], "levels"@);
            &&& o.schema is None <==> o.table.fields =~= t.fields && o.table.dicts =~= t.dicts
            &&& o.invalidation.all == if still {
                None::<bool>
            } else {
                Some(true)
            }
            &&& o.invalidation.rows_from is None
            &&& o.invalidation.rows_to is None
        }),
{
    let o = edit_outcome(t, num, job, w)->Ok_0;
    let cs = asked_changes(t, job.edit->SchemaChange_target_schema@)->Ok_0;
    lemma_stale(t, num, job, w);
    let still = forall|k: int|
        0 <= k < t.fields.len() ==> at(#[trigger] asked_entries(job)[k], "name"@) == JsonV::Str(
            t.fields[k].name,
        ) && o.table.fields[k].kind == t.fields[k].kind && !given(
            asked_entries(job)[k],
            "levels"@,
        );
    if still {
        assert forall|k: int| 0 <= k < cs.len() implies (#[trigger] cs[k]).j == k
            && t.fields[cs[k].j].level() == Some(cs[k].level) && cs[k].rebuild is Keep by {
            let e = asked_entries(job)[k];
            lemma_still(t, num, job, w, k);
        }
    } else {
        let k = choose|k: int|
            0 <= k < t.fields.len() && !(at(#[trigger] asked_entries(job)[k], "name"@)
                == JsonV::Str(t.fields[k].name) && o.table.fields[k].kind == t.fields[k].kind
                && !given(asked_entries(job)[k], "levels"@));
        lemma_still(t, num, job, w, k);
        let c = cs[k];
    }
}

/// What a change of the schema says of itself, by what it does to each column.
#[verifier::rlimit(60)]
proof fn lemma_stale(t: TableV, num: NumeralsV, job: EditJob, w: Result<Seq<u8>, Seq<char>>)
    requires
        changes(t, num, job, w),
    ensures
        ({
            let o = edit_outcome(t, num, job, w)->Ok_0;
            let cs = asked_changes(t, job.edit->SchemaChange_target_schema@)->Ok_0;
            &&& cs.len() == t.fields.len()
            &&& o.schema is None <==> o.table.fields =~= t.fields && o.table.dicts =~= t.dicts
            &&& o.invalidation.all == if moves_data(t, cs) {
                Some(true)
            } else {
                None::<bool>
            }
            &&& o.invalidation.rows_from is None
            &&& o.invalidation.rows_to is None
        }),
{
    let target = job.edit->SchemaChange_target_schema@;
    crate::serve::lemma_supported(t.fields);
    lemma_changed(t, num, job.ingest.sort_limit as nat, target, job.revision, w);
}

/// A column stays as it is exactly where its entry stands in its place and asks neither for
/// another type nor for levels.
#[verifier::rlimit(60)]
proof fn lemma_still(
    t: TableV,
    num: NumeralsV,
    job: EditJob,
    w: Result<Seq<u8>, Seq<char>>,
    k: int,
)
    requires
        changes(t, num, job, w),
        0 <= k < t.fields.len(),
    ensures
        ({
            let c = asked_changes(t, job.edit->SchemaChange_target_schema@)->Ok_0[k];
            let g = edit_outcome(t, num, job, w)->Ok_0.table;
            (c.j == k && t.fields[c.j].level() == Some(c.level) && c.rebuild is Keep) <==> (at(
                asked_entries(job)[k],
                "name"@,
            ) == JsonV::Str(t.fields[k].name) && g.fields[k].kind == t.fields[k].kind && !given(
                asked_entries(job)[k],
                "levels"@,
            ))
        }),
{
    let c = lemma_change_at(t, num, job, w, k);
    let g = edit_outcome(t, num, job, w)->Ok_0.table;
    assert(g.fields[k] == changed_field(t, num, c));
    assert(t.fields[c.j].level() is Some);
    assert(t.fields[k].level() is Some);
    if t.fields[c.j].name == t.fields[k].name {
        lemma_same_column(t, c.j, k);
    }
}

/// The levels of a scale that becomes categorical without a list of levels stand in order, where
/// they are no more than the limit for sorting.
#[verifier::rlimit(60)]
pub proof fn law_derived_levels_stand_in_order(
    t: TableV,
    num: NumeralsV,
    job: EditJob,
    w: Result<Seq<u8>, Seq<char>>,
    k: int,
    j: int,
)
    requires
        changes(t, num, job, w),
        0 <= k < t.fields.len(),
        0 <= j < t.fields.len(),
        at(asked_entries(job)[k], "name"@) == JsonV::Str(t.fields[j].name),
        t.fields[j].kind is Float64,
        !given(asked_entries(job)[k], "levels"@),
    ensures
        ({
            let d = edit_outcome(t, num, job, w)->Ok_0.table.dicts[k];
            d.len() <= job.ingest.sort_limit ==> in_level_order(d, num)
        }),
{
    let c = lemma_change_at(t, num, job, w, k);
    lemma_same_column(t, c.j, j);
    let g = edit_outcome(t, num, job, w)->Ok_0.table;
    let limit = job.ingest.sort_limit as nat;
    assert(g.dicts[k] == changed_col(t, num, limit, c).levels);
    if c.rebuild is ToCategorical {
        let s = rendered(t, num, j);
        lemma_prebuilt(s, num, limit);
        if s.len() <= limit {
            lemma_prebuilt_in_order(s, num, limit);
        }
    } else {
        assert(t.dicts[j] =~= Seq::empty());
    }
}

/// Whether a column holds integers only is settled anew where it becomes a scale: it does where
/// it holds numbers and all of them are integers. Otherwise it stays as it was.
#[verifier::rlimit(60)]
pub proof fn law_new_scales_know_their_integers(
    t: TableV,
    num: NumeralsV,
    job: EditJob,
    w: Result<Seq<u8>, Seq<char>>,
    k: int,
    j: int,
)
    requires
        changes(t, num, job, w),
        0 <= k < t.fields.len(),
        0 <= j < t.fields.len(),
        at(asked_entries(job)[k], "name"@) == JsonV::Str(t.fields[j].name),
    ensures
        ({
            let g = edit_outcome(t, num, job, w)->Ok_0.table;
            if t.fields[j].kind is Dictionary && g.fields[k].kind is Float64 {
                g.fields[k].all_integer == ((exists|r: int|
                    0 <= r < t.rows && (#[trigger] g.cols[k][r]) is Some) && forall|r: int|
                    0 <= r < t.rows && (#[trigger] g.cols[k][r]) is Some ==> integral(
                        g.cols[k][r]->0,
                    ))
            } else {
                g.fields[k].all_integer == t.fields[j].all_integer
            }
        }),
{
    let c = lemma_change_at(t, num, job, w, k);
    lemma_same_column(t, c.j, j);
    let g = edit_outcome(t, num, job, w)->Ok_0.table;
    assert(g.fields[k] == changed_field(t, num, c));
    assert(t.fields[j].level() is Some);
    if c.rebuild is ToScale {
        let cells = cell_values(t.cols[j], level_values(t.dicts[j], num));
        let limit = job.ingest.sort_limit as nat;
        assert(t.cols[j].len() == t.rows);
        assert(g.cols[k].len() == t.rows);
        assert forall|r: int| 0 <= r < t.rows implies #[trigger] g.cols[k][r] == cells[r] by {
            assert(cell_fits(t.fields[j], t.dicts[j], t.cols[j][r]));
        }
        assert(cells =~= g.cols[k]);
    }
}

} // verus!
