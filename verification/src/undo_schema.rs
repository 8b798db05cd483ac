//! What undoing and redoing a change of the schema gives back.
use vstd::prelude::*;
use crate::capture::{blob_columns, decoded, sealed_redo, written, ColumnV};
use crate::edit_block::used_in;
use crate::edit_cols::{field_names, lemma_one, lemma_planned};
use crate::edit_rows::inverse_rows;
use crate::edit_schema::{non_strings, object_labels, ChangeEntryV};
use crate::engine::{planned, rewritten, seg_cell, under_cell, walked};
use crate::json::{array_at, label_object, text_array, text_at, JsonV};
use crate::levels::position;
use crate::messages::FailureV;
use crate::names::law_new_name_is_free;
use crate::number::NumeralsV;
use crate::outcome::{capture_of, inverse_of, OutcomeV};
use crate::paste::key_map;
use crate::restore_schema::{
    all_used, captured_columns, column_names, first_retyped, first_text, first_uncaptured,
    lemma_first_text, old_names, program_order, record_columns, record_of, recorded_col, records_of,
    redo_levels, redo_records, restored_schema_col, restored_schema_cols, schema_redo_capture,
    schema_restore, settled_records, some_captured, RecordV, SchemaRestoreV,
};
use crate::schema_change::{
    asked_changes, change_issue, change_issues, change_record, change_records, changed_col,
    changed_cols, changed_field, classified, classified_all, data_issue, entry_columns, first_twice,
    name_count, rebuild_of, record_json, recorded_levels, reencoded, reencodes, restore_schema_program,
    says_something, schema_capture, schema_outcome, ChangeV,
};
use crate::segments::Seg;
use crate::serve::lemma_programs_differ;
use crate::table::{cell_fits, Cell, FieldV, TableV};
use crate::text::{distinct, lemma_first_repeat, lemma_index_of};
use crate::undo::{
    cell_alike, gives_back, lemma_capture_reads_back, lemma_keys, read_alike, regular, reversed,
};
use crate::window::string_list;

verus! {

/// A key at the last place of its level.
pub open spec fn settled_cell(levels: Seq<Seq<char>>, c: Cell) -> Cell {
    match c {
        Some(x) => if x < levels.len() {
            position(levels, levels[x as int])
        } else {
            c
        },
        None => None,
    }
}

/// The table with the keys of some columns at the last places of their levels.
pub open spec fn settled(t: TableV, moved: Seq<bool>) -> TableV {
    TableV {
        cols: Seq::new(
            t.cols.len(),
            |j: int|
                if moved[j] {
                    Seq::new(t.cols[j].len(), |r: int| settled_cell(t.dicts[j], t.cols[j][r]))
                } else {
                    t.cols[j]
                },
        ),
        ..t
    }
}

proof fn lemma_settled_cell(levels: Seq<Seq<char>>, x: int)
    requires
        0 <= x < levels.len() <= u64::MAX,
    ensures
        ({
            let y = settled_cell(levels, Some(x as u64));
            &&& y is Some
            &&& y == position(levels, levels[x])
            &&& y->0 < levels.len()
            &&& levels[y->0 as int] == levels[x]
            &&& settled_cell(levels, y) == y
        }),
        distinct(levels) ==> settled_cell(levels, Some(x as u64)) == Some(x as u64),
{
    lemma_index_of(levels, levels[x]);
    assert(levels.contains(levels[x]));
}

/// Keys that move within a column read as before, and do not move where no level repeats.
proof fn lemma_settled(t: TableV, moved: Seq<bool>)
    requires
        regular(t),
        forall|j: int|
            0 <= j < t.fields.len() && #[trigger] moved[j] ==> !t.fields[j].is_scale(),
    ensures
        read_alike(settled(t, moved), t),
        settled(t, moved).wf(),
        t.levels_distinct() ==> settled(t, moved) == t,
{
    let u = settled(t, moved);
    assert forall|j: int, r: int| 0 <= j < t.cols.len() && 0 <= r < t.rows implies cell_alike(
        t.fields[j],
        t.dicts[j],
        #[trigger] u.cols[j][r],
        t.cols[j][r],
    ) && cell_fits(t.fields[j], t.dicts[j], u.cols[j][r]) && (t.levels_distinct()
        ==> u.cols[j][r] == t.cols[j][r]) by {
        assert(t.cols[j].len() == t.rows);
        assert(cell_fits(t.fields[j], t.dicts[j], t.cols[j][r]));
        assert(t.fields[j].level() is Some);
        assert(t.dicts[j].len() <= u64::MAX);
        if moved[j] && t.cols[j][r] is Some {
            lemma_settled_cell(t.dicts[j], t.cols[j][r]->0 as int);
        }
    }
    assert forall|j: int| 0 <= j < u.cols.len() implies (#[trigger] u.cols[j]).len() == u.rows by {
        assert(t.cols[j].len() == t.rows);
    }
    if t.levels_distinct() {
        assert forall|j: int| 0 <= j < t.cols.len() implies u.cols[j] == t.cols[j] by {
            assert(t.cols[j].len() == t.rows);
            assert forall|r: int| 0 <= r < t.rows implies u.cols[j][r] == t.cols[j][r] by {}
            assert(u.cols[j] =~= t.cols[j]);
        }
        assert(u.cols =~= t.cols);
    }
}

/// How the columns of two tables of the same extent belong together. Pair `k` links column
/// `cc[k]` of the current table with column `gg[k]` of the goal; `ci` and `gi` give the pair
/// of a column. A program records the pairs in `ks`; of a recorded pair, `cap` says whether
/// the blob carries the goal's column, and `lv` which levels are recorded.
struct Link {
    cc: Seq<int>,
    gg: Seq<int>,
    ci: Seq<int>,
    gi: Seq<int>,
    ks: Seq<int>,
    cap: Seq<bool>,
    lv: Seq<Option<Seq<Seq<char>>>>,
}

spec fn inverses(a: Seq<int>, b: Seq<int>, n: nat) -> bool {
    &&& a.len() == n
    &&& b.len() == n
    &&& forall|k: int| 0 <= k < n ==> 0 <= #[trigger] a[k] < n && b[a[k]] == k
    &&& forall|c: int| 0 <= c < n ==> 0 <= #[trigger] b[c] < n && a[b[c]] == c
}

impl Link {
    spec fn ok(self, n: nat) -> bool {
        &&& inverses(self.cc, self.ci, n)
        &&& inverses(self.gg, self.gi, n)
        &&& self.cap.len() == n
        &&& self.lv.len() == n
        &&& forall|i: int| 0 <= i < self.ks.len() ==> 0 <= #[trigger] self.ks[i] < n
        &&& forall|i: int, m: int| 0 <= i < m < self.ks.len() ==> self.ks[i] != self.ks[m]
    }

    /// What is recorded of pair `k`.
    spec fn record(self, c: TableV, g: TableV, k: int) -> RecordV {
        let f = g.fields[self.gg[k]];
        RecordV {
            current: c.fields[self.cc[k]].name,
            old_name: f.name,
            old_display: f.display,
            old_type: f.level()->0,
            old_levels: self.lv[k],
            old_labels: if f.labels =~= Map::empty() {
                None
            } else {
                Some(f.labels)
            },
            capture: self.cap[k],
        }
    }

    spec fn records(self, c: TableV, g: TableV) -> Seq<RecordV> {
        Seq::new(self.ks.len(), |i: int| self.record(c, g, self.ks[i]))
    }

    spec fn at(self) -> Seq<int> {
        Seq::new(self.ks.len(), |i: int| self.cc[self.ks[i]])
    }

    /// A pair whose columns are the same.
    spec fn same(self, c: TableV, g: TableV, k: int) -> bool {
        let a = self.cc[k];
        let b = self.gg[k];
        &&& c.dicts[a] == g.dicts[b]
        &&& forall|r: int| 0 <= r < g.rows ==> #[trigger] g.cols[b][r] == c.cols[a][r]
    }

    /// A recorded pair whose goal comes out without a capture.
    spec fn rebuilt(self, c: TableV, g: TableV, k: int) -> bool {
        let a = self.cc[k];
        let b = self.gg[k];
        &&& c.fields[a].is_scale() == g.fields[b].is_scale()
        &&& c.fields[a].all_integer == g.fields[b].all_integer
        &&& if !g.fields[b].is_scale() && self.lv[k] is Some {
            &&& self.lv[k]->0 == g.dicts[b]
            &&& forall|r: int|
                0 <= r < g.rows ==> settled_cell(g.dicts[b], #[trigger] g.cols[b][r]) == (
                match c.cols[a][r] {
                    None => None,
                    Some(x) => if x < c.dicts[a].len() {
                        key_map(c.dicts[a], self.lv[k]->0)[x as int]
                    } else {
                        None
                    },
                })
        } else {
            self.same(c, g, k)
        }
    }

    /// The keys of the goal's column come out at the last places of their levels.
    spec fn moves(self, g: TableV, k: int) -> bool {
        self.ks.contains(k) && !self.cap[k] && !g.fields[self.gg[k]].is_scale() && self.lv[k] is Some
    }

    /// What comes out: the goal, but for keys that move.
    spec fn reached(self, g: TableV) -> TableV {
        settled(g, Seq::new(g.fields.len(), |b: int| self.moves(g, self.gi[b])))
    }

    spec fn holds(self, c: TableV, g: TableV, k: int) -> bool {
        if self.ks.contains(k) {
            self.cap[k] || self.rebuilt(c, g, k)
        } else {
            c.fields[self.cc[k]] == g.fields[self.gg[k]] && self.same(c, g, k)
        }
    }
}

proof fn lemma_first_of_distinct(s: Seq<Seq<char>>, i: int)
    requires
        distinct(s),
        0 <= i < s.len(),
    ensures
        first_text(s, s[i]) == Some(i as nat),
{
    lemma_first_text(s, s[i]);
    assert(s.contains(s[i]));
}

proof fn lemma_locates(names: Seq<Seq<char>>, rs: Seq<RecordV>, at: Seq<int>)
    requires
        distinct(names),
        at.len() == rs.len(),
        forall|i: int|
            0 <= i < rs.len() ==> 0 <= at[i] < names.len() && (#[trigger] rs[i]).current
                == names[at[i]],
    ensures
        record_columns(names, rs) == Ok::<Seq<int>, FailureV>(at),
    decreases rs.len(),
{
    if rs.len() > 0 {
        let m = rs.len() - 1;
        assert forall|i: int| 0 <= i < m implies 0 <= at.drop_last()[i] < names.len() && (
        #[trigger] rs.drop_last()[i]).current == names[at.drop_last()[i]] by {
            assert(rs.drop_last()[i] == rs[i]);
        }
        lemma_locates(names, rs.drop_last(), at.drop_last());
        assert(rs[m].current == names[at[m]]);
        lemma_first_of_distinct(names, at[m]);
        assert(at.drop_last().push(at[m]) =~= at);
    } else {
        assert(at =~= Seq::empty());
    }
}

proof fn lemma_not_twice(s: Seq<int>)
    requires
        forall|i: int, m: int| 0 <= i < m < s.len() ==> s[i] != s[m],
    ensures
        first_twice(s) is None,
    decreases s.len(),
{
    if s.len() > 0 {
        lemma_not_twice(s.drop_last());
        if s.drop_last().contains(s.last()) {
            let i = choose|i: int| 0 <= i < s.len() - 1 && s.drop_last()[i] == s.last();
            assert(s[i] == s[s.len() - 1]);
        }
    }
}

proof fn lemma_twice_none(s: Seq<int>)
    requires
        first_twice(s) is None,
    ensures
        forall|i: int, m: int| 0 <= i < m < s.len() ==> s[i] != s[m],
    decreases s.len(),
{
    if s.len() > 0 {
        lemma_twice_none(s.drop_last());
        assert forall|i: int, m: int| 0 <= i < m < s.len() implies s[i] != s[m] by {
            if m < s.len() - 1 {
                assert(s.drop_last()[i] != s.drop_last()[m]);
            } else if s[i] == s[m] {
                assert(s.drop_last()[i] == s.last());
            }
        }
    }
}

proof fn lemma_some_captured(rs: Seq<RecordV>)
    ensures
        some_captured(rs) <==> (exists|i: int| 0 <= i < rs.len() && (#[trigger] rs[i]).capture),
    decreases rs.len(),
{
    if rs.len() > 0 {
        let d = rs.drop_last();
        lemma_some_captured(d);
        if some_captured(d) {
            let i = choose|i: int| 0 <= i < d.len() && (#[trigger] d[i]).capture;
            assert(rs[i].capture);
        }
        if exists|i: int| 0 <= i < rs.len() && (#[trigger] rs[i]).capture {
            let i = choose|i: int| 0 <= i < rs.len() && (#[trigger] rs[i]).capture;
            if i < d.len() {
                assert(d[i].capture);
            }
        }
        if rs.last().capture {
            assert(rs[rs.len() - 1].capture);
        }
    }
}

proof fn lemma_all_captured(rs: Seq<RecordV>, names: Seq<Seq<char>>)
    requires
        forall|i: int|
            0 <= i < rs.len() && (#[trigger] rs[i]).capture ==> names.contains(rs[i].old_name),
    ensures
        first_uncaptured(rs, names) is None,
    decreases rs.len(),
{
    if rs.len() > 0 {
        assert forall|i: int| 0 <= i < rs.drop_last().len() && (
        #[trigger] rs.drop_last()[i]).capture implies names.contains(
            rs.drop_last()[i].old_name,
        ) by {
            assert(rs.drop_last()[i] == rs[i]);
        }
        lemma_all_captured(rs.drop_last(), names);
        assert(rs.last() == rs[rs.len() - 1]);
    }
}

proof fn lemma_none_retyped(t: TableV, rs: Seq<RecordV>, at: Seq<int>)
    requires
        at.len() >= rs.len(),
        forall|i: int|
            0 <= i < rs.len() && !(#[trigger] rs[i]).capture ==> t.fields[at[i]].is_scale() == (
            rs[i].old_type is Scale),
    ensures
        first_retyped(t, rs, at) is None,
    decreases rs.len(),
{
    if rs.len() > 0 {
        assert forall|i: int| 0 <= i < rs.drop_last().len() && !(
        #[trigger] rs.drop_last()[i]).capture implies t.fields[at[i]].is_scale() == (
        rs.drop_last()[i].old_type is Scale) by {
            assert(rs.drop_last()[i] == rs[i]);
        }
        lemma_none_retyped(t, rs.drop_last(), at);
        assert(rs.last() == rs[rs.len() - 1]);
    }
}

/// The columns that the blob must carry.
spec fn carried(l: Link, g: TableV, inv: Seq<ColumnV>) -> bool {
    &&& distinct(column_names(inv))
    &&& forall|i: int|
        0 <= i < l.ks.len() && l.cap[#[trigger] l.ks[i]] ==> {
            let b = l.gg[l.ks[i]];
            exists|m: int|
                0 <= m < inv.len() && #[trigger] inv[m] == (ColumnV {
                    field: g.fields[b],
                    levels: g.dicts[b],
                    cells: g.cols[b],
                })
        }
}

/// Two tables of the same extent whose columns belong together.
spec fn linked(c: TableV, g: TableV, l: Link) -> bool {
    let n = g.fields.len();
    &&& l.ok(n)
    &&& c.fields.len() == n
    &&& c.dicts.len() == n
    &&& c.cols.len() == n
    &&& c.rows == g.rows
    &&& g.wf()
    &&& g.supported()
    &&& g.names_distinct()
    &&& c.names_distinct()
    &&& forall|k: int| 0 <= k < n ==> #[trigger] l.holds(c, g, k)
}

proof fn lemma_names(t: TableV)
    requires
        t.names_distinct(),
    ensures
        distinct(field_names(t)),
{
    assert forall|i: int, k: int| 0 <= i < k < field_names(t).len() implies field_names(t)[i]
        != field_names(t)[k] by {
        assert(t.fields[i].name != t.fields[k].name);
    }
}

/// The old names in the records are those of different columns.
proof fn lemma_old_names(c: TableV, g: TableV, l: Link)
    requires
        linked(c, g, l),
    ensures
        distinct(old_names(l.records(c, g))),
{
    let s = old_names(l.records(c, g));
    assert forall|i: int, m: int| 0 <= i < m < s.len() implies s[i] != s[m] by {
        let a = l.gg[l.ks[i]];
        let b = l.gg[l.ks[m]];
        assert(l.gi[a] == l.ks[i]);
        assert(l.gi[b] == l.ks[m]);
        if a < b {
            assert(g.fields[a].name != g.fields[b].name);
        } else {
            assert(g.fields[b].name != g.fields[a].name);
        }
    }
}

/// The records of linked tables settle.
proof fn lemma_settles(
    c: TableV,
    g: TableV,
    l: Link,
    size: nat,
    blob: Result<Option<Seq<ColumnV>>, Seq<char>>,
    inv: Seq<ColumnV>,
)
    requires
        linked(c, g, l),
        carried(l, g, inv),
        if some_captured(l.records(c, g)) {
            decoded(blob) == Ok::<Seq<ColumnV>, FailureV>(inv) && inverse_rows(inv) == g.rows
        } else {
            size == 0 && inv =~= Seq::empty()
        },
    ensures
        settled_records(c, l.records(c, g), size, blob) == Ok::<
            (Seq<int>, Seq<ColumnV>),
            FailureV,
        >((l.at(), inv)),
{
    let n = g.fields.len();
    let rs = l.records(c, g);
    let at = l.at();
    lemma_names(c);
    assert forall|i: int| 0 <= i < rs.len() implies 0 <= at[i] < field_names(c).len() && (
    #[trigger] rs[i]).current == field_names(c)[at[i]] by {
        assert(0 <= l.ks[i] < n);
    }
    lemma_locates(field_names(c), rs, at);
    assert forall|i: int, m: int| 0 <= i < m < at.len() implies at[i] != at[m] by {
        assert(l.ci[l.cc[l.ks[i]]] == l.ks[i]);
        assert(l.ci[l.cc[l.ks[m]]] == l.ks[m]);
    }
    lemma_not_twice(at);
    lemma_old_names(c, g, l);
    lemma_first_repeat(old_names(rs));
    assert forall|i: int| 0 <= i < rs.len() && (#[trigger] rs[i]).capture implies column_names(
        inv,
    ).contains(rs[i].old_name) by {
        let b = l.gg[l.ks[i]];
        let m = choose|m: int|
            0 <= m < inv.len() && #[trigger] inv[m] == (ColumnV {
                field: g.fields[b],
                levels: g.dicts[b],
                cells: g.cols[b],
            });
        assert(column_names(inv)[m] == g.fields[b].name);
    }
    lemma_all_captured(rs, column_names(inv));
    assert forall|i: int| 0 <= i < rs.len() && !(#[trigger] rs[i]).capture implies
        c.fields[at[i]].is_scale() == (rs[i].old_type is Scale) by {
        let k = l.ks[i];
        assert(l.ks.contains(k));
        assert(l.holds(c, g, k));
        assert(g.fields[l.gg[k]].level() is Some);
    }
    lemma_none_retyped(c, rs, at);
}

/// The column that comes out for pair `k`.
#[verifier::rlimit(50)]
proof fn lemma_restored_pair(
    c: TableV,
    g: TableV,
    num: NumeralsV,
    l: Link,
    inv: Seq<ColumnV>,
    k: int,
)
    requires
        linked(c, g, l),
        carried(l, g, inv),
        0 <= k < g.fields.len(),
    ensures
        ({
            let s = SchemaRestoreV {
                order: field_names(g),
                records: l.records(c, g),
                at: l.at(),
                inv,
            };
            let b = l.gg[k];
            let x = restored_schema_col(c, s, g.fields[b].name);
            let seg = Seg::Block { out: 0, len: g.rows as u64 };
            &&& x is Ok
            &&& x->Ok_0.1 == l.cc[k]
            &&& x->Ok_0.0.field == g.fields[b]
            &&& x->Ok_0.0.levels == g.dicts[b]
            &&& forall|r: int|
                0 <= r < g.rows ==> #[trigger] l.reached(g).cols[b][r] == seg_cell(
                    x->Ok_0.0,
                    num,
                    c.cols,
                    c.rows,
                    seg,
                    r,
                )
        }),
{
    let s = SchemaRestoreV {
        order: field_names(g),
        records: l.records(c, g),
        at: l.at(),
        inv,
    };
    let a = l.cc[k];
    let b = l.gg[k];
    let name = g.fields[b].name;
    let olds = old_names(s.records);
    lemma_old_names(c, g, l);
    assert(l.holds(c, g, k));
    assert(l.gi[b] == k);
    assert(g.cols[b].len() == g.rows);
    assert(g.fields[b].level() is Some);
    lemma_first_text(olds, name);
    if l.ks.contains(k) {
        let i = choose|i: int| 0 <= i < l.ks.len() && l.ks[i] == k;
        assert(olds[i] == name);
        lemma_first_of_distinct(olds, i);
        if l.cap[k] {
            let m = choose|m: int|
                0 <= m < inv.len() && #[trigger] inv[m] == (ColumnV {
                    field: g.fields[b],
                    levels: g.dicts[b],
                    cells: g.cols[b],
                });
            assert(l.cap[l.ks[i]]);
            assert(column_names(inv)[m] == name);
            lemma_first_of_distinct(column_names(inv), m);
        } else {
            let r = l.record(c, g, k);
            assert(s.records[i] == r);
            let x = recorded_col(c, r, a);
            assert(x.field =~= g.fields[b]);
            assert forall|i: int| 0 <= i < g.rows implies #[trigger] l.reached(g).cols[b][i] == seg_cell(
                x,
                num,
                c.cols,
                c.rows,
                Seg::Block { out: 0, len: g.rows as u64 },
                i,
            ) by {
                assert(key_map(c.dicts[a], l.lv[k]->0).len() == c.dicts[a].len());
                assert(g.cols[b][i] == g.cols[b][i]);
            }
        }
    } else {
        if olds.contains(name) {
            let i = choose|i: int| 0 <= i < olds.len() && olds[i] == name;
            let b2 = l.gg[l.ks[i]];
            assert(l.gi[b2] == l.ks[i]);
            assert(l.gi[b] == k);
            if b2 < b {
                assert(g.fields[b2].name != g.fields[b].name);
            } else if b < b2 {
                assert(g.fields[b].name != g.fields[b2].name);
            }
            assert(l.ks.contains(k));
        }
        lemma_names(c);
        assert(field_names(c)[a] == name);
        lemma_first_of_distinct(field_names(c), a);
    }
}

/// Where each name has its column, the columns come out in order.
proof fn lemma_restored_all(
    t: TableV,
    s: SchemaRestoreV,
    names: Seq<Seq<char>>,
)
    requires
        forall|i: int|
            0 <= i < names.len() ==> restored_schema_col(t, s, #[trigger] names[i]) is Ok,
    ensures
        restored_schema_cols(t, s, names) is Ok,
        ({
            let p = restored_schema_cols(t, s, names)->Ok_0;
            &&& p.0.len() == names.len()
            &&& p.1.len() == names.len()
            &&& forall|i: int| #![trigger names[i]]
                0 <= i < names.len() ==> p.0[i] == restored_schema_col(t, s, names[i])->Ok_0.0
                    && p.1[i] == restored_schema_col(t, s, names[i])->Ok_0.1
        }),
    decreases names.len(),
{
    if names.len() > 0 {
        let d = names.drop_last();
        assert forall|i: int| 0 <= i < d.len() implies restored_schema_col(
            t,
            s,
            #[trigger] d[i],
        ) is Ok by {
            assert(d[i] == names[i]);
        }
        lemma_restored_all(t, s, d);
        assert(restored_schema_col(t, s, names[names.len() - 1]) is Ok);
        let p = restored_schema_cols(t, s, names)->Ok_0;
        let q = restored_schema_cols(t, s, d)->Ok_0;
        assert forall|i: int| #![trigger names[i]] 0 <= i < names.len() implies p.0[i]
            == restored_schema_col(t, s, names[i])->Ok_0.0 && p.1[i] == restored_schema_col(
            t,
            s,
            names[i],
        )->Ok_0.1 by {
            if i < d.len() {
                assert(d[i] == names[i]);
                assert(p.0[i] == q.0[i]);
                assert(p.1[i] == q.1[i]);
            }
        }
    }
}

/// Restoring linked tables gives the goal, but for keys that move.
proof fn lemma_link_restores(
    c: TableV,
    g: TableV,
    num: NumeralsV,
    l: Link,
    inv: Seq<ColumnV>,
)
    requires
        linked(c, g, l),
        carried(l, g, inv),
        regular(g),
    ensures
        ({
            let s = SchemaRestoreV {
                order: field_names(g),
                records: l.records(c, g),
                at: l.at(),
                inv,
            };
            let p = restored_schema_cols(c, s, s.order);
            &&& p is Ok
            &&& all_used(p->Ok_0.1, c.fields.len())
            &&& rewritten(
                c,
                p->Ok_0.0,
                num,
                seq![Seg::Block { out: 0, len: g.rows as u64 }],
                g.rows,
            ) == Ok::<TableV, FailureV>(l.reached(g))
        }),
{
    let n = g.fields.len();
    let goal = l.reached(g);
    assert forall|b: int| 0 <= b < n && l.moves(g, #[trigger] l.gi[b]) implies !g.fields[b].is_scale() by {
        assert(l.gg[l.gi[b]] == b);
    }
    lemma_settled(g, Seq::new(n, |b: int| l.moves(g, l.gi[b])));
    let s = SchemaRestoreV {
        order: field_names(g),
        records: l.records(c, g),
        at: l.at(),
        inv,
    };
    let names = s.order;
    let seg = Seg::Block { out: 0, len: g.rows as u64 };
    let segs = seq![seg];
    assert forall|i: int| 0 <= i < names.len() implies restored_schema_col(
        c,
        s,
        #[trigger] names[i],
    ) is Ok by {
        assert(l.gg[l.gi[i]] == i);
        lemma_restored_pair(c, g, num, l, inv, l.gi[i]);
    }
    lemma_restored_all(c, s, names);
    let p = restored_schema_cols(c, s, names)->Ok_0;
    assert forall|j: int| 0 <= j < n implies p.1.contains(j) by {
        let k = l.ci[j];
        let b = l.gg[k];
        assert(l.cc[k] == j);
        assert(l.gi[b] == k);
        lemma_restored_pair(c, g, num, l, inv, k);
        assert(names[b] == g.fields[b].name);
        assert(p.1[b] == j);
    }
    lemma_one(arbitrary(), num, c.cols, c.rows, seg);
    assert forall|b: int| 0 <= b < n implies g.fields[b] == (#[trigger] p.0[b]).field
        && g.dicts[b] == p.0[b].levels && goal.cols[b] == walked(p.0[b], num, c.cols, c.rows, segs) by {
        let k = l.gi[b];
        assert(l.gg[k] == b);
        lemma_restored_pair(c, g, num, l, inv, k);
        assert(names[b] == g.fields[b].name);
        lemma_one(p.0[b], num, c.cols, c.rows, seg);
        assert(g.cols[b].len() == g.rows);
        assert(goal.cols[b] =~= walked(p.0[b], num, c.cols, c.rows, segs));
    }
    lemma_planned(c, p.0, num, segs, goal);
}

/// The changes that the inverse records.
spec fn spoken(t: TableV, cs: Seq<ChangeV>) -> Seq<int>
    decreases cs.len(),
{
    if cs.len() == 0 {
        Seq::empty()
    } else if says_something(t, cs.last()) {
        spoken(t, cs.drop_last()).push(cs.len() - 1)
    } else {
        spoken(t, cs.drop_last())
    }
}

proof fn lemma_spoken(t: TableV, cs: Seq<ChangeV>)
    ensures
        ({
            let ks = spoken(t, cs);
            &&& forall|i: int| 0 <= i < ks.len() ==> 0 <= #[trigger] ks[i] < cs.len()
            &&& forall|i: int, m: int| 0 <= i < m < ks.len() ==> ks[i] < ks[m]
            &&& forall|k: int|
                0 <= k < cs.len() ==> (ks.contains(k) <==> says_something(t, #[trigger] cs[k]))
            &&& change_records(t, cs) == Seq::new(
                ks.len(),
                |i: int| change_record(t, cs[ks[i]]),
            )
        }),
    decreases cs.len(),
{
    let ks = spoken(t, cs);
    if cs.len() > 0 {
        let d = cs.drop_last();
        let kd = spoken(t, d);
        lemma_spoken(t, d);
        assert forall|k: int| 0 <= k < cs.len() implies (ks.contains(k) <==> says_something(
            t,
            #[trigger] cs[k],
        )) by {
            if k < d.len() {
                assert(d[k] == cs[k]);
                if ks.contains(k) {
                    let i = choose|i: int| 0 <= i < ks.len() && ks[i] == k;
                    assert(i < kd.len());
                    assert(kd[i] == k);
                }
                if kd.contains(k) {
                    let i = choose|i: int| 0 <= i < kd.len() && kd[i] == k;
                    assert(ks[i] == k);
                }
            } else {
                if says_something(t, cs.last()) {
                    assert(ks[kd.len() as int] == k);
                } else if ks.contains(k) {
                    let i = choose|i: int| 0 <= i < ks.len() && ks[i] == k;
                    assert(kd[i] == k);
                }
            }
        }
        let want = Seq::new(ks.len(), |i: int| change_record(t, cs[ks[i]]));
        let wd = Seq::new(kd.len(), |i: int| change_record(t, d[kd[i]]));
        assert(change_records(t, cs) =~= want) by {
            assert forall|i: int| 0 <= i < kd.len() implies wd[i] == want[i] by {
                assert(d[kd[i]] == cs[kd[i]]);
            }
            if says_something(t, cs.last()) {
                assert(want.drop_last() =~= wd);
                assert(want =~= wd.push(change_record(t, cs.last())));
            } else {
                assert(want =~= wd);
            }
        }
    } else {
        assert(change_records(t, cs) =~= Seq::new(
            ks.len(),
            |i: int| change_record(t, cs[ks[i]]),
        ));
    }
}

/// Some change re-encodes a column.
spec fn coded(cs: Seq<ChangeV>, j: u64) -> bool {
    exists|k: int| 0 <= k < cs.len() && reencodes(#[trigger] cs[k]) && cs[k].j as u64 == j
}

/// The re-encoded columns are those of the re-encoding changes.
proof fn lemma_reencoded(cs: Seq<ChangeV>)
    ensures
        forall|k: int|
            0 <= k < cs.len() && reencodes(#[trigger] cs[k]) ==> reencoded(cs).contains(
                cs[k].j as u64,
            ),
        forall|i: int| 0 <= i < reencoded(cs).len() ==> coded(cs, #[trigger] reencoded(cs)[i]),
        (forall|i: int, m: int| 0 <= i < m < cs.len() ==> cs[i].j as u64 != cs[m].j as u64) ==> (
        forall|i: int, m: int|
            0 <= i < m < reencoded(cs).len() ==> reencoded(cs)[i] != reencoded(cs)[m]),
    decreases cs.len(),
{
    if cs.len() > 0 {
        let d = cs.drop_last();
        lemma_reencoded(d);
        let s = reencoded(cs);
        let sd = reencoded(d);
        assert forall|k: int| 0 <= k < cs.len() && reencodes(#[trigger] cs[k]) implies s.contains(
            cs[k].j as u64,
        ) by {
            if k < d.len() {
                assert(d[k] == cs[k]);
                assert(sd.contains(d[k].j as u64));
                let i = choose|i: int| 0 <= i < sd.len() && sd[i] == d[k].j as u64;
                assert(s[i] == cs[k].j as u64);
            } else {
                assert(s[sd.len() as int] == cs[k].j as u64);
            }
        }
        assert forall|i: int| 0 <= i < s.len() implies coded(cs, #[trigger] s[i]) by {
            if i < sd.len() {
                assert(sd[i] == s[i]);
                assert(coded(d, sd[i]));
                let k = choose|k: int|
                    0 <= k < d.len() && reencodes(#[trigger] d[k]) && d[k].j as u64 == sd[i];
                assert(cs[k] == d[k]);
                assert(reencodes(cs[k]));
            } else {
                assert(reencodes(cs[cs.len() - 1]));
            }
        }
        if forall|i: int, m: int| 0 <= i < m < cs.len() ==> cs[i].j as u64 != cs[m].j as u64 {
            assert forall|i: int, m: int| 0 <= i < m < d.len() implies d[i].j as u64
                != d[m].j as u64 by {
                assert(d[i] == cs[i]);
                assert(d[m] == cs[m]);
            }
            assert forall|i: int, m: int| 0 <= i < m < s.len() implies s[i] != s[m] by {
                if m < sd.len() {
                    assert(sd[i] != sd[m]);
                } else {
                    assert(sd[i] == s[i]);
                    assert(coded(d, sd[i]));
                    let k = choose|k: int|
                        0 <= k < d.len() && reencodes(#[trigger] d[k]) && d[k].j as u64 == sd[i];
                    assert(d[k] == cs[k]);
                    assert(cs[k].j as u64 != cs[cs.len() - 1].j as u64);
                }
            }
        }
    }
}

/// The names after the changes are those of the changed columns, and no two are the same.
proof fn lemma_used_names(t: TableV, es: Seq<ChangeEntryV>, js: Seq<int>)
    requires
        t.names_distinct(),
        t.fields.len() + 2 <= u64::MAX,
        es.len() <= js.len(),
        forall|i: int| 0 <= i < js.len() ==> 0 <= #[trigger] js[i] < t.fields.len(),
        forall|i: int, m: int| 0 <= i < m < js.len() ==> js[i] != js[m],
        classified_all(t, es, js) is Ok,
    ensures
        ({
            let p = classified_all(t, es, js)->Ok_0;
            &&& p.0.len() == es.len()
            &&& p.1.len() == t.fields.len()
            &&& distinct(p.1)
            &&& forall|k: int| #![trigger p.0[k]]
                0 <= k < es.len() ==> p.1[js[k]] == match p.0[k].rename {
                    Some(n) => n,
                    None => t.fields[js[k]].name,
                }
            &&& forall|k: int| #![trigger js[k]]
                es.len() <= k < js.len() ==> p.1[js[k]] == t.fields[js[k]].name
        }),
    decreases es.len(),
{
    let p = classified_all(t, es, js)->Ok_0;
    if es.len() == 0 {
        lemma_names(t);
    } else {
        let d = es.drop_last();
        lemma_used_names(t, d, js);
        let q = classified_all(t, d, js)->Ok_0;
        let m = es.len() - 1;
        let c = classified(t, es.last(), js[m], q.1)->Ok_0;
        assert(c.j == js[m]);
        assert(q.1[js[m]] == t.fields[js[m]].name);
        if c.rename is Some {
            law_new_name_is_free(q.1, es.last().display->0, (js[m] + 1) as u64);
            let n = c.rename->0;
            assert forall|i: int, k: int| 0 <= i < k < p.1.len() implies p.1[i] != p.1[k] by {
                if i == c.j {
                    assert(p.1[k] == q.1[k]);
                } else if k == c.j {
                    assert(p.1[i] == q.1[i]);
                } else {
                    assert(q.1[i] != q.1[k]);
                }
            }
        }
        assert forall|k: int| #![trigger p.0[k]] 0 <= k < es.len() implies p.1[js[k]]
            == match p.0[k].rename {
            Some(n) => n,
            None => t.fields[js[k]].name,
        } by {
            if k < m {
                assert(p.0[k] == q.0[k]);
                assert(js[k] != js[m]);
            }
        }
        assert forall|k: int| #![trigger js[k]] es.len() <= k < js.len() implies p.1[js[k]]
            == t.fields[js[k]].name by {
            assert(js[m] != js[k]);
        }
    }
}

pub proof fn lemma_entry_columns(fields: Seq<FieldV>, es: Seq<ChangeEntryV>)
    requires
        entry_columns(fields, es) is Ok,
    ensures
        ({
            let js = entry_columns(fields, es)->Ok_0;
            &&& js.len() == es.len()
            &&& forall|i: int| 0 <= i < js.len() ==> 0 <= #[trigger] js[i] < fields.len()
            &&& forall|i: int|
                0 <= i < js.len() ==> name_count(fields, fields[#[trigger] js[i]].name) == 1
                    && fields[js[i]].name == es[i].name
        }),
    decreases es.len(),
{
    if es.len() > 0 {
        lemma_entry_columns(fields, es.drop_last());
        crate::schema_change::lemma_name_index(fields, es.last().name);
    }
}

/// The pair of a column, where every column has one.
spec fn pair_of(js: Seq<int>, j: int) -> int {
    choose|k: int| 0 <= k < js.len() && js[k] == j
}

/// As many different columns as there are: every column is one of them.
proof fn lemma_onto(js: Seq<int>, n: nat)
    requires
        js.len() == n,
        forall|i: int| 0 <= i < n ==> 0 <= #[trigger] js[i] < n,
        forall|i: int, m: int| 0 <= i < m < n ==> js[i] != js[m],
    ensures
        inverses(js, Seq::new(n, |j: int| pair_of(js, j)), n),
{
    let all = vstd::set_lib::set_int_range(0, n as int);
    vstd::set_lib::lemma_int_range(0, n as int);
    assert(js.no_duplicates()) by {
        assert forall|i: int, m: int| 0 <= i < js.len() && 0 <= m < js.len() && i != m implies js[i]
            != js[m] by {
            if i < m {
                assert(js[i] != js[m]);
            } else {
                assert(js[m] != js[i]);
            }
        }
    }
    js.unique_seq_to_set();
    assert(js.to_set().subset_of(all));
    vstd::set_lib::lemma_subset_equality(js.to_set(), all);
    let b = Seq::new(n, |j: int| pair_of(js, j));
    assert forall|j: int| 0 <= j < n implies 0 <= #[trigger] b[j] < n && js[b[j]] == j by {
        assert(js.to_set().contains(j));
        assert(js.contains(j));
    }
    assert forall|k: int| 0 <= k < n implies 0 <= #[trigger] js[k] < n && b[js[k]] == k by {
        let m = b[js[k]];
        assert(js[m] == js[k]);
        if m < k {
            assert(js[m] != js[k]);
        } else if k < m {
            assert(js[k] != js[m]);
        }
    }
}

/// A table in order: the number of columns leaves room to count on.
pub open spec fn orderly(t: TableV) -> bool {
    regular(t) && t.fields.len() + 2 <= u64::MAX
}

/// No labels go unspoken: a scale that has labels loses them, which is recorded only where the
/// change says something of the column.
pub open spec fn labels_recorded(t: TableV, cs: Seq<ChangeV>) -> bool {
    forall|k: int|
        0 <= k < cs.len() && t.fields[(#[trigger] cs[k]).j].is_scale() && !says_something(t, cs[k])
            ==> t.fields[cs[k].j].labels =~= Map::empty()
}

/// A table in order whose names are unique.
pub open spec fn named(t: TableV) -> bool {
    orderly(t) && t.names_distinct()
}

proof fn lemma_named_once(fields: Seq<FieldV>, i: int, k: int)
    requires
        0 <= i < k < fields.len(),
        fields[i].name == fields[k].name,
    ensures
        name_count(fields, fields[i].name) > 1,
    decreases fields.len(),
{
    let rest = fields.drop_last();
    if k < fields.len() - 1 {
        lemma_named_once(rest, i, k);
    } else {
        lemma_counted(rest, i);
    }
}

proof fn lemma_counted(fields: Seq<FieldV>, i: int)
    requires
        0 <= i < fields.len(),
    ensures
        name_count(fields, fields[i].name) > 0,
    decreases fields.len(),
{
    if i < fields.len() - 1 {
        lemma_counted(fields.drop_last(), i);
    }
}

/// A change of the schema that is in order names every column by a name of its own.
pub proof fn law_changes_tell_columns_apart(t: TableV, target: JsonV)
    requires
        asked_changes(t, target) is Ok,
    ensures
        t.names_distinct(),
{
    let n = t.fields.len();
    let es = crate::schema_change::change_entries(target->Array_0)->Ok_0;
    let js = entry_columns(t.fields, es)->Ok_0;
    lemma_entry_columns(t.fields, es);
    lemma_twice_none(js);
    lemma_onto(js, n);
    let back = Seq::new(n, |j: int| pair_of(js, j));
    assert forall|i: int, k: int| 0 <= i < k < n implies (#[trigger] t.fields[i]).name != (
    #[trigger] t.fields[k]).name by {
        let m = back[i];
        assert(js[m] == i);
        if t.fields[i].name == t.fields[k].name {
            lemma_named_once(t.fields, i, k);
        }
    }
}

/// The lengths of the dictionaries are machine numbers.
pub open spec fn countable(t: TableV) -> bool {
    forall|j: int| 0 <= j < t.dicts.len() ==> (#[trigger] t.dicts[j]).len() <= u64::MAX
}

/// What the changes make of a table.
pub open spec fn changed(t: TableV, num: NumeralsV, limit: nat, cs: Seq<ChangeV>, g: TableV) -> bool {
    let n = t.fields.len();
    &&& named(t)
    &&& cs.len() == n
    &&& forall|k: int| 0 <= k < n ==> 0 <= (#[trigger] cs[k]).j < n
    &&& forall|i: int, m: int| 0 <= i < m < n ==> (#[trigger] cs[i]).j != (#[trigger] cs[m]).j
    &&& forall|k: int| #![trigger cs[k]]
        0 <= k < n ==> cs[k].rebuild == rebuild_of(
            t.fields[cs[k].j].is_scale(),
            cs[k].level,
            cs[k].e.levels,
        ) && data_issue(t, num, cs[k]) is None && (cs[k].e.levels is Some ==> distinct(
            cs[k].e.levels->0,
        ))
    &&& g.wf()
    &&& g.supported()
    &&& g.names_distinct()
    &&& countable(g)
    &&& g.rows == t.rows
    &&& g.fields.len() == n
    &&& forall|k: int| #![trigger g.fields[k]]
        0 <= k < n ==> g.fields[k] == changed_field(t, num, cs[k])
    &&& forall|k: int| #![trigger g.dicts[k]]
        0 <= k < n ==> g.dicts[k] == changed_col(t, num, limit, cs[k]).levels
    &&& forall|k: int, r: int|
        0 <= k < n && 0 <= r < t.rows ==> #[trigger] g.cols[k][r] == under_cell(
            changed_col(t, num, limit, cs[k]),
            num,
            t.cols[cs[k].j][r],
        )
}

proof fn lemma_no_issue(t: TableV, num: NumeralsV, cs: Seq<ChangeV>, k: int)
    requires
        change_issues(t, num, cs) is None,
        0 <= k < cs.len(),
    ensures
        change_issue(t, num, cs[k]) is None,
    decreases cs.len(),
{
    if k < cs.len() - 1 {
        assert(cs.drop_last()[k] == cs[k]);
        lemma_no_issue(t, num, cs.drop_last(), k);
    }
}

pub proof fn lemma_changed(
    t: TableV,
    num: NumeralsV,
    limit: nat,
    target: JsonV,
    revision: u64,
    w: Result<Seq<u8>, Seq<char>>,
)
    requires
        orderly(t),
        schema_outcome(t, num, limit, target, revision, w) is Ok,
        countable(schema_outcome(t, num, limit, target, revision, w)->Ok_0.table),
    ensures
        asked_changes(t, target) is Ok,
        changed(
            t,
            num,
            limit,
            asked_changes(t, target)->Ok_0,
            schema_outcome(t, num, limit, target, revision, w)->Ok_0.table,
        ),
{
    law_changes_tell_columns_apart(t, target);
    let n = t.fields.len();
    let a = target->Array_0;
    let es = crate::schema_change::change_entries(a)->Ok_0;
    let js = entry_columns(t.fields, es)->Ok_0;
    let cs = asked_changes(t, target)->Ok_0;
    let g = schema_outcome(t, num, limit, target, revision, w)->Ok_0.table;
    lemma_entry_columns(t.fields, es);
    lemma_twice_none(js);
    crate::schema_change::lemma_classified(t, es, js);
    lemma_used_names(t, es, js);
    let used = classified_all(t, es, js)->Ok_0.1;
    let plan = changed_cols(t, num, limit, cs);
    let seg = Seg::Copy { out: 0, old: 0, len: t.rows as u64 };
    let segs = seq![seg];
    assert(g == planned(t, plan, num, segs, t.rows));
    lemma_one(arbitrary(), num, t.cols, t.rows, seg);
    assert forall|k: int| #![trigger cs[k]] 0 <= k < n implies cs[k].rebuild == rebuild_of(
        t.fields[cs[k].j].is_scale(),
        cs[k].level,
        cs[k].e.levels,
    ) && data_issue(t, num, cs[k]) is None && 0 <= cs[k].j < n && (cs[k].e.levels is Some
        ==> distinct(cs[k].e.levels->0)) by {
        lemma_no_issue(t, num, cs, k);
        assert(cs[k].j == js[k]);
    }
    assert forall|k: int, r: int| 0 <= k < n && 0 <= r < t.rows implies #[trigger] g.cols[k][r]
        == under_cell(changed_col(t, num, limit, cs[k]), num, t.cols[cs[k].j][r]) by {
        lemma_one(plan[k], num, t.cols, t.rows, seg);
        assert(plan[k] == changed_col(t, num, limit, cs[k]));
    }
    assert forall|k: int| 0 <= k < g.cols.len() implies (#[trigger] g.cols[k]).len() == g.rows by {
        lemma_one(plan[k], num, t.cols, t.rows, seg);
    }
    assert forall|k: int, r: int| 0 <= k < g.cols.len() && 0 <= r < g.rows implies cell_fits(
        g.fields[k],
        g.dicts[k],
        #[trigger] g.cols[k][r],
    ) by {
        assert(g.cols[k] == walked(plan[k], num, t.cols, t.rows, segs));
    }
    assert forall|k: int| 0 <= k < g.dicts.len() && !(g.fields[k].kind is Dictionary) implies (
    #[trigger] g.dicts[k]) =~= Seq::empty() by {
        let j = cs[k].j;
        assert(t.fields[j].level() is Some);
        assert(!(t.fields[j].kind is Dictionary) ==> t.dicts[j] =~= Seq::empty());
        assert(plan[k] == changed_col(t, num, limit, cs[k]));
    }
    assert forall|i: int, k: int| 0 <= i < k < g.fields.len() implies (
    #[trigger] g.fields[i]).name != (#[trigger] g.fields[k]).name by {
        assert(cs[i].j == js[i] && cs[k].j == js[k]);
        assert(used[js[i]] == g.fields[i].name);
        assert(used[js[k]] == g.fields[k].name);
        assert(js[i] != js[k]);
        if js[i] < js[k] {
            assert(used[js[i]] != used[js[k]]);
        } else {
            assert(used[js[k]] != used[js[i]]);
        }
    }
}

/// The levels that a program has recorded of a column, if any.
spec fn opt_levels(v: JsonV) -> Option<Seq<Seq<char>>> {
    match v {
        JsonV::Array(a) => string_list(a),
        _ => None,
    }
}

/// The columns of the changes.
spec fn change_columns(cs: Seq<ChangeV>) -> Seq<int> {
    Seq::new(cs.len(), |k: int| cs[k].j)
}

spec fn identity(n: nat) -> Seq<int> {
    Seq::new(n, |k: int| k)
}

/// The undo: the goal is the table before the changes.
spec fn undo_link(t: TableV, cs: Seq<ChangeV>) -> Link {
    let n = cs.len();
    Link {
        cc: identity(n),
        ci: identity(n),
        gg: change_columns(cs),
        gi: Seq::new(n, |j: int| pair_of(change_columns(cs), j)),
        ks: spoken(t, cs),
        cap: Seq::new(n, |k: int| reencodes(cs[k])),
        lv: Seq::new(n, |k: int| opt_levels(recorded_levels(t, cs[k]))),
    }
}

/// The redo: the goal is the table after the changes.
spec fn redo_link(t: TableV, g: TableV, cs: Seq<ChangeV>) -> Link {
    let n = cs.len();
    Link {
        cc: change_columns(cs),
        ci: Seq::new(n, |j: int| pair_of(change_columns(cs), j)),
        gg: identity(n),
        gi: identity(n),
        ks: spoken(t, cs),
        cap: Seq::new(n, |k: int| reencodes(cs[k])),
        lv: Seq::new(n, |k: int| opt_levels(redo_levels(g, k))),
    }
}

proof fn lemma_text_array(l: Seq<Seq<char>>)
    ensures
        opt_levels(text_array(l)) == Some(l),
        string_list(text_array(l)->Array_0) == Some(l),
{
    let a = text_array(l)->Array_0;
    assert(string_list(a)->0 =~= l);
}

/// A level in use has a place in a dictionary that replaces its own.
pub proof fn lemma_survives(t: TableV, num: NumeralsV, c: ChangeV, r: int)
    requires
        regular(t),
        0 <= c.j < t.fields.len(),
        c.rebuild is Remap,
        data_issue(t, num, c) is None,
        0 <= r < t.rows,
        t.cols[c.j][r] is Some,
        !t.fields[c.j].is_scale(),
    ensures
        ({
            let x = t.cols[c.j][r]->0 as int;
            x < t.dicts[c.j].len() && c.e.levels->0.contains(t.dicts[c.j][x])
        }),
{
    let cells = t.cols[c.j];
    let levels = t.dicts[c.j];
    assert(cells.len() == t.rows);
    assert(t.fields[c.j].level() is Some);
    assert(cell_fits(t.fields[c.j], levels, cells[r]));
    let x = cells[r]->0 as int;
    assert(used_in(cells, x as u64));
    crate::undo_block::lemma_none_missing(levels, cells, Seq::empty(), c.e.levels->0, x);
}

proof fn lemma_undo_pair(
    t: TableV,
    num: NumeralsV,
    limit: nat,
    cs: Seq<ChangeV>,
    g: TableV,
    k: int,
)
    requires
        changed(t, num, limit, cs, g),
        labels_recorded(t, cs),
        0 <= k < cs.len(),
    ensures
        undo_link(t, cs).holds(g, t, k),
{
    let l = undo_link(t, cs);
    let c = cs[k];
    let j = c.j;
    let f = t.fields[j];
    lemma_spoken(t, cs);
    assert(f.level() is Some);
    assert(t.cols[j].len() == t.rows);
    assert(g.fields[k] == changed_field(t, num, c));
    assert(g.dicts[k] == changed_col(t, num, limit, c).levels);
    lemma_text_array(t.dicts[j]);
    assert(f.is_scale() ==> t.dicts[j] =~= Seq::empty());
    if !l.ks.contains(k) {
        assert(!says_something(t, c));
        assert(g.fields[k] =~= f);
        assert forall|r: int| 0 <= r < t.rows implies #[trigger] t.cols[j][r] == g.cols[k][r] by {
            assert(g.cols[k][r] == under_cell(
                changed_col(t, num, limit, c),
                num,
                t.cols[j][r],
            ));
        }
    } else if !l.cap[k] {
        if !f.is_scale() && l.lv[k] is Some {
            assert(l.lv[k]->0 == t.dicts[j]);
            assert forall|r: int| 0 <= r < t.rows implies settled_cell(
                t.dicts[j],
                #[trigger] t.cols[j][r],
            ) == (match g.cols[k][r] {
                None => None,
                Some(x) => if x < g.dicts[k].len() {
                    key_map(g.dicts[k], l.lv[k]->0)[x as int]
                } else {
                    None
                },
            }) by {
                assert(g.cols[k][r] == under_cell(
                    changed_col(t, num, limit, c),
                    num,
                    t.cols[j][r],
                ));
                assert(cell_fits(f, t.dicts[j], t.cols[j][r]));
                if t.cols[j][r] is Some {
                    let x = t.cols[j][r]->0 as int;
                    lemma_settled_cell(t.dicts[j], x);
                    if c.rebuild is Remap {
                        lemma_survives(t, num, c, r);
                        let new = c.e.levels->0;
                        lemma_index_of(new, t.dicts[j][x]);
                        let i = crate::text::index_of(new, t.dicts[j][x])->0;
                        assert(g.dicts[k] == new);
                        assert(g.cols[k][r] == Some(i as u64));
                        assert(new[i as int] == t.dicts[j][x]);
                    }
                }
            }
        } else {
            assert forall|r: int| 0 <= r < t.rows implies #[trigger] t.cols[j][r]
                == g.cols[k][r] by {
                assert(g.cols[k][r] == under_cell(
                    changed_col(t, num, limit, c),
                    num,
                    t.cols[j][r],
                ));
                assert(cell_fits(f, t.dicts[j], t.cols[j][r]));
            }
            assert(g.dicts[k] =~= t.dicts[j]);
        }
    }
}

/// The table that the undo of a change gives.
spec fn undone(t: TableV, cs: Seq<ChangeV>) -> TableV {
    undo_link(t, cs).reached(t)
}

proof fn lemma_redo_pair(
    t: TableV,
    num: NumeralsV,
    limit: nat,
    cs: Seq<ChangeV>,
    g: TableV,
    k: int,
)
    requires
        changed(t, num, limit, cs, g),
        labels_recorded(t, cs),
        0 <= k < cs.len(),
        undo_link(t, cs).gi[cs[k].j] == k,
    ensures
        redo_link(t, g, cs).holds(undone(t, cs), g, k),
{
    let l = redo_link(t, g, cs);
    let c = cs[k];
    let j = c.j;
    let f = t.fields[j];
    let u = undone(t, cs);
    lemma_spoken(t, cs);
    assert(f.level() is Some);
    assert(t.cols[j].len() == t.rows);
    assert(g.fields[k] == changed_field(t, num, c));
    assert(g.dicts[k] == changed_col(t, num, limit, c).levels);
    lemma_text_array(g.dicts[k]);
    lemma_text_array(t.dicts[j]);
    assert(f.is_scale() ==> t.dicts[j] =~= Seq::empty());
    if !l.ks.contains(k) {
        assert(!says_something(t, c));
        assert(g.fields[k] =~= f);
        assert forall|r: int| 0 <= r < t.rows implies #[trigger] g.cols[k][r] == u.cols[j][r] by {}
    } else if !l.cap[k] {
        if !g.fields[k].is_scale() && l.lv[k] is Some {
            assert(l.lv[k]->0 == g.dicts[k]);
            assert forall|r: int| 0 <= r < t.rows implies settled_cell(
                g.dicts[k],
                #[trigger] g.cols[k][r],
            ) == (match u.cols[j][r] {
                None => None,
                Some(x) => if x < t.dicts[j].len() {
                    key_map(t.dicts[j], l.lv[k]->0)[x as int]
                } else {
                    None
                },
            }) by {
                assert(cell_fits(f, t.dicts[j], t.cols[j][r]));
                if t.cols[j][r] is Some {
                    let x = t.cols[j][r]->0 as int;
                    lemma_settled_cell(t.dicts[j], x);
                    if c.rebuild is Remap {
                        lemma_survives(t, num, c, r);
                        let new = c.e.levels->0;
                        lemma_index_of(new, t.dicts[j][x]);
                        let i = crate::text::index_of(new, t.dicts[j][x])->0;
                        assert(g.cols[k][r] == Some(i as u64));
                        lemma_settled_cell(new, i as int);
                    }
                }
            }
        } else {
            assert forall|r: int| 0 <= r < t.rows implies #[trigger] g.cols[k][r]
                == u.cols[j][r] by {
                assert(cell_fits(f, t.dicts[j], t.cols[j][r]));
            }
            assert(g.dicts[k] =~= t.dicts[j]);
        }
    }
}

/// The tables before and after the changes belong together, both ways.
proof fn lemma_linked(
    t: TableV,
    num: NumeralsV,
    limit: nat,
    cs: Seq<ChangeV>,
    g: TableV,
)
    requires
        changed(t, num, limit, cs, g),
        labels_recorded(t, cs),
    ensures
        linked(g, t, undo_link(t, cs)),
        linked(undone(t, cs), g, redo_link(t, g, cs)),
{
    let n = t.fields.len();
    let js = change_columns(cs);
    assert forall|i: int| 0 <= i < n implies 0 <= #[trigger] js[i] < n by {
        assert(js[i] == cs[i].j);
    }
    assert forall|i: int, m: int| 0 <= i < m < n implies js[i] != js[m] by {
        assert(cs[i].j != cs[m].j);
    }
    lemma_onto(js, n);
    lemma_spoken(t, cs);
    assert(inverses(identity(n), identity(n), n));
    assert forall|i: int, k: int| 0 <= i < k < n implies (
    #[trigger] undone(t, cs).fields[i]).name != (#[trigger] undone(t, cs).fields[k]).name by {
        assert(t.fields[i].name != t.fields[k].name);
    }
    assert forall|k: int| 0 <= k < n implies #[trigger] undo_link(t, cs).holds(g, t, k) by {
        lemma_undo_pair(t, num, limit, cs, g, k);
    }
    assert forall|k: int| 0 <= k < n implies #[trigger] redo_link(t, g, cs).holds(
        undone(t, cs),
        g,
        k,
    ) by {
        assert(js[k] == cs[k].j);
        lemma_redo_pair(t, num, limit, cs, g, k);
    }
}

/// The keys of a program that restores a schema differ.
pub proof fn lemma_schema_keys()
    ensures
        "current"@ != "old_name"@,
        "current"@ != "old_display"@,
        "current"@ != "old_type"@,
        "current"@ != "old_levels"@,
        "current"@ != "old_labels"@,
        "current"@ != "capture"@,
        "current"@ != "capture_rows"@,
        "old_name"@ != "old_display"@,
        "old_name"@ != "old_type"@,
        "old_name"@ != "old_levels"@,
        "old_name"@ != "old_labels"@,
        "old_name"@ != "capture"@,
        "old_name"@ != "capture_rows"@,
        "old_display"@ != "old_type"@,
        "old_display"@ != "old_levels"@,
        "old_display"@ != "old_labels"@,
        "old_display"@ != "capture"@,
        "old_display"@ != "capture_rows"@,
        "old_type"@ != "old_levels"@,
        "old_type"@ != "old_labels"@,
        "old_type"@ != "capture"@,
        "old_type"@ != "capture_rows"@,
        "old_levels"@ != "old_labels"@,
        "old_levels"@ != "capture"@,
        "old_levels"@ != "capture_rows"@,
        "old_labels"@ != "capture"@,
        "old_labels"@ != "capture_rows"@,
        "capture"@ != "capture_rows"@,
        "scale"@ != "ordinal"@,
        "scale"@ != "nominal"@,
        "ordinal"@ != "nominal"@,
        "op"@ != "old_order"@,
        "old_order"@ != "old_cols"@,
        "old_order"@ != "old_rows"@,
        "old_order"@ != "columns"@,
{
    reveal_strlit("current");
    reveal_strlit("old_name");
    reveal_strlit("old_display");
    reveal_strlit("old_type");
    reveal_strlit("old_levels");
    reveal_strlit("old_labels");
    reveal_strlit("capture");
    reveal_strlit("capture_rows");
    reveal_strlit("scale");
    reveal_strlit("ordinal");
    reveal_strlit("nominal");
    reveal_strlit("op");
    reveal_strlit("old_order");
    reveal_strlit("old_cols");
    reveal_strlit("old_rows");
    reveal_strlit("columns");
    assert("current"@.len() == 7 && "capture"@.len() == 7 && "old_name"@.len() == 8);
    assert("current"@[1] == 'u' && "capture"@[1] == 'a');
    assert("old_type"@.len() == 8 && "old_name"@[4] == 'n' && "old_type"@[4] == 't');
    assert("old_display"@.len() == 11 && "old_levels"@.len() == 10 && "old_labels"@.len() == 10);
    assert("old_levels"@[5] == 'e' && "old_labels"@[5] == 'a');
    assert("capture_rows"@.len() == 12);
    assert("scale"@.len() == 5 && "ordinal"@.len() == 7 && "nominal"@.len() == 7);
    assert("ordinal"@[0] == 'o' && "nominal"@[0] == 'n');
    assert("op"@.len() == 2 && "old_order"@.len() == 9 && "columns"@.len() == 7);
    assert("old_cols"@.len() == 8 && "old_rows"@.len() == 8);
}

proof fn lemma_labels_back(f: FieldV)
    ensures
        non_strings(label_object(f.labels)->Object_0) =~= Set::empty(),
        object_labels(label_object(f.labels)->Object_0) =~= f.labels,
{
}

/// A record reads back as it was made.
proof fn lemma_record_back(
    current: Seq<char>,
    old_name: Seq<char>,
    f: FieldV,
    levels: Option<Seq<Seq<char>>>,
    capture: bool,
    rows: u64,
)
    requires
        f.level() is Some,
    ensures
        record_of(
            record_json(
                current,
                old_name,
                f,
                match levels {
                    Some(l) => text_array(l),
                    None => JsonV::Null,
                },
                capture,
                rows,
            ),
        ) == Ok::<RecordV, FailureV>(
            RecordV {
                current,
                old_name,
                old_display: f.display,
                old_type: f.level()->0,
                old_levels: levels,
                old_labels: if f.labels =~= Map::empty() {
                    None
                } else {
                    Some(f.labels)
                },
                capture,
            },
        ),
{
    lemma_schema_keys();
    lemma_labels_back(f);
    if levels is Some {
        lemma_text_array(levels->0);
    }
}

proof fn lemma_records_back(a: Seq<JsonV>, rs: Seq<RecordV>)
    requires
        a.len() == rs.len(),
        forall|i: int|
            0 <= i < a.len() ==> record_of(#[trigger] a[i]) == Ok::<RecordV, FailureV>(rs[i]),
    ensures
        records_of(a) == Ok::<Seq<RecordV>, FailureV>(rs),
    decreases a.len(),
{
    if a.len() > 0 {
        assert forall|i: int| 0 <= i < a.drop_last().len() implies record_of(
            #[trigger] a.drop_last()[i],
        ) == Ok::<RecordV, FailureV>(rs.drop_last()[i]) by {
            assert(a.drop_last()[i] == a[i]);
        }
        lemma_records_back(a.drop_last(), rs.drop_last());
        assert(record_of(a[a.len() - 1]) == Ok::<RecordV, FailureV>(rs[rs.len() - 1]));
        assert(rs.drop_last().push(rs.last()) =~= rs);
    } else {
        assert(rs =~= Seq::empty());
    }
}

/// A program to restore linked tables settles.
proof fn lemma_program_settles(
    c: TableV,
    g: TableV,
    l: Link,
    columns: Seq<JsonV>,
    size: nat,
    blob: Result<Option<Seq<ColumnV>>, Seq<char>>,
    inv: Seq<ColumnV>,
)
    requires
        linked(c, g, l),
        carried(l, g, inv),
        if some_captured(l.records(c, g)) {
            decoded(blob) == Ok::<Seq<ColumnV>, FailureV>(inv) && inverse_rows(inv) == g.rows
        } else {
            size == 0 && inv =~= Seq::empty()
        },
        columns.len() == l.ks.len(),
        forall|i: int|
            0 <= i < columns.len() ==> record_of(#[trigger] columns[i]) == Ok::<
                RecordV,
                FailureV,
            >(l.record(c, g, l.ks[i])),
        g.fields.len() <= u64::MAX,
    ensures
        ({
            let ops = restore_schema_program(g, columns);
            &&& text_at(ops, "op"@) == Some("restore_schema"@)
            &&& schema_restore(c, ops, size, blob) == Ok::<SchemaRestoreV, FailureV>(
                SchemaRestoreV {
                    order: field_names(g),
                    records: l.records(c, g),
                    at: l.at(),
                    inv,
                },
            )
        }),
{
    let ops = restore_schema_program(g, columns);
    lemma_schema_keys();
    lemma_keys();
    lemma_programs_differ();
    lemma_text_array(field_names(g));
    lemma_names(g);
    lemma_first_repeat(field_names(g));
    lemma_records_back(columns, l.records(c, g));
    lemma_settles(c, g, l, size, blob, inv);
    assert(program_order(ops, c.fields.len()) == Ok::<Seq<Seq<char>>, FailureV>(field_names(g)));
    assert(array_at(ops, "columns"@) == Some(columns));
}

/// Whole columns that were captured are carried.
proof fn lemma_carried(
    c: TableV,
    g: TableV,
    l: Link,
    js: Seq<u64>,
)
    requires
        linked(c, g, l),
        forall|i: int| 0 <= i < js.len() ==> #[trigger] js[i] < g.fields.len(),
        forall|i: int, m: int| 0 <= i < m < js.len() ==> js[i] != js[m],
        forall|i: int|
            0 <= i < l.ks.len() && l.cap[#[trigger] l.ks[i]] ==> js.contains(
                l.gg[l.ks[i]] as u64,
            ),
        g.fields.len() <= u64::MAX,
    ensures
        carried(l, g, capture_of(g, js, 0, g.rows as int)),
{
    let inv = capture_of(g, js, 0, g.rows as int);
    let names = column_names(inv);
    assert forall|i: int, m: int| 0 <= i < m < names.len() implies names[i] != names[m] by {
        assert(js[i] != js[m]);
        if js[i] < js[m] {
            assert(g.fields[js[i] as int].name != g.fields[js[m] as int].name);
        } else {
            assert(g.fields[js[m] as int].name != g.fields[js[i] as int].name);
        }
    }
    assert forall|i: int| 0 <= i < l.ks.len() && l.cap[#[trigger] l.ks[i]] implies exists|m: int|
        0 <= m < inv.len() && #[trigger] inv[m] == (ColumnV {
            field: g.fields[l.gg[l.ks[i]]],
            levels: g.dicts[l.gg[l.ks[i]]],
            cells: g.cols[l.gg[l.ks[i]]],
        }) by {
        let b = l.gg[l.ks[i]];
        assert(0 <= l.ks[i] < g.fields.len());
        let m = choose|m: int| 0 <= m < js.len() && js[m] == b as u64;
        assert(g.cols[b].len() == g.rows);
        assert(g.cols[b].subrange(0, g.rows as int) =~= g.cols[b]);
        assert(inv[m] == (ColumnV {
            field: g.fields[b],
            levels: g.dicts[b],
            cells: g.cols[b],
        }));
    }
}

/// The records of the changes read back as what the undo needs.
proof fn lemma_records_made(
    t: TableV,
    num: NumeralsV,
    limit: nat,
    cs: Seq<ChangeV>,
    g: TableV,
)
    requires
        changed(t, num, limit, cs, g),
    ensures
        ({
            let l = undo_link(t, cs);
            let columns = change_records(t, cs);
            &&& columns.len() == l.ks.len()
            &&& forall|i: int|
                0 <= i < columns.len() ==> record_of(#[trigger] columns[i]) == Ok::<
                    RecordV,
                    FailureV,
                >(l.record(g, t, l.ks[i]))
        }),
{
    let l = undo_link(t, cs);
    let columns = change_records(t, cs);
    lemma_spoken(t, cs);
    assert forall|i: int| 0 <= i < columns.len() implies record_of(#[trigger] columns[i]) == Ok::<
        RecordV,
        FailureV,
    >(l.record(g, t, l.ks[i])) by {
        let k = l.ks[i];
        let c = cs[k];
        assert(t.fields[c.j].level() is Some);
        assert(g.fields[k] == changed_field(t, num, c));
        lemma_text_array(t.dicts[c.j]);
        lemma_record_back(
            g.fields[k].name,
            t.fields[c.j].name,
            t.fields[c.j],
            l.lv[k],
            reencodes(c),
            t.rows as u64,
        );
    }
}

/// What the undo of a change of the schema comes to.
#[verifier::rlimit(50)]
proof fn lemma_undo_schema(
    t: TableV,
    num: NumeralsV,
    limit: nat,
    target: JsonV,
    revision: u64,
    w: Result<Seq<u8>, Seq<char>>,
)
    requires
        orderly(t),
        asked_changes(t, target) is Ok,
        labels_recorded(t, asked_changes(t, target)->Ok_0),
        written(w, schema_capture(t, asked_changes(t, target)->Ok_0)),
        schema_outcome(t, num, limit, target, revision, w) is Ok,
        countable(schema_outcome(t, num, limit, target, revision, w)->Ok_0.table),
    ensures
        ({
            let cs = asked_changes(t, target)->Ok_0;
            let o = schema_outcome(t, num, limit, target, revision, w)->Ok_0;
            let l = undo_link(t, cs);
            let inv = schema_capture(t, cs);
            &&& text_at(o.inverse->0.ops, "op"@) == Some("restore_schema"@)
            &&& changed(t, num, limit, cs, o.table)
            &&& linked(o.table, t, l)
            &&& linked(undone(t, cs), o.table, redo_link(t, o.table, cs))
            &&& carried(l, t, inv)
            &&& some_captured(l.records(o.table, t)) <==> reencoded(cs).len() > 0
            &&& schema_restore(
                o.table,
                o.inverse->0.ops,
                o.bytes.len(),
                blob_columns(o.bytes),
            ) == Ok::<SchemaRestoreV, FailureV>(
                SchemaRestoreV {
                    order: field_names(t),
                    records: l.records(o.table, t),
                    at: l.at(),
                    inv,
                },
            )
        }),
{
    let n = t.fields.len();
    let cs = asked_changes(t, target)->Ok_0;
    let o = schema_outcome(t, num, limit, target, revision, w)->Ok_0;
    let g = o.table;
    let l = undo_link(t, cs);
    let js = reencoded(cs);
    let inv = schema_capture(t, cs);
    lemma_changed(t, num, limit, target, revision, w);
    lemma_linked(t, num, limit, cs, g);
    lemma_spoken(t, cs);
    lemma_reencoded(cs);
    assert forall|i: int, m: int| 0 <= i < m < cs.len() implies cs[i].j as u64 != cs[m].j as u64 by {
        assert(cs[i].j != cs[m].j);
        assert(0 <= cs[i].j < n && 0 <= cs[m].j < n);
    }
    assert forall|i: int| 0 <= i < js.len() implies #[trigger] js[i] < n by {
        assert(coded(cs, js[i]));
        let k = choose|k: int|
            0 <= k < cs.len() && reencodes(#[trigger] cs[k]) && cs[k].j as u64 == js[i];
        assert(0 <= cs[k].j < n);
    }
    assert forall|i: int| 0 <= i < l.ks.len() && l.cap[#[trigger] l.ks[i]] implies js.contains(
        l.gg[l.ks[i]] as u64,
    ) by {
        assert(reencodes(cs[l.ks[i]]));
    }
    lemma_carried(g, t, l, js);
    let rs = l.records(g, t);
    lemma_some_captured(rs);
    if js.len() > 0 {
        assert(coded(cs, js[0]));
        let k = choose|k: int|
            0 <= k < cs.len() && reencodes(#[trigger] cs[k]) && cs[k].j as u64 == js[0];
        assert(says_something(t, cs[k]));
        let i = choose|i: int| 0 <= i < l.ks.len() && l.ks[i] == k;
        assert(rs[i].capture);
        lemma_capture_reads_back(t, js, 0, t.rows as int, o.bytes);
    } else {
        if some_captured(rs) {
            let i = choose|i: int| 0 <= i < rs.len() && (#[trigger] rs[i]).capture;
            assert(reencodes(cs[l.ks[i]]));
            assert(js.contains(cs[l.ks[i]].j as u64));
        }
        assert(inv =~= Seq::empty());
    }
    let columns = change_records(t, cs);
    lemma_records_made(t, num, limit, cs, g);
    lemma_program_settles(g, t, l, columns, o.bytes.len(), blob_columns(o.bytes), inv);
}

/// What a link reaches reads as the goal.
proof fn lemma_reached(c: TableV, g: TableV, l: Link)
    requires
        linked(c, g, l),
        regular(g),
    ensures
        read_alike(l.reached(g), g),
        g.levels_distinct() ==> l.reached(g) == g,
{
    let n = g.fields.len();
    assert forall|b: int| 0 <= b < n && l.moves(g, #[trigger] l.gi[b]) implies !g.fields[b].is_scale() by {
        assert(l.gg[l.gi[b]] == b);
    }
    lemma_settled(g, Seq::new(n, |b: int| l.moves(g, l.gi[b])));
}

/// Undoing a change of the schema gives back the table, unless the redo cannot be captured. Where
/// a dictionary lists a level twice, a key may come back at another place of its level.
pub proof fn law_undo_schema_change(
    t: TableV,
    num: NumeralsV,
    num2: NumeralsV,
    limit: nat,
    target: JsonV,
    revision: u64,
    later: u64,
    w: Result<Seq<u8>, Seq<char>>,
    w2: Result<Seq<u8>, Seq<char>>,
)
    requires
        orderly(t),
        asked_changes(t, target) is Ok,
        labels_recorded(t, asked_changes(t, target)->Ok_0),
        written(w, schema_capture(t, asked_changes(t, target)->Ok_0)),
        schema_outcome(t, num, limit, target, revision, w) is Ok,
        countable(schema_outcome(t, num, limit, target, revision, w)->Ok_0.table),
        revision <= later,
    ensures
        ({
            let o = schema_outcome(t, num, limit, target, revision, w)->Ok_0;
            let u = reversed(o, num2, later, w2);
            match sealed_redo(w2) {
                Ok(_) => u is Ok && gives_back(u->Ok_0.table, t),
                Err(f) => if reencoded(asked_changes(t, target)->Ok_0).len() == 0 {
                    u is Ok && gives_back(u->Ok_0.table, t)
                } else {
                    u == Err::<OutcomeV, FailureV>(f)
                },
            }
        }),
{
    let cs = asked_changes(t, target)->Ok_0;
    let o = schema_outcome(t, num, limit, target, revision, w)->Ok_0;
    lemma_undo_schema(t, num, limit, target, revision, w);
    lemma_undo_outcome(t, num, num2, limit, target, revision, later, w, w2);
    lemma_reached(o.table, t, undo_link(t, cs));
}

proof fn lemma_captured_columns(rs: Seq<RecordV>, at: Seq<int>)
    requires
        at.len() >= rs.len(),
        forall|i: int| 0 <= i < at.len() ==> 0 <= #[trigger] at[i] <= u64::MAX,
        forall|i: int, m: int| 0 <= i < m < at.len() ==> at[i] != at[m],
    ensures
        forall|i: int|
            0 <= i < rs.len() && (#[trigger] rs[i]).capture ==> captured_columns(rs, at).contains(
                at[i] as u64,
            ),
        forall|m: int|
            0 <= m < captured_columns(rs, at).len() ==> at.take(rs.len() as int).contains(
                #[trigger] captured_columns(rs, at)[m] as int,
            ),
        forall|i: int, m: int|
            0 <= i < m < captured_columns(rs, at).len() ==> captured_columns(rs, at)[i]
                != captured_columns(rs, at)[m],
        captured_columns(rs, at).len() > 0 <==> some_captured(rs),
    decreases rs.len(),
{
    if rs.len() > 0 {
        let d = rs.drop_last();
        let s = captured_columns(rs, at);
        let sd = captured_columns(d, at);
        let last = rs.len() - 1;
        lemma_captured_columns(d, at);
        assert(rs[last] == rs.last());
        assert forall|i: int| 0 <= i < rs.len() && (#[trigger] rs[i]).capture implies s.contains(
            at[i] as u64,
        ) by {
            if i < last {
                assert(d[i] == rs[i]);
                assert(sd.contains(at[i] as u64));
                let m = choose|m: int| 0 <= m < sd.len() && sd[m] == at[i] as u64;
                assert(s[m] == at[i] as u64);
            } else {
                assert(s[sd.len() as int] == at[i] as u64);
            }
        }
        assert forall|m: int| 0 <= m < s.len() implies at.take(rs.len() as int).contains(
            #[trigger] s[m] as int,
        ) by {
            if m < sd.len() {
                assert(sd[m] == s[m]);
                assert(at.take(last).contains(sd[m] as int));
                let i = choose|i: int| 0 <= i < last && at.take(last)[i] == sd[m] as int;
                assert(at.take(rs.len() as int)[i] == s[m] as int);
            } else {
                assert(at.take(rs.len() as int)[last] == s[m] as int);
            }
        }
        assert forall|i: int, m: int| 0 <= i < m < s.len() implies s[i] != s[m] by {
            if m < sd.len() {
                assert(sd[i] != sd[m]);
            } else {
                assert(at.take(last).contains(sd[i] as int));
                let k = choose|k: int| 0 <= k < last && at.take(last)[k] == sd[i] as int;
                assert(at[k] != at[last]);
            }
        }
    }
}

/// The settled program of the undo.
spec fn undo_settled(t: TableV, cs: Seq<ChangeV>, g: TableV) -> SchemaRestoreV {
    let l = undo_link(t, cs);
    SchemaRestoreV {
        order: field_names(t),
        records: l.records(g, t),
        at: l.at(),
        inv: schema_capture(t, cs),
    }
}

/// The settled program of the redo.
spec fn redo_settled(t: TableV, cs: Seq<ChangeV>, g: TableV) -> SchemaRestoreV {
    let l = redo_link(t, g, cs);
    SchemaRestoreV {
        order: field_names(g),
        records: l.records(t, g),
        at: l.at(),
        inv: schema_redo_capture(g, undo_settled(t, cs, g)),
    }
}

/// The program of the redo settles.
#[verifier::rlimit(50)]
proof fn lemma_redo_settles(
    t: TableV,
    num: NumeralsV,
    limit: nat,
    cs: Seq<ChangeV>,
    g: TableV,
    bytes: Seq<u8>,
)
    requires
        changed(t, num, limit, cs, g),
        labels_recorded(t, cs),
        ({
            let s = undo_settled(t, cs, g);
            if some_captured(s.records) {
                crate::capture::carries(bytes, schema_redo_capture(g, s))
            } else {
                bytes.len() == 0
            }
        }),
    ensures
        ({
            let s = undo_settled(t, cs, g);
            let ops = restore_schema_program(g, redo_records(g, s));
            let x = redo_settled(t, cs, g);
            &&& text_at(ops, "op"@) == Some("restore_schema"@)
            &&& schema_restore(undone(t, cs), ops, bytes.len(), blob_columns(bytes)) == Ok::<
                SchemaRestoreV,
                FailureV,
            >(x)
            &&& some_captured(x.records) == some_captured(s.records)
            &&& carried(redo_link(t, g, cs), g, x.inv)
        }),
{
    let n = t.fields.len();
    let l = undo_link(t, cs);
    let l2 = redo_link(t, g, cs);
    let s = undo_settled(t, cs, g);
    lemma_linked(t, num, limit, cs, g);
    let rs = s.records;
    let js = captured_columns(rs, s.at);
    lemma_spoken(t, cs);
    assert forall|i: int| 0 <= i < s.at.len() implies 0 <= #[trigger] s.at[i] <= u64::MAX by {
        assert(0 <= l.ks[i] < n);
    }
    assert forall|i: int, m: int| 0 <= i < m < s.at.len() implies s.at[i] != s.at[m] by {
        assert(l.ks[i] < l.ks[m]);
    }
    lemma_captured_columns(rs, s.at);
    assert forall|i: int| 0 <= i < js.len() implies #[trigger] js[i] < g.fields.len() by {
        let at = s.at.take(rs.len() as int);
        assert(at.contains(js[i] as int));
        let k = choose|k: int| 0 <= k < at.len() && at[k] == js[i] as int;
        assert(s.at[k] == js[i]);
        assert(0 <= l.ks[k] < n);
    }
    assert forall|i: int| 0 <= i < l2.ks.len() && l2.cap[#[trigger] l2.ks[i]] implies js.contains(
        l2.gg[l2.ks[i]] as u64,
    ) by {
        assert(rs[i].capture);
        assert(s.at[i] == l.ks[i]);
    }
    lemma_carried(undone(t, cs), g, l2, js);
    let inv2 = schema_redo_capture(g, s);
    let rs2 = l2.records(t, g);
    lemma_some_captured(rs);
    lemma_some_captured(rs2);
    assert(some_captured(rs2) == some_captured(rs)) by {
        assert forall|i: int| 0 <= i < rs.len() implies (#[trigger] rs[i]).capture
            == rs2[i].capture by {}
        if some_captured(rs) {
            let i = choose|i: int| 0 <= i < rs.len() && (#[trigger] rs[i]).capture;
            assert(rs2[i].capture);
        }
        if some_captured(rs2) {
            let i = choose|i: int| 0 <= i < rs2.len() && (#[trigger] rs2[i]).capture;
            assert(rs[i].capture);
        }
    }
    if js.len() > 0 {
        lemma_capture_reads_back(g, js, 0, g.rows as int, bytes);
    } else {
        assert(inv2 =~= Seq::empty());
    }
    let columns = redo_records(g, s);
    assert forall|i: int| 0 <= i < columns.len() implies record_of(#[trigger] columns[i]) == Ok::<
        RecordV,
        FailureV,
    >(l2.record(undone(t, cs), g, l2.ks[i])) by {
        let k = l2.ks[i];
        assert(g.fields[k].level() is Some);
        lemma_text_array(g.dicts[k]);
        lemma_record_back(
            rs[i].old_name,
            rs[i].current,
            g.fields[k],
            l2.lv[k],
            rs[i].capture,
            g.rows as u64,
        );
    }
    let u = undone(t, cs);
    assert(l2.records(u, g) =~= rs2);
    lemma_program_settles(u, g, l2, columns, bytes.len(), blob_columns(bytes), inv2);
}

/// Where no dictionary lists a level twice, the redo gives the very keys.
proof fn lemma_redo_exact(
    t: TableV,
    num: NumeralsV,
    limit: nat,
    cs: Seq<ChangeV>,
    g: TableV,
)
    requires
        changed(t, num, limit, cs, g),
        labels_recorded(t, cs),
        t.levels_distinct(),
    ensures
        redo_link(t, g, cs).reached(g) == g,
{
    let l = redo_link(t, g, cs);
    let u = l.reached(g);
    assert forall|k: int| 0 <= k < g.cols.len() implies u.cols[k] == g.cols[k] by {
        let c = cs[k];
        let j = c.j;
        assert(g.cols[k].len() == g.rows);
        assert(t.cols[j].len() == t.rows);
        assert(t.fields[j].level() is Some);
        assert(g.fields[k] == changed_field(t, num, c));
        assert(g.dicts[k] == changed_col(t, num, limit, c).levels);
        if l.moves(g, k) {
            assert forall|r: int| 0 <= r < g.rows implies settled_cell(
                g.dicts[k],
                g.cols[k][r],
            ) == g.cols[k][r] by {
                assert(cell_fits(t.fields[j], t.dicts[j], t.cols[j][r]));
                assert(g.cols[k][r] == under_cell(
                    changed_col(t, num, limit, c),
                    num,
                    t.cols[j][r],
                ));
                if t.cols[j][r] is Some {
                    let x = t.cols[j][r]->0 as int;
                    if c.rebuild is Remap {
                        lemma_survives(t, num, c, r);
                        let new = c.e.levels->0;
                        lemma_index_of(new, t.dicts[j][x]);
                        lemma_settled_cell(
                            new,
                            crate::text::index_of(new, t.dicts[j][x])->0 as int,
                        );
                    } else {
                        lemma_settled_cell(t.dicts[j], x);
                    }
                }
            }
        }
        assert(u.cols[k] =~= g.cols[k]);
    }
    assert(u.cols =~= g.cols);
    assert(u =~= g);
}

/// The inverse of a change of the schema is a program that restores the schema.
pub proof fn lemma_schema_inverse_op(
    t: TableV,
    num: NumeralsV,
    limit: nat,
    target: JsonV,
    revision: u64,
    w: Result<Seq<u8>, Seq<char>>,
)
    requires
        orderly(t),
        asked_changes(t, target) is Ok,
        labels_recorded(t, asked_changes(t, target)->Ok_0),
        written(w, schema_capture(t, asked_changes(t, target)->Ok_0)),
        schema_outcome(t, num, limit, target, revision, w) is Ok,
        countable(schema_outcome(t, num, limit, target, revision, w)->Ok_0.table),
    ensures
        text_at(
            schema_outcome(t, num, limit, target, revision, w)->Ok_0.inverse->0.ops,
            "op"@,
        ) == Some("restore_schema"@),
{
    lemma_undo_schema(t, num, limit, target, revision, w);
}

/// What the undo of a change of the schema gives: the table before it, and a program that redoes
/// it.
#[verifier::rlimit(50)]
proof fn lemma_undo_outcome(
    t: TableV,
    num: NumeralsV,
    num2: NumeralsV,
    limit: nat,
    target: JsonV,
    revision: u64,
    later: u64,
    w: Result<Seq<u8>, Seq<char>>,
    w2: Result<Seq<u8>, Seq<char>>,
)
    requires
        orderly(t),
        asked_changes(t, target) is Ok,
        labels_recorded(t, asked_changes(t, target)->Ok_0),
        written(w, schema_capture(t, asked_changes(t, target)->Ok_0)),
        schema_outcome(t, num, limit, target, revision, w) is Ok,
        countable(schema_outcome(t, num, limit, target, revision, w)->Ok_0.table),
        revision <= later,
    ensures
        ({
            let cs = asked_changes(t, target)->Ok_0;
            let o = schema_outcome(t, num, limit, target, revision, w)->Ok_0;
            let g = o.table;
            let s = undo_settled(t, cs, g);
            let u = reversed(o, num2, later, w2);
            let written_redo = if some_captured(s.records) {
                sealed_redo(w2)
            } else {
                Ok(Seq::empty())
            };
            &&& changed(t, num, limit, cs, g)
            &&& linked(undone(t, cs), g, redo_link(t, g, cs))
            &&& some_captured(s.records) <==> reencoded(cs).len() > 0
            &&& schema_restore(g, o.inverse->0.ops, o.bytes.len(), blob_columns(o.bytes)) == Ok::<
                SchemaRestoreV,
                FailureV,
            >(s)
            &&& match written_redo {
                Err(f) => u == Err::<OutcomeV, FailureV>(f),
                Ok(bytes) => {
                    &&& u is Ok
                    &&& u->Ok_0.table == undone(t, cs)
                    &&& u->Ok_0.bytes == bytes
                    &&& u->Ok_0.inverse == Some(
                        inverse_of(later, restore_schema_program(g, redo_records(g, s))),
                    )
                },
            }
        }),
{
    let cs = asked_changes(t, target)->Ok_0;
    let o = schema_outcome(t, num, limit, target, revision, w)->Ok_0;
    lemma_undo_schema(t, num, limit, target, revision, w);
    lemma_schema_keys();
    lemma_keys();
    lemma_programs_differ();
    lemma_link_restores(o.table, t, num2, undo_link(t, cs), schema_capture(t, cs));
}

/// What the redo of a change of the schema gives.
#[verifier::rlimit(50)]
proof fn lemma_redo_outcome(
    t: TableV,
    num: NumeralsV,
    num3: NumeralsV,
    limit: nat,
    cs: Seq<ChangeV>,
    g: TableV,
    u: OutcomeV,
    later: u64,
    last: u64,
    w3: Result<Seq<u8>, Seq<char>>,
)
    requires
        changed(t, num, limit, cs, g),
        labels_recorded(t, cs),
        linked(undone(t, cs), g, redo_link(t, g, cs)),
        later <= last,
        u.table == undone(t, cs),
        ({
            let s = undo_settled(t, cs, g);
            &&& u.inverse == Some(
                inverse_of(later, restore_schema_program(g, redo_records(g, s))),
            )
            &&& if some_captured(s.records) {
                crate::capture::carries(u.bytes, schema_redo_capture(g, s))
            } else {
                u.bytes.len() == 0
            }
        }),
    ensures
        ({
            let r = reversed(u, num3, last, w3);
            let goal = redo_link(t, g, cs).reached(g);
            match sealed_redo(w3) {
                Ok(_) => r is Ok && r->Ok_0.table == goal,
                Err(f) => if some_captured(undo_settled(t, cs, g).records) {
                    r == Err::<OutcomeV, FailureV>(f)
                } else {
                    r is Ok && r->Ok_0.table == goal
                },
            }
        }),
{
    lemma_schema_keys();
    lemma_keys();
    lemma_programs_differ();
    lemma_redo_settles(t, num, limit, cs, g, u.bytes);
    let l = redo_link(t, g, cs);
    assert(l.records(undone(t, cs), g) =~= l.records(t, g));
    lemma_link_restores(
        undone(t, cs),
        g,
        num3,
        redo_link(t, g, cs),
        redo_settled(t, cs, g).inv,
    );
}

/// Redoing a change of the schema that was undone gives the table that it made, unless the
/// undo of the redo cannot be captured. Where a dictionary lists a level twice, a key may come out
/// at another place of its level.
pub proof fn law_redo_schema_change(
    t: TableV,
    num: NumeralsV,
    num2: NumeralsV,
    num3: NumeralsV,
    limit: nat,
    target: JsonV,
    revision: u64,
    later: u64,
    last: u64,
    w: Result<Seq<u8>, Seq<char>>,
    w2: Result<Seq<u8>, Seq<char>>,
    w3: Result<Seq<u8>, Seq<char>>,
)
    requires
        orderly(t),
        asked_changes(t, target) is Ok,
        labels_recorded(t, asked_changes(t, target)->Ok_0),
        written(w, schema_capture(t, asked_changes(t, target)->Ok_0)),
        schema_outcome(t, num, limit, target, revision, w) is Ok,
        countable(schema_outcome(t, num, limit, target, revision, w)->Ok_0.table),
        revision <= later <= last,
        ({
            let o = schema_outcome(t, num, limit, target, revision, w)->Ok_0;
            match schema_restore(
                o.table,
                o.inverse->0.ops,
                o.bytes.len(),
                blob_columns(o.bytes),
            ) {
                Ok(s) => written(w2, schema_redo_capture(o.table, s)),
                Err(_) => true,
            }
        }),
        reversed(
            schema_outcome(t, num, limit, target, revision, w)->Ok_0,
            num2,
            later,
            w2,
        ) is Ok,
    ensures
        ({
            let o = schema_outcome(t, num, limit, target, revision, w)->Ok_0;
            let u = reversed(o, num2, later, w2);
            let r = reversed(u->Ok_0, num3, last, w3);
            u is Ok && match sealed_redo(w3) {
                Ok(_) => r is Ok && read_alike(r->Ok_0.table, o.table) && (t.levels_distinct()
                    ==> r->Ok_0.table == o.table),
                Err(f) => if reencoded(asked_changes(t, target)->Ok_0).len() == 0 {
                    r is Ok && read_alike(r->Ok_0.table, o.table) && (t.levels_distinct()
                        ==> r->Ok_0.table == o.table)
                } else {
                    r == Err::<OutcomeV, FailureV>(f)
                },
            }
        }),
{
    let cs = asked_changes(t, target)->Ok_0;
    let o = schema_outcome(t, num, limit, target, revision, w)->Ok_0;
    let g = o.table;
    lemma_undo_outcome(t, num, num2, limit, target, revision, later, w, w2);
    let u = reversed(o, num2, later, w2)->Ok_0;
    lemma_redo_outcome(t, num, num3, limit, cs, g, u, later, last, w3);
    lemma_reached(undone(t, cs), g, redo_link(t, g, cs));
    if t.levels_distinct() {
        lemma_redo_exact(t, num, limit, cs, g);
    }
}

} // verus!
