//! The wire schema: what a frontend is told of each column.
use vstd::prelude::*;
use std::collections::HashSet;
use crate::engine::{build_index, plan_views, OutCol, OutColV};
use crate::json::{
    items, json_array, json_number, json_object, json_text, json_texts, label_object, members,
    no_members, put, text_array, Json, JsonV,
};
use crate::number::{finite, integral, is_finite, is_integral, unified, unify, Numerals, NumeralsV};
use crate::table::{label_map, level_text, Cell, Dataset, Field, FieldV, Level};
use crate::text::{lemma_index_of, texts};

verus! {

/// At most this many levels of a column go on the wire.
pub const WIRE_LEVELS_CAP: usize = 10_000;

/// Distinct numbers of a scale are counted up to here.
pub const DISTINCT_CAP: usize = 1000;

/// How many cells are not null.
pub open spec fn value_count(cells: Seq<Cell>) -> nat
    decreases cells.len(),
{
    if cells.len() == 0 {
        0
    } else {
        value_count(cells.drop_last()) + if cells.last() is Some {
            1nat
        } else {
            0nat
        }
    }
}

/// Whether every number among the cells is an integer.
pub open spec fn only_integers(cells: Seq<Cell>) -> bool {
    forall|i: int| 0 <= i < cells.len() && cells[i] is Some ==> integral(#[trigger] cells[i]->0)
}

/// The finite numbers among the cells, the two zeros made one.
pub open spec fn numbers(cells: Seq<Cell>) -> Set<u64>
    decreases cells.len(),
{
    if cells.len() == 0 {
        Set::empty()
    } else {
        let p = numbers(cells.drop_last());
        match cells.last() {
            Some(b) => if finite(b) {
                p.insert(unified(b))
            } else {
                p
            },
            None => p,
        }
    }
}

/// The finite numbers among the cells are those of the cells.
pub proof fn lemma_numbers(cells: Seq<Cell>, b: u64)
    ensures
        numbers(cells).contains(b) <==> exists|r: int|
            0 <= r < cells.len() && (#[trigger] cells[r]) is Some && finite(cells[r]->0) && b
                == unified(cells[r]->0),
    decreases cells.len(),
{
    if cells.len() > 0 {
        let d = cells.drop_last();
        lemma_numbers(d, b);
        let m = cells.len() - 1;
        assert(cells[m] == cells.last());
        if exists|r: int|
            0 <= r < d.len() && (#[trigger] d[r]) is Some && finite(d[r]->0) && b == unified(
                d[r]->0,
            ) {
            let r = choose|r: int|
                0 <= r < d.len() && (#[trigger] d[r]) is Some && finite(d[r]->0) && b == unified(
                    d[r]->0,
                );
            assert(cells[r] == d[r]);
        }
        if exists|r: int|
            0 <= r < cells.len() && (#[trigger] cells[r]) is Some && finite(cells[r]->0) && b
                == unified(cells[r]->0) {
            let r = choose|r: int|
                0 <= r < cells.len() && (#[trigger] cells[r]) is Some && finite(cells[r]->0) && b
                    == unified(cells[r]->0);
            if r < m {
                assert(d[r] == cells[r]);
            }
        }
    }
}

/// How many distinct finite numbers there are, counted up to the cap.
pub open spec fn distinct_numbers(cells: Seq<Cell>) -> nat {
    if numbers(cells).len() > DISTINCT_CAP {
        DISTINCT_CAP as nat
    } else {
        numbers(cells).len()
    }
}

/// What is counted of the numbers of a scale.
pub struct ScaleStats {
    pub count: u64,
    pub only_ints: bool,
    pub seen: HashSet<u64>,
    pub capped: bool,
}

impl ScaleStats {
    /// The counts are those of the given cells.
    pub open spec fn of(self, cells: Seq<Cell>) -> bool {
        &&& self.count == value_count(cells)
        &&& self.only_ints == only_integers(cells)
        &&& numbers(cells).finite()
        &&& self.capped == (numbers(cells).len() > DISTINCT_CAP)
        &&& !self.capped ==> self.seen@ == numbers(cells)
    }

    /// The counts of nothing.
    pub fn new() -> (r: ScaleStats)
        ensures
            r.of(Seq::empty()),
    {
        ScaleStats { count: 0, only_ints: true, seen: HashSet::new(), capped: false }
    }

    /// Counts one cell more.
    pub fn observe(&mut self, v: Cell)
        requires
            v is Some ==> old(self).count < u64::MAX,
        ensures
            forall|cells: Seq<Cell>| #[trigger]
                old(self).of(cells) ==> final(self).of(cells.push(v)),
    {
        broadcast use vstd::std_specs::hash::group_hash_axioms;

        proof {
            assert forall|cells: Seq<Cell>| #[trigger] self.of(cells) implies {
                let q = cells.push(v);
                &&& value_count(q) == value_count(cells) + if v is Some {
                    1nat
                } else {
                    0nat
                }
                &&& numbers(q) == match v {
                    Some(b) => if finite(b) {
                        numbers(cells).insert(unified(b))
                    } else {
                        numbers(cells)
                    },
                    None => numbers(cells),
                }
                &&& only_integers(q) == (only_integers(cells) && (v is Some ==> integral(v->0)))
            } by {
                let q = cells.push(v);
                assert(q.drop_last() =~= cells);
                assert forall|i: int| 0 <= i < cells.len() implies q[i] == cells[i] by {}
                if only_integers(q) {
                    assert forall|i: int| 0 <= i < cells.len() && cells[i] is Some implies integral(
                        #[trigger] cells[i]->0,
                    ) by {
                        assert(integral(q[i]->0));
                    }
                    if v is Some {
                        assert(integral(q[cells.len() as int]->0));
                    }
                }
            }
        }
        if let Some(b) = v {
            self.count = self.count + 1;
            if !is_integral(b) {
                self.only_ints = false;
            }
            if !self.capped && is_finite(b) {
                self.seen.insert(unify(b));
                if self.seen.len() > DISTINCT_CAP {
                    self.capped = true;
                }
            }
        }
    }

    /// The number of distinct finite numbers, up to the cap.
    pub fn distinct(&self) -> (r: u64)
        ensures
            forall|cells: Seq<Cell>| #[trigger] self.of(cells) ==> r == distinct_numbers(cells),
    {
        broadcast use vstd::std_specs::hash::group_hash_axioms;

        if self.capped {
            DISTINCT_CAP as u64
        } else {
            self.seen.len() as u64
        }
    }
}

/// The distinct finite numbers that a list of levels stands for.
pub open spec fn level_numbers(levels: Seq<Seq<char>>, num: NumeralsV) -> Set<u64>
    decreases levels.len(),
{
    if levels.len() == 0 {
        Set::empty()
    } else {
        let p = level_numbers(levels.drop_last(), num);
        match num.parse(levels.last()) {
            Some(b) => if finite(b) {
                p.insert(unified(b))
            } else {
                p
            },
            None => p,
        }
    }
}

/// Counts the distinct finite numbers that a list of levels stands for.
pub fn numeric_levels_of(levels: &Vec<String>, num: &Numerals) -> (r: u64)
    ensures
        r == level_numbers(texts(levels@), num@).len(),
{
    broadcast use vstd::std_specs::hash::group_hash_axioms;

    let mut seen: HashSet<u64> = HashSet::new();
    let mut i: usize = 0;
    assert(texts(levels@).take(0) =~= Seq::empty());
    while i < levels.len()
        invariant
            i <= levels.len(),
            seen@ == level_numbers(texts(levels@).take(i as int), num@),
        decreases levels.len() - i,
    {
        assert(texts(levels@).take(i + 1).drop_last() =~= texts(levels@).take(i as int));
        if let Some(b) = num.parse_num(levels[i].as_str()) {
            if is_finite(b) {
                seen.insert(unify(b));
            }
        }
        i = i + 1;
    }
    assert(texts(levels@).take(levels@.len() as int) =~= texts(levels@));
    seen.len() as u64
}

/// The first levels, as many as go on the wire.
pub open spec fn wire_levels(levels: Seq<Seq<char>>) -> Seq<Seq<char>> {
    if levels.len() > WIRE_LEVELS_CAP {
        levels.take(WIRE_LEVELS_CAP as int)
    } else {
        levels
    }
}

/// What a frontend is told of a column.
pub open spec fn column_json(
    field: FieldV,
    levels: Seq<Seq<char>>,
    cells: Seq<Cell>,
    num: NumeralsV,
) -> JsonV {
    let level = field.level()->0;
    let head = Map::<Seq<char>, JsonV>::empty().insert("name"@, JsonV::Str(field.name)).insert(
        "display_name"@,
        JsonV::Str(field.display),
    ).insert("type"@, JsonV::Str(level_text(level)));
    if level is Scale {
        JsonV::Object(
            head.insert("all_integer"@, JsonV::Bool(only_integers(cells))).insert(
                "value_count"@,
                JsonV::Number(value_count(cells) as u64),
            ).insert("distinct_count"@, JsonV::Number(distinct_numbers(cells) as u64)),
        )
    } else {
        let body = head.insert("levels"@, text_array(wire_levels(levels))).insert(
            "value_count"@,
            JsonV::Number(value_count(cells) as u64),
        ).insert("distinct_count"@, JsonV::Number(levels.to_set().len() as u64)).insert(
            "numeric_levels"@,
            JsonV::Number(level_numbers(levels, num).len() as u64),
        );
        JsonV::Object(
            if field.labels =~= Map::empty() {
                body
            } else {
                body.insert("labels"@, label_object(field.labels))
            },
        )
    }
}

/// What a frontend is told of the columns of a plan.
pub open spec fn schema_json(plan: Seq<OutColV>, cols: Seq<Seq<Cell>>, num: NumeralsV) -> JsonV {
    JsonV::Array(
        Seq::new(
            plan.len(),
            |c: int| column_json(plan[c].field, plan[c].levels, cols[c], num),
        ),
    )
}

/// The object of a list of labels.
pub fn labels_json(v: &Vec<(String, String)>) -> (r: Json)
    ensures
        r@ == label_object(label_map(v@)),
{
    let mut out = no_members();
    let mut i: usize = 0;
    assert(v@.take(0) =~= Seq::empty());
    assert(members(out@) =~= label_object(label_map(v@.take(0)))->Object_0);
    while i < v.len()
        invariant
            i <= v.len(),
            members(out@) =~= label_object(label_map(v@.take(i as int)))->Object_0,
        decreases v.len() - i,
    {
        assert(v@.take(i + 1).drop_last() =~= v@.take(i as int));
        put(&mut out, v[i].0.as_str(), Json::Str(v[i].1.clone()));
        i = i + 1;
    }
    assert(v@.take(v@.len() as int) =~= v@);
    json_object(out)
}

/// Labels that list something are not empty.
pub proof fn lemma_label_map_empty(v: Seq<(String, String)>)
    ensures
        label_map(v) =~= Map::empty() <==> v.len() == 0,
{
    if v.len() > 0 {
        assert(label_map(v).contains_key(v.last().0@));
    }
}

/// The number of distinct levels.
fn count_levels(levels: &Vec<String>) -> (r: u64)
    ensures
        r == texts(levels@).to_set().len(),
{
    let index = build_index(levels);
    let ghost s = texts(levels@);
    assert(index@.dom() =~= s.to_set()) by {
        assert forall|t: Seq<char>| #[trigger] index@.dom().contains(t) <==> s.to_set().contains(
            t,
        ) by {
            lemma_index_of(s, t);
            assert(index@.contains_key(t) || !index@.contains_key(t));
        }
    }
    index.len() as u64
}

/// Tells what a frontend is told of a column.
pub fn column_info_json(
    field: &Field,
    levels: &Vec<String>,
    cells: &Vec<Cell>,
    num: &Numerals,
) -> (r: Json)
    requires
        field@.level() is Some,
    ensures
        r@ == column_json(field@, texts(levels@), cells@, num@),
{
    let mut stats = ScaleStats::new();
    let mut i: usize = 0;
    assert(cells@.take(0) =~= Seq::empty());
    while i < cells.len()
        invariant
            i <= cells.len(),
            stats.of(cells@.take(i as int)),
            stats.count <= i,
        decreases cells.len() - i,
    {
        assert(cells@.take(i + 1) =~= cells@.take(i as int).push(cells@[i as int]));
        let ghost before = stats;
        stats.observe(cells[i]);
        assert(before.of(cells@.take(i as int)));
        assert(stats.of(cells@.take(i as int).push(cells@[i as int])));
        assert(stats.count <= i + 1) by {
            lemma_value_count(cells@.take(i + 1));
        }
        i = i + 1;
    }
    assert(cells@.take(cells@.len() as int) =~= cells@);
    let distinct = stats.distinct();
    assert(stats.of(cells@));
    let level = match field.level() {
        Some(l) => l,
        None => Level::Scale,
    };
    let mut out = no_members();
    put(&mut out, "name", Json::Str(field.name.clone()));
    put(&mut out, "display_name", Json::Str(field.display_name.clone()));
    put(&mut out, "type", json_text(level.as_str()));
    if level.is_scale() {
        put(&mut out, "all_integer", Json::Bool(stats.only_ints));
        put(&mut out, "value_count", json_number(stats.count));
        put(&mut out, "distinct_count", json_number(distinct));
        json_object(out)
    } else {
        let shown = first_levels(levels);
        put(&mut out, "levels", json_texts(&shown));
        put(&mut out, "value_count", json_number(stats.count));
        put(&mut out, "distinct_count", json_number(count_levels(levels)));
        put(&mut out, "numeric_levels", json_number(numeric_levels_of(levels, num)));
        proof {
            lemma_label_map_empty(field.labels@);
        }
        if field.labels.len() > 0 {
            put(&mut out, "labels", labels_json(&field.labels));
        }
        json_object(out)
    }
}

proof fn lemma_value_count(cells: Seq<Cell>)
    ensures
        value_count(cells) <= cells.len(),
    decreases cells.len(),
{
    if cells.len() > 0 {
        lemma_value_count(cells.drop_last());
    }
}

/// The first levels, as many as go on the wire.
fn first_levels(levels: &Vec<String>) -> (r: Vec<String>)
    ensures
        texts(r@) == wire_levels(texts(levels@)),
{
    let mut r: Vec<String> = Vec::new();
    let mut i: usize = 0;
    let n: usize = if levels.len() > WIRE_LEVELS_CAP {
        WIRE_LEVELS_CAP
    } else {
        levels.len()
    };
    while i < n
        invariant
            i <= n <= levels.len(),
            r@.len() == i,
            texts(r@) =~= texts(levels@).take(i as int),
        decreases n - i,
    {
        r.push(levels[i].clone());
        i = i + 1;
    }
    assert(texts(r@) =~= wire_levels(texts(levels@)));
    r
}

/// Tells what a frontend is told of the columns of a plan, from the rewritten dataset.
pub fn wire_schema(plan: &Vec<OutCol>, ds: &Dataset, num: &Numerals) -> (r: Json)
    requires
        ds.wf(),
        ds.fields@.len() == plan@.len(),
        forall|c: int| 0 <= c < plan@.len() ==> (#[trigger] plan@[c])@.field.level() is Some,
    ensures
        r@ == schema_json(plan_views(plan@), ds.table().cols, num@),
{
    let mut out: Vec<Json> = Vec::new();
    let mut c: usize = 0;
    let ghost goal = schema_json(plan_views(plan@), ds.table().cols, num@)->Array_0;
    while c < plan.len()
        invariant
            c <= plan.len(),
            ds.wf(),
            ds.fields@.len() == plan@.len(),
            out@.len() == c,
            goal == schema_json(plan_views(plan@), ds.table().cols, num@)->Array_0,
            forall|c: int| 0 <= c < plan@.len() ==> (#[trigger] plan@[c])@.field.level() is Some,
            items(out@) =~= goal.take(c as int),
        decreases plan.len() - c,
    {
        let cells = ds.column(c);
        assert(plan@[c as int]@.field.level() is Some);
        let j = column_info_json(&plan[c].field, &plan[c].levels, &cells, num);
        assert(j@ == goal[c as int]);
        out.push(j);
        c = c + 1;
    }
    assert(items(out@) =~= goal);
    json_array(out)
}

} // verus!
