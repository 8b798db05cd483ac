//! Pasted cells: what they read as, and the dictionaries they make.
use vstd::prelude::*;
use crate::levels::{
    all_numbers, are_numbers, dedup_texts, deduped, position, prebuild_dict, prebuilt, CatDict,
};
use crate::number::{integral, is_integral, Numerals, NumeralsV};
use crate::table::{Cell, Level};
use crate::text::{clone_texts, contains_text, index_of, lemma_index_of, texts};
use crate::wire::numbers;

verus! {

/// The text of a pasted cell; none for the null marker and for a null spelling.
pub open spec fn cell_reads(c: (Seq<char>, bool), nulls: Seq<Seq<char>>) -> Option<Seq<char>> {
    if c.1 || nulls.contains(c.0) {
        None
    } else {
        Some(c.0)
    }
}

/// The text of a pasted cell.
pub fn cell_text<'a>(cell: &'a (String, bool), nulls: &Vec<String>) -> (r: Option<&'a String>)
    ensures
        match (r, cell_reads((cell.0@, cell.1), texts(nulls@))) {
            (Some(a), Some(b)) => a@ == b,
            (None, None) => true,
            _ => false,
        },
{
    if cell.1 || contains_text(nulls, cell.0.as_str()) {
        None
    } else {
        Some(&cell.0)
    }
}

/// The texts of a pasted column, row by row.
pub open spec fn column_reads(
    cells: Seq<Seq<(Seq<char>, bool)>>,
    c: int,
    nulls: Seq<Seq<char>>,
) -> Seq<Option<Seq<char>>> {
    Seq::new(cells.len(), |r: int| cell_reads(cells[r][c], nulls))
}

/// The values of a list of optional strings.
pub open spec fn read_views(v: Seq<Option<String>>) -> Seq<Option<Seq<char>>> {
    Seq::new(v.len(), |i: int| crate::messages::opt_text(v[i]))
}

/// Reads a pasted column.
pub fn read_pasted(cells: &Vec<Vec<(String, bool)>>, c: usize, nulls: &Vec<String>) -> (r: Vec<
    Option<String>,
>)
    requires
        forall|i: int| 0 <= i < cells@.len() ==> c < (#[trigger] cells@[i])@.len(),
    ensures
        read_views(r@) == column_reads(
            Seq::new(cells@.len(), |i: int| crate::block::row_view(cells@[i]@)),
            c as int,
            texts(nulls@),
        ),
        r@.len() == cells@.len(),
{
    let mut out: Vec<Option<String>> = Vec::new();
    let mut i: usize = 0;
    let ghost goal = column_reads(
        Seq::new(cells@.len(), |i: int| crate::block::row_view(cells@[i]@)),
        c as int,
        texts(nulls@),
    );
    while i < cells.len()
        invariant
            i <= cells.len(),
            out@.len() == i,
            forall|i: int| 0 <= i < cells@.len() ==> c < (#[trigger] cells@[i])@.len(),
            goal == column_reads(
                Seq::new(cells@.len(), |i: int| crate::block::row_view(cells@[i]@)),
                c as int,
                texts(nulls@),
            ),
            read_views(out@) =~= goal.take(i as int),
        decreases cells.len() - i,
    {
        assert(c < cells@[i as int]@.len());
        let t = match cell_text(&cells[i][c], nulls) {
            Some(s) => Some(s.clone()),
            None => None,
        };
        assert(crate::messages::opt_text(t) == goal[i as int]);
        out.push(t);
        i = i + 1;
    }
    assert(read_views(out@) =~= goal);
    out
}

/// The texts among the reads, in order.
pub open spec fn somes(ts: Seq<Option<Seq<char>>>) -> Seq<Seq<char>>
    decreases ts.len(),
{
    if ts.len() == 0 {
        Seq::empty()
    } else {
        match ts.last() {
            Some(t) => somes(ts.drop_last()).push(t),
            None => somes(ts.drop_last()),
        }
    }
}

/// The texts among the reads.
pub fn collect_somes(ts: &Vec<Option<String>>) -> (r: Vec<String>)
    ensures
        texts(r@) == somes(read_views(ts@)),
{
    let mut out: Vec<String> = Vec::new();
    let mut i: usize = 0;
    let ghost all = read_views(ts@);
    assert(all.take(0) =~= Seq::empty());
    assert(texts(out@) =~= Seq::empty());
    while i < ts.len()
        invariant
            i <= ts.len(),
            all == read_views(ts@),
            texts(out@) == somes(all.take(i as int)),
        decreases ts.len() - i,
    {
        assert(all.take(i + 1).drop_last() =~= all.take(i as int));
        assert(all.take(i + 1).last() == crate::messages::opt_text(ts@[i as int]));
        if let Some(t) = &ts[i] {
            let ghost before = out@;
            out.push(t.clone());
            assert(texts(out@) =~= texts(before).push(t@));
        }
        i = i + 1;
    }
    assert(all.take(all.len() as int) =~= all);
    out
}

/// The numbers that the reads stand for.
pub open spec fn typed(ts: Seq<Option<Seq<char>>>, num: NumeralsV) -> Seq<Cell> {
    Seq::new(
        ts.len(),
        |r: int|
            match ts[r] {
                Some(t) => num.parse(t),
                None => None,
            },
    )
}

/// The numbers that the reads stand for.
pub fn type_cells(ts: &Vec<Option<String>>, num: &Numerals) -> (r: Vec<Cell>)
    ensures
        r@ == typed(read_views(ts@), num@),
{
    let mut out: Vec<Cell> = Vec::new();
    let mut i: usize = 0;
    let ghost all = read_views(ts@);
    while i < ts.len()
        invariant
            i <= ts.len(),
            all == read_views(ts@),
            out@ =~= typed(all, num@).take(i as int),
        decreases ts.len() - i,
    {
        assert(all[i as int] == crate::messages::opt_text(ts@[i as int]));
        let c: Cell = match &ts[i] {
            Some(t) => num.parse_num(t.as_str()),
            None => None,
        };
        assert(c == typed(all, num@)[i as int]);
        out.push(c);
        i = i + 1;
    }
    assert(out@ =~= typed(all, num@));
    out
}

/// The first text among the reads that stands for no number.
pub open spec fn first_unparsed(ts: Seq<Option<Seq<char>>>, num: NumeralsV) -> Option<Seq<char>>
    decreases ts.len(),
{
    if ts.len() == 0 {
        None
    } else {
        match first_unparsed(ts.drop_last(), num) {
            Some(t) => Some(t),
            None => match ts.last() {
                Some(t) => if num.parse(t) is None {
                    Some(t)
                } else {
                    None
                },
                None => None,
            },
        }
    }
}

proof fn lemma_unparsed_prefix(ts: Seq<Option<Seq<char>>>, num: NumeralsV, k: int)
    requires
        0 <= k <= ts.len(),
        first_unparsed(ts.take(k), num) is Some,
    ensures
        first_unparsed(ts, num) == first_unparsed(ts.take(k), num),
    decreases ts.len() - k,
{
    if k < ts.len() {
        assert(ts.take(k + 1).drop_last() =~= ts.take(k));
        lemma_unparsed_prefix(ts, num, k + 1);
    } else {
        assert(ts.take(k) =~= ts);
    }
}

/// Finds the first text that stands for no number.
pub fn find_unparsed(ts: &Vec<Option<String>>, num: &Numerals) -> (r: Option<String>)
    ensures
        crate::messages::opt_text(r) == first_unparsed(read_views(ts@), num@),
{
    let mut i: usize = 0;
    let ghost all = read_views(ts@);
    assert(all.take(0) =~= Seq::empty());
    while i < ts.len()
        invariant
            i <= ts.len(),
            all == read_views(ts@),
            first_unparsed(all.take(i as int), num@) is None,
        decreases ts.len() - i,
    {
        assert(all.take(i + 1).drop_last() =~= all.take(i as int));
        assert(all.take(i + 1).last() == crate::messages::opt_text(ts@[i as int]));
        if let Some(t) = &ts[i] {
            if num.parse_num(t.as_str()).is_none() {
                proof {
                    lemma_unparsed_prefix(all, num@, i + 1);
                }
                return Some(t.clone());
            }
        }
        i = i + 1;
    }
    assert(all.take(all.len() as int) =~= all);
    None
}

/// Whether every number among the cells is an integer.
pub fn are_integers(cells: &Vec<Cell>) -> (r: bool)
    ensures
        r == crate::wire::only_integers(cells@),
{
    let mut i: usize = 0;
    while i < cells.len()
        invariant
            i <= cells.len(),
            forall|k: int|
                0 <= k < i && cells@[k] is Some ==> integral(#[trigger] cells@[k]->0),
        decreases cells.len() - i,
    {
        if let Some(b) = cells[i] {
            if !is_integral(b) {
                assert(!integral(cells@[i as int]->0));
                return false;
            }
        }
        i = i + 1;
    }
    true
}

/// Whether some cell is not null.
pub fn has_values(cells: &Vec<Cell>) -> (r: bool)
    ensures
        r == (exists|k: int| 0 <= k < cells@.len() && (#[trigger] cells@[k]) is Some),
{
    let mut i: usize = 0;
    while i < cells.len()
        invariant
            i <= cells.len(),
            forall|k: int| 0 <= k < i ==> (#[trigger] cells@[k]) is None,
        decreases cells.len() - i,
    {
        if cells[i].is_some() {
            assert(cells@[i as int] is Some);
            return true;
        }
        i = i + 1;
    }
    false
}

/// The level that a text stands for, canonical or as it stands.
pub open spec fn level_key(canonical: bool, num: NumeralsV, t: Seq<char>) -> Seq<char> {
    if canonical {
        num.canon(t)
    } else {
        t
    }
}

/// The levels that texts stand for.
pub open spec fn level_keys(canonical: bool, num: NumeralsV, s: Seq<Seq<char>>) -> Seq<Seq<char>> {
    Seq::new(s.len(), |i: int| level_key(canonical, num, s[i]))
}

fn key_text(canonical: bool, num: &Numerals, t: &String) -> (r: String)
    ensures
        r@ == level_key(canonical, num@, t@),
{
    if canonical {
        num.canonicalize(t.as_str())
    } else {
        t.clone()
    }
}

fn key_texts(canonical: bool, num: &Numerals, v: &Vec<String>) -> (r: Vec<String>)
    ensures
        texts(r@) == level_keys(canonical, num@, texts(v@)),
{
    let mut out: Vec<String> = Vec::new();
    let mut i: usize = 0;
    let ghost goal = level_keys(canonical, num@, texts(v@));
    while i < v.len()
        invariant
            i <= v.len(),
            out@.len() == i,
            goal == level_keys(canonical, num@, texts(v@)),
            texts(out@) =~= goal.take(i as int),
        decreases v.len() - i,
    {
        out.push(key_text(canonical, num, &v[i]));
        i = i + 1;
    }
    assert(texts(out@) =~= goal);
    out
}

/// The positions of the reads' levels in a dictionary.
pub open spec fn positions(
    levels: Seq<Seq<char>>,
    canonical: bool,
    num: NumeralsV,
    ts: Seq<Option<Seq<char>>>,
) -> Seq<Cell> {
    Seq::new(
        ts.len(),
        |r: int|
            match ts[r] {
                Some(t) => position(levels, level_key(canonical, num, t)),
                None => None,
            },
    )
}

/// Looks the reads up in a dictionary.
pub fn look_up(dict: &CatDict, canonical: bool, num: &Numerals, ts: &Vec<Option<String>>) -> (r: Vec<
    Cell,
>)
    requires
        dict.wf(),
    ensures
        r@ == positions(texts(dict.values@), canonical, num@, read_views(ts@)),
{
    let mut out: Vec<Cell> = Vec::new();
    let mut i: usize = 0;
    let ghost all = read_views(ts@);
    let ghost goal = positions(texts(dict.values@), canonical, num@, all);
    while i < ts.len()
        invariant
            i <= ts.len(),
            dict.wf(),
            all == read_views(ts@),
            goal == positions(texts(dict.values@), canonical, num@, all),
            out@ =~= goal.take(i as int),
        decreases ts.len() - i,
    {
        assert(all[i as int] == crate::messages::opt_text(ts@[i as int]));
        let c: Cell = match &ts[i] {
            Some(t) => dict.lookup(key_text(canonical, num, t).as_str()),
            None => None,
        };
        assert(c == goal[i as int]);
        out.push(c);
        i = i + 1;
    }
    assert(out@ =~= goal);
    out
}

/// The first read that a declared list of levels lacks.
pub open spec fn first_undeclared(
    levels: Seq<Seq<char>>,
    ts: Seq<Option<Seq<char>>>,
) -> Option<Seq<char>>
    decreases ts.len(),
{
    if ts.len() == 0 {
        None
    } else {
        match first_undeclared(levels, ts.drop_last()) {
            Some(t) => Some(t),
            None => match ts.last() {
                Some(t) => if levels.contains(t) {
                    None
                } else {
                    Some(t)
                },
                None => None,
            },
        }
    }
}

proof fn lemma_undeclared_prefix(levels: Seq<Seq<char>>, ts: Seq<Option<Seq<char>>>, k: int)
    requires
        0 <= k <= ts.len(),
        first_undeclared(levels, ts.take(k)) is Some,
    ensures
        first_undeclared(levels, ts) == first_undeclared(levels, ts.take(k)),
    decreases ts.len() - k,
{
    if k < ts.len() {
        assert(ts.take(k + 1).drop_last() =~= ts.take(k));
        lemma_undeclared_prefix(levels, ts, k + 1);
    } else {
        assert(ts.take(k) =~= ts);
    }
}

/// Finds the first read that a declared list of levels lacks.
pub fn find_undeclared(dict: &CatDict, ts: &Vec<Option<String>>) -> (r: Option<String>)
    requires
        dict.wf(),
    ensures
        crate::messages::opt_text(r) == first_undeclared(
            texts(dict.values@),
            read_views(ts@),
        ),
{
    let mut i: usize = 0;
    let ghost all = read_views(ts@);
    let ghost levels = texts(dict.values@);
    assert(all.take(0) =~= Seq::empty());
    while i < ts.len()
        invariant
            i <= ts.len(),
            dict.wf(),
            all == read_views(ts@),
            levels == texts(dict.values@),
            first_undeclared(levels, all.take(i as int)) is None,
        decreases ts.len() - i,
    {
        assert(all.take(i + 1).drop_last() =~= all.take(i as int));
        assert(all.take(i + 1).last() == crate::messages::opt_text(ts@[i as int]));
        if let Some(t) = &ts[i] {
            proof {
                lemma_index_of(levels, t@);
            }
            if dict.lookup(t.as_str()).is_none() {
                proof {
                    lemma_undeclared_prefix(levels, all, i + 1);
                }
                return Some(t.clone());
            }
        }
        i = i + 1;
    }
    assert(all.take(all.len() as int) =~= all);
    None
}

/// A dictionary with levels it lacks appended in order of first appearance.
pub open spec fn extended(levels: Seq<Seq<char>>, keys: Seq<Seq<char>>) -> Seq<Seq<char>>
    decreases keys.len(),
{
    if keys.len() == 0 {
        levels
    } else {
        let p = extended(levels, keys.drop_last());
        if p.contains(keys.last()) {
            p
        } else {
            p.push(keys.last())
        }
    }
}

/// Extending keeps the old levels in place.
pub proof fn lemma_extended(levels: Seq<Seq<char>>, keys: Seq<Seq<char>>)
    ensures
        extended(levels, keys).len() >= levels.len(),
        extended(levels, keys).take(levels.len() as int) =~= levels,
        forall|i: int| 0 <= i < keys.len() ==> extended(levels, keys).contains(#[trigger] keys[i]),
        crate::text::distinct(levels) ==> crate::text::distinct(extended(levels, keys)),
    decreases keys.len(),
{
    if keys.len() > 0 {
        let d = keys.drop_last();
        lemma_extended(levels, d);
        let p = extended(levels, d);
        let q = extended(levels, keys);
        assert forall|i: int| 0 <= i < keys.len() implies q.contains(#[trigger] keys[i]) by {
            if i < d.len() {
                assert(d[i] == keys[i]);
                assert(p.contains(d[i]));
                let k = p.index_of(d[i]);
                assert(q[k] == keys[i]);
            } else if !p.contains(keys.last()) {
                assert(q[q.len() - 1] == keys[i]);
            }
        }
        if crate::text::distinct(levels) && !p.contains(keys.last()) {
            assert forall|i: int, k: int| 0 <= i < k < q.len() implies q[i] != q[k] by {
                if k < p.len() {
                    assert(p[i] != p[k]);
                } else {
                    assert(p[i] == q[i]);
                    assert(p.contains(p[i]));
                }
            }
        }
        assert(q.take(levels.len() as int) =~= p.take(levels.len() as int));
    }
}

/// Appends the levels that a dictionary lacks.
pub fn append_levels(levels: &Vec<String>, keys: &Vec<String>) -> (r: Vec<String>)
    ensures
        texts(r@) == extended(texts(levels@), texts(keys@)),
{
    let mut r = clone_texts(levels);
    assert(texts(r@) =~= texts(levels@));
    let mut index = crate::engine::build_index(levels);
    let mut i: usize = 0;
    let ghost base = texts(levels@);
    let ghost all = texts(keys@);
    assert(all.take(0) =~= Seq::empty());
    assert forall|t: Seq<char>| #[trigger] index@.contains_key(t) <==> texts(r@).contains(t) by {
        lemma_index_of(base, t);
    }
    while i < keys.len()
        invariant
            i <= keys.len(),
            base == texts(levels@),
            all == texts(keys@),
            texts(r@) == extended(base, all.take(i as int)),
            forall|t: Seq<char>| #[trigger] index@.contains_key(t) <==> texts(r@).contains(t),
        decreases keys.len() - i,
    {
        assert(all.take(i + 1).drop_last() =~= all.take(i as int));
        assert(all.take(i + 1).last() == keys@[i as int]@);
        let ghost p = texts(r@);
        if !index.contains_key(keys[i].as_str()) {
            let ghost before = index@;
            index.insert(keys[i].clone(), 0);
            let ghost prior = r@;
            r.push(keys[i].clone());
            assert(texts(r@) =~= p.push(keys@[i as int]@));
            assert forall|t: Seq<char>| #[trigger] index@.contains_key(t) <==> texts(r@).contains(
                t,
            ) by {
                assert(before.contains_key(t) <==> p.contains(t));
                if p.contains(t) {
                    let k = p.index_of(t);
                    assert(texts(r@)[k] == t);
                }
                if texts(r@).contains(t) {
                    let k = texts(r@).index_of(t);
                    if k < p.len() {
                        assert(p[k] == t);
                    }
                }
                assert(texts(r@)[p.len() as int] == keys@[i as int]@);
            }
        } else {
            assert(p.contains(keys@[i as int]@));
        }
        i = i + 1;
    }
    assert(all.take(all.len() as int) =~= all);
    r
}

/// What pasted texts make of a column without a declared type.
#[verifier::ext_equal]
pub struct DerivedV {
    pub level: Level,
    pub integers: bool,
    pub levels: Seq<Seq<char>>,
    pub keys: Seq<Cell>,
}

/// The level that texts decide: no text and texts that are no numbers are nominal, numbers
/// are a scale, and integers with few distinct values are ordinal.
pub open spec fn decided(ts: Seq<Option<Seq<char>>>, num: NumeralsV, threshold: nat) -> Level {
    let cells = typed(ts, num);
    if somes(ts).len() == 0 || first_unparsed(ts, num) is Some {
        Level::Nominal
    } else if crate::wire::only_integers(cells) && numbers(cells).len() <= threshold {
        Level::Ordinal
    } else {
        Level::Scale
    }
}

/// What pasted texts make of a column: its level, and the dictionary of their levels,
/// canonical where the locale is active and all are numbers.
pub open spec fn derived(
    ts: Seq<Option<Seq<char>>>,
    num: NumeralsV,
    threshold: nat,
    sort_limit: nat,
) -> DerivedV {
    let canonical = num.active && first_unparsed(ts, num) is None;
    let levels = prebuilt(deduped(level_keys(canonical, num, somes(ts))), num, sort_limit);
    DerivedV {
        level: decided(ts, num, threshold),
        integers: crate::wire::only_integers(typed(ts, num)),
        levels,
        keys: positions(levels, canonical, num, ts),
    }
}

/// What pasted texts make of a column.
pub struct Derived {
    pub level: Level,
    pub integers: bool,
    pub levels: Vec<String>,
    pub keys: Vec<Cell>,
}

impl View for Derived {
    type V = DerivedV;

    open spec fn view(&self) -> DerivedV {
        DerivedV {
            level: self.level,
            integers: self.integers,
            levels: texts(self.levels@),
            keys: self.keys@,
        }
    }
}

/// How many distinct finite numbers there are among cells.
fn count_numbers(cells: &Vec<Cell>) -> (r: u64)
    ensures
        r == numbers(cells@).len(),
{
    broadcast use vstd::std_specs::hash::group_hash_axioms;

    let mut seen: std::collections::HashSet<u64> = std::collections::HashSet::new();
    let mut i: usize = 0;
    assert(cells@.take(0) =~= Seq::empty());
    while i < cells.len()
        invariant
            i <= cells.len(),
            seen@ == numbers(cells@.take(i as int)),
        decreases cells.len() - i,
    {
        assert(cells@.take(i + 1).drop_last() =~= cells@.take(i as int));
        if let Some(b) = cells[i] {
            if crate::number::is_finite(b) {
                seen.insert(crate::number::unify(b));
            }
        }
        i = i + 1;
    }
    assert(cells@.take(cells@.len() as int) =~= cells@);
    seen.len() as u64
}

/// Derives what pasted texts make of a column.
pub fn derive_dict(
    ts: &Vec<Option<String>>,
    num: &Numerals,
    threshold: usize,
    sort_limit: usize,
) -> (r: Derived)
    ensures
        r@ == derived(read_views(ts@), num@, threshold as nat, sort_limit as nat),
{
    let cells = type_cells(ts, num);
    let integers = are_integers(&cells);
    let numeric = find_unparsed(ts, num).is_none();
    let words = collect_somes(ts);
    assert(texts(words@).len() == words@.len());
    let level = if words.len() == 0 || !numeric {
        Level::Nominal
    } else if integers && count_numbers(&cells) <= threshold as u64 {
        Level::Ordinal
    } else {
        Level::Scale
    };
    let canonical = num.is_active() && numeric;
    let keyed = key_texts(canonical, num, &words);
    let set = dedup_texts(&keyed);
    let dict = CatDict::from_list(prebuild_dict(&set, num, sort_limit));
    let keys = look_up(&dict, canonical, num, ts);
    let r = Derived { level, integers, levels: dict.values, keys };
    assert(r@.keys =~= derived(read_views(ts@), num@, threshold as nat, sort_limit as nat).keys);
    r
}

/// Whether a dictionary holds canonical numbers, so that pasted texts are made canonical.
pub open spec fn canonical_dict(levels: Seq<Seq<char>>, num: NumeralsV) -> bool {
    num.active && levels.len() > 0 && all_numbers(levels, num)
}

/// What pasted texts make of a categorical column that takes them: the dictionary with new
/// levels appended, and the positions.
pub open spec fn absorbed_levels(
    levels: Seq<Seq<char>>,
    num: NumeralsV,
    ts: Seq<Option<Seq<char>>>,
) -> Seq<Seq<char>> {
    extended(levels, level_keys(canonical_dict(levels, num), num, somes(ts)))
}

/// The positions of pasted texts in the dictionary of a column that takes them.
pub open spec fn absorbed_keys(
    levels: Seq<Seq<char>>,
    num: NumeralsV,
    ts: Seq<Option<Seq<char>>>,
) -> Seq<Cell> {
    positions(absorbed_levels(levels, num, ts), canonical_dict(levels, num), num, ts)
}

/// Takes pasted texts into a categorical column.
pub fn absorb(levels: &Vec<String>, num: &Numerals, ts: &Vec<Option<String>>) -> (r: (
    Vec<String>,
    Vec<Cell>,
))
    ensures
        texts(r.0@) == absorbed_levels(texts(levels@), num@, read_views(ts@)),
        r.1@ == absorbed_keys(texts(levels@), num@, read_views(ts@)),
{
    let canonical = num.is_active() && levels.len() > 0 && are_numbers(levels, num);
    let words = collect_somes(ts);
    let keyed = key_texts(canonical, num, &words);
    let dict = CatDict::from_list(append_levels(levels, &keyed));
    let keys = look_up(&dict, canonical, num, ts);
    (dict.values, keys)
}

/// What old positions become under another dictionary: the level's position there.
pub open spec fn key_map(old_levels: Seq<Seq<char>>, new_levels: Seq<Seq<char>>) -> Seq<Cell> {
    Seq::new(old_levels.len(), |i: int| position(new_levels, old_levels[i]))
}

/// Maps old positions into another dictionary.
pub fn map_keys(old_levels: &Vec<String>, dict: &CatDict) -> (r: Vec<Cell>)
    requires
        dict.wf(),
    ensures
        r@ == key_map(texts(old_levels@), texts(dict.values@)),
{
    let mut out: Vec<Cell> = Vec::new();
    let mut i: usize = 0;
    let ghost goal = key_map(texts(old_levels@), texts(dict.values@));
    while i < old_levels.len()
        invariant
            i <= old_levels.len(),
            dict.wf(),
            goal == key_map(texts(old_levels@), texts(dict.values@)),
            out@ =~= goal.take(i as int),
        decreases old_levels.len() - i,
    {
        let c: Cell = dict.lookup(old_levels[i].as_str());
        assert(c == goal[i as int]);
        out.push(c);
        i = i + 1;
    }
    assert(out@ =~= goal);
    out
}

/// How the numbers of cells show, in order, without the nulls.
pub open spec fn shown(cells: Seq<Cell>, num: NumeralsV) -> Seq<Seq<char>>
    decreases cells.len(),
{
    if cells.len() == 0 {
        Seq::empty()
    } else {
        match cells.last() {
            Some(b) => shown(cells.drop_last(), num).push(num.show(b)),
            None => shown(cells.drop_last(), num),
        }
    }
}

/// Renders the numbers of cells, appending to a list.
pub fn show_cells(cells: &Vec<Cell>, num: &Numerals, out: &mut Vec<String>)
    ensures
        texts(final(out)@) == texts(old(out)@) + shown(cells@, num@),
{
    let mut i: usize = 0;
    let ghost base = texts(out@);
    assert(cells@.take(0) =~= Seq::empty());
    assert(texts(out@) =~= base + shown(cells@.take(0), num@));
    while i < cells.len()
        invariant
            i <= cells.len(),
            base == texts(old(out)@),
            texts(out@) == base + shown(cells@.take(i as int), num@),
        decreases cells.len() - i,
    {
        assert(cells@.take(i + 1).drop_last() =~= cells@.take(i as int));
        if let Some(b) = cells[i] {
            let ghost before = out@;
            out.push(num.render(b));
            assert(texts(out@) =~= texts(before).push(num@.show(b)));
            assert(texts(out@) =~= base + shown(cells@.take(i + 1), num@));
        }
        i = i + 1;
    }
    assert(cells@.take(cells@.len() as int) =~= cells@);
}

} // verus!
