//! Dictionaries of levels: how they are collected, sorted, extended and searched.
use indexmap::IndexSet;
use vstd::hash_map::StringHashMap;
use vstd::prelude::*;
use crate::engine::{build_index, indexes};
use crate::number::{number_below, order_key, Numerals, NumeralsV};
use crate::text::{clone_texts, index_of, texts};

verus! {

#[verifier::external_type_specification]
#[verifier::external_body]
#[verifier::reject_recursive_types(T)]
#[verifier::reject_recursive_types(S)]
pub struct ExIndexSet<T, S>(indexmap::IndexSet<T, S>);

/// What an index set holds, in the order of insertion.
pub uninterp spec fn set_texts(s: IndexSet<String>) -> Seq<Seq<char>>;

/// `IndexSet::new`: an empty set.
#[verifier::external_body]
fn set_new() -> (r: IndexSet<String>)
    ensures
        set_texts(r) == Seq::<Seq<char>>::empty(),
{
    IndexSet::new()
}

/// `IndexSet::insert`: a text that is not in the set goes to its end; one that is changes
/// nothing.
#[verifier::external_body]
fn set_insert(s: &mut IndexSet<String>, t: String)
    ensures
        set_texts(*final(s)) == if set_texts(*old(s)).contains(t@) {
            set_texts(*old(s))
        } else {
            set_texts(*old(s)).push(t@)
        },
{
    s.insert(t);
}

/// `IndexSet::into_iter`: the texts in the order of insertion.
#[verifier::external_body]
fn set_list(s: IndexSet<String>) -> (r: Vec<String>)
    ensures
        texts(r@) == set_texts(s),
{
    s.into_iter().collect()
}

/// The texts without repeats, in the order of first appearance.
pub open spec fn deduped(s: Seq<Seq<char>>) -> Seq<Seq<char>>
    decreases s.len(),
{
    if s.len() == 0 {
        Seq::empty()
    } else {
        let p = deduped(s.drop_last());
        if p.contains(s.last()) {
            p
        } else {
            p.push(s.last())
        }
    }
}

/// Drops repeats, keeping first appearances in order.
pub fn dedup_texts(v: &Vec<String>) -> (r: Vec<String>)
    ensures
        texts(r@) == deduped(texts(v@)),
{
    let mut s = set_new();
    let mut i: usize = 0;
    assert(texts(v@).take(0) =~= Seq::empty());
    while i < v.len()
        invariant
            i <= v.len(),
            set_texts(s) == deduped(texts(v@).take(i as int)),
        decreases v.len() - i,
    {
        assert(texts(v@).take(i + 1).drop_last() =~= texts(v@).take(i as int));
        set_insert(&mut s, v[i].clone());
        i = i + 1;
    }
    assert(texts(v@).take(v@.len() as int) =~= texts(v@));
    set_list(s)
}

/// Dropping repeats leaves a distinct list of the same texts.
pub proof fn lemma_deduped(s: Seq<Seq<char>>)
    ensures
        crate::text::distinct(deduped(s)),
        forall|t: Seq<char>| #[trigger] deduped(s).contains(t) <==> s.contains(t),
        deduped(s).len() <= s.len(),
    decreases s.len(),
{
    if s.len() > 0 {
        let p = s.drop_last();
        lemma_deduped(p);
        let q = deduped(s);
        let d = deduped(p);
        if !d.contains(s.last()) {
            assert forall|i: int, k: int| 0 <= i < k < q.len() implies q[i] != q[k] by {
                if k < d.len() {
                    assert(d[i] != d[k]);
                } else {
                    assert(d[i] == q[i]);
                    assert(d.contains(d[i]));
                }
            }
        }
        assert forall|t: Seq<char>| #[trigger] q.contains(t) <==> s.contains(t) by {
            if q.contains(t) {
                let i = q.index_of(t);
                if i < d.len() {
                    assert(d[i] == t);
                    assert(d.contains(t));
                    assert(p.contains(t));
                    let k = p.index_of(t);
                    assert(s[k] == t);
                } else {
                    assert(s[s.len() - 1] == t);
                }
            }
            if s.contains(t) {
                let k = s.index_of(t);
                if k < p.len() {
                    assert(p[k] == t);
                    assert(p.contains(t));
                    assert(d.contains(t));
                    let i = d.index_of(t);
                    assert(q[i] == t);
                } else {
                    if d.contains(t) {
                        let i = d.index_of(t);
                        assert(q[i] == t);
                    } else {
                        assert(q[q.len() - 1] == t);
                    }
                }
            }
        }
    }
}

/// The order of texts: character by character, by code point.
pub open spec fn text_less(a: Seq<char>, b: Seq<char>) -> bool
    decreases a.len(),
{
    if b.len() == 0 {
        false
    } else if a.len() == 0 {
        true
    } else if a[0] != b[0] {
        a[0] < b[0]
    } else {
        text_less(a.drop_first(), b.drop_first())
    }
}

/// The `<` of `str`: strings order by their characters' code points, the first difference
/// deciding, a prefix before what it starts.
#[verifier::external_body]
pub(crate) fn text_below(a: &String, b: &String) -> (r: bool)
    ensures
        r == text_less(a@, b@),
{
    a.as_str() < b.as_str()
}

/// Whether every level stands for a number.
pub open spec fn all_numbers(s: Seq<Seq<char>>, num: NumeralsV) -> bool {
    forall|i: int| 0 <= i < s.len() ==> num.parse(#[trigger] s[i]) is Some
}

/// The order that sorts a dictionary: by value where every level is a number, ties and all
/// others by text.
pub open spec fn level_less(num: NumeralsV, numeric: bool, a: Seq<char>, b: Seq<char>) -> bool {
    if numeric && order_key(num.parse(a)->0) != order_key(num.parse(b)->0) {
        order_key(num.parse(a)->0) < order_key(num.parse(b)->0)
    } else {
        text_less(a, b)
    }
}

/// How many levels of a sorted list come before `t`.
pub open spec fn rank(num: NumeralsV, numeric: bool, s: Seq<Seq<char>>, t: Seq<char>) -> nat
    decreases s.len(),
{
    if s.len() == 0 {
        0
    } else if level_less(num, numeric, t, s.last()) {
        rank(num, numeric, s.drop_last(), t)
    } else {
        s.len()
    }
}

/// The list sorted: each level is put behind the last one that is not above it.
pub open spec fn sorted(num: NumeralsV, numeric: bool, s: Seq<Seq<char>>) -> Seq<Seq<char>>
    decreases s.len(),
{
    if s.len() == 0 {
        Seq::empty()
    } else {
        let p = sorted(num, numeric, s.drop_last());
        p.insert(rank(num, numeric, p, s.last()) as int, s.last())
    }
}

/// The dictionary of a set of levels: sorted where it has at most `sort_limit` levels, else
/// in the given order.
pub open spec fn prebuilt(s: Seq<Seq<char>>, num: NumeralsV, sort_limit: nat) -> Seq<Seq<char>> {
    if s.len() <= sort_limit {
        sorted(num, all_numbers(s, num), s)
    } else {
        s
    }
}

proof fn lemma_rank(num: NumeralsV, numeric: bool, s: Seq<Seq<char>>, t: Seq<char>)
    ensures
        rank(num, numeric, s, t) <= s.len(),
    decreases s.len(),
{
    if s.len() > 0 {
        lemma_rank(num, numeric, s.drop_last(), t);
    }
}

/// Sorting keeps the levels.
pub proof fn lemma_sorted(num: NumeralsV, numeric: bool, s: Seq<Seq<char>>)
    ensures
        sorted(num, numeric, s).len() == s.len(),
        sorted(num, numeric, s).to_multiset() =~= s.to_multiset(),
        forall|t: Seq<char>| #[trigger] sorted(num, numeric, s).contains(t) <==> s.contains(t),
        crate::text::distinct(s) ==> crate::text::distinct(sorted(num, numeric, s)),
    decreases s.len(),
{
    broadcast use vstd::seq_lib::group_to_multiset_ensures;

    if s.len() > 0 {
        let d = s.drop_last();
        lemma_sorted(num, numeric, d);
        let p = sorted(num, numeric, d);
        let x = s.last();
        let r = rank(num, numeric, p, x) as int;
        lemma_rank(num, numeric, p, x);
        let q = p.insert(r, x);
        assert(s =~= d.push(x));
        assert(q.to_multiset() =~= p.to_multiset().insert(x));
        assert forall|t: Seq<char>| #[trigger] q.contains(t) <==> s.contains(t) by {
            if q.contains(t) {
                let i = q.index_of(t);
                if i == r {
                    assert(s[s.len() - 1] == t);
                } else {
                    let m = if i < r { i } else { i - 1 };
                    assert(p[m] == t);
                    assert(p.contains(t));
                    assert(d.contains(t));
                    let k = d.index_of(t);
                    assert(s[k] == t);
                }
            }
            if s.contains(t) {
                let k = s.index_of(t);
                if k < d.len() {
                    assert(d[k] == t);
                    assert(d.contains(t));
                    assert(p.contains(t));
                    let i = p.index_of(t);
                    if i < r {
                        assert(q[i] == t);
                    } else {
                        assert(q[i + 1] == t);
                    }
                } else {
                    assert(q[r] == t);
                }
            }
        }
        if crate::text::distinct(s) {
            assert forall|i: int, k: int| 0 <= i < k < d.len() implies d[i] != d[k] by {
                assert(s[i] != s[k]);
            }
            assert(!p.contains(x)) by {
                if p.contains(x) {
                    assert(d.contains(x));
                    let k = d.index_of(x);
                    assert(s[k] != s[s.len() - 1]);
                }
            }
            assert forall|i: int, k: int| 0 <= i < k < q.len() implies q[i] != q[k] by {
                let ii = if i < r { i } else { i - 1 };
                let kk = if k < r { k } else { k - 1 };
                if i == r {
                    assert(p[kk] == q[k]);
                    assert(p.contains(p[kk]));
                } else if k == r {
                    assert(p[ii] == q[i]);
                    assert(p.contains(p[ii]));
                } else {
                    assert(p[ii] != p[kk]);
                }
            }
        }
    }
}

/// Building a dictionary keeps the levels.
pub proof fn lemma_prebuilt(s: Seq<Seq<char>>, num: NumeralsV, sort_limit: nat)
    ensures
        prebuilt(s, num, sort_limit).len() == s.len(),
        forall|t: Seq<char>|
            #[trigger] prebuilt(s, num, sort_limit).contains(t) <==> s.contains(t),
        crate::text::distinct(s) ==> crate::text::distinct(prebuilt(s, num, sort_limit)),
{
    lemma_sorted(num, all_numbers(s, num), s);
}

/// Whether the first level comes before the second.
fn level_below(num: &Numerals, numeric: bool, a: &String, b: &String) -> (r: bool)
    requires
        numeric ==> num@.parse(a@) is Some && num@.parse(b@) is Some,
    ensures
        r == level_less(num@, numeric, a@, b@),
{
    if numeric {
        if let (Some(x), Some(y)) = (num.parse_num(a.as_str()), num.parse_num(b.as_str())) {
            if number_below(x, y) {
                return true;
            }
            if number_below(y, x) {
                return false;
            }
        }
    }
    text_below(a, b)
}

/// Sorts a list of levels.
fn sort_levels(v: &Vec<String>, num: &Numerals, numeric: bool) -> (r: Vec<String>)
    requires
        numeric ==> all_numbers(texts(v@), num@),
    ensures
        texts(r@) == sorted(num@, numeric, texts(v@)),
{
    let mut r: Vec<String> = Vec::new();
    let mut i: usize = 0;
    assert(texts(v@).take(0) =~= Seq::empty());
    assert(texts(r@) =~= Seq::empty());
    while i < v.len()
        invariant
            i <= v.len(),
            r@.len() == i,
            numeric ==> all_numbers(texts(v@), num@),
            texts(r@) == sorted(num@, numeric, texts(v@).take(i as int)),
        decreases v.len() - i,
    {
        let ghost part = texts(v@).take(i as int);
        let ghost p = texts(r@);
        assert(texts(v@).take(i + 1).drop_last() =~= part);
        proof {
            lemma_sorted(num@, numeric, part);
        }
        let mut k: usize = r.len();
        assert(p.take(p.len() as int) =~= p);
        let mut found = false;
        while k > 0 && !found
            invariant
                i < v.len(),
                k <= r.len(),
                p == texts(r@),
                part == texts(v@).take(i as int),
                numeric ==> all_numbers(texts(v@), num@),
                forall|t: Seq<char>| #[trigger] p.contains(t) <==> part.contains(t),
                rank(num@, numeric, p, v@[i as int]@) == rank(
                    num@,
                    numeric,
                    p.take(k as int),
                    v@[i as int]@,
                ),
                found ==> k > 0 && !level_less(num@, numeric, v@[i as int]@, p[k - 1]),
            decreases
                k,
                if found {
                    0int
                } else {
                    1int
                },
        {
            proof {
                assert(p[k - 1] == r@[k - 1]@);
                assert(p.contains(p[k - 1]));
                assert(part.contains(p[k - 1]));
                let m = part.index_of(p[k - 1]);
                assert(numeric ==> num@.parse(texts(v@)[m]) is Some);
                assert(numeric ==> num@.parse(texts(v@)[i as int]) is Some);
                assert(p.take(k as int).drop_last() =~= p.take(k - 1));
            }
            if level_below(num, numeric, &v[i], &r[k - 1]) {
                k = k - 1;
            } else {
                found = true;
            }
        }
        assert(rank(num@, numeric, p, v@[i as int]@) == k);
        r.insert(k, v[i].clone());
        assert(texts(r@) =~= p.insert(k as int, v@[i as int]@));
        i = i + 1;
    }
    assert(texts(v@).take(v@.len() as int) =~= texts(v@));
    r
}

/// Whether every level stands for a number.
pub fn are_numbers(v: &Vec<String>, num: &Numerals) -> (r: bool)
    ensures
        r == all_numbers(texts(v@), num@),
{
    let mut i: usize = 0;
    while i < v.len()
        invariant
            i <= v.len(),
            forall|k: int| 0 <= k < i ==> num@.parse(#[trigger] texts(v@)[k]) is Some,
        decreases v.len() - i,
    {
        if num.parse_num(v[i].as_str()).is_none() {
            assert(num@.parse(texts(v@)[i as int]) is None);
            return false;
        }
        i = i + 1;
    }
    true
}

/// Builds the dictionary of a list of distinct levels.
pub fn prebuild_dict(v: &Vec<String>, num: &Numerals, sort_limit: usize) -> (r: Vec<String>)
    ensures
        texts(r@) == prebuilt(texts(v@), num@, sort_limit as nat),
{
    if v.len() <= sort_limit {
        sort_levels(v, num, are_numbers(v, num))
    } else {
        clone_texts(v)
    }
}

/// A dictionary with the positions of its levels.
pub struct CatDict {
    pub values: Vec<String>,
    pub index: StringHashMap<u64>,
}

impl CatDict {
    /// The index agrees with the levels.
    pub open spec fn wf(self) -> bool {
        indexes(self.index@, texts(self.values@))
    }

    /// The dictionary of a list of levels, as it stands.
    pub fn from_list(values: Vec<String>) -> (r: CatDict)
        ensures
            r.wf(),
            r.values == values,
    {
        let index = build_index(&values);
        CatDict { values, index }
    }

    /// The position of a level.
    pub fn lookup(&self, t: &str) -> (r: Option<u64>)
        requires
            self.wf(),
        ensures
            r == position(texts(self.values@), t@),
    {
        assert(self.index@.contains_key(t@) || !self.index@.contains_key(t@));
        match self.index.get(t) {
            Some(i) => Some(*i),
            None => None,
        }
    }
}

/// The position of a level as a cell.
pub open spec fn position(levels: Seq<Seq<char>>, t: Seq<char>) -> Option<u64> {
    match index_of(levels, t) {
        Some(i) => Some(i as u64),
        None => None,
    }
}

} // verus!
