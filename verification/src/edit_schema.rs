//! Changing the schema of a dataset: names, types, levels, labels and the order of columns.
use vstd::prelude::*;
use crate::json::{find_member, lemma_members_push, member, members, Json, JsonV};
use crate::levels::{text_below, text_less};
use crate::messages::{opt_text, EditFailure, FailureV};
use crate::table::label_map;
use crate::window::{
    list_member, mismatch, opt_texts, read_list, read_string, string_member, ListFault,
};
use crate::wording;

verus! {

/// One entry of a target schema. The name is the column's current one; what is left out is
/// kept. Empty labels take the labels off.
#[derive(Debug)]
pub struct ChangeEntry {
    pub name: String,
    pub display_name: Option<String>,
    pub column_type: Option<String>,
    pub levels: Option<Vec<String>>,
    pub labels: Option<Vec<(String, String)>>,
}

/// The mathematical value of a [`ChangeEntry`].
#[verifier::ext_equal]
pub struct ChangeEntryV {
    pub name: Seq<char>,
    pub display: Option<Seq<char>>,
    pub ty: Option<Seq<char>>,
    pub levels: Option<Seq<Seq<char>>>,
    pub labels: Option<Map<Seq<char>, Seq<char>>>,
}

/// The labels of an optional list.
pub open spec fn opt_labels(v: Option<Vec<(String, String)>>) -> Option<
    Map<Seq<char>, Seq<char>>,
> {
    match v {
        Some(l) => Some(label_map(l@)),
        None => None,
    }
}

impl View for ChangeEntry {
    type V = ChangeEntryV;

    open spec fn view(&self) -> ChangeEntryV {
        ChangeEntryV {
            name: self.name@,
            display: opt_text(self.display_name),
            ty: opt_text(self.column_type),
            levels: opt_texts(self.levels),
            labels: opt_labels(self.labels),
        }
    }
}

/// `k` comes first among the texts of a set.
pub open spec fn is_least(s: Set<Seq<char>>, k: Seq<char>) -> bool {
    s.contains(k) && forall|o: Seq<char>| #[trigger] s.contains(o) ==> o == k || text_less(k, o)
}

/// The text that comes first in a set.
pub open spec fn least(s: Set<Seq<char>>) -> Seq<char> {
    choose|k: Seq<char>| is_least(s, k)
}

/// No text comes before itself, and two texts come before each other in one way only.
pub proof fn lemma_less_asymmetric(a: Seq<char>, b: Seq<char>)
    ensures
        !(text_less(a, b) && text_less(b, a)),
    decreases a.len(),
{
    if a.len() > 0 && b.len() > 0 {
        lemma_less_asymmetric(a.drop_first(), b.drop_first());
    }
}

/// Of two different texts one comes first.
pub proof fn lemma_less_total(a: Seq<char>, b: Seq<char>)
    ensures
        a == b || text_less(a, b) || text_less(b, a),
    decreases a.len(),
{
    if a.len() > 0 && b.len() > 0 {
        lemma_less_total(a.drop_first(), b.drop_first());
        if a[0] == b[0] {
            if a.drop_first() == b.drop_first() {
                assert(a =~= seq![a[0]] + a.drop_first());
                assert(b =~= seq![b[0]] + b.drop_first());
            }
        }
    } else if a.len() == 0 && b.len() == 0 {
        assert(a =~= b);
    }
}

/// The order of texts carries over.
pub proof fn lemma_less_transitive(a: Seq<char>, b: Seq<char>, c: Seq<char>)
    requires
        text_less(a, b),
        text_less(b, c),
    ensures
        text_less(a, c),
    decreases a.len(),
{
    if a.len() > 0 && b.len() > 0 && c.len() > 0 {
        if a[0] == b[0] && b[0] == c[0] {
            lemma_less_transitive(a.drop_first(), b.drop_first(), c.drop_first());
        }
    }
}

/// Only one text comes first.
pub proof fn lemma_least(s: Set<Seq<char>>, k: Seq<char>)
    requires
        is_least(s, k),
    ensures
        least(s) == k,
{
    let m = least(s);
    assert(is_least(s, m));
    assert(s.contains(m) && s.contains(k));
    lemma_less_asymmetric(k, m);
}

/// The members of an object that are no strings.
pub open spec fn non_strings(o: Map<Seq<char>, JsonV>) -> Set<Seq<char>> {
    Set::new(|k: Seq<char>| o.contains_key(k) && !(o[k] is Str))
}

/// The labels that an object of strings gives.
pub open spec fn object_labels(o: Map<Seq<char>, JsonV>) -> Map<Seq<char>, Seq<char>> {
    Map::new(|k: Seq<char>| o.contains_key(k), |k: Seq<char>| o[k]->Str_0)
}

/// Keeps the earlier of a text and what came first so far.
pub(crate) fn keep_least<'a>(best: Option<&'a String>, k: &'a String, Ghost(seen): Ghost<Set<Seq<char>>>) -> (r: &'a String)
    requires
        match best {
            Some(b) => is_least(seen, b@),
            None => seen =~= Set::empty(),
        },
    ensures
        is_least(seen.insert(k@), r@),
{
    match best {
        None => k,
        Some(b) => {
            proof {
                lemma_less_total(k@, b@);
                assert forall|o: Seq<char>| #[trigger] seen.insert(k@).contains(o) implies (
                text_less(k@, b@) ==> o == k@ || text_less(k@, o)) by {
                    if seen.contains(o) && o != b@ && text_less(k@, b@) {
                        lemma_less_transitive(k@, b@, o);
                    }
                }
            }
            if text_below(k, b) {
                k
            } else {
                b
            }
        },
    }
}

/// Finds the first member of an object that is no string.
#[verifier::rlimit(50)]
pub fn find_non_string(o: &Vec<(String, Json)>) -> (r: Option<&String>)
    ensures
        match r {
            Some(k) => !(non_strings(members(o@)) =~= Set::empty()) && k@ == least(
                non_strings(members(o@)),
            ),
            None => non_strings(members(o@)) =~= Set::empty(),
        },
{
    let mut best: Option<&String> = None;
    let mut i: usize = 0;
    let ghost all = members(o@);
    let ghost mut seen = Set::<Seq<char>>::empty();
    while i < o.len()
        invariant
            i <= o.len(),
            all == members(o@),
            seen == Set::new(
                |k: Seq<char>|
                    non_strings(all).contains(k) && (exists|m: int|
                        0 <= m < i && (#[trigger] o@[m]).0@ == k),
            ),
            match best {
                Some(b) => is_least(seen, b@),
                None => seen =~= Set::empty(),
            },
        decreases o.len() - i,
    {
        let ghost key = o@[i as int].0@;
        let text = match find_member(o, o[i].0.as_str()) {
            Some(j) => j.as_str().is_some(),
            None => true,
        };
        proof {
            lemma_has_member(o@, i as int);
            assert(text == !non_strings(all).contains(key));
        }
        let ghost next = Set::new(
            |k: Seq<char>|
                non_strings(all).contains(k) && (exists|m: int|
                    0 <= m < i + 1 && (#[trigger] o@[m]).0@ == k),
        );
        if !text {
            let b = keep_least(best, &o[i].0, Ghost(seen));
            best = Some(b);
            assert(next =~= seen.insert(key)) by {
                assert forall|k: Seq<char>| next.contains(k) <==> seen.insert(key).contains(k) by {
                    if next.contains(k) {
                        let m = choose|m: int| 0 <= m < i + 1 && (#[trigger] o@[m]).0@ == k;
                        if m < i {
                            assert(o@[m].0@ == k);
                        }
                    }
                    if seen.contains(k) {
                        let m = choose|m: int| 0 <= m < i && (#[trigger] o@[m]).0@ == k;
                        assert(o@[m].0@ == k);
                    }
                    assert(o@[i as int].0@ == key);
                }
            }
        } else {
            assert(next =~= seen) by {
                assert forall|k: Seq<char>| next.contains(k) <==> seen.contains(k) by {
                    if next.contains(k) {
                        let m = choose|m: int| 0 <= m < i + 1 && (#[trigger] o@[m]).0@ == k;
                        assert(m < i);
                        assert(o@[m].0@ == k);
                    }
                    if seen.contains(k) {
                        let m = choose|m: int| 0 <= m < i && (#[trigger] o@[m]).0@ == k;
                        assert(o@[m].0@ == k);
                    }
                }
            }
        }
        proof {
            seen = next;
        }
        i = i + 1;
    }
    proof {
        assert(seen =~= non_strings(all)) by {
            assert forall|k: Seq<char>| non_strings(all).contains(k) implies seen.contains(k) by {
                lemma_member_at(o@, k);
                let m = choose|m: int| 0 <= m < o@.len() && (#[trigger] o@[m]).0@ == k;
                assert(o@[m].0@ == k);
            }
        }
        if let Some(b) = best {
            lemma_least(non_strings(all), b@);
        }
    }
    best
}

/// A listed member is a member.
proof fn lemma_has_member(o: Seq<(String, Json)>, i: int)
    requires
        0 <= i < o.len(),
    ensures
        members(o).contains_key(o[i].0@),
    decreases o.len(),
{
    let p = o.drop_last();
    lemma_members_push(p, o.last());
    assert(p.push(o.last()) =~= o);
    if i < p.len() {
        lemma_has_member(p, i);
        assert(p[i] == o[i]);
    }
}

/// A member is listed.
proof fn lemma_member_at(o: Seq<(String, Json)>, k: Seq<char>)
    requires
        members(o).contains_key(k),
    ensures
        exists|m: int| 0 <= m < o.len() && (#[trigger] o[m]).0@ == k,
    decreases o.len(),
{
    if o.len() == 0 {
        assert(false);
    } else {
        let p = o.drop_last();
        lemma_members_push(p, o.last());
        assert(p.push(o.last()) =~= o);
        if o.last().0@ == k {
            assert(o[o.len() - 1].0@ == k);
        } else {
            lemma_member_at(p, k);
            let m = choose|m: int| 0 <= m < p.len() && (#[trigger] p[m]).0@ == k;
            assert(o[m].0@ == k);
        }
    }
}

/// Reads the labels of an object of strings.
pub fn read_labels(o: &Vec<(String, Json)>) -> (r: Vec<(String, String)>)
    requires
        non_strings(members(o@)) =~= Set::empty(),
    ensures
        label_map(r@) == object_labels(members(o@)),
{
    let mut out: Vec<(String, String)> = Vec::new();
    let mut i: usize = 0;
    assert(o@.take(0) =~= Seq::empty());
    assert(members(o@.take(0)) =~= Map::empty());
    while i < o.len()
        invariant
            i <= o.len(),
            forall|k: Seq<char>| #[trigger] label_map(out@).contains_key(k) ==> members(
                o@.take(i as int),
            ).contains_key(k),
            forall|k: Seq<char>| #[trigger] members(o@.take(i as int)).contains_key(k) && members(
                o@.take(i as int),
            )[k] is Str ==> label_map(out@).contains_key(k) && label_map(out@)[k] == members(
                o@.take(i as int),
            )[k]->Str_0,
        decreases o.len() - i,
    {
        let ghost before = out@;
        let ghost p = o@.take(i as int);
        let ghost q = o@.take(i + 1);
        proof {
            assert(q =~= p.push(o@[i as int]));
            lemma_members_push(p, o@[i as int]);
        }
        if let Some(s) = o[i].1.as_str() {
            out.push((o[i].0.clone(), s.clone()));
            assert(out@.drop_last() =~= before);
        }
        proof {
            assert forall|k: Seq<char>| #[trigger] label_map(out@).contains_key(k) implies members(
                q,
            ).contains_key(k) by {
                if k != o@[i as int].0@ {
                    assert(label_map(before).contains_key(k));
                }
            }
            assert forall|k: Seq<char>| #[trigger] members(q).contains_key(k) && members(
                q,
            )[k] is Str implies label_map(out@).contains_key(k) && label_map(out@)[k] == members(
                q,
            )[k]->Str_0 by {
                if k != o@[i as int].0@ {
                    assert(members(p).contains_key(k));
                }
            }
        }
        i = i + 1;
    }
    proof {
        assert(o@.take(o@.len() as int) =~= o@);
        let goal = object_labels(members(o@));
        assert forall|k: Seq<char>| members(o@).contains_key(k) implies members(o@)[k] is Str by {
            assert(!non_strings(members(o@)).contains(k));
        }
        assert(label_map(out@) =~= goal);
    }
    out
}

/// What an entry of a target schema says.
pub open spec fn change_entry(v: JsonV) -> Result<ChangeEntryV, FailureV> {
    match v {
        JsonV::Object(o) => match member(o, "name"@) {
            Some(JsonV::Str(name)) => match list_member(o, "levels"@) {
                Err(ListFault::NotAnArray) => Err(
                    mismatch(wording::entry_levels_array_msg(name)),
                ),
                Err(ListFault::NotStrings) => Err(
                    mismatch(wording::entry_levels_strings_msg(name)),
                ),
                Ok(levels) => match change_labels(o, name) {
                    Err(f) => Err(f),
                    Ok(labels) => match string_member(o, "display_name"@) {
                        Err(_) => Err(
                            mismatch(wording::entry_string_msg(name, "display_name"@)),
                        ),
                        Ok(display) => match string_member(o, "type"@) {
                            Err(_) => Err(mismatch(wording::entry_string_msg(name, "type"@))),
                            Ok(ty) => Ok(ChangeEntryV { name, display, ty, levels, labels }),
                        },
                    },
                },
            },
            _ => Err(
                mismatch(
                    "each target_schema entry needs a string 'name' (the column's current name — its identity)"@,
                ),
            ),
        },
        _ => Err(mismatch("each target_schema entry must be an object"@)),
    }
}

/// The labels of an entry: an object of strings, or none.
pub open spec fn change_labels(o: Map<Seq<char>, JsonV>, name: Seq<char>) -> Result<
    Option<Map<Seq<char>, Seq<char>>>,
    FailureV,
> {
    match member(o, "labels"@) {
        None => Ok(None),
        Some(JsonV::Null) => Ok(None),
        Some(JsonV::Object(m)) => if non_strings(m) =~= Set::empty() {
            Ok(Some(object_labels(m)))
        } else {
            Err(mismatch(wording::entry_label_string_msg(name, least(non_strings(m)))))
        },
        Some(_) => Err(mismatch(wording::entry_labels_object_msg(name))),
    }
}

fn refuse(m: String) -> (r: EditFailure)
    ensures
        r@ == mismatch(m@),
{
    EditFailure::refused("schema_mismatch", m)
}

/// Parses an entry of a target schema.
pub fn parse_entry(v: &Json) -> (r: Result<ChangeEntry, EditFailure>)
    ensures
        match (r, change_entry(v@)) {
            (Ok(a), Ok(b)) => a@ == b,
            (Err(e), Err(f)) => e@ == f,
            _ => false,
        },
{
    let o = match v.as_object() {
        Some(o) => o,
        None => {
            return Err(refuse("each target_schema entry must be an object".to_string()));
        },
    };
    let name = match find_member(o, "name") {
        Some(Json::Str(s)) => s.clone(),
        _ => {
            return Err(
                refuse(
                    "each target_schema entry needs a string 'name' (the column's current name — its identity)".to_string(),
                ),
            );
        },
    };
    let levels = match read_list(o, "levels") {
        Ok(l) => l,
        Err(ListFault::NotAnArray) => {
            return Err(refuse(wording::entry_levels_array(name.as_str())));
        },
        Err(ListFault::NotStrings) => {
            return Err(refuse(wording::entry_levels_strings(name.as_str())));
        },
    };
    let labels: Option<Vec<(String, String)>> = match find_member(o, "labels") {
        None => None,
        Some(Json::Null) => None,
        Some(j) => match j.as_object() {
            Some(m) => {
                if let Some(k) = find_non_string(m) {
                    return Err(
                        refuse(wording::entry_label_string(name.as_str(), k.as_str())),
                    );
                }
                Some(read_labels(m))
            },
            None => {
                return Err(refuse(wording::entry_labels_object(name.as_str())));
            },
        },
    };
    let display_name = match read_string(o, "display_name") {
        Ok(x) => x,
        Err(_) => {
            return Err(refuse(wording::entry_string(name.as_str(), "display_name")));
        },
    };
    let column_type = match read_string(o, "type") {
        Ok(x) => x,
        Err(_) => {
            return Err(refuse(wording::entry_string(name.as_str(), "type")));
        },
    };
    Ok(ChangeEntry { name, display_name, column_type, levels, labels })
}

} // verus!
