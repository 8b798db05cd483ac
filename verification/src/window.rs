//! The declared schema of a paste: what the columns it covers and creates must come out as.
use vstd::prelude::*;
use crate::json::{find_member, items, member, members, Json, JsonV};
use crate::messages::{opt_text, refusal, EditFailure, FailureV};
use crate::table::{level_of_str, level_text, text_level, Field, FieldV, Level};
use crate::text::{contains_text, find_repeat, first_repeat, texts};
use crate::wording;

verus! {

/// One entry of a declared schema. What it leaves out is settled automatically.
#[derive(Debug)]
pub struct WindowEntry {
    pub name: Option<String>,
    pub display_name: Option<String>,
    pub column_type: Option<Level>,
    pub levels: Option<Vec<String>>,
}

/// The mathematical value of a [`WindowEntry`].
#[verifier::ext_equal]
pub struct EntryV {
    pub name: Option<Seq<char>>,
    pub display: Option<Seq<char>>,
    pub ty: Option<Level>,
    pub levels: Option<Seq<Seq<char>>>,
}

/// The texts of an optional list.
pub open spec fn opt_texts(v: Option<Vec<String>>) -> Option<Seq<Seq<char>>> {
    match v {
        Some(l) => Some(texts(l@)),
        None => None,
    }
}

impl View for WindowEntry {
    type V = EntryV;

    open spec fn view(&self) -> EntryV {
        EntryV {
            name: opt_text(self.name),
            display: opt_text(self.display_name),
            ty: self.column_type,
            levels: opt_texts(self.levels),
        }
    }
}

/// The value of an optional entry.
pub open spec fn opt_entry(e: Option<WindowEntry>) -> Option<EntryV> {
    match e {
        Some(x) => Some(x@),
        None => None,
    }
}

/// The values of a list of optional entries.
pub open spec fn entry_views(v: Seq<Option<WindowEntry>>) -> Seq<Option<EntryV>> {
    Seq::new(v.len(), |i: int| opt_entry(v[i]))
}

/// An optional string member: absent and null are none, anything but a string is wrong.
pub open spec fn string_member(o: Map<Seq<char>, JsonV>, key: Seq<char>) -> Result<
    Option<Seq<char>>,
    (),
> {
    match member(o, key) {
        None => Ok(None),
        Some(JsonV::Null) => Ok(None),
        Some(JsonV::Str(s)) => Ok(Some(s)),
        Some(_) => Err(()),
    }
}

/// Reads an optional string member.
pub fn read_string(o: &Vec<(String, Json)>, key: &str) -> (r: Result<Option<String>, ()>)
    ensures
        match (r, string_member(members(o@), key@)) {
            (Ok(a), Ok(b)) => opt_text(a) == b,
            (Err(_), Err(_)) => true,
            _ => false,
        },
{
    match find_member(o, key) {
        None => Ok(None),
        Some(Json::Null) => Ok(None),
        Some(Json::Str(s)) => Ok(Some(s.clone())),
        Some(_) => Err(()),
    }
}

/// What is wrong with a list of levels.
pub enum ListFault {
    NotAnArray,
    NotStrings,
}

/// The texts of a list of strings; none where an entry is no string.
pub open spec fn string_list(a: Seq<JsonV>) -> Option<Seq<Seq<char>>> {
    if forall|i: int| 0 <= i < a.len() ==> (#[trigger] a[i]) is Str {
        Some(Seq::new(a.len(), |i: int| a[i]->Str_0))
    } else {
        None
    }
}

/// An optional member that is a list of strings.
pub open spec fn list_member(o: Map<Seq<char>, JsonV>, key: Seq<char>) -> Result<
    Option<Seq<Seq<char>>>,
    ListFault,
> {
    match member(o, key) {
        None => Ok(None),
        Some(JsonV::Null) => Ok(None),
        Some(JsonV::Array(a)) => match string_list(a) {
            Some(l) => Ok(Some(l)),
            None => Err(ListFault::NotStrings),
        },
        Some(_) => Err(ListFault::NotAnArray),
    }
}

/// Reads a list of strings.
pub fn read_strings(a: &Vec<Json>) -> (r: Option<Vec<String>>)
    ensures
        opt_texts(r) == string_list(items(a@)),
{
    let mut out: Vec<String> = Vec::new();
    let mut i: usize = 0;
    let ghost all = items(a@);
    while i < a.len()
        invariant
            i <= a.len(),
            all == items(a@),
            out@.len() == i,
            forall|k: int| 0 <= k < i ==> (#[trigger] all[k]) is Str && all[k]->Str_0 == out@[k]@,
        decreases a.len() - i,
    {
        assert(all[i as int] == a@[i as int]@);
        match a[i].as_str() {
            Some(s) => {
                out.push(s.clone());
            },
            None => {
                assert(!(all[i as int] is Str));
                return None;
            },
        }
        i = i + 1;
    }
    assert(texts(out@) =~= Seq::new(all.len(), |i: int| all[i]->Str_0));
    Some(out)
}

/// Reads an optional member that is a list of strings.
pub fn read_list(o: &Vec<(String, Json)>, key: &str) -> (r: Result<
    Option<Vec<String>>,
    ListFault,
>)
    ensures
        match (r, list_member(members(o@), key@)) {
            (Ok(a), Ok(b)) => opt_texts(a) == b,
            (Err(a), Err(b)) => a == b,
            _ => false,
        },
{
    match find_member(o, key) {
        None => Ok(None),
        Some(Json::Null) => Ok(None),
        Some(j) => match j.as_array() {
            Some(a) => match read_strings(a) {
                Some(l) => Ok(Some(l)),
                None => Err(ListFault::NotStrings),
            },
            None => Err(ListFault::NotAnArray),
        },
    }
}

/// A refusal of a declared schema.
pub open spec fn mismatch(m: Seq<char>) -> FailureV {
    refusal("schema_mismatch"@, m)
}

/// What an entry declares, by itself.
pub open spec fn entry_of(o: Map<Seq<char>, JsonV>, i: u64) -> Result<EntryV, FailureV> {
    if o.contains_key("labels"@) {
        Err(
            mismatch(
                "target_schema 'labels' is not served on insert_block — relabeling is schema_change's job"@,
            ),
        )
    } else {
        match string_member(o, "name"@) {
            Err(_) => Err(mismatch(wording::window_string_msg(i, "name"@))),
            Ok(name) => match string_member(o, "display_name"@) {
                Err(_) => Err(mismatch(wording::window_string_msg(i, "display_name"@))),
                Ok(display) => match string_member(o, "type"@) {
                    Err(_) => Err(mismatch(wording::window_string_msg(i, "type"@))),
                    Ok(t) => if t is Some && text_level(t->0) is None {
                        Err(mismatch(wording::window_type_msg(i, t->0)))
                    } else {
                        let ty = match t {
                            Some(x) => text_level(x),
                            None => None,
                        };
                        match list_member(o, "levels"@) {
                            Err(ListFault::NotAnArray) => Err(
                                mismatch(wording::window_levels_array_msg(i)),
                            ),
                            Err(ListFault::NotStrings) => Err(
                                mismatch(wording::window_levels_strings_msg(i)),
                            ),
                            Ok(levels) => Ok(EntryV { name, display, ty, levels }),
                        }
                    },
                },
            },
        }
    }
}

/// The name of an optional level, a question mark for none.
pub open spec fn level_name(l: Option<Level>) -> Seq<char> {
    match l {
        Some(x) => level_text(x),
        None => "?"@,
    }
}

/// What is wrong with an entry for a column that the paste covers: it may echo the name and
/// the type and declare levels of a column that has some.
pub open spec fn covered_issue(e: EntryV, i: u64, f: FieldV) -> Option<FailureV> {
    if e.name is Some && e.name->0 != f.name {
        Some(mismatch(wording::window_names_msg(i, e.name->0, i, f.name)))
    } else if e.display is Some {
        Some(
            mismatch(
                "renaming a covered column is schema_change's job — insert_block entries may declare type/levels adherence only"@,
            ),
        )
    } else if e.ty is Some && e.ty != f.level() {
        Some(
            mismatch(
                wording::window_retype_msg(level_text(e.ty->0), f.name, level_name(f.level())),
            ),
        )
    } else if e.levels is Some && f.level() == Some(Level::Scale) {
        Some(mismatch(wording::window_scale_levels_msg(f.name)))
    } else {
        None
    }
}

/// What is wrong with an entry for a column that the paste creates: it must have a name, and
/// the name must be free.
pub open spec fn created_issue(
    e: EntryV,
    fields: Seq<FieldV>,
    declared: Seq<Seq<char>>,
) -> Option<FailureV> {
    if e.name is None {
        Some(mismatch("an entry for a new column must declare its name"@))
    } else if exists|k: int|
        0 <= k < fields.len() && (#[trigger] fields[k]).name == e.name->0 {
        Some(mismatch(wording::window_name_used_msg(e.name->0)))
    } else if declared.contains(e.name->0) {
        Some(mismatch(wording::window_name_twice_msg(e.name->0)))
    } else if e.ty == Some(Level::Scale) && e.levels is Some {
        Some(mismatch("a scale column cannot declare levels"@))
    } else {
        None
    }
}

/// What is wrong with the levels of an entry.
pub open spec fn levels_issue(e: EntryV) -> Option<FailureV> {
    match e.levels {
        None => None,
        Some(l) => match first_repeat(l) {
            Some(x) => Some(mismatch(wording::window_level_twice_msg(x))),
            None => None,
        },
    }
}

/// Entry `i` of a declared schema for a paste at column `col`; null declares nothing.
pub open spec fn window_entry(
    e: JsonV,
    i: u64,
    col: u64,
    fields: Seq<FieldV>,
    declared: Seq<Seq<char>>,
) -> Result<Option<EntryV>, FailureV> {
    match e {
        JsonV::Null => Ok(None),
        JsonV::Object(o) => match entry_of(o, i) {
            Err(f) => Err(f),
            Ok(x) => {
                let shape = if col + i < fields.len() {
                    covered_issue(x, i, fields[col + i])
                } else {
                    created_issue(x, fields, declared)
                };
                match (shape, levels_issue(x)) {
                    (Some(f), _) => Err(f),
                    (None, Some(f)) => Err(f),
                    (None, None) => Ok(Some(x)),
                }
            },
        },
        _ => Err(mismatch(wording::window_entry_object_msg(i))),
    }
}

/// The names that a list of entries declares for columns the paste creates.
pub open spec fn declared_names(
    es: Seq<Option<EntryV>>,
    col: u64,
    n: nat,
) -> Seq<Seq<char>>
    decreases es.len(),
{
    if es.len() == 0 {
        Seq::empty()
    } else {
        let p = declared_names(es.drop_last(), col, n);
        match es.last() {
            Some(e) => if e.name is Some && col + es.len() - 1 >= n {
                p.push(e.name->0)
            } else {
                p
            },
            None => p,
        }
    }
}

/// The entries of a declared schema, in order; the first wrong one decides.
pub open spec fn window_entries(a: Seq<JsonV>, col: u64, fields: Seq<FieldV>) -> Result<
    Seq<Option<EntryV>>,
    FailureV,
>
    decreases a.len(),
{
    if a.len() == 0 {
        Ok(Seq::empty())
    } else {
        match window_entries(a.drop_last(), col, fields) {
            Err(f) => Err(f),
            Ok(p) => match window_entry(
                a.last(),
                (a.len() - 1) as u64,
                col,
                fields,
                declared_names(p, col, fields.len()),
            ) {
                Err(f) => Err(f),
                Ok(e) => Ok(p.push(e)),
            },
        }
    }
}

/// A declared schema of a paste at column `col` that is `width` columns wide: an array with
/// one entry for each column of the paste.
pub open spec fn window_schema(v: JsonV, fields: Seq<FieldV>, col: u64, width: u64) -> Result<
    Seq<Option<EntryV>>,
    FailureV,
> {
    match v {
        JsonV::Array(a) => if a.len() != width {
            Err(mismatch(wording::window_width_msg(a.len() as u64, width)))
        } else {
            window_entries(a, col, fields)
        },
        _ => Err(mismatch("target_schema must be an ARRAY of nullable column entries"@)),
    }
}

fn refuse(m: String) -> (r: EditFailure)
    ensures
        r@ == mismatch(m@),
{
    EditFailure::refused("schema_mismatch", m)
}

/// Reads what an entry declares, by itself.
fn read_entry(o: &Vec<(String, Json)>, i: u64) -> (r: Result<WindowEntry, EditFailure>)
    ensures
        match (r, entry_of(members(o@), i)) {
            (Ok(a), Ok(b)) => a@ == b,
            (Err(e), Err(f)) => e@ == f,
            _ => false,
        },
{
    if find_member(o, "labels").is_some() {
        return Err(
            refuse(
                "target_schema 'labels' is not served on insert_block — relabeling is schema_change's job".to_string(),
            ),
        );
    }
    let name = match read_string(o, "name") {
        Ok(x) => x,
        Err(_) => {
            return Err(refuse(wording::window_string(i, "name")));
        },
    };
    let display_name = match read_string(o, "display_name") {
        Ok(x) => x,
        Err(_) => {
            return Err(refuse(wording::window_string(i, "display_name")));
        },
    };
    let ty = match read_string(o, "type") {
        Ok(x) => x,
        Err(_) => {
            return Err(refuse(wording::window_string(i, "type")));
        },
    };
    let column_type = match &ty {
        None => None,
        Some(t) => match level_of_str(t) {
            Some(l) => Some(l),
            None => {
                return Err(refuse(wording::window_type(i, t.as_str())));
            },
        },
    };
    match read_list(o, "levels") {
        Ok(levels) => Ok(WindowEntry { name, display_name, column_type, levels }),
        Err(ListFault::NotAnArray) => Err(refuse(wording::window_levels_array(i))),
        Err(ListFault::NotStrings) => Err(refuse(wording::window_levels_strings(i))),
    }
}

/// Checks an entry for a column that the paste covers.
fn check_covered(e: &WindowEntry, i: u64, f: &Field) -> (r: Result<(), EditFailure>)
    ensures
        match (r, covered_issue(e@, i, f@)) {
            (Ok(_), None) => true,
            (Err(x), Some(y)) => x@ == y,
            _ => false,
        },
{
    if let Some(nm) = &e.name {
        if *nm != f.name {
            return Err(refuse(wording::window_names(i, nm.as_str(), i, f.name.as_str())));
        }
    }
    if e.display_name.is_some() {
        return Err(
            refuse(
                "renaming a covered column is schema_change's job — insert_block entries may declare type/levels adherence only".to_string(),
            ),
        );
    }
    let cur = f.level();
    if let Some(t) = e.column_type {
        let same = match cur {
            Some(l) => l == t,
            None => false,
        };
        if !same {
            let cur_name = match cur {
                Some(l) => l.as_str(),
                None => "?",
            };
            return Err(refuse(wording::window_retype(t.as_str(), f.name.as_str(), cur_name)));
        }
    }
    if e.levels.is_some() && f.is_scale() {
        return Err(refuse(wording::window_scale_levels(f.name.as_str())));
    }
    Ok(())
}

/// Checks an entry for a column that the paste creates.
fn check_created(e: &WindowEntry, fields: &Vec<Field>, declared: &Vec<String>) -> (r: Result<
    (),
    EditFailure,
>)
    ensures
        match (r, created_issue(e@, crate::table::field_views(fields@), texts(declared@))) {
            (Ok(_), None) => true,
            (Err(x), Some(y)) => x@ == y,
            _ => false,
        },
{
    let ghost fv = crate::table::field_views(fields@);
    let nm = match &e.name {
        Some(nm) => nm,
        None => {
            return Err(refuse("an entry for a new column must declare its name".to_string()));
        },
    };
    let mut k: usize = 0;
    while k < fields.len()
        invariant
            k <= fields.len(),
            fv == crate::table::field_views(fields@),
            e@.name == Some(nm@),
            forall|m: int| 0 <= m < k ==> (#[trigger] fv[m]).name != nm@,
        decreases fields.len() - k,
    {
        assert(fv[k as int] == fields@[k as int]@);
        if fields[k].name == *nm {
            return Err(refuse(wording::window_name_used(nm.as_str())));
        }
        k = k + 1;
    }
    if contains_text(declared, nm.as_str()) {
        return Err(refuse(wording::window_name_twice(nm.as_str())));
    }
    let scale = match e.column_type {
        Some(t) => t.is_scale(),
        None => false,
    };
    if scale && e.levels.is_some() {
        return Err(refuse("a scale column cannot declare levels".to_string()));
    }
    Ok(())
}

proof fn lemma_entries_prefix(a: Seq<JsonV>, col: u64, fields: Seq<FieldV>, k: int)
    requires
        0 <= k <= a.len(),
        window_entries(a.take(k), col, fields) is Err,
    ensures
        window_entries(a, col, fields) == window_entries(a.take(k), col, fields),
    decreases a.len() - k,
{
    if k < a.len() {
        assert(a.take(k + 1).drop_last() =~= a.take(k));
        lemma_entries_prefix(a, col, fields, k + 1);
    } else {
        assert(a.take(k) =~= a);
    }
}

/// The entries are as many as the array's.
pub proof fn lemma_entries_len(a: Seq<JsonV>, col: u64, fields: Seq<FieldV>)
    ensures
        window_entries(a, col, fields) matches Ok(p) ==> p.len() == a.len(),
    decreases a.len(),
{
    if a.len() > 0 {
        lemma_entries_len(a.drop_last(), col, fields);
    }
}

/// Parses the declared schema of a paste.
#[verifier::rlimit(30)]
pub fn parse_window_schema(v: &Json, fields: &Vec<Field>, col: u64, width: u64) -> (r: Result<
    Vec<Option<WindowEntry>>,
    EditFailure,
>)
    ensures
        match (r, window_schema(v@, crate::table::field_views(fields@), col, width)) {
            (Ok(a), Ok(b)) => entry_views(a@) == b && a@.len() == width,
            (Err(e), Err(f)) => e@ == f,
            _ => false,
        },
{
    let ghost fv = crate::table::field_views(fields@);
    let n = fields.len() as u64;
    let arr = match v.as_array() {
        Some(a) => a,
        None => {
            return Err(
                refuse(
                    "target_schema must be an ARRAY of nullable column entries".to_string(),
                ),
            );
        },
    };
    let ghost all = items(arr@);
    if arr.len() as u64 != width {
        return Err(refuse(wording::window_width(arr.len() as u64, width)));
    }
    let mut declared: Vec<String> = Vec::new();
    let mut out: Vec<Option<WindowEntry>> = Vec::new();
    let mut i: usize = 0;
    assert(all.take(0) =~= Seq::empty());
    assert(entry_views(out@) =~= Seq::empty());
    assert(texts(declared@) =~= Seq::empty());
    while i < arr.len()
        invariant
            i <= arr.len(),
            arr@.len() == width,
            v@ == JsonV::Array(all),
            all == items(arr@),
            fv == crate::table::field_views(fields@),
            n == fields@.len(),
            out@.len() == i,
            window_entries(all.take(i as int), col, fv) == Ok::<Seq<Option<EntryV>>, FailureV>(
                entry_views(out@),
            ),
            texts(declared@) == declared_names(entry_views(out@), col, n as nat),
        decreases arr.len() - i,
    {
        let ghost p = entry_views(out@);
        assert(all.take(i + 1).drop_last() =~= all.take(i as int));
        assert(all.take(i + 1).last() == arr@[i as int]@);
        let iu = i as u64;
        let entry: Option<WindowEntry> = if arr[i].is_null() {
            None
        } else {
            let o = match arr[i].as_object() {
                Some(o) => o,
                None => {
                    proof {
                        lemma_entries_prefix(all, col, fv, i + 1);
                    }
                    return Err(refuse(wording::window_entry_object(iu)));
                },
            };
            let e = match read_entry(o, iu) {
                Ok(e) => e,
                Err(f) => {
                    proof {
                        lemma_entries_prefix(all, col, fv, i + 1);
                    }
                    return Err(f);
                },
            };
            if col < n && iu < n - col {
                assert(fields@.len() == fields.len());
                let j = (col + iu) as usize;
                assert(fv[col + iu] == fields@[j as int]@);
                if let Err(f) = check_covered(&e, iu, &fields[j]) {
                    proof {
                        lemma_entries_prefix(all, col, fv, i + 1);
                    }
                    return Err(f);
                }
            } else {
                if let Err(f) = check_created(&e, fields, &declared) {
                    proof {
                        lemma_entries_prefix(all, col, fv, i + 1);
                    }
                    return Err(f);
                }
            }
            if let Some(levels) = &e.levels {
                if let Some(l) = find_repeat(levels) {
                    proof {
                        lemma_entries_prefix(all, col, fv, i + 1);
                    }
                    return Err(refuse(wording::window_level_twice(l.as_str())));
                }
            }
            Some(e)
        };
        let ghost ev = opt_entry(entry);
        let created = !(col < n && iu < n - col);
        let ghost before_declared = declared@;
        if let Some(e) = &entry {
            if created {
                if let Some(nm) = &e.name {
                    declared.push(nm.clone());
                }
            }
        }
        out.push(entry);
        proof {
            assert(entry_views(out@) =~= p.push(ev));
            assert(entry_views(out@).drop_last() =~= p);
            assert(window_entries(all.take(i + 1), col, fv) == Ok::<
                Seq<Option<EntryV>>,
                FailureV,
            >(p.push(ev)));
            if ev is Some && ev->0.name is Some && col + i >= n {
                assert(texts(declared@) =~= texts(before_declared).push(ev->0.name->0));
            }
        }
        i = i + 1;
    }
    assert(all.take(all.len() as int) =~= all);
    Ok(out)
}

} // verus!
