//! The catalog of discoverable modules.
use vstd::prelude::*;
use crate::edit_schema::{lemma_less_asymmetric, lemma_less_total, lemma_less_transitive};
use crate::levels::{text_below, text_less};
use crate::messages::{opt_text, Capability, DataOp, ModuleInfo};
use crate::text::{same, texts};

verus! {

/// The mathematical value of a [`ModuleInfo`].
#[verifier::ext_equal]
pub struct ModuleV {
    pub name: Seq<char>,
    pub version: Seq<char>,
    pub base_uri: Seq<char>,
}

impl View for ModuleInfo {
    type V = ModuleV;

    open spec fn view(&self) -> ModuleV {
        ModuleV { name: self.name@, version: self.version@, base_uri: self.base_uri@ }
    }
}

/// The values of a list of modules.
pub open spec fn module_views(v: Seq<ModuleInfo>) -> Seq<ModuleV> {
    Seq::new(v.len(), |i: int| v[i]@)
}

/// The mathematical value of a [`Capability`].
pub enum CapV {
    Analysis { name: Seq<char>, version: Seq<char>, base_uri: Option<Seq<char>> },
    Rcode,
    Data { op: DataOp, formats: Option<Seq<Seq<char>>> },
}

impl View for Capability {
    type V = CapV;

    open spec fn view(&self) -> CapV {
        match self {
            Capability::Analysis { name, version, base_uri } => CapV::Analysis {
                name: name@,
                version: version@,
                base_uri: opt_text(*base_uri),
            },
            Capability::Rcode => CapV::Rcode,
            Capability::Data { op, formats } => CapV::Data {
                op: *op,
                formats: match formats {
                    Some(f) => Some(texts(f@)),
                    None => None,
                },
            },
        }
    }
}

/// The values of a list of capabilities.
pub open spec fn cap_views(v: Seq<Capability>) -> Seq<CapV> {
    Seq::new(v.len(), |i: int| v[i]@)
}

/// Copies a module.
pub fn copy_module(m: &ModuleInfo) -> (r: ModuleInfo)
    ensures
        r@ == m@,
{
    ModuleInfo {
        name: m.name.clone(),
        version: m.version.clone(),
        base_uri: m.base_uri.clone(),
    }
}

/// Copies a list of modules.
pub fn copy_modules(v: &Vec<ModuleInfo>) -> (r: Vec<ModuleInfo>)
    ensures
        module_views(r@) == module_views(v@),
{
    let mut out: Vec<ModuleInfo> = Vec::new();
    let mut i: usize = 0;
    while i < v.len()
        invariant
            i <= v.len(),
            out@.len() == i,
            module_views(out@) =~= module_views(v@).take(i as int),
        decreases v.len() - i,
    {
        out.push(copy_module(&v[i]));
        i = i + 1;
    }
    assert(module_views(out@) =~= module_views(v@));
    out
}

/// The order of the catalog: by name, then by version, then by address.
pub open spec fn module_less(a: ModuleV, b: ModuleV) -> bool {
    text_less(a.name, b.name) || (a.name == b.name && (text_less(a.version, b.version) || (
    a.version == b.version && text_less(a.base_uri, b.base_uri))))
}

/// Whether a module comes before another one.
fn module_below(a: &ModuleInfo, b: &ModuleInfo) -> (r: bool)
    ensures
        r == module_less(a@, b@),
{
    if text_below(&a.name, &b.name) {
        return true;
    }
    if !same(&a.name, b.name.as_str()) {
        return false;
    }
    if text_below(&a.version, &b.version) {
        return true;
    }
    same(&a.version, b.version.as_str()) && text_below(&a.base_uri, &b.base_uri)
}

/// How many modules of a list do not come after a module.
pub open spec fn rank(s: Seq<ModuleV>, m: ModuleV) -> nat
    decreases s.len(),
{
    if s.len() == 0 {
        0
    } else {
        rank(s.drop_last(), m) + if module_less(m, s.last()) {
            0nat
        } else {
            1nat
        }
    }
}

/// The modules in the order of the catalog.
pub open spec fn arranged(s: Seq<ModuleV>) -> Seq<ModuleV>
    decreases s.len(),
{
    if s.len() == 0 {
        Seq::empty()
    } else {
        let p = arranged(s.drop_last());
        p.insert(rank(p, s.last()) as int, s.last())
    }
}

proof fn lemma_rank(s: Seq<ModuleV>, m: ModuleV)
    ensures
        rank(s, m) <= s.len(),
    decreases s.len(),
{
    if s.len() > 0 {
        lemma_rank(s.drop_last(), m);
    }
}

/// Counts the modules that do not come after a module.
fn count_rank(v: &Vec<ModuleInfo>, m: &ModuleInfo) -> (r: usize)
    ensures
        r == rank(module_views(v@), m@),
        r <= v@.len(),
{
    let ghost all = module_views(v@);
    let mut n: usize = 0;
    let mut i: usize = 0;
    assert(all.take(0) =~= Seq::empty());
    while i < v.len()
        invariant
            i <= v.len(),
            all == module_views(v@),
            n == rank(all.take(i as int), m@),
            n <= i,
        decreases v.len() - i,
    {
        assert(all.take(i + 1).drop_last() =~= all.take(i as int));
        assert(all.take(i + 1).last() == v@[i as int]@);
        if !module_below(m, &v[i]) {
            n = n + 1;
        }
        i = i + 1;
    }
    assert(all.take(all.len() as int) =~= all);
    n
}

/// Arranges modules in the order of the catalog.
pub fn arrange(v: &Vec<ModuleInfo>) -> (r: Vec<ModuleInfo>)
    ensures
        module_views(r@) == arranged(module_views(v@)),
{
    let ghost all = module_views(v@);
    let mut out: Vec<ModuleInfo> = Vec::new();
    let mut i: usize = 0;
    assert(all.take(0) =~= Seq::empty());
    assert(module_views(out@) =~= Seq::empty());
    while i < v.len()
        invariant
            i <= v.len(),
            all == module_views(v@),
            module_views(out@) == arranged(all.take(i as int)),
        decreases v.len() - i,
    {
        assert(all.take(i + 1).drop_last() =~= all.take(i as int));
        assert(all.take(i + 1).last() == v@[i as int]@);
        let k = count_rank(&out, &v[i]);
        let m = copy_module(&v[i]);
        let ghost before = out@;
        let ghost mv = m@;
        out.insert(k, m);
        assert(module_views(out@) =~= module_views(before).insert(k as int, mv));
        i = i + 1;
    }
    assert(all.take(all.len() as int) =~= all);
    out
}

/// Two entries for one module: name and version agree.
pub open spec fn same_module(a: ModuleV, b: ModuleV) -> bool {
    a.name == b.name && a.version == b.version
}

/// A list has an entry for a module.
pub open spec fn known(s: Seq<ModuleV>, m: ModuleV) -> bool {
    exists|i: int| 0 <= i < s.len() && same_module(#[trigger] s[i], m)
}

/// A list with the entries of another one for modules that it lacks.
pub open spec fn merged(s: Seq<ModuleV>, ads: Seq<ModuleV>) -> Seq<ModuleV>
    decreases ads.len(),
{
    if ads.len() == 0 {
        s
    } else {
        let p = merged(s, ads.drop_last());
        if known(p, ads.last()) {
            p
        } else {
            p.push(ads.last())
        }
    }
}

/// The modules that a list of capabilities advertises with an address. A module without one
/// takes work, but its assets cannot be loaded.
pub open spec fn advertised(caps: Seq<CapV>) -> Seq<ModuleV>
    decreases caps.len(),
{
    if caps.len() == 0 {
        Seq::empty()
    } else {
        let p = advertised(caps.drop_last());
        match caps.last() {
            CapV::Analysis { name, version, base_uri: Some(u) } => p.push(
                ModuleV { name, version, base_uri: u },
            ),
            _ => p,
        }
    }
}

/// The names of the analysis modules that a list of capabilities takes work for.
pub open spec fn analysis_names(caps: Seq<CapV>) -> Seq<Seq<char>>
    decreases caps.len(),
{
    if caps.len() == 0 {
        Seq::empty()
    } else {
        let p = analysis_names(caps.drop_last());
        match caps.last() {
            CapV::Analysis { name, .. } => p.push(name),
            _ => p,
        }
    }
}

/// Lists the names of the analysis modules.
pub fn list_analyses(caps: &Vec<Capability>) -> (r: Vec<String>)
    ensures
        texts(r@) == analysis_names(cap_views(caps@)),
{
    let ghost all = cap_views(caps@);
    let mut out: Vec<String> = Vec::new();
    let mut i: usize = 0;
    assert(all.take(0) =~= Seq::empty());
    assert(texts(out@) =~= Seq::empty());
    while i < caps.len()
        invariant
            i <= caps.len(),
            all == cap_views(caps@),
            texts(out@) == analysis_names(all.take(i as int)),
        decreases caps.len() - i,
    {
        assert(all.take(i + 1).drop_last() =~= all.take(i as int));
        assert(all.take(i + 1).last() == caps@[i as int]@);
        if let Capability::Analysis { name, .. } = &caps[i] {
            let ghost before = out@;
            out.push(name.clone());
            assert(texts(out@) =~= texts(before).push(name@));
        }
        i = i + 1;
    }
    assert(all.take(all.len() as int) =~= all);
    out
}

/// Whether a list has an entry for a module.
fn is_known(v: &Vec<ModuleInfo>, name: &String, version: &String) -> (r: bool)
    ensures
        forall|u: Seq<char>| #[trigger]
            known(module_views(v@), (ModuleV { name: name@, version: version@, base_uri: u })) == r,
{
    let ghost all = module_views(v@);
    let mut i: usize = 0;
    while i < v.len()
        invariant
            i <= v.len(),
            all == module_views(v@),
            forall|k: int| 0 <= k < i ==> !((#[trigger] all[k]).name == name@ && all[k].version
                == version@),
        decreases v.len() - i,
    {
        assert(all[i as int] == v@[i as int]@);
        if same(name, v[i].name.as_str()) && same(version, v[i].version.as_str()) {
            assert forall|u: Seq<char>| #[trigger]
                known(all, (ModuleV { name: name@, version: version@, base_uri: u })) by {
                assert(same_module(
                    all[i as int],
                    ModuleV { name: name@, version: version@, base_uri: u },
                ));
            }
            return true;
        }
        i = i + 1;
    }
    false
}

/// Adds the modules that a list of capabilities advertises, where they are new.
pub fn merge_ads(out: &mut Vec<ModuleInfo>, caps: &Vec<Capability>)
    ensures
        module_views(final(out)@) == merged(
            module_views(old(out)@),
            advertised(cap_views(caps@)),
        ),
{
    let ghost all = cap_views(caps@);
    let ghost start = module_views(out@);
    let mut i: usize = 0;
    assert(all.take(0) =~= Seq::empty());
    while i < caps.len()
        invariant
            i <= caps.len(),
            all == cap_views(caps@),
            module_views(out@) == merged(start, advertised(all.take(i as int))),
        decreases caps.len() - i,
    {
        assert(all.take(i + 1).drop_last() =~= all.take(i as int));
        assert(all.take(i + 1).last() == caps@[i as int]@);
        let ghost p = advertised(all.take(i as int));
        if let Capability::Analysis { name, version, base_uri: Some(u) } = &caps[i] {
            let ghost m = ModuleV { name: name@, version: version@, base_uri: u@ };
            let ghost before = out@;
            assert(advertised(all.take(i + 1)) == p.push(m));
            assert(p.push(m).drop_last() =~= p);
            assert(p.push(m).last() == m);
            if !is_known(out, name, version) {
                assert(!known(module_views(before), m));
                out.push(
                    ModuleInfo {
                        name: name.clone(),
                        version: version.clone(),
                        base_uri: u.clone(),
                    },
                );
                assert(module_views(out@) =~= module_views(before).push(m));
            } else {
                assert(known(module_views(before), m));
            }
        }
        i = i + 1;
    }
    assert(all.take(all.len() as int) =~= all);
}

/// Whether two lists hold the same modules in the same order.
pub fn same_modules(a: &Vec<ModuleInfo>, b: &Vec<ModuleInfo>) -> (r: bool)
    ensures
        r == (module_views(a@) == module_views(b@)),
{
    let ghost av = module_views(a@);
    let ghost bv = module_views(b@);
    if a.len() != b.len() {
        assert(av.len() != bv.len());
        return false;
    }
    let mut i: usize = 0;
    while i < a.len()
        invariant
            i <= a.len(),
            a@.len() == b@.len(),
            av == module_views(a@),
            bv == module_views(b@),
            forall|k: int| 0 <= k < i ==> av[k] == bv[k],
        decreases a.len() - i,
    {
        assert(av[i as int] == a@[i as int]@ && bv[i as int] == b@[i as int]@);
        if !same(&a[i].name, b[i].name.as_str()) || !same(&a[i].version, b[i].version.as_str())
            || !same(&a[i].base_uri, b[i].base_uri.as_str()) {
            assert(av[i as int] != bv[i as int]);
            return false;
        }
        assert(av[i as int] =~= bv[i as int]);
        i = i + 1;
    }
    assert(av =~= bv);
    true
}

pub proof fn lemma_merged_add(s: Seq<ModuleV>, a: Seq<ModuleV>, b: Seq<ModuleV>)
    ensures
        merged(s, a + b) == merged(merged(s, a), b),
    decreases b.len(),
{
    if b.len() == 0 {
        assert(a + b =~= a);
    } else {
        lemma_merged_add(s, a, b.drop_last());
        assert((a + b).drop_last() =~= a + b.drop_last());
        assert((a + b).last() == b.last());
    }
}

/// No module of a list comes before an earlier one.
pub open spec fn in_order(s: Seq<ModuleV>) -> bool {
    forall|i: int, k: int| 0 <= i < k < s.len() ==> !module_less(s[k], s[i])
}

proof fn lemma_module_less(a: ModuleV, b: ModuleV, c: ModuleV)
    ensures
        !(module_less(a, b) && module_less(b, a)),
        module_less(a, b) && module_less(b, c) ==> module_less(a, c),
        a == b || module_less(a, b) || module_less(b, a),
{
    lemma_less_asymmetric(a.name, b.name);
    lemma_less_asymmetric(a.version, b.version);
    lemma_less_asymmetric(a.base_uri, b.base_uri);
    lemma_less_asymmetric(a.name, a.name);
    lemma_less_asymmetric(a.version, a.version);
    lemma_less_total(a.name, b.name);
    lemma_less_total(a.version, b.version);
    lemma_less_total(a.base_uri, b.base_uri);
    if text_less(a.name, b.name) && text_less(b.name, c.name) {
        lemma_less_transitive(a.name, b.name, c.name);
    }
    if text_less(a.version, b.version) && text_less(b.version, c.version) {
        lemma_less_transitive(a.version, b.version, c.version);
    }
    if text_less(a.base_uri, b.base_uri) && text_less(b.base_uri, c.base_uri) {
        lemma_less_transitive(a.base_uri, b.base_uri, c.base_uri);
    }
    assert(a == b ==> a =~= b);
    if a.name == b.name && a.version == b.version && a.base_uri == b.base_uri {
        assert(a =~= b);
    }
}

/// In an ordered list, the rank of a module parts those not after it from the others.
proof fn lemma_rank_parts(s: Seq<ModuleV>, m: ModuleV, i: int)
    requires
        in_order(s),
        0 <= i < s.len(),
    ensures
        i < rank(s, m) <==> !module_less(m, s[i]),
    decreases s.len(),
{
    let d = s.drop_last();
    lemma_rank(d, m);
    assert(in_order(d)) by {
        assert forall|a: int, b: int| 0 <= a < b < d.len() implies !module_less(d[b], d[a]) by {
            assert(!module_less(s[b], s[a]));
        }
    }
    if i < d.len() {
        lemma_rank_parts(d, m, i);
        assert(d[i] == s[i]);
        if module_less(m, s[i]) && !module_less(m, s.last()) {
            assert(!module_less(s[s.len() - 1], s[i]));
            lemma_module_less(m, s[i], s.last());
            lemma_module_less(s.last(), s[i], m);
            lemma_module_less(s[i], s.last(), s[i]);
        }
    } else {
        if !module_less(m, s.last()) && rank(d, m) < d.len() {
            let k = rank(d, m) as int;
            lemma_rank_parts(d, m, k);
            assert(d[k] == s[k]);
            assert(!module_less(s[s.len() - 1], s[k]));
            lemma_module_less(m, s[k], s.last());
            lemma_module_less(s[k], s.last(), m);
        }
    }
}

/// The catalog is in order and holds the same entries as before.
pub proof fn law_catalog_is_in_order(s: Seq<ModuleV>)
    ensures
        in_order(arranged(s)),
        arranged(s).to_multiset() == s.to_multiset(),
        arranged(s).len() == s.len(),
    decreases s.len(),
{
    if s.len() > 0 {
        let d = s.drop_last();
        let m = s.last();
        law_catalog_is_in_order(d);
        let p = arranged(d);
        let k = rank(p, m) as int;
        lemma_rank(p, m);
        let r = arranged(s);
        assert forall|a: int, b: int| 0 <= a < b < r.len() implies !module_less(r[b], r[a]) by {
            if a < k {
                lemma_rank_parts(p, m, a);
            }
            if b > k {
                lemma_rank_parts(p, m, b - 1);
            }
            if b < k {
                assert(!module_less(p[b], p[a]));
            } else if b == k {
            } else if a < k {
                assert(!module_less(p[b - 1], p[a]));
            } else if a == k {
                lemma_module_less(m, p[b - 1], m);
            } else {
                assert(!module_less(p[b - 1], p[a - 1]));
            }
        }
        assert(s =~= d.push(m));
        d.to_multiset_ensures();
        p.to_multiset_ensures();
        vstd::seq_lib::to_multiset_insert(p, k, m);
        assert(r.to_multiset() =~= s.to_multiset());
    } else {
        assert(arranged(s) =~= s);
    }
}

/// An entry of a merged list comes from the first list, or it is the earliest advertisement
/// of a module that the first list lacks.
pub proof fn law_earliest_advertisement_wins(s: Seq<ModuleV>, ads: Seq<ModuleV>, x: ModuleV)
    ensures
        merged(s, ads).contains(x) <==> s.contains(x) || (!known(s, x) && exists|i: int|
            0 <= i < ads.len() && #[trigger] ads[i] == x && forall|k: int|
                0 <= k < i ==> !same_module(#[trigger] ads[k], x)),
    decreases ads.len(),
{
    let r = merged(s, ads);
    if ads.len() > 0 {
        let d = ads.drop_last();
        let m = ads.last();
        let p = merged(s, d);
        law_earliest_advertisement_wins(s, d, x);
        lemma_known(s, d, m);
        let n = d.len() as int;
        if p.contains(x) && !s.contains(x) {
            let i = choose|i: int|
                0 <= i < d.len() && #[trigger] d[i] == x && forall|k: int|
                    0 <= k < i ==> !same_module(#[trigger] d[k], x);
            assert(ads[i] == x);
            assert forall|k: int| 0 <= k < i implies !same_module(#[trigger] ads[k], x) by {
                assert(d[k] == ads[k]);
            }
        }
        if r.contains(x) && !p.contains(x) {
            assert(!known(p, m));
            let i = choose|i: int| 0 <= i < r.len() && r[i] == x;
            assert(i == p.len());
            assert(x == m);
            assert(ads[n] == x);
            assert forall|k: int| 0 <= k < n implies !same_module(#[trigger] ads[k], x) by {
                assert(d[k] == ads[k]);
            }
        }
        if !known(s, x) && exists|i: int|
            0 <= i < ads.len() && #[trigger] ads[i] == x && forall|k: int|
                0 <= k < i ==> !same_module(#[trigger] ads[k], x) {
            let i = choose|i: int|
                0 <= i < ads.len() && #[trigger] ads[i] == x && forall|k: int|
                    0 <= k < i ==> !same_module(#[trigger] ads[k], x);
            if i < n {
                assert(d[i] == x);
                assert forall|k: int| 0 <= k < i implies !same_module(#[trigger] d[k], x) by {
                    assert(d[k] == ads[k]);
                }
                let j = choose|j: int| 0 <= j < p.len() && p[j] == x;
                assert(r[j] == x);
            } else {
                assert(x == m);
                if known(p, m) {
                    let k = choose|k: int| 0 <= k < d.len() && same_module(#[trigger] d[k], m);
                    assert(same_module(ads[k], x));
                }
                assert(r[p.len() as int] == x);
            }
        }
        if s.contains(x) {
            let j = choose|j: int| 0 <= j < p.len() && p[j] == x;
            assert(r[j] == x);
        }
    }
}

proof fn lemma_known(s: Seq<ModuleV>, ads: Seq<ModuleV>, m: ModuleV)
    ensures
        known(merged(s, ads), m) <==> known(s, m) || known(ads, m),
    decreases ads.len(),
{
    if ads.len() > 0 {
        let d = ads.drop_last();
        let p = merged(s, d);
        let r = merged(s, ads);
        lemma_known(s, d, m);
        lemma_known(s, d, ads.last());
        if known(d, m) {
            let k = choose|k: int| 0 <= k < d.len() && same_module(#[trigger] d[k], m);
            assert(same_module(ads[k], m));
        }
        if known(ads, m) {
            let k = choose|k: int| 0 <= k < ads.len() && same_module(#[trigger] ads[k], m);
            if k < d.len() {
                assert(same_module(d[k], m));
            } else if known(p, ads.last()) {
                let i = choose|i: int|
                    0 <= i < p.len() && same_module(#[trigger] p[i], ads.last());
                assert(same_module(p[i], m));
            } else {
                assert(same_module(r[p.len() as int], m));
            }
        }
        if known(p, m) {
            let i = choose|i: int| 0 <= i < p.len() && same_module(#[trigger] p[i], m);
            assert(same_module(r[i], m));
        }
        if known(r, m) {
            let i = choose|i: int| 0 <= i < r.len() && same_module(#[trigger] r[i], m);
            if i < p.len() {
                assert(same_module(p[i], m));
            } else {
                assert(same_module(ads[ads.len() - 1], m));
            }
        }
    }
}

/// A list has one entry for each module at most.
pub open spec fn one_each(s: Seq<ModuleV>) -> bool {
    forall|i: int, k: int| 0 <= i < k < s.len() ==> !same_module(s[i], s[k])
}

/// Merging adds no second entry for a module.
pub proof fn law_one_entry_each(s: Seq<ModuleV>, ads: Seq<ModuleV>)
    requires
        one_each(s),
    ensures
        one_each(merged(s, ads)),
    decreases ads.len(),
{
    if ads.len() > 0 {
        law_one_entry_each(s, ads.drop_last());
        let p = merged(s, ads.drop_last());
        let r = merged(s, ads);
        assert forall|i: int, k: int| 0 <= i < k < r.len() implies !same_module(r[i], r[k]) by {
            if k < p.len() {
                assert(!same_module(p[i], p[k]));
            } else if same_module(r[i], r[k]) {
                assert(same_module(p[i], ads.last()));
            }
        }
    }
}

} // verus!
