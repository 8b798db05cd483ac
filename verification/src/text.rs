//! Text: decimal numerals, joining, and searching lists of strings.
use vstd::prelude::*;

verus! {

/// The decimal digit for `d`.
pub open spec fn digit(d: nat) -> char {
    if d == 0 {
        '0'
    } else if d == 1 {
        '1'
    } else if d == 2 {
        '2'
    } else if d == 3 {
        '3'
    } else if d == 4 {
        '4'
    } else if d == 5 {
        '5'
    } else if d == 6 {
        '6'
    } else if d == 7 {
        '7'
    } else if d == 8 {
        '8'
    } else {
        '9'
    }
}

/// The decimal numeral of `n`, most significant digit first.
pub open spec fn decimal(n: nat) -> Seq<char>
    decreases n,
{
    if n < 10 {
        seq![digit(n)]
    } else {
        decimal(n / 10).push(digit(n % 10))
    }
}

/// A numeral can be read back.
pub proof fn lemma_decimal_injective(a: nat, b: nat)
    requires
        decimal(a) == decimal(b),
    ensures
        a == b,
    decreases a + b,
{
    if a < 10 && b < 10 {
        assert(decimal(a)[0] == digit(a));
        assert(decimal(b)[0] == digit(b));
        lemma_digit_injective(a, b);
    } else if a < 10 {
        lemma_decimal_len((b / 10) as nat);
        assert(decimal(b).len() >= 2);
    } else if b < 10 {
        lemma_decimal_len((a / 10) as nat);
        assert(decimal(a).len() >= 2);
    } else {
        assert(decimal(a).drop_last() =~= decimal(a / 10));
        assert(decimal(b).drop_last() =~= decimal(b / 10));
        lemma_decimal_injective(a / 10, b / 10);
        assert(decimal(a).last() == digit(a % 10));
        assert(decimal(b).last() == digit(b % 10));
        lemma_digit_injective(a % 10, b % 10);
        assert(a == 10 * (a / 10) + a % 10);
        assert(b == 10 * (b / 10) + b % 10);
    }
}

proof fn lemma_digit_injective(a: nat, b: nat)
    requires
        a < 10,
        b < 10,
        digit(a) == digit(b),
    ensures
        a == b,
{
}

proof fn lemma_decimal_len(n: nat)
    ensures
        decimal(n).len() >= 1,
    decreases n,
{
    if n >= 10 {
        lemma_decimal_len(n / 10);
    }
}

/// One digit as a string.
fn digit_text(d: u64) -> (r: &'static str)
    requires
        d < 10,
    ensures
        r@ == seq![digit(d as nat)],
{
    proof {
        reveal_strlit("0");
        reveal_strlit("1");
        reveal_strlit("2");
        reveal_strlit("3");
        reveal_strlit("4");
        reveal_strlit("5");
        reveal_strlit("6");
        reveal_strlit("7");
        reveal_strlit("8");
        reveal_strlit("9");
    }
    let r = if d == 0 {
        "0"
    } else if d == 1 {
        "1"
    } else if d == 2 {
        "2"
    } else if d == 3 {
        "3"
    } else if d == 4 {
        "4"
    } else if d == 5 {
        "5"
    } else if d == 6 {
        "6"
    } else if d == 7 {
        "7"
    } else if d == 8 {
        "8"
    } else {
        "9"
    };
    assert(r@ =~= seq![digit(d as nat)]);
    r
}

/// The decimal numeral of a number.
pub fn decimal_text(n: u64) -> (r: String)
    ensures
        r@ == decimal(n as nat),
    decreases n,
{
    if n < 10 {
        let r = digit_text(n).to_string();
        assert(r@ =~= decimal(n as nat));
        r
    } else {
        let mut r = decimal_text(n / 10);
        r.append(digit_text(n % 10));
        assert(r@ =~= decimal(n as nat));
        r
    }
}

/// Appends the decimal numeral of a number.
pub fn push_decimal(s: &mut String, n: u64)
    ensures
        final(s)@ == old(s)@ + decimal(n as nat),
{
    let t = decimal_text(n);
    s.append(t.as_str());
}

/// Whether a string is the given text.
pub fn same(a: &String, b: &str) -> (r: bool)
    ensures
        r == (a@ == b@),
{
    *a == b.to_string()
}

/// The texts of a list of strings.
pub open spec fn texts(v: Seq<String>) -> Seq<Seq<char>> {
    Seq::new(v.len(), |i: int| v[i]@)
}

/// The last position at which `t` stands in `s`.
pub open spec fn index_of(s: Seq<Seq<char>>, t: Seq<char>) -> Option<nat>
    decreases s.len(),
{
    if s.len() == 0 {
        None
    } else if s.last() == t {
        Some((s.len() - 1) as nat)
    } else {
        index_of(s.drop_last(), t)
    }
}

/// What `index_of` finds holds the text, and no later position does.
pub proof fn lemma_index_of(s: Seq<Seq<char>>, t: Seq<char>)
    ensures
        match index_of(s, t) {
            Some(i) => i < s.len() && s[i as int] == t && (forall|k: int|
                i < k < s.len() ==> s[k] != t),
            None => forall|k: int| 0 <= k < s.len() ==> s[k] != t,
        },
        index_of(s, t) is Some <==> s.contains(t),
    decreases s.len(),
{
    if s.len() > 0 {
        if s.last() == t {
            assert(s[s.len() - 1] == t);
        } else {
            lemma_index_of(s.drop_last(), t);
            let p = s.drop_last();
            assert forall|k: int| 0 <= k < p.len() implies p[k] == s[k] by {}
            if index_of(p, t) is None {
                assert forall|k: int| 0 <= k < s.len() implies s[k] != t by {
                    if k < p.len() {
                        assert(p[k] != t);
                    }
                }
            } else {
                let i = index_of(p, t)->0;
                assert(s[i as int] == t);
                assert forall|k: int| i < k < s.len() implies s[k] != t by {
                    if k < p.len() {
                        assert(p[k] != t);
                    }
                }
            }
        }
    }
}

/// Whether a list of strings holds the given text.
pub fn contains_text(v: &Vec<String>, t: &str) -> (r: bool)
    ensures
        r == texts(v@).contains(t@),
{
    let key = t.to_string();
    let mut i: usize = 0;
    while i < v.len()
        invariant
            i <= v.len(),
            key@ == t@,
            forall|k: int| 0 <= k < i ==> texts(v@)[k] != t@,
        decreases v.len() - i,
    {
        if v[i] == key {
            assert(texts(v@)[i as int] == t@);
            return true;
        }
        i = i + 1;
    }
    false
}

/// The strings joined by `sep`.
pub open spec fn joined(s: Seq<Seq<char>>, sep: Seq<char>) -> Seq<char>
    decreases s.len(),
{
    if s.len() == 0 {
        Seq::empty()
    } else if s.len() == 1 {
        s[0]
    } else {
        joined(s.drop_last(), sep) + sep + s.last()
    }
}

/// Joins strings with a separator between them.
pub fn join_texts(v: &Vec<String>, sep: &str) -> (r: String)
    ensures
        r@ == joined(texts(v@), sep@),
{
    if v.len() == 0 {
        assert(joined(texts(v@), sep@) =~= Seq::<char>::empty());
        return String::new();
    }
    let mut r = v[0].clone();
    assert(texts(v@).take(1)[0] == r@);
    let mut i: usize = 1;
    while i < v.len()
        invariant
            1 <= i <= v.len(),
            r@ == joined(texts(v@).take(i as int), sep@),
        decreases v.len() - i,
    {
        r.append(sep);
        r.append(v[i].as_str());
        assert(texts(v@).take(i + 1).drop_last() =~= texts(v@).take(i as int));
        i = i + 1;
    }
    assert(texts(v@).take(v@.len() as int) =~= texts(v@));
    r
}

/// Copies a list of strings.
pub fn clone_texts(v: &Vec<String>) -> (r: Vec<String>)
    ensures
        r@ =~= v@,
{
    let mut r: Vec<String> = Vec::new();
    let mut i: usize = 0;
    while i < v.len()
        invariant
            i <= v.len(),
            r@ =~= v@.take(i as int),
        decreases v.len() - i,
    {
        r.push(v[i].clone());
        i = i + 1;
    }
    r
}

/// Whether no text stands twice in `s`.
pub open spec fn distinct(s: Seq<Seq<char>>) -> bool {
    forall|i: int, k: int| 0 <= i < k < s.len() ==> s[i] != s[k]
}

/// The first entry of `s` that stands in it before, if any.
pub open spec fn first_repeat(s: Seq<Seq<char>>) -> Option<Seq<char>>
    decreases s.len(),
{
    if s.len() == 0 {
        None
    } else {
        match first_repeat(s.drop_last()) {
            Some(t) => Some(t),
            None => if s.drop_last().contains(s.last()) {
                Some(s.last())
            } else {
                None
            },
        }
    }
}

/// A list without a repeat is distinct.
pub proof fn lemma_first_repeat(s: Seq<Seq<char>>)
    ensures
        first_repeat(s) is None <==> distinct(s),
    decreases s.len(),
{
    if s.len() > 0 {
        let p = s.drop_last();
        lemma_first_repeat(p);
        if distinct(s) {
            assert forall|i: int, k: int| 0 <= i < k < p.len() implies p[i] != p[k] by {
                assert(s[i] != s[k]);
            }
            if p.contains(s.last()) {
                let i = p.index_of(s.last());
                assert(s[i] != s[s.len() - 1]);
            }
        }
        if first_repeat(s) is None {
            assert forall|i: int, k: int| 0 <= i < k < s.len() implies s[i] != s[k] by {
                if k < p.len() {
                    assert(p[i] != p[k]);
                } else {
                    assert(p[i] == s[i]);
                    assert(p.contains(p[i]));
                }
            }
        }
    }
}

/// Finds the first entry of a list that stands in it before.
pub fn find_repeat(v: &Vec<String>) -> (r: Option<&String>)
    ensures
        match (r, first_repeat(texts(v@))) {
            (Some(a), Some(b)) => a@ == b,
            (None, None) => true,
            _ => false,
        },
{
    let mut seen = vstd::hash_map::StringHashMap::<bool>::new();
    let mut i: usize = 0;
    while i < v.len()
        invariant
            i <= v.len(),
            first_repeat(texts(v@).take(i as int)) is None,
            forall|t: Seq<char>| seen@.contains_key(t) <==> texts(v@).take(i as int).contains(t),
        decreases v.len() - i,
    {
        let ghost p = texts(v@).take(i as int);
        let ghost q = texts(v@).take(i + 1);
        assert(q.drop_last() =~= p);
        assert(q.last() == v@[i as int]@);
        if seen.contains_key(v[i].as_str()) {
            proof {
                lemma_first_repeat_prefix(texts(v@), i + 1);
            }
            return Some(&v[i]);
        }
        seen.insert(v[i].clone(), true);
        assert(q =~= p.push(v@[i as int]@));
        assert forall|t: Seq<char>| seen@.contains_key(t) <==> q.contains(t) by {
            if p.contains(t) {
                let k = p.index_of(t);
                assert(q[k] == t);
            }
            if q.contains(t) {
                let k = q.index_of(t);
                if k < i {
                    assert(p[k] == t);
                }
            }
            assert(q[i as int] == v@[i as int]@);
        }
        i = i + 1;
    }
    assert(texts(v@).take(v@.len() as int) =~= texts(v@));
    None
}

proof fn lemma_first_repeat_prefix(s: Seq<Seq<char>>, k: int)
    requires
        0 <= k <= s.len(),
        first_repeat(s.take(k)) is Some,
    ensures
        first_repeat(s) == first_repeat(s.take(k)),
    decreases s.len() - k,
{
    if k < s.len() {
        assert(s.take(k + 1).drop_last() =~= s.take(k));
        lemma_first_repeat_prefix(s, k + 1);
    } else {
        assert(s.take(k) =~= s);
    }
}

} // verus!
