//! Names for columns that an edit creates.
use vstd::prelude::*;
use crate::text::{contains_text, decimal, lemma_decimal_injective, push_decimal, texts};

verus! {

/// Whether a text is a run of decimal digits.
pub open spec fn all_digits(t: Seq<char>) -> bool {
    t.len() > 0 && forall|i: int| 0 <= i < t.len() ==> '0' <= #[trigger] t[i] <= '9'
}

/// What a wanted name is called before it is made free: no name at all takes the position,
/// and a number gets a letter in front.
pub open spec fn base_name(wanted: Seq<char>, position: u64) -> Seq<char> {
    if wanted.len() == 0 {
        "V"@ + decimal(position as nat)
    } else if all_digits(wanted) {
        "V"@ + wanted
    } else {
        wanted
    }
}

/// A name with a number behind it.
pub open spec fn numbered(base: Seq<char>, k: nat) -> Seq<char> {
    base + "_"@ + decimal(k)
}

/// The first number from `k` on that makes the name free. Among one number more than there
/// are names in use, one is free; numbers end where a machine word does.
pub open spec fn first_free(used: Seq<Seq<char>>, base: Seq<char>, k: nat) -> nat
    decreases used.len() + 2 - k,
{
    if k >= used.len() + 2 || k >= u64::MAX || !used.contains(numbered(base, k)) {
        k
    } else {
        first_free(used, base, k + 1)
    }
}

/// The name a new column gets: the wanted one, or the first of `_2`, `_3` and so on that is
/// free.
pub open spec fn new_name(used: Seq<Seq<char>>, wanted: Seq<char>, position: u64) -> Seq<char> {
    let base = base_name(wanted, position);
    if used.contains(base) {
        numbered(base, first_free(used, base, 2))
    } else {
        base
    }
}

fn is_all_digits(t: &String) -> (r: bool)
    ensures
        r == all_digits(t@),
{
    let n = t.as_str().unicode_len();
    if n == 0 {
        return false;
    }
    let mut i: usize = 0;
    while i < n
        invariant
            i <= n,
            n == t@.len(),
            forall|k: int| 0 <= k < i ==> '0' <= #[trigger] t@[k] <= '9',
        decreases n - i,
    {
        let c = t.as_str().get_char(i);
        if c < '0' || c > '9' {
            assert(!('0' <= t@[i as int] <= '9'));
            return false;
        }
        i = i + 1;
    }
    true
}

/// Names a new column.
pub fn unique_new_name(used: &Vec<String>, wanted: &String, position: u64) -> (r: String)
    ensures
        r@ == new_name(texts(used@), wanted@, position),
{
    let base = if wanted.as_str().unicode_len() == 0 {
        let mut b = "V".to_string();
        push_decimal(&mut b, position);
        b
    } else if is_all_digits(wanted) {
        let mut b = "V".to_string();
        b.append(wanted.as_str());
        b
    } else {
        wanted.clone()
    };
    assert(base@ == base_name(wanted@, position));
    if !contains_text(used, base.as_str()) {
        return base;
    }
    let n: u64 = used.len() as u64;
    let mut k: u64 = 2;
    loop
        invariant
            2 <= k <= n + 2,
            n == used@.len(),
            base@ == base_name(wanted@, position),
            texts(used@).contains(base@),
            first_free(texts(used@), base@, 2) == first_free(texts(used@), base@, k as nat),
        decreases n + 2 - k,
    {
        let mut name = base.clone();
        name.append("_");
        push_decimal(&mut name, k);
        if k - 2 >= n || k == u64::MAX || !contains_text(used, name.as_str()) {
            return name;
        }
        k = k + 1;
    }
}

proof fn lemma_numbered_injective(base: Seq<char>, a: nat, b: nat)
    requires
        numbered(base, a) == numbered(base, b),
    ensures
        a == b,
{
    let p = base + "_"@;
    assert(numbered(base, a).skip(p.len() as int) =~= decimal(a));
    assert(numbered(base, b).skip(p.len() as int) =~= decimal(b));
    lemma_decimal_injective(a, b);
}

/// Distinct numbers that are all in use are no more than the names in use.
proof fn lemma_pigeonhole(used: Seq<Seq<char>>, base: Seq<char>, k: nat, m: nat)
    requires
        forall|i: nat| k <= i < k + m ==> used.contains(#[trigger] numbered(base, i)),
    ensures
        m <= used.len(),
    decreases m,
{
    if m > 0 {
        let name = numbered(base, k);
        assert(used.contains(name));
        let at = used.index_of(name);
        let rest = used.remove(at);
        assert forall|i: nat| k + 1 <= i < (k + 1) + (m - 1) implies rest.contains(
            #[trigger] numbered(base, i),
        ) by {
            assert(used.contains(numbered(base, i)));
            let q = used.index_of(numbered(base, i));
            if q == at {
                lemma_numbered_injective(base, i, k);
            }
            if q < at {
                assert(rest[q] == numbered(base, i));
            } else {
                assert(rest[q - 1] == numbered(base, i));
            }
        }
        lemma_pigeonhole(rest, base, k + 1, (m - 1) as nat);
    }
}

proof fn lemma_first_free(used: Seq<Seq<char>>, base: Seq<char>, k: nat)
    requires
        used.len() + 2 <= u64::MAX,
        2 <= k <= used.len() + 2,
        forall|i: nat| 2 <= i < k ==> used.contains(#[trigger] numbered(base, i)),
    ensures
        !used.contains(numbered(base, first_free(used, base, k))),
        forall|i: nat|
            2 <= i < first_free(used, base, k) ==> used.contains(#[trigger] numbered(base, i)),
    decreases used.len() + 2 - k,
{
    if used.contains(numbered(base, k)) {
        if k >= used.len() + 2 {
            lemma_pigeonhole(used, base, 2, (k - 1) as nat);
        } else {
            lemma_first_free(used, base, k + 1);
        }
    }
}

/// A new column's name is free: whatever names are in use, it is none of them.
pub proof fn law_new_name_is_free(used: Seq<Seq<char>>, wanted: Seq<char>, position: u64)
    requires
        used.len() + 2 <= u64::MAX,
    ensures
        !used.contains(new_name(used, wanted, position)),
{
    lemma_first_free(used, base_name(wanted, position), 2);
}

/// The wanted name is kept where it is free; else every smaller number was taken.
pub proof fn law_new_name_is_least(used: Seq<Seq<char>>, wanted: Seq<char>, position: u64)
    requires
        used.len() + 2 <= u64::MAX,
    ensures
        ({
            let base = base_name(wanted, position);
            !used.contains(base) && new_name(used, wanted, position) == base || (exists|k: nat|
                2 <= k && new_name(used, wanted, position) == #[trigger] numbered(base, k) && (
                forall|i: nat| 2 <= i < k ==> used.contains(#[trigger] numbered(base, i))))
        }),
{
    let base = base_name(wanted, position);
    lemma_first_free(used, base, 2);
    if used.contains(base) {
        let k = first_free(used, base, 2);
        lemma_free_bound(used, base, 2);
        assert(new_name(used, wanted, position) == numbered(base, k));
    }
}

proof fn lemma_free_bound(used: Seq<Seq<char>>, base: Seq<char>, k: nat)
    ensures
        first_free(used, base, k) >= k,
    decreases used.len() + 2 - k,
{
    if k < used.len() + 2 && k < u64::MAX && used.contains(numbered(base, k)) {
        lemma_free_bound(used, base, k + 1);
    }
}

} // verus!
