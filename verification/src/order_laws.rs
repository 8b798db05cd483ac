//! What number patterns stand for, and the order of levels.
use vstd::arithmetic::div_mod::{
    lemma_mod_multiples_basic, lemma_mod_multiples_vanish, lemma_small_mod, lemma_truncate_middle,
};
use vstd::arithmetic::power2::{
    lemma2_to64, lemma_pow2_adds, lemma_pow2_pos, lemma_pow2_strictly_increases, lemma_pow2_unfold,
    pow2,
};
use vstd::prelude::*;
use crate::edit_schema::{lemma_less_asymmetric, lemma_less_total, lemma_less_transitive};
use crate::levels::{all_numbers, lemma_prebuilt, level_less, prebuilt, rank, sorted, text_less};
use crate::number::{finite, integral, order_key, unified, NumeralsV};

verus! {

/// The size of the number that a pattern of a double stands for, in units of the smallest one
/// there is.
pub open spec fn magnitude(bits: u64) -> nat {
    let e = bits as nat / 0x10_0000_0000_0000 % 0x800;
    let f = bits as nat % 0x10_0000_0000_0000;
    if e == 0 {
        f
    } else {
        (0x10_0000_0000_0000 + f) * pow2((e - 1) as nat)
    }
}

/// The number that a pattern of a double stands for, in the same units.
pub open spec fn value(bits: u64) -> int {
    if bits >= 0x8000_0000_0000_0000 {
        -magnitude(bits)
    } else {
        magnitude(bits) as int
    }
}

proof fn lemma_larger(x: u64, y: u64)
    requires
        x % 0x8000_0000_0000_0000 < y % 0x8000_0000_0000_0000,
    ensures
        magnitude(x) < magnitude(y),
{
    let a = (x % 0x8000_0000_0000_0000) as nat;
    let b = (y % 0x8000_0000_0000_0000) as nat;
    let ea = x as nat / 0x10_0000_0000_0000 % 0x800;
    let eb = y as nat / 0x10_0000_0000_0000 % 0x800;
    let fa = x as nat % 0x10_0000_0000_0000;
    let fb = y as nat % 0x10_0000_0000_0000;
    assert(a == ea * 0x10_0000_0000_0000 + fa);
    assert(b == eb * 0x10_0000_0000_0000 + fb);
    let unit: nat = 0x10_0000_0000_0000;
    if ea == eb {
        if ea > 0 {
            let p = pow2((ea - 1) as nat);
            lemma_pow2_pos((ea - 1) as nat);
            assert((unit + fa) * p < (unit + fb) * p) by (nonlinear_arith)
                requires
                    fa < fb,
                    p > 0,
            ;
        }
    } else {
        assert(ea < eb);
        let q = pow2((eb - 1) as nat);
        lemma_pow2_pos((eb - 1) as nat);
        assert(unit * q <= (unit + fb) * q) by (nonlinear_arith);
        if ea == 0 {
            assert(unit <= unit * q) by (nonlinear_arith)
                requires
                    q > 0,
            ;
        } else {
            let p = pow2((ea - 1) as nat);
            lemma_pow2_pos((ea - 1) as nat);
            lemma_pow2_unfold(ea);
            if ea < eb - 1 {
                lemma_pow2_strictly_increases(ea, (eb - 1) as nat);
            }
            assert(2 * p <= q);
            assert((unit + fa) * p < (2 * unit) * p) by (nonlinear_arith)
                requires
                    fa < unit,
                    p > 0,
            ;
            assert((2 * unit) * p <= unit * q) by (nonlinear_arith)
                requires
                    2 * p <= q,
            ;
        }
    }
}

/// Finite patterns are ordered as the numbers that they stand for, and the two zeros are one.
pub proof fn law_patterns_are_ordered_as_numbers(a: u64, b: u64)
    ensures
        order_key(a) < order_key(b) <==> value(a) < value(b),
        order_key(a) == order_key(b) <==> value(a) == value(b),
        unified(a) == unified(b) <==> value(a) == value(b),
{
    let x = a % 0x8000_0000_0000_0000;
    let y = b % 0x8000_0000_0000_0000;
    if x < y {
        lemma_larger(a, b);
    } else if y < x {
        lemma_larger(b, a);
    } else {
        assert(magnitude(a) == magnitude(b)) by {
            assert(a as nat / 0x10_0000_0000_0000 % 0x800 == b as nat / 0x10_0000_0000_0000
                % 0x800);
            assert(a as nat % 0x10_0000_0000_0000 == b as nat % 0x10_0000_0000_0000);
        }
    }
    if x > 0 {
        lemma_larger(0, a);
    }
    if y > 0 {
        lemma_larger(0, b);
    }
    assert(magnitude(0) == 0);
    if x == 0 {
        assert(magnitude(a) == 0);
    }
    if y == 0 {
        assert(magnitude(b) == 0);
    }
}

/// A pattern is finite unless all bits of its exponent are set. It is an integer exactly where it
/// is finite and the number that it stands for has no fraction.
pub proof fn law_integers_have_no_fraction(bits: u64)
    ensures
        finite(bits) <==> bits as nat / 0x10_0000_0000_0000 % 0x800 != 0x7ff,
        integral(bits) <==> finite(bits) && magnitude(bits) % pow2(1074) == 0,
{
    let e = bits as nat / 0x10_0000_0000_0000 % 0x800;
    let f = bits as nat % 0x10_0000_0000_0000;
    let unit: nat = 0x10_0000_0000_0000;
    let one = pow2(1074);
    lemma_pow2_pos(1074);
    lemma2_to64();
    lemma_pow2_adds(32, 20);
    assert(pow2(52) == unit);
    if e == 0 {
        lemma_pow2_strictly_increases(52, 1074);
        lemma_small_mod(f, one);
    } else if e < 1023 {
        let p = pow2((e - 1) as nat);
        lemma_pow2_pos((e - 1) as nat);
        lemma_pow2_adds(53, (e - 1) as nat);
        lemma_pow2_unfold(53);
        assert(pow2(53) == 2 * unit);
        let m = magnitude(bits);
        assert(m > 0 && m < pow2((53 + (e - 1)) as nat)) by (nonlinear_arith)
            requires
                m == (unit + f) * p,
                f < unit,
                p > 0,
                pow2((53 + (e - 1)) as nat) == (2 * unit) * p,
                unit > 0,
        ;
        if 52 + e < 1074 {
            lemma_pow2_strictly_increases((52 + e) as nat, 1074);
        }
        lemma_small_mod(m, one);
    } else if e < 1075 {
        let p = pow2((e - 1) as nat);
        let c = pow2((1075 - e) as nat);
        lemma_pow2_pos((e - 1) as nat);
        lemma_pow2_pos((1075 - e) as nat);
        lemma_pow2_adds((e - 1) as nat, (1075 - e) as nat);
        assert(p * c == one);
        let x = (unit + f) as int;
        lemma_truncate_middle(x, p as int, c as int);
        assert((unit + f) * p == p * x) by (nonlinear_arith)
            requires
                x == unit + f,
        ;
        assert(magnitude(bits) as int % one as int == p * (x % c as int));
        let k = pow2((52 - (1075 - e)) as nat);
        lemma_pow2_adds((1075 - e) as nat, (52 - (1075 - e)) as nat);
        assert(unit == c * k);
        lemma_mod_multiples_vanish(k as int, f as int, c as int);
        assert(x % c as int == f as int % c as int);
        let z = x % c as int;
        assert(p * z == 0 <==> z == 0) by (nonlinear_arith)
            requires
                p > 0,
        ;
    } else {
        let k = pow2((e - 1075) as nat);
        lemma_pow2_adds(1074, (e - 1075) as nat);
        assert(pow2((e - 1) as nat) == one * k);
        assert((unit + f) * (one * k) == ((unit + f) * k) * one) by (nonlinear_arith);
        lemma_mod_multiples_basic(((unit + f) * k) as int, one as int);
    }
}

/// One text comes before another where it is shorter and the other goes on from it, or has the
/// lower character where the two first differ.
pub proof fn law_texts_are_ordered_by_their_first_difference(a: Seq<char>, b: Seq<char>)
    ensures
        text_less(a, b) <==> exists|k: int|
            0 <= k <= a.len() && k < b.len() && #[trigger] a.take(k) == b.take(k) && (k == a.len()
                || a[k] < b[k]),
    decreases a.len(),
{
    if text_less(a, b) {
        if a.len() == 0 {
            assert(a.take(0) =~= b.take(0));
        } else if a[0] != b[0] {
            assert(a.take(0) =~= b.take(0));
        } else {
            let x = a.drop_first();
            let y = b.drop_first();
            law_texts_are_ordered_by_their_first_difference(x, y);
            let k = choose|k: int|
                0 <= k <= x.len() && k < y.len() && #[trigger] x.take(k) == y.take(k) && (k
                    == x.len() || x[k] < y[k]);
            assert forall|i: int| 0 <= i < k + 1 implies a[i] == b[i] by {
                if i > 0 {
                    assert(x.take(k)[i - 1] == y.take(k)[i - 1]);
                }
            }
            assert(a.take(k + 1) =~= b.take(k + 1));
        }
    }
    if exists|k: int|
        0 <= k <= a.len() && k < b.len() && #[trigger] a.take(k) == b.take(k) && (k == a.len()
            || a[k] < b[k]) {
        let k = choose|k: int|
            0 <= k <= a.len() && k < b.len() && #[trigger] a.take(k) == b.take(k) && (k == a.len()
                || a[k] < b[k]);
        if k > 0 {
            let x = a.drop_first();
            let y = b.drop_first();
            assert(a.take(k)[0] == b.take(k)[0]);
            assert forall|i: int| 0 <= i < k - 1 implies x[i] == y[i] by {
                assert(a.take(k)[i + 1] == b.take(k)[i + 1]);
            }
            assert(x.take(k - 1) =~= y.take(k - 1));
            law_texts_are_ordered_by_their_first_difference(x, y);
        }
    }
}

proof fn lemma_level_less(num: NumeralsV, numeric: bool, a: Seq<char>, b: Seq<char>, c: Seq<char>)
    ensures
        !(level_less(num, numeric, a, b) && level_less(num, numeric, b, a)),
        !level_less(num, numeric, b, a) && !level_less(num, numeric, c, b) ==> !level_less(
            num,
            numeric,
            c,
            a,
        ),
{
    lemma_less_asymmetric(a, b);
    lemma_less_asymmetric(a, c);
    lemma_less_asymmetric(b, c);
    lemma_less_total(a, b);
    lemma_less_total(b, c);
    lemma_less_total(a, c);
    if text_less(a, b) && text_less(b, c) {
        lemma_less_transitive(a, b, c);
    }
    if text_less(c, a) && text_less(a, b) {
        lemma_less_transitive(c, a, b);
    }
    if text_less(b, c) && text_less(c, a) {
        lemma_less_transitive(b, c, a);
    }
}

proof fn lemma_rank_place(num: NumeralsV, numeric: bool, s: Seq<Seq<char>>, t: Seq<char>)
    ensures
        ({
            let r = rank(num, numeric, s, t) as int;
            &&& r <= s.len()
            &&& r > 0 ==> !level_less(num, numeric, t, s[r - 1])
            &&& forall|i: int| r <= i < s.len() ==> level_less(num, numeric, t, #[trigger] s[i])
        }),
    decreases s.len(),
{
    if s.len() > 0 && level_less(num, numeric, t, s.last()) {
        let d = s.drop_last();
        lemma_rank_place(num, numeric, d, t);
        assert forall|i: int| rank(num, numeric, s, t) <= i < s.len() implies level_less(
            num,
            numeric,
            t,
            #[trigger] s[i],
        ) by {
            if i < d.len() {
                assert(d[i] == s[i]);
            }
        }
    }
}

proof fn lemma_in_order(num: NumeralsV, numeric: bool, s: Seq<Seq<char>>)
    ensures
        forall|a: int, b: int|
            0 <= a < b < s.len() ==> !level_less(
                num,
                numeric,
                #[trigger] sorted(num, numeric, s)[b],
                #[trigger] sorted(num, numeric, s)[a],
            ),
        sorted(num, numeric, s).len() == s.len(),
    decreases s.len(),
{
    if s.len() > 0 {
        let d = s.drop_last();
        let t = s.last();
        lemma_in_order(num, numeric, d);
        let p = sorted(num, numeric, d);
        let r = rank(num, numeric, p, t) as int;
        lemma_rank_place(num, numeric, p, t);
        let q = sorted(num, numeric, s);
        assert(q == p.insert(r, t));
        assert forall|a: int, b: int| 0 <= a < b < s.len() implies !level_less(
            num,
            numeric,
            #[trigger] q[b],
            #[trigger] q[a],
        ) by {
            if b == r {
                assert(q[a] == p[a]);
                if a < r - 1 {
                    assert(!level_less(num, numeric, p[r - 1], p[a]));
                    lemma_level_less(num, numeric, p[a], p[r - 1], t);
                }
            } else if a == r {
                assert(q[b] == p[b - 1]);
                lemma_level_less(num, numeric, t, p[b - 1], t);
            } else {
                let x = if a < r {
                    a
                } else {
                    a - 1
                };
                let y = if b < r {
                    b
                } else {
                    b - 1
                };
                assert(q[a] == p[x]);
                assert(q[b] == p[y]);
            }
        }
    }
}

/// Levels that are put in order, where they are no more than the limit, stand in the order of
/// the numbers that they spell if all of them are numbers, and otherwise, and where the numbers
/// are the same, in the order of their texts. More than the limit are left as they came.
pub proof fn law_levels_are_put_in_order(
    s: Seq<Seq<char>>,
    num: NumeralsV,
    limit: nat,
    a: int,
    b: int,
)
    requires
        0 <= a < b < s.len(),
    ensures
        ({
            let g = prebuilt(s, num, limit);
            let numeric = forall|i: int| 0 <= i < s.len() ==> num.parse(#[trigger] s[i]) is Some;
            let x = value(num.parse(g[a])->0);
            let y = value(num.parse(g[b])->0);
            &&& g.len() == s.len()
            &&& s.len() > limit ==> g == s
            &&& s.len() <= limit && numeric ==> x < y || (x == y && !text_less(g[b], g[a]))
            &&& s.len() <= limit && !numeric ==> !text_less(g[b], g[a])
        }),
{
    lemma_prebuilt(s, num, limit);
    lemma_in_order(num, all_numbers(s, num), s);
    let g = prebuilt(s, num, limit);
    law_patterns_are_ordered_as_numbers(num.parse(g[a])->0, num.parse(g[b])->0);
    law_patterns_are_ordered_as_numbers(num.parse(g[b])->0, num.parse(g[a])->0);
    if s.len() <= limit {
        assert(!level_less(num, all_numbers(s, num), g[b], g[a]));
    }
}

/// Levels stand in the order of the numbers that they spell if all of them are numbers, and
/// otherwise, and where the numbers are the same, in the order of their texts.
pub open spec fn in_level_order(g: Seq<Seq<char>>, num: NumeralsV) -> bool {
    let numeric = forall|i: int| 0 <= i < g.len() ==> num.parse(#[trigger] g[i]) is Some;
    forall|a: int, b: int|
        #![trigger g[a], g[b]]
        0 <= a < b < g.len() ==> if numeric {
            value(num.parse(g[a])->0) < value(num.parse(g[b])->0) || (value(num.parse(g[a])->0)
                == value(num.parse(g[b])->0) && !text_less(g[b], g[a]))
        } else {
            !text_less(g[b], g[a])
        }
}

/// A dictionary that is built from no more texts than the limit is in order.
pub proof fn lemma_prebuilt_in_order(s: Seq<Seq<char>>, num: NumeralsV, limit: nat)
    requires
        s.len() <= limit,
    ensures
        in_level_order(prebuilt(s, num, limit), num),
{
    let g = prebuilt(s, num, limit);
    lemma_prebuilt(s, num, limit);
    let numeric = forall|i: int| 0 <= i < g.len() ==> num.parse(#[trigger] g[i]) is Some;
    assert(numeric == all_numbers(s, num)) by {
        if numeric {
            assert forall|i: int| 0 <= i < s.len() implies num.parse(#[trigger] s[i]) is Some by {
                assert(s.contains(s[i]));
                assert(g.contains(s[i]));
                let k = g.index_of(s[i]);
                assert(num.parse(g[k]) is Some);
            }
        }
        if all_numbers(s, num) {
            assert forall|i: int| 0 <= i < g.len() implies num.parse(#[trigger] g[i]) is Some by {
                assert(g.contains(g[i]));
                assert(s.contains(g[i]));
                let k = s.index_of(g[i]);
                assert(num.parse(s[k]) is Some);
            }
        }
    }
    assert forall|a: int, b: int| #![trigger g[a], g[b]] 0 <= a < b < g.len() implies if numeric {
        value(num.parse(g[a])->0) < value(num.parse(g[b])->0) || (value(num.parse(g[a])->0)
            == value(num.parse(g[b])->0) && !text_less(g[b], g[a]))
    } else {
        !text_less(g[b], g[a])
    } by {
        law_levels_are_put_in_order(s, num, limit, a, b);
    }
}

} // verus!
