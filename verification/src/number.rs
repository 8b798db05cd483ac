//! Numbers by their IEEE 754 binary64 bit patterns, and the numerals of an edit.
use vstd::arithmetic::power2::pow2;
use vstd::hash_map::StringHashMap;
use vstd::prelude::*;
use std::collections::HashMap;
use crate::text::{decimal, decimal_text};

verus! {

/// The biased exponent of a bit pattern.
pub open spec fn exponent(bits: u64) -> nat {
    ((bits / 0x10_0000_0000_0000) % 0x800) as nat
}

/// The fraction field of a bit pattern.
pub open spec fn fraction(bits: u64) -> nat {
    (bits % 0x10_0000_0000_0000) as nat
}

/// Whether the pattern is a finite number.
pub open spec fn finite(bits: u64) -> bool {
    exponent(bits) != 0x7ff
}

/// Whether the pattern is a finite number without a fractional part.
pub open spec fn integral(bits: u64) -> bool {
    let e = exponent(bits);
    let f = fraction(bits);
    if e == 0 {
        f == 0
    } else if e < 1023 || e == 0x7ff {
        false
    } else if e >= 1075 {
        true
    } else {
        f % pow2((1075 - e) as nat) == 0
    }
}

/// The pattern with the two zeros made one.
pub open spec fn unified(bits: u64) -> u64 {
    if bits == 0x8000_0000_0000_0000 {
        0
    } else {
        bits
    }
}

/// A key that orders finite patterns as the numbers they stand for.
pub open spec fn order_key(bits: u64) -> int {
    if bits < 0x8000_0000_0000_0000 {
        bits as int
    } else {
        0x8000_0000_0000_0000 - bits
    }
}

/// Whether the pattern is a finite number.
pub fn is_finite(bits: u64) -> (r: bool)
    ensures
        r == finite(bits),
{
    (bits / 0x10_0000_0000_0000) % 0x800 != 0x7ff
}

/// Whether the pattern is a finite number without a fractional part.
pub fn is_integral(bits: u64) -> (r: bool)
    ensures
        r == integral(bits),
{
    let e: u64 = (bits / 0x10_0000_0000_0000) % 0x800;
    let f: u64 = bits % 0x10_0000_0000_0000;
    if e == 0 {
        f == 0
    } else if e < 1023 || e == 0x7ff {
        false
    } else if e >= 1075 {
        true
    } else {
        let shift: u64 = 1075 - e;
        let mut p: u64 = 1;
        let mut i: u64 = 0;
        proof {
            vstd::arithmetic::power2::lemma2_to64();
            vstd::arithmetic::power2::lemma_pow2_adds(32, 20);
        }
        while i < shift
            invariant
                i <= shift <= 52,
                p == pow2(i as nat),
                pow2(52) == 0x10_0000_0000_0000,
            decreases shift - i,
        {
            proof {
                vstd::arithmetic::power2::lemma_pow2_unfold((i + 1) as nat);
                if i + 1 < 52 {
                    vstd::arithmetic::power2::lemma_pow2_strictly_increases((i + 1) as nat, 52);
                }
            }
            p = p * 2;
            i = i + 1;
        }
        proof {
            vstd::arithmetic::power2::lemma_pow2_pos(shift as nat);
        }
        f % p == 0
    }
}

/// The pattern with the two zeros made one.
pub fn unify(bits: u64) -> (r: u64)
    ensures
        r == unified(bits),
{
    if bits == 0x8000_0000_0000_0000 {
        0
    } else {
        bits
    }
}

/// Whether the first finite pattern stands for the smaller number.
pub fn number_below(a: u64, b: u64) -> (r: bool)
    ensures
        r == (order_key(a) < order_key(b)),
{
    let top: u64 = 0x8000_0000_0000_0000;
    if a < top {
        if b < top {
            a < b
        } else {
            false
        }
    } else if b < top {
        !(a == top && b == 0)
    } else {
        b < a
    }
}

/// How numbers are read and written in one edit: what each text parses to under the
/// ingest locale, what each numeric text is in canonical form, and how each number shows.
pub struct Numerals {
    active: bool,
    parsed: StringHashMap<u64>,
    canonical: StringHashMap<String>,
    shown: HashMap<u64, String>,
}

/// The mathematical value of [`Numerals`].
pub struct NumeralsV {
    /// Whether the locale differs from the plain one, so that texts are canonicalized.
    pub active: bool,
    pub parsed: Map<Seq<char>, u64>,
    pub canonical: Map<Seq<char>, Seq<char>>,
    pub shown: Map<u64, Seq<char>>,
}

impl NumeralsV {
    /// The number a text stands for.
    pub open spec fn parse(self, t: Seq<char>) -> Option<u64> {
        if self.parsed.contains_key(t) {
            Some(self.parsed[t])
        } else {
            None
        }
    }

    /// The canonical form of a text, or the text where it has none.
    pub open spec fn canon(self, t: Seq<char>) -> Seq<char> {
        if self.canonical.contains_key(t) {
            self.canonical[t]
        } else {
            t
        }
    }

    /// How a number shows. One that is not listed shows as the numeral of its pattern.
    pub open spec fn show(self, bits: u64) -> Seq<char> {
        if self.shown.contains_key(bits) {
            self.shown[bits]
        } else {
            decimal(bits as nat)
        }
    }
}

impl View for Numerals {
    type V = NumeralsV;

    closed spec fn view(&self) -> NumeralsV {
        NumeralsV {
            active: self.active,
            parsed: self.parsed@,
            canonical: Map::new(
                |t: Seq<char>| self.canonical@.contains_key(t),
                |t: Seq<char>| self.canonical@[t]@,
            ),
            shown: Map::new(
                |b: u64| self.shown@.contains_key(b),
                |b: u64| self.shown@[b]@,
            ),
        }
    }
}

impl Numerals {
    /// Numerals that list nothing yet.
    pub fn new(active: bool) -> (r: Numerals)
        ensures
            r@ == (NumeralsV {
                active,
                parsed: Map::empty(),
                canonical: Map::empty(),
                shown: Map::empty(),
            }),
    {
        let r = Numerals {
            active,
            parsed: StringHashMap::new(),
            canonical: StringHashMap::new(),
            shown: HashMap::new(),
        };
        assert(r@.canonical =~= Map::empty());
        assert(r@.shown =~= Map::empty());
        r
    }

    /// Lists that a text stands for a number.
    pub fn add_parsed(&mut self, t: String, bits: u64)
        ensures
            final(self)@ == (NumeralsV { parsed: old(self)@.parsed.insert(t@, bits), ..old(self)@ }),
    {
        self.parsed.insert(t, bits);
        assert(self@.canonical =~= old(self)@.canonical);
        assert(self@.shown =~= old(self)@.shown);
    }

    /// Lists the canonical form of a text.
    pub fn add_canonical(&mut self, t: String, canonical: String)
        ensures
            final(self)@ == (NumeralsV {
                canonical: old(self)@.canonical.insert(t@, canonical@),
                ..old(self)@
            }),
    {
        self.canonical.insert(t, canonical);
        assert(self@.canonical =~= old(self)@.canonical.insert(t@, canonical@));
        assert(self@.shown =~= old(self)@.shown);
    }

    /// Lists how a number shows.
    pub fn add_shown(&mut self, bits: u64, t: String)
        ensures
            final(self)@ == (NumeralsV { shown: old(self)@.shown.insert(bits, t@), ..old(self)@ }),
    {
        broadcast use vstd::std_specs::hash::group_hash_axioms;

        self.shown.insert(bits, t);
        assert(self@.shown =~= old(self)@.shown.insert(bits, t@));
        assert(self@.canonical =~= old(self)@.canonical);
    }

    /// Whether texts are canonicalized.
    pub fn is_active(&self) -> (r: bool)
        ensures
            r == self@.active,
    {
        self.active
    }

    /// The number a text stands for.
    pub fn parse_num(&self, t: &str) -> (r: Option<u64>)
        ensures
            r == self@.parse(t@),
    {
        match self.parsed.get(t) {
            Some(b) => Some(*b),
            None => None,
        }
    }

    /// The canonical form of a text, or the text where it has none.
    pub fn canonicalize(&self, t: &str) -> (r: String)
        ensures
            r@ == self@.canon(t@),
    {
        match self.canonical.get(t) {
            Some(c) => c.clone(),
            None => t.to_string(),
        }
    }

    /// How a number shows.
    pub fn render(&self, bits: u64) -> (r: String)
        ensures
            r@ == self@.show(bits),
    {
        broadcast use vstd::std_specs::hash::group_hash_axioms;

        match self.shown.get(&bits) {
            Some(t) => t.clone(),
            None => decimal_text(bits),
        }
    }
}

} // verus!
