//! Incremental polynomial hash over a sliding window of `u64` symbols.
//!
//! The hash of a window `[s0, s1, ..., s_{k-1}]` is the polynomial value
//! `s0 * B^(k-1) + s1 * B^(k-2) + ... + s_{k-1}` reduced modulo a fixed
//! prime, with base `B = 31` and modulus `1_000_000_007`. `append` grows the
//! window by one symbol at the newest end; `slide` evicts the oldest symbol
//! and admits a new one in constant time.

use vstd::arithmetic::div_mod::{
    lemma_mod_add_multiples_vanish, lemma_mul_mod_noop_left, lemma_mul_mod_noop_right,
    lemma_sub_mod_noop,
};
use vstd::arithmetic::mul::lemma_mul_upper_bound;
use vstd::prelude::*;

verus! {

/// The multiplier applied for each symbol admitted to the window.
pub const HASH_BASE: u64 = 31;

/// The prime modulus every hash value is reduced by.
pub const HASH_MODULO: u64 = 1_000_000_007;

/// The polynomial value of a window, not yet reduced: each symbol is weighted
/// by a power of the base, the oldest symbol by the highest power.
pub open spec fn poly_val(s: Seq<u64>) -> int
    decreases s.len(),
{
    if s.len() == 0 {
        0
    } else {
        poly_val(s.drop_last()) * (HASH_BASE as int) + s.last()
    }
}

/// The rolling hash of a window: the polynomial value with every step
/// reduced modulo `HASH_MODULO`.
pub open spec fn poly_hash(s: Seq<u64>) -> int
    decreases s.len(),
{
    if s.len() == 0 {
        0
    } else {
        (poly_hash(s.drop_last()) * (HASH_BASE as int) + s.last()) % (HASH_MODULO as int)
    }
}

/// `HASH_BASE` raised to the power `e`, unreduced.
pub open spec fn pow_base(e: nat) -> int
    decreases e,
{
    if e == 0 {
        1
    } else {
        (HASH_BASE as int) * pow_base((e - 1) as nat)
    }
}

/// Every rolling hash value lies below the modulus.
pub proof fn lemma_poly_hash_bounds(s: Seq<u64>)
    ensures
        0 <= poly_hash(s) < HASH_MODULO as int,
{
}

proof fn lemma_poly_val_nonneg(s: Seq<u64>)
    ensures
        poly_val(s) >= 0,
    decreases s.len(),
{
    if s.len() > 0 {
        lemma_poly_val_nonneg(s.drop_last());
    }
}

proof fn lemma_pow_base_pos(e: nat)
    ensures
        pow_base(e) >= 1,
    decreases e,
{
    if e > 0 {
        lemma_pow_base_pos((e - 1) as nat);
    }
}

/// The stepwise-reduced hash equals the unreduced polynomial value modulo the
/// prime.
proof fn lemma_poly_hash_is_val_mod(s: Seq<u64>)
    ensures
        poly_hash(s) == poly_val(s) % (HASH_MODULO as int),
    decreases s.len(),
{
    let p = HASH_MODULO as int;
    let b = HASH_BASE as int;
    if s.len() == 0 {
    } else {
        let d = s.drop_last();
        lemma_poly_hash_is_val_mod(d);
        lemma_mul_mod_noop_left(poly_val(d), b, p);
        lemma_add_mod_noop_right_local(poly_val(d) * b, s.last() as int, p);
    }
}

proof fn lemma_add_mod_noop_right_local(x: int, y: int, m: int)
    requires
        0 < m,
    ensures
        (x % m + y) % m == (x + y) % m,
{
    lemma_sub_mod_noop(x, 0, m);
    vstd::arithmetic::div_mod::lemma_add_mod_noop(x, y, m);
    vstd::arithmetic::div_mod::lemma_mod_twice(y, m);
    vstd::arithmetic::div_mod::lemma_add_mod_noop(x % m, y, m);
    vstd::arithmetic::div_mod::lemma_mod_twice(x, m);
}

/// The polynomial value splits into the oldest symbol's weighted contribution
/// plus the value of the remaining window.
proof fn lemma_poly_val_split(w: Seq<u64>)
    requires
        w.len() >= 1,
    ensures
        poly_val(w) == w[0] * pow_base((w.len() - 1) as nat) + poly_val(w.drop_first()),
    decreases w.len(),
{
    if w.len() == 1 {
        assert(w.drop_last() =~= Seq::<u64>::empty());
        assert(w.drop_first() =~= Seq::<u64>::empty());
        assert(w.last() == w[0]);
    } else {
        let d = w.drop_last();
        lemma_poly_val_split(d);
        assert(d.drop_first() =~= w.drop_first().drop_last());
        assert(w.drop_first().last() == w.last());
        assert(d[0] == w[0]);
        let e = (w.len() - 2) as nat;
        assert(poly_val(d) == w[0] * pow_base(e) + poly_val(w.drop_first().drop_last()));
        assert((w[0] * pow_base(e)) * (HASH_BASE as int) == w[0] * pow_base((e + 1) as nat))
            by (nonlinear_arith)
            requires
                pow_base((e + 1) as nat) == (HASH_BASE as int) * pow_base(e),
        ;
    }
}

/// An accumulator for the rolling hash of the current window. The window's
/// symbols themselves are carried only as ghost state: callers supply the
/// evicted symbol on each slide, and the precondition pins it to the oldest
/// symbol actually in the window.
pub struct RollingHash {
    base: u64,
    modulo: u64,
    hash: u64,
    base_power: u64,
    window_size: usize,
    window: Ghost<Seq<u64>>,
}

impl RollingHash {
    /// The symbols of the current window, oldest first.
    pub closed spec fn window(self) -> Seq<u64> {
        self.window@
    }

    /// The number of symbols in the current window.
    pub closed spec fn size(self) -> usize {
        self.window_size
    }

    /// Internal consistency: the hash field holds the window's polynomial
    /// hash, and the power field holds the base raised to the window's
    /// highest weight, reduced.
    pub closed spec fn wf(self) -> bool {
        &&& self.base == HASH_BASE
        &&& self.modulo == HASH_MODULO
        &&& self.window@.len() == self.window_size
        &&& self.hash == poly_hash(self.window@)
        &&& self.base_power == if self.window_size == 0 {
            1int
        } else {
            pow_base((self.window_size - 1) as nat) % (HASH_MODULO as int)
        }
    }

    /// A fresh accumulator over the empty window.
    pub fn new() -> (r: Self)
        ensures
            r.wf(),
            r.window() == Seq::<u64>::empty(),
            r.size() == 0,
    {
        Self {
            base: HASH_BASE,
            modulo: HASH_MODULO,
            hash: 0,
            base_power: 1,
            window_size: 0,
            window: Ghost(Seq::empty()),
        }
    }

    /// Extend the window by one symbol at the newest end.
    pub fn append(&mut self, char: u64)
        requires
            old(self).wf(),
            old(self).size() < usize::MAX,
        ensures
            final(self).wf(),
            final(self).window() == old(self).window().push(char),
            final(self).size() == old(self).size() + 1,
    {
        let ghost w = self.window@;
        let p = self.modulo;
        proof {
            lemma_poly_hash_bounds(w);
            lemma_mul_upper_bound(
                self.hash as int,
                (HASH_MODULO - 1) as int,
                self.base as int,
                HASH_BASE as int,
            );
        }
        let h = ((self.hash as u128 * self.base as u128 + char as u128) % p as u128) as u64;
        self.hash = h;
        self.window_size = self.window_size + 1;
        if self.window_size == 1 {
            self.base_power = 1;
        } else {
            proof {
                lemma_mul_upper_bound(
                    self.base_power as int,
                    (HASH_MODULO - 1) as int,
                    self.base as int,
                    HASH_BASE as int,
                );
            }
            self.base_power = ((self.base_power as u128 * self.base as u128) % p as u128) as u64;
        }
        self.window = Ghost(w.push(char));
        proof {
            assert(w.push(char).drop_last() =~= w);
            assert(self.hash == poly_hash(w.push(char)));
            if self.window_size > 1 {
                let e = (self.window_size - 2) as nat;
                lemma_pow_base_pos(e);
                lemma_mul_mod_noop_left(pow_base(e), HASH_BASE as int, HASH_MODULO as int);
                assert(pow_base(e) * (HASH_BASE as int) == pow_base((e + 1) as nat))
                    by (nonlinear_arith)
                    requires
                        pow_base((e + 1) as nat) == (HASH_BASE as int) * pow_base(e),
                ;
            }
        }
    }

    /// Evict the oldest symbol and admit a new one, in constant time. The
    /// caller must supply, as `old_char`, the symbol that is actually oldest
    /// in the window.
    pub fn slide(&mut self, old_char: u64, new_char: u64)
        requires
            old(self).wf(),
            old(self).size() >= 1,
            old_char == old(self).window()[0],
        ensures
            final(self).wf(),
            final(self).window() == old(self).window().drop_first().push(new_char),
            final(self).size() == old(self).size(),
    {
        let ghost w = self.window@;
        let ghost p = HASH_MODULO as int;
        let ghost b = HASH_BASE as int;
        let ghost n = w.len() as int;
        let m = self.modulo;
        proof {
            lemma_mul_upper_bound(
                old_char as int,
                u64::MAX as int,
                self.base_power as int,
                (HASH_MODULO - 1) as int,
            );
        }
        let sub = (old_char as u128 * self.base_power as u128) % m as u128;
        let h1 = ((self.hash as u128 + m as u128) - sub) % m as u128;
        proof {
            lemma_mul_upper_bound(h1 as int, (HASH_MODULO - 1) as int, self.base as int, HASH_BASE as int);
        }
        let h2 = ((h1 * self.base as u128 + new_char as u128) % m as u128) as u64;
        self.hash = h2;
        self.window = Ghost(w.drop_first().push(new_char));
        proof {
            let df = w.drop_first();
            let a = poly_val(w);
            let c = (w[0] as int) * pow_base((n - 1) as nat);
            lemma_poly_hash_is_val_mod(w);
            lemma_poly_val_split(w);
            lemma_poly_val_nonneg(df);
            lemma_pow_base_pos((n - 1) as nat);
            // sub == c % p
            lemma_mul_mod_noop_right(w[0] as int, pow_base((n - 1) as nat), p);
            assert(sub == c % p);
            // h1 == (a - c) % p == poly_val(df) % p
            lemma_sub_mod_noop(a, c, p);
            lemma_mod_add_multiples_vanish(a % p - c % p, p);
            assert((a % p + p - c % p) % p == (a - c) % p);
            assert(h1 == poly_val(df) % p);
            lemma_poly_hash_is_val_mod(df);
            // h2 == poly_hash(df.push(new_char))
            let nw = df.push(new_char);
            assert(nw.drop_last() =~= df);
            lemma_mul_mod_noop_left(poly_val(df), b, p);
            lemma_add_mod_noop_right_local(poly_val(df) * b, new_char as int, p);
            lemma_poly_hash_is_val_mod(nw);
            assert(poly_val(nw) == poly_val(df) * b + new_char);
            assert(h2 == poly_hash(nw));
        }
    }

    /// The hash of the current window; purely observational.
    pub fn get_hash(&self) -> (r: u64)
        requires
            self.wf(),
        ensures
            r == poly_hash(self.window()),
    {
        self.hash
    }
}

} // verus!
