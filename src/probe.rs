use vstd::arithmetic::div_mod::{
    lemma_add_mod_noop, lemma_add_mod_noop_right, lemma_fundamental_div_mod,
    lemma_fundamental_div_mod_converse, lemma_mod_bound, lemma_mod_mod, lemma_mod_multiples_vanish,
    lemma_mod_twice, lemma_small_mod,
};
use vstd::arithmetic::power2::{lemma2_to64, lemma_pow2_adds, lemma_pow2_pos, lemma_pow2_unfold, pow2};
use vstd::bits::{lemma_u32_low_bits_mask_is_mod, low_bits_mask};
use vstd::prelude::*;

verus! {

/// The largest exponent of a table's length: `2^30` slots. A probe sequence
/// runs for up to `2 * len` probes, and its counter is a `u32`, so `2 * len + 1`
/// must fit in 32 bits.
pub const MAX_LEN_EXP: u32 = 30;

/// The triangular number `i * (i + 1) / 2`.
pub open spec fn triangular(i: nat) -> nat
    decreases i,
{
    if i == 0 {
        0
    } else {
        i + triangular((i - 1) as nat)
    }
}

/// The slot visited by the probe with number `step` (counting from zero) for
/// start `hash` in a table of `len` slots: probe `i = step + 2` visits
/// `(hash + (i + i * i) / 2) & (len - 1)`.
pub open spec fn probe_slot(hash: u32, len: nat, step: nat) -> nat
    recommends
        len > 0,
{
    (hash as nat + triangular(step + 2)) % len
}

/// A stateful generator of the probe sequence of one key.
pub(crate) struct QuadraticProbing {
    pub(crate) hash: u32,
    pub(crate) i: u32,
    pub(crate) mask: u32,
    pub(crate) len: u32,
    pub(crate) offset: u32,
    pub(crate) exp: Ghost<nat>,
}

impl QuadraticProbing {
    /// The number of probes handed out so far.
    pub(crate) open spec fn steps(&self) -> nat {
        (self.i - 1) as nat
    }

    pub(crate) open spec fn wf(&self) -> bool {
        &&& self.exp@ <= MAX_LEN_EXP
        &&& self.len == pow2(self.exp@)
        &&& self.mask == low_bits_mask(self.exp@)
        &&& 1 <= self.i
        &&& self.i - 1 <= 2 * self.len
        &&& self.offset as nat == (self.hash as nat + triangular(self.i as nat)) % 0x1_0000_0000
    }

    /// Starts the probe sequence for `hash` in a table of `2^exp` slots, whose
    /// index mask is `mask`.
    pub(crate) fn compute(hash: u32, mask: u32, Ghost(exp): Ghost<nat>) -> (r: QuadraticProbing)
        requires
            exp <= MAX_LEN_EXP,
            mask == low_bits_mask(exp),
        ensures
            r.wf(),
            r.hash == hash,
            r.mask == mask,
            r.exp@ == exp,
            r.steps() == 0,
    {
        proof {
            lemma_pow2_bounds(exp);
            reveal_with_fuel(triangular, 2);
        }
        QuadraticProbing {
            hash,
            i: 1,
            mask,
            len: mask + 1,
            offset: hash.wrapping_add(1),
            exp: Ghost(exp),
        }
    }

    /// Hands out the next slot of the sequence.
    pub(crate) fn next_probe(&mut self) -> (r: u32)
        requires
            old(self).wf(),
            old(self).steps() < 2 * old(self).len,
        ensures
            final(self).wf(),
            final(self).hash == old(self).hash,
            final(self).mask == old(self).mask,
            final(self).len == old(self).len,
            final(self).exp == old(self).exp,
            final(self).steps() == old(self).steps() + 1,
            r as nat == probe_slot(old(self).hash, old(self).len as nat, old(self).steps()),
            r < old(self).len,
    {
        proof {
            lemma_pow2_bounds(self.exp@);
        }
        self.i += 1;
        self.offset = self.offset.wrapping_add(self.i);
        let r = self.offset & self.mask;
        proof {
            let i = self.i as nat;
            let m: int = 0x1_0000_0000;
            assert(triangular(i) == i + triangular((i - 1) as nat));
            lemma_add_mod_noop((self.hash as nat + triangular((i - 1) as nat)) as int, i as int, m);
            lemma_mod_twice(i as int, m);
            lemma_u32_low_bits_mask_is_mod(self.offset, self.exp@);
            lemma_wrapped_mod(self.hash as nat + triangular(i), self.exp@);
        }
        r
    }
}

/// Bounds of the lengths a table may have.
pub proof fn lemma_pow2_bounds(exp: nat)
    requires
        exp <= MAX_LEN_EXP,
    ensures
        1 <= pow2(exp) <= 0x4000_0000,
        low_bits_mask(exp) == pow2(exp) - 1,
{
    lemma_pow2_pos(exp);
    lemma2_to64();
    lemma_pow2_adds(exp, (30 - exp) as nat);
    lemma_pow2_pos((30 - exp) as nat);
    assert(pow2(exp) <= pow2(exp) * pow2((30 - exp) as nat)) by (nonlinear_arith)
        requires
            pow2((30 - exp) as nat) >= 1,
    ;
}

/// Reducing modulo `2^32` first does not change the residue modulo a smaller
/// power of two.
pub proof fn lemma_wrapped_mod(x: nat, exp: nat)
    requires
        exp <= MAX_LEN_EXP,
    ensures
        (x % 0x1_0000_0000) % pow2(exp) == x % pow2(exp),
{
    lemma_pow2_bounds(exp);
    lemma2_to64();
    lemma_pow2_adds(exp, (32 - exp) as nat);
    lemma_pow2_pos((32 - exp) as nat);
    lemma_mod_mod(x as int, pow2(exp) as int, pow2((32 - exp) as nat) as int);
}


/// Twice a triangular number is `n * (n + 1)`.
proof fn lemma_triangular_double(n: nat)
    ensures
        2 * triangular(n) == n * (n + 1),
    decreases n,
{
    if n > 0 {
        lemma_triangular_double((n - 1) as nat);
        assert(2 * triangular(n) == n * (n + 1)) by (nonlinear_arith)
            requires
                triangular(n) == n + triangular((n - 1) as nat),
                2 * triangular((n - 1) as nat) == (n - 1) * n,
                n > 0,
        ;
    } else {
        assert(n * (n + 1) == 0) by (nonlinear_arith)
            requires
                n == 0,
        ;
    }
}

/// A residue modulo `2h` is the residue modulo `h`, or that plus `h`.
proof fn lemma_mod_halves(x: int, h: int)
    requires
        x >= 0,
        h > 0,
    ensures
        x % h < h,
        x % (2 * h) == x % h || x % (2 * h) == x % h + h,
{
    lemma_fundamental_div_mod(x, 2 * h);
    lemma_mod_bound(x, 2 * h);
    lemma_mod_bound(x, h);
    let q = x / (2 * h);
    let m = x % (2 * h);
    if m < h {
        assert(x == (2 * q) * h + m) by (nonlinear_arith)
            requires
                x == (2 * h) * q + m,
        ;
        lemma_fundamental_div_mod_converse(x, h, 2 * q, m);
    } else {
        assert(x == (2 * q + 1) * h + (m - h)) by (nonlinear_arith)
            requires
                x == (2 * h) * q + m,
        ;
        lemma_fundamental_div_mod_converse(x, h, 2 * q + 1, m - h);
    }
}

/// Modulo a power of two, the triangular numbers below it take every residue.
proof fn lemma_triangular_onto(e: nat, r: nat)
    requires
        r < pow2(e),
    ensures
        exists|k: nat| k < pow2(e) && #[trigger] (triangular(k) % pow2(e)) == r,
    decreases e,
{
    if e == 0 {
        lemma2_to64();
        assert(triangular(0) % pow2(0) == r);
    } else {
        let e1 = (e - 1) as nat;
        lemma_pow2_unfold(e);
        lemma_pow2_pos(e1);
        let h = pow2(e1) as int;
        let m = 2 * h;
        let r1 = (r as int % h) as nat;
        lemma_mod_halves(r as int, h);
        lemma_small_mod(r, m as nat);
        lemma_triangular_onto(e1, r1);
        let k = choose|k: nat| k < pow2(e1) && #[trigger] (triangular(k) % pow2(e1)) == r1;
        let x = triangular(k) as int;
        lemma_mod_halves(x, h);
        if x % m != r as int {
            let k2 = (m - 1 - k) as nat;
            lemma_triangular_double(k);
            lemma_triangular_double(k2);
            assert(triangular(k2) == x + m * (h - k) - h) by (nonlinear_arith)
                requires
                    2 * triangular(k2) == k2 * (k2 + 1),
                    2 * x == k * (k + 1),
                    k2 == m - 1 - k,
                    m == 2 * h,
            ;
            lemma_fundamental_div_mod(x, m);
            let q = x / m;
            let xm = x % m;
            if xm >= h {
                assert(triangular(k2) == (q + h - k) * m + (xm - h)) by (nonlinear_arith)
                    requires
                        triangular(k2) == x + m * (h - k) - h,
                        x == m * q + xm,
                ;
                lemma_fundamental_div_mod_converse(triangular(k2) as int, m, q + h - k, xm - h);
            } else {
                assert(triangular(k2) == (q + h - k - 1) * m + (xm + h)) by (nonlinear_arith)
                    requires
                        triangular(k2) == x + m * (h - k) - h,
                        x == m * q + xm,
                        m == 2 * h,
                ;
                lemma_fundamental_div_mod_converse(triangular(k2) as int, m, q + h - k - 1, xm + h);
            }
            assert(triangular(k2) % pow2(e) == r);
        } else {
            assert(triangular(k) % pow2(e) == r);
        }
    }
}

/// Every slot of a table is reached by one of the first `2 * len` probes.
pub proof fn lemma_probes_reach(hash: u32, exp: nat, s: nat)
    requires
        exp <= MAX_LEN_EXP,
        s < pow2(exp),
    ensures
        exists|j: nat| j < 2 * pow2(exp) && #[trigger] probe_slot(hash, pow2(exp), j) == s,
{
    lemma_pow2_bounds(exp);
    let m = pow2(exp) as int;
    lemma_mod_bound(s as int - hash as int, m);
    let r = ((s as int - hash as int) % m) as nat;
    lemma_triangular_onto(exp, r);
    let k = choose|k: nat| k < pow2(exp) && #[trigger] (triangular(k) % pow2(exp)) == r;
    let j: nat = if k >= 2 {
        (k - 2) as nat
    } else {
        (k + 2 * m - 2) as nat
    };
    if k < 2 {
        lemma_triangular_double(k);
        lemma_triangular_double(j + 2);
        assert(triangular(j + 2) == triangular(k) + m * (2 * k + 1 + 2 * m)) by (nonlinear_arith)
            requires
                2 * triangular(j + 2) == (j + 2) * (j + 3),
                2 * triangular(k) == k * (k + 1),
                j + 2 == k + 2 * m,
        ;
        lemma_mod_multiples_vanish(2 * k + 1 + 2 * m, triangular(k) as int, m);
    }
    assert(triangular(j + 2) as int % m == r);
    lemma_add_mod_noop_right(hash as int, triangular(j + 2) as int, m);
    lemma_add_mod_noop_right(hash as int, s as int - hash as int, m);
    lemma_small_mod(s, m as nat);
    assert(probe_slot(hash, pow2(exp), j) == s);
}

} // verus!
