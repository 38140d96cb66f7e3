//! Arithmetic in GF(256) under the primitive polynomial 0x11d.
//!
//! The mathematical model is `pow_alpha`, the powers of the primitive element
//! alpha = 2 obtained by repeated doubling with reduction. The executable
//! `GaloisField` holds the exponent and discrete-log tables and is proved to
//! agree with the model.

use vstd::prelude::*;
use vstd::set_lib::{lemma_int_range, set_int_range};
use vstd::set::axiom_set_insert_len;

verus! {

/// One doubling step in GF(256): multiply by x and reduce by the primitive
/// polynomial 0x11d when the product leaves the byte range.
pub open spec fn gf_double(x: u8) -> u8 {
    if x >= 128 {
        (((x as u16) << 1) ^ 0x11d) as u8
    } else {
        (2 * x) as u8
    }
}

/// The i-th power of the primitive element alpha = 2.
pub open spec fn pow_alpha(i: nat) -> u8
    decreases i,
{
    if i == 0 {
        1
    } else {
        gf_double(pow_alpha((i - 1) as nat))
    }
}

/// Doubling is injective on field elements.
pub proof fn lemma_double_injective(x: u8, y: u8)
    requires
        gf_double(x) == gf_double(y),
    ensures
        x == y,
{
    assert(gf_double(x) == gf_double(y) ==> x == y) by (bit_vector);
}

/// Doubling never maps a nonzero element to zero.
pub proof fn lemma_double_nonzero(x: u8)
    requires
        x != 0,
    ensures
        gf_double(x) != 0,
{
    assert(x != 0 ==> gf_double(x) != 0) by (bit_vector);
}

/// Walks `n` doubling steps from `x` and records that no value along the
/// way, `x` included, equals 1. Written as a single recursive walk over
/// concrete bytes so that the whole chain can be evaluated by the bit-vector
/// solver.
pub open spec fn chain_avoids_one(x: u8, n: nat) -> bool
    decreases n,
{
    if n == 0 {
        true
    } else {
        x != 1 && chain_avoids_one(gf_double(x), (n - 1) as nat)
    }
}

proof fn lemma_chain_avoids_one(m: nat, n: nat)
    requires
        chain_avoids_one(pow_alpha(m), n),
    ensures
        forall|k: nat| m <= k < m + n ==> pow_alpha(k) != 1,
    decreases n,
{
    if n > 0 {
        assert(gf_double(pow_alpha(m)) == pow_alpha(m + 1));
        lemma_chain_avoids_one(m + 1, (n - 1) as nat);
        assert forall|k: nat| m <= k < m + n implies pow_alpha(k) != 1 by {
            if k != m {
                assert(m + 1 <= k < (m + 1) + (n - 1));
            }
        }
    }
}

/// The multiplicative order of alpha is 255: no smaller positive power is 1.
pub proof fn lemma_alpha_order()
    ensures
        forall|k: nat| 1 <= k < 255 ==> pow_alpha(k) != 1,
{
    assert(chain_avoids_one(2u8, 254)) by (bit_vector);
    assert(pow_alpha(1) == gf_double(pow_alpha(0)));
    assert(gf_double(1u8) == 2u8);
    lemma_chain_avoids_one(1, 254);
}

/// The first 255 powers of alpha are pairwise distinct.
pub proof fn lemma_pow_alpha_injective(i: nat, j: nat)
    requires
        i < j,
        j < 255,
    ensures
        pow_alpha(i) != pow_alpha(j),
    decreases i,
{
    if i == 0 {
        lemma_alpha_order();
    } else {
        lemma_pow_alpha_injective((i - 1) as nat, (j - 1) as nat);
        if pow_alpha(i) == pow_alpha(j) {
            lemma_double_injective(pow_alpha((i - 1) as nat), pow_alpha((j - 1) as nat));
        }
    }
}

/// No power of alpha is zero.
pub proof fn lemma_pow_alpha_nonzero(i: nat)
    ensures
        pow_alpha(i) != 0,
    decreases i,
{
    if i > 0 {
        lemma_pow_alpha_nonzero((i - 1) as nat);
        lemma_double_nonzero(pow_alpha((i - 1) as nat));
    }
}

/// The set of values taken by the first `n` powers of alpha, as integers.
spec fn alpha_image(n: nat) -> Set<int> {
    Set::new(|v: int| exists|i: nat| i < n && pow_alpha(i) as int == v)
}

proof fn lemma_alpha_image_len(n: nat)
    requires
        n <= 255,
    ensures
        alpha_image(n).finite(),
        alpha_image(n).len() == n,
    decreases n,
{
    if n == 0 {
        assert(alpha_image(0) =~= Set::<int>::empty());
    } else {
        let m = (n - 1) as nat;
        lemma_alpha_image_len(m);
        let a = pow_alpha(m) as int;
        assert(!alpha_image(m).contains(a)) by {
            if alpha_image(m).contains(a) {
                let i = choose|i: nat| i < m && pow_alpha(i) as int == a;
                lemma_pow_alpha_injective(i, m);
            }
        }
        assert(alpha_image(n) =~= alpha_image(m).insert(a)) by {
            assert forall|v: int| alpha_image(m).insert(a).contains(v) implies alpha_image(
                n,
            ).contains(v) by {
                if v == a {
                    assert(pow_alpha(m) as int == v);
                } else {
                    let i = choose|i: nat| i < m && pow_alpha(i) as int == v;
                    assert(i < n && pow_alpha(i) as int == v);
                }
            }
            assert forall|v: int| alpha_image(n).contains(v) implies alpha_image(m).insert(
                a,
            ).contains(v) by {
                let i = choose|i: nat| i < n && pow_alpha(i) as int == v;
                if i < m {
                    assert(alpha_image(m).contains(v));
                }
            }
        }
        axiom_set_insert_len(alpha_image(m), a);
    }
}

/// Every nonzero field element is a power of alpha.
pub proof fn lemma_pow_alpha_surjective(v: u8)
    requires
        v != 0,
    ensures
        exists|i: nat| i < 255 && pow_alpha(i) == v,
{
    if !(exists|i: nat| i < 255 && pow_alpha(i) == v) {
        let img = alpha_image(255);
        lemma_alpha_image_len(255);
        lemma_int_range(1, 256);
        assert(img.subset_of(set_int_range(1, 256))) by {
            assert forall|x: int| img.contains(x) implies set_int_range(1, 256).contains(x) by {
                let i = choose|i: nat| i < 255 && pow_alpha(i) as int == x;
                lemma_pow_alpha_nonzero(i);
            }
        }
        assert(!img.contains(v as int)) by {
            if img.contains(v as int) {
                let i = choose|i: nat| i < 255 && pow_alpha(i) as int == v as int;
                assert(pow_alpha(i) == v);
            }
        }
        assert(set_int_range(1, 256).contains(v as int));
        img.lemma_subset_not_in_lt(set_int_range(1, 256), v as int);
    }
}

/// The discrete logarithm: the index in [0,255) whose power of alpha is `a`.
/// Meaningful only for nonzero `a`.
pub open spec fn glog(a: u8) -> nat {
    choose|i: nat| i < 255 && pow_alpha(i) == a
}

/// For nonzero `a`, the discrete log is a true inverse of exponentiation.
pub proof fn lemma_glog(a: u8)
    requires
        a != 0,
    ensures
        glog(a) < 255,
        pow_alpha(glog(a)) == a,
{
    lemma_pow_alpha_surjective(a);
}

/// The discrete log of a power of alpha is its exponent.
pub proof fn lemma_glog_pow(i: nat)
    requires
        i < 255,
    ensures
        glog(pow_alpha(i)) == i,
{
    lemma_pow_alpha_nonzero(i);
    lemma_glog(pow_alpha(i));
    let j = glog(pow_alpha(i));
    if j < i {
        lemma_pow_alpha_injective(j, i);
    } else if i < j {
        lemma_pow_alpha_injective(i, j);
    }
}

/// Field multiplication: zero absorbs, and nonzero elements multiply by
/// adding discrete logarithms modulo the group order 255.
pub open spec fn gf_mul(a: u8, b: u8) -> u8 {
    if a == 0 || b == 0 {
        0
    } else {
        pow_alpha((glog(a) + glog(b)) % 255)
    }
}

/// The log and exponent maps invert each other: for every nonzero field
/// element `a`, alpha^(log a) == a, and for every index `i` below the group
/// order, log(alpha^i) == i.
pub proof fn lemma_log_exp_roundtrip(a: u8, i: nat)
    requires
        a != 0,
        i < 255,
    ensures
        pow_alpha(glog(a)) == a,
        glog(pow_alpha(i)) == i,
{
    lemma_glog(a);
    lemma_glog_pow(i);
}

/// Multiplication is commutative, and zero absorbs.
pub proof fn lemma_mul_commutative(a: u8, b: u8)
    ensures
        gf_mul(a, b) == gf_mul(b, a),
        gf_mul(a, 0) == 0,
{
}

/// One is the multiplicative identity.
pub proof fn lemma_mul_one(b: u8)
    ensures
        gf_mul(1, b) == b,
{
    if b != 0 {
        assert(pow_alpha(0) == 1);
        lemma_glog_pow(0);
        lemma_glog(b);
    }
}

/// A product equal to 1 pins the second factor down: it is alpha to the
/// power that completes the first factor's discrete log to the group order.
proof fn lemma_mul_one_log(a: u8, c: u8)
    requires
        a != 0,
        gf_mul(a, c) == 1,
    ensures
        c == pow_alpha(((255 - glog(a)) % 255) as nat),
{
    assert(c != 0);
    lemma_glog(a);
    lemma_glog(c);
    let la = glog(a);
    let lc = glog(c);
    let k = (la + lc) % 255;
    assert(pow_alpha(k) == 1);
    assert(pow_alpha(0) == 1);
    if k != 0 {
        lemma_pow_alpha_injective(0, k);
    }
    assert(la + lc == 0 || la + lc == 255);
    assert(lc == ((255 - la) % 255) as nat);
}

/// Every nonzero field element has exactly one multiplicative inverse.
pub proof fn lemma_inverse_exists_unique(a: u8)
    requires
        a != 0,
    ensures
        exists|b: u8| gf_mul(a, b) == 1,
        forall|b1: u8, b2: u8| gf_mul(a, b1) == 1 && gf_mul(a, b2) == 1 ==> b1 == b2,
{
    lemma_glog(a);
    let la = glog(a);
    let ib = ((255 - la) % 255) as nat;
    let b = pow_alpha(ib);
    lemma_pow_alpha_nonzero(ib);
    lemma_glog_pow(ib);
    assert((la + ib) % 255 == 0);
    assert(gf_mul(a, b) == pow_alpha(0));
    assert(gf_mul(a, b) == 1);
    assert forall|b1: u8, b2: u8| gf_mul(a, b1) == 1 && gf_mul(a, b2) == 1 implies b1 == b2 by {
        lemma_mul_one_log(a, b1);
        lemma_mul_one_log(a, b2);
    }
}

/// Executable doubling step, equal to the model's `gf_double`.
fn double(x: u8) -> (r: u8)
    ensures
        r == gf_double(x),
{
    if x >= 128 {
        (((x as u16) << 1) ^ 0x11d) as u8
    } else {
        2 * x
    }
}

/// The exponent and discrete-log tables of GF(256). Built once by `new` and
/// immutable afterwards; all arithmetic goes through the pure methods.
pub struct GaloisField {
    exp: Vec<u8>,
    log: Vec<u8>,
}

impl GaloisField {
    /// The tables are fully built and agree with the mathematical model.
    pub closed spec fn wf(self) -> bool {
        &&& self.exp@.len() == 256
        &&& self.log@.len() == 256
        &&& forall|i: int| 0 <= i < 255 ==> self.exp@[i] == pow_alpha(i as nat)
        &&& self.exp@[255] == self.exp@[0]
        &&& forall|a: u8| a != 0 ==> self.log@[a as int] == glog(a) as u8
    }

    /// Builds the tables by walking the powers of alpha: entry `i` of the
    /// exponent table is the i-th power, and the log table inverts it. The
    /// final exponent entry duplicates the first so that the table is cyclic.
    pub fn new() -> (gf: GaloisField)
        ensures
            gf.wf(),
    {
        let mut exp: Vec<u8> = Vec::new();
        let mut log: Vec<u8> = Vec::new();
        for k in 0..256usize
            invariant
                exp@.len() == k,
                log@.len() == k,
        {
            exp.push(0);
            log.push(0);
        }
        let mut x: u8 = 1;
        for i in 0..255usize
            invariant
                exp@.len() == 256,
                log@.len() == 256,
                x == pow_alpha(i as nat),
                forall|j: int| 0 <= j < i ==> exp@[j] == pow_alpha(j as nat),
                forall|j: int| 0 <= j < i ==> log@[#[trigger] pow_alpha(j as nat) as int] == j,
        {
            proof {
                lemma_pow_alpha_nonzero(i as nat);
                assert forall|j: int| 0 <= j < i implies #[trigger] pow_alpha(j as nat)
                    != pow_alpha(i as nat) by {
                    lemma_pow_alpha_injective(j as nat, i as nat);
                }
            }
            exp[i] = x;
            log[x as usize] = i as u8;
            x = double(x);
        }
        exp[255] = exp[0];
        proof {
            assert forall|a: u8| a != 0 implies log@[a as int] == glog(a) as u8 by {
                lemma_glog(a);
                let j = glog(a) as int;
                assert(log@[pow_alpha(j as nat) as int] == j);
            }
        }
        GaloisField { exp, log }
    }

    /// Field multiplication: returns 0 when either operand is 0, otherwise
    /// looks up the sum of the discrete logs modulo 255 in the exponent table.
    pub fn multiply(&self, a: u8, b: u8) -> (r: u8)
        requires
            self.wf(),
        ensures
            r == gf_mul(a, b),
    {
        if a == 0 || b == 0 {
            return 0;
        }
        proof {
            lemma_glog(a);
            lemma_glog(b);
        }
        let la = self.log[a as usize] as usize;
        let lb = self.log[b as usize] as usize;
        self.exp[(la + lb) % 255]
    }

    /// The `i`-th power of the primitive element, for any index, wrapping
    /// cyclically with period 255.
    pub fn exponentiate(&self, i: usize) -> (r: u8)
        requires
            self.wf(),
        ensures
            r == pow_alpha((i % 255) as nat),
    {
        self.exp[i % 255]
    }

    /// The discrete logarithm of a nonzero field element.
    pub fn log(&self, a: u8) -> (r: u8)
        requires
            self.wf(),
            a != 0,
        ensures
            r as nat == glog(a),
    {
        proof {
            lemma_glog(a);
        }
        self.log[a as usize]
    }
}

} // verus!
