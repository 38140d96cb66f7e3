//! Polynomial arithmetic over GF(256).
//!
//! A polynomial is a sequence of field elements, coefficients ordered from
//! highest degree (index 0) to lowest (last index). Addition of coefficients
//! is XOR; multiplication of coefficients is `gf_mul`.

use vstd::prelude::*;
use crate::galois::{gf_mul, GaloisField};

verus! {

/// The contribution of row `i` of the convolution to output position `k`:
/// `a[i] * b[k - i]` where that pairing exists, 0 otherwise.
pub open spec fn conv_term(a: Seq<u8>, b: Seq<u8>, k: int, i: int) -> u8 {
    if 0 <= k - i < b.len() {
        gf_mul(a[i], b[k - i])
    } else {
        0
    }
}

/// The XOR of the contributions of the first `n` rows to position `k`.
pub open spec fn conv_partial(a: Seq<u8>, b: Seq<u8>, k: int, n: int) -> u8
    decreases n,
{
    if n <= 0 {
        0
    } else {
        conv_partial(a, b, k, n - 1) ^ conv_term(a, b, k, n - 1)
    }
}

/// The product of two polynomials: position `k` of the result is the XOR of
/// `a[i] * b[j]` over all pairs with `i + j == k`.
pub open spec fn poly_mul(a: Seq<u8>, b: Seq<u8>) -> Seq<u8> {
    Seq::new((a.len() + b.len() - 1) as nat, |k: int| conv_partial(a, b, k, a.len() as int))
}

/// XOR, the field's addition, has 0 as its identity.
pub proof fn lemma_xor_zero(x: u8)
    ensures
        x ^ 0 == x,
        0 ^ x == x,
{
    assert(x ^ 0 == x && 0 ^ x == x) by (bit_vector);
}

/// Multiplies two polynomials by accumulating every pairwise coefficient
/// product into the position given by the sum of the indices.
pub fn multiply_polynomials(gf: &GaloisField, a: &Vec<u8>, b: &Vec<u8>) -> (r: Vec<u8>)
    requires
        gf.wf(),
        a@.len() >= 1,
        b@.len() >= 1,
        a@.len() + b@.len() - 1 <= usize::MAX,
    ensures
        r@ == poly_mul(a@, b@),
        r@.len() == a@.len() + b@.len() - 1,
{
    let n = a.len() - 1 + b.len();
    let mut result: Vec<u8> = Vec::new();
    for k in 0..n
        invariant
            result@.len() == k,
            forall|t: int| 0 <= t < k ==> result@[t] == conv_partial(a@, b@, t, 0),
    {
        result.push(0);
    }
    for i in 0..a.len()
        invariant
            gf.wf(),
            a@.len() >= 1,
            b@.len() >= 1,
            n == a@.len() + b@.len() - 1,
            result@.len() == n,
            forall|k: int| 0 <= k < n ==> result@[k] == conv_partial(a@, b@, k, i as int),
    {
        let ghost s = result@;
        for j in 0..b.len()
            invariant
                gf.wf(),
                i < a@.len(),
                b@.len() >= 1,
                n == a@.len() + b@.len() - 1,
                result@.len() == n,
                s.len() == n,
                forall|k: int| i <= k < i + j ==> result@[k] == conv_partial(a@, b@, k, i + 1),
                forall|k: int|
                    (0 <= k < i || i + j <= k < n) ==> result@[k] == conv_partial(
                        a@,
                        b@,
                        k,
                        i as int,
                    ),
        {
            let idx = i + j;
            let m = gf.multiply(a[i], b[j]);
            result[idx] = result[idx] ^ m;
            proof {
                assert(conv_term(a@, b@, idx as int, i as int) == gf_mul(
                    a@[i as int],
                    b@[j as int],
                ));
            }
        }
        proof {
            assert forall|k: int| 0 <= k < n implies result@[k] == conv_partial(
                a@,
                b@,
                k,
                i + 1,
            ) by {
                if k < i || i + b@.len() <= k {
                    assert(conv_term(a@, b@, k, i as int) == 0);
                    lemma_xor_zero(conv_partial(a@, b@, k, i as int));
                }
            }
        }
    }
    proof {
        assert(result@ =~= poly_mul(a@, b@));
    }
    result
}

/// One cancellation step of the long division at position `i`: when the
/// leading coefficient there is nonzero, XOR `generator * coefficient` into
/// the window starting at `i`; otherwise leave the polynomial unchanged.
pub open spec fn div_step(r: Seq<u8>, g: Seq<u8>, i: int) -> Seq<u8> {
    if r[i] == 0 {
        r
    } else {
        Seq::new(
            r.len(),
            |k: int|
                if i <= k < i + g.len() {
                    r[k] ^ gf_mul(g[k - i], r[i])
                } else {
                    r[k]
                },
        )
    }
}

/// The first `n` cancellation steps of the long division, applied in order.
pub open spec fn div_sweep(d: Seq<u8>, g: Seq<u8>, n: int) -> Seq<u8>
    decreases n,
{
    if n <= 0 {
        d
    } else {
        div_step(div_sweep(d, g, n - 1), g, n - 1)
    }
}

/// The full long-division sweep over the dividend: one cancellation step for
/// each position a quotient coefficient can stand at. Its trailing
/// `g.len() - 1` entries hold the remainder.
pub open spec fn poly_divide(d: Seq<u8>, g: Seq<u8>) -> Seq<u8> {
    div_sweep(d, g, d.len() - g.len() + 1)
}

/// The sweep leaves the number of coefficients unchanged.
pub proof fn lemma_div_sweep_len(d: Seq<u8>, g: Seq<u8>, n: int)
    ensures
        div_sweep(d, g, n).len() == d.len(),
    decreases n,
{
    if n > 0 {
        lemma_div_sweep_len(d, g, n - 1);
    }
}

/// Long division of `dividend` by `generator` on an owned working copy,
/// returning the swept array; the remainder sits in its final
/// `generator.len() - 1` entries. The generator is expected monic, which
/// callers guarantee by construction.
pub fn divide_polynomial(gf: &GaloisField, dividend: &Vec<u8>, generator: &Vec<u8>) -> (r: Vec<u8>)
    requires
        gf.wf(),
        1 <= generator@.len() <= dividend@.len(),
    ensures
        r@ == poly_divide(dividend@, generator@),
        r@.len() == dividend@.len(),
{
    let mut result: Vec<u8> = Vec::new();
    for k in 0..dividend.len()
        invariant
            k <= dividend@.len(),
            result@ == dividend@.subrange(0, k as int),
    {
        result.push(dividend[k]);
    }
    proof {
        assert(result@ =~= dividend@);
    }
    let steps = dividend.len() - generator.len() + 1;
    for i in 0..steps
        invariant
            gf.wf(),
            1 <= generator@.len() <= dividend@.len(),
            steps == dividend@.len() - generator@.len() + 1,
            dividend@.len() <= usize::MAX,
            result@ == div_sweep(dividend@, generator@, i as int),
            result@.len() == dividend@.len(),
    {
        proof {
            lemma_div_sweep_len(dividend@, generator@, i as int);
        }
        let ghost s = result@;
        let c = result[i];
        if c != 0 {
            for j in 0..generator.len()
                invariant
                    gf.wf(),
                    1 <= generator@.len() <= dividend@.len(),
                    i + generator@.len() <= dividend@.len(),
                    dividend@.len() <= usize::MAX,
                    s.len() == dividend@.len(),
                    result@.len() == dividend@.len(),
                    c == s[i as int],
                    c != 0,
                    forall|k: int|
                        i <= k < i + j ==> result@[k] == (s[k] ^ gf_mul(
                            generator@[k - i],
                            s[i as int],
                        )),
                    forall|k: int|
                        (0 <= k < i || i + j <= k < s.len()) ==> result@[k] == s[k],
            {
                let idx = i + j;
                let m = gf.multiply(generator[j], c);
                result[idx] = result[idx] ^ m;
            }
            proof {
                assert(result@ =~= div_step(s, generator@, i as int));
            }
        }
    }
    result
}

} // verus!
