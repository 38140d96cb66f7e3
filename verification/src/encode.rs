//! Generator-polynomial construction and Reed-Solomon redundancy generation.

use vstd::prelude::*;
use crate::galois::{gf_mul, pow_alpha, GaloisField, lemma_mul_one};
use crate::poly::{conv_partial, conv_term, divide_polynomial, lemma_div_sweep_len, lemma_xor_zero,
    multiply_polynomials, poly_divide, poly_mul};

verus! {

/// The generator polynomial of the given degree: the product of the binomials
/// (x - alpha^i) for i in [0, degree), coefficients highest degree first.
/// Degree 0 gives the constant polynomial 1.
pub open spec fn gen_poly(degree: nat) -> Seq<u8>
    decreases degree,
{
    if degree == 0 {
        seq![1u8]
    } else {
        poly_mul(
            gen_poly((degree - 1) as nat),
            seq![1u8, pow_alpha(((degree - 1) as nat) % 255)],
        )
    }
}

/// The leading coefficient of a product is the product of the leading
/// coefficients.
proof fn lemma_conv_at_zero(a: Seq<u8>, b: Seq<u8>, n: int)
    requires
        1 <= n <= a.len(),
        b.len() >= 1,
    ensures
        conv_partial(a, b, 0, n) == gf_mul(a[0], b[0]),
    decreases n,
{
    assert(conv_partial(a, b, 0, n) == conv_partial(a, b, 0, n - 1) ^ conv_term(a, b, 0, n - 1));
    if n == 1 {
        assert(conv_partial(a, b, 0, 0) == 0);
        assert(conv_term(a, b, 0, 0) == gf_mul(a[0], b[0]));
        lemma_xor_zero(gf_mul(a[0], b[0]));
    } else {
        lemma_conv_at_zero(a, b, n - 1);
        assert(conv_term(a, b, 0, n - 1) == 0);
        lemma_xor_zero(conv_partial(a, b, 0, n - 1));
    }
}

/// The generator polynomial of degree d has d + 1 coefficients and is monic.
pub proof fn lemma_gen_poly_shape(degree: nat)
    ensures
        gen_poly(degree).len() == degree + 1,
        gen_poly(degree)[0] == 1,
    decreases degree,
{
    if degree > 0 {
        let prev = gen_poly((degree - 1) as nat);
        let binom = seq![1u8, pow_alpha(((degree - 1) as nat) % 255)];
        lemma_gen_poly_shape((degree - 1) as nat);
        lemma_conv_at_zero(prev, binom, prev.len() as int);
        lemma_mul_one(1u8);
    }
}

/// Builds the generator polynomial of the given degree by multiplying the
/// binomials (x - alpha^i) together, lowest exponent first.
pub fn generator_polynomial(gf: &GaloisField, degree: usize) -> (r: Vec<u8>)
    requires
        gf.wf(),
        degree < usize::MAX,
    ensures
        r@ == gen_poly(degree as nat),
        r@.len() == degree + 1,
        r@[0] == 1,
{
    let mut result: Vec<u8> = Vec::new();
    result.push(1);
    proof {
        assert(result@ =~= gen_poly(0));
    }
    for i in 0..degree
        invariant
            gf.wf(),
            degree < usize::MAX,
            result@ == gen_poly(i as nat),
            result@.len() == i + 1,
    {
        let mut binom: Vec<u8> = Vec::new();
        binom.push(1);
        binom.push(gf.exponentiate(i));
        proof {
            assert(binom@ =~= seq![1u8, pow_alpha((i as nat) % 255)]);
        }
        result = multiply_polynomials(gf, &result, &binom);
        proof {
            lemma_gen_poly_shape((i + 1) as nat);
        }
    }
    proof {
        lemma_gen_poly_shape(degree as nat);
    }
    result
}

/// The generator polynomial of the given degree, as plain bytes.
pub fn create_generator_polynomial(degree: usize) -> (r: Vec<u8>)
    requires
        degree < usize::MAX,
    ensures
        r@ == gen_poly(degree as nat),
        r@.len() == degree + 1,
        r@[0] == 1,
{
    let gf = GaloisField::new();
    generator_polynomial(&gf, degree)
}

/// Everything the encoder rejects: a zero redundancy count or empty data.
#[derive(Clone, Copy, Debug, PartialEq, Eq, Structural)]
pub enum EncodeError {
    InvalidArgument,
}

/// The data followed by `ec_count` zero bytes: the dividend of the encoding
/// division.
pub open spec fn padded_dividend(data: Seq<u8>, ec_count: nat) -> Seq<u8> {
    data + Seq::new(ec_count, |i: int| 0u8)
}

/// The redundancy bytes for `data`: the trailing `ec_count` entries of the
/// long division of the zero-padded data by the generator polynomial of
/// degree `ec_count`.
pub open spec fn spec_codewords(data: Seq<u8>, ec_count: nat) -> Seq<u8> {
    poly_divide(padded_dividend(data, ec_count), gen_poly(ec_count)).subrange(
        data.len() as int,
        data.len() + ec_count as int,
    )
}

/// The encoder always returns exactly `ec_count` redundancy bytes.
pub proof fn lemma_codewords_len(data: Seq<u8>, ec_count: nat)
    requires
        data.len() >= 1,
    ensures
        spec_codewords(data, ec_count).len() == ec_count,
{
    lemma_gen_poly_shape(ec_count);
    lemma_div_sweep_len(
        padded_dividend(data, ec_count),
        gen_poly(ec_count),
        padded_dividend(data, ec_count).len() - gen_poly(ec_count).len() + 1,
    );
}

/// The encoding is pure: any two results obtained for the same data and the
/// same redundancy count are equal, because the encoder's contract pins its
/// output to `spec_codewords`, a function of the arguments alone.
pub proof fn lemma_codewords_deterministic(data: Seq<u8>, ec_count: nat, r1: Seq<u8>, r2: Seq<u8>)
    requires
        r1 == spec_codewords(data, ec_count),
        r2 == spec_codewords(data, ec_count),
    ensures
        r1 == r2,
{
}

/// Computes the `ec_count` error-correction bytes for `data`. Rejects an
/// empty message and a zero redundancy count; accepts everything else.
pub fn generate_error_correction_codewords(data: &Vec<u8>, ec_count: usize) -> (r: Result<
    Vec<u8>,
    EncodeError,
>)
    requires
        data@.len() + ec_count <= usize::MAX,
    ensures
        match r {
            Ok(codewords) => {
                &&& data@.len() >= 1
                &&& ec_count >= 1
                &&& codewords@ == spec_codewords(data@, ec_count as nat)
                &&& codewords@.len() == ec_count
            },
            Err(e) => {
                &&& data@.len() == 0 || ec_count == 0
                &&& e == EncodeError::InvalidArgument
            },
        },
{
    if data.len() == 0 || ec_count == 0 {
        return Err(EncodeError::InvalidArgument);
    }
    let gf = GaloisField::new();
    let generator = generator_polynomial(&gf, ec_count);
    let mut padded: Vec<u8> = Vec::new();
    for k in 0..data.len()
        invariant
            k <= data@.len(),
            padded@ == data@.subrange(0, k as int),
    {
        padded.push(data[k]);
    }
    proof {
        assert(padded@ =~= data@);
    }
    for k in 0..ec_count
        invariant
            padded@ == data@ + Seq::new(k as nat, |i: int| 0u8),
    {
        padded.push(0);
        proof {
            assert(padded@ =~= data@ + Seq::new((k + 1) as nat, |i: int| 0u8));
        }
    }
    let swept = divide_polynomial(&gf, &padded, &generator);
    let offset = data.len();
    let mut out: Vec<u8> = Vec::new();
    for k in 0..ec_count
        invariant
            offset == data@.len(),
            offset + ec_count <= usize::MAX,
            swept@.len() == offset + ec_count,
            out@ == swept@.subrange(offset as int, offset + k),
    {
        out.push(swept[offset + k]);
        proof {
            assert(swept@.subrange(offset as int, offset + k + 1) =~= swept@.subrange(
                offset as int,
                offset + k,
            ).push(swept@[offset + k]));
        }
    }
    proof {
        assert(out@ =~= spec_codewords(data@, ec_count as nat));
    }
    Ok(out)
}

} // verus!
