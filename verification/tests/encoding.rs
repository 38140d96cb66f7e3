use rs_ecc::encode::{create_generator_polynomial, generate_error_correction_codewords,
    EncodeError};

#[test]
fn generator_polynomial_degree_zero_is_one() {
    assert_eq!(create_generator_polynomial(0), vec![1u8]);
}

#[test]
fn generator_polynomial_small_degrees() {
    assert_eq!(create_generator_polynomial(1), vec![1u8, 1]);
    assert_eq!(create_generator_polynomial(2), vec![1u8, 3, 2]);
    assert_eq!(create_generator_polynomial(3), vec![1u8, 7, 14, 8]);
}

#[test]
fn generator_polynomial_degree_ten() {
    assert_eq!(
        create_generator_polynomial(10),
        vec![1u8, 216, 194, 159, 111, 199, 94, 95, 113, 157, 193]
    );
}

#[test]
fn generator_polynomial_is_monic_with_expected_length() {
    for degree in 0..40usize {
        let g = create_generator_polynomial(degree);
        assert_eq!(g.len(), degree + 1);
        assert_eq!(g[0], 1);
    }
}

#[test]
fn golden_vector() {
    let data: Vec<u8> = vec![32, 91, 11, 120, 209, 114, 220, 77, 67, 64, 236, 17, 236, 17, 236, 17];
    let codewords = generate_error_correction_codewords(&data, 10).unwrap();
    assert_eq!(codewords, vec![196u8, 35, 39, 119, 235, 215, 231, 226, 93, 23]);
}

#[test]
fn codeword_count_matches_request() {
    let data: Vec<u8> = vec![10, 20, 30];
    for k in 1..30usize {
        let codewords = generate_error_correction_codewords(&data, k).unwrap();
        assert_eq!(codewords.len(), k);
    }
}

#[test]
fn rejects_zero_codeword_count() {
    let data: Vec<u8> = vec![1, 2, 3];
    assert_eq!(
        generate_error_correction_codewords(&data, 0),
        Err(EncodeError::InvalidArgument)
    );
}

#[test]
fn rejects_empty_data() {
    let data: Vec<u8> = Vec::new();
    assert_eq!(
        generate_error_correction_codewords(&data, 5),
        Err(EncodeError::InvalidArgument)
    );
}

#[test]
fn repeated_calls_agree() {
    let data: Vec<u8> = vec![55, 0, 200, 13];
    let first = generate_error_correction_codewords(&data, 7).unwrap();
    let second = generate_error_correction_codewords(&data, 7).unwrap();
    assert_eq!(first, second);
}

#[test]
fn single_byte_message_single_codeword() {
    // The degree-1 generator is [1, 1], so dividing [x, 0] by it leaves the
    // remainder [x].
    for x in [0u8, 7, 255] {
        let data: Vec<u8> = vec![x];
        let codewords = generate_error_correction_codewords(&data, 1).unwrap();
        assert_eq!(codewords, vec![x]);
    }
}
