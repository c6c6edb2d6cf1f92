use qr_encoder::polynomials::{
    generator_polynomial, multiply, remainder, times_alpha, EXP, LOG,
};

/// The generator polynomials by degree, each coefficient as the exponent of
/// the power of the field's generator that it is.
const GENERATOR_POLYNOMIALS: [&[u8]; 31] = [
    &[
        0,
    ],
    &[
        0, 0,
    ],
    &[
        0, 25, 1,
    ],
    &[
        0, 198, 199, 3,
    ],
    &[
        0, 75, 249, 78, 6,
    ],
    &[
        0, 113, 164, 166, 119, 10,
    ],
    &[
        0, 166, 0, 134, 5, 176, 15,
    ],
    &[
        0, 87, 229, 146, 149, 238, 102, 21,
    ],
    &[
        0, 175, 238, 208, 249, 215, 252, 196, 28,
    ],
    &[
        0, 95, 246, 137, 231, 235, 149, 11, 123, 36,
    ],
    &[
        0, 251, 67, 46, 61, 118, 70, 64, 94, 32, 45,
    ],
    &[
        0, 220, 192, 91, 194, 172, 177, 209, 116, 227, 10, 55,
    ],
    &[
        0, 102, 43, 98, 121, 187, 113, 198, 143, 131, 87, 157, 66,
    ],
    &[
        0, 74, 152, 176, 100, 86, 100, 106, 104, 130, 218, 206, 140, 78,
    ],
    &[
        0, 199, 249, 155, 48, 190, 124, 218, 137, 216, 87, 207, 59, 22, 91,
    ],
    &[
        0, 8, 183, 61, 91, 202, 37, 51, 58, 58, 237, 140, 124, 5, 99, 105,
    ],
    &[
        0, 120, 104, 107, 109, 102, 161, 76, 3, 91, 191, 147, 169, 182, 194, 225, 120,
    ],
    &[
        0, 43, 139, 206, 78, 43, 239, 123, 206, 214, 147, 24, 99, 150, 39, 243, 163, 136,
    ],
    &[
        0, 215, 234, 158, 94, 184, 97, 118, 170, 79, 187, 152, 148, 252, 179, 5, 98, 96,
        153,
    ],
    &[
        0, 67, 3, 105, 153, 52, 90, 83, 17, 150, 159, 44, 128, 153, 133, 252, 222, 138,
        220, 171,
    ],
    &[
        0, 17, 60, 79, 50, 61, 163, 26, 187, 202, 180, 221, 225, 83, 239, 156, 164, 212,
        212, 188, 190,
    ],
    &[
        0, 240, 233, 104, 247, 181, 140, 67, 98, 85, 200, 210, 115, 148, 137, 230, 36, 122,
        254, 148, 175, 210,
    ],
    &[
        0, 210, 171, 247, 242, 93, 230, 14, 109, 221, 53, 200, 74, 8, 172, 98, 80, 219,
        134, 160, 105, 165, 231,
    ],
    &[
        0, 171, 102, 146, 91, 49, 103, 65, 17, 193, 150, 14, 25, 183, 248, 94, 164, 224,
        192, 1, 78, 56, 147, 253,
    ],
    &[
        0, 229, 121, 135, 48, 211, 117, 251, 126, 159, 180, 169, 152, 192, 226, 228, 218,
        111, 0, 117, 232, 87, 96, 227, 21,
    ],
    &[
        0, 231, 181, 156, 39, 170, 26, 12, 59, 15, 148, 201, 54, 66, 237, 208, 99, 167,
        144, 182, 95, 243, 129, 178, 252, 45,
    ],
    &[
        0, 173, 125, 158, 2, 103, 182, 118, 17, 145, 201, 111, 28, 165, 53, 161, 21, 245,
        142, 13, 102, 48, 227, 153, 145, 218, 70,
    ],
    &[
        0, 79, 228, 8, 165, 227, 21, 180, 29, 9, 237, 70, 99, 45, 58, 138, 135, 73, 126,
        172, 94, 216, 193, 157, 26, 17, 149, 96,
    ],
    &[
        0, 168, 223, 200, 104, 224, 234, 108, 180, 110, 190, 195, 147, 205, 27, 232, 201,
        21, 43, 245, 87, 42, 195, 212, 119, 242, 37, 9, 123,
    ],
    &[
        0, 156, 45, 183, 29, 151, 219, 54, 96, 249, 24, 136, 5, 241, 175, 189, 28, 75, 234,
        150, 148, 23, 9, 202, 162, 68, 250, 140, 24, 151,
    ],
    &[
        0, 41, 173, 145, 152, 216, 31, 179, 182, 50, 48, 110, 86, 239, 96, 222, 125, 42,
        173, 226, 193, 224, 130, 156, 37, 251, 216, 238, 40, 192, 180,
    ],
];

fn alpha_power(exponent: u8) -> u8 {
    let mut power = 1;
    for _ in 0..exponent {
        power = times_alpha(power);
    }
    power
}

#[test]
fn multiply_is_commutative() {
    for a in 0..=255u8 {
        for b in 0..=255u8 {
            assert_eq!(multiply(a, b), multiply(b, a));
        }
    }
}

#[test]
fn one_is_the_identity_and_zero_annihilates() {
    for a in 0..=255u8 {
        assert_eq!(multiply(a, 1), a);
        assert_eq!(multiply(1, a), a);
        assert_eq!(multiply(a, 0), 0);
        assert_eq!(multiply(0, a), 0);
    }
}

#[test]
fn multiply_distributes_over_xor() {
    for a in [0u8, 1, 2, 3, 0x53, 0x8E, 0xCA, 0xFF] {
        for b in 0..=255u8 {
            for c in [0u8, 1, 7, 0x1D, 0x80, 0xFE] {
                assert_eq!(multiply(a, b ^ c), multiply(a, b) ^ multiply(a, c));
            }
        }
    }
}

#[test]
fn products_of_chosen_elements() {
    assert_eq!(multiply(2, 2), 4);
    assert_eq!(multiply(2, 128), 29);
    assert_eq!(multiply(128, 128), 19);
    assert_eq!(multiply(83, 202), 143);
    assert_eq!(multiply(255, 255), 226);
    assert_eq!(multiply(3, 7), 9);
    assert_eq!(multiply(29, 2), 58);
    assert_eq!(multiply(142, 2), 1);
}

#[test]
fn every_element_but_zero_has_an_inverse() {
    for a in 1..=255u8 {
        let inverses = (1..=255u8).filter(|b| multiply(a, *b) == 1).count();
        assert_eq!(inverses, 1);
    }
}

#[test]
fn powers_of_alpha() {
    assert_eq!(times_alpha(1), 2);
    assert_eq!(times_alpha(0x40), 0x80);
    assert_eq!(times_alpha(0x80), 0x1D);
    assert_eq!(times_alpha(0), 0);
    assert_eq!(alpha_power(8), 29);
    assert_eq!(alpha_power(25), 3);
    assert_eq!(alpha_power(254), 142);
    assert_eq!(times_alpha(alpha_power(254)), 1);
    let mut seen = [false; 256];
    let mut power = 1u8;
    for _ in 0..255 {
        assert!(!seen[power as usize]);
        seen[power as usize] = true;
        power = times_alpha(power);
    }
    assert_eq!(power, 1);
}

#[test]
fn tables_of_powers_and_logarithms() {
    assert_eq!(EXP[0], 1);
    assert_eq!(EXP[1], 2);
    assert_eq!(EXP[8], 29);
    assert_eq!(EXP[254], 142);
    assert_eq!(EXP[255], 1);
    assert_eq!(LOG[1], 0);
    assert_eq!(LOG[2], 1);
    assert_eq!(LOG[3], 25);
    assert_eq!(LOG[255], 175);
    for i in 0..255usize {
        assert_eq!(EXP[i + 1], times_alpha(EXP[i]));
        assert_eq!(EXP[i], alpha_power(i as u8));
        assert_eq!(LOG[EXP[i] as usize] as usize, i);
    }
    for a in 1..=255usize {
        assert_eq!(EXP[LOG[a] as usize] as usize, a);
    }
}

#[test]
fn multiply_is_the_product_of_polynomials() {
    for a in 0..=255u8 {
        for b in 0..=255u8 {
            let mut product = 0u8;
            let mut shifted = a;
            for bit in 0..8 {
                if (b >> bit) & 1 == 1 {
                    product ^= shifted;
                }
                shifted = times_alpha(shifted);
            }
            assert_eq!(multiply(a, b), product);
        }
    }
}

#[test]
fn generator_polynomials_are_the_canonical_ones() {
    for degree in 0..=30usize {
        let expected: Vec<u8> =
            GENERATOR_POLYNOMIALS[degree].iter().map(|e| alpha_power(*e)).collect();
        assert_eq!(generator_polynomial(degree), expected, "degree {}", degree);
    }
}

#[test]
fn generator_polynomial_of_degree_7() {
    assert_eq!(generator_polynomial(7), vec![1, 127, 122, 154, 164, 11, 68, 117]);
    assert_eq!(generator_polynomial(0), vec![1]);
    assert_eq!(generator_polynomial(1), vec![1, 1]);
    assert_eq!(generator_polynomial(2), vec![1, 3, 2]);
}

#[test]
fn remainder_of_hello_world_at_m() {
    let data = [32, 91, 11, 120, 209, 114, 220, 77, 67, 64, 236, 17, 236, 17, 236, 17];
    let generator = generator_polynomial(10);
    assert_eq!(remainder(&data, &generator), vec![196, 35, 39, 119, 235, 215, 231, 226, 93, 23]);
}

#[test]
fn remainder_of_hello_world_at_q() {
    let data = [32, 91, 11, 120, 209, 114, 220, 77, 67, 64, 236, 17, 236];
    let generator = generator_polynomial(13);
    assert_eq!(
        remainder(&data, &generator),
        vec![168, 72, 22, 82, 217, 54, 156, 0, 46, 15, 180, 122, 16]
    );
}

#[test]
fn remainder_has_one_codeword_less_than_the_generator() {
    for degree in 0..=30usize {
        let generator = generator_polynomial(degree);
        assert_eq!(generator.len(), degree + 1);
        for len in [0usize, 1, 2, 19, 123] {
            let data: Vec<u8> = (0..len).map(|i| (i * 37 + 11) as u8).collect();
            assert_eq!(remainder(&data, &generator).len(), generator.len() - 1);
        }
    }
}

#[test]
fn remainder_of_nothing_is_zero() {
    let generator = generator_polynomial(7);
    assert_eq!(remainder(&[], &generator), vec![0; 7]);
    assert_eq!(remainder(&[0, 0, 0], &generator), vec![0; 7]);
    assert_eq!(remainder(&[1, 2, 3], &[1]), Vec::<u8>::new());
}

#[test]
fn remainder_of_a_single_one_is_the_generator_less_its_lead() {
    for degree in 1..=30usize {
        let generator = generator_polynomial(degree);
        assert_eq!(remainder(&[1], &generator), generator[1..].to_vec());
    }
}

/// The syndromes of a received block: its polynomial at the first powers of
/// the field's generator. All are zero for an untouched block.
fn syndromes(block: &[u8], count: usize) -> Vec<u8> {
    (0..count)
        .map(|i| {
            let point = alpha_power(i as u8);
            block.iter().fold(0u8, |sum, coefficient| multiply(sum, point) ^ coefficient)
        })
        .collect()
}

#[test]
fn untouched_block_has_zero_syndromes() {
    let data = [32, 91, 11, 120, 209, 114, 220, 77, 67, 64, 236, 17, 236, 17, 236, 17];
    let generator = generator_polynomial(10);
    let mut block = data.to_vec();
    block.extend(remainder(&data, &generator));
    assert_eq!(syndromes(&block, 10), vec![0; 10]);
}

#[test]
fn single_byte_corruption_is_detected() {
    let data = [32, 91, 11, 120, 209, 114, 220, 77, 67, 64, 236, 17, 236, 17, 236, 17];
    let generator = generator_polynomial(10);
    let correction = remainder(&data, &generator);
    let mut block = data.to_vec();
    block.extend(correction.iter());
    for place in 0..block.len() {
        for flip in [1u8, 2, 0x80, 0xFF, 0x5A] {
            let mut received = block.clone();
            received[place] ^= flip;
            assert!(syndromes(&received, 10).iter().any(|s| *s != 0));
            let recomputed = remainder(&received[..data.len()], &generator);
            assert_ne!(recomputed, received[data.len()..].to_vec());
        }
    }
}
