use tiny_qr::gf256::{gen_polynomial, get_inverse, gf256_add, gf256_mult, Poly, Term};

fn hex_byte(s: &str) -> u8 {
    u8::from_str_radix(s, 16).unwrap()
}

fn hex_str_to_bytes(s: &str) -> Vec<u8> {
    s.split_ascii_whitespace().map(hex_byte).collect()
}

fn all_terms(poly: &Poly) -> Vec<Term> {
    let mut it = poly.terms();
    let mut out = Vec::new();
    while let Some(t) = it.next() {
        out.push(t);
    }
    out
}

#[test]
fn test_inverse_gf256() {
    assert_eq!(get_inverse(10), 221);
    assert_eq!(get_inverse(255), 253);
}

#[test]
fn test_gf256_mult() {
    assert_eq!(29, gf256_mult(128, 2));
    assert_eq!(221, gf256_mult(68, 68));
    assert_eq!(0xee, gf256_mult(15, 18));
    assert_eq!(0x2b, gf256_mult(0x36, 0x12));
}

#[test]
fn test_term_div() {
    assert_eq!(Term(2, 4).div(Term(1, 2)), Term(1, 2));
    assert_eq!(Term(2, 4).div(Term(3, 2)), Term(0, 0));
}

#[test]
fn test_poly_add_term() {
    let mut poly = Poly::from(6, &[12, 0, 34, 64, 0, 0, 0]);
    poly.mut_add(Term(6, 10));
    let terms = all_terms(&poly);
    assert_eq!(
        &terms,
        &[Term(6, 6), Term(5, 0), Term(4, 34), Term(3, 64), Term(2, 0), Term(1, 0), Term(0, 0)]
    );

    poly.mut_add(Term(7, 100));
    let terms = all_terms(&poly);
    assert_eq!(
        &terms,
        &[
            Term(7, 100),
            Term(6, 6),
            Term(5, 0),
            Term(4, 34),
            Term(3, 64),
            Term(2, 0),
            Term(1, 0),
            Term(0, 0)
        ]
    );

    poly.mut_add(Term(17, 117));
    let terms: Vec<Term> = all_terms(&poly).into_iter().filter(|t| t.1 > 0).collect();
    assert_eq!(poly.degree, 17);
    assert_eq!(
        &terms,
        &[Term(17, 117), Term(7, 100), Term(6, 6), Term(4, 34), Term(3, 64)]
    );

    poly.mut_add(Term(17, 117));
    poly.mut_add(Term(7, 100));
    assert_eq!(poly.degree, 6);
    let terms: Vec<Term> = all_terms(&poly).into_iter().filter(|t| t.coef() > 0).collect();
    assert_eq!(&terms, &[Term(6, 6), Term(4, 34), Term(3, 64)]);
}

#[test]
fn test_poly_mul_term() {
    let poly = Poly::from(6, &[12, 0, 34, 64, 0, 0, 0]);
    let result = poly.multiply(Term(0, 2));
    assert_eq!(result.degree, 6);
    let terms: Vec<Term> = all_terms(&result).into_iter().filter(|t| t.coef() > 0).collect();
    assert_eq!(&terms, &[Term(6, 24), Term(4, 68), Term(3, 128)]);

    let result = poly.multiply(Term(4, 2));
    assert_eq!(result.degree, 10);
    let terms: Vec<Term> = all_terms(&result).into_iter().filter(|t| t.coef() > 0).collect();
    assert_eq!(&terms, &[Term(10, 24), Term(8, 68), Term(7, 128)]);
}

#[test]
fn test_poly_gf_mult() {
    let mut poly = Poly::from(6, &[12, 34, 64, 0, 0, 0, 0]);
    poly.mut_mult_scalar(16);
    let mut result = [0u8; 8];
    poly.coefficients(&mut result);
    assert_eq!(&[192, 26, 116, 0, 0, 0, 0], &result[0..7]);
}

#[test]
fn test_gen_poly() {
    let gen = gen_polynomial(7);
    let gen_coef: Vec<u8> = all_terms(&gen).iter().map(|t| t.coef()).collect();
    assert_eq!(&gen_coef, &[1, 127, 122, 154, 164, 11, 68, 117]);

    let gen = gen_polynomial(10);
    let gen_coef: Vec<u8> = all_terms(&gen).iter().map(|t| t.coef()).collect();
    assert_eq!(&gen_coef, &[1, 216, 194, 159, 111, 199, 94, 95, 113, 157, 193]);

    let gen = gen_polynomial(15);
    let gen_coef: Vec<u8> = all_terms(&gen).iter().map(|t| t.coef()).collect();
    assert_eq!(
        &gen_coef,
        &[1, 29, 196, 111, 163, 112, 74, 10, 105, 105, 139, 132, 151, 32, 134, 26]
    );
}

#[test]
fn test_poly_remainder() {
    let poly_1 = Poly::from(6, &[18, 52, 86, 0, 0, 0, 0]);
    let divisor = Poly::from(4, &[1, 15, 54, 120, 64]);
    let remainder = poly_1.div_remainder(&divisor);
    let remainder_terms = all_terms(&remainder);
    assert_eq!(
        &remainder_terms,
        &[Term(3, 55), Term(2, 230), Term(1, 120), Term(0, 217)]
    );
}

#[test]
fn test_remainder_from_code_words() {
    let data = Poly::from(
        18,
        &[
            0x41, 0x16, 0x97, 0x36, 0x16, 0x96, 0x16, 0x82, 0xD7, 0x06, 0x57, 0x27, 0x56, 0xD6,
            0x16, 0xC6, 0xC6, 0x13, 0x10,
        ],
    );
    let gen_poly = Poly::from(7, &[1, 127, 122, 154, 164, 11, 68, 117]);
    let data = data.multiply(Term(gen_poly.degree, 1));
    let remainder = data.div_remainder(&gen_poly);
    let terms = all_terms(&remainder);
    assert_eq!(
        &terms,
        &[
            Term(6, 204),
            Term(5, 74),
            Term(4, 69),
            Term(3, 191),
            Term(2, 184),
            Term(1, 184),
            Term(0, 170)
        ]
    );

    let bytes = hex_str_to_bytes("40 86 97 36 16 96 16 82 D7 00 EC 11 EC 11 EC 11 EC 11 EC");
    assert_eq!((16 * 13 + 7), hex_byte("D7"), "0xD7 == 215");
    assert_eq!(
        &bytes,
        &[
            0x40, 0x86, 0x97, 0x36, 0x16, 0x96, 0x16, 0x82, 0xD7, 0x00, 0xEC, 0x11, 0xEC, 0x11,
            0xEC, 0x11, 0xEC, 0x11, 0xEC
        ]
    );
    let p = Poly::from(18, &bytes);
    let gen_poly = Poly::from(7, &[1, 127, 122, 154, 164, 11, 68, 117]);
    let data = p.multiply(Term(gen_poly.degree, 1));
    let remainder = data.div_remainder(&gen_poly);
    let terms: Vec<u8> = all_terms(&remainder).iter().map(|t| t.coef()).collect();
    let expected: Vec<u8> = hex_str_to_bytes("5C 5A 9A 55 CB 35 7F");
    assert_eq!(&terms, &expected);
}

#[test]
fn test_remainder_from_long_code_words() {
    let data = hex_str_to_bytes("42 55 47 27 57 37 42 06 96 E2 07 46 86 52 04 C4 F5 24 42 07 76 97 46 82 06 16 C6 C2 07 96 F7 57 22 06 86 56 17 27 40 EC 11 EC 11 EC 11 EC 11 EC 11 EC 11 EC 11 EC 11");
    assert_eq!(data.len(), 55);
    let msg_poly = Poly::from((data.len() - 1) as u8, &data);
    let gen_poly = gen_polynomial(15);
    assert_eq!(15, gen_poly.degree);
    let msg_poly = msg_poly.multiply(Term(gen_poly.degree, 1));
    assert_eq!(msg_poly.degree, 54 + 15, "msg poly degree should be 69");
    let expected_rem = hex_str_to_bytes("0D DD 7F 26 BA B3 13 5E D9 E4 66 D8 74 58 00");
    let rem = msg_poly.div_remainder(&gen_poly);
    let rem_terms: Vec<u8> = all_terms(&rem).iter().map(|t| t.coef()).collect();
    assert_eq!(rem_terms.len(), expected_rem.len(), "remainder poly length");
    assert_eq!(&rem_terms, &expected_rem);
}

#[test]
fn test_remainder_from_long_code_words_version5() {
    let data = hex_str_to_bytes("45 15 47 27 57 37 42 06 96 E2 07 46 86 52 04 C4 F5 24 42 07 76 97 46 82 06 16 C6 C2 07 96 F7 52 06 86 56 17 27 42 06 C6 56 16 E2 06 E6 F7 42 06 F6 E2 07 96 F7 57 22 06 F7 76 E2 07 56 E6 46 57 27 37 46 16 E6 46 96 E6 72 05 07 26 F7 66 57 26 27 32 00 EC 11 EC 11 EC 11 EC 11 EC 11 EC 11 EC 11 EC 11 EC 11 EC 11 EC 11 EC 11 EC");
    println!("{:?}", &data);
    assert_eq!(data.len(), 108);
    let msg_poly = Poly::from((data.len() - 1) as u8, &data);
    let gen_poly = gen_polynomial(26);
    assert_eq!(26, gen_poly.degree);
    let msg_poly = msg_poly.multiply(Term(gen_poly.degree, 1));
    assert_eq!(msg_poly.degree, 107 + 26, "msg poly degree should be 69");
    let expected_rem = hex_str_to_bytes("5E 9C 9F 79 9E B0 51 CC C1 27 EB D4 04 05 19 D9 BB 61 E8 93 76 3E 86 85 08 47");
    let rem = msg_poly.div_remainder(&gen_poly);
    let rem_terms: Vec<u8> = all_terms(&rem).iter().map(|t| t.coef()).collect();
    assert_eq!(rem_terms.len(), expected_rem.len(), "remainder poly length");
    assert_eq!(&rem_terms, &expected_rem);
}

#[test]
fn test_remainder_from_long_code_words_0() {
    let data = hex_str_to_bytes("41 65 47 27 57 37 42 06 96 E2 07 46 86 52 04 C4 F5 24 42 07 76 97 46 80 EC 11 EC 11 EC 11 EC 11 EC 11");
    println!("{:?}", &data);
    assert_eq!(data.len(), 34);
    let msg_poly = Poly::from((data.len() - 1) as u8, &data);
    let gen_poly = Poly::from(10, &[1, 216, 194, 159, 111, 199, 94, 95, 113, 157, 193]);
    assert_eq!(10, gen_poly.degree);
    let msg_poly = msg_poly.multiply(Term(gen_poly.degree, 1));
    assert_eq!(msg_poly.degree, 33 + gen_poly.degree, "msg poly degree should be 44");
    let expected_rem = hex_str_to_bytes("59 C5 2F 07 84 C7 CA DC 74 9A");
    let rem = msg_poly.div_remainder(&gen_poly);
    let rem_terms: Vec<u8> = all_terms(&rem).iter().map(|t| t.coef()).collect();
    println!("{:?}", &rem_terms);
    println!("{:?}", &expected_rem);
    assert_eq!(&rem_terms, &expected_rem);
}

#[test]
fn every_nonzero_element_has_its_inverse() {
    for a in 1..=255u8 {
        assert_eq!(gf256_mult(a, get_inverse(a)), 1, "a={}", a);
    }
    assert_eq!(get_inverse(0), 0);
}

#[test]
fn addition_is_exclusive_or() {
    assert_eq!(gf256_add(0x53, 0xCA), 0x99);
    assert_eq!(gf256_add(7, 7), 0);
}

#[test]
fn remainder_has_lower_degree_than_divisor() {
    let data = Poly::from(4, &[3, 200, 17, 0, 99]);
    let divisor = gen_polynomial(3);
    let rem = data.div_remainder(&divisor);
    assert!(rem.degree < divisor.degree);
    assert!(rem.degree == 0 || rem.cof[rem.degree as usize] != 0);
    let short = Poly::from(2, &[0, 0, 5]);
    let rem = short.div_remainder(&divisor);
    assert_eq!(rem.degree, 0);
    assert_eq!(rem.cof[0], 5);
    let zero = Poly::from(3, &[1, 2, 3, 4]).multiply(Term(0, 0));
    assert!(zero.degree == 0 && zero.cof.iter().all(|c| *c == 0));
}

#[test]
fn dividing_a_multiple_leaves_zero() {
    let divisor = gen_polynomial(4);
    let multiple = divisor.multiply(Term(2, 7));
    let rem = multiple.div_remainder(&divisor);
    assert!(rem.is_zero());
    assert_eq!(rem.degree, 0);
}

#[test]
fn generator_has_leading_one_and_zero_at_each_power() {
    let gen = gen_polynomial(5);
    assert_eq!(gen.degree, 5);
    assert_eq!(gen.leading_cof(), 1);
    assert_eq!(gen.leading_term(), Term(5, 1));
}

#[test]
fn built_inverse_table_matches_the_constant() {
    let built = tiny_qr::gf256::compute_inv_table();
    assert_eq!(built, tiny_qr::gf256::GF256_INVERSE);
    assert!(tiny_qr::gf256::check_inv_table(&built));
    let mut broken = built;
    broken[7] = 8;
    assert!(!tiny_qr::gf256::check_inv_table(&broken));
    assert!(!tiny_qr::gf256::check_inv_table(&built[..10]));
}
