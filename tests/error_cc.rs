use tiny_qr::error_cc::ErrorLevel;

fn hex_str_to_bytes(s: &str) -> Vec<u8> {
    s.split_ascii_whitespace().map(|h| u8::from_str_radix(h, 16).unwrap()).collect()
}

#[test]
fn test_error_correction() {
    let data = hex_str_to_bytes("40 D4 A4 55 35 55 32 06 96 E2 04 B4 94 E4 70 EC 11 EC 11");
    let mut ecc_words = [0; 16];
    let version = 1;
    let ecc_size = ErrorLevel::L.compute_ecc(version, &data, &mut ecc_words);
    assert_eq!(ecc_size, 7);
    let expected_ecc = hex_str_to_bytes("31 CA A6 14 0E 5E EC");
    assert_eq!(&expected_ecc, &ecc_words[0..ecc_size]);
}

#[test]
fn capacities_add_up_and_match_the_table() {
    let table = [(1u8, 19usize, 26usize), (2, 34, 44), (3, 55, 70), (4, 80, 100), (5, 108, 134)];
    for (v, data, total) in table {
        assert_eq!(ErrorLevel::L.data_code_words(v), data);
        assert_eq!(ErrorLevel::L.total_words(v), total);
    }
}

#[test]
fn format_words_for_level_l() {
    assert_eq!(ErrorLevel::L.format_bits(0), 0b111011111000100);
    assert_eq!(ErrorLevel::L.format_bits(3), 0b111100010011101);
    assert_eq!(ErrorLevel::L.format_bits(7), 0b110100101110110);
}

#[test]
fn error_codes_follow_the_data_words() {
    let mut buffer = vec![0u8; 30];
    let data = hex_str_to_bytes("40 D4 A4 55 35 55 32 06 96 E2 04 B4 94 E4 70 EC 11 EC 11");
    buffer[..19].copy_from_slice(&data);
    buffer[29] = 0x55;
    let total = ErrorLevel::L.add_error_codes(1, &mut buffer);
    assert_eq!(total, 26);
    assert_eq!(&buffer[..19], &data[..]);
    assert_eq!(&buffer[19..26], &hex_str_to_bytes("31 CA A6 14 0E 5E EC")[..]);
    assert_eq!(buffer[29], 0x55);
}
