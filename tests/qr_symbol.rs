use std::collections::HashSet;
use tiny_qr::bits::Square;
use tiny_qr::codec::{mask_fn, EncodingErr};
use tiny_qr::error_cc::ErrorLevel;
use tiny_qr::img::{module_to_color, render, serialize_rgb, Canvas, RGB};
use tiny_qr::qr::{version_to_size, QrCode};
use tiny_qr::segment::EnumEncodingErr;
use tiny_qr::version::{Module, Version};
use tiny_qr::zigzag::ZigzagIter;
use tiny_qr::encode;

fn walk(size: u8) -> Vec<(u8, u8)> {
    let mut it = ZigzagIter::new(size);
    let mut out = Vec::new();
    while let Some(p) = it.next_pos() {
        out.push(p);
    }
    out
}

#[test]
fn test_zigzag_iter() {
    let steps = walk(4);
    assert_eq!(4 * 4, steps.len());
    assert_eq!(
        steps,
        vec![
            (3, 3), (2, 3), (3, 2), (2, 2), (3, 1), (2, 1), (3, 0), (2, 0),
            (1, 0), (0, 0), (1, 1), (0, 1), (1, 2), (0, 2), (1, 3), (0, 3)
        ]
    );

    let steps_5 = walk(5);
    assert_eq!(5 * 5, steps_5.len());
    assert_eq!(
        steps_5,
        vec![
            (4, 4), (3, 4), (4, 3), (3, 3), (4, 2), (3, 2), (4, 1), (3, 1), (4, 0),
            (3, 0), (2, 0), (1, 0), (2, 1), (1, 1), (2, 2), (1, 2), (2, 3), (1, 3),
            (2, 4), (1, 4), (0, 4), (0, 3), (0, 2), (0, 1), (0, 0)
        ]
    );

    // the timing column 6 is left out of the walk
    let steps = walk(21);
    assert_eq!(21 * 21 - 21, steps.len());
}

#[test]
fn qr_test_qr_data_module_iter() {
    let qr = QrCode::new(1, ErrorLevel::L);
    let size = qr.data_sq().size();
    let data_modules: Vec<(u8, u8)> = walk(size).into_iter().filter(|p| qr.is_data_module(*p)).collect();
    let data_modules_set: HashSet<(u8, u8)> = data_modules.iter().copied().collect();
    assert_eq!(data_modules_set.len(), data_modules.len());
    for i in 0..8 {
        let pos = (7, i);
        assert_eq!(false, data_modules_set.contains(&pos), "separator (7,{}) should not be in data modules", i);
    }
    let top_left_square = Square::new(9, (0, 0));
    let top_right_square = Square::new(9, (13, 0));
    let bottom_left_square = Square::new(9, (0, 13));

    assert_eq!(true, qr.data_sq().is_set(8, 13), "dark module not set ({},{})", 8, 13);
    assert_eq!(true, qr.is_data_module((8, 12)), "should be data module ({},{})", 8, 12);
    assert_eq!(true, qr.is_data_module((7, 12)), "should be data module ({},{})", 7, 12);
    assert_eq!(false, qr.is_data_module((6, 12)), "should NOT be data module ({},{})", 6, 12);
    for i in 0..6 {
        assert_eq!(true, qr.is_data_module((i, 12)), "should be data module ({},{})", i, 12);
    }
    for point in &data_modules {
        assert_eq!(false, top_left_square.contains_point(*point), "{:?} is not a data module", *point);
        assert_eq!(false, top_right_square.contains_point(*point), "{:?} is not a data module", *point);
        assert_eq!(false, bottom_left_square.contains_point(*point), "{:?} is not a data module", *point);
        assert_eq!(false, qr.data_sq().is_set(point.0, point.1), "{:?} data should be clear ", *point);
    }
    for i in 0..8 {
        let pos = (7, i);
        assert_eq!(false, data_modules_set.contains(&pos), "separator (7,{}) should not be in data modules", i);
    }
    println!("len={},{:?}", data_modules.len(), data_modules);
}

#[test]
fn test_basic_qr() {
    let mut qr = QrCode::new(1, ErrorLevel::L);
    qr.encode_data("isaiah-perumalla1");
    qr.apply_mask(0);
    let mut bit_string = String::new();
    let size = qr.data_sq().size();
    for (x, y) in walk(size).into_iter().filter(|p| qr.is_data_module(*p)) {
        let bit = qr.data_sq().is_set(x, y);
        if bit {
            bit_string.push('1');
        } else {
            bit_string.push('0');
        }
    }
    let expected_unmasked_str = "0100000100010110100101110011011000010110100101100001011010000010110101110000011001010111001001110101011011010110000101101100011011000110000100110001000011001100010010100100010110111111101110001011100010101010";
    assert_eq!(expected_unmasked_str.len(), bit_string.len());
    assert_eq!(expected_unmasked_str, bit_string);
}

#[test]
fn reserved_area_matches_the_function_patterns() {
    for v in 1..=5u8 {
        let qr = QrCode::new(v, ErrorLevel::L);
        let size = version_to_size(v);
        for x in 0..size {
            for y in 0..size {
                assert_eq!(qr.reserved_area().is_set(x, y), !Version(v).is_data_location((x, y)), "v={} ({},{})", v, x, y);
            }
        }
    }
}

#[test]
fn finder_and_alignment_colours() {
    let qr = QrCode::new(2, ErrorLevel::L);
    let sq = qr.data_sq();
    assert!(sq.is_set(0, 0) && sq.is_set(3, 3) && !sq.is_set(1, 1) && sq.is_set(2, 2));
    assert!(!sq.is_set(7, 0) && !sq.is_set(0, 7));
    assert!(sq.is_set(18, 18) && !sq.is_set(17, 17) && sq.is_set(16, 16));
    assert!(sq.is_set(6, 8) && !sq.is_set(6, 9) && sq.is_set(10, 6));
}

#[test]
fn masking_twice_restores_the_data_modules() {
    let mut qr = QrCode::new(1, ErrorLevel::L);
    qr.encode_data("hello");
    let before: Vec<bool> = (0..21u8).flat_map(|x| (0..21u8).map(move |y| (x, y))).map(|(x, y)| qr.data_sq().is_set(x, y)).collect();
    qr.apply_mask(2);
    qr.apply_mask(2);
    let after: Vec<bool> = (0..21u8).flat_map(|x| (0..21u8).map(move |y| (x, y))).map(|(x, y)| qr.data_sq().is_set(x, y)).collect();
    assert_eq!(before, after);
}

#[test]
fn mask_predicates() {
    assert!(mask_fn(0, (1, 1)) && !mask_fn(0, (1, 2)));
    assert!(mask_fn(1, (5, 4)) && !mask_fn(1, (4, 5)));
    assert!(mask_fn(2, (6, 1)) && !mask_fn(2, (7, 1)));
    assert!(mask_fn(3, (1, 2)) && !mask_fn(3, (1, 3)));
}

#[test]
fn encoding_twice_gives_the_same_symbol() {
    let a = encode::<128>("isaiah-perumalla1/kingsgrove").unwrap();
    let b = encode::<128>("isaiah-perumalla1/kingsgrove").unwrap();
    assert_eq!(a.version.0, b.version.0);
    assert_eq!(a.code_words(), b.code_words());
    assert_eq!(a.data, b.data);
    assert!(a.data[44..].iter().all(|b| *b == 0));
    let ma: Vec<(u8, u8, bool, bool)> = a.module_iter().iter().map(|m| (m.position().0, m.position().1, m.is_dark(), m.is_data())).collect();
    let mb: Vec<(u8, u8, bool, bool)> = b.module_iter().iter().map(|m| (m.position().0, m.position().1, m.is_dark(), m.is_data())).collect();
    assert_eq!(ma, mb);
}

#[test]
fn too_long_text_is_refused() {
    let text: String = std::iter::repeat('a').take(107).collect();
    assert!(matches!(encode::<256>(&text), Err(EnumEncodingErr::DataTooLong)));
    let text: String = std::iter::repeat('a').take(106).collect();
    let code = encode::<256>(&text).unwrap();
    assert_eq!(code.version.0, 5);
    assert_eq!(code.code_words().len(), 134);
    let small: Result<_, EncodingErr> = encode::<20>("abcdef");
    assert!(matches!(small, Err(EnumEncodingErr::DataTooLong)));
}

#[test]
fn non_byte_text_is_refused() {
    assert!(matches!(encode::<64>("\u{4e2d}"), Err(EnumEncodingErr::NotAscii)));
}

#[test]
fn smallest_fitting_version_is_chosen() {
    let t17: String = std::iter::repeat('x').take(17).collect();
    let t18: String = std::iter::repeat('x').take(18).collect();
    assert_eq!(encode::<256>(&t17).unwrap().version.0, 1);
    assert_eq!(encode::<256>(&t18).unwrap().version.0, 2);
}

#[test]
fn symbol_has_every_module_once() {
    let code = encode::<64>("isaiah-perumalla").unwrap();
    let modules = code.module_iter();
    assert_eq!(modules.len(), 21 * 21);
    let positions: HashSet<(u8, u8)> = modules.iter().map(|m| m.position()).collect();
    assert_eq!(positions.len(), 21 * 21);
    for v in 1..=5u8 {
        let size = Version(v).square_size() as usize;
        let reserved = Version(v).reserved_iter();
        let set: HashSet<(u8, u8)> = reserved.iter().map(|m| m.position()).collect();
        assert_eq!(set.len(), reserved.len(), "v={}", v);
        let format: HashSet<(u8, u8)> = Version(v).format_modules(ErrorLevel::L, 0).iter().map(|m| m.position()).collect();
        assert!(set.is_disjoint(&format));
        assert_eq!(set.len() + format.len() + Version(v).data_region_iter().len(), size * size);
    }
    let data = modules.iter().filter(|m| m.is_data()).count();
    assert_eq!(data, 208);
    let sample = Module::data((1, 1), true);
    assert!(sample.is_dark() && sample.is_data());
    let sample = Module::reserved((1, 1), false);
    assert!(!sample.is_dark() && !sample.is_data());
}

#[test]
fn data_region_counts_per_version() {
    let counts: Vec<usize> = (1..=5u8).map(|v| Version(v).data_region_iter().len()).collect();
    assert_eq!(counts, vec![208, 359, 567, 807, 1079]);
}

#[test]
fn canvas_painting() {
    let mut c = Canvas::new(4, 3, RGB(1, 2, 3), 0, 1);
    c.set_colour(2, 1, &RGB(9, 9, 9));
    c.set_colour(0, 1, &RGB(7, 7, 7));
    let bytes = c.rgb_bytes();
    assert_eq!(bytes.len(), 36);
    assert_eq!(&bytes[(4 + 2) * 3..(4 + 2) * 3 + 3], &[9, 9, 9]);
    assert_eq!(&bytes[4 * 3..4 * 3 + 3], &[1, 2, 3]);
    assert_eq!(serialize_rgb(&vec![RGB(1, 2, 3), RGB(4, 5, 6)], 2), vec![1, 2, 3, 4, 5, 6]);
    let v = Canvas::for_version(Version(1));
    assert_eq!((v.width(), v.height()), (200, 200));
    let code = encode::<64>("hi").unwrap();
    let img = render(&code, [RGB(255, 255, 255), RGB(0, 0, 0)]);
    let px = img.rgb_bytes();
    let at = |x: usize, y: usize| px[(y * 200 + x) * 3];
    assert_eq!(at(16, 16), 0);
    assert_eq!(at(8, 8), 255);
    let mut p = Canvas::new(10, 10, RGB(0, 0, 0), 1, 2);
    p.set_pixel(1, 1, &RGB(5, 5, 5));
    let pb = p.rgb_bytes();
    assert_eq!(pb[(4 * 10 + 4) * 3], 5);
    assert_eq!(pb[(3 * 10 + 3) * 3], 0);
}

#[test]
fn module_colours_by_kind() {
    assert_eq!(module_to_color(Module::data((0, 0), true)), RGB(0, 0, 0));
    assert_eq!(module_to_color(Module::data((0, 0), false)), RGB(0, 255, 0));
    assert_eq!(module_to_color(Module::reserved((0, 0), true)), RGB(255, 0, 0));
    assert_eq!(module_to_color(Module::reserved((0, 0), false)), RGB(255, 255, 255));
}
