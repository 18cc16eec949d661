use libpbm::NetPBM;
use libpbm::pam::{NetPAM, TupleType};
use libpbm::pbm::decode_pbm;
use libpbm::pgm::decode_pgm;
use libpbm::ppm::decode_ppm;

#[test]
fn pbm_text_two_by_two() {
    let mut pbm = NetPBM::new_pbm(2, 2);
    pbm.set_pixel(0, 0, false);
    pbm.set_pixel(1, 0, true);
    pbm.set_pixel(0, 1, true);
    pbm.set_pixel(1, 1, false);
    assert_eq!(pbm.to_ascii(None), "P1\n2 2\n0 1\n1 0\n");
}

#[test]
fn pbm_raw_two_by_two() {
    let mut pbm = NetPBM::new_pbm(2, 2);
    pbm.set_pixel(1, 0, true);
    pbm.set_pixel(0, 1, true);
    let raw = pbm.to_raw();
    assert_eq!(raw, vec![80, 52, 10, 50, 32, 50, 10, 0b01000000, 0b10000000]);
}

#[test]
fn pbm_packs_one_row_into_one_byte() {
    let mut pbm = NetPBM::new_pbm(8, 1);
    let row = [true, false, true, true, false, false, true, false];
    for (x, v) in row.iter().enumerate() {
        pbm.set_pixel(x, 0, *v);
    }
    let raw = pbm.to_raw();
    assert_eq!(raw[raw.len() - 1], 0b10110010);
}

#[test]
fn pbm_final_byte_pads_with_zero_bits() {
    let mut pbm = NetPBM::new_pbm(12, 1);
    for x in 0..12 {
        pbm.set_pixel(x, 0, true);
    }
    let raw = pbm.to_raw();
    assert_eq!(&raw[raw.len() - 2..], &[0b11111111, 0b11110000]);
}

#[test]
fn pbm_comment_is_rewritten_per_line() {
    let pbm = NetPBM::new_pbm(1, 1);
    assert_eq!(pbm.to_ascii(Some("hi\nthere")), "P1\n# hi\n# there\n1 1\n0\n");
}

#[test]
fn pbm_round_trip_raw() {
    let mut pbm = NetPBM::new_pbm(3, 2);
    pbm.set_pixel(0, 0, true);
    pbm.set_pixel(2, 0, true);
    pbm.set_pixel(1, 1, true);
    let raw = pbm.to_raw();
    let expected = [[true, false, true], [false, true, false]];
    let mut back = decode_pbm(&raw).unwrap();
    for y in 0..2 {
        for x in 0..3 {
            assert_eq!(back.get_pixel(x, y), Some(expected[y][x]));
        }
    }
    assert_eq!(back.get_pixel(3, 0), None);
    assert_eq!(back.to_raw(), raw);
}

#[test]
fn pbm_decode_text() {
    let bytes = b"P1\n2 2\n0 1\n1 0\n".to_vec();
    let mut img = decode_pbm(&bytes).unwrap();
    assert_eq!(img.get_pixel(0, 0), Some(false));
    assert_eq!(img.get_pixel(1, 0), Some(true));
    assert_eq!(img.get_pixel(0, 1), Some(true));
    assert_eq!(img.get_pixel(1, 1), Some(false));
}

#[test]
fn pbm_decode_missing_dimensions_fails() {
    assert!(decode_pbm(&b"P1\n".to_vec()).is_none());
    assert!(decode_pbm(&Vec::new()).is_none());
}

#[test]
fn pbm_decode_truncated_raw_fails() {
    let bytes = b"P4\n16 2\n\x01".to_vec();
    assert!(decode_pbm(&bytes).is_none());
}

#[test]
fn pbm_round_trip_raw_across_byte_boundaries() {
    let mut pbm = NetPBM::new_pbm(12, 2);
    for x in 0..12 {
        pbm.set_pixel(x, 0, x % 3 == 0);
        pbm.set_pixel(x, 1, x % 2 == 1);
    }
    let raw = pbm.to_raw();
    let mut back = decode_pbm(&raw).unwrap();
    for x in 0..12 {
        assert_eq!(back.get_pixel(x, 0), Some(x % 3 == 0));
        assert_eq!(back.get_pixel(x, 1), Some(x % 2 == 1));
    }
}

#[test]
fn pbm_text_round_trip() {
    let mut pbm = NetPBM::new_pbm(2, 2);
    pbm.set_pixel(1, 0, true);
    pbm.set_pixel(0, 1, true);
    let text = pbm.to_ascii(None).into_bytes();
    let mut back = decode_pbm(&text).unwrap();
    assert_eq!(back.get_pixel(0, 0), Some(false));
    assert_eq!(back.get_pixel(1, 0), Some(true));
    assert_eq!(back.get_pixel(0, 1), Some(true));
    assert_eq!(back.get_pixel(1, 1), Some(false));
}

#[test]
fn pgm_text_fields_align_to_max_value_width() {
    let mut pgm = NetPBM::new_pgm(2, 1, 65535);
    pgm.set_pixel(0, 0, 7);
    pgm.set_pixel(1, 0, 65535);
    assert_eq!(pgm.to_ascii(None), "P2\n2 1\n65535\n    7 65535\n");
}

#[test]
fn pgm_text_two_rows() {
    let mut pgm = NetPBM::new_pgm(2, 2, 255);
    pgm.set_pixel(1, 0, 32);
    pgm.set_pixel(0, 1, 64);
    pgm.set_pixel(1, 1, 96);
    assert_eq!(pgm.to_ascii(None), "P2\n2 2\n255\n  0  32\n 64  96\n");
}

#[test]
fn pgm_wide_sample_splits_big_endian() {
    let mut pgm = NetPBM::new_pgm(1, 1, 65535);
    pgm.set_pixel(0, 0, 0x1234);
    let raw = pgm.to_raw();
    assert_eq!(&raw[raw.len() - 2..], &[0x12, 0x34]);
    let mut back = decode_pgm(&raw).unwrap();
    assert_eq!(back.get_pixel(0, 0), Some(0x1234));
}

#[test]
fn pgm_round_trip_raw_one_byte_samples() {
    let mut pgm = NetPBM::new_pgm(4, 2, 255);
    let vals = [0u16, 32, 64, 96, 128, 160, 192, 232];
    for y in 0..2 {
        for x in 0..4 {
            pgm.set_pixel(x, y, vals[y * 4 + x]);
        }
    }
    let raw = pgm.to_raw();
    let mut back = decode_pgm(&raw).unwrap();
    for y in 0..2 {
        for x in 0..4 {
            assert_eq!(back.get_pixel(x, y), Some(vals[y * 4 + x]));
        }
    }
    assert_eq!(back.to_raw(), raw);
}

#[test]
fn pgm_encoding_is_deterministic() {
    let mut pgm = NetPBM::new_pgm(3, 3, 1000);
    pgm.set_pixel(1, 1, 999);
    assert_eq!(pgm.to_raw(), pgm.to_raw());
    assert_eq!(pgm.to_ascii(Some("c")), pgm.to_ascii(Some("c")));
}

#[test]
fn pgm_set_pixel_out_of_bounds_is_a_no_op() {
    let mut pgm = NetPBM::new_pgm(3, 2, 255);
    pgm.set_pixel(0, 0, 17);
    let before = pgm.to_raw();
    pgm.set_pixel(3, 0, 5);
    pgm.set_pixel(0, 2, 5);
    pgm.set_pixel(1, 1, 256);
    assert_eq!(pgm.to_raw(), before);
    assert_eq!(pgm.get_pixel(3, 0), None);
    assert_eq!(pgm.get_pixel(0, 2), None);
}

#[test]
fn pgm_decode_text_skips_unreadable_tokens() {
    let bytes = b"P2\n1 1\n255\nxx 7\n".to_vec();
    let mut img = decode_pgm(&bytes).unwrap();
    assert_eq!(img.get_pixel(0, 0), Some(7));
}

#[test]
fn pgm_decode_skips_comment_like_header_lines() {
    let bytes = b"P2\n# hello\n2 1\n255\n1 2\n".to_vec();
    let mut img = decode_pgm(&bytes).unwrap();
    assert_eq!(img.get_pixel(0, 0), Some(1));
    assert_eq!(img.get_pixel(1, 0), Some(2));
}

#[test]
fn pgm_decode_rejects_bad_input() {
    assert!(decode_pgm(&b"P2\n2 2\n".to_vec()).is_none());
    assert!(decode_pgm(&b"P2\n0 0\n255\n".to_vec()).is_none());
    assert!(decode_pgm(&b"P5\n2 2\n255\n\x01\x02\x03".to_vec()).is_none());
    assert!(decode_pgm(&b"P2\n1 1\n10\n200\n".to_vec()).is_none());
    assert!(decode_pgm(&b"P2\n1 1\n99999\n0\n".to_vec()).is_none());
}

#[test]
fn ppm_text_one_pixel() {
    let mut ppm = NetPBM::new_ppm(1, 1, 255);
    ppm.set_pixel(0, 0, [255, 0, 10]);
    assert_eq!(ppm.to_ascii(None), "P3\n1 1\n255\n255   0  10\n");
}

#[test]
fn ppm_raw_one_pixel() {
    let mut ppm = NetPBM::new_ppm(1, 1, 255);
    ppm.set_pixel(0, 0, [255, 0, 10]);
    assert_eq!(ppm.to_raw(), b"P6\n1 1\n255\n\xff\x00\x0a".to_vec());
}

#[test]
fn ppm_round_trip_raw_two_byte_samples() {
    let mut ppm = NetPBM::new_ppm(2, 2, 65535);
    let px = [[0u16, 1, 2], [300, 400, 500], [65535, 0, 65535], [7, 8, 9]];
    for y in 0..2 {
        for x in 0..2 {
            ppm.set_pixel(x, y, px[y * 2 + x]);
        }
    }
    let raw = ppm.to_raw();
    let mut back = decode_ppm(&raw).unwrap();
    for y in 0..2 {
        for x in 0..2 {
            assert_eq!(back.get_pixel(x, y), Some(px[y * 2 + x]));
        }
    }
    assert_eq!(back.get_pixel(2, 0), None);
    assert_eq!(back.to_raw(), raw);
}

#[test]
fn ppm_decode_text() {
    let bytes = b"P3\n2 1\n255\n1 2 3 4 5 6\n".to_vec();
    let mut img = decode_ppm(&bytes).unwrap();
    assert_eq!(img.get_pixel(0, 0), Some([1, 2, 3]));
    assert_eq!(img.get_pixel(1, 0), Some([4, 5, 6]));
}

#[test]
fn pgm_text_round_trip() {
    let mut pgm = NetPBM::new_pgm(3, 2, 65535);
    let vals = [5u16, 65535, 0, 1000, 42, 9999];
    for y in 0..2 {
        for x in 0..3 {
            pgm.set_pixel(x, y, vals[y * 3 + x]);
        }
    }
    let text = pgm.to_ascii(None).into_bytes();
    let mut back = decode_pgm(&text).unwrap();
    for y in 0..2 {
        for x in 0..3 {
            assert_eq!(back.get_pixel(x, y), Some(vals[y * 3 + x]));
        }
    }
}

#[test]
fn ppm_decode_rejects_bad_input() {
    assert!(decode_ppm(&b"P6\n2 1\n255\n\x01\x02\x03".to_vec()).is_none());
    assert!(decode_ppm(&b"P3\n0 1\n255\n".to_vec()).is_none());
    assert!(decode_ppm(&b"P3\n1 1\n10\n1 2 11\n".to_vec()).is_none());
    assert!(decode_ppm(&b"P3\n1 1\n255\n1 2\n".to_vec()).is_none());
}

#[test]
fn ppm_set_pixel_checks_every_channel() {
    let mut ppm = NetPBM::new_ppm(1, 1, 100);
    ppm.set_pixel(0, 0, [1, 2, 3]);
    ppm.set_pixel(0, 0, [4, 101, 6]);
    assert_eq!(ppm.get_pixel(0, 0), Some([1, 2, 3]));
}

#[test]
fn tuple_type_depths_and_names() {
    assert_eq!(TupleType::BlackAndWhite.get_depth(), 1);
    assert_eq!(TupleType::Grayscale.get_depth(), 1);
    assert_eq!(TupleType::RGB.get_depth(), 3);
    assert_eq!(TupleType::BlackAndWhiteAlpha.get_depth(), 2);
    assert_eq!(TupleType::GrayscaleAlpha.get_depth(), 2);
    assert_eq!(TupleType::RGBAlpha.get_depth(), 4);
    assert_eq!(TupleType::Custom { depth: 7, tuple_type: "SEVEN" }.get_depth(), 7);
    assert_eq!(TupleType::RGB.get_tuple_type(), "RGB");
    assert_eq!(TupleType::GrayscaleAlpha.get_tuple_type(), "GRAYSCALE_ALPHA");
    assert_eq!(
        TupleType::Custom { depth: 7, tuple_type: "SEVEN" }.get_tuple_type(),
        "SEVEN"
    );
}

#[test]
fn pam_raw_rgb() {
    let mut pam = NetPAM::new(1, 1, 255, TupleType::RGB);
    pam.set_pixel(0, 0, vec![1, 2, 3]);
    let mut expected = b"P7\nWIDTH 1\nHEIGHT 1\nDEPTH 3\nMAXVAL 255\nTUPLTYPE RGB\nENDHDR\n".to_vec();
    expected.extend_from_slice(&[1, 2, 3]);
    assert_eq!(pam.to_raw(), expected);
}

#[test]
fn pam_raw_custom_wide_samples() {
    let mut pam = NetPAM::new(1, 1, 65535, TupleType::Custom { depth: 2, tuple_type: "VA" });
    pam.set_pixel(0, 0, vec![65535, 0]);
    let mut expected = b"P7\nWIDTH 1\nHEIGHT 1\nDEPTH 2\nMAXVAL 65535\nTUPLTYPE VA\nENDHDR\n".to_vec();
    expected.extend_from_slice(&[255, 255, 0, 0]);
    assert_eq!(pam.to_raw(), expected);
}

#[test]
fn pam_set_pixel_checks_length_and_range() {
    let mut pam = NetPAM::new(2, 1, 100, TupleType::GrayscaleAlpha);
    pam.set_pixel(0, 0, vec![9, 10]);
    pam.set_pixel(0, 0, vec![1, 2, 3]);
    pam.set_pixel(0, 0, vec![1, 200]);
    pam.set_pixel(2, 0, vec![1, 2]);
    assert_eq!(pam.get_pixel(0, 0), Some(vec![9, 10]));
    assert_eq!(pam.get_pixel(2, 0), None);
}
