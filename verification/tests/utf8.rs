use proptest::arbitrary::any;
use proptest::collection;
use proptest::string::string_regex;
use proptest::test_runner::{TestCaseError, TestRunner};
use valid8::utf8::{alignri, shuffle, validate, AlignCount};

#[test]
fn alignri_valid() {
    let a = [1i8; 32];
    let b = [2i8; 32];
    let valid_31: [i8; 32] = [
        1, 0, 0, 0, 0, 0, 0, 0, 0, 0, 0, 0, 0, 0, 0, 0, 1, 0, 0, 0, 0, 0, 0, 0, 0, 0, 0, 0, 0, 0,
        0, 0,
    ];
    let valid_30: [i8; 32] = [
        1, 1, 0, 0, 0, 0, 0, 0, 0, 0, 0, 0, 0, 0, 0, 0, 1, 1, 0, 0, 0, 0, 0, 0, 0, 0, 0, 0, 0, 0,
        0, 0,
    ];
    assert_eq!(valid_31, alignri(a, b, AlignCount::ThirtyOne));
    assert_eq!(valid_30, alignri(a, b, AlignCount::Thirty));
}

#[test]
fn shuffle_valid() {
    let mut a = [0i8; 32];
    a[0] = 1;
    a[16] = 1;
    let b = [0i8; 32];
    assert_eq!([1i8; 32], shuffle(a, b));
}

#[test]
fn std_checks_utf8() {
    let s = b"affffffffffffffffffffffffffffffffffffffffffffffffffffffffffffffffffffffff";

    assert_eq!(true, validate(s));
}

#[test]
fn std_checks_wrong_utf8() {
    let s = [0xc0 as u8, 0xae as u8];

    assert_eq!(false, validate(&s));
}

#[test]
fn alignri_takes_the_top_lanes_of_each_half() {
    let mut a = [0i8; 32];
    for (j, x) in a.iter_mut().enumerate() {
        *x = j as i8;
    }
    let b = [-1i8; 32];
    let r31 = alignri(a, b, AlignCount::ThirtyOne);
    let r30 = alignri(a, b, AlignCount::Thirty);
    let mut e31 = [0i8; 32];
    e31[0] = 15;
    e31[16] = 31;
    let mut e30 = [0i8; 32];
    e30[0] = 14;
    e30[1] = 15;
    e30[16] = 30;
    e30[17] = 31;
    assert_eq!(e31, r31);
    assert_eq!(e30, r30);
}

#[test]
fn shuffle_selects_within_each_half_and_zeroes_negative_selectors() {
    let mut a = [0i8; 32];
    for (j, x) in a.iter_mut().enumerate() {
        *x = 100 + j as i8;
    }
    let mut b = [0i8; 32];
    for (j, x) in b.iter_mut().enumerate() {
        *x = (31 - j) as i8;
    }
    b[5] = -3;
    let r = shuffle(a, b);
    for j in 0..32usize {
        let expected = if j == 5 {
            0
        } else {
            let half = if j < 16 { 0 } else { 16 };
            a[half + (b[j] as usize) % 16]
        };
        assert_eq!(expected, r[j], "lane {}", j);
    }
}

#[test]
fn utf8_agrees_with_std_on_byte_strings() {
    let mut runner = TestRunner::default();
    let strategy = collection::vec(any::<u8>(), 0..120usize);
    runner
        .run(&strategy, |s| {
            if std::str::from_utf8(&s).is_ok() == validate(&s) {
                Ok(())
            } else {
                Err(TestCaseError::fail(format!("disagrees with std on {:?}", s)))
            }
        })
        .unwrap();
}

#[test]
fn utf8_accepts_every_string() {
    let mut runner = TestRunner::default();
    let strategy = string_regex("\\PC*").unwrap();
    runner
        .run(&strategy, |s| {
            if validate(s.as_bytes()) {
                Ok(())
            } else {
                Err(TestCaseError::fail(format!("rejects {:?}", s)))
            }
        })
        .unwrap();
}

#[test]
fn utf8_truncated_strings_are_rejected() {
    let mut runner = TestRunner::default();
    let strategy = string_regex("[a-z]{0,40}[\\u{80}-\\u{10FFFF}]").unwrap();
    runner
        .run(&strategy, |s| {
            let bytes = s.as_bytes();
            let cut = &bytes[..bytes.len() - 1];
            if !validate(cut) && validate(bytes) {
                Ok(())
            } else {
                Err(TestCaseError::fail(format!("wrong on {:?}", s)))
            }
        })
        .unwrap();
}

#[test]
fn utf8_edge_cases() {
    assert!(validate(b""));
    assert!(validate("é".as_bytes()));
    assert!(validate("€".as_bytes()));
    assert!(validate("𝄞".as_bytes()));
    assert!(validate(&[0xed, 0x9f, 0xbf]));
    assert!(validate(&[0xf4, 0x8f, 0xbf, 0xbf]));
    assert!(validate(&[0xf0, 0x90, 0x80, 0x80]));
    assert!(validate(&[0xe0, 0xa0, 0x80]));
    assert!(validate(&[0xc2, 0x80]));
    // overlong forms
    assert!(!validate(&[0xc1, 0xbf]));
    assert!(!validate(&[0xe0, 0x9f, 0xbf]));
    assert!(!validate(&[0xf0, 0x8f, 0xbf, 0xbf]));
    // surrogates
    assert!(!validate(&[0xed, 0xa0, 0x80]));
    assert!(!validate(&[0xed, 0xbf, 0xbf]));
    // past U+10FFFF
    assert!(!validate(&[0xf4, 0x90, 0x80, 0x80]));
    assert!(!validate(&[0xf5, 0x80, 0x80, 0x80]));
    assert!(!validate(&[0xff]));
    // stray continuation and truncation
    assert!(!validate(&[0x80]));
    assert!(!validate(&[b'a', 0xbf]));
    assert!(!validate(&[0xe2, 0x82]));
    assert!(!validate(&[0xe2, 0x28, 0xa1]));
}

#[test]
fn utf8_scalar_across_block_boundary() {
    for pad in 28..36usize {
        let mut bytes = vec![b'a'; pad];
        bytes.extend_from_slice("𝄞".as_bytes());
        bytes.extend_from_slice(b"tail");
        assert!(validate(&bytes), "pad {}", pad);
        let cut = &bytes[..pad + 2];
        assert!(!validate(cut), "pad {}", pad);
    }
    let exact = vec![b'z'; 64];
    assert!(validate(&exact));
    let mut dangling = vec![b'z'; 63];
    dangling.push(0xe2);
    assert!(!validate(&dangling));
}
