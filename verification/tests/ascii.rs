use proptest::collection;
use proptest::string::string_regex;
use proptest::test_runner::{TestCaseError, TestRunner};
use valid8::ascii::{arch, faster, super_arch, validate};

fn agrees_with_std_on_strings(check: fn(&[u8]) -> bool) {
    let mut runner = TestRunner::default();
    let strategy = string_regex("\\PC*").unwrap();
    runner
        .run(&strategy, |s| {
            let s = s.as_bytes();
            if s.is_ascii() == check(s) {
                Ok(())
            } else {
                Err(TestCaseError::fail(format!("disagrees with std on {:?}", s)))
            }
        })
        .unwrap();
}

fn agrees_with_std_on_mostly_ascii_bytes(check: fn(&[u8]) -> bool) {
    let mut runner = TestRunner::default();
    let strategy = collection::vec(0u8..0x81u8, 0..300usize);
    runner
        .run(&strategy, |s| {
            if s.is_ascii() == check(&s) {
                Ok(())
            } else {
                Err(TestCaseError::fail(format!("disagrees with std on {:?}", s)))
            }
        })
        .unwrap();
}

#[test]
fn std_checks_ascii() {
    agrees_with_std_on_strings(validate);
    agrees_with_std_on_mostly_ascii_bytes(validate);
}

#[test]
fn faster_checks_ascii() {
    agrees_with_std_on_strings(faster);
    agrees_with_std_on_mostly_ascii_bytes(faster);
}

#[test]
fn arch_checks_ascii() {
    agrees_with_std_on_strings(arch);
    agrees_with_std_on_mostly_ascii_bytes(arch);
}

#[test]
fn super_arch_checks_ascii() {
    agrees_with_std_on_strings(super_arch);
    agrees_with_std_on_mostly_ascii_bytes(super_arch);
}

fn all_checks() -> [fn(&[u8]) -> bool; 4] {
    [validate, faster, arch, super_arch]
}

#[test]
fn empty_input_is_ascii() {
    for check in all_checks() {
        assert!(check(&[]));
    }
}

#[test]
fn a_single_high_byte_anywhere_is_caught() {
    for len in [1usize, 15, 16, 17, 31, 32, 33, 63, 64, 65, 100, 128, 129, 200] {
        let clean = vec![b'a'; len];
        for check in all_checks() {
            assert!(check(&clean), "len {}", len);
        }
        for pos in 0..len {
            let mut dirty = clean.clone();
            dirty[pos] = 0x80;
            for check in all_checks() {
                assert!(!check(&dirty), "len {} pos {}", len, pos);
            }
        }
    }
}

#[test]
fn boundary_bytes() {
    for check in all_checks() {
        assert!(check(&[0x7f]));
        assert!(check(&[0x00]));
        assert!(!check(&[0xff]));
        assert!(!check(&[0x80]));
    }
}

#[test]
fn high_byte_only_in_last_partial_block() {
    // 70 bytes: one full 64-byte block, then a block that ends at the end.
    let mut bytes = vec![b'x'; 70];
    bytes[69] = 0xc3;
    for check in all_checks() {
        assert!(!check(&bytes));
    }
}
