use sims::generic;

fn check_find_first_of(tested: impl Fn(&[u8], &[u8]) -> Option<usize>) {
    let letters = b"abcdefghijklmnopqrstuvwxyz";
    let fillers = b"0123456789_-&~#>";

    for searched_size in 1..letters.len() {
        let searched = &letters[0..=searched_size];
        for prefix_size in 0..100 {
            let mut data: Vec<u8> = std::iter::repeat(fillers)
                .flat_map(|v| v.iter())
                .take(prefix_size)
                .cloned()
                .collect();
            assert!(tested(&data, searched).is_none());
            data.extend(searched);
            for rotated in 0..searched.len() {
                data[prefix_size..].rotate_right(rotated);
                assert_eq!(tested(&data, searched), Some(prefix_size));
            }
        }
    }
}

fn check_find_first_not_of(tested: impl Fn(&[u8], &[u8]) -> Option<usize>) {
    let letters = b"abcdefghijklmnopqrstuvwxyz";
    let fillers = b"0123456789_-&~#>";

    for not_searched_size in 1..letters.len() {
        let not_searched = &letters[0..=not_searched_size];
        for prefix_size in 0..100 {
            let mut data: Vec<u8> = std::iter::repeat(&not_searched)
                .flat_map(|v| v.iter())
                .take(prefix_size)
                .cloned()
                .collect();
            assert!(tested(&data, not_searched).is_none());
            data.extend(fillers);
            for rotated in 0..fillers.len() {
                data[prefix_size..].rotate_right(rotated);
                assert_eq!(tested(&data, not_searched), Some(prefix_size));
            }
        }
    }
}

#[test]
fn test_find_first_of() {
    check_find_first_of(generic::find_first_of)
}

#[test]
fn test_find_first_not_of() {
    check_find_first_not_of(generic::find_first_not_of)
}

#[test]
fn generic_concrete_examples() {
    assert_eq!(generic::find_first_of(b"abcdefg", b"ego"), Some(4));
    assert_eq!(generic::find_first_of(b"abcdefg", b"xyz"), None);
    assert_eq!(generic::find_first_not_of(b"abcdefg", b"abde"), Some(2));
    assert_eq!(generic::find_first_not_of(b"abcdefg", b"abcdefg"), None);
}

#[test]
fn generic_empty_inputs() {
    assert_eq!(generic::find_first_of(b"", b"abc"), None);
    assert_eq!(generic::find_first_of(b"abc", b""), None);
    assert_eq!(generic::find_first_not_of(b"", b"abc"), None);
    assert_eq!(generic::find_first_not_of(b"abc", b""), Some(0));
}

#[test]
fn generic_contains_byte() {
    assert!(generic::contains_byte(b"xyz", b'y'));
    assert!(!generic::contains_byte(b"xyz", b'a'));
    assert!(!generic::contains_byte(b"", b'a'));
}
