use sims::byte_set::{ByteSet, ByteSetError};
use sims::{find_first_not_of, find_first_of, generic, sse42};

fn pseudo_random_bytes(seed: u64, len: usize, modulus: u8) -> Vec<u8> {
    let mut state = seed;
    let mut out = Vec::with_capacity(len);
    for _ in 0..len {
        state = state.wrapping_mul(6364136223846793005).wrapping_add(1442695040888963407);
        out.push(((state >> 33) % modulus as u64) as u8);
    }
    out
}

#[test]
fn concrete_examples() {
    assert_eq!(find_first_of(b"abcdefg", b"ego"), Some(4));
    assert_eq!(find_first_of(b"abcdefg", b"xyz"), None);
    assert_eq!(find_first_not_of(b"abcdefg", b"abde"), Some(2));
    assert_eq!(find_first_not_of(b"abcdefg", b"abcdefg"), None);
}

#[test]
fn engine_matches_linear_scan() {
    for seed in 0..60u64 {
        let data = pseudo_random_bytes(seed, (seed as usize * 7) % 90, 40);
        let set = pseudo_random_bytes(seed + 1000, (seed as usize * 3) % 45, 40);
        assert_eq!(find_first_of(&data, &set), generic::find_first_of(&data, &set));
        assert_eq!(find_first_not_of(&data, &set), generic::find_first_not_of(&data, &set));
    }
}

#[test]
fn no_match_for_disjoint_or_covered_haystacks() {
    let set: Vec<u8> = (b'a'..=b'z').collect();
    let outside: Vec<u8> = (0..70u8).map(|i| b'0' + i % 10).collect();
    assert_eq!(find_first_of(&outside, &set), None);
    let inside: Vec<u8> = (0..70u8).map(|i| b'a' + (i * 7) % 26).collect();
    assert_eq!(find_first_not_of(&inside, &set), None);
}

#[test]
fn first_occurrence_after_clean_prefix() {
    let set = b"xyz";
    let mut data = b"0123456789abcdefghijk".to_vec();
    let prefix = data.len();
    data.extend_from_slice(set);
    for n in 0..set.len() {
        data[prefix..].rotate_right(n);
        assert_eq!(find_first_of(&data, set), Some(prefix));
    }
}

#[test]
fn set_sizes_at_register_boundary() {
    let set16: Vec<u8> = (b'a'..b'a' + 16).collect();
    let set17: Vec<u8> = (b'a'..b'a' + 17).collect();
    let data = b"0123456789+-*/=!pq".to_vec();
    assert_eq!(find_first_of(&data, &set16), Some(16));
    assert_eq!(find_first_of(&data, &set17), Some(16));
    let data = b"abcdefghijklmnopq!".to_vec();
    assert_eq!(find_first_not_of(&data, &set16), Some(16));
    assert_eq!(find_first_not_of(&data, &set17), Some(17));
}

#[test]
fn haystack_lengths_around_one_chunk() {
    for len in [0usize, 1, 15, 16, 17, 31, 32, 33, 47, 80, 85] {
        let mut data = vec![b'.'; len];
        assert_eq!(find_first_of(&data, b"#"), None);
        assert_eq!(find_first_not_of(&data, b"."), None);
        if len > 0 {
            data[len - 1] = b'#';
            assert_eq!(find_first_of(&data, b"#"), Some(len - 1));
            assert_eq!(find_first_not_of(&data, b"."), Some(len - 1));
        }
    }
}

#[test]
fn split_exclusion_set_rejects_bytes_of_one_part() {
    let mut set: Vec<u8> = (b'a'..=b'p').collect();
    set.extend(b'0'..=b'9');
    // '5' is only in the second part, 'c' only in the first.
    assert_eq!(find_first_not_of(b"5c5cZ", &set), Some(4));
    assert_eq!(sse42::find_first_not_of_large(b"c5c5c5", &set), None);
    assert_eq!(sse42::find_first_not_of_large(b"a9!", &set), Some(2));
}

#[test]
fn small_negative_search() {
    assert_eq!(sse42::find_first_not_of_small(b"aaab", b"a"), Some(3));
    assert_eq!(sse42::find_first_not_of_small(b"", b"a"), None);
    assert_eq!(sse42::find_first_not_of_small(b"xa", b""), Some(0));
}

#[test]
fn large_negative_search_with_short_set() {
    assert_eq!(sse42::find_first_not_of_large(b"abcx", b"cba"), Some(3));
    assert_eq!(sse42::find_first_not_of_large(b"", b""), None);
    assert_eq!(sse42::find_first_not_of_large(b"q", b""), Some(0));
}

#[test]
fn empty_sets() {
    assert_eq!(find_first_of(b"abc", b""), None);
    assert_eq!(find_first_of(b"", b"abc"), None);
    assert_eq!(find_first_not_of(b"abc", b""), Some(0));
    assert_eq!(find_first_not_of(b"", b""), None);
}

#[test]
fn byte_set_operations() {
    let set = ByteSet::try_from(b"ace").unwrap();
    let chunk = ByteSet::try_from(b"bdcfa").unwrap();
    assert_eq!(set.find_any_in(&chunk), Some(2));
    assert_eq!(set.find_any_not_in(&chunk), Some(0));
    assert_eq!(chunk.get_byte(4), Some(b'a'));
    assert_eq!(chunk.get_byte(5), None);
    let mut shifted = chunk;
    shifted.shift_right(3);
    assert_eq!(shifted.get_byte(0), Some(b'f'));
    assert_eq!(shifted.get_byte(2), None);
    shifted.shift_right(9);
    assert_eq!(shifted.get_byte(0), None);
    assert_eq!(ByteSet::max_size(), 16);
    assert!(matches!(ByteSet::try_from(&[0u8; 17]), Err(ByteSetError::LoadTooBig)));
    let full = ByteSet::try_from(&[7u8; 16]).unwrap();
    assert_eq!(full.get_byte(15), Some(7));
}
