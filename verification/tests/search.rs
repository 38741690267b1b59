use multipart_parser::search::{find_double_newline, substring_partial_search, substring_search};

/// The first place of `needle`, found one place after the other.
fn slow_search(haystack: &[u8], start: usize, needle: &[u8]) -> Option<usize> {
    (start..haystack.len()).find(|&at| haystack[at..].starts_with(needle))
}

/// The longest tail that is a beginning of `needle`, found one place after the other.
fn slow_partial_search(haystack: &[u8], needle: &[u8]) -> Option<usize> {
    (0..haystack.len()).find(|&at| needle.starts_with(&haystack[at..]))
}

/// Byte strings of two letters, of each length up to `longest`.
fn words(longest: u32) -> Vec<Vec<u8>> {
    let mut all = Vec::new();
    for length in 0..=longest {
        for code in 0..(1u32 << length) {
            all.push(
                (0..length)
                    .map(|bit| if code & (1 << bit) == 0 { b'a' } else { b'b' })
                    .collect(),
            );
        }
    }
    all
}

#[test]
fn empty_lines_are_found() {
    assert_eq!(find_double_newline(b"\r\n\r\n", 0), Some(0));
    assert_eq!(find_double_newline(b"A: b\r\n\r\nbody\r\n\r\n", 0), Some(4));
    assert_eq!(find_double_newline(b"A: b\r\n\r\nbody\r\n\r\n", 5), Some(12));
    assert_eq!(find_double_newline(b"A: b\r\n\rbody", 0), None);
    assert_eq!(find_double_newline(b"\r\n\r\n", 1), None);
    assert_eq!(find_double_newline(b"\r\n\r\n", 4), None);
    assert_eq!(find_double_newline(b"", 0), None);
}

#[test]
fn strings_are_found() {
    assert_eq!(substring_search(b"hello world", 0, b"world"), Some(6));
    assert_eq!(substring_search(b"hello world", 7, b"world"), None);
    assert_eq!(substring_search(b"aaa", 1, b"a"), Some(1));
    assert_eq!(substring_search(b"abc", 9, b"a"), None);
    assert_eq!(substring_search(b"", 0, b"a"), None);
    for haystack in words(7) {
        for needle in words(4) {
            if !needle.is_empty() {
                for start in 0..=haystack.len() {
                    assert_eq!(
                        substring_search(&haystack, start, &needle),
                        slow_search(&haystack, start, &needle)
                    );
                }
            }
        }
    }
}

#[test]
fn long_strings_are_found() {
    for length in [255, 256, 257, 512, 1000] {
        let mut needle = vec![b'a'; length];
        needle[length - 1] = b'b';
        let mut haystack = vec![b'a'; 300];
        haystack.extend_from_slice(&needle);
        assert_eq!(substring_search(&haystack, 0, &needle), Some(300));
        assert_eq!(substring_search(&haystack, 301, &needle), None);
        assert_eq!(substring_partial_search(&haystack, &needle), Some(300));
    }
}

#[test]
fn beginnings_are_found_at_the_end() {
    assert_eq!(substring_partial_search(b"body\r\n--", b"\r\n--x"), Some(4));
    assert_eq!(substring_partial_search(b"body\r", b"\r\n--x"), Some(4));
    assert_eq!(substring_partial_search(b"\n", b"\r\n--x"), None);
    assert_eq!(substring_partial_search(b"", b"\r\n--x"), None);
    assert_eq!(substring_partial_search(b"body", b""), None);
    for haystack in words(7) {
        for needle in words(4) {
            assert_eq!(
                substring_partial_search(&haystack, &needle),
                slow_partial_search(&haystack, &needle)
            );
        }
    }
}
