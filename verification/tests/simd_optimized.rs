use rustblog_core::simd_optimized::{SimdComparator, SimdPathSplitter};

#[test]
fn test_simd_equals() {
    let a = "hello world";
    let b = "hello world";
    let c = "hello there";

    assert!(SimdComparator::equals(a, b));
    assert!(!SimdComparator::equals(a, c));
}

#[test]
fn test_simd_starts_with() {
    let text = "hello world";
    let prefix = "hello";
    let wrong = "world";

    assert!(SimdComparator::starts_with(text, prefix));
    assert!(!SimdComparator::starts_with(text, wrong));
}

#[test]
fn test_simd_longest_common_prefix() {
    let a = "hello world";
    let b = "hello there";

    let lcp = SimdComparator::longest_common_prefix(a, b);
    assert_eq!(lcp, 6);
}

#[test]
fn test_simd_find_char() {
    let text = "hello/world/path";

    let pos = SimdComparator::find_char(text, '/');
    assert_eq!(pos, Some(5));

    let pos = SimdComparator::find_char(text, 'x');
    assert_eq!(pos, None);
}

#[test]
fn test_simd_split() {
    let path = "/users/123/posts";

    let segments = SimdPathSplitter::split_simd(path);
    assert_eq!(segments, vec!["users", "123", "posts"]);
}

#[test]
fn test_simd_count_segments() {
    let path = "/users/123/posts";

    let count = SimdPathSplitter::count_segments_simd(path);
    assert_eq!(count, 3);
}

#[test]
fn test_simd_empty_path() {
    let path = "";

    let segments = SimdPathSplitter::split_simd(path);
    assert!(segments.is_empty());

    let count = SimdPathSplitter::count_segments_simd(path);
    assert_eq!(count, 0);
}

#[test]
fn test_simd_long_string() {
    let long_text = "this is a very long string that exceeds 32 bytes for testing";
    let prefix = "this is a very long string that exceeds 32 bytes";

    assert!(SimdComparator::starts_with(long_text, prefix));
}

#[test]
fn test_simd_avx2_support() {
    let supported = SimdComparator::is_avx2_supported();
    println!("AVX2 supported: {}", supported);
}

#[test]
fn simd_find_char_counts_bytes() {
    assert_eq!(SimdComparator::find_char("héllo/x", '/'), Some(6));
    assert_eq!(SimdComparator::longest_common_prefix("", "abc"), 0);
    assert_eq!(SimdComparator::longest_common_prefix("abc", "abc"), 3);
}

#[test]
fn byte_level_comparisons() {
    assert!(SimdComparator::equals_simd("hello", "hello"));
    assert!(!SimdComparator::equals_simd("hello", "hellp"));
    assert!(!SimdComparator::equals_simd("hello", "hell"));
    assert!(SimdComparator::starts_with_simd("/api/users", "/api"));
    assert!(!SimdComparator::starts_with_simd("/api", "/api/users"));
    assert_eq!(SimdComparator::longest_common_prefix_simd("hello world", "hello there"), 6);
    assert_eq!(SimdComparator::longest_common_prefix_simd("测试", "测验"), 3);
    assert_eq!(SimdComparator::longest_common_prefix("测试", "测验"), 1);
    assert_eq!(SimdComparator::find_char_simd("a/b/c", '/'), Some(1));
    assert_eq!(SimdComparator::find_char_simd("abc", '/'), None);
    assert_eq!(SimdComparator::find_char_simd("a/b", '\u{12f}'), Some(1));
}
