use std::cmp::Ordering;
use rustblog_core::bytes_optimized::{
    BytesBuilder, BytesComparator, BytesConverter, BytesPool, BytesSplitter, BytesView,
    OptimizedBytes,
};

#[test]
fn test_optimized_bytes_from_slice() {
    let bytes = OptimizedBytes::from_slice(b"hello");
    assert_eq!(bytes.as_slice(), b"hello");
    assert_eq!(bytes.len(), 5);
}

#[test]
fn test_optimized_bytes_from_static() {
    let bytes = OptimizedBytes::from_static(b"static");
    assert_eq!(bytes.as_slice(), b"static");
}

#[test]
fn test_optimized_bytes_split_at() {
    let bytes = OptimizedBytes::from_slice(b"hello world");
    let (left, right) = bytes.split_at(5);
    assert_eq!(left.as_slice(), b"hello");
    assert_eq!(right.as_slice(), b" world");
}

#[test]
fn test_optimized_bytes_slice() {
    let bytes = OptimizedBytes::from_slice(b"hello world");
    let sliced = bytes.slice(0..5);
    assert_eq!(sliced.as_slice(), b"hello");
}

#[test]
fn test_optimized_bytes_contains() {
    let bytes = OptimizedBytes::from_slice(b"hello world");
    assert!(bytes.contains(b"world"));
    assert!(!bytes.contains(b"rust"));
}

#[test]
fn test_optimized_bytes_find() {
    let bytes = OptimizedBytes::from_slice(b"hello world");
    assert_eq!(bytes.find(b"world"), Some(6));
    assert_eq!(bytes.find(b"rust"), None);
}

#[test]
fn test_optimized_bytes_replace() {
    let bytes = OptimizedBytes::from_slice(b"hello world");
    let replaced = bytes.replace(b"world", b"rust");
    assert_eq!(replaced.as_slice(), b"hello rust");
}

#[test]
fn test_optimized_bytes_to_str() {
    let bytes = OptimizedBytes::from_slice(b"hello");
    assert_eq!(bytes.to_str().unwrap(), "hello");
}

#[test]
fn test_bytes_pool() {
    let mut pool = BytesPool::new(1024, 4);

    let buf1 = pool.get();
    assert_eq!(buf1.capacity(), 1024);

    pool.put(buf1);

    let buf2 = pool.get();
    assert_eq!(buf2.capacity(), 1024);
    assert_eq!(pool.len(), 0);
}

#[test]
fn test_bytes_pool_get_with_capacity() {
    let mut pool = BytesPool::new(1024, 4);

    let buf = pool.get_with_capacity(2048);
    assert!(buf.capacity() >= 2048);
}

#[test]
fn test_bytes_builder() {
    let mut builder = BytesBuilder::new();
    builder.extend(b"hello");
    builder.extend(b" ");
    builder.extend(b"world");

    let bytes = builder.build();
    assert_eq!(bytes.as_slice(), b"hello world");
}

#[test]
fn test_bytes_builder_with_capacity() {
    let builder = BytesBuilder::with_capacity(100);
    assert!(builder.capacity() >= 100);
}

#[test]
fn test_bytes_builder_write_u8() {
    let mut builder = BytesBuilder::new();
    builder.write_u8(0x42);
    builder.write_u8(0x43);

    let bytes = builder.build();
    assert_eq!(bytes.as_slice(), &[0x42, 0x43]);
}

#[test]
fn test_bytes_builder_write_u16_be() {
    let mut builder = BytesBuilder::new();
    builder.write_u16_be(0x1234);

    let bytes = builder.build();
    assert_eq!(bytes.as_slice(), &[0x12, 0x34]);
}

#[test]
fn test_bytes_builder_write_str() {
    let mut builder = BytesBuilder::new();
    builder.write_str("hello");

    let bytes = builder.build();
    assert_eq!(bytes.as_slice(), b"hello");
}

#[test]
fn test_bytes_view() {
    let bytes = OptimizedBytes::from_slice(b"hello world");
    let view = BytesView::from_optimized(&bytes);

    assert_eq!(view.as_slice(), b"hello world");
    assert_eq!(view.len(), 11);
}

#[test]
fn test_bytes_view_slice() {
    let bytes = OptimizedBytes::from_slice(b"hello world");
    let view = BytesView::from_optimized(&bytes);
    let sliced = view.slice(0..5);

    assert_eq!(sliced.as_slice(), b"hello");
}

#[test]
fn test_bytes_view_find() {
    let bytes = OptimizedBytes::from_slice(b"hello world");
    let view = BytesView::from_optimized(&bytes);

    assert_eq!(view.find(b"world"), Some(6));
}

#[test]
fn test_bytes_splitter() {
    let bytes = b"a,b,c,d";
    let mut splitter = BytesSplitter::new(bytes, b",");

    assert_eq!(splitter.next_view().unwrap().as_slice(), b"a");
    assert_eq!(splitter.next_view().unwrap().as_slice(), b"b");
    assert_eq!(splitter.next_view().unwrap().as_slice(), b"c");
    assert_eq!(splitter.next_view().unwrap().as_slice(), b"d");
    assert!(splitter.next_view().is_none());
}

#[test]
fn test_bytes_splitter_collect_all() {
    let bytes = b"a,b,c";
    let splitter = BytesSplitter::new(bytes, b",");
    let segments = splitter.collect_all();

    assert_eq!(segments.len(), 3);
    assert_eq!(segments[0].as_slice(), b"a");
    assert_eq!(segments[1].as_slice(), b"b");
    assert_eq!(segments[2].as_slice(), b"c");
}

#[test]
fn test_bytes_comparator_compare() {
    let left = b"abc";
    let right = b"abd";

    assert_eq!(BytesComparator::compare(left, right), std::cmp::Ordering::Less);
}

#[test]
fn test_bytes_comparator_starts_with() {
    let bytes = b"hello world";

    assert!(BytesComparator::starts_with(bytes, b"hello"));
    assert!(!BytesComparator::starts_with(bytes, b"world"));
}

#[test]
fn test_bytes_comparator_ends_with() {
    let bytes = b"hello world";

    assert!(BytesComparator::ends_with(bytes, b"world"));
    assert!(!BytesComparator::ends_with(bytes, b"hello"));
}

#[test]
fn test_bytes_converter_to_hex() {
    let bytes = b"abc";
    let hex = BytesConverter::to_hex(bytes);

    assert_eq!(hex, "616263");
}

#[test]
fn test_bytes_converter_from_hex() {
    let hex = "616263";
    let bytes = BytesConverter::from_hex(hex).unwrap();

    assert_eq!(bytes, b"abc");
}

#[test]
fn test_bytes_converter_to_base64() {
    let bytes = b"abc";
    let base64 = BytesConverter::to_base64(bytes);

    assert_eq!(base64, "YWJj");
}

#[test]
fn test_bytes_converter_from_base64() {
    let base64 = "YWJj";
    let bytes = BytesConverter::from_base64(base64).unwrap();

    assert_eq!(bytes, b"abc");
}

#[test]
fn comparator_orders_prefixes_first_and_checks_equality() {
    assert_eq!(BytesComparator::compare(b"ab", b"abc"), Ordering::Less);
    assert_eq!(BytesComparator::compare(b"abc", b"ab"), Ordering::Greater);
    assert_eq!(BytesComparator::compare(b"abc", b"abc"), Ordering::Equal);
    assert_eq!(BytesComparator::compare(b"b", b"abc"), Ordering::Greater);
    assert_eq!(BytesComparator::compare(b"", b""), Ordering::Equal);
    assert!(BytesComparator::equals(b"xy", b"xy"));
    assert!(!BytesComparator::equals(b"xy", b"xz"));
    assert!(!BytesComparator::equals(b"xy", b"x"));
    assert!(BytesComparator::starts_with(b"abc", b""));
    assert!(!BytesComparator::ends_with(b"c", b"abc"));
}

#[test]
fn hex_edge_cases() {
    assert_eq!(BytesConverter::to_hex(&[0x00, 0x0f, 0xa0, 0xff]), "000fa0ff");
    assert_eq!(BytesConverter::from_hex("00FfA0").unwrap(), vec![0x00, 0xff, 0xa0]);
    assert_eq!(BytesConverter::from_hex("").unwrap(), Vec::<u8>::new());
    assert_eq!(BytesConverter::from_hex("+f").unwrap(), vec![0x0f]);
    assert_eq!(BytesConverter::from_hex("abc").unwrap_err(), "Hex string must have even length");
    assert_eq!(BytesConverter::from_hex("zz").unwrap_err(), "invalid digit found in string");
    assert_eq!(BytesConverter::from_hex("00g1").unwrap_err(), "invalid digit found in string");
}

#[test]
fn hex_and_base64_round_trip() {
    let data: Vec<u8> = (0u8..=255).collect();
    assert_eq!(BytesConverter::from_hex(&BytesConverter::to_hex(&data)).unwrap(), data);
    assert_eq!(BytesConverter::from_base64(&BytesConverter::to_base64(&data)).unwrap(), data);
    assert!(BytesConverter::from_base64("!!!").is_err());
}

#[test]
fn replace_scans_left_to_right() {
    let bytes = OptimizedBytes::from_slice(b"aaaa");
    assert_eq!(bytes.replace(b"aa", b"b").as_slice(), b"bb");
    let bytes = OptimizedBytes::from_slice(b"xax");
    assert_eq!(bytes.replace(b"a", b"").as_slice(), b"xx");
    assert_eq!(bytes.replace(b"zz", b"y").as_slice(), b"xax");
    let empty = OptimizedBytes::from_vec(Vec::new());
    assert!(empty.replace(b"", b"y").is_empty());
}

#[test]
fn splitter_edge_cases() {
    let pieces: Vec<Vec<u8>> = BytesSplitter::new(b"a,,b,", b",")
        .collect_all()
        .iter()
        .map(|v| v.as_slice().to_vec())
        .collect();
    assert_eq!(pieces, vec![b"a".to_vec(), b"".to_vec(), b"b".to_vec()]);
    assert!(BytesSplitter::new(b"", b",").collect_all().is_empty());
    let pieces = BytesSplitter::new(b"one--two", b"--").collect_all();
    assert_eq!(pieces.len(), 2);
    assert_eq!(pieces[1].as_slice(), b"two");
}

#[test]
fn views_split_and_decode() {
    let view = BytesView::new(b"hello world");
    let (l, r) = view.split_at(5);
    assert_eq!(l.as_slice(), b"hello");
    assert_eq!(r.as_slice(), b" world");
    assert!(view.contains(b"o w"));
    assert!(!view.contains(b"xyz"));
    assert_eq!(view.iter().count(), 11);
    assert_eq!(view.to_str().unwrap(), "hello world");
    assert!(BytesView::new(&[0xff, 0xfe]).to_str().is_err());
    assert!(!view.is_empty());
}

#[test]
fn pool_keeps_at_most_max_size_empty_buffers() {
    let mut pool = BytesPool::new(8, 1);
    let mut a = pool.get();
    a.extend_from_slice(b"dirty");
    let b = pool.get();
    pool.put(a);
    pool.put(b);
    assert_eq!(pool.len(), 1);
    let again = pool.get();
    assert!(again.is_empty());
    assert!(pool.is_empty());
    pool.put(again);
    pool.clear();
    assert!(pool.is_empty());
    assert_eq!(BytesPool::default().len(), 0);
}

#[test]
fn builder_writes_integers_in_both_orders() {
    let mut builder = BytesBuilder::default();
    builder.write_u16_le(0x1234);
    builder.write_u32_be(0x01020304);
    builder.write_u32_le(0x01020304);
    assert_eq!(builder.as_slice(), &[0x34, 0x12, 1, 2, 3, 4, 4, 3, 2, 1]);
    assert_eq!(builder.len(), 10);
    let mut other = BytesBuilder::new();
    other.extend_from_builder(&builder);
    other.extend_from_optimized(&OptimizedBytes::from_static(b"!"));
    other.reserve(64);
    assert_eq!(other.len(), 11);
    other.clear();
    assert!(other.is_empty());
    let bytes = OptimizedBytes::from_vec(vec![1, 2, 3]);
    assert_eq!(bytes.clone().into_vec(), vec![1, 2, 3]);
    assert_eq!(&bytes.into_bytes()[..], &[1, 2, 3]);
}

#[test]
fn base64_pads_short_last_groups() {
    assert_eq!(BytesConverter::to_base64(b"a"), "YQ==");
    assert_eq!(BytesConverter::to_base64(b"ab"), "YWI=");
    assert_eq!(BytesConverter::to_base64(b"abcd"), "YWJjZA==");
    assert_eq!(BytesConverter::to_base64(&[0xff, 0xfe]), "//4=");
    assert_eq!(BytesConverter::to_base64(b""), "");
}
