use xv6_kernel::string::{safestrcpy, strlen, strncmp, strncpy};

#[test]
fn strlen_counts_to_first_nul() {
    assert_eq!(strlen(b"hello\0"), 5);
    assert_eq!(strlen(b"\0abc"), 0);
    assert_eq!(strlen(b"ab\0cd\0"), 2);
}

#[test]
fn strncmp_equal_prefixes() {
    assert_eq!(strncmp(b"abc\0", b"abc\0", 10), 0);
    assert_eq!(strncmp(b"abcd", b"abce", 3), 0);
    assert_eq!(strncmp(b"x", b"y", 0), 0);
}

#[test]
fn strncmp_reports_first_difference() {
    assert_eq!(strncmp(b"abc\0", b"abd\0", 10), (b'c' as i32) - (b'd' as i32));
    assert_eq!(strncmp(b"abd\0", b"abc\0", 3), 1);
    assert_eq!(strncmp(b"ab\0", b"abc\0", 10), -(b'c' as i32));
    assert_eq!(strncmp(b"abc\0", b"ab\0", 10), b'c' as i32);
}

#[test]
fn strncpy_pads_with_nul() {
    let mut s = [9u8; 8];
    strncpy(&mut s, b"hi\0zz", 6);
    assert_eq!(s, [b'h', b'i', 0, 0, 0, 0, 9, 9]);
}

#[test]
fn strncpy_truncates_without_nul() {
    let mut s = [9u8; 5];
    strncpy(&mut s, b"hello world", 3);
    assert_eq!(s, [b'h', b'e', b'l', 9, 9]);
    let mut s = [9u8; 3];
    strncpy(&mut s, b"abc", -1);
    assert_eq!(s, [9, 9, 9]);
}

#[test]
fn safestrcpy_ends_with_nul() {
    let mut s = [9u8; 8];
    safestrcpy(&mut s, b"hi\0zz", 6);
    assert_eq!(s, [b'h', b'i', 0, 0, 9, 9, 9, 9]);
    let mut s = [9u8; 8];
    safestrcpy(&mut s, b"hello world", 4);
    assert_eq!(s, [b'h', b'e', b'l', b'l', 0, 9, 9, 9]);
    let mut s = [9u8; 2];
    safestrcpy(&mut s, b"abc", 0);
    assert_eq!(s, [0, 9]);
}

#[test]
fn strncmp_reads_only_up_to_the_first_difference() {
    assert_eq!(strncmp(b"ab", b"ax", 10), (b'b' as i32) - (b'x' as i32));
    assert_eq!(strncmp(b"a\0", b"a\0", 100), 0);
}
