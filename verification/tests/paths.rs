use minivcs::path_code::{decode_path, encode_path};
use minivcs::store::{bytes_equal, str_equal};

#[test]
fn encoding_escapes_separators_and_underscores() {
    assert_eq!(encode_path(b"a.txt"), b"a.txt".to_vec());
    assert_eq!(encode_path(b"dir/a.txt"), b"dir_sa.txt".to_vec());
    assert_eq!(encode_path(b"dir/a_b.txt"), b"dir_sa__b.txt".to_vec());
    assert_eq!(encode_path(b""), b"".to_vec());
    assert_eq!(encode_path(b"/"), b"_s".to_vec());
    assert_eq!(encode_path(b"_"), b"__".to_vec());
}

#[test]
fn decoding_inverts_encoding() {
    let paths: Vec<&[u8]> = vec![
        b"a.txt",
        b"dir/a.txt",
        b"dir/sub/a_b_c.txt",
        b"",
        b"___",
        b"//",
        b"_s",
    ];
    for p in paths {
        let encoded = encode_path(p);
        assert_eq!(decode_path(&encoded), Some(p.to_vec()));
    }
}

#[test]
fn distinct_paths_never_collide() {
    // The pair that a bare separator-for-underscore swap would conflate.
    let a = encode_path(b"a/b");
    let b = encode_path(b"a_b");
    assert_ne!(a, b);
}

#[test]
fn malformed_names_are_rejected() {
    assert_eq!(decode_path(b"_"), None);
    assert_eq!(decode_path(b"a_"), None);
    assert_eq!(decode_path(b"_x"), None);
    assert_eq!(decode_path(b"ab_sc_"), None);
}

#[test]
fn byte_equality_is_exact() {
    assert!(bytes_equal(b"", b""));
    assert!(bytes_equal(b"abc", b"abc"));
    assert!(!bytes_equal(b"abc", b"abd"));
    assert!(!bytes_equal(b"abc", b"abcd"));
}

#[test]
fn string_equality_is_exact() {
    assert!(str_equal("", ""));
    assert!(str_equal("commit-1", "commit-1"));
    assert!(!str_equal("commit-1", "commit-2"));
    assert!(!str_equal("commit", "commit-1"));
}
