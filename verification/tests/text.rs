use bulk::hash_file::hash_file;
use bulk::repo::paths::{
    base_name, listed_file, names_a_file, packages_directory, packages_file, parent_dir,
    pool_file, release_file, temporary_file,
};
use bulk::text::{
    decimal, find_byte, join_bytes, parse_digits, parse_unsigned, split_bytes, split_words, trim,
};

#[test]
fn decimal_writes_numbers() {
    assert_eq!(decimal(0), b"0".to_vec());
    assert_eq!(decimal(7), b"7".to_vec());
    assert_eq!(decimal(1200), b"1200".to_vec());
    assert_eq!(decimal(u64::MAX), b"18446744073709551615".to_vec());
}

#[test]
fn digits_read_back() {
    assert_eq!(parse_digits(b"0"), Some(0));
    assert_eq!(parse_digits(b"007"), Some(7));
    assert_eq!(parse_digits(b"18446744073709551615"), Some(u64::MAX));
    assert_eq!(parse_digits(b"18446744073709551616"), None);
    assert_eq!(parse_digits(b"99999999999999999999999"), None);
    assert_eq!(parse_digits(b""), None);
    assert_eq!(parse_digits(b"12a"), None);
    assert_eq!(parse_digits(b"+1"), None);
    assert_eq!(parse_digits(b" 1"), None);
}

#[test]
fn unsigned_numbers_may_bear_a_plus_sign() {
    assert_eq!(parse_unsigned(b"+12"), Some(12));
    assert_eq!(parse_unsigned(b"12"), Some(12));
    assert_eq!(parse_unsigned(b"+"), None);
    assert_eq!(parse_unsigned(b"++1"), None);
    assert_eq!(parse_unsigned(b"-1"), None);
    assert_eq!(parse_unsigned(b""), None);
}

#[test]
fn trim_drops_white_space_at_both_ends() {
    assert_eq!(trim(b"  a b \t\r\n"), b"a b");
    assert_eq!(trim(b"\x0b\x0cx"), b"x");
    assert_eq!(trim(b"   "), b"");
    assert_eq!(trim(b""), b"");
    assert_eq!(trim(b"x"), b"x");
}

#[test]
fn words_and_pieces() {
    assert_eq!(split_words(b"  amd64 i386\tarm64\n"), vec![
        b"amd64".to_vec(),
        b"i386".to_vec(),
        b"arm64".to_vec()
    ]);
    assert_eq!(split_words(b"   "), Vec::<Vec<u8>>::new());
    assert_eq!(split_words(b""), Vec::<Vec<u8>>::new());
    assert_eq!(split_bytes(b"a\n\nb\n", b'\n'), vec![
        b"a".to_vec(),
        b"".to_vec(),
        b"b".to_vec(),
        b"".to_vec()
    ]);
    assert_eq!(split_bytes(b"", b'\n'), vec![b"".to_vec()]);
    assert_eq!(join_bytes(&vec![b"a".to_vec(), b"b".to_vec(), b"c".to_vec()], b", "), b"a, b, c".to_vec());
    assert_eq!(join_bytes(&Vec::new(), b" "), Vec::<u8>::new());
    assert_eq!(find_byte(b"abcabc", 1, b'a'), 3);
    assert_eq!(find_byte(b"abc", 0, b'x'), 3);
}

#[test]
fn sha256_of_known_texts() {
    assert_eq!(
        hash_file(b""),
        b"e3b0c44298fc1c149afbf4c8996fb92427ae41e4649b934ca495991b7852b855".to_vec()
    );
    assert_eq!(
        hash_file(b"hello world"),
        b"b94d27b9934d3e08a52e52d7da7dabfac484efe37a5380ee9088f7ace2efcde9".to_vec()
    );
}

#[test]
fn paths_of_the_repository() {
    assert_eq!(release_file(b"stable"), b"dists/stable/Release".to_vec());
    assert_eq!(packages_directory(b"stable", b"main", b"amd64"), b"dists/stable/main/binary-amd64".to_vec());
    assert_eq!(
        packages_file(b"stable", b"main", b"amd64"),
        b"dists/stable/main/binary-amd64/Packages".to_vec()
    );
    assert_eq!(listed_file(b"main", b"amd64"), b"main/binary-amd64/Packages".to_vec());
    assert_eq!(temporary_file(b"a/Release"), b"a/Release.tmp".to_vec());
    assert_eq!(
        pool_file(b"demo", b"/tmp/out/demo-1.0_amd64.deb"),
        b"pool/d/demo/demo-1.0_amd64.deb".to_vec()
    );
    assert_eq!(pool_file("élan".as_bytes(), b"e.deb"), "pool/é/élan/e.deb".as_bytes().to_vec());
    assert_eq!(parent_dir(b"pool/d/demo/x.deb"), b"pool/d/demo");
    assert_eq!(parent_dir(b"x.deb"), b"");
}

#[test]
fn file_names() {
    assert_eq!(base_name(b"a/b/c.deb"), b"c.deb");
    assert_eq!(base_name(b"c.deb"), b"c.deb");
    assert_eq!(base_name(b"a/b/"), b"b");
    assert_eq!(base_name(b"a/b///"), b"b");
    assert_eq!(base_name(b"/"), b"");
    assert_eq!(base_name(b""), b"");
    assert!(names_a_file(b"a/b.deb"));
    assert!(!names_a_file(b"a/.."));
    assert!(!names_a_file(b""));
    assert!(!names_a_file(b"//"));
}

#[test]
fn a_digest_is_sixty_four_hexadecimal_digits() {
    for data in [&b""[..], &b"a"[..], &[0u8; 1000][..]] {
        let h = hash_file(data);
        assert_eq!(h.len(), 64);
        assert!(h.iter().all(|b| b.is_ascii_digit() || (b'a'..=b'f').contains(b)));
    }
}
