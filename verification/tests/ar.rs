use bulk::pack::ar::{ArArchive, Size, SIZE_AUTO};
use bulk::repo::ar::{ArError, Archive};

#[test]
fn known_size_member_reads_back() {
    let mut ar = ArArchive::new();
    ar.add(b"debian-binary", 1, 0, 0, 0o100644, Size::Known(4));
    ar.write(b"2.0\n");
    let bytes = ar.finish();
    assert_eq!(&bytes[..8], b"!<arch>\n");
    assert_eq!(
        &bytes[8..68],
        &b"debian-binary   1           0     0     100644  4         `\n"[..]
    );
    assert_eq!(bytes.len(), 8 + 60 + 4);
    let mut rd = Archive::new(bytes).unwrap();
    assert_eq!(rd.read_file(b"debian-binary").unwrap(), b"2.0\n".to_vec());
}

#[test]
fn header_fields_are_padded_to_their_widths() {
    let mut ar = ArArchive::new();
    ar.add(b"0123456789abcdef", 4294967295, 999999, 999999, 0o77777777, Size::Known(10));
    ar.write(b"0123456789");
    let bytes = ar.finish();
    assert_eq!(
        &bytes[8..68],
        &b"0123456789abcdef4294967295  9999999999997777777710        `\n"[..]
    );
    let mut rd = Archive::new(bytes).unwrap();
    assert_eq!(rd.read_file(b"0123456789abcdef").unwrap(), b"0123456789".to_vec());
}

#[test]
fn auto_size_is_set_right_when_the_member_is_closed() {
    let mut ar = ArArchive::new();
    ar.add(b"control.tar.gz", 7, 0, 0, 0o100644, SIZE_AUTO);
    assert_eq!(ar.write(b"hello"), 5);
    assert_eq!(ar.write(b" world!"), 7);
    let bytes = ar.finish();
    // the size field of the header holds the twelve bytes written
    assert_eq!(&bytes[8 + 48..8 + 58], b"12        ");
    assert_eq!(bytes.len(), 8 + 60 + 12);
    let mut rd = Archive::new(bytes).unwrap();
    assert_eq!(rd.read_file(b"control.tar.gz").unwrap(), b"hello world!".to_vec());
}

#[test]
fn a_declared_size_bounds_what_is_written() {
    let mut ar = ArArchive::new();
    ar.add(b"a", 0, 0, 0, 0o644, Size::Known(3));
    assert_eq!(ar.write(b"xy"), 2);
    // there is room for one byte more
    assert_eq!(ar.write(b"zabc"), 1);
    assert_eq!(ar.write(b"more"), 0);
    let bytes = ar.finish();
    assert_eq!(&bytes[8 + 48..8 + 58], b"3         ");
    // three bytes are odd: a line feed follows
    assert_eq!(bytes.len(), 8 + 60 + 3 + 1);
    assert_eq!(&bytes[8 + 60..], b"xyz\n");
    let mut rd = Archive::new(bytes).unwrap();
    assert_eq!(rd.read_file(b"a").unwrap(), b"xyz".to_vec());
}

#[test]
fn a_declared_size_is_not_set_anew() {
    let mut ar = ArArchive::new();
    ar.add(b"a", 0, 0, 0, 0o644, Size::Known(100));
    assert_eq!(ar.write(b"xyz"), 3);
    let bytes = ar.finish();
    assert_eq!(&bytes[8 + 48..8 + 58], b"100       ");
    assert_eq!(bytes.len(), 8 + 60 + 3 + 1);
}

#[test]
fn an_empty_member_of_unknown_size() {
    let mut ar = ArArchive::new();
    ar.add(b"none", 0, 0, 0, 0o644, SIZE_AUTO);
    ar.add(b"zero", 0, 0, 0, 0o644, Size::Known(0));
    assert_eq!(ar.write(b"x"), 0);
    let bytes = ar.finish();
    assert_eq!(&bytes[8 + 48..8 + 58], b"0         ");
    assert_eq!(bytes.len(), 8 + 60 + 60);
    let mut rd = Archive::new(bytes).unwrap();
    assert_eq!(rd.read_file(b"none").unwrap(), Vec::<u8>::new());
    assert_eq!(rd.read_file(b"zero").unwrap(), Vec::<u8>::new());
}

#[test]
fn odd_members_are_padded_and_the_padding_is_passed_over() {
    let mut ar = ArArchive::new();
    ar.add(b"one", 1, 2, 3, 0o644, Size::Known(3));
    ar.write(b"abc");
    ar.add(b"two", 1, 2, 3, 0o644, SIZE_AUTO);
    ar.write(b"de");
    ar.add(b"three", 1, 2, 3, 0o644, Size::Known(0));
    let bytes = ar.finish();
    assert_eq!(bytes.len(), 8 + (60 + 3 + 1) + (60 + 2) + 60);
    assert_eq!(bytes[8 + 60 + 3], b'\n');
    let mut rd = Archive::new(bytes).unwrap();
    assert_eq!(rd.read_file(b"one").unwrap(), b"abc".to_vec());
    assert_eq!(rd.read_file(b"two").unwrap(), b"de".to_vec());
    assert_eq!(rd.read_file(b"three").unwrap(), Vec::<u8>::new());
    assert!(matches!(rd.read_file(b"four"), Err(ArError::PrematureEnd)));
}

#[test]
fn wrong_signature_is_refused() {
    assert!(matches!(Archive::new(b"!<arch>".to_vec()), Err(ArError::WrongSignature)));
    assert!(matches!(Archive::new(b"?<arch>\nxx".to_vec()), Err(ArError::WrongSignature)));
    assert!(matches!(Archive::new(Vec::new()), Err(ArError::WrongSignature)));
}

#[test]
fn an_unexpected_member_is_refused_and_can_be_asked_for_again() {
    let mut ar = ArArchive::new();
    ar.add(b"debian-binary", 1, 0, 0, 0o100644, Size::Known(4));
    ar.write(b"2.0\n");
    let mut rd = Archive::new(ar.finish()).unwrap();
    assert!(matches!(rd.read_file(b"control.tar.gz"), Err(ArError::UnexpectedMember)));
    assert!(matches!(rd.read_file(b"debian"), Err(ArError::UnexpectedMember)));
    assert_eq!(rd.read_file(b"debian-binary").unwrap(), b"2.0\n".to_vec());
}

#[test]
fn a_header_without_its_end_mark_is_refused() {
    let mut bytes = b"!<arch>\n".to_vec();
    bytes.extend_from_slice(b"name            1           0     0     100644  0         xx");
    let mut rd = Archive::new(bytes).unwrap();
    assert!(matches!(rd.read_file(b"name"), Err(ArError::InvalidFormat)));
}

#[test]
fn a_size_that_is_no_number_is_refused() {
    let mut bytes = b"!<arch>\n".to_vec();
    bytes.extend_from_slice(b"name            1           0     0     100644  12x       `\n");
    let mut rd = Archive::new(bytes).unwrap();
    assert!(matches!(rd.read_file(b"name"), Err(ArError::InvalidSize)));
    let mut bytes = b"!<arch>\n".to_vec();
    bytes.extend_from_slice(b"name            1           0     0     100644            `\n");
    let mut rd = Archive::new(bytes).unwrap();
    assert!(matches!(rd.read_file(b"name"), Err(ArError::InvalidSize)));
}

#[test]
fn a_size_may_bear_a_plus_sign_and_white_space_around_it() {
    let mut bytes = b"!<arch>\n".to_vec();
    bytes.extend_from_slice(b"name            1           0     0     100644    +2      `\n");
    bytes.extend_from_slice(b"ok");
    let mut rd = Archive::new(bytes).unwrap();
    assert_eq!(rd.read_file(b"name").unwrap(), b"ok".to_vec());
}

#[test]
fn a_member_that_is_cut_short_is_refused() {
    let mut bytes = b"!<arch>\n".to_vec();
    bytes.extend_from_slice(b"name            1           0     0     100644  5         `\n");
    bytes.extend_from_slice(b"abc");
    let mut rd = Archive::new(bytes).unwrap();
    assert!(matches!(rd.read_file(b"name"), Err(ArError::PrematureEnd)));
    let mut rd = Archive::new(b"!<arch>\nname   ".to_vec()).unwrap();
    assert!(matches!(rd.read_file(b"name"), Err(ArError::PrematureEnd)));
}

#[test]
fn error_messages() {
    assert_eq!(ArError::WrongSignature.message(), "Archive signature is wrong");
    assert_eq!(ArError::PrematureEnd.message(), "Premature end of file");
    assert_eq!(ArError::InvalidFormat.message(), "Invalid file format");
    assert_eq!(ArError::UnexpectedMember.message(), "Unexpected archive member");
    assert_eq!(ArError::InvalidSize.message(), "Invalid file size");
}
