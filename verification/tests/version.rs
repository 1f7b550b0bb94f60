use bulk::bulk_version::MinimumVersion;
use bulk::order::Order;
use bulk::text::{compare_bytes, compare_folded, same_folded};
use bulk::version::{Component, Version};

fn v(s: &str) -> Version {
    Version(s.as_bytes().to_vec())
}

fn rank(a: &str, b: &str) -> Order {
    v(a).compare(&v(b))
}

#[test]
fn numbers_rank_by_value() {
    assert_eq!(rank("1.2.0", "1.10.0"), Order::Less);
    assert_eq!(rank("1.10.0", "1.2.0"), Order::Greater);
    assert_eq!(rank("2.0", "10.0"), Order::Less);
    assert_eq!(rank("1.0", "1.0"), Order::Equal);
}

#[test]
fn versions_with_the_same_components_are_one() {
    assert_eq!(rank("1.01", "1.1"), Order::Equal);
    assert_eq!(rank("v1.2.3", "1.2.3"), Order::Equal);
    assert_eq!(rank("001", "1"), Order::Equal);
}

#[test]
fn a_version_that_begins_another_comes_first() {
    assert_eq!(rank("1.0", "1.0.0"), Order::Less);
    assert_eq!(rank("1.0.1", "1.0"), Order::Greater);
    assert_eq!(rank("", "0"), Order::Less);
}

#[test]
fn strings_rank_byte_by_byte_and_after_numbers() {
    assert_eq!(rank("1.alpha", "1.beta"), Order::Less);
    assert_eq!(rank("1.rc1", "1.rc"), Order::Greater);
    assert_eq!(rank("1.9", "1.a"), Order::Less);
    assert_eq!(rank("1.a", "1.9"), Order::Greater);
    assert_eq!(rank("1.0-1", "1.0"), Order::Greater);
}

#[test]
fn a_digit_run_too_long_for_64_bits_is_a_string() {
    assert_eq!(rank("18446744073709551615", "18446744073709551616"), Order::Less);
    assert_eq!(rank("18446744073709551616", "9"), Order::Greater);
    let c = v("18446744073709551616").components();
    assert!(matches!(c[0], Component::String(_)));
    let c = v("18446744073709551615").components();
    assert!(matches!(c[0], Component::Numeric(18446744073709551615)));
}

#[test]
fn components_are_the_pieces_between_full_stops() {
    let c = v("v1.2b..7").components();
    assert_eq!(c.len(), 4);
    assert!(matches!(c[0], Component::Numeric(1)));
    assert!(matches!(&c[1], Component::String(s) if s == b"2b"));
    assert!(matches!(&c[2], Component::String(s) if s.is_empty()));
    assert!(matches!(c[3], Component::Numeric(7)));
    assert_eq!(v("v").components().len(), 0);
    assert_eq!(v("").components().len(), 0);
    assert_eq!(v("v1.2").num(), b"1.2");
    assert_eq!(v("1.2").num(), b"1.2");
}

#[test]
fn the_order_is_total_on_samples() {
    let samples = ["", "0", "1", "1.0", "1.0.0", "1.a", "1.b", "2", "10", "a", "v3", "3.x.1"];
    for a in samples.iter() {
        assert_eq!(rank(a, a), Order::Equal);
        for b in samples.iter() {
            let ab = rank(a, b);
            let ba = rank(b, a);
            match ab {
                Order::Less => assert_eq!(ba, Order::Greater),
                Order::Equal => assert_eq!(ba, Order::Equal),
                Order::Greater => assert_eq!(ba, Order::Less),
            }
            for c in samples.iter() {
                if ab != Order::Greater && rank(b, c) != Order::Greater {
                    assert_ne!(rank(a, c), Order::Greater);
                }
            }
        }
    }
}

#[test]
fn minimum_version_admits_what_is_not_above_it() {
    let m = MinimumVersion(v("0.4.12"));
    assert!(m.admits(&v("0.4.12")));
    assert!(m.admits(&v("0.4.2")));
    assert!(m.admits(&v("v0.3")));
    assert!(!m.admits(&v("0.4.13")));
    assert!(!m.admits(&v("0.10")));
}

#[test]
fn bytes_rank_lexicographically() {
    assert_eq!(compare_bytes(b"abc", b"abd"), Order::Less);
    assert_eq!(compare_bytes(b"abc", b"ab"), Order::Greater);
    assert_eq!(compare_bytes(b"", b""), Order::Equal);
    assert_eq!(compare_bytes(b"Z", b"a"), Order::Less);
}

#[test]
fn folding_agrees_with_unicase_on_ascii() {
    let samples = ["Package", "package", "PACKAGE", "Packages", "", "a-b", "A_b", "Zeta", "alpha"];
    for a in samples.iter() {
        for b in samples.iter() {
            assert_eq!(same_folded(a.as_bytes(), b.as_bytes()), unicase::eq_ascii(*a, *b));
            let ours = compare_folded(a.as_bytes(), b.as_bytes());
            let theirs = unicase::Ascii::new(*a).cmp(&unicase::Ascii::new(*b));
            assert_eq!(
                ours,
                match theirs {
                    std::cmp::Ordering::Less => Order::Less,
                    std::cmp::Ordering::Equal => Order::Equal,
                    std::cmp::Ordering::Greater => Order::Greater,
                }
            );
        }
    }
    assert_eq!(compare_folded(b"Zeta", b"alpha"), Order::Greater);
    assert!(!same_folded("É".as_bytes(), "é".as_bytes()));
}
