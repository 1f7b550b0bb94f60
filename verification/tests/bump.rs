use bulk::ver::bump::{bump_date, bump_version, day_number, may_bump, Bump, BumpError};
use bulk::ver::bump::Bump::{DateMajor, Major, Minor, Patch};
use bulk::version::Version;

fn text(v: Version) -> String {
    String::from_utf8(v.0).unwrap()
}

fn bump_component(ver: &str, bump: u8) -> String {
    text(bump_version(&Version(ver.as_bytes().to_vec()), Bump::Component(bump)).unwrap())
}

fn bump_semver(ver: &str, bump: Bump) -> String {
    text(bump_version(&Version(ver.as_bytes().to_vec()), bump).unwrap())
}

fn bump_date_now(ver: &str) -> String {
    text(bump_version(&Version(ver.as_bytes().to_vec()), DateMajor).unwrap())
}

#[test]
fn test_cmp1() {
    assert_eq!(bump_component("v1.2.0", 1), "v2.0.0");
    assert_eq!(bump_component("v0.0.0", 1), "v1.0.0");
    assert_eq!(bump_component("v0", 1), "v1.0.0");
    assert_eq!(bump_component("v7.38.96", 1), "v8.0.0");
    assert_eq!(bump_component("v9.38.96", 1), "v10.0.0");
    assert_eq!(bump_component("v12.38.96", 1), "v13.0.0");
}

#[test]
fn test_cmp2() {
    assert_eq!(bump_component("v1.2.0", 2), "v1.3.0");
    assert_eq!(bump_component("v0.0.0", 2), "v0.1.0");
    assert_eq!(bump_component("v0", 2), "v0.1.0");
    assert_eq!(bump_component("v7.38.96", 2), "v7.39.0");
    assert_eq!(bump_component("v7.9.96", 2), "v7.10.0");
    assert_eq!(bump_component("v12.38.96", 2), "v12.39.0");
}

#[test]
fn test_cmp3() {
    assert_eq!(bump_component("v1.2.0", 3), "v1.2.1");
    assert_eq!(bump_component("v0.0.0", 3), "v0.0.1");
    assert_eq!(bump_component("v0", 3), "v0.0.1");
    assert_eq!(bump_component("v7.38.96", 3), "v7.38.97");
    assert_eq!(bump_component("v7.13.99", 3), "v7.13.100");
}

#[test]
fn test_major() {
    assert_eq!(bump_semver("v1.2.0", Major), "v2.0.0");
    assert_eq!(bump_semver("v0.0.0", Major), "v0.0.1");
    assert_eq!(bump_semver("v0.0.99", Major), "v0.0.100");
    assert_eq!(bump_semver("v0", Major), "v0.0.1");
    assert_eq!(bump_semver("v7.38.96", Major), "v8.0.0");
    assert_eq!(bump_semver("v9.38.96", Major), "v10.0.0");
    assert_eq!(bump_semver("v12.38.96", Major), "v13.0.0");
    assert_eq!(bump_semver("v0.3.7", Major), "v0.4.0");
    assert_eq!(bump_semver("v0.9.17", Major), "v0.10.0");
}

#[test]
fn test_minor() {
    assert_eq!(bump_semver("v1.2.0", Minor), "v1.3.0");
    assert_eq!(bump_semver("v0.0.0", Minor), "v0.0.1");
    assert_eq!(bump_semver("v0.0.99", Minor), "v0.0.100");
    assert_eq!(bump_semver("v0", Minor), "v0.0.1");
    assert_eq!(bump_semver("v7.38.96", Minor), "v7.39.0");
    assert_eq!(bump_semver("v9.38.96", Minor), "v9.39.0");
    assert_eq!(bump_semver("v12.38.96", Minor), "v12.39.0");
    assert_eq!(bump_semver("v0.3.7", Minor), "v0.3.8");
    assert_eq!(bump_semver("v0.9.17", Minor), "v0.9.18");
}

#[test]
fn test_patch() {
    assert_eq!(bump_semver("v1.2.0", Patch), "v1.2.1");
    assert_eq!(bump_semver("v0.0.0", Patch), "v0.0.1");
    assert_eq!(bump_semver("v0.0.99", Patch), "v0.0.100");
    assert_eq!(bump_semver("v0", Patch), "v0.0.1");
    assert_eq!(bump_semver("v7.38.96", Patch), "v7.38.97");
    assert_eq!(bump_semver("v7.13.99", Patch), "v7.13.100");
}

#[test]
fn test_date() {
    let dest = time::strftime("v%y%m%d.0", &time::now_utc()).unwrap();
    let dest1 = time::strftime("v%y%m%d.1", &time::now_utc()).unwrap();
    let dest2 = time::strftime("v%y%m%d.2", &time::now_utc()).unwrap();
    let dest9 = time::strftime("v%y%m%d.9", &time::now_utc()).unwrap();
    let dest10 = time::strftime("v%y%m%d.10", &time::now_utc()).unwrap();
    let dest11 = time::strftime("v%y%m%d.11", &time::now_utc()).unwrap();
    assert_eq!(bump_date_now("v1.2.0"), dest);
    assert_eq!(bump_date_now(&dest), dest1);
    assert_eq!(bump_date_now(&dest1), dest2);
    assert_eq!(bump_date_now(&dest9), dest10);
    assert_eq!(bump_date_now(&dest10), dest11);
}

#[test]
fn a_component_beyond_the_third_is_raised() {
    assert_eq!(bump_component("v1.2", 5), "v1.2.0.0.1");
    assert_eq!(bump_component("v1.2.3.4.5.6", 4), "v1.2.3.5");
    assert_eq!(bump_component("v1.x.3", 3), "v1.x.4");
    assert_eq!(bump_component("", 1), "v1.0.0");
}

#[test]
fn a_component_that_is_no_number_cannot_be_raised() {
    match bump_version(&Version(b"v1.beta.3".to_vec()), Bump::Component(2)) {
        Err(BumpError::NonNumericComponent(s)) => assert_eq!(s, b"beta".to_vec()),
        _ => panic!("a string was raised"),
    }
    match bump_version(&Version(b"v0.0.rc".to_vec()), Patch) {
        Err(BumpError::NonNumericComponent(s)) => assert_eq!(s, b"rc".to_vec()),
        _ => panic!("a string was raised"),
    }
}

#[test]
fn dates_on_a_given_day() {
    let v = |s: &str| Version(s.as_bytes().to_vec());
    assert_eq!(day_number(118, 0, 13), 180113);
    assert_eq!(day_number(126, 9, 28), 261028);
    assert_eq!(day_number(99, 11, 31), 0);
    assert_eq!(text(bump_date(&v("v1.2.0"), 180113).unwrap()), "v180113.0");
    assert_eq!(text(bump_date(&v(""), 180113).unwrap()), "v180113.0");
    assert_eq!(text(bump_date(&v("v180112.7"), 180113).unwrap()), "v180113.0");
    assert_eq!(text(bump_date(&v("v180113"), 180113).unwrap()), "v180113.1");
    assert_eq!(text(bump_date(&v("v180113.0"), 180113).unwrap()), "v180113.1");
    assert_eq!(text(bump_date(&v("v180113.41.5"), 180113).unwrap()), "v180113.42");
    match bump_date(&v("v180114.0"), 180113) {
        Err(BumpError::FutureDate(s)) => assert_eq!(s, b"v180114.0".to_vec()),
        _ => panic!("a date in the future was taken"),
    }
    match bump_date(&v("vnext.0"), 180113) {
        Err(BumpError::NonNumericComponent(s)) => assert_eq!(s, b"next".to_vec()),
        _ => panic!("a string was taken for a date"),
    }
    match bump_date(&v("v180113.x"), 180113) {
        Err(BumpError::NonNumericComponent(s)) => assert_eq!(s, b"x".to_vec()),
        _ => panic!("a string was raised"),
    }
}

#[test]
fn what_can_be_bumped() {
    let v = |s: &str| Version(s.as_bytes().to_vec());
    assert!(may_bump(&v("v1.2.3"), Patch));
    assert!(may_bump(&v("v1.x.3"), Bump::Component(2)));
    assert!(may_bump(&v(""), Major));
    assert!(!may_bump(&v("v1.2.3"), Bump::Component(0)));
    // the greatest number cannot be raised, where it is the one to raise
    assert!(!may_bump(&v("v1.18446744073709551615.3"), Bump::Component(2)));
    assert!(!may_bump(&v("v1.18446744073709551615.3"), DateMajor));
    assert!(may_bump(&v("v1.18446744073709551615.3"), Bump::Component(1)));
    assert!(may_bump(&v("v1.18446744073709551615.3"), Patch));
    assert!(!may_bump(&v("v18446744073709551615.0"), Major));
    assert_eq!(bump_component("v1.18446744073709551615.3", 3), "v1.18446744073709551615.4");
}
