use ded::util::{join_path, sha1, trim};

#[test]
fn width() {
    assert_eq!(1, ded::util::width(1));
    assert_eq!(1, ded::util::width(9));
    assert_eq!(2, ded::util::width(10));
    assert_eq!(2, ded::util::width(99));
    assert_eq!(3, ded::util::width(100));
}

#[test]
fn width_of_zero() {
    assert_eq!(1, ded::util::width(0));
}

#[test]
fn digest_is_deterministic() {
    let a = sha1("/some/long/path with spaces");
    let b = sha1("/some/long/path with spaces");
    assert_eq!(a, b);
    assert_eq!(40, a.len());
    assert!(a.chars().all(|c| "0123456789abcdef".contains(c)));
    assert_ne!(a, sha1("/some/long/path with spaces2"));
}

#[test]
fn digest_known_value() {
    // The SHA-1 of the empty string, hex encoded.
    assert_eq!("da39a3ee5e6b4b0d3255bfef95601890afd80709", sha1(""));
}

#[test]
fn join_path_cases() {
    assert_eq!("/a/b", join_path("/a", "b"));
    assert_eq!("/a/b", join_path("/a/", "b"));
    assert_eq!("/etc/secret", join_path("/a", "/etc/secret"));
    assert_eq!("b", join_path("", "b"));
}

#[test]
fn trim_cases() {
    assert_eq!("x y", trim("  x y\t "));
    assert_eq!("", trim(" \t\n"));
    assert_eq!("abc", trim("abc"));
    assert_eq!("", trim(""));
}
