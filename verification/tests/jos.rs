use jabba_lib::jos::{is_linux, is_windows};

#[test]
fn is_linux_test() {
    let name = "linux";
    assert!(is_linux(name) != is_windows(name));
}

#[test]
fn is_windows_test() {
    let name = "windows";
    assert!(is_windows(name) != is_linux(name));
}

#[test]
fn names_of_operating_systems() {
    assert_eq!(is_linux("linux"), true);
    assert_eq!(is_windows("linux"), false);
    assert_eq!(is_linux("windows"), false);
    assert_eq!(is_windows("windows"), true);
    assert_eq!(is_linux("macos"), false);
    assert_eq!(is_windows("macos"), false);
    assert_eq!(is_linux("Linux"), false);
    assert_eq!(is_linux(""), false);
}
