use mod_installer::mangle_name;

#[test]
fn mangles_mixed_text() {
    assert_eq!(mangle_name("Hello World!"), "hello-world-");
}

#[test]
fn mangles_empty() {
    assert_eq!(mangle_name(""), "");
}

#[test]
fn keeps_lower_and_digits() {
    assert_eq!(mangle_name("abc123"), "abc123");
}

#[test]
fn lowercases_upper() {
    assert_eq!(mangle_name("ABCXYZ"), "abcxyz");
}

#[test]
fn non_ascii_becomes_hyphen() {
    assert_eq!(mangle_name("caf\u{e9}"), "caf-");
}

#[test]
fn mangle_is_idempotent() {
    let once = mangle_name("Some Mod (v2).zip");
    let twice = mangle_name(&once);
    assert_eq!(once, twice);
}

#[test]
fn output_is_slug_charset() {
    let out = mangle_name("A_b/C d\u{2603}9");
    assert!(out.chars().all(|c| c.is_ascii_lowercase() || c.is_ascii_digit() || c == '-'));
    assert_eq!(out, "a-b-c-d-9");
}
