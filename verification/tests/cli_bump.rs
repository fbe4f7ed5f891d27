use sem_tool::version::parse;

#[test]
fn cli_bump_cli_validate_invalid_input() {
    // 1 bad semver args
    assert!(parse("a.b.c").is_err());
}

#[test]
fn cli_bump_cli_validate_basic_cases() {
    // 1 valid semver arg; the bumps themselves are checked-integer
    // steps on the parsed value
    let v = parse("1.1.1-rc.0.a.1.b+a.0.b.1").unwrap();
    assert_eq!(v.major.checked_add(2), Some(3));
    assert_eq!(v.minor.checked_add(3), Some(4));
    assert_eq!(v.patch.checked_add(4), Some(5));
}
