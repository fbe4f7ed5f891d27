use sem_tool::version::parse;

#[test]
fn cli_set_cli_validate_invalid_input() {
    // 1 bad semver args
    assert!(parse("a.b.c").is_err());
}

#[test]
fn cli_set_cli_validate_basic_cases() {
    // 1 valid semver arg; the fields to set are themselves valid
    // version text
    assert!(parse("1.1.1-rc.0.a.1.b+a.0.b.1").is_ok());
    assert!(parse("2.3.4-a.b.c+x.y.z").is_ok());
}
