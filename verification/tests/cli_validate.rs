use sem_tool::version::{parse, Version};

#[test]
fn cli_validate_cli_validate_invalid_input() {
    // 1 bad semver args
    assert!(parse("a.b.c").is_err());
}

#[test]
fn cli_validate_cli_validate_basic_cases() {
    // 1 valid semver arg
    let v: Version = parse("0.1.2-rc.0.a.1.b+a.0.b.1").unwrap();
    assert_eq!(v.to_canonical_string(), "0.1.2-rc.0.a.1.b+a.0.b.1");

    // regression of: https://github.com/canardleteer/sem-tool/issues/50
    assert!(parse("0.0.0a").is_err());
}
