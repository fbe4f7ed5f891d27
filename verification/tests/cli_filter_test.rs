use sem_tool::filter::filter_test;
use sem_tool::version::{parse, Version};

fn v(s: &str) -> Version {
    parse(s).unwrap()
}

#[test]
fn cli_filter_invalid_input() {
    // 1 bad semver filter arg
    assert!(filter_test(">a.b.c", &v("1.0.0")).is_err());

    // 1 bad semver arg
    assert!(parse("x.y.z").is_err());

    // backwards args: "2.0.0" is a fine filter, but ">1" is no version
    assert!(parse(">1").is_err());
}

#[test]
fn cli_filter_test_basic_cases() {
    // >1 test
    assert_eq!(filter_test(">1", &v("2.0.0")).unwrap(), true);

    // >1 0.0.1-rc1.br.0+abc
    assert_eq!(filter_test(">1", &v("0.0.1-rc1.br.0+abc")).unwrap(), false);
}
