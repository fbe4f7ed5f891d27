use sem_tool::version::{parse, Version};

#[test]
fn cli_explain_invalid_input() {
    // 1 bad semver args
    assert!(parse("a.b.c").is_err());
}

#[test]
fn cli_explain_basic_cases() {
    let v: Version = parse("0.1.2-rc.0.a.1.b+a.0.b.1").unwrap();
    assert_eq!(v.major, 0);
    assert_eq!(v.minor, 1);
    assert_eq!(v.patch, 2);
    let pre: Vec<&[u8]> = v.pre.iter().map(|i| i.as_slice()).collect();
    assert_eq!(pre, vec![b"rc" as &[u8], b"0", b"a", b"1", b"b"]);
    let build: Vec<&[u8]> = v.build.iter().map(|i| i.as_slice()).collect();
    assert_eq!(build, vec![b"a" as &[u8], b"0", b"b", b"1"]);
}
