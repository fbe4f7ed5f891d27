use sem_tool::version::{parse, Version};

fn roundtrip(s: &str) {
    let v: Version = parse(s).unwrap();
    let printed = v.to_canonical_string();
    assert_eq!(printed, s);
    let again: Version = parse(&printed).unwrap();
    assert_eq!(again, v);
}

#[test]
fn parse_accepts_the_grammar() {
    roundtrip("0.0.0");
    roundtrip("1.2.3");
    roundtrip("10.20.30");
    roundtrip("1.2.3-alpha");
    roundtrip("1.2.3-alpha.1");
    roundtrip("1.2.3-0.3.7");
    roundtrip("1.2.3-x-y-z.--");
    roundtrip("1.2.3+build");
    roundtrip("1.2.3+build.1.2");
    roundtrip("1.2.3-beta+exp.sha.5114f85");
    roundtrip("1.2.3----RC-SNAPSHOT.12.9.1--.12+788");
    // build metadata may carry leading zeros
    roundtrip("1.2.3+01");
    roundtrip("1.2.3+0.0.0");
    // a pre-release numeric identifier has no 64-bit bound
    roundtrip("1.2.3-18446744073709551616");
    // the numeric components go right up to the 64-bit boundary
    roundtrip("18446744073709551615.18446744073709551615.18446744073709551615");
}

#[test]
fn parse_rejects_what_is_not_in_the_grammar() {
    for bad in [
        "",
        "1",
        "1.2",
        "1.2.3.4",
        "a.b.c",
        "x.y.z",
        "01.2.3",
        "1.02.3",
        "1.2.03",
        "1.2.3-",
        "1.2.3+",
        "1.2.3-alpha..1",
        "1.2.3-+b",
        "1.2.3-alpha+",
        "1.2.3 ",
        " 1.2.3",
        "1.2.3-01",
        "1.2.3-00",
        "v1.2.3",
        "0.0.0a",
        "1.2.3-a_b",
        "1.2.3+a~b",
        "1.2.3-\u{e9}",
    ] {
        assert!(parse(bad).is_err(), "{bad:?} should not parse");
    }
    // a numeric component over the 64-bit boundary is an error, not a
    // truncation
    assert!(parse("18446744073709551616.0.0").is_err());
    assert!(parse("0.18446744073709551616.0").is_err());
    assert!(parse("0.0.18446744073709551616").is_err());
}

#[test]
fn canonical_string_is_lossless() {
    let v = parse("7.0.1-rc.1+build.5").unwrap();
    assert_eq!(v.major, 7);
    assert_eq!(v.minor, 0);
    assert_eq!(v.patch, 1);
    assert_eq!(v.to_canonical_string(), "7.0.1-rc.1+build.5");
}
