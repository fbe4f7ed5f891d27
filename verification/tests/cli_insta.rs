use sem_tool::compare::{compare, encode, ExitStatus};
use sem_tool::filter::filter_test;
use sem_tool::sort::{sort, SortError, SortKey};
use sem_tool::version::{parse, Version};

fn v(s: &str) -> Version {
    parse(s).unwrap()
}

fn names(out: &[Version]) -> Vec<String> {
    out.iter().map(|x| x.to_canonical_string()).collect()
}

fn code_of(a: &str, b: &str, equivalence_override: bool, report_mode: bool) -> ExitStatus {
    encode(compare(&v(a), &v(b)), equivalence_override, report_mode)
}

#[test]
fn cli_insta() {
    // filter.invalid-semver.1
    assert!(filter_test(">a.b.c", &v("1.0.0")).is_err());
    // filter.invalid-semver.2
    assert!(parse("x.y.z").is_err());
    // filter.invalid-order.1
    assert!(parse(">1").is_err());
    // filter.plain.1
    assert_eq!(filter_test(">1", &v("2.0.0")).unwrap(), true);
    // filter.plain.2
    assert_eq!(filter_test(">1", &v("0.0.1-rc1.br.0+abc")).unwrap(), false);

    // sort.unary.1
    let out = sort(&vec![v("0.1.2-rc0")], SortKey::Semantic, false, false, false, None).unwrap();
    assert_eq!(names(&out), vec!["0.1.2-rc0"]);

    // sort.complex.1
    let bm = vec![v("0.1.2+bm0"), v("0.1.2+bm1")];
    let amb = sort(&bm, SortKey::Lexical, false, false, true, None);
    assert!(matches!(amb, Err(SortError::Ambiguous { .. })));

    // sort.complex.2
    let rc = vec![v("0.1.2-rc0"), v("0.1.2-rc1")];
    let out = sort(&rc, SortKey::Lexical, false, true, false, None).unwrap();
    assert_eq!(names(&out), vec!["0.1.2-rc0", "0.1.2-rc1"]);

    // sort.reverse.1
    let out = sort(&rc, SortKey::Semantic, true, false, false, None).unwrap();
    assert_eq!(names(&out), vec!["0.1.2-rc1", "0.1.2-rc0"]);

    // sort.flatten.1
    let out = sort(&rc, SortKey::Semantic, false, true, false, None).unwrap();
    assert_eq!(names(&out), vec!["0.1.2-rc0", "0.1.2-rc1"]);

    // sort.lexical.1
    let out = sort(&bm, SortKey::Lexical, false, false, false, None).unwrap();
    assert_eq!(names(&out), vec!["0.1.2+bm0", "0.1.2+bm1"]);

    // sort.lexical.2
    let out = sort(&rc, SortKey::Lexical, false, false, false, None).unwrap();
    assert_eq!(names(&out), vec!["0.1.2-rc0", "0.1.2-rc1"]);

    // sort.filter.1
    assert!(sort(&rc, SortKey::Semantic, false, false, false, Some(">1")).is_ok());
    // sort.filter.2
    assert!(sort(&rc, SortKey::Semantic, false, false, false, Some(">0")).is_ok());
    // sort.filter.3
    let bad = sort(&rc, SortKey::Semantic, false, false, false, Some(">a"));
    assert!(matches!(bad, Err(SortError::InvalidFilter { .. })));

    // validate.invalid-semver.1
    assert!(parse("a.b.c").is_err());
    // validate.valid-semver.1
    assert!(parse("0.1.2-rc.0.a.1.b+a.0.b.1").is_ok());
    // validate.short.1 / validate.short.2: a numeric component over
    // the 64-bit boundary is rejected, not clamped
    assert!(parse("18446744073709551616.0.0").is_err());
    // validate.regression-of-bad-regex.1 / .2
    assert!(parse("0.0.0a").is_err());

    // explain.invalid-semver.1
    assert!(parse("a.b.c").is_err());
    // explain.valid-semver.1
    let e = v("0.1.2-rc.0.a.1.b+a.0.b.1");
    assert_eq!((e.major, e.minor, e.patch), (0, 1, 2));
    assert_eq!(e.pre.len(), 5);
    assert_eq!(e.build.len(), 4);
    // explain.valid-semver.2
    let e = v("0.1.2");
    assert_eq!((e.major, e.minor, e.patch), (0, 1, 2));
    assert!(e.pre.is_empty() && e.build.is_empty());
    // explain.valid-semver.3
    let e = v("0.1.2-rc.0.a.1.b");
    assert_eq!(e.pre.len(), 5);
    assert!(e.build.is_empty());
    // explain.valid-semver.4
    let e = v("0.1.2+a.0.b.1");
    assert!(e.pre.is_empty());
    assert_eq!(e.build.len(), 4);

    // compare.valid-semver.1
    assert_eq!(code_of("1.2.3", "4.5.6", false, false), ExitStatus::Success);
    // compare.exit-status.1
    assert_eq!(code_of("1.2.3", "1.2.3", false, true), ExitStatus::Success);
    // compare.exit-status.2
    assert_eq!(code_of("1.2.3", "4.5.6", false, true), ExitStatus::Code(100));
    // compare.exit-status.3
    assert_eq!(code_of("4.5.6", "1.2.3", false, true), ExitStatus::Code(122));
    // compare.exit-status.4
    assert_eq!(code_of("1.2.3+1", "1.2.3+0", false, true), ExitStatus::Code(112));
    // compare.exit-status.5
    assert_eq!(code_of("1.2.3+0", "1.2.3+1", false, true), ExitStatus::Code(110));
    // compare.exit-status.6
    assert_eq!(code_of("1.2.3+0", "1.2.3+1", true, true), ExitStatus::Success);
    // compare.complex.1
    assert_eq!(code_of("1.2.2", "1.2.3+1", true, true), ExitStatus::Code(100));
    // compare.semantic-exit-status.1
    assert_eq!(code_of("1.2.4+0", "1.2.3+1", true, false), ExitStatus::Success);
}
