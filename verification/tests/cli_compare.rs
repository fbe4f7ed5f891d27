use sem_tool::compare::{Ordering, compare, encode, ExitStatus};
use sem_tool::version::{parse, Version};

fn v(s: &str) -> Version {
    parse(s).unwrap()
}

fn code_of(a: &str, b: &str, equivalence_override: bool, report_mode: bool) -> ExitStatus {
    let c = compare(&v(a), &v(b));
    encode(c, equivalence_override, report_mode)
}

#[test]
fn cli_compare_invalid_input() {
    // 1 bad semver args
    assert!(parse("a.b.c").is_err());
    // 2 bad semver args
    assert!(parse("a.b.c").is_err());
    assert!(parse("x.y.z").is_err());
}

#[test]
fn cli_compare_basic_cases() {
    // no exit code reporting: any clean comparison is a success
    assert_eq!(code_of("1.2.3", "4.5.6", false, false), ExitStatus::Success);

    // (sem: Equal, lex: Equal) aka Success
    assert_eq!(code_of("1.2.3", "1.2.3", false, true), ExitStatus::Success);

    // (sem: Less, lex: Less) aka 100
    assert_eq!(code_of("1.2.3", "4.5.6", false, true), ExitStatus::Code(100));

    // (sem: Greater, lex: Greater) aka 122
    assert_eq!(code_of("4.5.6", "1.2.3", false, true), ExitStatus::Code(122));

    // (sem: Equal, lex: Greater) aka 112
    assert_eq!(code_of("1.2.3+1", "1.2.3+0", false, true), ExitStatus::Code(112));

    // (sem: Equal, lex: Less) aka 110
    assert_eq!(code_of("1.2.3+0", "1.2.3+1", false, true), ExitStatus::Code(110));

    // (sem: Equal, lex: Less) aka 110, but overridden by the
    // equivalence override
    assert_eq!(code_of("1.2.3+0", "1.2.3+1", true, true), ExitStatus::Success);

    // (sem: Less, lex: Less) aka 100, where the override has no impact
    assert_eq!(code_of("1.2.2", "1.2.3+1", true, true), ExitStatus::Code(100));

    // These don't match, but pass anyways since reporting is not
    // requested
    assert_eq!(code_of("1.2.4+0", "1.2.3+1", true, false), ExitStatus::Success);

    let c = compare(&v("1.2.4+0"), &v("1.2.3+1"));
    assert_eq!(c.semantic, Ordering::Greater);
    assert_eq!(c.lexical, Ordering::Greater);
}
