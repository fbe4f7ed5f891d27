use sem_tool::sort::{sort, SortError, SortKey};
use sem_tool::version::{parse, Version};

fn v(s: &str) -> Version {
    parse(s).unwrap()
}

fn names(out: &[Version]) -> Vec<String> {
    out.iter().map(|x| x.to_canonical_string()).collect()
}

#[test]
fn cli_sort_invalid_input() {
    // 1 bad semver args
    assert!(parse("a.b.c").is_err());
}

#[test]
fn cli_sort_basic_cases() {
    let one = vec![v("0.1.2-rc0")];
    let rc = vec![v("0.1.2-rc0"), v("0.1.2-rc1")];
    let bm = vec![v("0.1.2+bm0"), v("0.1.2+bm1")];

    // 1 item
    let out = sort(&one, SortKey::Semantic, false, false, false, None).unwrap();
    assert_eq!(names(&out), vec!["0.1.2-rc0"]);

    // 2 items, -f >0
    assert!(sort(&rc, SortKey::Semantic, false, false, false, Some(">0")).is_ok());

    // 2 items, -f >1
    assert!(sort(&rc, SortKey::Semantic, false, false, false, Some(">1")).is_ok());

    // 2 items, -f >a
    let bad = sort(&rc, SortKey::Semantic, false, false, false, Some(">a"));
    assert!(matches!(bad, Err(SortError::InvalidFilter { .. })));

    // 2 items, -r
    let out = sort(&rc, SortKey::Semantic, true, false, false, None).unwrap();
    assert_eq!(names(&out), vec!["0.1.2-rc1", "0.1.2-rc0"]);

    // 2 items, --flatten
    let out = sort(&rc, SortKey::Semantic, false, true, false, None).unwrap();
    assert_eq!(names(&out), vec!["0.1.2-rc0", "0.1.2-rc1"]);

    // 2 items, --lexical-sorting
    let out = sort(&rc, SortKey::Lexical, false, false, false, None).unwrap();
    assert_eq!(names(&out), vec!["0.1.2-rc0", "0.1.2-rc1"]);

    // 2 items, --lexical-sorting, --flatten
    let out = sort(&rc, SortKey::Lexical, false, true, false, None).unwrap();
    assert_eq!(names(&out), vec!["0.1.2-rc0", "0.1.2-rc1"]);

    // 2 items, --fail-if-potentially-ambiguous
    let amb = sort(&bm, SortKey::Semantic, false, false, true, None);
    assert!(matches!(amb, Err(SortError::Ambiguous { .. })));

    // the same items without the check succeed
    let out = sort(&bm, SortKey::Semantic, false, false, false, None).unwrap();
    assert_eq!(names(&out), vec!["0.1.2+bm0", "0.1.2+bm1"]);

    // --fail-if-potentially-ambiguous --flatten: flatten does not
    // suppress the check
    let amb = sort(&bm, SortKey::Semantic, false, true, true, None);
    assert!(matches!(amb, Err(SortError::Ambiguous { .. })));

    // --flatten alone collapses the semantically equal pair
    let out = sort(&bm, SortKey::Semantic, false, true, false, None).unwrap();
    assert_eq!(names(&out), vec!["0.1.2+bm0"]);
}
