use sem_tool::compare::{compare, encode, CompositeComparison, ExitStatus, Ordering};
use sem_tool::output::{ApplicationOutput, ApplicationTermination};
use sem_tool::sort::{sort, SortError, SortKey};
use sem_tool::version::{parse, Version};

fn v(s: &str) -> Version {
    parse(s).unwrap()
}

fn names(out: &[Version]) -> Vec<String> {
    out.iter().map(|x| x.to_canonical_string()).collect()
}

fn sem(a: &str, b: &str) -> Ordering {
    compare(&v(a), &v(b)).semantic
}

#[test]
fn comparison_is_reflexive_antisymmetric_transitive() {
    for s in ["1.2.3", "0.0.1-rc1.br.0+abc", "2.0.0-alpha.7+x"] {
        let c = compare(&v(s), &v(s));
        assert_eq!(c.semantic, Ordering::Equal);
        assert_eq!(c.lexical, Ordering::Equal);
    }
    assert_eq!(sem("1.2.3", "4.5.6"), Ordering::Less);
    assert_eq!(sem("4.5.6", "1.2.3"), Ordering::Greater);
    assert_eq!(sem("1.0.0-alpha", "1.0.0-beta"), Ordering::Less);
    assert_eq!(sem("1.0.0-beta", "1.0.0-rc.1"), Ordering::Less);
    assert_eq!(sem("1.0.0-alpha", "1.0.0-rc.1"), Ordering::Less);
}

#[test]
fn semver_precedence_chain() {
    let chain = [
        "1.0.0-alpha",
        "1.0.0-alpha.1",
        "1.0.0-alpha.beta",
        "1.0.0-beta",
        "1.0.0-beta.2",
        "1.0.0-beta.11",
        "1.0.0-rc.1",
        "1.0.0",
    ];
    for w in chain.windows(2) {
        assert_eq!(sem(w[0], w[1]), Ordering::Less, "{} < {}", w[0], w[1]);
    }
    // build metadata never participates in the semantic axis
    assert_eq!(sem("1.0.0+zzz", "1.0.0+aaa"), Ordering::Equal);
}

#[test]
fn encoding_covers_the_closed_range() {
    let mk = |s, l| CompositeComparison { semantic: s, lexical: l };
    let all = [Ordering::Less, Ordering::Equal, Ordering::Greater];
    for (i, s) in all.iter().enumerate() {
        for (j, l) in all.iter().enumerate() {
            let st = encode(mk(*s, *l), false, true);
            if i == 1 && j == 1 {
                assert_eq!(st, ExitStatus::Success);
            } else {
                assert_eq!(st, ExitStatus::Code((100 + 10 * i + j) as u8));
            }
            assert_eq!(encode(mk(*s, *l), false, false), ExitStatus::Success);
            let overridden = encode(mk(*s, *l), true, true);
            if i == 1 {
                assert_eq!(overridden, ExitStatus::Success);
            } else {
                assert_eq!(overridden, ExitStatus::Code((100 + 10 * i + j) as u8));
            }
        }
    }
}

#[test]
fn sort_determinism_under_the_two_keys() {
    // the two keys disagree here: numerically 2 < 11, byte-wise
    // "-11" < "-2"
    let items = vec![v("1.2.3-11"), v("1.2.3-2")];
    let semantic = sort(&items, SortKey::Semantic, false, false, false, None).unwrap();
    let lexical = sort(&items, SortKey::Lexical, false, false, false, None).unwrap();
    assert_eq!(names(&semantic), vec!["1.2.3-2", "1.2.3-11"]);
    assert_eq!(names(&lexical), vec!["1.2.3-11", "1.2.3-2"]);
    assert_ne!(names(&semantic), names(&lexical));
}

#[test]
fn sort_is_stable() {
    // semantically equal, textually distinct: original order survives
    // a semantic sort
    let items = vec![v("1.0.0+b"), v("1.0.0+a"), v("0.9.0")];
    let out = sort(&items, SortKey::Semantic, false, false, false, None).unwrap();
    assert_eq!(names(&out), vec!["0.9.0", "1.0.0+b", "1.0.0+a"]);
    // under the lexical key the same pair is ordered by bytes
    let out = sort(&items, SortKey::Lexical, false, false, false, None).unwrap();
    assert_eq!(names(&out), vec!["0.9.0", "1.0.0+a", "1.0.0+b"]);
    // full duplicates are preserved
    let items = vec![v("1.0.0"), v("1.0.0")];
    let out = sort(&items, SortKey::Semantic, false, false, false, None).unwrap();
    assert_eq!(names(&out), vec!["1.0.0", "1.0.0"]);
}

#[test]
fn ambiguity_check_fails_exactly_on_ambiguous_input() {
    let bm = vec![v("0.1.2+bm0"), v("0.1.2+bm1")];
    let res = sort(&bm, SortKey::Semantic, false, false, true, None);
    match res {
        Err(SortError::Ambiguous { left, right }) => {
            assert_eq!(compare(&left, &right).semantic, Ordering::Equal);
            assert_ne!(left.to_canonical_string(), right.to_canonical_string());
        },
        other => panic!("expected an ambiguity failure, got {other:?}"),
    }
    assert!(sort(&bm, SortKey::Semantic, false, false, false, None).is_ok());
    // unambiguous input passes the check
    let distinct = vec![v("1.0.0"), v("2.0.0")];
    assert!(sort(&distinct, SortKey::Semantic, false, false, true, None).is_ok());
    // the ambiguous pair need not be adjacent after a lexical sort
    let spread = vec![v("1.0.0+a"), v("1.0.0-z"), v("1.0.0+b")];
    assert!(matches!(
        sort(&spread, SortKey::Lexical, false, false, true, None),
        Err(SortError::Ambiguous { .. })
    ));
}

#[test]
fn flatten_collapses_runs_and_reverse_comes_last() {
    let items = vec![v("1.0.0+b"), v("1.0.0+a"), v("2.0.0"), v("2.0.0+x")];
    let out = sort(&items, SortKey::Semantic, false, true, false, None).unwrap();
    assert_eq!(names(&out), vec!["1.0.0+b", "2.0.0"]);
    let out = sort(&items, SortKey::Semantic, true, true, false, None).unwrap();
    assert_eq!(names(&out), vec!["2.0.0", "1.0.0+b"]);
}

#[test]
fn filtering_keeps_matching_items_in_order() {
    let items = vec![v("0.5.0"), v("2.0.0"), v("1.5.0"), v("3.0.0")];
    let out = sort(&items, SortKey::Semantic, false, false, false, Some(">=1.5")).unwrap();
    assert_eq!(names(&out), vec!["1.5.0", "2.0.0", "3.0.0"]);
    let out = sort(&items, SortKey::Semantic, false, false, false, Some("<0.1")).unwrap();
    assert!(out.is_empty());
}

#[test]
fn termination_reports_the_carried_status() {
    let cmp = CompositeComparison { semantic: Ordering::Less, lexical: Ordering::Less };
    let out = ApplicationOutput::ComparisonStatement { comparison: cmp, status: ExitStatus::Code(100) };
    let t = ApplicationTermination::new(out, false);
    assert_eq!(t.report(), ExitStatus::Code(100));

    let cmp = CompositeComparison { semantic: Ordering::Less, lexical: Ordering::Less };
    let out = ApplicationOutput::ComparisonStatement { comparison: cmp, status: ExitStatus::Code(100) };
    let t = ApplicationTermination::new(out, true);
    assert_eq!(t.report(), ExitStatus::Success);

    let t = ApplicationTermination::new(ApplicationOutput::ValidateResult { valid: false }, false);
    assert_eq!(t.report(), ExitStatus::Code(1));
    let t = ApplicationTermination::new(ApplicationOutput::ValidateResult { valid: true }, false);
    assert_eq!(t.report(), ExitStatus::Success);
}
