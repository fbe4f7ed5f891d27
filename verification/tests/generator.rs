use sem_tool::generate::{generate_bounded, generate_grammar};
use sem_tool::version::parse;

#[test]
fn generate_grammar_yields_parseable_strings() {
    let out = generate_grammar(50).unwrap();
    assert_eq!(out.len(), 50);
    for s in &out {
        let v = parse(s).unwrap();
        assert_eq!(v.to_canonical_string(), *s);
    }
}

#[test]
fn generate_bounded_yields_parseable_strings() {
    let out = generate_bounded(50).unwrap();
    assert_eq!(out.len(), 50);
    for s in &out {
        // parses, and every numeric component already fit in 64 bits
        let v = parse(s).unwrap();
        assert_eq!(v.to_canonical_string(), *s);
    }
}

#[test]
fn generate_zero_is_empty() {
    assert!(generate_grammar(0).unwrap().is_empty());
    assert!(generate_bounded(0).unwrap().is_empty());
}
