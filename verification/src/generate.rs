//! The grammar-constrained random version generator: strings sampled
//! from the SemVer grammar's automaton (via the `rand_regex` crate),
//! and strings whose numeric components range over all of `u64`. Every
//! returned string is checked against the verified grammar before it
//! leaves, so each one is valid by the time a caller sees it.

use vstd::prelude::*;
use rand::RngExt;
use crate::text::{ascii_bytes_to_string, copy_bytes, lemma_text_chars_ascii, split_dots_vec};
use crate::version::{
    Version, check_build_ids, check_pre_ids, is_valid_text, lemma_canonical_ascii,
    lemma_canonical_parse, lemma_parse_canonical, parse_bytes,
};

verus! {

/// The SemVer 2.0.0 grammar as a regular expression, ASCII only and
/// unanchored, with the three core numerals capped at 19 digits so
/// that every sampled component fits in 64 bits (a longer numeral
/// matches the published grammar but is no parseable version).
pub const SEMVER_REGEX: &'static str = r"(?-u:(0|[1-9]\d{0,18})\.(0|[1-9]\d{0,18})\.(0|[1-9]\d{0,18})(?:-((?:0|[1-9]\d*|\d*[a-zA-Z-][0-9a-zA-Z-]*)(?:\.(?:0|[1-9]\d*|\d*[a-zA-Z-][0-9a-zA-Z-]*))*))?(?:\+([0-9a-zA-Z-]+(?:\.[0-9a-zA-Z-]+)*))?)";

/// A non-empty pre-release identifier sequence, without the leading
/// `-`.
pub const ALWAYS_PRERELEASE_REGEX: &'static str = r"(?-u:(?:((?:0|[1-9]\d*|\d*[a-zA-Z-][0-9a-zA-Z-]*)(?:\.(?:0|[1-9]\d*|\d*[a-zA-Z-][0-9a-zA-Z-]*))*)))";

/// A non-empty build-metadata identifier sequence, without the leading
/// `+`.
pub const ALWAYS_BUILD_METADATA_REGEX: &'static str = r"(?-u:(?:(([0-9a-zA-Z-]+)(?:\.[0-9a-zA-Z-]+)*)))";

/// Cap on the extra repetitions the automaton may take for `*` and
/// `+`, so samples stay reasonably short.
pub const DEFAULT_MAX_REPEAT: u32 = 100;

/// An internal generator failure: the automaton failed to compile, or
/// a sample failed the validity self-check. A programming defect, not
/// a user error.
#[derive(Clone, Copy, Debug, PartialEq, Eq, Structural)]
pub struct GeneratorDefect;

/// The sampling automaton of the `rand_regex` crate, carried opaquely.
#[verifier::external_type_specification]
#[verifier::external_body]
pub struct ExRandRegex(rand_regex::Regex);

/// Relies on `rand_regex::Regex::compile`: it compiles an unanchored
/// pattern into a sampling automaton, `Err` on a pattern it does not
/// support. Nothing is assumed of the outcome.
#[verifier::external_body]
fn regex_compile(pattern: &str, max_repeat: u32) -> (r: Option<rand_regex::Regex>) {
    rand_regex::Regex::compile(pattern, max_repeat).ok()
}

/// Relies on `rand_regex`'s `Distribution<Vec<u8>>` for `Regex` (each
/// sample is a byte string) and on `Iterator::take`: sampling an
/// endless stream and taking `count` gives exactly `count` samples.
/// Nothing is assumed about the sampled bytes themselves.
#[verifier::external_body]
fn regex_sample_bytes(re: &rand_regex::Regex, count: usize) -> (r: Vec<Vec<u8>>)
    ensures
        r@.len() == count,
{
    rand::rng().sample_iter::<Vec<u8>, _>(re).take(count).collect()
}

/// Relies on `rand`'s `random::<u64>()`. Nothing is assumed about the
/// value.
#[verifier::external_body]
fn random_u64() -> u64 {
    rand::rng().random::<u64>()
}

/// Relies on `rand`'s `random::<bool>()`: an even coin. Nothing is
/// assumed about the value.
#[verifier::external_body]
fn coin_flip() -> bool {
    rand::rng().random::<bool>()
}

/// `count` random strings matching the full SemVer grammar, sampled
/// from the grammar's automaton. Every returned string is re-checked
/// against the verified grammar; a failed self-check (like a failed
/// automaton compilation) is a generator defect, not a user error.
pub fn generate_grammar(count: usize) -> (r: Result<Vec<String>, GeneratorDefect>)
    ensures
        match r {
            Ok(out) => out@.len() == count && forall|i: int|
                0 <= i < out@.len() ==> is_valid_text(
                    vstd::utf8::encode_utf8(#[trigger] out@[i]@),
                ),
            Err(_) => true,
        },
{
    let re = match regex_compile(SEMVER_REGEX, DEFAULT_MAX_REPEAT) {
        Some(re) => re,
        None => {
            return Err(GeneratorDefect);
        },
    };
    let samples = regex_sample_bytes(&re, count);
    let mut out: Vec<String> = Vec::new();
    let mut i: usize = 0;
    while i < count
        invariant
            i <= count,
            samples@.len() == count,
            out@.len() == i,
            forall|k: int|
                0 <= k < i ==> is_valid_text(vstd::utf8::encode_utf8(#[trigger] out@[k]@)),
        decreases count - i,
    {
        let bytes = copy_bytes(&samples[i]);
        let checked = copy_bytes(&samples[i]);
        match parse_bytes(checked) {
            Ok(ver) => {
                proof {
                    lemma_canonical_parse(bytes@, ver@);
                    lemma_canonical_ascii(ver@);
                    lemma_text_chars_ascii(bytes@);
                }
                let s = ascii_bytes_to_string(bytes);
                out.push(s);
            },
            Err(_) => {
                return Err(GeneratorDefect);
            },
        }
        i = i + 1;
    }
    Ok(out)
}

/// `count` random strings whose major, minor and patch are drawn
/// independently from the full unsigned 64-bit range, with a
/// pre-release part and a build-metadata part each present under an
/// even coin, their identifiers sampled from the identifier-sequence
/// automata. Every returned string is the canonical form of a valid
/// version, so it parses and never exceeds the 64-bit boundary.
pub fn generate_bounded(count: usize) -> (r: Result<Vec<String>, GeneratorDefect>)
    ensures
        match r {
            Ok(out) => out@.len() == count && forall|i: int|
                0 <= i < out@.len() ==> is_valid_text(
                    vstd::utf8::encode_utf8(#[trigger] out@[i]@),
                ),
            Err(_) => true,
        },
{
    let pre_re = match regex_compile(ALWAYS_PRERELEASE_REGEX, DEFAULT_MAX_REPEAT) {
        Some(re) => re,
        None => {
            return Err(GeneratorDefect);
        },
    };
    let build_re = match regex_compile(ALWAYS_BUILD_METADATA_REGEX, DEFAULT_MAX_REPEAT) {
        Some(re) => re,
        None => {
            return Err(GeneratorDefect);
        },
    };
    let pre_samples = regex_sample_bytes(&pre_re, count);
    let build_samples = regex_sample_bytes(&build_re, count);
    let mut out: Vec<String> = Vec::new();
    let mut i: usize = 0;
    while i < count
        invariant
            i <= count,
            pre_samples@.len() == count,
            build_samples@.len() == count,
            out@.len() == i,
            forall|k: int|
                0 <= k < i ==> is_valid_text(vstd::utf8::encode_utf8(#[trigger] out@[k]@)),
        decreases count - i,
    {
        let major = random_u64();
        let minor = random_u64();
        let patch = random_u64();
        let pre: Vec<Vec<u8>> = if coin_flip() {
            let ids = split_dots_vec(copy_bytes(&pre_samples[i]));
            if !check_pre_ids(&ids) {
                return Err(GeneratorDefect);
            }
            ids
        } else {
            Vec::new()
        };
        let build: Vec<Vec<u8>> = if coin_flip() {
            let ids = split_dots_vec(copy_bytes(&build_samples[i]));
            if !check_build_ids(&ids) {
                return Err(GeneratorDefect);
            }
            ids
        } else {
            Vec::new()
        };
        let ver = Version { major, minor, patch, pre, build };
        proof {
            lemma_parse_canonical(ver@);
        }
        let s = ver.to_canonical_string();
        out.push(s);
        i = i + 1;
    }
    Ok(out)
}

} // verus!
