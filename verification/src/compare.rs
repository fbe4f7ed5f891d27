//! The dual-axis comparator: SemVer precedence (the semantic axis),
//! byte-wise order of the canonical strings (the lexical axis), and the
//! exit-status encoding of a composite comparison.

use vstd::prelude::*;
use crate::text::{
    ZERO, all_digits, dec_digits, is_numeral, lemma_dec_digits_num_val, lemma_num_val_front,
    lemma_num_val_lower, lemma_num_val_upper, lemma_pow10_mono, num_val, pow10, views_of,
};
use crate::version::{
    Version, VersionView, canonical, check_all_digits, is_pre_ident, lemma_canonical_injective,
    valid_pre_ids, valid_version,
};

verus! {

/// A three-valued comparison outcome, ordered `Less < Equal < Greater`
/// for encoding purposes.
#[derive(Clone, Copy, Debug, PartialEq, Eq, Structural)]
pub enum Ordering {
    Less,
    Equal,
    Greater,
}

/// Numeric rank of an [`Ordering`] used by the status encoding:
/// `Less = 0`, `Equal = 1`, `Greater = 2`.
pub open spec fn ord_rank(o: Ordering) -> int {
    match o {
        Ordering::Less => 0,
        Ordering::Equal => 1,
        Ordering::Greater => 2,
    }
}

/// The `Ordering` with the roles of the two compared values swapped.
pub open spec fn ord_flip(o: Ordering) -> Ordering {
    match o {
        Ordering::Less => Ordering::Greater,
        Ordering::Equal => Ordering::Equal,
        Ordering::Greater => Ordering::Less,
    }
}

/// The pair of independent orderings computed between two versions:
/// `semantic` follows SemVer precedence, `lexical` is the byte-wise
/// order of the two canonical strings.
#[derive(Clone, Copy, Debug, PartialEq, Eq, Structural)]
pub struct CompositeComparison {
    pub semantic: Ordering,
    pub lexical: Ordering,
}

/// Discrete encoding of a comparison: the distinguished success value,
/// or a code in `[100, 122]`.
#[derive(Clone, Copy, Debug, PartialEq, Eq, Structural)]
pub enum ExitStatus {
    Success,
    Code(u8),
}

/// What [`encode`] must return: success when the encoding is not
/// requested at all, or under the equivalence override with a
/// semantically equal pair, or when both axes are equal; otherwise
/// `100 + 10*rank(semantic) + rank(lexical)`.
pub open spec fn encode_spec(c: CompositeComparison, equivalence_override: bool, report_mode: bool) -> ExitStatus {
    if !report_mode {
        ExitStatus::Success
    } else if equivalence_override && c.semantic == Ordering::Equal {
        ExitStatus::Success
    } else if c.semantic == Ordering::Equal && c.lexical == Ordering::Equal {
        ExitStatus::Success
    } else {
        ExitStatus::Code((100 + 10 * ord_rank(c.semantic) + ord_rank(c.lexical)) as u8)
    }
}

/// Encode a composite comparison into a single discrete status.
///
/// The encoding is opt-in: without `report_mode` every comparison is
/// reported as success. With it, a pair equal on both axes (or equal on
/// the semantic axis while `equivalence_override` is active) is success,
/// and every other combination gets the code
/// `100 + 10*rank(semantic) + rank(lexical)`, which lies in `[100, 122]`.
pub fn encode(c: CompositeComparison, equivalence_override: bool, report_mode: bool) -> (r: ExitStatus)
    ensures
        r == encode_spec(c, equivalence_override, report_mode),
        r is Code ==> 100 <= r->0 <= 122,
{
    if !report_mode {
        ExitStatus::Success
    } else if equivalence_override && matches!(c.semantic, Ordering::Equal) {
        ExitStatus::Success
    } else if matches!(c.semantic, Ordering::Equal) && matches!(c.lexical, Ordering::Equal) {
        ExitStatus::Success
    } else {
        let s: u8 = match c.semantic {
            Ordering::Less => 0,
            Ordering::Equal => 1,
            Ordering::Greater => 2,
        };
        let l: u8 = match c.lexical {
            Ordering::Less => 0,
            Ordering::Equal => 1,
            Ordering::Greater => 2,
        };
        ExitStatus::Code(100 + 10 * s + l)
    }
}

/// Comparison of two natural numbers.
pub open spec fn cmp_nat(a: nat, b: nat) -> Ordering {
    if a < b {
        Ordering::Less
    } else if a > b {
        Ordering::Greater
    } else {
        Ordering::Equal
    }
}

/// Byte-wise lexicographic order: the first differing byte decides; a
/// proper prefix is less.
pub open spec fn lex_bytes(a: Seq<u8>, b: Seq<u8>) -> Ordering
    decreases a.len(),
{
    if a.len() == 0 && b.len() == 0 {
        Ordering::Equal
    } else if a.len() == 0 {
        Ordering::Less
    } else if b.len() == 0 {
        Ordering::Greater
    } else if a[0] < b[0] {
        Ordering::Less
    } else if a[0] > b[0] {
        Ordering::Greater
    } else {
        lex_bytes(a.drop_first(), b.drop_first())
    }
}

/// SemVer precedence of two pre-release identifiers: numeric before
/// alphanumeric, numeric by value, alphanumeric as plain text.
pub open spec fn cmp_pre_ident(a: Seq<u8>, b: Seq<u8>) -> Ordering {
    if all_digits(a) && all_digits(b) {
        cmp_nat(num_val(a), num_val(b))
    } else if all_digits(a) {
        Ordering::Less
    } else if all_digits(b) {
        Ordering::Greater
    } else {
        lex_bytes(a, b)
    }
}

/// SemVer precedence of two pre-release identifier sequences: compare
/// element-wise; a proper prefix is less.
pub open spec fn cmp_pre_seq(a: Seq<Seq<u8>>, b: Seq<Seq<u8>>) -> Ordering
    decreases a.len(),
{
    if a.len() == 0 && b.len() == 0 {
        Ordering::Equal
    } else if a.len() == 0 {
        Ordering::Less
    } else if b.len() == 0 {
        Ordering::Greater
    } else {
        match cmp_pre_ident(a[0], b[0]) {
            Ordering::Equal => cmp_pre_seq(a.drop_first(), b.drop_first()),
            o => o,
        }
    }
}

/// SemVer precedence: major, minor, patch numerically; then a release
/// outranks any pre-release of the same core; then the pre-release
/// identifier sequences. Build metadata never participates.
pub open spec fn semantic_cmp(a: VersionView, b: VersionView) -> Ordering {
    if a.major != b.major {
        cmp_nat(a.major, b.major)
    } else if a.minor != b.minor {
        cmp_nat(a.minor, b.minor)
    } else if a.patch != b.patch {
        cmp_nat(a.patch, b.patch)
    } else if a.pre.len() == 0 && b.pre.len() == 0 {
        Ordering::Equal
    } else if a.pre.len() == 0 {
        Ordering::Greater
    } else if b.pre.len() == 0 {
        Ordering::Less
    } else {
        cmp_pre_seq(a.pre, b.pre)
    }
}

/// Byte-wise order of the two canonical strings, build metadata
/// included.
pub open spec fn lexical_cmp(a: VersionView, b: VersionView) -> Ordering {
    lex_bytes(canonical(a), canonical(b))
}

/// What [`compare`] returns: both axes, computed independently.
pub open spec fn compare_spec(a: VersionView, b: VersionView) -> CompositeComparison {
    CompositeComparison { semantic: semantic_cmp(a, b), lexical: lexical_cmp(a, b) }
}

pub proof fn lemma_lex_bytes_refl(a: Seq<u8>)
    ensures
        lex_bytes(a, a) == Ordering::Equal,
    decreases a.len(),
{
    if a.len() > 0 {
        lemma_lex_bytes_refl(a.drop_first());
    }
}

/// `lex_bytes` is `Equal` exactly on equal strings.
pub proof fn lemma_lex_bytes_eq(a: Seq<u8>, b: Seq<u8>)
    ensures
        (lex_bytes(a, b) == Ordering::Equal) <==> (a == b),
    decreases a.len(),
{
    if a.len() == 0 && b.len() == 0 {
        assert(a =~= b);
    } else if a.len() > 0 && b.len() > 0 {
        lemma_lex_bytes_eq(a.drop_first(), b.drop_first());
        if a[0] == b[0] && a.drop_first() == b.drop_first() {
            assert forall|i: int| 1 <= i < a.len() implies a[i] == b[i] by {
                assert(a.drop_first()[i - 1] == b.drop_first()[i - 1]);
            }
            assert(a =~= b);
        }
        if a == b {
            assert(a[0] == b[0]);
            assert(a.drop_first() =~= b.drop_first());
        }
    }
}

pub proof fn lemma_lex_bytes_antisym(a: Seq<u8>, b: Seq<u8>)
    ensures
        lex_bytes(b, a) == ord_flip(lex_bytes(a, b)),
    decreases a.len(),
{
    if a.len() > 0 && b.len() > 0 && a[0] == b[0] {
        lemma_lex_bytes_antisym(a.drop_first(), b.drop_first());
    }
}

pub proof fn lemma_lex_bytes_trans(a: Seq<u8>, b: Seq<u8>, c: Seq<u8>)
    requires
        lex_bytes(a, b) == Ordering::Less,
        lex_bytes(b, c) == Ordering::Less,
    ensures
        lex_bytes(a, c) == Ordering::Less,
    decreases a.len(),
{
    if a.len() > 0 && b.len() > 0 && c.len() > 0 && a[0] == b[0] && b[0] == c[0] {
        lemma_lex_bytes_trans(a.drop_first(), b.drop_first(), c.drop_first());
    }
}

/// On equal-length digit strings, lexicographic and numeric order
/// agree.
proof fn lemma_digits_lex_lt(a: Seq<u8>, b: Seq<u8>)
    requires
        all_digits(a),
        all_digits(b),
        a.len() == b.len(),
        lex_bytes(a, b) == Ordering::Less,
    ensures
        num_val(a) < num_val(b),
    decreases a.len(),
{
    assert(a.len() > 0);
    lemma_num_val_front(a);
    lemma_num_val_front(b);
    let adf = a.drop_first();
    let bdf = b.drop_first();
    assert(all_digits(adf) && all_digits(bdf)) by {
        assert(forall|i: int| 0 <= i < adf.len() ==> adf[i] == #[trigger] a[i + 1]);
        assert(forall|i: int| 0 <= i < bdf.len() ==> bdf[i] == #[trigger] b[i + 1]);
    }
    let p = pow10((a.len() - 1) as nat);
    if a[0] < b[0] {
        lemma_num_val_upper(adf);
        assert(num_val(a) == (a[0] - ZERO) as nat * p + num_val(adf));
        assert(num_val(b) >= (b[0] - ZERO) as nat * p);
        assert((a[0] - ZERO) as nat * p + p <= (b[0] - ZERO) as nat * p) by (nonlinear_arith)
            requires
                (a[0] - ZERO) as nat + 1 <= (b[0] - ZERO) as nat,
                p >= 0,
        ;
    } else {
        lemma_digits_lex_lt(adf, bdf);
    }
}

/// A shorter numeral is numerically smaller than a longer one with a
/// non-zero leading digit.
proof fn lemma_digits_len_lt(a: Seq<u8>, b: Seq<u8>)
    requires
        all_digits(a),
        all_digits(b),
        b.len() > a.len(),
        b.len() > 0,
        b[0] != ZERO,
    ensures
        num_val(a) < num_val(b),
{
    lemma_num_val_upper(a);
    lemma_num_val_lower(b);
    lemma_pow10_mono(a.len(), (b.len() - 1) as nat);
}

/// For well-formed numeric pre-release identifiers, numeric order is
/// length order, then byte order.
proof fn lemma_numeric_ident_order(a: Seq<u8>, b: Seq<u8>)
    requires
        is_pre_ident(a),
        is_pre_ident(b),
        all_digits(a),
        all_digits(b),
    ensures
        cmp_nat(num_val(a), num_val(b)) == (if a.len() < b.len() {
            Ordering::Less
        } else if b.len() < a.len() {
            Ordering::Greater
        } else {
            lex_bytes(a, b)
        }),
{
    if a.len() < b.len() {
        assert(b[0] != ZERO);
        lemma_digits_len_lt(a, b);
    } else if b.len() < a.len() {
        assert(a[0] != ZERO);
        lemma_digits_len_lt(b, a);
    } else {
        lemma_lex_bytes_eq(a, b);
        match lex_bytes(a, b) {
            Ordering::Less => {
                lemma_digits_lex_lt(a, b);
            },
            Ordering::Greater => {
                lemma_lex_bytes_antisym(a, b);
                lemma_digits_lex_lt(b, a);
            },
            Ordering::Equal => {},
        }
    }
}

pub proof fn lemma_cmp_pre_ident_refl(a: Seq<u8>)
    ensures
        cmp_pre_ident(a, a) == Ordering::Equal,
{
    if !all_digits(a) {
        lemma_lex_bytes_refl(a);
    }
}

/// On well-formed identifiers, `cmp_pre_ident` is `Equal` exactly on
/// equal identifiers.
pub proof fn lemma_cmp_pre_ident_eq(a: Seq<u8>, b: Seq<u8>)
    requires
        is_pre_ident(a),
        is_pre_ident(b),
    ensures
        (cmp_pre_ident(a, b) == Ordering::Equal) <==> (a == b),
{
    if all_digits(a) && all_digits(b) {
        if num_val(a) == num_val(b) {
            assert(is_numeral(a));
            assert(is_numeral(b));
            lemma_dec_digits_num_val(a);
            lemma_dec_digits_num_val(b);
        }
    } else if all_digits(a) || all_digits(b) {
    } else {
        lemma_lex_bytes_eq(a, b);
    }
}

pub proof fn lemma_cmp_pre_ident_antisym(a: Seq<u8>, b: Seq<u8>)
    ensures
        cmp_pre_ident(b, a) == ord_flip(cmp_pre_ident(a, b)),
{
    if !all_digits(a) && !all_digits(b) {
        lemma_lex_bytes_antisym(a, b);
    }
}

pub proof fn lemma_cmp_pre_ident_trans(a: Seq<u8>, b: Seq<u8>, c: Seq<u8>)
    requires
        cmp_pre_ident(a, b) == Ordering::Less,
        cmp_pre_ident(b, c) == Ordering::Less,
    ensures
        cmp_pre_ident(a, c) == Ordering::Less,
{
    if !all_digits(a) && !all_digits(b) && !all_digits(c) {
        lemma_lex_bytes_trans(a, b, c);
    }
}

pub proof fn lemma_cmp_pre_seq_refl(a: Seq<Seq<u8>>)
    ensures
        cmp_pre_seq(a, a) == Ordering::Equal,
    decreases a.len(),
{
    if a.len() > 0 {
        lemma_cmp_pre_ident_refl(a[0]);
        lemma_cmp_pre_seq_refl(a.drop_first());
    }
}

/// On well-formed identifier sequences, `cmp_pre_seq` is `Equal`
/// exactly on equal sequences.
pub proof fn lemma_cmp_pre_seq_eq(a: Seq<Seq<u8>>, b: Seq<Seq<u8>>)
    requires
        valid_pre_ids(a),
        valid_pre_ids(b),
    ensures
        (cmp_pre_seq(a, b) == Ordering::Equal) <==> (a == b),
    decreases a.len(),
{
    if a.len() == 0 && b.len() == 0 {
        assert(a =~= b);
    } else if a.len() > 0 && b.len() > 0 {
        assert(is_pre_ident(a[0]) && is_pre_ident(b[0]));
        lemma_cmp_pre_ident_eq(a[0], b[0]);
        let adf = a.drop_first();
        let bdf = b.drop_first();
        assert(valid_pre_ids(adf) && valid_pre_ids(bdf)) by {
            assert(forall|i: int| 0 <= i < adf.len() ==> adf[i] == #[trigger] a[i + 1]);
            assert(forall|i: int| 0 <= i < bdf.len() ==> bdf[i] == #[trigger] b[i + 1]);
        }
        lemma_cmp_pre_seq_eq(adf, bdf);
        if cmp_pre_ident(a[0], b[0]) == Ordering::Equal && cmp_pre_seq(adf, bdf)
            == Ordering::Equal {
            assert forall|i: int| 1 <= i < a.len() implies a[i] == b[i] by {
                assert(adf[i - 1] == bdf[i - 1]);
            }
            assert(a =~= b);
        }
        if a == b {
            assert(a[0] == b[0]);
            lemma_cmp_pre_ident_refl(a[0]);
            assert(adf =~= bdf);
        }
    } else {
        assert(a.len() != b.len());
    }
}

pub proof fn lemma_cmp_pre_seq_antisym(a: Seq<Seq<u8>>, b: Seq<Seq<u8>>)
    ensures
        cmp_pre_seq(b, a) == ord_flip(cmp_pre_seq(a, b)),
    decreases a.len(),
{
    if a.len() > 0 && b.len() > 0 {
        lemma_cmp_pre_ident_antisym(a[0], b[0]);
        lemma_cmp_pre_seq_antisym(a.drop_first(), b.drop_first());
    }
}

pub proof fn lemma_cmp_pre_seq_trans(a: Seq<Seq<u8>>, b: Seq<Seq<u8>>, c: Seq<Seq<u8>>)
    requires
        valid_pre_ids(a),
        valid_pre_ids(b),
        valid_pre_ids(c),
        cmp_pre_seq(a, b) == Ordering::Less,
        cmp_pre_seq(b, c) == Ordering::Less,
    ensures
        cmp_pre_seq(a, c) == Ordering::Less,
    decreases a.len(),
{
    assert(b.len() > 0);
    assert(c.len() > 0);
    if a.len() > 0 {
        let ha = a[0];
        let hb = b[0];
        let hc = c[0];
        assert(is_pre_ident(ha) && is_pre_ident(hb) && is_pre_ident(hc));
        lemma_cmp_pre_ident_eq(ha, hb);
        lemma_cmp_pre_ident_eq(hb, hc);
        lemma_cmp_pre_ident_eq(ha, hc);
        let adf = a.drop_first();
        let bdf = b.drop_first();
        let cdf = c.drop_first();
        assert(valid_pre_ids(adf) && valid_pre_ids(bdf) && valid_pre_ids(cdf)) by {
            assert(forall|i: int| 0 <= i < adf.len() ==> adf[i] == #[trigger] a[i + 1]);
            assert(forall|i: int| 0 <= i < bdf.len() ==> bdf[i] == #[trigger] b[i + 1]);
            assert(forall|i: int| 0 <= i < cdf.len() ==> cdf[i] == #[trigger] c[i + 1]);
        }
        match (cmp_pre_ident(ha, hb), cmp_pre_ident(hb, hc)) {
            (Ordering::Less, Ordering::Less) => {
                lemma_cmp_pre_ident_trans(ha, hb, hc);
            },
            (Ordering::Less, Ordering::Equal) => {
                assert(hb == hc);
            },
            (Ordering::Equal, Ordering::Less) => {
                assert(ha == hb);
            },
            (Ordering::Equal, Ordering::Equal) => {
                assert(ha == hb && hb == hc);
                lemma_cmp_pre_ident_refl(ha);
                lemma_cmp_pre_seq_trans(adf, bdf, cdf);
            },
            _ => {
                assert(false);
            },
        }
    }
}

/// The semantic axis looks only at the numeric components and the
/// pre-release identifiers.
proof fn lemma_semantic_same_key(a: VersionView, a2: VersionView, c: VersionView)
    requires
        a.major == a2.major,
        a.minor == a2.minor,
        a.patch == a2.patch,
        a.pre == a2.pre,
    ensures
        semantic_cmp(a, c) == semantic_cmp(a2, c),
        semantic_cmp(c, a) == semantic_cmp(c, a2),
{
}

/// The semantic axis is reflexive, on both axes: `compare(a, a)` is
/// `Equal` semantically and lexically.
pub proof fn lemma_compare_self(a: VersionView)
    ensures
        semantic_cmp(a, a) == Ordering::Equal,
        lexical_cmp(a, a) == Ordering::Equal,
        compare_spec(a, a) == (CompositeComparison {
            semantic: Ordering::Equal,
            lexical: Ordering::Equal,
        }),
{
    lemma_cmp_pre_seq_refl(a.pre);
    lemma_lex_bytes_refl(canonical(a));
}

/// The semantic axis is antisymmetric: swapping the arguments flips
/// the outcome. So is the lexical axis.
pub proof fn lemma_compare_antisymmetric(a: VersionView, b: VersionView)
    ensures
        semantic_cmp(b, a) == ord_flip(semantic_cmp(a, b)),
        lexical_cmp(b, a) == ord_flip(lexical_cmp(a, b)),
{
    lemma_cmp_pre_seq_antisym(a.pre, b.pre);
    lemma_lex_bytes_antisym(canonical(a), canonical(b));
}

/// Two valid versions are semantically `Equal` exactly when they agree
/// on everything but build metadata.
pub proof fn lemma_semantic_eq(a: VersionView, b: VersionView)
    requires
        valid_version(a),
        valid_version(b),
    ensures
        (semantic_cmp(a, b) == Ordering::Equal) <==> (a.major == b.major && a.minor == b.minor
            && a.patch == b.patch && a.pre == b.pre),
{
    lemma_cmp_pre_seq_eq(a.pre, b.pre);
    if a.pre.len() == 0 && b.pre.len() == 0 {
        assert(a.pre =~= b.pre);
    }
}

/// The semantic axis is transitive, both strictly and with equalities
/// mixed in.
pub proof fn lemma_semantic_transitive(a: VersionView, b: VersionView, c: VersionView)
    requires
        valid_version(a),
        valid_version(b),
        valid_version(c),
    ensures
        semantic_cmp(a, b) == Ordering::Less && semantic_cmp(b, c) == Ordering::Less
            ==> semantic_cmp(a, c) == Ordering::Less,
        semantic_cmp(a, b) == Ordering::Less && semantic_cmp(b, c) == Ordering::Equal
            ==> semantic_cmp(a, c) == Ordering::Less,
        semantic_cmp(a, b) == Ordering::Equal && semantic_cmp(b, c) == Ordering::Less
            ==> semantic_cmp(a, c) == Ordering::Less,
        semantic_cmp(a, b) == Ordering::Equal && semantic_cmp(b, c) == Ordering::Equal
            ==> semantic_cmp(a, c) == Ordering::Equal,
{
    lemma_semantic_eq(a, b);
    lemma_semantic_eq(b, c);
    lemma_semantic_eq(a, c);
    if semantic_cmp(a, b) == Ordering::Equal {
        lemma_semantic_same_key(b, a, c);
    }
    if semantic_cmp(b, c) == Ordering::Equal {
        lemma_semantic_same_key(b, c, a);
        lemma_compare_antisymmetric(a, b);
        lemma_compare_antisymmetric(a, c);
    }
    if semantic_cmp(a, b) == Ordering::Less && semantic_cmp(b, c) == Ordering::Less {
        if a.major == b.major && b.major == c.major && a.minor == b.minor && b.minor == c.minor
            && a.patch == b.patch && b.patch == c.patch {
            if a.pre.len() > 0 && b.pre.len() > 0 && c.pre.len() > 0 {
                lemma_cmp_pre_seq_trans(a.pre, b.pre, c.pre);
            }
        }
    }
}

/// The lexical axis is transitive.
pub proof fn lemma_lexical_transitive(a: VersionView, b: VersionView, c: VersionView)
    requires
        lexical_cmp(a, b) == Ordering::Less,
        lexical_cmp(b, c) == Ordering::Less,
    ensures
        lexical_cmp(a, c) == Ordering::Less,
{
    lemma_lex_bytes_trans(canonical(a), canonical(b), canonical(c));
}

/// Two valid versions are lexically `Equal` exactly when they are the
/// same version.
pub proof fn lemma_lexical_eq(a: VersionView, b: VersionView)
    requires
        valid_version(a),
        valid_version(b),
    ensures
        (lexical_cmp(a, b) == Ordering::Equal) <==> (a == b),
{
    lemma_lex_bytes_eq(canonical(a), canonical(b));
    if canonical(a) == canonical(b) {
        lemma_canonical_injective(a, b);
    }
}

/// Comparison of two 64-bit numbers.
fn cmp_u64(a: u64, b: u64) -> (r: Ordering)
    ensures
        r == cmp_nat(a as nat, b as nat),
{
    if a < b {
        Ordering::Less
    } else if a > b {
        Ordering::Greater
    } else {
        Ordering::Equal
    }
}

/// Byte-wise lexicographic comparison.
pub fn lex_bytes_exec(a: &Vec<u8>, b: &Vec<u8>) -> (r: Ordering)
    ensures
        r == lex_bytes(a@, b@),
{
    let mut i: usize = 0;
    let alen = a.len();
    let blen = b.len();
    proof {
        assert(a@.skip(0) =~= a@);
        assert(b@.skip(0) =~= b@);
    }
    while i < alen && i < blen
        invariant
            i <= a@.len(),
            i <= b@.len(),
            alen == a@.len(),
            blen == b@.len(),
            lex_bytes(a@, b@) == lex_bytes(a@.skip(i as int), b@.skip(i as int)),
        decreases a@.len() - i,
    {
        let x = a[i];
        let y = b[i];
        proof {
            assert(a@.skip(i as int)[0] == a@[i as int]);
            assert(b@.skip(i as int)[0] == b@[i as int]);
        }
        if x < y {
            return Ordering::Less;
        }
        if x > y {
            return Ordering::Greater;
        }
        proof {
            assert(a@.skip(i as int).drop_first() =~= a@.skip(i as int + 1));
            assert(b@.skip(i as int).drop_first() =~= b@.skip(i as int + 1));
        }
        i = i + 1;
    }
    proof {
        if i == a@.len() {
            assert(a@.skip(i as int) =~= Seq::<u8>::empty());
        }
        if i == b@.len() {
            assert(b@.skip(i as int) =~= Seq::<u8>::empty());
        }
    }
    if alen < blen {
        Ordering::Less
    } else if alen > blen {
        Ordering::Greater
    } else {
        Ordering::Equal
    }
}

/// SemVer precedence of two well-formed pre-release identifiers.
fn cmp_pre_ident_exec(a: &Vec<u8>, b: &Vec<u8>) -> (r: Ordering)
    requires
        is_pre_ident(a@),
        is_pre_ident(b@),
    ensures
        r == cmp_pre_ident(a@, b@),
{
    let ad = check_all_digits(a);
    let bd = check_all_digits(b);
    if ad && bd {
        proof {
            lemma_numeric_ident_order(a@, b@);
        }
        if a.len() < b.len() {
            Ordering::Less
        } else if b.len() < a.len() {
            Ordering::Greater
        } else {
            lex_bytes_exec(a, b)
        }
    } else if ad {
        Ordering::Less
    } else if bd {
        Ordering::Greater
    } else {
        lex_bytes_exec(a, b)
    }
}

/// SemVer precedence of two well-formed identifier sequences.
fn cmp_pre_seq_exec(a: &Vec<Vec<u8>>, b: &Vec<Vec<u8>>) -> (r: Ordering)
    requires
        valid_pre_ids(views_of(a@)),
        valid_pre_ids(views_of(b@)),
    ensures
        r == cmp_pre_seq(views_of(a@), views_of(b@)),
{
    let ghost va = views_of(a@);
    let ghost vb = views_of(b@);
    let mut i: usize = 0;
    let alen = a.len();
    let blen = b.len();
    proof {
        assert(va.skip(0) =~= va);
        assert(vb.skip(0) =~= vb);
    }
    while i < alen && i < blen
        invariant
            i <= va.len(),
            i <= vb.len(),
            alen == va.len(),
            blen == vb.len(),
            va == views_of(a@),
            vb == views_of(b@),
            valid_pre_ids(va),
            valid_pre_ids(vb),
            cmp_pre_seq(va, vb) == cmp_pre_seq(va.skip(i as int), vb.skip(i as int)),
        decreases va.len() - i,
    {
        proof {
            assert(va.skip(i as int)[0] == va[i as int]);
            assert(vb.skip(i as int)[0] == vb[i as int]);
            assert(is_pre_ident(a@[i as int]@));
            assert(is_pre_ident(b@[i as int]@));
        }
        let o = cmp_pre_ident_exec(&a[i], &b[i]);
        match o {
            Ordering::Equal => {
                proof {
                    assert(va.skip(i as int).drop_first() =~= va.skip(i as int + 1));
                    assert(vb.skip(i as int).drop_first() =~= vb.skip(i as int + 1));
                }
                i = i + 1;
            },
            other => {
                return other;
            },
        }
    }
    proof {
        if i == va.len() {
            assert(va.skip(i as int) =~= Seq::<Seq<u8>>::empty());
        }
        if i == vb.len() {
            assert(vb.skip(i as int) =~= Seq::<Seq<u8>>::empty());
        }
    }
    if alen < blen {
        Ordering::Less
    } else if alen > blen {
        Ordering::Greater
    } else {
        Ordering::Equal
    }
}

/// The semantic axis: SemVer precedence of two versions.
pub fn semantic_compare(a: &Version, b: &Version) -> (r: Ordering)
    requires
        a.wf(),
        b.wf(),
    ensures
        r == semantic_cmp(a@, b@),
{
    if a.major != b.major {
        return cmp_u64(a.major, b.major);
    }
    if a.minor != b.minor {
        return cmp_u64(a.minor, b.minor);
    }
    if a.patch != b.patch {
        return cmp_u64(a.patch, b.patch);
    }
    let apre = a.pre.len();
    let bpre = b.pre.len();
    if apre == 0 && bpre == 0 {
        Ordering::Equal
    } else if apre == 0 {
        Ordering::Greater
    } else if bpre == 0 {
        Ordering::Less
    } else {
        cmp_pre_seq_exec(&a.pre, &b.pre)
    }
}

/// The lexical axis: byte-wise order of the canonical strings.
pub fn lexical_compare(a: &Version, b: &Version) -> (r: Ordering)
    ensures
        r == lexical_cmp(a@, b@),
{
    let ca = a.to_canonical_bytes();
    let cb = b.to_canonical_bytes();
    lex_bytes_exec(&ca, &cb)
}

/// The composite comparison of two versions: both axes at once. Pure,
/// deterministic and total.
pub fn compare(a: &Version, b: &Version) -> (r: CompositeComparison)
    requires
        a.wf(),
        b.wf(),
    ensures
        r == compare_spec(a@, b@),
{
    CompositeComparison { semantic: semantic_compare(a, b), lexical: lexical_compare(a, b) }
}

} // verus!
