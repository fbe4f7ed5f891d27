//! The SemVer version model: the mathematical version value, its grammar,
//! its canonical string form, and the proof that parsing and printing are
//! mutually inverse.

use vstd::prelude::*;
use vstd::string::StrSliceExecFns;
use vstd::string::StringSliceAdditionalSpecFns;
use crate::text::{
    DOT, HYPHEN, PLUS, ZERO, all_digits, ascii_bytes_to_string, copy_bytes, dec_digits,
    find_byte, find_byte_vec, is_digit, is_ident_byte, is_numeral, join_dots,
    lemma_dec_digits_num_val, lemma_dec_digits_wf, lemma_find_byte, lemma_find_byte_absent,
    lemma_find_byte_concat, lemma_join_dots_push, lemma_join_split_dots, lemma_join_three,
    lemma_num_val_dec_digits, lemma_num_val_prefix_monotone, lemma_num_val_take_all,
    lemma_split_dots_len, lemma_split_join_dots, lemma_text_chars_ascii, no_dot, num_val,
    render_numeral, split_dots, split_dots_vec, subrange_vec, text_chars, views_of,
};

verus! {

/// The mathematical value of a version: three numeric components, a
/// possibly empty sequence of pre-release identifiers and a possibly
/// empty sequence of build-metadata identifiers, each identifier given
/// by its bytes.
#[verifier::ext_equal]
pub ghost struct VersionView {
    pub major: nat,
    pub minor: nat,
    pub patch: nat,
    pub pre: Seq<Seq<u8>>,
    pub build: Seq<Seq<u8>>,
}

/// A build-metadata identifier: non-empty, alphanumeric-or-hyphen bytes.
/// Leading zeros are permitted here.
pub open spec fn is_build_ident(s: Seq<u8>) -> bool {
    &&& s.len() > 0
    &&& forall|i: int| 0 <= i < s.len() ==> is_ident_byte(#[trigger] s[i])
}

/// A pre-release identifier: as [`is_build_ident`], but an all-digit
/// identifier must not have a leading zero unless it is exactly `0`.
pub open spec fn is_pre_ident(s: Seq<u8>) -> bool {
    &&& is_build_ident(s)
    &&& (all_digits(s) && s[0] == ZERO ==> s.len() == 1)
}

/// A numeral acceptable as major, minor or patch: well formed and
/// within the unsigned 64-bit range.
pub open spec fn is_core_numeral(s: Seq<u8>) -> bool {
    &&& is_numeral(s)
    &&& num_val(s) <= u64::MAX
}

pub open spec fn valid_pre_ids(ids: Seq<Seq<u8>>) -> bool {
    forall|i: int| 0 <= i < ids.len() ==> is_pre_ident(#[trigger] ids[i])
}

pub open spec fn valid_build_ids(ids: Seq<Seq<u8>>) -> bool {
    forall|i: int| 0 <= i < ids.len() ==> is_build_ident(#[trigger] ids[i])
}

/// A version value the grammar can denote: numeric components fit in
/// 64 bits and every identifier is well formed.
pub open spec fn valid_version(v: VersionView) -> bool {
    &&& v.major <= u64::MAX
    &&& v.minor <= u64::MAX
    &&& v.patch <= u64::MAX
    &&& valid_pre_ids(v.pre)
    &&& valid_build_ids(v.build)
}

/// `major.minor.patch` as text.
pub open spec fn core_text(v: VersionView) -> Seq<u8> {
    join_dots(seq![dec_digits(v.major), dec_digits(v.minor), dec_digits(v.patch)])
}

/// `-pre.release` if any pre-release identifiers are present.
pub open spec fn pre_text(v: VersionView) -> Seq<u8> {
    if v.pre.len() > 0 {
        seq![HYPHEN] + join_dots(v.pre)
    } else {
        Seq::empty()
    }
}

/// `+build.metadata` if any build identifiers are present.
pub open spec fn build_text(v: VersionView) -> Seq<u8> {
    if v.build.len() > 0 {
        seq![PLUS] + join_dots(v.build)
    } else {
        Seq::empty()
    }
}

/// The canonical string form `major.minor.patch[-pre][+build]`.
pub open spec fn canonical(v: VersionView) -> Seq<u8> {
    core_text(v) + pre_text(v) + build_text(v)
}

/// The version denoted by `s`, or `None` when `s` does not match the
/// SemVer grammar. The first `+` separates the build metadata; the
/// first `-` before it separates the pre-release part; what remains
/// must be exactly three dot-separated 64-bit numerals.
pub open spec fn parse_spec(s: Seq<u8>) -> Option<VersionView> {
    let (vpart, build_ids) = match find_byte(s, PLUS) {
        Some(i) => (s.take(i), split_dots(s.skip(i + 1))),
        None => (s, Seq::<Seq<u8>>::empty()),
    };
    let (core, pre_ids) = match find_byte(vpart, HYPHEN) {
        Some(i) => (vpart.take(i), split_dots(vpart.skip(i + 1))),
        None => (vpart, Seq::<Seq<u8>>::empty()),
    };
    let comps = split_dots(core);
    if comps.len() == 3 && is_core_numeral(comps[0]) && is_core_numeral(comps[1])
        && is_core_numeral(comps[2]) && valid_pre_ids(pre_ids) && valid_build_ids(build_ids) {
        Some(
            VersionView {
                major: num_val(comps[0]),
                minor: num_val(comps[1]),
                patch: num_val(comps[2]),
                pre: pre_ids,
                build: build_ids,
            },
        )
    } else {
        None
    }
}

/// `s` matches the SemVer grammar.
pub open spec fn is_valid_text(s: Seq<u8>) -> bool {
    parse_spec(s) is Some
}

/// Every byte of the text of a sequence of identifiers is an identifier
/// byte or a dot.
proof fn lemma_join_dots_alphabet(ids: Seq<Seq<u8>>)
    requires
        forall|i: int| 0 <= i < ids.len() ==> is_build_ident(#[trigger] ids[i]),
    ensures
        forall|j: int|
            0 <= j < join_dots(ids).len() ==> is_ident_byte(#[trigger] join_dots(ids)[j])
                || join_dots(ids)[j] == DOT,
    decreases ids.len(),
{
    if ids.len() <= 1 {
    } else {
        lemma_join_dots_alphabet(ids.drop_first());
        let head = ids[0];
        let rest = join_dots(ids.drop_first());
        let whole = join_dots(ids);
        assert(whole == head + seq![DOT] + rest);
        assert forall|j: int| 0 <= j < whole.len() implies is_ident_byte(#[trigger] whole[j])
            || whole[j] == DOT by {
            if j < head.len() {
                assert(whole[j] == head[j]);
            } else if j == head.len() {
                assert(whole[j] == DOT);
            } else {
                assert(whole[j] == rest[j - head.len() - 1]);
            }
        }
    }
}

/// Every byte of the core text is a digit or a dot.
proof fn lemma_core_text_alphabet(v: VersionView)
    ensures
        forall|j: int|
            0 <= j < core_text(v).len() ==> is_digit(#[trigger] core_text(v)[j])
                || core_text(v)[j] == DOT,
{
    lemma_dec_digits_wf(v.major);
    lemma_dec_digits_wf(v.minor);
    lemma_dec_digits_wf(v.patch);
    let a = dec_digits(v.major);
    let b = dec_digits(v.minor);
    let c = dec_digits(v.patch);
    lemma_join_three(a, b, c);
    let whole = core_text(v);
    assert(whole == a + seq![DOT] + b + seq![DOT] + c);
    assert forall|j: int| 0 <= j < whole.len() implies is_digit(#[trigger] whole[j])
        || whole[j] == DOT by {
        if j < a.len() {
            assert(whole[j] == a[j]);
        } else if j == a.len() {
            assert(whole[j] == DOT);
        } else if j < a.len() + 1 + b.len() {
            assert(whole[j] == b[j - a.len() - 1]);
        } else if j == a.len() + 1 + b.len() {
            assert(whole[j] == DOT);
        } else {
            assert(whole[j] == c[j - a.len() - 1 - b.len() - 1]);
        }
    }
}

/// The canonical form of a valid version is pure ASCII.
pub proof fn lemma_canonical_ascii(v: VersionView)
    requires
        valid_version(v),
    ensures
        forall|j: int| 0 <= j < canonical(v).len() ==> #[trigger] canonical(v)[j] < 128,
{
    lemma_core_text_alphabet(v);
    lemma_join_dots_alphabet(v.pre);
    lemma_join_dots_alphabet(v.build);
    let s = canonical(v);
    let ct = core_text(v);
    let pt = pre_text(v);
    let bt = build_text(v);
    assert forall|j: int| 0 <= j < s.len() implies #[trigger] s[j] < 128 by {
        if j < ct.len() {
            assert(s[j] == ct[j]);
        } else if j < ct.len() + pt.len() {
            assert(s[j] == pt[j - ct.len()]);
            if j > ct.len() {
                assert(pt[j - ct.len()] == join_dots(v.pre)[j - ct.len() - 1]);
            }
        } else {
            assert(s[j] == bt[j - ct.len() - pt.len()]);
            if j > ct.len() + pt.len() {
                assert(bt[j - ct.len() - pt.len()] == join_dots(v.build)[j - ct.len() - pt.len()
                    - 1]);
            }
        }
    }
}

/// Parsing the canonical form of a valid version gives the version
/// back: the printer is a right inverse of the parser.
pub proof fn lemma_parse_canonical(v: VersionView)
    requires
        valid_version(v),
    ensures
        parse_spec(canonical(v)) == Some(v),
{
    lemma_dec_digits_wf(v.major);
    lemma_dec_digits_wf(v.minor);
    lemma_dec_digits_wf(v.patch);
    lemma_core_text_alphabet(v);
    lemma_join_dots_alphabet(v.pre);
    lemma_join_dots_alphabet(v.build);
    let s = canonical(v);
    let ct = core_text(v);
    let vpart_expect = ct + pre_text(v);

    // The first `+`, if any, stands right before the build metadata.
    assert(forall|j: int| 0 <= j < ct.len() ==> #[trigger] ct[j] != PLUS && ct[j] != HYPHEN);
    assert(forall|j: int| 0 <= j < vpart_expect.len() ==> #[trigger] vpart_expect[j] != PLUS) by {
        assert forall|j: int| 0 <= j < vpart_expect.len() implies #[trigger] vpart_expect[j]
            != PLUS by {
            if j < ct.len() {
                assert(vpart_expect[j] == ct[j]);
            } else {
                assert(vpart_expect[j] == pre_text(v)[j - ct.len()]);
                if j > ct.len() {
                    assert(pre_text(v)[j - ct.len()] == join_dots(v.pre)[j - ct.len() - 1]);
                }
            }
        }
    }
    let vpart = if v.build.len() > 0 {
        lemma_find_byte_concat(vpart_expect, PLUS, join_dots(v.build));
        assert(s =~= vpart_expect + seq![PLUS] + join_dots(v.build));
        let i = find_byte(s, PLUS)->Some_0;
        assert(i == vpart_expect.len());
        assert(s.take(i) == vpart_expect);
        assert(s.skip(i + 1) == join_dots(v.build));
        lemma_split_join_dots_ids(v.build);
        vpart_expect
    } else {
        assert(s =~= vpart_expect);
        lemma_find_byte_absent(s, PLUS);
        vpart_expect
    };

    // The first `-` in what remains, if any, stands right before the
    // pre-release identifiers.
    if v.pre.len() > 0 {
        lemma_find_byte_concat(ct, HYPHEN, join_dots(v.pre));
        assert(vpart =~= ct + seq![HYPHEN] + join_dots(v.pre));
        let i = find_byte(vpart, HYPHEN)->Some_0;
        assert(i == ct.len());
        assert(vpart.take(i) == ct);
        assert(vpart.skip(i + 1) == join_dots(v.pre));
        lemma_split_join_dots_ids(v.pre);
    } else {
        assert(vpart =~= ct);
        lemma_find_byte_absent(vpart, HYPHEN);
    }

    // The core splits into the three numerals.
    let nums = seq![dec_digits(v.major), dec_digits(v.minor), dec_digits(v.patch)];
    assert(forall|i: int| 0 <= i < nums.len() ==> no_dot(#[trigger] nums[i]));
    lemma_split_join_dots(nums);
    assert(split_dots(ct) == nums);
    lemma_num_val_dec_digits(v.major);
    lemma_num_val_dec_digits(v.minor);
    lemma_num_val_dec_digits(v.patch);

    let parsed = parse_spec(s);
    assert(parsed is Some);
    assert(parsed->Some_0 =~= v);
}

/// Identifier sequences are non-empty, dot-free components, so their
/// join splits back into them.
proof fn lemma_split_join_dots_ids(ids: Seq<Seq<u8>>)
    requires
        ids.len() >= 1,
        forall|i: int| 0 <= i < ids.len() ==> is_build_ident(#[trigger] ids[i]),
    ensures
        split_dots(join_dots(ids)) == ids,
{
    assert forall|i: int| 0 <= i < ids.len() implies no_dot(#[trigger] ids[i]) by {
        assert(is_build_ident(ids[i]));
    }
    lemma_split_join_dots(ids);
}

/// A successful parse yields a valid version whose canonical form is
/// the input itself: the parser is a right inverse of the printer, and
/// every accepted string is already canonical.
pub proof fn lemma_canonical_parse(s: Seq<u8>, v: VersionView)
    requires
        parse_spec(s) == Some(v),
    ensures
        valid_version(v),
        canonical(v) == s,
{
    let (vpart, build_ids) = match find_byte(s, PLUS) {
        Some(i) => (s.take(i), split_dots(s.skip(i + 1))),
        None => (s, Seq::<Seq<u8>>::empty()),
    };
    let (core, pre_ids) = match find_byte(vpart, HYPHEN) {
        Some(i) => (vpart.take(i), split_dots(vpart.skip(i + 1))),
        None => (vpart, Seq::<Seq<u8>>::empty()),
    };
    let comps = split_dots(core);
    assert(comps.len() == 3 && is_core_numeral(comps[0]) && is_core_numeral(comps[1])
        && is_core_numeral(comps[2]) && valid_pre_ids(pre_ids) && valid_build_ids(build_ids));

    // The three numerals print back to the core.
    lemma_dec_digits_num_val(comps[0]);
    lemma_dec_digits_num_val(comps[1]);
    lemma_dec_digits_num_val(comps[2]);
    lemma_join_split_dots(core);
    assert(core_text(v) == join_dots(comps)) by {
        assert(seq![dec_digits(v.major), dec_digits(v.minor), dec_digits(v.patch)] =~= comps);
    }
    assert(core_text(v) == core);

    // The pre-release identifiers print back to the pre-release part.
    if find_byte(vpart, HYPHEN) is Some {
        let i = find_byte(vpart, HYPHEN)->Some_0;
        lemma_find_byte(vpart, HYPHEN);
        lemma_join_split_dots(vpart.skip(i + 1));
        lemma_split_dots_len(vpart.skip(i + 1));
        assert(v.pre.len() > 0);
        assert(pre_text(v) == seq![HYPHEN] + vpart.skip(i + 1));
        assert(core_text(v) + pre_text(v) =~= vpart);
    } else {
        assert(v.pre.len() == 0);
        assert(core_text(v) + pre_text(v) =~= vpart);
    }

    // The build identifiers print back to the build part.
    if find_byte(s, PLUS) is Some {
        let i = find_byte(s, PLUS)->Some_0;
        lemma_find_byte(s, PLUS);
        lemma_join_split_dots(s.skip(i + 1));
        lemma_split_dots_len(s.skip(i + 1));
        assert(v.build.len() > 0);
        assert(build_text(v) == seq![PLUS] + s.skip(i + 1));
        assert(vpart + build_text(v) =~= s);
    } else {
        assert(v.build.len() == 0);
        assert(vpart + build_text(v) =~= s);
    }
    assert(canonical(v) =~= s);
}

/// Two valid versions with the same canonical form are the same
/// version: the canonical form is injective.
pub proof fn lemma_canonical_injective(a: VersionView, b: VersionView)
    requires
        valid_version(a),
        valid_version(b),
        canonical(a) == canonical(b),
    ensures
        a == b,
{
    lemma_parse_canonical(a);
    lemma_parse_canonical(b);
}

/// The input on which a parse failed did not match the grammar.
#[derive(Clone, Copy, Debug, PartialEq, Eq, Structural)]
pub struct ParseError;

/// An immutable SemVer value. `pre` and `build` hold the bytes of each
/// dot-separated identifier. [`copy_version`] duplicates a value with
/// a contract; [`parse`] is the only constructor that validates.
#[derive(Debug, PartialEq, Eq)]
pub struct Version {
    pub major: u64,
    pub minor: u64,
    pub patch: u64,
    pub pre: Vec<Vec<u8>>,
    pub build: Vec<Vec<u8>>,
}

impl View for Version {
    type V = VersionView;

    open spec fn view(&self) -> VersionView {
        VersionView {
            major: self.major as nat,
            minor: self.minor as nat,
            patch: self.patch as nat,
            pre: views_of(self.pre@),
            build: views_of(self.build@),
        }
    }
}

impl Version {
    /// The identifiers are well formed; the numeric components fit by
    /// construction.
    pub open spec fn wf(&self) -> bool {
        valid_version(self@)
    }
}

/// A well-formed 64-bit numeral's value, or `None` when `s` is not one.
pub(crate) fn parse_numeral(s: &Vec<u8>) -> (r: Option<u64>)
    ensures
        match r {
            Some(n) => is_core_numeral(s@) && n as nat == num_val(s@),
            None => !is_core_numeral(s@),
        },
{
    if s.len() == 0 {
        return None;
    }
    if s.len() > 1 && s[0] == ZERO {
        return None;
    }
    let mut acc: u64 = 0;
    let mut i: usize = 0;
    while i < s.len()
        invariant
            i <= s@.len(),
            s@.len() > 0,
            s@[0] == ZERO ==> s@.len() == 1,
            forall|j: int| 0 <= j < i ==> is_digit(#[trigger] s@[j]),
            acc as nat == num_val(s@.take(i as int)),
        decreases s@.len() - i,
    {
        let b = s[i];
        if b < 48 || b > 57 {
            proof {
                assert(!is_digit(s@[i as int]));
            }
            return None;
        }
        let d = (b - 48) as u64;
        proof {
            assert(s@.take(i as int + 1).drop_last() =~= s@.take(i as int));
            assert(num_val(s@.take(i as int + 1)) == acc as nat * 10 + d as nat);
        }
        let next = match acc.checked_mul(10) {
            Some(x) => x.checked_add(d),
            None => None,
        };
        match next {
            Some(x) => {
                acc = x;
            },
            None => {
                proof {
                    lemma_num_val_prefix_monotone(s@, i as int + 1, s@.len() as int);
                    lemma_num_val_take_all(s@);
                    assert(num_val(s@) > u64::MAX);
                }
                return None;
            },
        }
        i = i + 1;
    }
    proof {
        lemma_num_val_take_all(s@);
        assert(is_numeral(s@));
    }
    Some(acc)
}

/// Whether `s` is a well-formed build-metadata identifier.
pub(crate) fn check_build_ident(s: &Vec<u8>) -> (r: bool)
    ensures
        r == is_build_ident(s@),
{
    if s.len() == 0 {
        return false;
    }
    let mut i: usize = 0;
    while i < s.len()
        invariant
            i <= s@.len(),
            forall|j: int| 0 <= j < i ==> is_ident_byte(#[trigger] s@[j]),
        decreases s@.len() - i,
    {
        let b = s[i];
        let ok = (48 <= b && b <= 57) || (65 <= b && b <= 90) || (97 <= b && b <= 122) || b
            == HYPHEN;
        if !ok {
            proof {
                assert(!is_ident_byte(s@[i as int]));
            }
            return false;
        }
        i = i + 1;
    }
    true
}

/// Whether every byte of `s` is a digit.
pub(crate) fn check_all_digits(s: &Vec<u8>) -> (r: bool)
    ensures
        r == all_digits(s@),
{
    let mut i: usize = 0;
    while i < s.len()
        invariant
            i <= s@.len(),
            forall|j: int| 0 <= j < i ==> is_digit(#[trigger] s@[j]),
        decreases s@.len() - i,
    {
        let b = s[i];
        if b < 48 || b > 57 {
            proof {
                assert(!is_digit(s@[i as int]));
            }
            return false;
        }
        i = i + 1;
    }
    true
}

/// Whether `s` is a well-formed pre-release identifier.
pub(crate) fn check_pre_ident(s: &Vec<u8>) -> (r: bool)
    ensures
        r == is_pre_ident(s@),
{
    if !check_build_ident(s) {
        return false;
    }
    if check_all_digits(s) && s[0] == ZERO && s.len() > 1 {
        return false;
    }
    true
}

/// Whether every identifier of `ids` is a well-formed pre-release
/// identifier.
pub(crate) fn check_pre_ids(ids: &Vec<Vec<u8>>) -> (r: bool)
    ensures
        r == valid_pre_ids(views_of(ids@)),
{
    let mut i: usize = 0;
    while i < ids.len()
        invariant
            i <= ids@.len(),
            forall|j: int| 0 <= j < i ==> is_pre_ident(#[trigger] views_of(ids@)[j]),
        decreases ids@.len() - i,
    {
        if !check_pre_ident(&ids[i]) {
            proof {
                assert(!is_pre_ident(views_of(ids@)[i as int]));
            }
            return false;
        }
        i = i + 1;
    }
    true
}

/// Whether every identifier of `ids` is a well-formed build-metadata
/// identifier.
pub(crate) fn check_build_ids(ids: &Vec<Vec<u8>>) -> (r: bool)
    ensures
        r == valid_build_ids(views_of(ids@)),
{
    let mut i: usize = 0;
    while i < ids.len()
        invariant
            i <= ids@.len(),
            forall|j: int| 0 <= j < i ==> is_build_ident(#[trigger] views_of(ids@)[j]),
        decreases ids@.len() - i,
    {
        if !check_build_ident(&ids[i]) {
            proof {
                assert(!is_build_ident(views_of(ids@)[i as int]));
            }
            return false;
        }
        i = i + 1;
    }
    true
}

/// Parse a byte string against the SemVer grammar.
pub fn parse_bytes(v: Vec<u8>) -> (r: Result<Version, ParseError>)
    ensures
        match r {
            Ok(ver) => parse_spec(v@) == Some(ver@) && ver.wf(),
            Err(_) => parse_spec(v@) is None,
        },
{
    let ghost s = v@;
    let ghost g_vpart = match find_byte(s, PLUS) {
        Some(i) => s.take(i),
        None => s,
    };
    let ghost g_build_ids = match find_byte(s, PLUS) {
        Some(i) => split_dots(s.skip(i + 1)),
        None => Seq::<Seq<u8>>::empty(),
    };

    let vlen = v.len();
    let (vpart, build_ids): (Vec<u8>, Vec<Vec<u8>>) = match find_byte_vec(&v, PLUS) {
        Some(i) => {
            proof {
                lemma_find_byte(s, PLUS);
            }
            let vp = subrange_vec(&v, 0, i);
            let bp = subrange_vec(&v, i + 1, vlen);
            proof {
                assert(vp@ =~= g_vpart);
                assert(bp@ =~= s.skip(i as int + 1));
            }
            (vp, split_dots_vec(bp))
        },
        None => (v, Vec::new()),
    };
    proof {
        assert(vpart@ == g_vpart);
        assert(views_of(build_ids@) =~= g_build_ids);
    }

    let ghost g_core = match find_byte(g_vpart, HYPHEN) {
        Some(i) => g_vpart.take(i),
        None => g_vpart,
    };
    let ghost g_pre_ids = match find_byte(g_vpart, HYPHEN) {
        Some(i) => split_dots(g_vpart.skip(i + 1)),
        None => Seq::<Seq<u8>>::empty(),
    };

    let vplen = vpart.len();
    let (core, pre_ids): (Vec<u8>, Vec<Vec<u8>>) = match find_byte_vec(&vpart, HYPHEN) {
        Some(i) => {
            proof {
                lemma_find_byte(g_vpart, HYPHEN);
            }
            let cp = subrange_vec(&vpart, 0, i);
            let pp = subrange_vec(&vpart, i + 1, vplen);
            proof {
                assert(cp@ =~= g_core);
                assert(pp@ =~= g_vpart.skip(i as int + 1));
            }
            (cp, split_dots_vec(pp))
        },
        None => (vpart, Vec::new()),
    };
    proof {
        assert(core@ == g_core);
        assert(views_of(pre_ids@) =~= g_pre_ids);
    }

    let comps = split_dots_vec(core);
    if comps.len() != 3 {
        return Err(ParseError);
    }
    let major = match parse_numeral(&comps[0]) {
        Some(n) => n,
        None => {
            return Err(ParseError);
        },
    };
    let minor = match parse_numeral(&comps[1]) {
        Some(n) => n,
        None => {
            return Err(ParseError);
        },
    };
    let patch = match parse_numeral(&comps[2]) {
        Some(n) => n,
        None => {
            return Err(ParseError);
        },
    };
    if !check_pre_ids(&pre_ids) {
        return Err(ParseError);
    }
    if !check_build_ids(&build_ids) {
        return Err(ParseError);
    }
    let ver = Version { major, minor, patch, pre: pre_ids, build: build_ids };
    proof {
        assert(views_of(comps@)[0] == comps@[0]@);
        assert(views_of(comps@)[1] == comps@[1]@);
        assert(views_of(comps@)[2] == comps@[2]@);
        assert(parse_spec(s) == Some(ver@)) by {
            assert(ver@ =~= parse_spec(s)->Some_0);
        }
        lemma_canonical_parse(s, ver@);
    }
    Ok(ver)
}

/// Parse a string against the SemVer grammar. The grammar is pure
/// ASCII, so the decision is taken on the string's byte content.
pub fn parse(s: &str) -> (r: Result<Version, ParseError>)
    ensures
        match r {
            Ok(v) => parse_spec(s.spec_bytes()) == Some(v@) && v.wf(),
            Err(_) => parse_spec(s.spec_bytes()) is None,
        },
{
    let bytes = s.as_bytes_vec();
    parse_bytes(bytes)
}

/// Append `id0.id1.....idn` to `out`.
fn append_joined(out: &mut Vec<u8>, ids: &Vec<Vec<u8>>)
    requires
        ids@.len() > 0,
    ensures
        final(out)@ == old(out)@ + join_dots(views_of(ids@)),
{
    let mut i: usize = 0;
    while i < ids.len()
        invariant
            0 < ids@.len(),
            i <= ids@.len(),
            i == 0 ==> out@ == old(out)@,
            i > 0 ==> out@ == old(out)@ + join_dots(views_of(ids@).take(i as int)),
        decreases ids@.len() - i,
    {
        let ghost prev = out@;
        if i > 0 {
            out.push(DOT);
        }
        let mut t = copy_bytes(&ids[i]);
        out.append(&mut t);
        proof {
            let vs = views_of(ids@);
            if i == 0 {
                assert(vs.take(1) =~= seq![vs[0]]);
                assert(join_dots(vs.take(1)) == vs[0]);
                assert(out@ =~= old(out)@ + join_dots(vs.take(1)));
            } else {
                lemma_join_dots_push(vs.take(i as int), vs[i as int]);
                assert(vs.take(i as int + 1) =~= vs.take(i as int).push(vs[i as int]));
                assert(out@ =~= prev.push(DOT) + ids@[i as int]@);
                assert(out@ =~= old(out)@ + (join_dots(vs.take(i as int)) + seq![DOT]
                    + vs[i as int]));
            }
        }
        i = i + 1;
    }
    proof {
        assert(views_of(ids@).take(ids@.len() as int) =~= views_of(ids@));
    }
}

impl Version {
    /// The canonical byte string `major.minor.patch[-pre][+build]`.
    pub fn to_canonical_bytes(&self) -> (r: Vec<u8>)
        ensures
            r@ == canonical(self@),
    {
        let mut out = render_numeral(self.major);
        out.push(DOT);
        let mut t = render_numeral(self.minor);
        out.append(&mut t);
        out.push(DOT);
        let mut t2 = render_numeral(self.patch);
        out.append(&mut t2);
        proof {
            lemma_join_three(
                dec_digits(self.major as nat),
                dec_digits(self.minor as nat),
                dec_digits(self.patch as nat),
            );
            assert(out@ =~= core_text(self@));
        }
        if self.pre.len() > 0 {
            out.push(HYPHEN);
            append_joined(&mut out, &self.pre);
            proof {
                assert(out@ =~= core_text(self@) + pre_text(self@));
            }
        }
        if self.build.len() > 0 {
            out.push(PLUS);
            append_joined(&mut out, &self.build);
        }
        proof {
            assert(out@ =~= canonical(self@));
        }
        out
    }

    /// The canonical string form. It is the inverse of [`parse`]: see
    /// [`lemma_canonical_parse`] and [`lemma_parse_canonical`].
    pub fn to_canonical_string(&self) -> (r: String)
        requires
            self.wf(),
        ensures
            r@ == text_chars(canonical(self@)),
            vstd::utf8::encode_utf8(r@) == canonical(self@),
            vstd::utf8::is_ascii_chars(r@),
    {
        let bytes = self.to_canonical_bytes();
        proof {
            lemma_canonical_ascii(self@);
            lemma_text_chars_ascii(canonical(self@));
        }
        ascii_bytes_to_string(bytes)
    }
}

/// Whether two byte vectors hold the same bytes.
pub(crate) fn eq_bytes(a: &Vec<u8>, b: &Vec<u8>) -> (r: bool)
    ensures
        r == (a@ == b@),
{
    if a.len() != b.len() {
        return false;
    }
    let mut i: usize = 0;
    while i < a.len()
        invariant
            a@.len() == b@.len(),
            i <= a@.len(),
            forall|j: int| 0 <= j < i ==> a@[j] == b@[j],
        decreases a@.len() - i,
    {
        if a[i] != b[i] {
            return false;
        }
        i = i + 1;
    }
    proof {
        assert(a@ =~= b@);
    }
    true
}

/// Whether two identifier sequences hold the same identifiers.
fn eq_id_vecs(x: &Vec<Vec<u8>>, y: &Vec<Vec<u8>>) -> (r: bool)
    ensures
        r == (views_of(x@) == views_of(y@)),
{
    if x.len() != y.len() {
        proof {
            assert(views_of(x@).len() != views_of(y@).len());
        }
        return false;
    }
    let mut i: usize = 0;
    while i < x.len()
        invariant
            x@.len() == y@.len(),
            i <= x@.len(),
            forall|j: int| 0 <= j < i ==> views_of(x@)[j] == views_of(y@)[j],
        decreases x@.len() - i,
    {
        if !eq_bytes(&x[i], &y[i]) {
            proof {
                assert(views_of(x@)[i as int] != views_of(y@)[i as int]);
            }
            return false;
        }
        i = i + 1;
    }
    proof {
        assert(views_of(x@) =~= views_of(y@));
    }
    true
}

/// Whether two versions are the same value (same components, same
/// identifiers — build metadata included).
pub fn eq_version(a: &Version, b: &Version) -> (r: bool)
    ensures
        r == (a@ == b@),
{
    let r = a.major == b.major && a.minor == b.minor && a.patch == b.patch && eq_id_vecs(
        &a.pre,
        &b.pre,
    ) && eq_id_vecs(&a.build, &b.build);
    proof {
        if r {
            assert(a@ =~= b@);
        }
    }
    r
}

/// Copy a sequence of identifiers.
fn copy_id_vecs(v: &Vec<Vec<u8>>) -> (r: Vec<Vec<u8>>)
    ensures
        views_of(r@) == views_of(v@),
{
    let mut out: Vec<Vec<u8>> = Vec::new();
    let mut i: usize = 0;
    while i < v.len()
        invariant
            i <= v@.len(),
            out@.len() == i,
            forall|k: int| 0 <= k < i ==> #[trigger] out@[k]@ == v@[k]@,
        decreases v@.len() - i,
    {
        out.push(copy_bytes(&v[i]));
        i = i + 1;
    }
    proof {
        assert forall|k: int| 0 <= k < v@.len() implies views_of(out@)[k] == views_of(v@)[k] by {
            assert(out@[k]@ == v@[k]@);
        }
        assert(views_of(out@) =~= views_of(v@));
    }
    out
}

/// Copy a version value.
pub fn copy_version(v: &Version) -> (r: Version)
    ensures
        r@ == v@,
{
    let pre = copy_id_vecs(&v.pre);
    let build = copy_id_vecs(&v.build);
    let r = Version { major: v.major, minor: v.minor, patch: v.patch, pre, build };
    proof {
        assert(views_of(r.pre@) =~= views_of(v.pre@));
        assert(views_of(r.build@) =~= views_of(v.build@));
        assert(r@ =~= v@);
    }
    r
}

} // verus!
