//! Byte-level text machinery for the SemVer grammar: character classes,
//! decimal numerals, splitting on separators, and byte-wise ordering.
//!
//! All specifications in this crate speak about the byte content of a
//! string (for a `&str` this is `spec_bytes()`); the grammar is pure
//! ASCII, so any string holding a byte outside the grammar's alphabet is
//! simply rejected.

use vstd::prelude::*;

verus! {

/// `.` — separates the core components and the identifiers of a
/// pre-release or build-metadata sequence.
pub const DOT: u8 = 46;

/// `-` — introduces the pre-release part; also a legal identifier byte.
pub const HYPHEN: u8 = 45;

/// `+` — introduces the build-metadata part.
pub const PLUS: u8 = 43;

/// ASCII `0`.
pub const ZERO: u8 = 48;

/// ASCII decimal digit.
pub open spec fn is_digit(b: u8) -> bool {
    48 <= b <= 57
}

/// A byte legal inside a pre-release or build-metadata identifier:
/// ASCII alphanumeric or hyphen.
pub open spec fn is_ident_byte(b: u8) -> bool {
    ||| is_digit(b)
    ||| 65 <= b <= 90
    ||| 97 <= b <= 122
    ||| b == HYPHEN
}

/// Every byte of `s` is a decimal digit.
pub open spec fn all_digits(s: Seq<u8>) -> bool {
    forall|i: int| 0 <= i < s.len() ==> is_digit(#[trigger] s[i])
}

/// The numeric value of a digit string, most significant digit first.
pub open spec fn num_val(s: Seq<u8>) -> nat
    decreases s.len(),
{
    if s.len() == 0 {
        0
    } else {
        num_val(s.drop_last()) * 10 + (s.last() - ZERO) as nat
    }
}

/// The decimal numeral of `n`: non-empty, no leading zero.
pub open spec fn dec_digits(n: nat) -> Seq<u8>
    decreases n,
{
    if n < 10 {
        seq![(ZERO + n) as u8]
    } else {
        dec_digits(n / 10).push((ZERO + n % 10) as u8)
    }
}

/// A well-formed decimal numeral: non-empty, all digits, and no leading
/// zero unless the numeral is exactly `0`.
pub open spec fn is_numeral(s: Seq<u8>) -> bool {
    &&& s.len() > 0
    &&& all_digits(s)
    &&& (s[0] == ZERO ==> s.len() == 1)
}

/// `dec_digits(n)` is a well-formed numeral.
pub proof fn lemma_dec_digits_wf(n: nat)
    ensures
        is_numeral(dec_digits(n)),
        n >= 10 ==> dec_digits(n)[0] != ZERO,
        n >= 1 && n < 10 ==> dec_digits(n)[0] != ZERO,
    decreases n,
{
    if n < 10 {
    } else {
        lemma_dec_digits_wf(n / 10);
        assert(n / 10 >= 1);
        let d = dec_digits(n / 10);
        let whole = dec_digits(n);
        assert(whole == d.push((ZERO + n % 10) as u8));
        assert(whole[0] == d[0]);
        assert(d[0] != ZERO);
        assert forall|i: int| 0 <= i < whole.len() implies is_digit(#[trigger] whole[i]) by {
            if i < d.len() {
                assert(whole[i] == d[i]);
            }
        }
    }
}

/// Reading back the numeral of `n` gives `n`.
pub proof fn lemma_num_val_dec_digits(n: nat)
    ensures
        num_val(dec_digits(n)) == n,
    decreases n,
{
    if n < 10 {
        let s = dec_digits(n);
        assert(s =~= seq![(ZERO + n) as u8]);
        assert(s.drop_last() =~= Seq::<u8>::empty());
        assert(num_val(s.drop_last()) == 0);
        assert(s.last() == (ZERO + n) as u8);
        assert(num_val(s) == num_val(s.drop_last()) * 10 + (s.last() - ZERO) as nat);
        assert(num_val(s) == n);
    } else {
        lemma_num_val_dec_digits(n / 10);
        let d = dec_digits(n / 10);
        let whole = dec_digits(n);
        assert(whole =~= d.push((ZERO + n % 10) as u8));
        assert(whole.drop_last() =~= d);
        assert(whole.last() == (ZERO + n % 10) as u8);
        assert(num_val(whole) == num_val(whole.drop_last()) * 10 + (whole.last() - ZERO) as nat);
        assert(num_val(whole.drop_last()) == n / 10);
        assert((whole.last() - ZERO) as nat == n % 10);
        assert((n / 10) * 10 + n % 10 == n) by (nonlinear_arith);
    }
}

/// A numeral that does not start with `0` has value at least 1.
pub proof fn lemma_num_val_positive(s: Seq<u8>)
    requires
        s.len() > 0,
        all_digits(s),
        s[0] != ZERO,
    ensures
        num_val(s) >= 1,
    decreases s.len(),
{
    if s.len() == 1 {
        assert(s.drop_last() =~= Seq::<u8>::empty());
    } else {
        let p = s.drop_last();
        assert(p[0] == s[0]);
        assert(all_digits(p)) by {
            assert(forall|i: int| 0 <= i < p.len() ==> p[i] == #[trigger] s[i]);
        }
        lemma_num_val_positive(p);
    }
}

/// Printing the value of a well-formed numeral gives the numeral back.
pub proof fn lemma_dec_digits_num_val(s: Seq<u8>)
    requires
        is_numeral(s),
    ensures
        dec_digits(num_val(s)) == s,
    decreases s.len(),
{
    if s.len() == 1 {
        assert(s.drop_last() =~= Seq::<u8>::empty());
        assert(num_val(s.drop_last()) == 0);
        assert(s.last() == s[0]);
        assert(num_val(s) == (s[0] - ZERO) as nat);
        assert(dec_digits(num_val(s)) =~= s);
    } else {
        let p = s.drop_last();
        let d = (s.last() - ZERO) as nat;
        assert(p[0] == s[0]);
        assert(all_digits(p)) by {
            assert(forall|i: int| 0 <= i < p.len() ==> p[i] == #[trigger] s[i]);
        }
        assert(s[0] != ZERO);
        lemma_num_val_positive(p);
        lemma_dec_digits_num_val(p);
        let n = num_val(s);
        assert(n == num_val(p) * 10 + d);
        assert(n >= 10);
        assert(n / 10 == num_val(p) && n % 10 == d) by (nonlinear_arith)
            requires
                n == num_val(p) * 10 + d,
                0 <= d < 10,
        ;
        assert(dec_digits(n) == dec_digits(num_val(p)).push((ZERO + d) as u8));
        assert(dec_digits(n) =~= s);
    }
}

/// Value of a prefix never exceeds the value of a longer prefix.
pub proof fn lemma_num_val_prefix_monotone(s: Seq<u8>, j: int, k: int)
    requires
        0 <= j <= k <= s.len(),
    ensures
        num_val(s.take(j)) <= num_val(s.take(k)),
    decreases k - j,
{
    if j < k {
        lemma_num_val_prefix_monotone(s, j, k - 1);
        let a = s.take(k - 1);
        let b = s.take(k);
        assert(b.drop_last() =~= a);
        assert(num_val(b) == num_val(a) * 10 + (b.last() - ZERO) as nat);
    }
}

/// The whole string's value is the value of its full prefix.
pub proof fn lemma_num_val_take_all(s: Seq<u8>)
    ensures
        num_val(s.take(s.len() as int)) == num_val(s),
{
    assert(s.take(s.len() as int) =~= s);
}

/// Powers of ten.
pub open spec fn pow10(n: nat) -> nat
    decreases n,
{
    if n == 0 {
        1
    } else {
        10 * pow10((n - 1) as nat)
    }
}

pub proof fn lemma_pow10_positive(n: nat)
    ensures
        pow10(n) >= 1,
    decreases n,
{
    if n > 0 {
        lemma_pow10_positive((n - 1) as nat);
    }
}

pub proof fn lemma_pow10_mono(m: nat, n: nat)
    requires
        m <= n,
    ensures
        pow10(m) <= pow10(n),
    decreases n,
{
    if m < n {
        lemma_pow10_mono(m, (n - 1) as nat);
        lemma_pow10_positive((n - 1) as nat);
    }
}

/// A digit string of length `l` has value below `10^l`.
pub proof fn lemma_num_val_upper(s: Seq<u8>)
    requires
        all_digits(s),
    ensures
        num_val(s) < pow10(s.len()),
    decreases s.len(),
{
    if s.len() == 0 {
    } else {
        let p = s.drop_last();
        assert(all_digits(p)) by {
            assert(forall|i: int| 0 <= i < p.len() ==> p[i] == #[trigger] s[i]);
        }
        lemma_num_val_upper(p);
        assert(is_digit(s.last()));
        assert(num_val(s) == num_val(p) * 10 + (s.last() - ZERO) as nat);
        assert(num_val(p) * 10 <= (pow10(p.len()) - 1) * 10);
        assert(pow10(s.len()) == 10 * pow10(p.len()));
    }
}

/// Peel the most significant digit off a digit string's value.
pub proof fn lemma_num_val_front(s: Seq<u8>)
    requires
        s.len() > 0,
        all_digits(s),
    ensures
        num_val(s) == (s[0] - ZERO) as nat * pow10((s.len() - 1) as nat) + num_val(
            s.drop_first(),
        ),
    decreases s.len(),
{
    if s.len() == 1 {
        assert(s.drop_first() =~= Seq::<u8>::empty());
        assert(s.drop_last() =~= Seq::<u8>::empty());
        assert(num_val(s.drop_last()) == 0);
        assert(num_val(s.drop_first()) == 0);
        assert(s.last() == s[0]);
        assert(num_val(s) == num_val(s.drop_last()) * 10 + (s.last() - ZERO) as nat);
        assert(pow10(0) == 1);
    } else {
        let p = s.drop_last();
        let d = (s.last() - ZERO) as nat;
        assert(all_digits(p)) by {
            assert(forall|i: int| 0 <= i < p.len() ==> p[i] == #[trigger] s[i]);
        }
        lemma_num_val_front(p);
        let d0 = (s[0] - ZERO) as nat;
        let k = (s.len() - 2) as nat;
        assert(p[0] == s[0]);
        assert(num_val(p) == d0 * pow10(k) + num_val(p.drop_first()));
        let sdf = s.drop_first();
        assert(sdf.drop_last() =~= p.drop_first());
        assert(sdf.last() == s.last());
        assert(num_val(sdf) == num_val(p.drop_first()) * 10 + d);
        assert(num_val(s) == num_val(p) * 10 + d);
        assert(num_val(s) == (d0 * pow10(k) + num_val(p.drop_first())) * 10 + d);
        assert((d0 * pow10(k) + num_val(p.drop_first())) * 10 == d0 * (10 * pow10(k))
            + num_val(p.drop_first()) * 10) by (nonlinear_arith);
        assert(pow10((s.len() - 1) as nat) == 10 * pow10(k));
    }
}

/// A digit string with a non-zero leading digit has value at least
/// `10^(l-1)`.
pub proof fn lemma_num_val_lower(s: Seq<u8>)
    requires
        s.len() > 0,
        all_digits(s),
        s[0] != ZERO,
    ensures
        num_val(s) >= pow10((s.len() - 1) as nat),
    decreases s.len(),
{
    if s.len() == 1 {
        assert(s.drop_last() =~= Seq::<u8>::empty());
        assert(is_digit(s[0]));
    } else {
        let p = s.drop_last();
        assert(all_digits(p)) by {
            assert(forall|i: int| 0 <= i < p.len() ==> p[i] == #[trigger] s[i]);
        }
        assert(p[0] == s[0]);
        lemma_num_val_lower(p);
        assert(num_val(s) == num_val(p) * 10 + (s.last() - ZERO) as nat);
        assert(num_val(p) * 10 >= pow10((p.len() - 1) as nat) * 10);
        assert(pow10((s.len() - 1) as nat) == 10 * pow10((s.len() - 2) as nat));
    }
}

/// Index of the first occurrence of `b` in `s`, if any.
pub open spec fn find_byte(s: Seq<u8>, b: u8) -> Option<int>
    decreases s.len(),
{
    if s.len() == 0 {
        None
    } else if s[0] == b {
        Some(0)
    } else {
        match find_byte(s.drop_first(), b) {
            Some(i) => Some(i + 1),
            None => None,
        }
    }
}

/// What [`find_byte`] means, stated without recursion.
pub proof fn lemma_find_byte(s: Seq<u8>, b: u8)
    ensures
        match find_byte(s, b) {
            Some(i) => 0 <= i < s.len() && s[i] == b && forall|j: int| 0 <= j < i ==> s[j] != b,
            None => forall|j: int| 0 <= j < s.len() ==> s[j] != b,
        },
    decreases s.len(),
{
    if s.len() > 0 && s[0] != b {
        let t = s.drop_first();
        lemma_find_byte(t, b);
        match find_byte(t, b) {
            Some(i) => {
                assert(t[i] == s[i + 1]);
                assert forall|j: int| 0 <= j < i + 1 implies s[j] != b by {
                    if j > 0 {
                        assert(t[j - 1] != b);
                        assert(t[j - 1] == s[j]);
                    }
                }
            },
            None => {
                assert forall|j: int| 0 <= j < s.len() implies s[j] != b by {
                    if j > 0 {
                        assert(t[j - 1] != b);
                        assert(t[j - 1] == s[j]);
                    }
                }
            },
        }
    }
}

/// A byte that occurs nowhere in `s` is not found.
pub proof fn lemma_find_byte_absent(s: Seq<u8>, b: u8)
    requires
        forall|j: int| 0 <= j < s.len() ==> s[j] != b,
    ensures
        find_byte(s, b) is None,
    decreases s.len(),
{
    if s.len() > 0 {
        assert(forall|j: int| 0 <= j < s.drop_first().len() ==> #[trigger] s.drop_first()[j] == s[j + 1]);
        lemma_find_byte_absent(s.drop_first(), b);
    }
}

/// In `a + [b] + c` with `b` absent from `a`, the first `b` is the one
/// in the middle.
pub proof fn lemma_find_byte_concat(a: Seq<u8>, b: u8, c: Seq<u8>)
    requires
        forall|j: int| 0 <= j < a.len() ==> a[j] != b,
    ensures
        find_byte(a + seq![b] + c, b) == Some(a.len() as int),
        (a + seq![b] + c).take(a.len() as int) == a,
        (a + seq![b] + c).skip(a.len() as int + 1) == c,
{
    let s = a + seq![b] + c;
    assert(s[a.len() as int] == b);
    lemma_find_byte(s, b);
    let i = find_byte(s, b)->Some_0;
    assert(forall|j: int| 0 <= j < a.len() ==> s[j] == #[trigger] a[j]);
    assert(i == a.len());
    assert(s.take(a.len() as int) =~= a);
    assert(s.skip(a.len() as int + 1) =~= c);
}

/// Split `s` at every dot. A string without a dot is one component; a
/// dot at either end or two adjacent dots give an empty component.
pub open spec fn split_dots(s: Seq<u8>) -> Seq<Seq<u8>>
    decreases s.len(),
    via split_dots_decreases
{
    match find_byte(s, DOT) {
        Some(i) => seq![s.take(i)] + split_dots(s.skip(i + 1)),
        None => seq![s],
    }
}

#[via_fn]
proof fn split_dots_decreases(s: Seq<u8>) {
    lemma_find_byte(s, DOT);
}

/// The components of a split, rejoined with dots.
pub open spec fn join_dots(ids: Seq<Seq<u8>>) -> Seq<u8>
    decreases ids.len(),
{
    if ids.len() == 0 {
        Seq::empty()
    } else if ids.len() == 1 {
        ids[0]
    } else {
        ids[0] + seq![DOT] + join_dots(ids.drop_first())
    }
}

/// Splitting always yields at least one component.
pub proof fn lemma_split_dots_len(s: Seq<u8>)
    ensures
        split_dots(s).len() >= 1,
    decreases s.len(),
{
    match find_byte(s, DOT) {
        Some(i) => {
            lemma_find_byte(s, DOT);
            lemma_split_dots_len(s.skip(i + 1));
        },
        None => {},
    }
}

/// Joining the components of a split gives the original string back.
pub proof fn lemma_join_split_dots(s: Seq<u8>)
    ensures
        join_dots(split_dots(s)) == s,
    decreases s.len(),
{
    match find_byte(s, DOT) {
        Some(i) => {
            lemma_find_byte(s, DOT);
            let rest = s.skip(i + 1);
            lemma_join_split_dots(rest);
            lemma_split_dots_len(rest);
            let parts = seq![s.take(i)] + split_dots(rest);
            assert(parts.drop_first() =~= split_dots(rest));
            assert(join_dots(parts) == s.take(i) + seq![DOT] + join_dots(split_dots(rest)));
            assert(s.take(i) + seq![DOT] + rest =~= s);
        },
        None => {},
    }
}

/// Splitting the join of dot-free non-empty components gives the
/// components back.
pub proof fn lemma_split_join_dots(ids: Seq<Seq<u8>>)
    requires
        ids.len() >= 1,
        forall|i: int| 0 <= i < ids.len() ==> no_dot(#[trigger] ids[i]),
    ensures
        split_dots(join_dots(ids)) == ids,
    decreases ids.len(),
{
    if ids.len() == 1 {
        lemma_find_byte_absent(ids[0], DOT);
        assert(split_dots(join_dots(ids)) =~= ids);
    } else {
        let head = ids[0];
        let rest = ids.drop_first();
        lemma_split_join_dots(rest);
        lemma_find_byte_concat(head, DOT, join_dots(rest));
        assert(join_dots(ids) == head + seq![DOT] + join_dots(rest));
        assert(split_dots(join_dots(ids)) =~= seq![head] + split_dots(join_dots(rest)));
        assert(seq![head] + rest =~= ids);
    }
}

/// The join of exactly three components, written out.
pub proof fn lemma_join_three(a: Seq<u8>, b: Seq<u8>, c: Seq<u8>)
    ensures
        join_dots(seq![a, b, c]) == a + seq![DOT] + b + seq![DOT] + c,
{
    let ids = seq![a, b, c];
    assert(seq![b, c].drop_first() =~= seq![c]);
    assert(join_dots(seq![c]) == c);
    assert(join_dots(seq![b, c]) == b + seq![DOT] + c);
    assert(ids.drop_first() =~= seq![b, c]);
    assert(join_dots(ids) == a + seq![DOT] + join_dots(seq![b, c]));
    assert(a + seq![DOT] + (b + seq![DOT] + c) =~= a + seq![DOT] + b + seq![DOT] + c);
}

/// No byte of `s` is a dot.
pub open spec fn no_dot(s: Seq<u8>) -> bool {
    forall|j: int| 0 <= j < s.len() ==> s[j] != DOT
}

/// Appending one more component to a non-empty join.
pub proof fn lemma_join_dots_push(ids: Seq<Seq<u8>>, x: Seq<u8>)
    requires
        ids.len() >= 1,
    ensures
        join_dots(ids.push(x)) == join_dots(ids) + seq![DOT] + x,
    decreases ids.len(),
{
    if ids.len() == 1 {
        assert(ids.push(x).drop_first() =~= seq![x]);
        assert(join_dots(seq![x]) == x);
        assert(join_dots(ids.push(x)) == ids[0] + seq![DOT] + x);
    } else {
        lemma_join_dots_push(ids.drop_first(), x);
        assert(ids.push(x).drop_first() =~= ids.drop_first().push(x));
        assert(join_dots(ids.push(x)) == ids[0] + seq![DOT] + join_dots(
            ids.drop_first().push(x),
        ));
        assert(ids[0] + seq![DOT] + (join_dots(ids.drop_first()) + seq![DOT] + x) =~= (ids[0]
            + seq![DOT] + join_dots(ids.drop_first())) + seq![DOT] + x);
    }
}

/// The position that satisfies [`find_byte`]'s characterization is the
/// one it returns.
pub proof fn lemma_find_byte_unique(s: Seq<u8>, b: u8, i: int)
    requires
        0 <= i < s.len(),
        s[i] == b,
        forall|j: int| 0 <= j < i ==> s[j] != b,
    ensures
        find_byte(s, b) == Some(i),
{
    lemma_find_byte(s, b);
    match find_byte(s, b) {
        Some(k) => {
            if k < i {
                assert(s[k] != b);
            } else if k > i {
                assert(s[i] != b);
            }
        },
        None => {
            assert(s[i] != b);
        },
    }
}

/// The views of a sequence of byte vectors.
pub open spec fn views_of(s: Seq<Vec<u8>>) -> Seq<Seq<u8>> {
    Seq::new(s.len(), |i: int| s[i]@)
}

/// The characters an ASCII byte string denotes.
pub open spec fn text_chars(s: Seq<u8>) -> Seq<char> {
    Seq::new(s.len(), |i: int| s[i] as char)
}

/// An ASCII byte string and the characters it denotes encode each
/// other.
pub proof fn lemma_text_chars_ascii(b: Seq<u8>)
    requires
        forall|i: int| 0 <= i < b.len() ==> b[i] < 128,
    ensures
        vstd::utf8::is_ascii_chars(text_chars(b)),
        vstd::utf8::encode_utf8(text_chars(b)) == b,
{
    let cs = text_chars(b);
    assert forall|i: int| 0 <= i < cs.len() implies '\0' <= #[trigger] cs[i] <= '\u{7f}' by {
        assert(cs[i] == b[i] as char);
        assert(b[i] < 128);
    }
    assert(vstd::utf8::is_ascii_chars(cs));
    vstd::utf8::is_ascii_chars_encode_utf8(cs);
    assert(vstd::utf8::encode_utf8(cs) =~= b) by {
        assert(forall|i: int|
            0 <= i < cs.len() ==> #[trigger] vstd::utf8::encode_utf8(cs)[i] == cs[i] as u8);
    }
}

/// Relies on `String::from_utf8`: ASCII bytes are valid UTF-8 and
/// decode to the characters with the same code points.
#[verifier::external_body]
pub(crate) fn ascii_bytes_to_string(b: Vec<u8>) -> (r: String)
    requires
        forall|i: int| 0 <= i < b@.len() ==> b@[i] < 128,
    ensures
        r@ == text_chars(b@),
{
    match String::from_utf8(b) {
        Ok(s) => s,
        Err(_) => String::new(),
    }
}

/// Copy a byte vector.
pub(crate) fn copy_bytes(v: &Vec<u8>) -> (r: Vec<u8>)
    ensures
        r@ == v@,
{
    let mut r: Vec<u8> = Vec::new();
    let mut i: usize = 0;
    while i < v.len()
        invariant
            i <= v@.len(),
            r@ == v@.take(i as int),
        decreases v@.len() - i,
    {
        r.push(v[i]);
        i = i + 1;
        proof {
            assert(v@.take(i as int) =~= v@.take(i as int - 1).push(v@[i as int - 1]));
        }
    }
    proof {
        assert(v@.take(v@.len() as int) =~= v@);
    }
    r
}

/// The bytes of `v` from `start` (inclusive) to `end` (exclusive).
pub(crate) fn subrange_vec(v: &Vec<u8>, start: usize, end: usize) -> (r: Vec<u8>)
    requires
        start <= end <= v@.len(),
    ensures
        r@ == v@.subrange(start as int, end as int),
{
    let mut r: Vec<u8> = Vec::new();
    let mut i: usize = start;
    while i < end
        invariant
            start <= i <= end <= v@.len(),
            r@ == v@.subrange(start as int, i as int),
        decreases end - i,
    {
        r.push(v[i]);
        i = i + 1;
        proof {
            assert(v@.subrange(start as int, i as int) =~= v@.subrange(
                start as int,
                i as int - 1,
            ).push(v@[i as int - 1]));
        }
    }
    r
}

/// First position of `b` in `v`, if any.
pub(crate) fn find_byte_vec(v: &Vec<u8>, b: u8) -> (r: Option<usize>)
    ensures
        match r {
            Some(i) => find_byte(v@, b) == Some(i as int),
            None => find_byte(v@, b) is None,
        },
{
    let mut i: usize = 0;
    while i < v.len()
        invariant
            i <= v@.len(),
            forall|j: int| 0 <= j < i ==> v@[j] != b,
        decreases v@.len() - i,
    {
        if v[i] == b {
            proof {
                lemma_find_byte_unique(v@, b, i as int);
            }
            return Some(i);
        }
        i = i + 1;
    }
    proof {
        lemma_find_byte_absent(v@, b);
    }
    None
}

/// Split `v` at every dot.
pub(crate) fn split_dots_vec(v: Vec<u8>) -> (r: Vec<Vec<u8>>)
    ensures
        views_of(r@) == split_dots(v@),
    decreases v@.len(),
{
    let n = v.len();
    match find_byte_vec(&v, DOT) {
        Some(i) => {
            proof {
                lemma_find_byte(v@, DOT);
            }
            let head = subrange_vec(&v, 0, i);
            let tail = subrange_vec(&v, i + 1, n);
            let mut rest = split_dots_vec(tail);
            let ghost rest0 = rest@;
            let mut r: Vec<Vec<u8>> = Vec::new();
            r.push(head);
            r.append(&mut rest);
            proof {
                assert(v@.take(i as int) == v@.subrange(0, i as int));
                assert(v@.skip(i as int + 1) == v@.subrange(i as int + 1, v@.len() as int));
                assert(views_of(r@) =~= seq![head@] + views_of(rest0));
                assert(views_of(r@) =~= split_dots(v@));
            }
            r
        },
        None => {
            let ghost v0 = v@;
            let mut r: Vec<Vec<u8>> = Vec::new();
            r.push(v);
            proof {
                assert(views_of(r@) =~= seq![v0]);
            }
            r
        },
    }
}

/// The decimal numeral of `n`.
pub(crate) fn render_numeral(n: u64) -> (r: Vec<u8>)
    ensures
        r@ == dec_digits(n as nat),
    decreases n,
{
    if n < 10 {
        let mut r: Vec<u8> = Vec::new();
        r.push(ZERO + n as u8);
        proof {
            assert(r@ =~= seq![(ZERO + n as nat) as u8]);
        }
        r
    } else {
        let mut r = render_numeral(n / 10);
        r.push(ZERO + (n % 10) as u8);
        r
    }
}

} // verus!
