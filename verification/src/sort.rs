//! The ambiguity-aware multi-version sorter: optional range filtering,
//! stable sorting under a selected key, detection of pairs the semantic
//! axis cannot order deterministically, flattening of key-equal runs,
//! and reversal.

use vstd::prelude::*;
use crate::compare::{
    Ordering, lemma_compare_antisymmetric, lemma_compare_self, lemma_lexical_eq,
    lemma_lexical_transitive, lemma_semantic_transitive, lexical_cmp, ord_flip, semantic_cmp,
};
use crate::filter::{check_filter, filter_matches, req_match, req_wf};
use crate::text::text_chars;
use crate::version::{
    Version, VersionView, canonical, copy_version, eq_version, lemma_canonical_injective,
    lemma_parse_canonical, valid_version,
};

verus! {

/// The sort key: SemVer precedence or byte-wise canonical-string
/// order.
#[derive(Clone, Copy, Debug, PartialEq, Eq, Structural)]
pub enum SortKey {
    Semantic,
    Lexical,
}

/// The active key's ordering.
pub open spec fn key_cmp(key: SortKey, a: VersionView, b: VersionView) -> Ordering {
    match key {
        SortKey::Semantic => semantic_cmp(a, b),
        SortKey::Lexical => lexical_cmp(a, b),
    }
}

/// The views of a sequence of versions.
pub open spec fn vviews(s: Seq<Version>) -> Seq<VersionView> {
    Seq::new(s.len(), |i: int| s[i]@)
}

/// Insert `x` into `s` directly before the first element greater than
/// it: after every element it ties with, which keeps a sort stable
/// when later elements are inserted this way.
pub open spec fn insert_stable(s: Seq<VersionView>, x: VersionView, key: SortKey) -> Seq<
    VersionView,
>
    decreases s.len(),
{
    if s.len() == 0 {
        seq![x]
    } else if key_cmp(key, s[0], x) == Ordering::Greater {
        seq![x] + s
    } else {
        seq![s[0]] + insert_stable(s.drop_first(), x, key)
    }
}

/// Stable insertion sort: insert the items left to right.
pub open spec fn sort_spec(s: Seq<VersionView>, key: SortKey) -> Seq<VersionView>
    decreases s.len(),
{
    if s.len() == 0 {
        Seq::empty()
    } else {
        insert_stable(sort_spec(s.drop_last(), key), s.last(), key)
    }
}

/// Collapse every maximal run of adjacent key-equal items to its first
/// item. On a sequence sorted under the same key, runs are exactly the
/// key-equivalence classes, so this collapses all equal items, however
/// they were ordered.
pub open spec fn flatten_spec(s: Seq<VersionView>, key: SortKey) -> Seq<VersionView>
    decreases s.len(),
{
    if s.len() <= 1 {
        s
    } else {
        let prefix = flatten_spec(s.drop_last(), key);
        if key_cmp(key, s[s.len() - 2], s.last()) == Ordering::Equal {
            prefix
        } else {
            prefix.push(s.last())
        }
    }
}

/// `s` is ordered under the key: no adjacent pair stands the wrong way
/// around.
pub open spec fn sorted_by(s: Seq<VersionView>, key: SortKey) -> bool {
    forall|i: int, j: int|
        0 <= i && j == i + 1 && j < s.len() ==> key_cmp(key, #[trigger] s[i], #[trigger] s[j])
            != Ordering::Greater
}

proof fn lemma_key_antisym(key: SortKey, a: VersionView, b: VersionView)
    ensures
        key_cmp(key, b, a) == ord_flip(key_cmp(key, a, b)),
{
    lemma_compare_antisymmetric(a, b);
}

/// Inserting into an ordered sequence keeps it ordered.
proof fn lemma_insert_stable_sorted(s: Seq<VersionView>, x: VersionView, key: SortKey)
    requires
        sorted_by(s, key),
    ensures
        sorted_by(insert_stable(s, x, key), key),
    decreases s.len(),
{
    let out = insert_stable(s, x, key);
    if s.len() == 0 {
    } else if key_cmp(key, s[0], x) == Ordering::Greater {
        lemma_key_antisym(key, s[0], x);
        assert forall|i: int, j: int|
            0 <= i && j == i + 1 && j < out.len() implies key_cmp(
            key,
            #[trigger] out[i],
            #[trigger] out[j],
        ) != Ordering::Greater by {
            if i == 0 {
                assert(out[0] == x && out[1] == s[0]);
            } else {
                assert(out[i] == s[i - 1] && out[j] == s[i]);
            }
        }
    } else {
        let df = s.drop_first();
        assert(sorted_by(df, key)) by {
            assert forall|i: int, j: int|
                0 <= i && j == i + 1 && j < df.len() implies key_cmp(
                key,
                #[trigger] df[i],
                #[trigger] df[j],
            ) != Ordering::Greater by {
                assert(df[i] == s[i + 1] && df[j] == s[i + 2]);
            }
        }
        lemma_insert_stable_sorted(df, x, key);
        let rest = insert_stable(df, x, key);
        assert(out == seq![s[0]] + rest);
        assert(key_cmp(key, s[0], rest[0]) != Ordering::Greater) by {
            if df.len() == 0 {
                assert(rest[0] == x);
            } else if key_cmp(key, df[0], x) == Ordering::Greater {
                assert(rest[0] == x);
            } else {
                assert(rest[0] == df[0] && df[0] == s[1]);
            }
        }
        assert forall|i: int, j: int|
            0 <= i && j == i + 1 && j < out.len() implies key_cmp(
            key,
            #[trigger] out[i],
            #[trigger] out[j],
        ) != Ordering::Greater by {
            if i == 0 {
                assert(out[0] == s[0] && out[1] == rest[0]);
            } else {
                assert(out[i] == rest[i - 1] && out[j] == rest[i]);
            }
        }
    }
}

/// Law: the sorter's output is ordered under the active key.
pub proof fn lemma_sort_spec_sorted(s: Seq<VersionView>, key: SortKey)
    ensures
        sorted_by(sort_spec(s, key), key),
    decreases s.len(),
{
    if s.len() > 0 {
        lemma_sort_spec_sorted(s.drop_last(), key);
        lemma_insert_stable_sorted(sort_spec(s.drop_last(), key), s.last(), key);
    }
}

/// A non-empty sequence's multiset is its tail's, plus its head.
proof fn lemma_to_multiset_cons(t: Seq<VersionView>)
    requires
        t.len() > 0,
    ensures
        t.to_multiset() == t.drop_first().to_multiset().insert(t[0]),
{
    broadcast use vstd::seq_lib::group_to_multiset_ensures;
    broadcast use vstd::multiset::group_multiset_axioms;

    assert(t.remove(0) =~= t.drop_first());
    assert(t.remove(0).to_multiset() =~= t.to_multiset().remove(t[0]));
    assert(t.contains(t[0]));
    assert(t.to_multiset().count(t[0]) > 0);
    assert(t.drop_first().to_multiset().insert(t[0]) =~= t.to_multiset());
}

/// Insertion adds exactly the new element to the multiset.
proof fn lemma_insert_stable_multiset(s: Seq<VersionView>, x: VersionView, key: SortKey)
    ensures
        insert_stable(s, x, key).to_multiset() == s.to_multiset().insert(x),
    decreases s.len(),
{
    broadcast use vstd::seq_lib::group_to_multiset_ensures;
    broadcast use vstd::multiset::group_multiset_axioms;

    if s.len() == 0 {
        assert(insert_stable(s, x, key) =~= s.push(x));
        assert(s.push(x).to_multiset() =~= s.to_multiset().insert(x));
    } else if key_cmp(key, s[0], x) == Ordering::Greater {
        let out = seq![x] + s;
        lemma_to_multiset_cons(out);
        assert(out.drop_first() =~= s);
    } else {
        let df = s.drop_first();
        lemma_insert_stable_multiset(df, x, key);
        let rest = insert_stable(df, x, key);
        let out = seq![s[0]] + rest;
        lemma_to_multiset_cons(out);
        assert(out.drop_first() =~= rest);
        lemma_to_multiset_cons(s);
        assert(df.to_multiset().insert(x).insert(s[0]) =~= df.to_multiset().insert(s[0]).insert(
            x,
        ));
    }
}

/// Law: the sorter's output holds exactly the input items, duplicates
/// included.
pub proof fn lemma_sort_spec_permutation(s: Seq<VersionView>, key: SortKey)
    ensures
        sort_spec(s, key).to_multiset() == s.to_multiset(),
    decreases s.len(),
{
    broadcast use vstd::seq_lib::group_to_multiset_ensures;

    if s.len() > 0 {
        lemma_sort_spec_permutation(s.drop_last(), key);
        lemma_insert_stable_multiset(sort_spec(s.drop_last(), key), s.last(), key);
        assert(s.drop_last().push(s.last()) =~= s);
        assert(s.drop_last().push(s.last()).to_multiset() =~= s.drop_last().to_multiset().insert(
            s.last(),
        ));
    }
}

/// Under either key, ties compose.
proof fn lemma_key_trans_eq(key: SortKey, a: VersionView, b: VersionView, c: VersionView)
    requires
        valid_version(a),
        valid_version(b),
        valid_version(c),
        key_cmp(key, a, b) == Ordering::Equal,
        key_cmp(key, b, c) == Ordering::Equal,
    ensures
        key_cmp(key, a, c) == Ordering::Equal,
{
    match key {
        SortKey::Semantic => {
            lemma_semantic_transitive(a, b, c);
        },
        SortKey::Lexical => {
            lemma_lexical_eq(a, b);
            lemma_lexical_eq(b, c);
            lemma_lexical_eq(a, c);
        },
    }
}

/// Every item a filtering keeps is an item of the input.
proof fn lemma_filter_members(s: Seq<VersionView>, pred: spec_fn(VersionView) -> bool, i: int)
    requires
        0 <= i < s.filter(pred).len(),
    ensures
        exists|k: int| 0 <= k < s.len() && s.filter(pred)[i] == s[k],
    decreases s.len(),
{
    reveal(Seq::filter);
    if s.len() > 0 {
        let prefix = s.drop_last().filter(pred);
        if i < prefix.len() {
            lemma_filter_members(s.drop_last(), pred, i);
            let k = choose|k: int| 0 <= k < s.drop_last().len() && prefix[i] == s.drop_last()[k];
            assert(s.filter(pred)[i] == s[k]);
        } else {
            assert(s.filter(pred)[i] == s.last());
            assert(s.filter(pred)[i] == s[s.len() - 1]);
        }
    }
}

/// Insertion only adds the new item to the sequence's items.
proof fn lemma_insert_stable_valid(t: Seq<VersionView>, x: VersionView, key: SortKey)
    requires
        forall|k: int| 0 <= k < t.len() ==> valid_version(#[trigger] t[k]),
        valid_version(x),
    ensures
        forall|k: int|
            0 <= k < insert_stable(t, x, key).len() ==> valid_version(
                #[trigger] insert_stable(t, x, key)[k],
            ),
    decreases t.len(),
{
    let out = insert_stable(t, x, key);
    if t.len() == 0 {
    } else if key_cmp(key, t[0], x) == Ordering::Greater {
        assert forall|k: int| 0 <= k < out.len() implies valid_version(#[trigger] out[k]) by {
            if k == 0 {
                assert(out[0] == x);
            } else {
                assert(out[k] == t[k - 1]);
            }
        }
    } else {
        let df = t.drop_first();
        assert(forall|k: int| 0 <= k < df.len() ==> valid_version(#[trigger] df[k])) by {
            assert(forall|k: int| 0 <= k < df.len() ==> df[k] == #[trigger] t[k + 1]);
        }
        lemma_insert_stable_valid(df, x, key);
        let rest = insert_stable(df, x, key);
        assert forall|k: int| 0 <= k < out.len() implies valid_version(#[trigger] out[k]) by {
            if k == 0 {
                assert(out[0] == t[0]);
            } else {
                assert(out[k] == rest[k - 1]);
            }
        }
    }
}

/// The sorter's output holds only version values from the input.
proof fn lemma_sort_spec_valid(s: Seq<VersionView>, key: SortKey)
    requires
        forall|k: int| 0 <= k < s.len() ==> valid_version(#[trigger] s[k]),
    ensures
        forall|k: int|
            0 <= k < sort_spec(s, key).len() ==> valid_version(#[trigger] sort_spec(s, key)[k]),
    decreases s.len(),
{
    if s.len() > 0 {
        let d = s.drop_last();
        assert(forall|k: int| 0 <= k < d.len() ==> valid_version(#[trigger] d[k])) by {
            assert(forall|k: int| 0 <= k < d.len() ==> d[k] == #[trigger] s[k]);
        }
        lemma_sort_spec_valid(d, key);
        lemma_insert_stable_valid(sort_spec(d, key), s.last(), key);
    }
}

/// The items of `s` tying with the pivot `p` under the key, in order.
pub open spec fn class_of(s: Seq<VersionView>, key: SortKey, p: VersionView) -> Seq<VersionView> {
    s.filter(|v: VersionView| key_cmp(key, v, p) == Ordering::Equal)
}

/// Inserting at the stable position appends the new item to its own
/// tie class and leaves every other class alone.
proof fn lemma_insert_stable_class(t: Seq<VersionView>, x: VersionView, key: SortKey, p: VersionView)
    requires
        sorted_by(t, key),
        forall|k: int| 0 <= k < t.len() ==> valid_version(#[trigger] t[k]),
        valid_version(x),
        valid_version(p),
    ensures
        class_of(insert_stable(t, x, key), key, p) == if key_cmp(key, x, p) == Ordering::Equal {
            class_of(t, key, p).push(x)
        } else {
            class_of(t, key, p)
        },
    decreases t.len(),
{
    broadcast use vstd::seq_lib::group_filter_ensures;

    let pred = |v: VersionView| key_cmp(key, v, p) == Ordering::Equal;
    let out = insert_stable(t, x, key);
    if t.len() == 0 {
        lemma_filter_push(t, x, pred);
        assert(out =~= t.push(x));
    } else if key_cmp(key, t[0], x) == Ordering::Greater {
        assert(out == seq![x] + t);
        assert((seq![x] + t).filter(pred) == seq![x].filter(pred) + t.filter(pred));
        lemma_filter_push(Seq::<VersionView>::empty(), x, pred);
        assert(Seq::<VersionView>::empty().push(x) =~= seq![x]);
        assert(Seq::<VersionView>::empty().filter(pred) =~= Seq::<VersionView>::empty()) by {
            reveal(Seq::filter);
        }
        if pred(x) {
            // nothing in `t` ties with the pivot: every item of `t`
            // sits strictly above `x`, which ties with it
            assert forall|k: int| 0 <= k < t.len() implies !pred(#[trigger] t[k]) by {
                if pred(t[k]) {
                    lemma_key_antisym(key, x, p);
                    lemma_key_trans_eq(key, t[k], p, x);
                    lemma_sorted_pairwise(t, key, 0, k);
                    lemma_key_trans_le(key, t[0], t[k], x);
                }
            }
            if t.filter(pred).len() > 0 {
                lemma_filter_members(t, pred, 0);
                let k = choose|k: int| 0 <= k < t.len() && t.filter(pred)[0] == t[k];
                assert(pred(t[k]));
            }
            assert(t.filter(pred) =~= Seq::<VersionView>::empty());
            assert(out.filter(pred) =~= t.filter(pred).push(x));
        } else {
            assert(out.filter(pred) =~= t.filter(pred));
        }
    } else {
        let df = t.drop_first();
        assert(sorted_by(df, key)) by {
            assert forall|i: int, j: int|
                0 <= i && j == i + 1 && j < df.len() implies key_cmp(
                key,
                #[trigger] df[i],
                #[trigger] df[j],
            ) != Ordering::Greater by {
                assert(df[i] == t[i + 1] && df[j] == t[i + 2]);
            }
        }
        assert(forall|k: int| 0 <= k < df.len() ==> valid_version(#[trigger] df[k])) by {
            assert(forall|k: int| 0 <= k < df.len() ==> df[k] == #[trigger] t[k + 1]);
        }
        lemma_insert_stable_class(df, x, key, p);
        let rest = insert_stable(df, x, key);
        assert(out == seq![t[0]] + rest);
        assert((seq![t[0]] + rest).filter(pred) == seq![t[0]].filter(pred) + rest.filter(pred));
        assert(t =~= seq![t[0]] + df);
        assert((seq![t[0]] + df).filter(pred) == seq![t[0]].filter(pred) + df.filter(pred));
        if pred(x) {
            assert(seq![t[0]].filter(pred) + df.filter(pred).push(x) =~= (seq![t[0]].filter(pred)
                + df.filter(pred)).push(x));
        }
    }
}

/// Law: the sort is stable — for any pivot, the items tying with it
/// under the active key come out in exactly their original order.
pub proof fn lemma_sort_spec_stable(s: Seq<VersionView>, key: SortKey, p: VersionView)
    requires
        forall|k: int| 0 <= k < s.len() ==> valid_version(#[trigger] s[k]),
        valid_version(p),
    ensures
        class_of(sort_spec(s, key), key, p) == class_of(s, key, p),
    decreases s.len(),
{
    if s.len() > 0 {
        let pred = |v: VersionView| key_cmp(key, v, p) == Ordering::Equal;
        let d = s.drop_last();
        let x = s.last();
        assert(forall|k: int| 0 <= k < d.len() ==> valid_version(#[trigger] d[k])) by {
            assert(forall|k: int| 0 <= k < d.len() ==> d[k] == #[trigger] s[k]);
        }
        lemma_sort_spec_stable(d, key, p);
        let t = sort_spec(d, key);
        lemma_sort_spec_sorted(d, key);
        lemma_sort_spec_valid(d, key);
        lemma_insert_stable_class(t, x, key, p);
        lemma_filter_push(d, x, pred);
        assert(d.push(x) =~= s);
    }
}

/// Under either key, `!= Greater` composes.
proof fn lemma_key_trans_le(key: SortKey, a: VersionView, b: VersionView, c: VersionView)
    requires
        valid_version(a),
        valid_version(b),
        valid_version(c),
        key_cmp(key, a, b) != Ordering::Greater,
        key_cmp(key, b, c) != Ordering::Greater,
    ensures
        key_cmp(key, a, c) != Ordering::Greater,
{
    match key {
        SortKey::Semantic => {
            lemma_semantic_transitive(a, b, c);
        },
        SortKey::Lexical => {
            lemma_lexical_eq(a, b);
            lemma_lexical_eq(b, c);
            if lexical_cmp(a, b) == Ordering::Less && lexical_cmp(b, c) == Ordering::Less {
                lemma_lexical_transitive(a, b, c);
            }
        },
    }
}

/// In an ordered sequence no earlier item is greater than a later one.
proof fn lemma_sorted_pairwise(s: Seq<VersionView>, key: SortKey, i: int, j: int)
    requires
        sorted_by(s, key),
        forall|k: int| 0 <= k < s.len() ==> valid_version(#[trigger] s[k]),
        0 <= i <= j < s.len(),
    ensures
        key_cmp(key, s[i], s[j]) != Ordering::Greater,
    decreases j - i,
{
    if i == j {
        lemma_compare_self(s[i]);
    } else {
        lemma_sorted_pairwise(s, key, i, j - 1);
        assert(key_cmp(key, s[j - 1], s[j]) != Ordering::Greater);
        lemma_key_trans_le(key, s[i], s[j - 1], s[j]);
    }
}

/// Every item the flattening keeps is an item of the input.
proof fn lemma_flatten_member(s: Seq<VersionView>, key: SortKey, i: int)
    requires
        0 <= i < flatten_spec(s, key).len(),
    ensures
        exists|k: int| 0 <= k < s.len() && flatten_spec(s, key)[i] == s[k],
    decreases s.len(),
{
    let flat = flatten_spec(s, key);
    if s.len() <= 1 {
        assert(flat[i] == s[i]);
    } else {
        let d = s.drop_last();
        let prefix = flatten_spec(d, key);
        if i < prefix.len() {
            lemma_flatten_member(d, key, i);
            let k = choose|k: int| 0 <= k < d.len() && prefix[i] == d[k];
            assert(flat[i] == s[k]);
        } else {
            assert(flat[i] == s.last());
            assert(flat[i] == s[s.len() - 1]);
        }
    }
}

/// Law: on input ordered under the key, flattening leaves no two
/// key-equal items anywhere in the output — collapsing adjacent runs
/// and collapsing all equal items come to the same thing there.
pub proof fn lemma_flatten_no_equal_pair(s: Seq<VersionView>, key: SortKey)
    requires
        sorted_by(s, key),
        forall|k: int| 0 <= k < s.len() ==> valid_version(#[trigger] s[k]),
    ensures
        forall|i: int, j: int|
            0 <= i < j < flatten_spec(s, key).len() ==> key_cmp(
                key,
                #[trigger] flatten_spec(s, key)[i],
                #[trigger] flatten_spec(s, key)[j],
            ) != Ordering::Equal,
    decreases s.len(),
{
    let flat = flatten_spec(s, key);
    if s.len() <= 1 {
    } else {
        let n = s.len() as int;
        let d = s.drop_last();
        assert(sorted_by(d, key)) by {
            assert forall|i: int, j: int|
                0 <= i && j == i + 1 && j < d.len() implies key_cmp(
                key,
                #[trigger] d[i],
                #[trigger] d[j],
            ) != Ordering::Greater by {
                assert(d[i] == s[i] && d[j] == s[j]);
            }
        }
        lemma_flatten_no_equal_pair(d, key);
        let prefix = flatten_spec(d, key);
        if key_cmp(key, s[n - 2], s.last()) == Ordering::Equal {
            assert(flat == prefix);
        } else {
            assert(flat == prefix.push(s.last()));
            assert forall|i: int, j: int|
                0 <= i < j < flat.len() implies key_cmp(
                key,
                #[trigger] flat[i],
                #[trigger] flat[j],
            ) != Ordering::Equal by {
                if j < prefix.len() {
                    assert(flat[i] == prefix[i] && flat[j] == prefix[j]);
                } else {
                    assert(flat[j] == s[n - 1]);
                    assert(flat[i] == prefix[i]);
                    lemma_flatten_member(d, key, i);
                    let k = choose|k: int| 0 <= k < d.len() && prefix[i] == d[k];
                    assert(flat[i] == s[k]);
                    if key_cmp(key, flat[i], flat[j]) == Ordering::Equal {
                        // s[k] is equal to the last item, yet not
                        // greater than s[n-2], which is not greater
                        // than the last item: the run would reach
                        // s[n-2] after all.
                        lemma_sorted_pairwise(s, key, k, n - 2);
                        assert(key_cmp(key, s[n - 2], s[n - 1]) != Ordering::Greater);
                        lemma_key_antisym(key, s[k], s[n - 1]);
                        assert(key_cmp(key, s[n - 1], s[k]) == Ordering::Equal);
                        lemma_key_trans_le(key, s[n - 1], s[k], s[n - 2]);
                        lemma_key_antisym(key, s[n - 2], s[n - 1]);
                        assert(false);
                    }
                }
            }
        }
    }
}

/// The items retained by the filter, in their original order.
pub open spec fn kept_spec(items: Seq<VersionView>, filter: Option<Seq<char>>) -> Seq<
    VersionView,
> {
    match filter {
        Some(f) => items.filter(|v: VersionView| req_match(f, text_chars(canonical(v)))),
        None => items,
    }
}

/// The whole pipeline on the retained items: stable sort under the
/// key, then optional flattening, then optional reversal.
pub open spec fn sort_pipeline(
    items: Seq<VersionView>,
    filter: Option<Seq<char>>,
    key: SortKey,
    flatten: bool,
    reverse: bool,
) -> Seq<VersionView> {
    let sorted = sort_spec(kept_spec(items, filter), key);
    let flat = if flatten {
        flatten_spec(sorted, key)
    } else {
        sorted
    };
    if reverse {
        flat.reverse()
    } else {
        flat
    }
}

/// A pair the semantic axis cannot order deterministically: equal
/// semantically, distinct as canonical strings.
pub open spec fn ambiguous_pair(a: VersionView, b: VersionView) -> bool {
    semantic_cmp(a, b) == Ordering::Equal && canonical(a) != canonical(b)
}

/// Some two items of `s` form an ambiguous pair.
pub open spec fn has_ambiguity(s: Seq<VersionView>) -> bool {
    exists|i: int, j: int|
        0 <= i < s.len() && 0 <= j < s.len() && i != j && ambiguous_pair(s[i], s[j])
}

/// The text of the optional filter argument.
pub open spec fn spec_filter_text(filter: Option<&str>) -> Option<Seq<char>> {
    match filter {
        Some(f) => Some(f@),
        None => None,
    }
}

/// The filter argument, if present, is well formed.
pub open spec fn filter_ok(ft: Option<Seq<char>>) -> bool {
    ft is Some ==> req_wf(ft->0)
}

/// Why a sort failed.
#[derive(Debug)]
pub enum SortError {
    /// The range expression handed as the filter does not parse.
    InvalidFilter { filter: String },
    /// Ambiguity checking was requested and these two retained items
    /// are semantically equal yet textually distinct, so a semantic
    /// sort cannot place them deterministically.
    Ambiguous { left: Version, right: Version },
}

/// The active key's comparison of two versions.
pub fn key_compare(a: &Version, b: &Version, key: SortKey) -> (r: Ordering)
    requires
        a.wf(),
        b.wf(),
    ensures
        r == key_cmp(key, a@, b@),
{
    match key {
        SortKey::Semantic => crate::compare::semantic_compare(a, b),
        SortKey::Lexical => crate::compare::lexical_compare(a, b),
    }
}

/// Where the first-greater-element scan stops is where
/// [`insert_stable`] puts the new item.
#[verifier::rlimit(30)]
proof fn lemma_insert_stable_at(s: Seq<VersionView>, x: VersionView, key: SortKey, j: int)
    requires
        0 <= j <= s.len(),
        forall|i: int| 0 <= i < j ==> key_cmp(key, s[i], x) != Ordering::Greater,
        j < s.len() ==> key_cmp(key, s[j], x) == Ordering::Greater,
    ensures
        insert_stable(s, x, key) == s.take(j).push(x) + s.skip(j),
    decreases s.len(),
{
    if s.len() == 0 {
        assert(s.take(0).push(x) + s.skip(0) =~= seq![x]);
    } else if j == 0 {
        assert(s.take(0).push(x) + s.skip(0) =~= seq![x] + s);
    } else {
        let df = s.drop_first();
        assert(forall|i: int| 0 <= i < j - 1 ==> #[trigger] df[i] == s[i + 1]);
        assert(j - 1 < df.len() ==> key_cmp(key, df[j - 1], x) == Ordering::Greater);
        lemma_insert_stable_at(df, x, key, j - 1);
        assert(insert_stable(s, x, key) == seq![s[0]] + (df.take(j - 1).push(x) + df.skip(j
            - 1)));
        assert(seq![s[0]] + (df.take(j - 1).push(x) + df.skip(j - 1)) =~= s.take(j).push(x)
            + s.skip(j));
    }
}

/// Insert a version into a vector at the position [`insert_stable`]
/// specifies.
fn insert_sorted(out: &mut Vec<Version>, x: Version, key: SortKey)
    requires
        forall|i: int| 0 <= i < old(out)@.len() ==> (#[trigger] old(out)@[i]).wf(),
        x.wf(),
    ensures
        vviews(final(out)@) == insert_stable(vviews(old(out)@), x@, key),
        forall|i: int| 0 <= i < final(out)@.len() ==> (#[trigger] final(out)@[i]).wf(),
{
    let n = out.len();
    let mut j: usize = 0;
    let mut stop = false;
    while j < n && !stop
        invariant
            j <= n,
            n == out@.len(),
            out@ == old(out)@,
            x.wf(),
            forall|i: int| 0 <= i < out@.len() ==> (#[trigger] out@[i]).wf(),
            forall|i: int| 0 <= i < j ==> key_cmp(key, vviews(out@)[i], x@) != Ordering::Greater,
            stop ==> j < n && key_cmp(key, vviews(out@)[j as int], x@) == Ordering::Greater,
        decreases n - j - (if stop {
            1int
        } else {
            0int
        }),
    {
        let o = key_compare(&out[j], &x, key);
        proof {
            assert(vviews(out@)[j as int] == out@[j as int]@);
        }
        if matches!(o, Ordering::Greater) {
            stop = true;
        } else {
            j = j + 1;
        }
    }
    proof {
        lemma_insert_stable_at(vviews(out@), x@, key, j as int);
    }
    let ghost prev = out@;
    let ghost xv = x@;
    out.insert(j, x);
    proof {
        assert(out@ == prev.insert(j as int, x));
        assert forall|i: int| 0 <= i < out@.len() implies (#[trigger] out@[i]).wf() by {
            if i < j {
                assert(out@[i] == prev[i]);
            } else if i == j {
                assert(out@[i] == x);
            } else {
                assert(out@[i] == prev[i - 1]);
            }
        }
        assert(vviews(out@) =~= vviews(prev).take(j as int).push(xv) + vviews(prev).skip(
            j as int,
        )) by {
            assert forall|i: int| 0 <= i < out@.len() implies vviews(out@)[i] == (vviews(
                prev,
            ).take(j as int).push(xv) + vviews(prev).skip(j as int))[i] by {
                if i < j {
                    assert(out@[i] == prev[i]);
                } else if i == j {
                    assert(out@[i] == x);
                } else {
                    assert(out@[i] == prev[i - 1]);
                }
            }
        }
    }
}

/// Stable sort under the key: the result is exactly [`sort_spec`] of
/// the input.
fn stable_sort(items: &Vec<Version>, key: SortKey) -> (r: Vec<Version>)
    requires
        forall|i: int| 0 <= i < items@.len() ==> (#[trigger] items@[i]).wf(),
    ensures
        vviews(r@) == sort_spec(vviews(items@), key),
        forall|i: int| 0 <= i < r@.len() ==> (#[trigger] r@[i]).wf(),
{
    let mut out: Vec<Version> = Vec::new();
    let mut i: usize = 0;
    proof {
        assert(vviews(items@).take(0) =~= Seq::<VersionView>::empty());
        assert(vviews(out@) =~= Seq::<VersionView>::empty());
    }
    while i < items.len()
        invariant
            i <= items@.len(),
            forall|k: int| 0 <= k < items@.len() ==> (#[trigger] items@[k]).wf(),
            forall|k: int| 0 <= k < out@.len() ==> (#[trigger] out@[k]).wf(),
            vviews(out@) == sort_spec(vviews(items@).take(i as int), key),
        decreases items@.len() - i,
    {
        let x = copy_version(&items[i]);
        proof {
            assert(x@ == items@[i as int]@);
        }
        insert_sorted(&mut out, x, key);
        i = i + 1;
        proof {
            let vs = vviews(items@);
            assert(vs.take(i as int).drop_last() =~= vs.take(i as int - 1));
            assert(vs.take(i as int).last() == vs[i as int - 1]);
        }
    }
    proof {
        assert(vviews(items@).take(items@.len() as int) =~= vviews(items@));
    }
    out
}

/// Collapse adjacent key-equal runs, keeping each run's first item.
fn flatten_runs(items: &Vec<Version>, key: SortKey) -> (r: Vec<Version>)
    requires
        forall|i: int| 0 <= i < items@.len() ==> (#[trigger] items@[i]).wf(),
    ensures
        vviews(r@) == flatten_spec(vviews(items@), key),
        forall|i: int| 0 <= i < r@.len() ==> (#[trigger] r@[i]).wf(),
{
    let mut out: Vec<Version> = Vec::new();
    let mut i: usize = 0;
    proof {
        assert(vviews(items@).take(0) =~= Seq::<VersionView>::empty());
        assert(vviews(out@) =~= Seq::<VersionView>::empty());
    }
    while i < items.len()
        invariant
            i <= items@.len(),
            forall|k: int| 0 <= k < items@.len() ==> (#[trigger] items@[k]).wf(),
            forall|k: int| 0 <= k < out@.len() ==> (#[trigger] out@[k]).wf(),
            vviews(out@) == flatten_spec(vviews(items@).take(i as int), key),
        decreases items@.len() - i,
    {
        let ghost vs = vviews(items@);
        let keep: bool = if i == 0 {
            true
        } else {
            let o = key_compare(&items[i - 1], &items[i], key);
            !matches!(o, Ordering::Equal)
        };
        if keep {
            out.push(copy_version(&items[i]));
        }
        i = i + 1;
        proof {
            assert(vs.take(i as int).drop_last() =~= vs.take(i as int - 1));
            assert(vs.take(i as int).last() == vs[i as int - 1]);
            if i == 1 {
                assert(flatten_spec(vs.take(1), key) == vs.take(1));
                assert(vviews(out@) =~= vs.take(1));
            } else {
                assert(vs.take(i as int)[i - 2] == vs[i as int - 2]);
                if keep {
                    assert(vviews(out@) =~= flatten_spec(vs.take(i as int - 1), key).push(
                        vs[i as int - 1],
                    ));
                }
            }
        }
    }
    proof {
        assert(vviews(items@).take(items@.len() as int) =~= vviews(items@));
    }
    out
}

/// The same versions in the opposite order.
fn reverse_vec(items: &Vec<Version>) -> (r: Vec<Version>)
    requires
        forall|i: int| 0 <= i < items@.len() ==> (#[trigger] items@[i]).wf(),
    ensures
        vviews(r@) == vviews(items@).reverse(),
        forall|i: int| 0 <= i < r@.len() ==> (#[trigger] r@[i]).wf(),
{
    let mut out: Vec<Version> = Vec::new();
    let n = items.len();
    let mut i: usize = 0;
    while i < n
        invariant
            i <= n,
            n == items@.len(),
            out@.len() == i,
            forall|k: int| 0 <= k < items@.len() ==> (#[trigger] items@[k]).wf(),
            forall|k: int| 0 <= k < i ==> #[trigger] out@[k]@ == items@[n - 1 - k]@,
        decreases n - i,
    {
        out.push(copy_version(&items[n - 1 - i]));
        i = i + 1;
    }
    proof {
        assert(vviews(out@) =~= vviews(items@).reverse());
        assert forall|k: int| 0 <= k < out@.len() implies (#[trigger] out@[k]).wf() by {
            assert(out@[k]@ == items@[n - 1 - k]@);
            assert(items@[n - 1 - k].wf());
        }
    }
    out
}

/// Find two items that are semantically equal yet textually distinct,
/// if any two exist; the scan covers every pair, adjacent or not.
fn find_ambiguous(items: &Vec<Version>) -> (r: Option<(Version, Version)>)
    requires
        forall|i: int| 0 <= i < items@.len() ==> (#[trigger] items@[i]).wf(),
    ensures
        match r {
            Some(p) => ambiguous_pair(p.0@, p.1@) && vviews(items@).contains(p.0@) && vviews(
                items@,
            ).contains(p.1@) && has_ambiguity(vviews(items@)),
            None => !has_ambiguity(vviews(items@)),
        },
{
    let ghost vs = vviews(items@);
    let n = items.len();
    let mut i: usize = 0;
    while i < n
        invariant
            i <= n,
            n == items@.len(),
            vs == vviews(items@),
            forall|a: int, b: int|
                0 <= a < i && 0 <= b < vs.len() && a != b ==> !ambiguous_pair(
                    #[trigger] vs[a],
                    #[trigger] vs[b],
                ),
            forall|k: int| 0 <= k < items@.len() ==> (#[trigger] items@[k]).wf(),
        decreases n - i,
    {
        let mut j: usize = 0;
        while j < n
            invariant
                i < n,
                j <= n,
                n == items@.len(),
                vs == vviews(items@),
                forall|b: int|
                    0 <= b < j && i != b ==> !ambiguous_pair(vs[i as int], #[trigger] vs[b]),
                forall|k: int| 0 <= k < items@.len() ==> (#[trigger] items@[k]).wf(),
            decreases n - j,
        {
            if j != i {
                let o = crate::compare::semantic_compare(&items[i], &items[j]);
                if matches!(o, Ordering::Equal) && !eq_version(&items[i], &items[j]) {
                    proof {
                        assert(vs[i as int] == items@[i as int]@);
                        assert(vs[j as int] == items@[j as int]@);
                        if canonical(vs[i as int]) == canonical(vs[j as int]) {
                            lemma_canonical_injective(vs[i as int], vs[j as int]);
                        }
                        assert(ambiguous_pair(vs[i as int], vs[j as int]));
                    }
                    let left = copy_version(&items[i]);
                    let right = copy_version(&items[j]);
                    proof {
                        assert(vs.contains(left@)) by {
                            assert(vs[i as int] == left@);
                        }
                        assert(vs.contains(right@)) by {
                            assert(vs[j as int] == right@);
                        }
                    }
                    return Some((left, right));
                }
                proof {
                    assert(vs[i as int] == items@[i as int]@);
                    assert(vs[j as int] == items@[j as int]@);
                    assert(!ambiguous_pair(vs[i as int], vs[j as int]));
                }
            }
            j = j + 1;
        }
        i = i + 1;
    }
    proof {
        assert(!has_ambiguity(vs));
    }
    None
}

/// The filtered-push step: filtering a one-longer prefix either keeps
/// the new item at the end or drops it.
proof fn lemma_filter_push(s: Seq<VersionView>, x: VersionView, pred: spec_fn(VersionView) -> bool)
    ensures
        s.push(x).filter(pred) == if pred(x) {
            s.filter(pred).push(x)
        } else {
            s.filter(pred)
        },
{
    reveal(Seq::filter);
    assert(s.push(x).drop_last() =~= s);
    assert(s.push(x).last() == x);
}

/// Retain the items that match the filter, in order.
fn apply_filter(items: &Vec<Version>, f: &str) -> (r: Vec<Version>)
    requires
        req_wf(f@),
        forall|i: int| 0 <= i < items@.len() ==> (#[trigger] items@[i]).wf(),
    ensures
        vviews(r@) == kept_spec(vviews(items@), Some(f@)),
        forall|i: int| 0 <= i < r@.len() ==> (#[trigger] r@[i]).wf(),
{
    let ghost vs = vviews(items@);
    let ghost pred = |v: VersionView| req_match(f@, text_chars(canonical(v)));
    let mut kept: Vec<Version> = Vec::new();
    let mut i: usize = 0;
    proof {
        reveal(Seq::filter);
        assert(vs.take(0) =~= Seq::<VersionView>::empty());
        assert(vviews(kept@) =~= Seq::<VersionView>::empty());
        assert(Seq::<VersionView>::empty().filter(pred) =~= Seq::<VersionView>::empty());
    }
    while i < items.len()
        invariant
            i <= items@.len(),
            vs == vviews(items@),
            req_wf(f@),
            pred == (|v: VersionView| req_match(f@, text_chars(canonical(v)))),
            forall|k: int| 0 <= k < items@.len() ==> (#[trigger] items@[k]).wf(),
            forall|k: int| 0 <= k < kept@.len() ==> (#[trigger] kept@[k]).wf(),
            vviews(kept@) == vs.take(i as int).filter(pred),
        decreases items@.len() - i,
    {
        let text = items[i].to_canonical_string();
        proof {
            assert(vs[i as int] == items@[i as int]@);
            lemma_parse_canonical(vs[i as int]);
        }
        let m = filter_matches(f, text.as_str());
        let ghost prev_kept = kept@;
        if m {
            kept.push(copy_version(&items[i]));
        }
        i = i + 1;
        proof {
            lemma_filter_push(vs.take(i as int - 1), vs[i as int - 1], pred);
            assert(vs.take(i as int) =~= vs.take(i as int - 1).push(vs[i as int - 1]));
            assert(m == pred(vs[i as int - 1]));
            if m {
                assert(vviews(kept@) =~= vviews(prev_kept).push(vs[i as int - 1]));
            }
        }
    }
    proof {
        assert(vs.take(items@.len() as int) =~= vs);
    }
    kept
}

/// Sort a set of versions.
///
/// Pipeline: retain the items the filter accepts (a malformed filter
/// fails the whole operation first); stable-sort them under `key`;
/// when `ambiguity_check` is set, fail if any two retained items are
/// semantically equal yet textually distinct (the scan covers all
/// pairs, not only neighbours); when `flatten` is set, collapse
/// key-equal runs to their first item; when `reverse` is set, invert
/// the final order (reversal comes after flattening).
pub fn sort(
    items: &Vec<Version>,
    key: SortKey,
    reverse: bool,
    flatten: bool,
    ambiguity_check: bool,
    filter: Option<&str>,
) -> (r: Result<Vec<Version>, SortError>)
    requires
        forall|i: int| 0 <= i < items@.len() ==> (#[trigger] items@[i]).wf(),
    ensures
        ({
            let ft = spec_filter_text(filter);
            let kept = kept_spec(vviews(items@), ft);
            match r {
                Ok(out) => filter_ok(ft) && !(ambiguity_check && has_ambiguity(kept)) && vviews(
                    out@,
                ) == sort_pipeline(vviews(items@), ft, key, flatten, reverse) && (forall|i: int|
                    0 <= i < out@.len() ==> (#[trigger] out@[i]).wf()),
                Err(SortError::InvalidFilter { filter: bad }) => ft is Some && !req_wf(ft->0)
                    && bad@ == ft->0,
                Err(SortError::Ambiguous { left, right }) => filter_ok(ft) && ambiguity_check
                    && ambiguous_pair(left@, right@) && kept.contains(left@) && kept.contains(
                    right@,
                ) && has_ambiguity(kept),
            }
        }),
        r is Err <==> (!filter_ok(spec_filter_text(filter)) || (ambiguity_check && filter_ok(
            spec_filter_text(filter),
        ) && has_ambiguity(kept_spec(vviews(items@), spec_filter_text(filter))))),
{
    let kept: Vec<Version> = match filter {
        Some(f) => {
            if !check_filter(f) {
                return Err(SortError::InvalidFilter { filter: String::from_str(f) });
            }
            apply_filter(items, f)
        },
        None => {
            let mut all: Vec<Version> = Vec::new();
            let mut i: usize = 0;
            while i < items.len()
                invariant
                    i <= items@.len(),
                    all@.len() == i,
                    forall|k: int| 0 <= k < items@.len() ==> (#[trigger] items@[k]).wf(),
                    forall|k: int| 0 <= k < i ==> #[trigger] all@[k]@ == items@[k]@,
                decreases items@.len() - i,
            {
                all.push(copy_version(&items[i]));
                i = i + 1;
            }
            proof {
                assert(vviews(all@) =~= vviews(items@));
                assert forall|k: int| 0 <= k < all@.len() implies (#[trigger] all@[k]).wf() by {
                    assert(all@[k]@ == items@[k]@);
                    assert(items@[k].wf());
                }
            }
            all
        },
    };
    if ambiguity_check {
        match find_ambiguous(&kept) {
            Some((left, right)) => {
                return Err(SortError::Ambiguous { left, right });
            },
            None => {},
        }
    }
    let sorted = stable_sort(&kept, key);
    let flat = if flatten {
        flatten_runs(&sorted, key)
    } else {
        sorted
    };
    let out = if reverse {
        reverse_vec(&flat)
    } else {
        flat
    };
    Ok(out)
}

} // verus!
