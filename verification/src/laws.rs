//! The algebraic laws of the smart constructors, proved over the
//! functional models of `crate::model`.
//!
//! Each law is stated for an arbitrary well-formed store and arbitrary
//! valid references, so it covers every store a sequence of constructor
//! calls can produce (`ExprSet`'s constructors keep `store_ok` and only
//! grow the store).

use crate::hashcons::{has_record, record_ref, records_unique, spec_insert};
use crate::model::{
    all_nullable, all_ones, and_list, any_nullable, concat_list, drop_empties, flat_one,
    flatten, head_word, lemma_and_list_props, lemma_drop_empties_concat,
    lemma_drop_empties_elems, lemma_flatten_elems, lemma_flatten_grow, lemma_head_word,
    lemma_or_list_props, lemma_sort_refs, lemma_squash_props, lemma_strict_sorted_eq, leq32,
    nary_rec, nullable_sem, or_list, rec, rec_items, rec_nullable, rec_tag, sort_refs, spec_mk_and,
    spec_mk_byte, spec_mk_byte_set, spec_mk_concat, spec_mk_not, spec_mk_or, spec_mk_repeat,
    squash, store_ok, store_wf, valid_ref, wf_record, word_nullable, word_tag, REF_ANY_BYTE,
    REF_ANY_STRING, REF_EMPTY_STRING, REF_NON_EMPTY_STRING, REF_NO_MATCH, REP_INF, TAG_AND, TAG_BYTE,
    TAG_BYTE_SET, TAG_CONCAT, TAG_EMPTY_STRING, TAG_NOT, TAG_NO_MATCH, TAG_OR, TAG_REPEAT,
};
use vstd::prelude::*;

verus! {

// ---------------------------------------------------------------------
// helpers
// ---------------------------------------------------------------------
/// Membership in a concatenation of sequences.
proof fn lemma_concat_contains(a: Seq<u32>, b: Seq<u32>)
    ensures
        forall|x: u32| #[trigger] (a + b).contains(x) <==> a.contains(x) || b.contains(x),
{
    assert forall|x: u32| #[trigger] (a + b).contains(x) <==> a.contains(x) || b.contains(
        x,
    ) by {
        if (a + b).contains(x) {
            let i = choose|i: int| 0 <= i < (a + b).len() && (a + b)[i] == x;
            if i < a.len() {
                assert(a[i] == x);
            } else {
                assert(b[i - a.len()] == x);
            }
        }
        if a.contains(x) {
            let i = choose|i: int| 0 <= i < a.len() && a[i] == x;
            assert((a + b)[i] == x);
        }
        if b.contains(x) {
            let i = choose|i: int| 0 <= i < b.len() && b[i] == x;
            assert((a + b)[a.len() + i] == x);
        }
    }
}

/// Two argument lists with the same elements have the same canonical
/// sorted, deduplicated form.
proof fn lemma_canonical_same_set(s: Seq<u32>, t: Seq<u32>, dp: u32)
    requires
        forall|x: u32| x != dp ==> (s.contains(x) <==> t.contains(x)),
    ensures
        squash(sort_refs(s), dp, dp) == squash(sort_refs(t), dp, dp),
{
    lemma_sort_refs(s);
    lemma_sort_refs(t);
    lemma_squash_props(sort_refs(s), dp, dp);
    lemma_squash_props(sort_refs(t), dp, dp);
    assert forall|x: u32|
        squash(sort_refs(s), dp, dp).contains(x) <==> squash(sort_refs(t), dp, dp).contains(
        x,
    ) by {
        assert(squash(sort_refs(s), dp, dp).contains(x) <==> (s.contains(x) && x != dp));
        assert(squash(sort_refs(t), dp, dp).contains(x) <==> (t.contains(x) && x != dp));
    }
    lemma_strict_sorted_eq(squash(sort_refs(s), dp, dp), squash(sort_refs(t), dp, dp));
}

/// The canonical union list only reads argument records, so it is
/// stable when the store grows.
proof fn lemma_or_list_grow(v: Seq<Seq<u32>>, v2: Seq<Seq<u32>>, args: Seq<u32>)
    requires
        v.is_prefix_of(v2),
        forall|i: int| 0 <= i < args.len() ==> valid_ref(v, #[trigger] args[i]),
    ensures
        or_list(v2, args) == or_list(v, args),
        flatten(v2, TAG_OR, args) == flatten(v, TAG_OR, args),
{
    lemma_flatten_grow(v, v2, TAG_OR, args);
}

proof fn lemma_and_list_grow(v: Seq<Seq<u32>>, v2: Seq<Seq<u32>>, args: Seq<u32>)
    requires
        v.is_prefix_of(v2),
        forall|i: int| 0 <= i < args.len() ==> valid_ref(v, #[trigger] args[i]),
    ensures
        and_list(v2, args) == and_list(v, args),
        flatten(v2, TAG_AND, args) == flatten(v, TAG_AND, args),
{
    lemma_flatten_grow(v, v2, TAG_AND, args);
}

/// Unfold flattening of a two-element argument list.
proof fn lemma_flatten_two(v: Seq<Seq<u32>>, tag: u32, a: u32, b: u32)
    ensures
        flatten(v, tag, seq![a, b]) == flat_one(v, tag, a) + flat_one(v, tag, b),
{
    let s = seq![a, b];
    assert(s.drop_first() =~= seq![b]);
    assert(seq![b].drop_first() =~= Seq::<u32>::empty());
    assert(flatten(v, tag, s) == flat_one(v, tag, a) + flatten(v, tag, seq![b]));
    assert(flatten(v, tag, seq![b]) == flat_one(v, tag, b) + flatten(
        v,
        tag,
        Seq::<u32>::empty(),
    ));
    assert(flatten(v, tag, Seq::<u32>::empty()) == Seq::<u32>::empty());
    assert(flat_one(v, tag, a) + (flat_one(v, tag, b) + Seq::<u32>::empty()) =~= flat_one(
        v,
        tag,
        a,
    ) + flat_one(v, tag, b));
}

/// Unfold flattening of a three-element argument list.
proof fn lemma_flatten_three(v: Seq<Seq<u32>>, tag: u32, a: u32, b: u32, c: u32)
    ensures
        flatten(v, tag, seq![a, b, c]) == flat_one(v, tag, a) + (flat_one(v, tag, b) + flat_one(
            v,
            tag,
            c,
        )),
{
    let s = seq![a, b, c];
    assert(s.drop_first() =~= seq![b, c]);
    lemma_flatten_two(v, tag, b, c);
}

// ---------------------------------------------------------------------
// idempotence of insertion and record counting
// ---------------------------------------------------------------------
/// The record count never decreases, and grows by one exactly when the
/// inserted word sequence is new: the count equals the number of
/// distinct record contents ever issued.
pub proof fn lemma_len_counts_distinct(v: Seq<Seq<u32>>, w: Seq<u32>)
    ensures
        ({
            let (v2, r) = spec_insert(v, w);
            &&& v.len() <= v2.len()
            &&& (has_record(v, w) ==> v2 == v)
            &&& (!has_record(v, w) ==> v2.len() == v.len() + 1)
        }),
{
}

// ---------------------------------------------------------------------
// nullability (the NULLABLE flag is semantically correct)
// ---------------------------------------------------------------------
/// The stored NULLABLE flag of every record equals the recursive
/// semantic nullability computed over the stored structure.
pub proof fn lemma_nullable_correct(v: Seq<Seq<u32>>, aw: int, r: u32)
    requires
        store_ok(v, aw),
        valid_ref(v, r),
    ensures
        rec_nullable(v, r) == nullable_sem(v, r),
    decreases r,
{
    assert(wf_record(v, aw, r));
    let w = v[r as int];
    let t = word_tag(w[0]);
    if t == TAG_EMPTY_STRING {
    } else if t == TAG_NO_MATCH || t == TAG_BYTE || t == TAG_BYTE_SET {
    } else if t == TAG_NOT {
        lemma_nullable_correct(v, aw, w[1]);
    } else if t == TAG_REPEAT {
        lemma_nullable_correct(v, aw, w[1]);
    } else if t == TAG_CONCAT || t == TAG_AND {
        assert forall|i: int| 1 <= i < w.len() implies (#[trigger] w[i] < r && (nullable_sem(
            v,
            w[i],
        ) == rec_nullable(v, w[i]))) by {
            lemma_nullable_correct(v, aw, w[i]);
        }
        assert(nullable_sem(v, r) == (forall|i: int|
            1 <= i < w.len() ==> ((#[trigger] w[i]) < r && nullable_sem(v, w[i]))));
        if word_nullable(w[0]) {
            assert forall|i: int| 1 <= i < w.len() implies ((#[trigger] w[i]) < r
                && nullable_sem(v, w[i])) by {
                assert(rec_nullable(v, w[i]));
            }
        } else {
            let j = choose|j: int| 1 <= j < w.len() && !rec_nullable(v, #[trigger] w[j]);
            assert(!nullable_sem(v, w[j]));
        }
    } else {
        assert(t == TAG_OR);
        assert forall|i: int| 1 <= i < w.len() implies (#[trigger] w[i] < r && (nullable_sem(
            v,
            w[i],
        ) == rec_nullable(v, w[i]))) by {
            lemma_nullable_correct(v, aw, w[i]);
        }
        if word_nullable(w[0]) {
            let j = choose|j: int| 1 <= j < w.len() && rec_nullable(v, #[trigger] w[j]);
            assert(w[j] < r && nullable_sem(v, w[j]));
        } else {
            if nullable_sem(v, r) {
                let j = choose|j: int|
                    1 <= j < w.len() && (#[trigger] w[j]) < r && nullable_sem(v, w[j]);
                assert(rec_nullable(v, w[j]));
            }
        }
    }
}

// ---------------------------------------------------------------------
// repetition boundary laws
// ---------------------------------------------------------------------
/// A repetition with equal bounds collapses to `EmptyString` (the one
/// exception is a `NoMatch` body with a positive bound, which collapses
/// to `NoMatch` first).
pub proof fn lemma_repeat_equal_bounds(v: Seq<Seq<u32>>, e: u32, k: u32)
    requires
        e != REF_NO_MATCH,
    ensures
        spec_mk_repeat(v, e, k, k) == (v, REF_EMPTY_STRING),
{
}

/// A repetition of zero or more times is always nullable.
pub proof fn lemma_star_nullable(v: Seq<Seq<u32>>, aw: int, e: u32)
    requires
        store_ok(v, aw),
        v.len() <= 0x0010_0000,
        valid_ref(v, e),
    ensures
        ({
            let (v2, r) = spec_mk_repeat(v, e, 0, REP_INF);
            rec_nullable(v2, r)
        }),
{
    lemma_head_word(TAG_EMPTY_STRING);
    lemma_head_word(TAG_REPEAT);
    if e == REF_NO_MATCH {
        assert(rec_nullable(v, REF_EMPTY_STRING)) by {
            assert(v[1][0] == head_word(TAG_EMPTY_STRING, true));
        }
    } else {
        let l2: u32 = if rec_nullable(v, e) {
            0
        } else {
            0
        };
        let w = seq![head_word(TAG_REPEAT, true), e, 0u32, REP_INF];
        let (v2, r) = spec_insert(v, w);
        if has_record(v, w) {
            let i = record_ref(v, w);
            assert(1 <= i < v.len() && v[i] == w);
        } else {
            assert(v2[r as int] == w);
        }
    }
}

/// A repetition of one or more times of a non-nullable expression is
/// non-nullable.
pub proof fn lemma_plus_non_nullable(v: Seq<Seq<u32>>, aw: int, e: u32)
    requires
        store_ok(v, aw),
        v.len() <= 0x0010_0000,
        valid_ref(v, e),
        !rec_nullable(v, e),
    ensures
        ({
            let (v2, r) = spec_mk_repeat(v, e, 1, REP_INF);
            !rec_nullable(v2, r)
        }),
{
    lemma_head_word(TAG_NO_MATCH);
    lemma_head_word(TAG_REPEAT);
    if e == REF_NO_MATCH {
        assert(v[2] == seq![TAG_NO_MATCH]);
    } else {
        let w = seq![head_word(TAG_REPEAT, false), e, 1u32, REP_INF];
        let (v2, r) = spec_insert(v, w);
        if has_record(v, w) {
            let i = record_ref(v, w);
            assert(1 <= i < v.len() && v[i] == w);
        } else {
            assert(v2[r as int] == w);
        }
    }
}

// ---------------------------------------------------------------------
// byte-set boundary laws
// ---------------------------------------------------------------------
/// The all-zero bitmap yields `NoMatch`; the all-ones bitmap yields the
/// reserved `AnyByte` expression.
pub proof fn lemma_byte_set_bounds(v: Seq<Seq<u32>>, aw: int)
    requires
        store_ok(v, aw),
    ensures
        spec_mk_byte_set(v, Seq::new(aw as nat, |i: int| 0u32)) == (v, REF_NO_MATCH),
        spec_mk_byte_set(v, all_ones(aw)) == (v, REF_ANY_BYTE),
{
    let zeros = Seq::new(aw as nat, |i: int| 0u32);
    assert(forall|i: int| 0 <= i < zeros.len() ==> zeros[i] == 0);
    let ones = all_ones(aw);
    assert(ones[0] != 0);
    assert(!(forall|i: int| 0 <= i < ones.len() ==> ones[i] == 0));
    let w = seq![TAG_BYTE_SET] + ones;
    assert(v[3] == w);
    assert(has_record(v, w)) by {
        assert(1 <= 3 < v.len() && v[3] == w);
    }
    let i = record_ref(v, w);
    assert(1 <= i < v.len() && v[i] == w);
    assert(i == 3) by {
        if i != 3 {
            assert(records_unique(v));
        }
    }
}

// ---------------------------------------------------------------------
// complement laws
// ---------------------------------------------------------------------
/// Complement is involutive: taking the complement twice returns the
/// original reference (the store may grow by the intermediate node).
pub proof fn lemma_not_involutive(v: Seq<Seq<u32>>, aw: int, e: u32)
    requires
        store_ok(v, aw),
        v.len() <= 0x0010_0000,
        valid_ref(v, e),
    ensures
        ({
            let (v1, x) = spec_mk_not(v, e);
            let (v2, r) = spec_mk_not(v1, x);
            r == e
        }),
{
    crate::model::lemma_mk_not_ok(v, aw, e);
    let (v1, x) = spec_mk_not(v, e);
    lemma_head_word(TAG_NOT);
    if e == REF_EMPTY_STRING || e == REF_NON_EMPTY_STRING || e == REF_ANY_STRING || e
        == REF_NO_MATCH {
    } else if rec_tag(v, e) == TAG_NOT {
        // x is the stored child of e; negating it rebuilds e's record
        assert(wf_record(v, aw, e));
        let c = v[e as int][1];
        assert(x == c);
        assert(v1 == v);
        assert(c != REF_EMPTY_STRING && c != REF_NON_EMPTY_STRING && c != REF_ANY_STRING && c
            != REF_NO_MATCH && rec_tag(v, c) != TAG_NOT);
        let w = seq![head_word(TAG_NOT, !rec_nullable(v, c)), c];
        assert(v[e as int] == w) by {
            assert(wf_record(v, aw, e));
            assert(v[e as int].len() == 2);
            assert(v[e as int][0] == head_word(
                word_tag(v[e as int][0]),
                word_nullable(v[e as int][0]),
            ));
            assert(word_tag(v[e as int][0]) == TAG_NOT);
            assert(word_nullable(v[e as int][0]) == !rec_nullable(v, c));
            assert(v[e as int] =~= w);
        }
        assert(has_record(v, w)) by {
            assert(1 <= e < v.len() && v[e as int] == w);
        }
        let i = record_ref(v, w);
        assert(1 <= i < v.len() && v[i] == w);
        assert(i == e as int) by {
            if i != e as int {
                assert(records_unique(v));
            }
        }
    } else {
        // x names the record Not(e); its complement is e's own reference
        let w = seq![head_word(TAG_NOT, !rec_nullable(v, e)), e];
        let (v1b, xb) = spec_insert(v, w);
        assert(v1 == v1b && x == xb);
        assert(v1[x as int] == w) by {
            if has_record(v, w) {
                let i = record_ref(v, w);
                assert(1 <= i < v.len() && v[i] == w);
            }
        }
        assert(rec_tag(v1, x) == TAG_NOT);
        assert(x != REF_EMPTY_STRING && x != REF_NON_EMPTY_STRING && x != REF_ANY_STRING && x
            != REF_NO_MATCH) by {
            assert(store_wf(v, aw));
            assert(valid_ref(v1, x));
            if x == REF_EMPTY_STRING || x == REF_NON_EMPTY_STRING || x == REF_ANY_STRING || x
                == REF_NO_MATCH {
                assert(v1[x as int] == v[x as int]);
                lemma_head_word(TAG_EMPTY_STRING);
                lemma_head_word(TAG_NO_MATCH);
                lemma_head_word(TAG_REPEAT);
            }
        }
        assert(spec_mk_not(v1, x) == (v1, rec(v1, x)[1]));
        assert(rec(v1, x)[1] == e);
    }
}

// ---------------------------------------------------------------------
// collapse: argument lists equivalent to a single expression
// ---------------------------------------------------------------------
/// A union whose flattened arguments hold exactly the alternatives of
/// the single expression `a` (ignoring `NoMatch`) returns `a` itself and
/// leaves the store unchanged.
proof fn lemma_or_collapse(v: Seq<Seq<u32>>, aw: int, args: Seq<u32>, a: u32)
    requires
        store_ok(v, aw),
        valid_ref(v, a),
        forall|i: int| 0 <= i < args.len() ==> valid_ref(v, #[trigger] args[i]),
        forall|x: u32|
            (flatten(v, TAG_OR, args).contains(x) && x != REF_NO_MATCH) <==> (flat_one(
                v,
                TAG_OR,
                a,
            ).contains(x) && x != REF_NO_MATCH),
    ensures
        spec_mk_or(v, args) == (v, a),
{
    let lst = or_list(v, args);
    lemma_or_list_props(v, aw, args);
    assert(wf_record(v, aw, a));
    let fa = flat_one(v, TAG_OR, a);
    if rec_tag(v, a) == TAG_OR {
        let items = rec_items(v, a);
        assert(fa == items);
        let w = v[a as int];
        assert forall|x: u32| lst.contains(x) <==> items.contains(x) by {
            if items.contains(x) {
                let j = choose|j: int| 0 <= j < items.len() && items[j] == x;
                assert(w[j + 1] == x);
                assert(x != REF_NO_MATCH);
            }
        }
        assert forall|i: int, j: int| 0 <= i < j < items.len() implies items[i] < items[j] by {
            assert(w[i + 1] == items[i] && w[j + 1] == items[j]);
            assert(w[i + 1] < w[j + 1]);
        }
        lemma_strict_sorted_eq(lst, items);
        assert(lst == items);
        assert(!lst.contains(REF_ANY_STRING)) by {
            if lst.contains(REF_ANY_STRING) {
                let j = choose|j: int| 0 <= j < items.len() && items[j] == REF_ANY_STRING;
                assert(w[j + 1] == REF_ANY_STRING);
            }
        }
        assert(lst.len() == w.len() - 1 >= 2);
        let nul = any_nullable(v, lst);
        let rw = nary_rec(TAG_OR, nul, lst);
        assert(rw == v[a as int]) by {
            lemma_head_word(TAG_OR);
            assert(nul == word_nullable(w[0])) by {
                if nul {
                    let j = choose|j: int| 0 <= j < lst.len() && rec_nullable(v, #[trigger] lst[j]);
                    assert(w[j + 1] == lst[j]);
                    assert(rec_nullable(v, w[j + 1]));
                }
                if word_nullable(w[0]) {
                    let j = choose|j: int| 1 <= j < w.len() && rec_nullable(v, #[trigger] w[j]);
                    assert(lst[j - 1] == w[j]);
                    assert(rec_nullable(v, lst[j - 1]));
                }
            }
            assert(w[0] == head_word(word_tag(w[0]), word_nullable(w[0])));
            assert(rw.len() == w.len());
            assert forall|i: int| 0 <= i < rw.len() implies rw[i] == w[i] by {
                if i > 0 {
                    assert(rw[i] == lst[i - 1]);
                    assert(lst[i - 1] == items[i - 1]);
                    assert(items[i - 1] == w[i]);
                }
            }
            assert(rw =~= w);
        }
        assert(has_record(v, rw)) by {
            assert(1 <= a < v.len() && v[a as int] == rw);
        }
        let i = record_ref(v, rw);
        assert(1 <= i < v.len() && v[i] == rw);
        assert(i == a as int) by {
            if i != a as int {
                assert(records_unique(v));
            }
        }
    } else if a == REF_NO_MATCH {
        assert(fa =~= seq![REF_NO_MATCH]) by {
            assert(rec_tag(v, a) == TAG_NO_MATCH) by {
                lemma_head_word(TAG_NO_MATCH);
            }
        }
        assert(lst.len() == 0) by {
            if lst.len() > 0 {
                assert(lst.contains(lst[0]));
                assert(fa.contains(lst[0]) && lst[0] != REF_NO_MATCH);
                assert(fa[0] == REF_NO_MATCH);
                let j = choose|j: int| 0 <= j < fa.len() && fa[j] == lst[0];
                assert(j == 0);
            }
        }
    } else if a == REF_ANY_STRING {
        assert(rec_tag(v, a) == TAG_REPEAT) by {
            lemma_head_word(TAG_REPEAT);
        }
        assert(fa =~= seq![REF_ANY_STRING]);
        assert(fa[0] == REF_ANY_STRING);
        assert(fa.contains(REF_ANY_STRING));
        assert(lst.contains(REF_ANY_STRING));
    } else {
        assert(fa =~= seq![a]);
        assert(fa[0] == a);
        assert(fa.contains(a));
        assert forall|x: u32| lst.contains(x) <==> seq![a].contains(x) by {
            if lst.contains(x) {
                assert(fa.contains(x) && x != REF_NO_MATCH);
                let j = choose|j: int| 0 <= j < fa.len() && fa[j] == x;
                assert(x == a);
                assert(seq![a][0] == a);
            }
            if seq![a].contains(x) {
                assert(x == a);
                assert(lst.contains(a));
            }
        }
        lemma_strict_sorted_eq(lst, seq![a]);
        assert(lst == seq![a]);
        assert(!lst.contains(REF_ANY_STRING)) by {
            if lst.contains(REF_ANY_STRING) {
                let j = choose|j: int| 0 <= j < lst.len() && lst[j] == REF_ANY_STRING;
            }
        }
        assert(lst.len() == 1 && lst[0] == a);
    }
}

/// Mirror of `lemma_or_collapse` for intersections (ignoring
/// `AnyString`).
proof fn lemma_and_collapse(v: Seq<Seq<u32>>, aw: int, args: Seq<u32>, a: u32)
    requires
        store_ok(v, aw),
        valid_ref(v, a),
        forall|i: int| 0 <= i < args.len() ==> valid_ref(v, #[trigger] args[i]),
        forall|x: u32|
            (flatten(v, TAG_AND, args).contains(x) && x != REF_ANY_STRING) <==> (flat_one(
                v,
                TAG_AND,
                a,
            ).contains(x) && x != REF_ANY_STRING),
    ensures
        spec_mk_and(v, args) == (v, a),
{
    let lst = and_list(v, args);
    lemma_and_list_props(v, aw, args);
    assert(wf_record(v, aw, a));
    let fa = flat_one(v, TAG_AND, a);
    if rec_tag(v, a) == TAG_AND {
        let items = rec_items(v, a);
        assert(fa == items);
        let w = v[a as int];
        assert forall|x: u32| lst.contains(x) <==> items.contains(x) by {
            if items.contains(x) {
                let j = choose|j: int| 0 <= j < items.len() && items[j] == x;
                assert(w[j + 1] == x);
                assert(x != REF_ANY_STRING);
            }
        }
        assert forall|i: int, j: int| 0 <= i < j < items.len() implies items[i] < items[j] by {
            assert(w[i + 1] == items[i] && w[j + 1] == items[j]);
            assert(w[i + 1] < w[j + 1]);
        }
        lemma_strict_sorted_eq(lst, items);
        assert(lst == items);
        assert(!lst.contains(REF_NO_MATCH) && !lst.contains(REF_EMPTY_STRING)) by {
            if lst.contains(REF_NO_MATCH) {
                let j = choose|j: int| 0 <= j < items.len() && items[j] == REF_NO_MATCH;
                assert(w[j + 1] == REF_NO_MATCH);
            }
            if lst.contains(REF_EMPTY_STRING) {
                let j = choose|j: int| 0 <= j < items.len() && items[j] == REF_EMPTY_STRING;
                assert(w[j + 1] == REF_EMPTY_STRING);
            }
        }
        assert(lst.len() == w.len() - 1 >= 2);
        let nul = all_nullable(v, lst);
        let rw = nary_rec(TAG_AND, nul, lst);
        assert(rw == v[a as int]) by {
            lemma_head_word(TAG_AND);
            assert(nul == word_nullable(w[0])) by {
                if nul {
                    assert forall|j: int| 1 <= j < w.len() implies rec_nullable(
                        v,
                        #[trigger] w[j],
                    ) by {
                        assert(lst[j - 1] == w[j]);
                        assert(rec_nullable(v, lst[j - 1]));
                    }
                }
                if word_nullable(w[0]) {
                    assert forall|j: int| 0 <= j < lst.len() implies rec_nullable(
                        v,
                        #[trigger] lst[j],
                    ) by {
                        assert(w[j + 1] == lst[j]);
                        assert(rec_nullable(v, w[j + 1]));
                    }
                }
            }
            assert(w[0] == head_word(word_tag(w[0]), word_nullable(w[0])));
            assert(rw.len() == w.len());
            assert forall|i: int| 0 <= i < rw.len() implies rw[i] == w[i] by {
                if i > 0 {
                    assert(rw[i] == lst[i - 1]);
                    assert(lst[i - 1] == items[i - 1]);
                    assert(items[i - 1] == w[i]);
                }
            }
            assert(rw =~= w);
        }
        assert(has_record(v, rw)) by {
            assert(1 <= a < v.len() && v[a as int] == rw);
        }
        let i = record_ref(v, rw);
        assert(1 <= i < v.len() && v[i] == rw);
        assert(i == a as int) by {
            if i != a as int {
                assert(records_unique(v));
            }
        }
    } else if a == REF_ANY_STRING {
        assert(rec_tag(v, a) == TAG_REPEAT) by {
            lemma_head_word(TAG_REPEAT);
        }
        assert(fa =~= seq![REF_ANY_STRING]);
        assert(lst.len() == 0) by {
            if lst.len() > 0 {
                assert(lst.contains(lst[0]));
                assert(fa.contains(lst[0]) && lst[0] != REF_ANY_STRING);
                let j = choose|j: int| 0 <= j < fa.len() && fa[j] == lst[0];
                assert(j == 0);
            }
        }
    } else {
        assert(rec_tag(v, a) != TAG_AND);
        assert(fa =~= seq![a]);
        assert(fa[0] == a);
        assert(fa.contains(a));
        assert forall|x: u32| lst.contains(x) <==> seq![a].contains(x) by {
            if lst.contains(x) {
                assert(fa.contains(x) && x != REF_ANY_STRING);
                let j = choose|j: int| 0 <= j < fa.len() && fa[j] == x;
                assert(x == a);
                assert(seq![a][0] == a);
            }
            if seq![a].contains(x) {
                assert(x == a);
                assert(lst.contains(a));
            }
        }
        lemma_strict_sorted_eq(lst, seq![a]);
        assert(lst == seq![a]);
        assert(lst.len() == 1 && lst[0] == a);
        if a == REF_NO_MATCH {
            assert(lst[0] == REF_NO_MATCH);
            assert(lst.contains(REF_NO_MATCH));
        } else {
            assert(!lst.contains(REF_NO_MATCH)) by {
                if lst.contains(REF_NO_MATCH) {
                    let j = choose|j: int| 0 <= j < lst.len() && lst[j] == REF_NO_MATCH;
                }
            }
        }
    }
}

/// A concatenation whose canonical argument list equals that of the
/// single expression `a` returns `a` itself and leaves the store
/// unchanged.
proof fn lemma_concat_collapse(v: Seq<Seq<u32>>, aw: int, args: Seq<u32>, a: u32)
    requires
        store_ok(v, aw),
        valid_ref(v, a),
        forall|i: int| 0 <= i < args.len() ==> valid_ref(v, #[trigger] args[i]),
        concat_list(v, args) == drop_empties(flat_one(v, TAG_CONCAT, a)),
    ensures
        spec_mk_concat(v, args) == (v, a),
{
    let lst = concat_list(v, args);
    assert(wf_record(v, aw, a));
    let fa = flat_one(v, TAG_CONCAT, a);
    if rec_tag(v, a) == TAG_CONCAT {
        let items = rec_items(v, a);
        let w = v[a as int];
        assert(fa == items);
        assert(drop_empties(items) == items) by {
            lemma_drop_empties_fixed(items);
            assert(forall|j: int|
                0 <= j < items.len() ==> #[trigger] items[j] != REF_EMPTY_STRING) by {
                assert forall|j: int| 0 <= j < items.len() implies #[trigger] items[j]
                    != REF_EMPTY_STRING by {
                    assert(w[j + 1] == items[j]);
                }
            }
        }
        assert(lst == items);
        assert(lst.len() == w.len() - 1 >= 2);
        assert(!lst.contains(REF_NO_MATCH)) by {
            if lst.contains(REF_NO_MATCH) {
                let j = choose|j: int| 0 <= j < items.len() && items[j] == REF_NO_MATCH;
                assert(w[j + 1] == REF_NO_MATCH);
            }
        }
        let nul = all_nullable(v, lst);
        let rw = nary_rec(TAG_CONCAT, nul, lst);
        assert(rw == v[a as int]) by {
            lemma_head_word(TAG_CONCAT);
            assert(nul == word_nullable(w[0])) by {
                if nul {
                    assert forall|j: int| 1 <= j < w.len() implies rec_nullable(
                        v,
                        #[trigger] w[j],
                    ) by {
                        assert(lst[j - 1] == w[j]);
                        assert(rec_nullable(v, lst[j - 1]));
                    }
                }
                if word_nullable(w[0]) {
                    assert forall|j: int| 0 <= j < lst.len() implies rec_nullable(
                        v,
                        #[trigger] lst[j],
                    ) by {
                        assert(w[j + 1] == lst[j]);
                        assert(rec_nullable(v, w[j + 1]));
                    }
                }
            }
            assert(w[0] == head_word(word_tag(w[0]), word_nullable(w[0])));
            assert(rw.len() == w.len());
            assert forall|i: int| 0 <= i < rw.len() implies rw[i] == w[i] by {
                if i > 0 {
                    assert(rw[i] == lst[i - 1]);
                    assert(items[i - 1] == w[i]);
                }
            }
            assert(rw =~= w);
        }
        assert(has_record(v, rw)) by {
            assert(1 <= a < v.len() && v[a as int] == rw);
        }
        let i = record_ref(v, rw);
        assert(1 <= i < v.len() && v[i] == rw);
        assert(i == a as int) by {
            if i != a as int {
                assert(records_unique(v));
            }
        }
    } else if a == REF_EMPTY_STRING {
        assert(fa =~= seq![REF_EMPTY_STRING]);
        lemma_drop_empties_single(REF_EMPTY_STRING);
        assert(lst.len() == 0);
    } else {
        assert(fa =~= seq![a]);
        lemma_drop_empties_single(a);
        assert(lst == seq![a]);
        assert(lst.len() == 1 && lst[0] == a);
    }
}

/// The empty-dropping pass on a one-element list.
proof fn lemma_drop_empties_single(x: u32)
    ensures
        drop_empties(seq![x]) == if x == REF_EMPTY_STRING {
            Seq::<u32>::empty()
        } else {
            seq![x]
        },
{
    let s1 = seq![x];
    assert(s1.drop_first() =~= Seq::<u32>::empty());
    assert(drop_empties(Seq::<u32>::empty()) == Seq::<u32>::empty());
    if x == REF_EMPTY_STRING {
        assert(drop_empties(s1) == drop_empties(s1.drop_first()));
    } else {
        assert(drop_empties(s1) == seq![x] + drop_empties(s1.drop_first()));
        assert(seq![x] + Seq::<u32>::empty() =~= seq![x]);
    }
}

/// A strictly canonical list without `EmptyString` is unchanged by the
/// empty-dropping pass.
proof fn lemma_drop_empties_fixed(s: Seq<u32>)
    requires
        forall|j: int| 0 <= j < s.len() ==> #[trigger] s[j] != REF_EMPTY_STRING,
    ensures
        drop_empties(s) == s,
    decreases s.len(),
{
    if s.len() > 0 {
        assert(s[0] != REF_EMPTY_STRING);
        lemma_drop_empties_fixed(s.drop_first());
        assert(seq![s[0]] + s.drop_first() =~= s);
    }
}

// ---------------------------------------------------------------------
// idempotence, identity and absorption (single-argument laws)
// ---------------------------------------------------------------------
/// `mk_or([a, a]) == a`.
pub proof fn lemma_or_idempotent(v: Seq<Seq<u32>>, aw: int, a: u32)
    requires
        store_ok(v, aw),
        valid_ref(v, a),
    ensures
        spec_mk_or(v, seq![a, a]) == (v, a),
{
    lemma_flatten_two(v, TAG_OR, a, a);
    lemma_concat_contains(flat_one(v, TAG_OR, a), flat_one(v, TAG_OR, a));
    lemma_or_collapse(v, aw, seq![a, a], a);
}

/// `mk_and([a, a]) == a`.
pub proof fn lemma_and_idempotent(v: Seq<Seq<u32>>, aw: int, a: u32)
    requires
        store_ok(v, aw),
        valid_ref(v, a),
    ensures
        spec_mk_and(v, seq![a, a]) == (v, a),
{
    lemma_flatten_two(v, TAG_AND, a, a);
    lemma_concat_contains(flat_one(v, TAG_AND, a), flat_one(v, TAG_AND, a));
    lemma_and_collapse(v, aw, seq![a, a], a);
}

/// `mk_concat([a]) == a`.
pub proof fn lemma_concat_single(v: Seq<Seq<u32>>, aw: int, a: u32)
    requires
        store_ok(v, aw),
        valid_ref(v, a),
    ensures
        spec_mk_concat(v, seq![a]) == (v, a),
{
    assert(seq![a].drop_first() =~= Seq::<u32>::empty());
    assert(flatten(v, TAG_CONCAT, seq![a]) == flat_one(v, TAG_CONCAT, a) + flatten(
        v,
        TAG_CONCAT,
        Seq::<u32>::empty(),
    ));
    assert(flat_one(v, TAG_CONCAT, a) + Seq::<u32>::empty() =~= flat_one(v, TAG_CONCAT, a));
    lemma_concat_collapse(v, aw, seq![a], a);
}

/// `mk_or([a, NoMatch]) == a`.
pub proof fn lemma_or_identity(v: Seq<Seq<u32>>, aw: int, a: u32)
    requires
        store_ok(v, aw),
        valid_ref(v, a),
    ensures
        spec_mk_or(v, seq![a, REF_NO_MATCH]) == (v, a),
{
    lemma_head_word(TAG_NO_MATCH);
    lemma_flatten_two(v, TAG_OR, a, REF_NO_MATCH);
    assert(flat_one(v, TAG_OR, REF_NO_MATCH) =~= seq![REF_NO_MATCH]);
    lemma_concat_contains(flat_one(v, TAG_OR, a), seq![REF_NO_MATCH]);
    assert forall|x: u32|
        (flatten(v, TAG_OR, seq![a, REF_NO_MATCH]).contains(x) && x != REF_NO_MATCH) <==> (
        flat_one(v, TAG_OR, a).contains(x) && x != REF_NO_MATCH) by {
        if seq![REF_NO_MATCH].contains(x) {
            let j = choose|j: int| 0 <= j < 1 && seq![REF_NO_MATCH][j] == x;
            assert(x == REF_NO_MATCH);
        }
    }
    lemma_or_collapse(v, aw, seq![a, REF_NO_MATCH], a);
}

/// `mk_and([a, AnyString]) == a`.
pub proof fn lemma_and_identity(v: Seq<Seq<u32>>, aw: int, a: u32)
    requires
        store_ok(v, aw),
        valid_ref(v, a),
    ensures
        spec_mk_and(v, seq![a, REF_ANY_STRING]) == (v, a),
{
    lemma_head_word(TAG_REPEAT);
    lemma_flatten_two(v, TAG_AND, a, REF_ANY_STRING);
    assert(flat_one(v, TAG_AND, REF_ANY_STRING) =~= seq![REF_ANY_STRING]);
    lemma_concat_contains(flat_one(v, TAG_AND, a), seq![REF_ANY_STRING]);
    assert forall|x: u32|
        (flatten(v, TAG_AND, seq![a, REF_ANY_STRING]).contains(x) && x != REF_ANY_STRING) <==> (
        flat_one(v, TAG_AND, a).contains(x) && x != REF_ANY_STRING) by {
        if seq![REF_ANY_STRING].contains(x) {
            let j = choose|j: int| 0 <= j < 1 && seq![REF_ANY_STRING][j] == x;
            assert(x == REF_ANY_STRING);
        }
    }
    lemma_and_collapse(v, aw, seq![a, REF_ANY_STRING], a);
}

/// `mk_concat([a, EmptyString]) == a`.
pub proof fn lemma_concat_identity(v: Seq<Seq<u32>>, aw: int, a: u32)
    requires
        store_ok(v, aw),
        valid_ref(v, a),
    ensures
        spec_mk_concat(v, seq![a, REF_EMPTY_STRING]) == (v, a),
{
    lemma_head_word(TAG_EMPTY_STRING);
    lemma_flatten_two(v, TAG_CONCAT, a, REF_EMPTY_STRING);
    assert(flat_one(v, TAG_CONCAT, REF_EMPTY_STRING) =~= seq![REF_EMPTY_STRING]);
    lemma_drop_empties_concat(flat_one(v, TAG_CONCAT, a), seq![REF_EMPTY_STRING]);
    lemma_drop_empties_single(REF_EMPTY_STRING);
    assert(drop_empties(flat_one(v, TAG_CONCAT, a)) + Seq::<u32>::empty() =~= drop_empties(
        flat_one(v, TAG_CONCAT, a),
    ));
    lemma_concat_collapse(v, aw, seq![a, REF_EMPTY_STRING], a);
}

/// `mk_or([a, AnyString]) == AnyString`.
pub proof fn lemma_or_absorb(v: Seq<Seq<u32>>, aw: int, a: u32)
    requires
        store_ok(v, aw),
        valid_ref(v, a),
    ensures
        spec_mk_or(v, seq![a, REF_ANY_STRING]) == (v, REF_ANY_STRING),
{
    lemma_head_word(TAG_REPEAT);
    lemma_flatten_two(v, TAG_OR, a, REF_ANY_STRING);
    assert(flat_one(v, TAG_OR, REF_ANY_STRING) =~= seq![REF_ANY_STRING]);
    let fl = flatten(v, TAG_OR, seq![a, REF_ANY_STRING]);
    lemma_concat_contains(flat_one(v, TAG_OR, a), seq![REF_ANY_STRING]);
    assert(seq![REF_ANY_STRING][0] == REF_ANY_STRING);
    assert(seq![REF_ANY_STRING].contains(REF_ANY_STRING));
    assert(fl.contains(REF_ANY_STRING));
    lemma_or_list_props(v, aw, seq![a, REF_ANY_STRING]);
    assert(or_list(v, seq![a, REF_ANY_STRING]).contains(REF_ANY_STRING));
}

/// `mk_and([a, NoMatch]) == NoMatch`.
pub proof fn lemma_and_absorb(v: Seq<Seq<u32>>, aw: int, a: u32)
    requires
        store_ok(v, aw),
        valid_ref(v, a),
    ensures
        spec_mk_and(v, seq![a, REF_NO_MATCH]) == (v, REF_NO_MATCH),
{
    lemma_head_word(TAG_NO_MATCH);
    lemma_flatten_two(v, TAG_AND, a, REF_NO_MATCH);
    assert(flat_one(v, TAG_AND, REF_NO_MATCH) =~= seq![REF_NO_MATCH]);
    let fl = flatten(v, TAG_AND, seq![a, REF_NO_MATCH]);
    lemma_concat_contains(flat_one(v, TAG_AND, a), seq![REF_NO_MATCH]);
    assert(seq![REF_NO_MATCH][0] == REF_NO_MATCH);
    assert(seq![REF_NO_MATCH].contains(REF_NO_MATCH));
    assert(fl.contains(REF_NO_MATCH));
    lemma_and_list_props(v, aw, seq![a, REF_NO_MATCH]);
    assert(and_list(v, seq![a, REF_NO_MATCH]).contains(REF_NO_MATCH));
}

/// `mk_concat([a, NoMatch]) == NoMatch`.
pub proof fn lemma_concat_absorb(v: Seq<Seq<u32>>, aw: int, a: u32)
    requires
        store_ok(v, aw),
        valid_ref(v, a),
    ensures
        spec_mk_concat(v, seq![a, REF_NO_MATCH]) == (v, REF_NO_MATCH),
{
    assert(wf_record(v, aw, a));
    lemma_head_word(TAG_NO_MATCH);
    lemma_flatten_two(v, TAG_CONCAT, a, REF_NO_MATCH);
    assert(flat_one(v, TAG_CONCAT, REF_NO_MATCH) =~= seq![REF_NO_MATCH]);
    let fa = flat_one(v, TAG_CONCAT, a);
    lemma_drop_empties_concat(fa, seq![REF_NO_MATCH]);
    lemma_drop_empties_single(REF_NO_MATCH);
    let da = drop_empties(fa);
    let lst = concat_list(v, seq![a, REF_NO_MATCH]);
    assert(lst == da + seq![REF_NO_MATCH]);
    assert(lst[da.len() as int] == REF_NO_MATCH);
    assert(lst.contains(REF_NO_MATCH));
    assert(lst.len() >= 1);
    if lst.len() == 1 {
        assert(da.len() == 0);
        assert(lst[0] == REF_NO_MATCH);
    }
}

// ---------------------------------------------------------------------
// commutativity
// ---------------------------------------------------------------------
/// `mk_or([a, b]) == mk_or([b, a])`.
pub proof fn lemma_or_commutative(v: Seq<Seq<u32>>, aw: int, a: u32, b: u32)
    requires
        store_ok(v, aw),
        valid_ref(v, a),
        valid_ref(v, b),
    ensures
        spec_mk_or(v, seq![a, b]) == spec_mk_or(v, seq![b, a]),
{
    lemma_flatten_two(v, TAG_OR, a, b);
    lemma_flatten_two(v, TAG_OR, b, a);
    lemma_concat_contains(flat_one(v, TAG_OR, a), flat_one(v, TAG_OR, b));
    lemma_concat_contains(flat_one(v, TAG_OR, b), flat_one(v, TAG_OR, a));
    lemma_canonical_same_set(
        flatten(v, TAG_OR, seq![a, b]),
        flatten(v, TAG_OR, seq![b, a]),
        REF_NO_MATCH,
    );
    assert(or_list(v, seq![a, b]) == or_list(v, seq![b, a]));
}

/// `mk_and([a, b]) == mk_and([b, a])`.
pub proof fn lemma_and_commutative(v: Seq<Seq<u32>>, aw: int, a: u32, b: u32)
    requires
        store_ok(v, aw),
        valid_ref(v, a),
        valid_ref(v, b),
    ensures
        spec_mk_and(v, seq![a, b]) == spec_mk_and(v, seq![b, a]),
{
    lemma_flatten_two(v, TAG_AND, a, b);
    lemma_flatten_two(v, TAG_AND, b, a);
    lemma_concat_contains(flat_one(v, TAG_AND, a), flat_one(v, TAG_AND, b));
    lemma_concat_contains(flat_one(v, TAG_AND, b), flat_one(v, TAG_AND, a));
    lemma_canonical_same_set(
        flatten(v, TAG_AND, seq![a, b]),
        flatten(v, TAG_AND, seq![b, a]),
        REF_ANY_STRING,
    );
    assert(and_list(v, seq![a, b]) == and_list(v, seq![b, a]));
}

// ---------------------------------------------------------------------
// determinism: building the same expression twice gives the same Ref
// ---------------------------------------------------------------------
/// Inserting a word sequence twice returns the same identifier, and the
/// second insertion does not grow the heap.
proof fn lemma_insert_twice(v: Seq<Seq<u32>>, w: Seq<u32>)
    requires
        records_unique(spec_insert(v, w).0),
        1 <= v.len() <= 0x0010_0000,
    ensures
        ({
            let (v1, r1) = spec_insert(v, w);
            spec_insert(v1, w) == (v1, r1)
        }),
{
    let (v1, r1) = spec_insert(v, w);
    if !has_record(v, w) {
        assert(v1 == v.push(w));
        assert(v1[v.len() as int] == w);
        assert(has_record(v1, w)) by {
            assert(1 <= v.len() < v1.len() && v1[v.len() as int] == w);
        }
        let i = record_ref(v1, w);
        assert(1 <= i < v1.len() && v1[i] == w);
        assert(i == v.len()) by {
            if i != v.len() {
                assert(v1[i] == v1[v.len() as int]);
            }
        }
    }
}

/// `mk_byte` is deterministic: a second identical call returns the same
/// reference and leaves the store unchanged.
pub proof fn lemma_mk_byte_deterministic(v: Seq<Seq<u32>>, aw: int, b: u8)
    requires
        store_ok(v, aw),
        v.len() <= 0x0010_0000,
    ensures
        ({
            let (v1, r1) = spec_mk_byte(v, b);
            spec_mk_byte(v1, b) == (v1, r1)
        }),
{
    crate::model::lemma_mk_byte_ok(v, aw, b);
    lemma_insert_twice(v, seq![TAG_BYTE, b as u32]);
}

/// `mk_byte_set` is deterministic.
pub proof fn lemma_mk_byte_set_deterministic(v: Seq<Seq<u32>>, aw: int, bits: Seq<u32>)
    requires
        store_ok(v, aw),
        v.len() <= 0x0010_0000,
        bits.len() == aw,
    ensures
        ({
            let (v1, r1) = spec_mk_byte_set(v, bits);
            spec_mk_byte_set(v1, bits) == (v1, r1)
        }),
{
    crate::model::lemma_mk_byte_set_ok(v, aw, bits);
    if !(forall|i: int| 0 <= i < bits.len() ==> bits[i] == 0) {
        lemma_insert_twice(v, seq![TAG_BYTE_SET] + bits);
    }
}

/// `mk_repeat` is deterministic.
pub proof fn lemma_mk_repeat_deterministic(v: Seq<Seq<u32>>, aw: int, e: u32, lo: u32, hi: u32)
    requires
        store_ok(v, aw),
        v.len() <= 0x0010_0000,
        valid_ref(v, e),
    ensures
        ({
            let (v1, r1) = spec_mk_repeat(v, e, lo, hi);
            spec_mk_repeat(v1, e, lo, hi) == (v1, r1)
        }),
{
    crate::model::lemma_mk_repeat_ok(v, aw, e, lo, hi);
    let (v1, r1) = spec_mk_repeat(v, e, lo, hi);
    if e != REF_NO_MATCH && lo != hi && lo + 1 != hi && lo <= hi {
        assert(v1[e as int] == v[e as int]);
        assert(rec_nullable(v1, e) == rec_nullable(v, e));
        let l2: u32 = if rec_nullable(v, e) {
            0
        } else {
            lo
        };
        lemma_insert_twice(v, seq![head_word(TAG_REPEAT, l2 == 0), e, l2, hi]);
    }
}

/// `mk_not` is deterministic.
pub proof fn lemma_mk_not_deterministic(v: Seq<Seq<u32>>, aw: int, e: u32)
    requires
        store_ok(v, aw),
        v.len() <= 0x0010_0000,
        valid_ref(v, e),
    ensures
        ({
            let (v1, r1) = spec_mk_not(v, e);
            spec_mk_not(v1, e) == (v1, r1)
        }),
{
    crate::model::lemma_mk_not_ok(v, aw, e);
    let (v1, r1) = spec_mk_not(v, e);
    if e == REF_EMPTY_STRING || e == REF_NON_EMPTY_STRING || e == REF_ANY_STRING || e
        == REF_NO_MATCH {
    } else {
        assert(v1[e as int] == v[e as int]);
        assert(rec_tag(v1, e) == rec_tag(v, e));
        assert(rec_nullable(v1, e) == rec_nullable(v, e));
        if rec_tag(v, e) == TAG_NOT {
        } else {
            lemma_insert_twice(v, seq![head_word(TAG_NOT, !rec_nullable(v, e)), e]);
        }
    }
}

/// `mk_or` is deterministic.
pub proof fn lemma_mk_or_deterministic(v: Seq<Seq<u32>>, aw: int, args: Seq<u32>)
    requires
        store_ok(v, aw),
        v.len() <= 0x0010_0000,
        forall|i: int| 0 <= i < args.len() ==> valid_ref(v, #[trigger] args[i]),
    ensures
        ({
            let (v1, r1) = spec_mk_or(v, args);
            spec_mk_or(v1, args) == (v1, r1)
        }),
{
    crate::model::lemma_mk_or_ok(v, aw, args);
    let (v1, r1) = spec_mk_or(v, args);
    lemma_or_list_grow(v, v1, args);
    let lst = or_list(v, args);
    lemma_or_list_props(v, aw, args);
    if !lst.contains(REF_ANY_STRING) && lst.len() >= 2 {
        assert(any_nullable(v1, lst) == any_nullable(v, lst)) by {
            if any_nullable(v, lst) {
                let j = choose|j: int| 0 <= j < lst.len() && rec_nullable(v, #[trigger] lst[j]);
                assert(v1[lst[j] as int] == v[lst[j] as int]);
                assert(rec_nullable(v1, lst[j]));
            }
            if any_nullable(v1, lst) {
                let j = choose|j: int| 0 <= j < lst.len() && rec_nullable(v1, #[trigger] lst[j]);
                assert(v1[lst[j] as int] == v[lst[j] as int]);
                assert(rec_nullable(v, lst[j]));
            }
        }
        lemma_insert_twice(v, nary_rec(TAG_OR, any_nullable(v, lst), lst));
    }
}

/// `mk_and` is deterministic.
pub proof fn lemma_mk_and_deterministic(v: Seq<Seq<u32>>, aw: int, args: Seq<u32>)
    requires
        store_ok(v, aw),
        v.len() <= 0x0010_0000,
        forall|i: int| 0 <= i < args.len() ==> valid_ref(v, #[trigger] args[i]),
    ensures
        ({
            let (v1, r1) = spec_mk_and(v, args);
            spec_mk_and(v1, args) == (v1, r1)
        }),
{
    crate::model::lemma_mk_and_ok(v, aw, args);
    let (v1, r1) = spec_mk_and(v, args);
    lemma_and_list_grow(v, v1, args);
    let lst = and_list(v, args);
    lemma_and_list_props(v, aw, args);
    if !lst.contains(REF_NO_MATCH) && lst.len() >= 2 {
        assert(all_nullable(v1, lst) == all_nullable(v, lst)) by {
            assert forall|j: int| 0 <= j < lst.len() implies rec_nullable(v1, #[trigger] lst[j])
                == rec_nullable(v, lst[j]) by {
                assert(v1[lst[j] as int] == v[lst[j] as int]);
            }
        }
        if !lst.contains(REF_EMPTY_STRING) {
            lemma_insert_twice(v, nary_rec(TAG_AND, all_nullable(v, lst), lst));
        }
    }
}

/// `mk_concat` is deterministic.
pub proof fn lemma_mk_concat_deterministic(v: Seq<Seq<u32>>, aw: int, args: Seq<u32>)
    requires
        store_ok(v, aw),
        v.len() <= 0x0010_0000,
        forall|i: int| 0 <= i < args.len() ==> valid_ref(v, #[trigger] args[i]),
    ensures
        ({
            let (v1, r1) = spec_mk_concat(v, args);
            spec_mk_concat(v1, args) == (v1, r1)
        }),
{
    crate::model::lemma_mk_concat_ok(v, aw, args);
    let (v1, r1) = spec_mk_concat(v, args);
    lemma_flatten_grow(v, v1, TAG_CONCAT, args);
    let lst = concat_list(v, args);
    if lst.len() >= 2 && !lst.contains(REF_NO_MATCH) {
        lemma_flatten_elems(v, aw, TAG_CONCAT, args);
        lemma_drop_empties_elems(flatten(v, TAG_CONCAT, args));
        assert forall|j: int| 0 <= j < lst.len() implies valid_ref(v, #[trigger] lst[j]) by {
            assert(lst.contains(lst[j]));
            assert(flatten(v, TAG_CONCAT, args).contains(lst[j]));
            let k = choose|k: int|
                0 <= k < flatten(v, TAG_CONCAT, args).len() && flatten(v, TAG_CONCAT, args)[k]
                    == lst[j];
        }
        assert(all_nullable(v1, lst) == all_nullable(v, lst)) by {
            assert forall|j: int| 0 <= j < lst.len() implies rec_nullable(v1, #[trigger] lst[j])
                == rec_nullable(v, lst[j]) by {
                assert(v1[lst[j] as int] == v[lst[j] as int]);
            }
        }
        lemma_insert_twice(v, nary_rec(TAG_CONCAT, all_nullable(v, lst), lst));
    }
}

// ---------------------------------------------------------------------
// associativity
// ---------------------------------------------------------------------
/// Union is associative at the level of references: building
/// `or([or([a, b]), c])` and then `or([a, b, c])` in one store yields
/// the same reference.
#[verifier::rlimit(100)]
pub proof fn lemma_or_associative(v: Seq<Seq<u32>>, aw: int, a: u32, b: u32, c: u32)
    requires
        store_ok(v, aw),
        v.len() + 2 <= 0x0010_0000,
        valid_ref(v, a),
        valid_ref(v, b),
        valid_ref(v, c),
    ensures
        ({
            let (v1, x) = spec_mk_or(v, seq![a, b]);
            let (v2, l) = spec_mk_or(v1, seq![x, c]);
            let (v3, r) = spec_mk_or(v2, seq![a, b, c]);
            l == r
        }),
{
    crate::model::lemma_mk_or_ok(v, aw, seq![a, b]);
    let (v1, x) = spec_mk_or(v, seq![a, b]);
    crate::model::lemma_mk_or_ok(v1, aw, seq![x, c]);
    let (v2, l) = spec_mk_or(v1, seq![x, c]);
    crate::model::lemma_mk_or_ok(v2, aw, seq![a, b, c]);
    let (v3, r) = spec_mk_or(v2, seq![a, b, c]);

    let lst = or_list(v, seq![a, b]);
    lemma_or_list_props(v, aw, seq![a, b]);
    lemma_or_list_props(v1, aw, seq![x, c]);
    lemma_or_list_props(v2, aw, seq![a, b, c]);
    lemma_flatten_two(v, TAG_OR, a, b);
    lemma_flatten_two(v1, TAG_OR, x, c);
    lemma_flatten_three(v1, TAG_OR, a, b, c);
    let fab = flatten(v, TAG_OR, seq![a, b]);
    assert(v1[a as int] == v[a as int] && v1[b as int] == v[b as int] && v1[c as int] == v[
        c as int]);
    assert(flat_one(v1, TAG_OR, a) == flat_one(v, TAG_OR, a));
    assert(flat_one(v1, TAG_OR, b) == flat_one(v, TAG_OR, b));
    assert(flat_one(v1, TAG_OR, c) == flat_one(v, TAG_OR, c));
    lemma_concat_contains(flat_one(v, TAG_OR, a), flat_one(v, TAG_OR, b));
    lemma_concat_contains(flat_one(v1, TAG_OR, x), flat_one(v, TAG_OR, c));
    lemma_concat_contains(flat_one(v, TAG_OR, b), flat_one(v, TAG_OR, c));
    lemma_concat_contains(
        flat_one(v, TAG_OR, a),
        flat_one(v, TAG_OR, b) + flat_one(v, TAG_OR, c),
    );

    if lst.contains(REF_ANY_STRING) {
        // the inner union already absorbed everything
        assert(x == REF_ANY_STRING && v1 == v);
        lemma_head_word(TAG_REPEAT);
        assert(flat_one(v1, TAG_OR, x) =~= seq![REF_ANY_STRING]);
        assert(seq![REF_ANY_STRING][0] == REF_ANY_STRING);
        assert(flatten(v1, TAG_OR, seq![x, c]).contains(REF_ANY_STRING));
        assert(or_list(v1, seq![x, c]).contains(REF_ANY_STRING));
        assert(l == REF_ANY_STRING && v2 == v1);
        assert(fab.contains(REF_ANY_STRING));
        assert(flatten(v2, TAG_OR, seq![a, b, c]).contains(REF_ANY_STRING));
        assert(or_list(v2, seq![a, b, c]).contains(REF_ANY_STRING));
    } else {
        // the set of alternatives x stands for, ignoring NoMatch
        assert forall|y: u32| y != REF_NO_MATCH implies (flat_one(v1, TAG_OR, x).contains(y)
            <==> fab.contains(y)) by {
            if lst.len() == 0 {
                assert(x == REF_NO_MATCH && v1 == v);
                lemma_head_word(TAG_NO_MATCH);
                assert(flat_one(v1, TAG_OR, x) =~= seq![REF_NO_MATCH]);
                if flat_one(v1, TAG_OR, x).contains(y) {
                    let j = choose|j: int|
                        0 <= j < flat_one(v1, TAG_OR, x).len() && flat_one(v1, TAG_OR, x)[j] == y;
                    assert(y == REF_NO_MATCH);
                }
                if fab.contains(y) {
                    assert(lst.contains(y));
                }
            } else if lst.len() == 1 {
                assert(x == lst[0] && v1 == v);
                assert(rec_tag(v, x) != TAG_OR && x != REF_NO_MATCH);
                assert(flat_one(v1, TAG_OR, x) =~= seq![x]);
                if flat_one(v1, TAG_OR, x).contains(y) {
                    let j = choose|j: int|
                        0 <= j < flat_one(v1, TAG_OR, x).len() && flat_one(v1, TAG_OR, x)[j] == y;
                    assert(y == x);
                    assert(lst.contains(x));
                }
                if fab.contains(y) {
                    assert(lst.contains(y));
                    let j = choose|j: int| 0 <= j < lst.len() && lst[j] == y;
                    assert(j == 0);
                    assert(seq![x][0] == x);
                }
            } else {
                // x names the stored union whose children are exactly lst
                let nul = any_nullable(v, lst);
                let w = nary_rec(TAG_OR, nul, lst);
                let (v1b, xb) = spec_insert(v, w);
                assert(v1 == v1b && x == xb);
                assert(v1[x as int] == w) by {
                    if has_record(v, w) {
                        let i = record_ref(v, w);
                        assert(1 <= i < v.len() && v[i] == w);
                    }
                }
                lemma_head_word(TAG_OR);
                assert(rec_tag(v1, x) == TAG_OR);
                assert(rec_items(v1, x) =~= lst);
                assert(flat_one(v1, TAG_OR, x) == lst);
                if lst.contains(y) {
                    assert(fab.contains(y));
                }
                if fab.contains(y) {
                    assert(lst.contains(y));
                }
            }
        }
        // the two outer argument lists denote the same set
        assert forall|y: u32| y != REF_NO_MATCH implies (flatten(v1, TAG_OR, seq![x, c]).contains(
            y,
        ) <==> flatten(v1, TAG_OR, seq![a, b, c]).contains(y)) by {
            assert(flatten(v1, TAG_OR, seq![x, c]).contains(y) <==> (flat_one(
                v1,
                TAG_OR,
                x,
            ).contains(y) || flat_one(v, TAG_OR, c).contains(y)));
            assert(flatten(v1, TAG_OR, seq![a, b, c]).contains(y) <==> (flat_one(
                v,
                TAG_OR,
                a,
            ).contains(y) || flat_one(v, TAG_OR, b).contains(y) || flat_one(v, TAG_OR, c).contains(
                y,
            )));
            assert(fab.contains(y) <==> (flat_one(v, TAG_OR, a).contains(y) || flat_one(
                v,
                TAG_OR,
                b,
            ).contains(y)));
        }
        lemma_canonical_same_set(
            flatten(v1, TAG_OR, seq![x, c]),
            flatten(v1, TAG_OR, seq![a, b, c]),
            REF_NO_MATCH,
        );
        assert(or_list(v1, seq![x, c]) == or_list(v1, seq![a, b, c]));
        lemma_or_list_grow(v1, v2, seq![a, b, c]);
        let big = or_list(v1, seq![x, c]);
        assert(big == or_list(v2, seq![a, b, c]));

        // the same canonical list gives the same reference
        if big.contains(REF_ANY_STRING) {
        } else if big.len() == 0 {
        } else if big.len() == 1 {
        } else {
            let w1 = nary_rec(TAG_OR, any_nullable(v1, big), big);
            let (v2b, lb) = spec_insert(v1, w1);
            assert(v2 == v2b && l == lb);
            assert(v2[l as int] == w1) by {
                if has_record(v1, w1) {
                    let i = record_ref(v1, w1);
                    assert(1 <= i < v1.len() && v1[i] == w1);
                }
            }
            assert(any_nullable(v2, big) == any_nullable(v1, big)) by {
                if any_nullable(v1, big) {
                    let j = choose|j: int|
                        0 <= j < big.len() && rec_nullable(v1, #[trigger] big[j]);
                    assert(v2[big[j] as int] == v1[big[j] as int]);
                    assert(rec_nullable(v2, big[j]));
                }
                if any_nullable(v2, big) {
                    let j = choose|j: int|
                        0 <= j < big.len() && rec_nullable(v2, #[trigger] big[j]);
                    assert(v2[big[j] as int] == v1[big[j] as int]);
                    assert(rec_nullable(v1, big[j]));
                }
            }
            assert(has_record(v2, w1)) by {
                assert(1 <= l < v2.len() && v2[l as int] == w1);
            }
            let i = record_ref(v2, w1);
            assert(1 <= i < v2.len() && v2[i] == w1);
            assert(i == l as int) by {
                if i != l as int {
                    assert(records_unique(v2));
                }
            }
        }
    }
}

/// If a second intersection sees the same canonical argument list as a
/// first one, it returns the same reference.
proof fn lemma_and_same_list(v1: Seq<Seq<u32>>, aw: int, args2: Seq<u32>, args3: Seq<u32>)
    requires
        store_ok(v1, aw),
        v1.len() <= 0x0010_0000,
        forall|i: int| 0 <= i < args2.len() ==> valid_ref(v1, #[trigger] args2[i]),
        and_list(spec_mk_and(v1, args2).0, args3) == and_list(v1, args2),
    ensures
        spec_mk_and(spec_mk_and(v1, args2).0, args3).1 == spec_mk_and(v1, args2).1,
{
    crate::model::lemma_mk_and_ok(v1, aw, args2);
    let (v2, l) = spec_mk_and(v1, args2);
    let big = and_list(v1, args2);
    lemma_and_list_props(v1, aw, args2);
    if big.contains(REF_NO_MATCH) {
    } else if big.len() == 0 {
    } else if big.len() == 1 {
    } else {
        assert(all_nullable(v2, big) == all_nullable(v1, big)) by {
            assert forall|j: int| 0 <= j < big.len() implies rec_nullable(v2, #[trigger] big[j])
                == rec_nullable(v1, big[j]) by {
                assert(v2[big[j] as int] == v1[big[j] as int]);
            }
        }
        if big.contains(REF_EMPTY_STRING) {
        } else {
            let w1 = nary_rec(TAG_AND, all_nullable(v1, big), big);
            let (v2b, lb) = spec_insert(v1, w1);
            assert(v2 == v2b && l == lb);
            assert(v2[l as int] == w1) by {
                if has_record(v1, w1) {
                    let i = record_ref(v1, w1);
                    assert(1 <= i < v1.len() && v1[i] == w1);
                }
            }
            assert(has_record(v2, w1)) by {
                assert(1 <= l < v2.len() && v2[l as int] == w1);
            }
            let i = record_ref(v2, w1);
            assert(1 <= i < v2.len() && v2[i] == w1);
            assert(i == l as int) by {
                if i != l as int {
                    assert(records_unique(v2));
                }
            }
        }
    }
}

/// The collapse-to-`NoMatch` case of intersection associativity.
#[verifier::rlimit(100)]
proof fn lemma_and_assoc_nomatch(v: Seq<Seq<u32>>, aw: int, a: u32, b: u32, c: u32)
    requires
        store_ok(v, aw),
        v.len() + 2 <= 0x0010_0000,
        valid_ref(v, a),
        valid_ref(v, b),
        valid_ref(v, c),
        ({
            let lst = and_list(v, seq![a, b]);
            lst.contains(REF_NO_MATCH) || (lst.contains(REF_EMPTY_STRING) && lst.len() >= 2
                && !all_nullable(v, lst))
        }),
    ensures
        ({
            let (v1, x) = spec_mk_and(v, seq![a, b]);
            let (v2, l) = spec_mk_and(v1, seq![x, c]);
            let (v3, r) = spec_mk_and(v2, seq![a, b, c]);
            l == r
        }),
{
    crate::model::lemma_mk_and_ok(v, aw, seq![a, b]);
    let (v1, x) = spec_mk_and(v, seq![a, b]);
    crate::model::lemma_mk_and_ok(v1, aw, seq![x, c]);
    let (v2, l) = spec_mk_and(v1, seq![x, c]);
    crate::model::lemma_mk_and_ok(v2, aw, seq![a, b, c]);
    let (v3, r) = spec_mk_and(v2, seq![a, b, c]);

    let lst = and_list(v, seq![a, b]);
    lemma_and_list_props(v, aw, seq![a, b]);
    lemma_and_list_props(v1, aw, seq![x, c]);
    lemma_and_list_props(v2, aw, seq![a, b, c]);
    lemma_flatten_two(v, TAG_AND, a, b);
    lemma_flatten_two(v1, TAG_AND, x, c);
    lemma_flatten_three(v1, TAG_AND, a, b, c);
    let fab = flatten(v, TAG_AND, seq![a, b]);
    assert(v1[a as int] == v[a as int] && v1[b as int] == v[b as int] && v1[c as int] == v[
        c as int]);
    assert(flat_one(v1, TAG_AND, a) == flat_one(v, TAG_AND, a));
    assert(flat_one(v1, TAG_AND, b) == flat_one(v, TAG_AND, b));
    assert(flat_one(v1, TAG_AND, c) == flat_one(v, TAG_AND, c));
    lemma_concat_contains(flat_one(v, TAG_AND, a), flat_one(v, TAG_AND, b));
    lemma_concat_contains(flat_one(v1, TAG_AND, x), flat_one(v, TAG_AND, c));
    lemma_concat_contains(flat_one(v, TAG_AND, b), flat_one(v, TAG_AND, c));
    lemma_concat_contains(
        flat_one(v, TAG_AND, a),
        flat_one(v, TAG_AND, b) + flat_one(v, TAG_AND, c),
    );
    lemma_and_list_grow(v, v1, seq![a, b, c]);
    lemma_and_list_grow(v1, v2, seq![a, b, c]);
    let big3 = and_list(v2, seq![a, b, c]);
    assert(big3 == and_list(v, seq![a, b, c]));
    assert forall|y: u32| big3.contains(y) <==> (lst.contains(y) || (flat_one(
        v,
        TAG_AND,
        c,
    ).contains(y) && y != REF_ANY_STRING)) by {
        assert(big3.contains(y) <==> (flatten(v, TAG_AND, seq![a, b, c]).contains(y) && y
            != REF_ANY_STRING));
        assert(flatten(v, TAG_AND, seq![a, b, c]) == flatten(v1, TAG_AND, seq![a, b, c]));
        assert(lst.contains(y) <==> (fab.contains(y) && y != REF_ANY_STRING));
    }
    lemma_head_word(TAG_EMPTY_STRING);
    lemma_head_word(TAG_NO_MATCH);
    lemma_head_word(TAG_REPEAT);
    {
        // the inner intersection collapsed to NoMatch
        assert(x == REF_NO_MATCH && v1 == v);
        assert(flat_one(v1, TAG_AND, x) =~= seq![REF_NO_MATCH]);
        assert(seq![REF_NO_MATCH][0] == REF_NO_MATCH);
        assert(flatten(v1, TAG_AND, seq![x, c]).contains(REF_NO_MATCH));
        assert(and_list(v1, seq![x, c]).contains(REF_NO_MATCH));
        assert(l == REF_NO_MATCH && v2 == v1);
        if lst.contains(REF_NO_MATCH) {
            assert(big3.contains(REF_NO_MATCH));
            assert(r == REF_NO_MATCH);
        } else {
            // NoMatch came from a non-nullable member beside EmptyString
            if big3.contains(REF_NO_MATCH) {
                assert(r == REF_NO_MATCH);
            } else {
                assert(big3.contains(REF_EMPTY_STRING));
                assert(big3.len() >= 2) by {
                    assert(lst[0] < lst[1]);
                    assert(lst.contains(lst[0]) && lst.contains(lst[1]));
                    assert(big3.contains(lst[0]) && big3.contains(lst[1]));
                    let i0 = choose|i: int| 0 <= i < big3.len() && big3[i] == lst[0];
                    let i1 = choose|i: int| 0 <= i < big3.len() && big3[i] == lst[1];
                    assert(i0 != i1);
                    if big3.len() < 2 {
                        assert(i0 == 0 && i1 == 0);
                    }
                }
                assert(!all_nullable(v2, big3)) by {
                    let j = choose|j: int|
                        0 <= j < lst.len() && !rec_nullable(v, #[trigger] lst[j]);
                    assert(big3.contains(lst[j]));
                    let k = choose|k: int| 0 <= k < big3.len() && big3[k] == lst[j];
                    assert(v2[big3[k] as int] == v[big3[k] as int]);
                    assert(!rec_nullable(v2, big3[k]));
                }
                assert(r == REF_NO_MATCH);
            }
        }
    }
}

/// The collapse-to-`EmptyString` case of intersection associativity.
#[verifier::rlimit(100)]
proof fn lemma_and_assoc_empty(v: Seq<Seq<u32>>, aw: int, a: u32, b: u32, c: u32)
    requires
        store_ok(v, aw),
        v.len() + 2 <= 0x0010_0000,
        valid_ref(v, a),
        valid_ref(v, b),
        valid_ref(v, c),
        ({
            let lst = and_list(v, seq![a, b]);
            !lst.contains(REF_NO_MATCH) && lst.contains(REF_EMPTY_STRING) && lst.len() >= 2
                && all_nullable(v, lst)
        }),
    ensures
        ({
            let (v1, x) = spec_mk_and(v, seq![a, b]);
            let (v2, l) = spec_mk_and(v1, seq![x, c]);
            let (v3, r) = spec_mk_and(v2, seq![a, b, c]);
            l == r
        }),
{
    crate::model::lemma_mk_and_ok(v, aw, seq![a, b]);
    let (v1, x) = spec_mk_and(v, seq![a, b]);
    crate::model::lemma_mk_and_ok(v1, aw, seq![x, c]);
    let (v2, l) = spec_mk_and(v1, seq![x, c]);
    crate::model::lemma_mk_and_ok(v2, aw, seq![a, b, c]);
    let (v3, r) = spec_mk_and(v2, seq![a, b, c]);

    let lst = and_list(v, seq![a, b]);
    lemma_and_list_props(v, aw, seq![a, b]);
    lemma_and_list_props(v1, aw, seq![x, c]);
    lemma_and_list_props(v2, aw, seq![a, b, c]);
    lemma_flatten_two(v, TAG_AND, a, b);
    lemma_flatten_two(v1, TAG_AND, x, c);
    lemma_flatten_three(v1, TAG_AND, a, b, c);
    let fab = flatten(v, TAG_AND, seq![a, b]);
    assert(v1[a as int] == v[a as int] && v1[b as int] == v[b as int] && v1[c as int] == v[
        c as int]);
    assert(flat_one(v1, TAG_AND, a) == flat_one(v, TAG_AND, a));
    assert(flat_one(v1, TAG_AND, b) == flat_one(v, TAG_AND, b));
    assert(flat_one(v1, TAG_AND, c) == flat_one(v, TAG_AND, c));
    lemma_concat_contains(flat_one(v, TAG_AND, a), flat_one(v, TAG_AND, b));
    lemma_concat_contains(flat_one(v1, TAG_AND, x), flat_one(v, TAG_AND, c));
    lemma_concat_contains(flat_one(v, TAG_AND, b), flat_one(v, TAG_AND, c));
    lemma_concat_contains(
        flat_one(v, TAG_AND, a),
        flat_one(v, TAG_AND, b) + flat_one(v, TAG_AND, c),
    );
    lemma_and_list_grow(v, v1, seq![a, b, c]);
    lemma_and_list_grow(v1, v2, seq![a, b, c]);
    let big3 = and_list(v2, seq![a, b, c]);
    assert(big3 == and_list(v, seq![a, b, c]));
    assert forall|y: u32| big3.contains(y) <==> (lst.contains(y) || (flat_one(
        v,
        TAG_AND,
        c,
    ).contains(y) && y != REF_ANY_STRING)) by {
        assert(big3.contains(y) <==> (flatten(v, TAG_AND, seq![a, b, c]).contains(y) && y
            != REF_ANY_STRING));
        assert(flatten(v, TAG_AND, seq![a, b, c]) == flatten(v1, TAG_AND, seq![a, b, c]));
        assert(lst.contains(y) <==> (fab.contains(y) && y != REF_ANY_STRING));
    }
    lemma_head_word(TAG_EMPTY_STRING);
    lemma_head_word(TAG_NO_MATCH);
    lemma_head_word(TAG_REPEAT);
    {
        // the inner intersection collapsed to EmptyString: every member
        // of it is nullable
        assert(all_nullable(v, lst));
        assert(x == REF_EMPTY_STRING && v1 == v);
        assert(flat_one(v1, TAG_AND, x) =~= seq![REF_EMPTY_STRING]);
        assert(seq![REF_EMPTY_STRING][0] == REF_EMPTY_STRING);
        let big = and_list(v1, seq![x, c]);
        assert forall|y: u32| big.contains(y) <==> (y == REF_EMPTY_STRING || (flat_one(
            v,
            TAG_AND,
            c,
        ).contains(y) && y != REF_ANY_STRING)) by {
            assert(big.contains(y) <==> (flatten(v1, TAG_AND, seq![x, c]).contains(y) && y
                != REF_ANY_STRING));
            if seq![REF_EMPTY_STRING].contains(y) {
                let j = choose|j: int| 0 <= j < 1 && seq![REF_EMPTY_STRING][j] == y;
            }
        }
        assert(big.contains(REF_EMPTY_STRING));
        assert(big3.contains(REF_EMPTY_STRING));
        assert(big3.len() >= 2) by {
            assert(lst[0] < lst[1]);
            assert(big3.contains(lst[0]) && big3.contains(lst[1]));
            let i0 = choose|i: int| 0 <= i < big3.len() && big3[i] == lst[0];
            let i1 = choose|i: int| 0 <= i < big3.len() && big3[i] == lst[1];
            assert(i0 != i1);
            if big3.len() < 2 {
                assert(i0 == 0 && i1 == 0);
            }
        }
        if big.contains(REF_NO_MATCH) {
            assert(l == REF_NO_MATCH && v2 == v1);
            assert(big3.contains(REF_NO_MATCH));
            assert(r == REF_NO_MATCH);
        } else {
            assert(!big3.contains(REF_NO_MATCH)) by {
                if big3.contains(REF_NO_MATCH) {
                    assert(big.contains(REF_NO_MATCH));
                }
            }
            // both survive to the EmptyString collapse; the extra
            // members of the direct list are all nullable, so the two
            // nullability verdicts agree
            let nul3 = all_nullable(v2, big3);
            assert(v2 == v1);
            let nulb = all_nullable(v1, big);
            assert(nulb == nul3) by {
                if nulb {
                    assert forall|j: int| 0 <= j < big3.len() implies rec_nullable(
                        v1,
                        #[trigger] big3[j],
                    ) by {
                        assert(big3.contains(big3[j]));
                        if lst.contains(big3[j]) {
                            let k = choose|k: int| 0 <= k < lst.len() && lst[k] == big3[j];
                            assert(rec_nullable(v, lst[k]));
                        } else {
                            assert(big.contains(big3[j]));
                            let k = choose|k: int| 0 <= k < big.len() && big[k] == big3[j];
                            assert(rec_nullable(v1, big[k]));
                        }
                    }
                }
                if nul3 {
                    assert forall|j: int| 0 <= j < big.len() implies rec_nullable(
                        v1,
                        #[trigger] big[j],
                    ) by {
                        assert(big.contains(big[j]));
                        assert(big3.contains(big[j])) by {
                            if big[j] == REF_EMPTY_STRING {
                            } else {
                                assert(flat_one(v, TAG_AND, c).contains(big[j]) && big[j]
                                    != REF_ANY_STRING);
                            }
                        }
                        let k = choose|k: int| 0 <= k < big3.len() && big3[k] == big[j];
                        assert(rec_nullable(v2, big3[k]));
                    }
                }
            }
            if big.len() == 1 {
                assert(big[0] == REF_EMPTY_STRING) by {
                    assert(big.contains(REF_EMPTY_STRING));
                    let k = choose|k: int| 0 <= k < big.len() && big[k] == REF_EMPTY_STRING;
                }
                assert(l == REF_EMPTY_STRING);
                // the direct list holds EmptyString and only nullable
                // members, so it collapses to EmptyString too
                assert(nul3) by {
                    assert forall|j: int| 0 <= j < big3.len() implies rec_nullable(
                        v2,
                        #[trigger] big3[j],
                    ) by {
                        assert(big3.contains(big3[j]));
                        if lst.contains(big3[j]) {
                            let k = choose|k: int| 0 <= k < lst.len() && lst[k] == big3[j];
                            assert(rec_nullable(v, lst[k]));
                        } else {
                            assert(flat_one(v, TAG_AND, c).contains(big3[j]) && big3[j]
                                != REF_ANY_STRING);
                            assert(big.contains(big3[j]));
                            let k = choose|k: int| 0 <= k < big.len() && big[k] == big3[j];
                            assert(k == 0);
                        }
                    }
                }
                assert(r == REF_EMPTY_STRING);
            } else {
                assert(big.len() >= 2) by {
                    if big.len() == 0 {
                        assert(big.contains(REF_EMPTY_STRING));
                    }
                }
                assert(l == if nulb {
                    REF_EMPTY_STRING
                } else {
                    REF_NO_MATCH
                });
                assert(r == if nul3 {
                    REF_EMPTY_STRING
                } else {
                    REF_NO_MATCH
                });
            }
        }
    }
}

/// In the general case, the inner intersection's reference flattens to
/// exactly the canonical member list of its arguments.
#[verifier::rlimit(100)]
proof fn lemma_and_inner_set(v: Seq<Seq<u32>>, aw: int, a: u32, b: u32)
    requires
        store_ok(v, aw),
        v.len() <= 0x0010_0000,
        valid_ref(v, a),
        valid_ref(v, b),
        ({
            let lst = and_list(v, seq![a, b]);
            !lst.contains(REF_NO_MATCH) && !(lst.contains(REF_EMPTY_STRING) && lst.len() >= 2)
        }),
    ensures
        ({
            let (v1, x) = spec_mk_and(v, seq![a, b]);
            let lst = and_list(v, seq![a, b]);
            forall|y: u32|
                y != REF_ANY_STRING ==> (flat_one(v1, TAG_AND, x).contains(y) <==> lst.contains(
                    y,
                ))
        }),
{
    crate::model::lemma_mk_and_ok(v, aw, seq![a, b]);
    let (v1, x) = spec_mk_and(v, seq![a, b]);
    let lst = and_list(v, seq![a, b]);
    lemma_and_list_props(v, aw, seq![a, b]);
    lemma_head_word(TAG_EMPTY_STRING);
    lemma_head_word(TAG_NO_MATCH);
    lemma_head_word(TAG_REPEAT);
    lemma_head_word(TAG_AND);
    assert forall|y: u32| y != REF_ANY_STRING implies (flat_one(v1, TAG_AND, x).contains(y)
        <==> lst.contains(y)) by {
        if lst.len() == 0 {
            assert(x == REF_ANY_STRING && v1 == v);
            assert(flat_one(v1, TAG_AND, x) =~= seq![REF_ANY_STRING]);
            if flat_one(v1, TAG_AND, x).contains(y) {
                let j = choose|j: int|
                    0 <= j < flat_one(v1, TAG_AND, x).len() && flat_one(v1, TAG_AND, x)[j]
                        == y;
                assert(y == REF_ANY_STRING);
            }
        } else if lst.len() == 1 {
            assert(x == lst[0] && v1 == v);
            assert(rec_tag(v, x) != TAG_AND && x != REF_ANY_STRING);
            assert(flat_one(v1, TAG_AND, x) =~= seq![x]);
            if flat_one(v1, TAG_AND, x).contains(y) {
                let j = choose|j: int|
                    0 <= j < flat_one(v1, TAG_AND, x).len() && flat_one(v1, TAG_AND, x)[j]
                        == y;
                assert(y == x);
                assert(lst.contains(x));
            }
            if lst.contains(y) {
                let j = choose|j: int| 0 <= j < lst.len() && lst[j] == y;
                assert(j == 0);
                assert(seq![x][0] == x);
            }
        } else {
            let nul = all_nullable(v, lst);
            let w = nary_rec(TAG_AND, nul, lst);
            let (v1b, xb) = spec_insert(v, w);
            assert(v1 == v1b && x == xb);
            assert(v1[x as int] == w) by {
                if has_record(v, w) {
                    let i = record_ref(v, w);
                    assert(1 <= i < v.len() && v[i] == w);
                }
            }
            lemma_head_word(TAG_AND);
            assert(rec_tag(v1, x) == TAG_AND);
            assert(rec_items(v1, x) =~= lst);
            assert(flat_one(v1, TAG_AND, x) == lst);
        }
    }
}

/// The general case of intersection associativity: the inner result
/// stands for exactly the surviving members.
#[verifier::rlimit(100)]
proof fn lemma_and_assoc_general(v: Seq<Seq<u32>>, aw: int, a: u32, b: u32, c: u32)
    requires
        store_ok(v, aw),
        v.len() + 2 <= 0x0010_0000,
        valid_ref(v, a),
        valid_ref(v, b),
        valid_ref(v, c),
        ({
            let lst = and_list(v, seq![a, b]);
            !lst.contains(REF_NO_MATCH) && !(lst.contains(REF_EMPTY_STRING) && lst.len() >= 2)
        }),
    ensures
        ({
            let (v1, x) = spec_mk_and(v, seq![a, b]);
            let (v2, l) = spec_mk_and(v1, seq![x, c]);
            let (v3, r) = spec_mk_and(v2, seq![a, b, c]);
            l == r
        }),
{
crate::model::lemma_mk_and_ok(v, aw, seq![a, b]);
    let (v1, x) = spec_mk_and(v, seq![a, b]);
    crate::model::lemma_mk_and_ok(v1, aw, seq![x, c]);
    let (v2, l) = spec_mk_and(v1, seq![x, c]);
    crate::model::lemma_mk_and_ok(v2, aw, seq![a, b, c]);
    let (v3, r) = spec_mk_and(v2, seq![a, b, c]);

    let lst = and_list(v, seq![a, b]);
    lemma_and_list_props(v, aw, seq![a, b]);
    lemma_flatten_two(v, TAG_AND, a, b);
    lemma_flatten_two(v1, TAG_AND, x, c);
    lemma_flatten_three(v1, TAG_AND, a, b, c);
    let fab = flatten(v, TAG_AND, seq![a, b]);
    assert(v1[a as int] == v[a as int] && v1[b as int] == v[b as int] && v1[c as int] == v[
        c as int]);
    assert(flat_one(v1, TAG_AND, a) == flat_one(v, TAG_AND, a));
    assert(flat_one(v1, TAG_AND, b) == flat_one(v, TAG_AND, b));
    assert(flat_one(v1, TAG_AND, c) == flat_one(v, TAG_AND, c));
    lemma_concat_contains(flat_one(v, TAG_AND, a), flat_one(v, TAG_AND, b));
    lemma_concat_contains(flat_one(v1, TAG_AND, x), flat_one(v, TAG_AND, c));
    lemma_concat_contains(flat_one(v, TAG_AND, b), flat_one(v, TAG_AND, c));
    lemma_concat_contains(
        flat_one(v, TAG_AND, a),
        flat_one(v, TAG_AND, b) + flat_one(v, TAG_AND, c),
    );
    lemma_and_list_grow(v1, v2, seq![a, b, c]);
    // the inner result stands for exactly the members of lst
    lemma_and_inner_set(v, aw, a, b);
    assert(forall|y: u32|
        y != REF_ANY_STRING ==> (flat_one(v1, TAG_AND, x).contains(y) <==> lst.contains(y)));
        assert forall|y: u32| y != REF_ANY_STRING implies (flatten(v1, TAG_AND, seq![x, c]).contains(
            y,
        ) <==> flatten(v1, TAG_AND, seq![a, b, c]).contains(y)) by {
            assert(flatten(v1, TAG_AND, seq![x, c]).contains(y) <==> (flat_one(
                v1,
                TAG_AND,
                x,
            ).contains(y) || flat_one(v, TAG_AND, c).contains(y)));
            assert(flatten(v1, TAG_AND, seq![a, b, c]).contains(y) <==> (flat_one(
                v,
                TAG_AND,
                a,
            ).contains(y) || flat_one(v, TAG_AND, b).contains(y) || flat_one(
                v,
                TAG_AND,
                c,
            ).contains(y)));
            assert(fab.contains(y) <==> (flat_one(v, TAG_AND, a).contains(y) || flat_one(
                v,
                TAG_AND,
                b,
            ).contains(y)));
            assert(lst.contains(y) <==> (fab.contains(y) && y != REF_ANY_STRING));
        }
        lemma_canonical_same_set(
            flatten(v1, TAG_AND, seq![x, c]),
            flatten(v1, TAG_AND, seq![a, b, c]),
            REF_ANY_STRING,
        );
        assert(and_list(v1, seq![x, c]) == and_list(v1, seq![a, b, c]));
        assert(and_list(v2, seq![a, b, c]) == and_list(v1, seq![x, c]));
        lemma_and_same_list(v1, aw, seq![x, c], seq![a, b, c]);
}

/// Intersection is associative at the level of references: building
/// `and([and([a, b]), c])` and then `and([a, b, c])` in one store yields
/// the same reference.
pub proof fn lemma_and_associative(v: Seq<Seq<u32>>, aw: int, a: u32, b: u32, c: u32)
    requires
        store_ok(v, aw),
        v.len() + 2 <= 0x0010_0000,
        valid_ref(v, a),
        valid_ref(v, b),
        valid_ref(v, c),
    ensures
        ({
            let (v1, x) = spec_mk_and(v, seq![a, b]);
            let (v2, l) = spec_mk_and(v1, seq![x, c]);
            let (v3, r) = spec_mk_and(v2, seq![a, b, c]);
            l == r
        }),
{
    let lst0 = and_list(v, seq![a, b]);
    if lst0.contains(REF_NO_MATCH) || (lst0.contains(REF_EMPTY_STRING) && lst0.len() >= 2
        && !all_nullable(v, lst0)) {
        lemma_and_assoc_nomatch(v, aw, a, b, c);
    } else if lst0.contains(REF_EMPTY_STRING) && lst0.len() >= 2 {
        lemma_and_assoc_empty(v, aw, a, b, c);
    } else {
        lemma_and_assoc_general(v, aw, a, b, c);
    }
}

} // verus!
