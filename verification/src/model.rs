//! The mathematical model of the expression store.
//!
//! A store is a sequence of word records (`Seq<Seq<u32>>`, entry 0 a
//! placeholder). Each record's first word packs a tag in its low 8 bits
//! and the NULLABLE flag at bit 8. This module defines the packed
//! encodings, the per-record well-formedness predicate, the functional
//! models `spec_mk_*` of every smart constructor, and the semantic
//! nullability of a stored expression.

use crate::hashcons::{has_record, record_ref, records_unique, spec_insert};
use vstd::prelude::*;
use vstd::relations::{sorted_by, total_ordering};
use vstd::seq_lib::lemma_sorted_unique;

verus! {

pub const TAG_EMPTY_STRING: u32 = 1;

pub const TAG_NO_MATCH: u32 = 2;

pub const TAG_BYTE: u32 = 3;

pub const TAG_BYTE_SET: u32 = 4;

pub const TAG_NOT: u32 = 5;

pub const TAG_REPEAT: u32 = 6;

pub const TAG_CONCAT: u32 = 7;

pub const TAG_OR: u32 = 8;

pub const TAG_AND: u32 = 9;

/// The five reserved identifiers (0 is the invalid sentinel).
pub const REF_EMPTY_STRING: u32 = 1;

pub const REF_NO_MATCH: u32 = 2;

pub const REF_ANY_BYTE: u32 = 3;

pub const REF_ANY_STRING: u32 = 4;

pub const REF_NON_EMPTY_STRING: u32 = 5;

/// `hi` value denoting an unbounded repetition.
pub const REP_INF: u32 = 0xffff_ffff;

/// Record count cap (one more than the heap's record cap, for the
/// placeholder entry): identifiers stay well inside 32 bits.
pub const MAX_STORE: usize = 0x0010_0001;

// ---------------------------------------------------------------------
// packed head word
// ---------------------------------------------------------------------
/// The first word of a record: tag in the low byte, NULLABLE at bit 8.
pub open spec fn head_word(tag: u32, nullable: bool) -> u32 {
    if nullable {
        tag | 0x100
    } else {
        tag
    }
}

pub open spec fn word_tag(w0: u32) -> u32 {
    w0 & 0xff
}

pub open spec fn word_nullable(w0: u32) -> bool {
    w0 & 0x100 != 0
}

/// The flag bits of a head word (everything above the tag byte).
pub open spec fn word_flags(w0: u32) -> u32 {
    w0 & 0xffff_ff00
}

/// The flag field keeps the NULLABLE bit.
pub proof fn lemma_flags_mask(w0: u32)
    ensures
        (word_flags(w0) & 0x100 != 0) == word_nullable(w0),
        word_tag(word_flags(w0) | word_tag(w0)) == word_tag(w0),
{
    assert(((w0 & 0xffff_ff00u32) & 0x100u32 != 0) == (w0 & 0x100u32 != 0) && ((w0
        & 0xffff_ff00u32) | (w0 & 0xffu32)) & 0xffu32 == w0 & 0xffu32) by (bit_vector);
}

/// A head word carries a known tag and no stray flag bits.
pub open spec fn wf_head(w0: u32) -> bool {
    &&& w0 == head_word(word_tag(w0), word_nullable(w0))
    &&& 1 <= word_tag(w0) <= 9
}

/// Bit-level facts about head words, stated once so that the rest of the
/// development can reason about tags and flags purely symbolically.
pub proof fn lemma_head_word(tag: u32)
    requires
        1 <= tag < 256,
    ensures
        word_tag(head_word(tag, true)) == tag,
        word_tag(head_word(tag, false)) == tag,
        word_nullable(head_word(tag, true)),
        !word_nullable(head_word(tag, false)),
        wf_head(head_word(tag, true)) == (1 <= tag <= 9),
        wf_head(head_word(tag, false)) == (1 <= tag <= 9),
{
    assert((tag | 0x100u32) & 0xffu32 == tag && tag & 0xffu32 == tag && (tag | 0x100u32)
        & 0x100u32 != 0 && tag & 0x100u32 == 0 && (tag | 0x100u32) | 0x100u32 == (tag
        | 0x100u32)) by (bit_vector)
        requires
            1 <= tag < 256u32,
    ;
}

// ---------------------------------------------------------------------
// record accessors
// ---------------------------------------------------------------------
pub open spec fn valid_ref(v: Seq<Seq<u32>>, r: u32) -> bool {
    1 <= r < v.len()
}

pub open spec fn rec(v: Seq<Seq<u32>>, r: u32) -> Seq<u32> {
    v[r as int]
}

pub open spec fn rec_tag(v: Seq<Seq<u32>>, r: u32) -> u32 {
    word_tag(rec(v, r)[0])
}

pub open spec fn rec_nullable(v: Seq<Seq<u32>>, r: u32) -> bool {
    word_nullable(rec(v, r)[0])
}

/// The words after the head: children for composite nodes, the bitmap for
/// a byte set.
pub open spec fn rec_items(v: Seq<Seq<u32>>, r: u32) -> Seq<u32> {
    rec(v, r).drop_first()
}

// ---------------------------------------------------------------------
// record well-formedness
// ---------------------------------------------------------------------
/// All bits set over `aw` bitmap words.
pub open spec fn all_ones(aw: int) -> Seq<u32> {
    Seq::new(aw as nat, |i: int| 0xffff_ffffu32)
}

/// Structural invariant of a single stored record: correct arity, children
/// already stored (strictly smaller identifiers), the normal form the
/// smart constructors guarantee, and a NULLABLE flag consistent with the
/// children's flags.
pub open spec fn wf_record(v: Seq<Seq<u32>>, aw: int, r: u32) -> bool {
    let w = v[r as int];
    &&& w.len() >= 1
    &&& wf_head(w[0])
    &&& (word_tag(w[0]) == TAG_EMPTY_STRING ==> w.len() == 1 && word_nullable(w[0]))
    &&& (word_tag(w[0]) == TAG_NO_MATCH ==> w.len() == 1 && !word_nullable(w[0]))
    &&& (word_tag(w[0]) == TAG_BYTE ==> w.len() == 2 && w[1] < 256 && !word_nullable(w[0]))
    &&& (word_tag(w[0]) == TAG_BYTE_SET ==> w.len() == 1 + aw && !word_nullable(w[0]) && exists|
        i: int,
    | 1 <= i < w.len() && w[i] != 0)
    &&& (word_tag(w[0]) == TAG_NOT ==> {
        &&& w.len() == 2
        &&& valid_ref(v, w[1])
        &&& w[1] < r
        &&& w[1] != REF_EMPTY_STRING
        &&& w[1] != REF_NO_MATCH
        &&& w[1] != REF_ANY_STRING
        &&& w[1] != REF_NON_EMPTY_STRING
        &&& rec_tag(v, w[1]) != TAG_NOT
        &&& word_nullable(w[0]) == !rec_nullable(v, w[1])
    })
    &&& (word_tag(w[0]) == TAG_REPEAT ==> {
        &&& w.len() == 4
        &&& valid_ref(v, w[1])
        &&& w[1] < r
        &&& w[1] != REF_NO_MATCH
        &&& w[2] + 2 <= w[3]
        &&& (rec_nullable(v, w[1]) ==> w[2] == 0)
        &&& word_nullable(w[0]) == (w[2] == 0)
    })
    &&& (word_tag(w[0]) == TAG_CONCAT ==> {
        &&& w.len() >= 3
        &&& (forall|i: int|
            1 <= i < w.len() ==> valid_ref(v, #[trigger] w[i]) && w[i] < r && w[i]
                != REF_EMPTY_STRING && w[i] != REF_NO_MATCH && rec_tag(v, w[i]) != TAG_CONCAT)
        &&& (word_nullable(w[0]) <==> (forall|i: int|
            1 <= i < w.len() ==> rec_nullable(v, #[trigger] w[i])))
    })
    &&& (word_tag(w[0]) == TAG_OR ==> {
        &&& w.len() >= 3
        &&& (forall|i: int|
            1 <= i < w.len() ==> valid_ref(v, #[trigger] w[i]) && w[i] < r && w[i]
                != REF_NO_MATCH && w[i] != REF_ANY_STRING && rec_tag(v, w[i]) != TAG_OR)
        &&& (forall|i: int, j: int| 1 <= i < j < w.len() ==> w[i] < w[j])
        &&& (word_nullable(w[0]) <==> (exists|i: int|
            1 <= i < w.len() && rec_nullable(v, #[trigger] w[i])))
    })
    &&& (word_tag(w[0]) == TAG_AND ==> {
        &&& w.len() >= 3
        &&& (forall|i: int|
            1 <= i < w.len() ==> valid_ref(v, #[trigger] w[i]) && w[i] < r && w[i]
                != REF_EMPTY_STRING && w[i] != REF_NO_MATCH && w[i] != REF_ANY_STRING && rec_tag(
                v,
                w[i],
            ) != TAG_AND)
        &&& (forall|i: int, j: int| 1 <= i < j < w.len() ==> w[i] < w[j])
        &&& (word_nullable(w[0]) <==> (forall|i: int|
            1 <= i < w.len() ==> rec_nullable(v, #[trigger] w[i])))
    })
}

/// Invariant of the whole store: the placeholder, the five reserved
/// records at their fixed identifiers, and well-formedness of every
/// record.
pub open spec fn store_wf(v: Seq<Seq<u32>>, aw: int) -> bool {
    &&& 1 <= aw
    &&& 6 <= v.len() <= MAX_STORE
    &&& v[0].len() == 0
    &&& v[1] == seq![head_word(TAG_EMPTY_STRING, true)]
    &&& v[2] == seq![TAG_NO_MATCH]
    &&& v[3] == seq![TAG_BYTE_SET] + all_ones(aw)
    &&& v[4] == seq![head_word(TAG_REPEAT, true), REF_ANY_BYTE, 0u32, REP_INF]
    &&& v[5] == seq![TAG_REPEAT, REF_ANY_BYTE, 1u32, REP_INF]
    &&& forall|r: u32| #[trigger] valid_ref(v, r) ==> wf_record(v, aw, r)
}

/// The full invariant: well-formed and duplicate-free.
pub open spec fn store_ok(v: Seq<Seq<u32>>, aw: int) -> bool {
    &&& store_wf(v, aw)
    &&& records_unique(v)
}

// ---------------------------------------------------------------------
// semantic nullability
// ---------------------------------------------------------------------
/// Whether the language of the expression stored at `r` contains the
/// empty sequence, computed recursively over the stored structure (the
/// reference semantics for the NULLABLE flag).
pub open spec fn nullable_sem(v: Seq<Seq<u32>>, r: u32) -> bool
    decreases r via nullable_sem_decreases
{
    if !valid_ref(v, r) || v[r as int].len() == 0 {
        false
    } else {
        let w = v[r as int];
        let t = word_tag(w[0]);
        if t == TAG_EMPTY_STRING {
            true
        } else if t == TAG_NOT {
            if w.len() == 2 && w[1] < r {
                !nullable_sem(v, w[1])
            } else {
                false
            }
        } else if t == TAG_REPEAT {
            if w.len() == 4 && w[1] < r {
                w[2] == 0 || nullable_sem(v, w[1])
            } else {
                false
            }
        } else if t == TAG_CONCAT || t == TAG_AND {
            forall|i: int|
                1 <= i < w.len() ==> ((#[trigger] w[i]) < r && nullable_sem(v, w[i]))
        } else if t == TAG_OR {
            exists|i: int| 1 <= i < w.len() && (#[trigger] w[i]) < r && nullable_sem(v, w[i])
        } else {
            false
        }
    }
}

#[via_fn]
proof fn nullable_sem_decreases(v: Seq<Seq<u32>>, r: u32) {
}

// ---------------------------------------------------------------------
// argument normalization
// ---------------------------------------------------------------------
/// One step of flattening: an argument whose top-level tag is `tag` is
/// replaced by its children.
pub open spec fn flat_one(v: Seq<Seq<u32>>, tag: u32, x: u32) -> Seq<u32> {
    if valid_ref(v, x) && v[x as int].len() >= 1 && rec_tag(v, x) == tag {
        rec_items(v, x)
    } else {
        seq![x]
    }
}

/// Splice the children of every argument whose top-level tag is `tag`.
pub open spec fn flatten(v: Seq<Seq<u32>>, tag: u32, args: Seq<u32>) -> Seq<u32>
    decreases args.len(),
{
    if args.len() == 0 {
        Seq::empty()
    } else {
        flat_one(v, tag, args[0]) + flatten(v, tag, args.drop_first())
    }
}

pub open spec fn leq32() -> spec_fn(u32, u32) -> bool {
    |a: u32, b: u32| a <= b
}

/// Sort identifiers ascending.
pub open spec fn sort_refs(s: Seq<u32>) -> Seq<u32> {
    s.sort_by(leq32())
}

/// One left-to-right sweep over a sorted argument list: drop every
/// occurrence of `d`, and drop an element equal to the one kept just
/// before it (`p` is the previously kept element).
pub open spec fn squash(s: Seq<u32>, d: u32, p: u32) -> Seq<u32>
    decreases s.len(),
{
    if s.len() == 0 {
        Seq::empty()
    } else if s[0] == p || s[0] == d {
        squash(s.drop_first(), d, p)
    } else {
        seq![s[0]] + squash(s.drop_first(), d, s[0])
    }
}

/// The canonical argument list of a union: flatten nested unions, sort,
/// drop `NoMatch` and duplicates.
pub open spec fn or_list(v: Seq<Seq<u32>>, args: Seq<u32>) -> Seq<u32> {
    squash(sort_refs(flatten(v, TAG_OR, args)), REF_NO_MATCH, REF_NO_MATCH)
}

/// The canonical argument list of an intersection: flatten nested
/// intersections, sort, drop `AnyString` and duplicates.
pub open spec fn and_list(v: Seq<Seq<u32>>, args: Seq<u32>) -> Seq<u32> {
    squash(sort_refs(flatten(v, TAG_AND, args)), REF_ANY_STRING, REF_ANY_STRING)
}

/// Drop every `EmptyString` argument of a concatenation.
pub open spec fn drop_empties(s: Seq<u32>) -> Seq<u32>
    decreases s.len(),
{
    if s.len() == 0 {
        Seq::empty()
    } else if s[0] == REF_EMPTY_STRING {
        drop_empties(s.drop_first())
    } else {
        seq![s[0]] + drop_empties(s.drop_first())
    }
}

/// The canonical argument list of a concatenation (order preserved).
pub open spec fn concat_list(v: Seq<Seq<u32>>, args: Seq<u32>) -> Seq<u32> {
    drop_empties(flatten(v, TAG_CONCAT, args))
}

pub open spec fn any_nullable(v: Seq<Seq<u32>>, s: Seq<u32>) -> bool {
    exists|i: int| 0 <= i < s.len() && rec_nullable(v, #[trigger] s[i])
}

pub open spec fn all_nullable(v: Seq<Seq<u32>>, s: Seq<u32>) -> bool {
    forall|i: int| 0 <= i < s.len() ==> rec_nullable(v, #[trigger] s[i])
}

/// A composite record: head word followed by the child list.
pub open spec fn nary_rec(tag: u32, nullable: bool, items: Seq<u32>) -> Seq<u32> {
    seq![head_word(tag, nullable)] + items
}

// ---------------------------------------------------------------------
// functional models of the smart constructors
// ---------------------------------------------------------------------
pub open spec fn spec_mk_byte(v: Seq<Seq<u32>>, b: u8) -> (Seq<Seq<u32>>, u32) {
    spec_insert(v, seq![TAG_BYTE, b as u32])
}

pub open spec fn spec_mk_byte_set(v: Seq<Seq<u32>>, bits: Seq<u32>) -> (Seq<Seq<u32>>, u32) {
    if forall|i: int| 0 <= i < bits.len() ==> bits[i] == 0 {
        (v, REF_NO_MATCH)
    } else {
        spec_insert(v, seq![TAG_BYTE_SET] + bits)
    }
}

pub open spec fn spec_mk_repeat(v: Seq<Seq<u32>>, e: u32, lo: u32, hi: u32) -> (
    Seq<Seq<u32>>,
    u32,
) {
    if e == REF_NO_MATCH {
        if lo == 0 {
            (v, REF_EMPTY_STRING)
        } else {
            (v, REF_NO_MATCH)
        }
    } else if lo == hi {
        (v, REF_EMPTY_STRING)
    } else if lo + 1 == hi {
        (v, e)
    } else if lo > hi {
        (v, REF_NO_MATCH)
    } else {
        let l2: u32 = if rec_nullable(v, e) {
            0
        } else {
            lo
        };
        spec_insert(v, seq![head_word(TAG_REPEAT, l2 == 0), e, l2, hi])
    }
}

pub open spec fn spec_mk_not(v: Seq<Seq<u32>>, e: u32) -> (Seq<Seq<u32>>, u32) {
    if e == REF_EMPTY_STRING {
        (v, REF_NON_EMPTY_STRING)
    } else if e == REF_NON_EMPTY_STRING {
        (v, REF_EMPTY_STRING)
    } else if e == REF_ANY_STRING {
        (v, REF_NO_MATCH)
    } else if e == REF_NO_MATCH {
        (v, REF_ANY_STRING)
    } else if rec_tag(v, e) == TAG_NOT {
        (v, rec(v, e)[1])
    } else {
        spec_insert(v, seq![head_word(TAG_NOT, !rec_nullable(v, e)), e])
    }
}

pub open spec fn spec_mk_or(v: Seq<Seq<u32>>, args: Seq<u32>) -> (Seq<Seq<u32>>, u32) {
    let lst = or_list(v, args);
    if lst.contains(REF_ANY_STRING) {
        (v, REF_ANY_STRING)
    } else if lst.len() == 0 {
        (v, REF_NO_MATCH)
    } else if lst.len() == 1 {
        (v, lst[0])
    } else {
        spec_insert(v, nary_rec(TAG_OR, any_nullable(v, lst), lst))
    }
}

pub open spec fn spec_mk_and(v: Seq<Seq<u32>>, args: Seq<u32>) -> (Seq<Seq<u32>>, u32) {
    let lst = and_list(v, args);
    if lst.contains(REF_NO_MATCH) {
        (v, REF_NO_MATCH)
    } else if lst.len() == 0 {
        (v, REF_ANY_STRING)
    } else if lst.len() == 1 {
        (v, lst[0])
    } else if lst.contains(REF_EMPTY_STRING) {
        if all_nullable(v, lst) {
            (v, REF_EMPTY_STRING)
        } else {
            (v, REF_NO_MATCH)
        }
    } else {
        spec_insert(v, nary_rec(TAG_AND, all_nullable(v, lst), lst))
    }
}

pub open spec fn spec_mk_concat(v: Seq<Seq<u32>>, args: Seq<u32>) -> (Seq<Seq<u32>>, u32) {
    let lst = concat_list(v, args);
    if lst.len() == 0 {
        (v, REF_EMPTY_STRING)
    } else if lst.len() == 1 {
        (v, lst[0])
    } else if lst.contains(REF_NO_MATCH) {
        (v, REF_NO_MATCH)
    } else {
        spec_insert(v, nary_rec(TAG_CONCAT, all_nullable(v, lst), lst))
    }
}

// ---------------------------------------------------------------------
// stability under store growth
// ---------------------------------------------------------------------
/// A record keeps its well-formedness when the store grows: the predicate
/// reads only entries at or below the record's own identifier.
pub proof fn lemma_wf_record_grow(v: Seq<Seq<u32>>, v2: Seq<Seq<u32>>, aw: int, r: u32)
    requires
        wf_record(v, aw, r),
        valid_ref(v, r),
        v.is_prefix_of(v2),
    ensures
        wf_record(v2, aw, r),
{
    assert(v2[r as int] == v[r as int]);
    let w = v[r as int];
    assert forall|i: int| 1 <= i < w.len() && valid_ref(v, w[i]) implies v2[#[trigger] w[i] as int]
        == v[w[i] as int] by {}
}

/// Flattening reads only the argument records, so it is stable when the
/// store grows.
pub proof fn lemma_flatten_grow(
    v: Seq<Seq<u32>>,
    v2: Seq<Seq<u32>>,
    tag: u32,
    args: Seq<u32>,
)
    requires
        v.is_prefix_of(v2),
        forall|i: int| 0 <= i < args.len() ==> valid_ref(v, #[trigger] args[i]),
    ensures
        flatten(v2, tag, args) == flatten(v, tag, args),
    decreases args.len(),
{
    if args.len() > 0 {
        assert(v2[args[0] as int] == v[args[0] as int]);
        assert(flat_one(v2, tag, args[0]) == flat_one(v, tag, args[0]));
        lemma_flatten_grow(v, v2, tag, args.drop_first());
    }
}

// ---------------------------------------------------------------------
// flatten
// ---------------------------------------------------------------------
/// Flattening distributes over concatenation of argument lists.
pub proof fn lemma_flatten_concat(v: Seq<Seq<u32>>, tag: u32, a: Seq<u32>, b: Seq<u32>)
    ensures
        flatten(v, tag, a + b) == flatten(v, tag, a) + flatten(v, tag, b),
    decreases a.len(),
{
    if a.len() == 0 {
        assert(a + b =~= b);
        assert(flatten(v, tag, a) + flatten(v, tag, b) =~= flatten(v, tag, b));
    } else {
        assert((a + b).drop_first() =~= a.drop_first() + b);
        lemma_flatten_concat(v, tag, a.drop_first(), b);
        assert(flat_one(v, tag, a[0]) + (flatten(v, tag, a.drop_first()) + flatten(v, tag, b))
            =~= (flat_one(v, tag, a[0]) + flatten(v, tag, a.drop_first())) + flatten(v, tag, b));
    }
}

/// In a well-formed store, every element of a flattened argument list is
/// a valid reference whose top-level tag is not `tag` (for the three
/// flattened composite tags), because children of a stored composite are
/// never of the same tag.
pub proof fn lemma_flatten_elems(v: Seq<Seq<u32>>, aw: int, tag: u32, args: Seq<u32>)
    requires
        store_ok(v, aw),
        tag == TAG_CONCAT || tag == TAG_OR || tag == TAG_AND,
        forall|i: int| 0 <= i < args.len() ==> valid_ref(v, #[trigger] args[i]),
    ensures
        forall|j: int|
            0 <= j < flatten(v, tag, args).len() ==> valid_ref(
                v,
                #[trigger] flatten(v, tag, args)[j],
            ) && rec_tag(v, flatten(v, tag, args)[j]) != tag,
        forall|x: u32|
            flatten(v, tag, args).contains(x) ==> (args.contains(x) || exists|i: int|
                0 <= i < args.len() && rec_tag(v, #[trigger] args[i]) == tag && rec_items(
                    v,
                    args[i],
                ).contains(x)),
    decreases args.len(),
{
    if args.len() > 0 {
        let a0 = args[0];
        let f0 = flat_one(v, tag, a0);
        let rest = flatten(v, tag, args.drop_first());
        assert(valid_ref(v, a0));
        assert(wf_record(v, aw, a0));
        assert(v[a0 as int].len() >= 1);
        assert forall|j: int| 0 <= j < f0.len() implies valid_ref(v, #[trigger] f0[j]) && rec_tag(
            v,
            f0[j],
        ) != tag by {
            if rec_tag(v, a0) == tag {
                assert(f0[j] == v[a0 as int][j + 1]);
            } else {
                assert(f0[j] == a0);
            }
        }
        lemma_flatten_elems(v, aw, tag, args.drop_first());
        assert forall|j: int|
            0 <= j < flatten(v, tag, args).len() implies valid_ref(
            v,
            #[trigger] flatten(v, tag, args)[j],
        ) && rec_tag(v, flatten(v, tag, args)[j]) != tag by {
            if j < f0.len() {
                assert(flatten(v, tag, args)[j] == f0[j]);
            } else {
                assert(flatten(v, tag, args)[j] == rest[j - f0.len()]);
            }
        }
        assert forall|x: u32| flatten(v, tag, args).contains(x) implies (args.contains(x)
            || exists|i: int|
            0 <= i < args.len() && rec_tag(v, #[trigger] args[i]) == tag && rec_items(
                v,
                args[i],
            ).contains(x)) by {
            let j = choose|j: int|
                0 <= j < flatten(v, tag, args).len() && flatten(v, tag, args)[j] == x;
            if j < f0.len() {
                if rec_tag(v, a0) == tag {
                    assert(rec_items(v, a0)[j] == x);
                    assert(rec_items(v, a0).contains(x));
                } else {
                    assert(x == a0);
                    assert(args[0] == x);
                }
            } else {
                assert(rest[j - f0.len()] == x);
                assert(rest.contains(x));
                if args.drop_first().contains(x) {
                    let i = choose|i: int|
                        0 <= i < args.drop_first().len() && args.drop_first()[i] == x;
                    assert(args[i + 1] == x);
                } else {
                    let i = choose|i: int|
                        0 <= i < args.drop_first().len() && rec_tag(
                            v,
                            #[trigger] args.drop_first()[i],
                        ) == tag && rec_items(v, args.drop_first()[i]).contains(x);
                    assert(args[i + 1] == args.drop_first()[i]);
                }
            }
        }
    }
}

// ---------------------------------------------------------------------
// sorting
// ---------------------------------------------------------------------
pub proof fn lemma_leq32_total()
    ensures
        total_ordering(leq32()),
{
}

/// What sorting guarantees, restated for `sort_refs`: sortedness and
/// element preservation.
pub proof fn lemma_sort_refs(s: Seq<u32>)
    ensures
        sorted_by(sort_refs(s), leq32()),
        sort_refs(s).to_multiset() == s.to_multiset(),
        forall|x: u32| s.contains(x) <==> #[trigger] sort_refs(s).contains(x),
        sort_refs(s).len() == s.len(),
    {
        lemma_leq32_total();
        s.lemma_sort_by_ensures(leq32());
        s.to_multiset_ensures();
        sort_refs(s).to_multiset_ensures();
        assert(s.to_multiset() =~= sort_refs(s).to_multiset());
        assert forall|x: u32| s.contains(x) <==> #[trigger] sort_refs(s).contains(x) by {
            assert(s.contains(x) <==> s.to_multiset().count(x) > 0);
            assert(sort_refs(s).contains(x) <==> sort_refs(s).to_multiset().count(x) > 0);
        }
    }

// ---------------------------------------------------------------------
// the dedup / drop sweep
// ---------------------------------------------------------------------
/// The canonical sweep over a sorted list: the result is strictly
/// increasing, and holds exactly the input elements other than the
/// dropped value `d` and the previously kept value `p`.
pub proof fn lemma_squash_props(s: Seq<u32>, d: u32, p: u32)
    requires
        sorted_by(s, leq32()),
        p == d || (forall|i: int| 0 <= i < s.len() ==> p <= #[trigger] s[i]),
    ensures
        forall|i: int, j: int|
            0 <= i < j < squash(s, d, p).len() ==> #[trigger] squash(s, d, p)[i]
                < #[trigger] squash(s, d, p)[j],
        forall|x: u32| #[trigger] squash(s, d, p).contains(x) <==> (s.contains(x) && x != d && x
            != p),
        p == d || (forall|i: int| 0 <= i < squash(s, d, p).len() ==> p < #[trigger] squash(s, d, p)[i]),
    decreases s.len(),
{
    if s.len() == 0 {
        assert forall|x: u32| squash(s, d, p).contains(x) <==> (s.contains(x) && x != d && x
            != p) by {
            if s.contains(x) {
                let i = choose|i: int| 0 <= i < s.len() && s[i] == x;
            }
        }
    } else {
        let rest = s.drop_first();
        assert(sorted_by(rest, leq32())) by {
            assert forall|i: int, j: int| 0 <= i < j < rest.len() implies leq32()(
                rest[i],
                rest[j],
            ) by {
                assert(rest[i] == s[i + 1] && rest[j] == s[j + 1]);
                assert(leq32()(s[i + 1], s[j + 1]));
            }
        }
        assert forall|i: int| 0 <= i < rest.len() implies s[0] <= #[trigger] rest[i] by {
            assert(rest[i] == s[i + 1]);
            assert(leq32()(s[0], s[i + 1]));
        }
        if s[0] == p || s[0] == d {
            lemma_squash_props(rest, d, p);
            assert forall|x: u32| squash(s, d, p).contains(x) <==> (s.contains(x) && x != d && x
                != p) by {
                assert(squash(s, d, p) == squash(rest, d, p));
                if s.contains(x) && x != d && x != p {
                    let i = choose|i: int| 0 <= i < s.len() && s[i] == x;
                    assert(i >= 1);
                    assert(rest[i - 1] == x);
                    assert(rest.contains(x));
                }
                if rest.contains(x) {
                    let i = choose|i: int| 0 <= i < rest.len() && rest[i] == x;
                    assert(s[i + 1] == x);
                    assert(s.contains(x));
                }
            }
            assert forall|i: int| 0 <= i < squash(s, d, p).len() && p != d implies p
                < #[trigger] squash(s, d, p)[i] by {
                assert(squash(s, d, p)[i] == squash(rest, d, p)[i]);
            }
            assert forall|i: int, j: int| 0 <= i < j < squash(s, d, p).len() implies #[trigger] squash(
                s,
                d,
                p,
            )[i] < #[trigger] squash(s, d, p)[j] by {
                assert(squash(s, d, p)[i] == squash(rest, d, p)[i]);
                assert(squash(s, d, p)[j] == squash(rest, d, p)[j]);
            }
        } else {
            lemma_squash_props(rest, d, s[0]);
            let inner = squash(rest, d, s[0]);
            let res = squash(s, d, p);
            assert(res == seq![s[0]] + inner);
            assert(res[0] == s[0]);
            assert forall|i: int| 0 <= i < inner.len() implies s[0] < #[trigger] inner[i] by {}
            assert forall|i: int, j: int| 0 <= i < j < res.len() implies #[trigger] res[i]
                < #[trigger] res[j] by {
                if i == 0 {
                    assert(res[j] == inner[j - 1]);
                } else {
                    assert(res[i] == inner[i - 1] && res[j] == inner[j - 1]);
                }
            }
            assert forall|x: u32| res.contains(x) <==> (s.contains(x) && x != d && x != p) by {
                if res.contains(x) {
                    let i = choose|i: int| 0 <= i < res.len() && res[i] == x;
                    if i == 0 {
                        assert(x == s[0]);
                        assert(s.contains(x));
                    } else {
                        assert(inner[i - 1] == x);
                        assert(inner.contains(x));
                        assert(inner.contains(x) <==> (rest.contains(x) && x != d && x != s[0]));
                        assert(rest.contains(x) && x != d && x != s[0]);
                        let k = choose|k: int| 0 <= k < rest.len() && rest[k] == x;
                        assert(s[k + 1] == x);
                        assert(s.contains(x));
                        assert(x != p) by {
                            if p != d {
                                assert(p <= s[0]);
                                assert(s[0] < x);
                            } else {
                                assert(x != d);
                            }
                        }
                    }
                }
                if s.contains(x) && x != d && x != p {
                    if x == s[0] {
                        assert(res[0] == x);
                        assert(res.contains(x));
                    } else {
                        let i = choose|i: int| 0 <= i < s.len() && s[i] == x;
                        assert(i >= 1);
                        assert(rest[i - 1] == x);
                        assert(rest.contains(x));
                        assert(inner.contains(x));
                        let k = choose|k: int| 0 <= k < inner.len() && inner[k] == x;
                        assert(res[k + 1] == x);
                        assert(res.contains(x));
                    }
                }
            }
            assert forall|i: int| 0 <= i < squash(s, d, p).len() && p != d implies p
                < #[trigger] squash(s, d, p)[i] by {
                assert(squash(s, d, p)[i] == res[i]);
                assert(res.contains(res[i]));
                assert(res[i] != p);
                assert(p <= s[0]);
                if i > 0 {
                    assert(res[i] == inner[i - 1]);
                }
            }
        }
    }
}

/// Two strictly increasing sequences with the same elements are equal.
pub proof fn lemma_strict_sorted_eq(a: Seq<u32>, b: Seq<u32>)
    requires
        forall|i: int, j: int| 0 <= i < j < a.len() ==> #[trigger] a[i] < #[trigger] a[j],
        forall|i: int, j: int| 0 <= i < j < b.len() ==> #[trigger] b[i] < #[trigger] b[j],
        forall|x: u32| a.contains(x) <==> b.contains(x),
    ensures
        a == b,
    decreases a.len(),
{
    if a.len() == 0 {
        if b.len() > 0 {
            assert(b.contains(b[0]));
        }
        assert(a =~= b);
    } else if b.len() == 0 {
        assert(a.contains(a[0]));
    } else {
        assert(a.contains(a[0]) && b.contains(b[0]));
        let ia = choose|i: int| 0 <= i < a.len() && a[i] == b[0];
        let ib = choose|i: int| 0 <= i < b.len() && b[i] == a[0];
        assert(a[0] <= a[ia] && b[0] <= b[ib]);
        assert(a[0] == b[0]);
        let ra = a.drop_first();
        let rb = b.drop_first();
        assert forall|x: u32| ra.contains(x) <==> rb.contains(x) by {
            if ra.contains(x) {
                let i = choose|i: int| 0 <= i < ra.len() && ra[i] == x;
                assert(a[i + 1] == x);
                assert(a[0] < x);
                assert(b.contains(x));
                let j = choose|j: int| 0 <= j < b.len() && b[j] == x;
                assert(j >= 1) by {
                    if j == 0 {
                        assert(b[0] == x);
                    }
                }
                assert(rb[j - 1] == x);
            }
            if rb.contains(x) {
                let i = choose|i: int| 0 <= i < rb.len() && rb[i] == x;
                assert(b[i + 1] == x);
                assert(b[0] < x);
                assert(a.contains(x));
                let j = choose|j: int| 0 <= j < a.len() && a[j] == x;
                assert(j >= 1) by {
                    if j == 0 {
                        assert(a[0] == x);
                    }
                }
                assert(ra[j - 1] == x);
            }
        }
        assert forall|i: int, j: int| 0 <= i < j < ra.len() implies #[trigger] ra[i]
            < #[trigger] ra[j] by {
            assert(ra[i] == a[i + 1] && ra[j] == a[j + 1]);
            assert(a[i + 1] < a[j + 1]);
        }
        assert forall|i: int, j: int| 0 <= i < j < rb.len() implies #[trigger] rb[i]
            < #[trigger] rb[j] by {
            assert(rb[i] == b[i + 1] && rb[j] == b[j + 1]);
            assert(b[i + 1] < b[j + 1]);
        }
        lemma_strict_sorted_eq(ra, rb);
        assert(a.len() == b.len());
        assert forall|i: int| 0 <= i < a.len() implies a[i] == b[i] by {
            if i > 0 {
                assert(a[i] == ra[i - 1]);
                assert(b[i] == rb[i - 1]);
            }
        }
        assert(a =~= b);
    }
}

// ---------------------------------------------------------------------
// preservation of the store invariant
// ---------------------------------------------------------------------
/// Inserting a record that would be well-formed at the next identifier
/// preserves the store invariant, and the returned identifier names
/// exactly that record.
pub proof fn lemma_insert_wf(v: Seq<Seq<u32>>, aw: int, w: Seq<u32>)
    requires
        store_ok(v, aw),
        v.len() <= 0x0010_0000,
        w.len() >= 1,
        wf_record(v.push(w), aw, v.len() as u32),
    ensures
        ({
            let (v2, r) = spec_insert(v, w);
            &&& store_ok(v2, aw)
            &&& valid_ref(v2, r)
            &&& v.is_prefix_of(v2)
            &&& v.len() <= v2.len() <= v.len() + 1
            &&& v2[r as int] == w
        }),
{
    let (v2, r) = spec_insert(v, w);
    if has_record(v, w) {
        let i = record_ref(v, w);
        assert(1 <= i < v.len() && v[i] == w);
        assert(v.is_prefix_of(v2)) by {
            assert(v.take(v.len() as int) =~= v);
        }
    } else {
        assert(v2 == v.push(w));
        assert(v.is_prefix_of(v2)) by {
            assert(v2.take(v.len() as int) =~= v);
        }
        assert(r as int == v.len());
        assert forall|s: u32| #[trigger] valid_ref(v2, s) implies wf_record(v2, aw, s) by {
            if s < v.len() {
                assert(valid_ref(v, s));
                lemma_wf_record_grow(v, v2, aw, s);
            }
        }
        assert(records_unique(v2)) by {
            assert forall|i: int, j: int| 1 <= i < j < v2.len() implies v2[i] != v2[j] by {
                if j == v.len() as int {
                    assert(v2[i] == v[i]);
                    assert(!has_record(v, w));
                }
            }
        }
    }
}

/// Elements of the canonical union argument list: valid references,
/// never `NoMatch`, never union-tagged, strictly increasing, and exactly
/// the flattened arguments minus `NoMatch`.
pub proof fn lemma_or_list_props(v: Seq<Seq<u32>>, aw: int, args: Seq<u32>)
    requires
        store_ok(v, aw),
        forall|i: int| 0 <= i < args.len() ==> valid_ref(v, #[trigger] args[i]),
    ensures
        ({
            let lst = or_list(v, args);
            &&& (forall|i: int, j: int| 0 <= i < j < lst.len() ==> lst[i] < lst[j])
            &&& (forall|x: u32| #[trigger] lst.contains(x) <==> flatten(v, TAG_OR, args).contains(
                x,
            ) && x != REF_NO_MATCH)
            &&& (forall|j: int|
                0 <= j < lst.len() ==> valid_ref(v, #[trigger] lst[j]) && rec_tag(v, lst[j])
                    != TAG_OR && lst[j] != REF_NO_MATCH)
        }),
{
    let fl = flatten(v, TAG_OR, args);
    let so = sort_refs(fl);
    let lst = or_list(v, args);
    lemma_flatten_elems(v, aw, TAG_OR, args);
    lemma_sort_refs(fl);
    lemma_squash_props(so, REF_NO_MATCH, REF_NO_MATCH);
    assert forall|j: int| 0 <= j < lst.len() implies valid_ref(v, #[trigger] lst[j]) && rec_tag(
        v,
        lst[j],
    ) != TAG_OR && lst[j] != REF_NO_MATCH by {
        assert(lst.contains(lst[j]));
        assert(fl.contains(lst[j]));
        let k = choose|k: int| 0 <= k < fl.len() && fl[k] == lst[j];
    }
}

/// Mirror of `lemma_or_list_props` for intersections.
pub proof fn lemma_and_list_props(v: Seq<Seq<u32>>, aw: int, args: Seq<u32>)
    requires
        store_ok(v, aw),
        forall|i: int| 0 <= i < args.len() ==> valid_ref(v, #[trigger] args[i]),
    ensures
        ({
            let lst = and_list(v, args);
            &&& (forall|i: int, j: int| 0 <= i < j < lst.len() ==> lst[i] < lst[j])
            &&& (forall|x: u32| #[trigger] lst.contains(x) <==> flatten(v, TAG_AND, args).contains(
                x,
            ) && x != REF_ANY_STRING)
            &&& (forall|j: int|
                0 <= j < lst.len() ==> valid_ref(v, #[trigger] lst[j]) && rec_tag(v, lst[j])
                    != TAG_AND && lst[j] != REF_ANY_STRING)
        }),
{
    let fl = flatten(v, TAG_AND, args);
    let so = sort_refs(fl);
    let lst = and_list(v, args);
    lemma_flatten_elems(v, aw, TAG_AND, args);
    lemma_sort_refs(fl);
    lemma_squash_props(so, REF_ANY_STRING, REF_ANY_STRING);
    assert forall|j: int| 0 <= j < lst.len() implies valid_ref(v, #[trigger] lst[j]) && rec_tag(
        v,
        lst[j],
    ) != TAG_AND && lst[j] != REF_ANY_STRING by {
        assert(lst.contains(lst[j]));
        assert(fl.contains(lst[j]));
        let k = choose|k: int| 0 <= k < fl.len() && fl[k] == lst[j];
    }
}

/// Elements of the canonical concatenation list: the flattened arguments
/// with `EmptyString` dropped, order kept.
pub proof fn lemma_drop_empties_elems(s: Seq<u32>)
    ensures
        forall|x: u32| #[trigger] drop_empties(s).contains(x) <==> (s.contains(x) && x
            != REF_EMPTY_STRING),
    decreases s.len(),
{
    if s.len() == 0 {
        assert forall|x: u32| #[trigger] drop_empties(s).contains(x) <==> (s.contains(x) && x
            != REF_EMPTY_STRING) by {
            if s.contains(x) {
                let i = choose|i: int| 0 <= i < s.len() && s[i] == x;
            }
        }
    } else {
        let rest = s.drop_first();
        lemma_drop_empties_elems(rest);
        assert forall|x: u32| #[trigger] drop_empties(s).contains(x) <==> (s.contains(x) && x
            != REF_EMPTY_STRING) by {
            if drop_empties(s).contains(x) {
                if s[0] == REF_EMPTY_STRING {
                    assert(drop_empties(rest).contains(x));
                    assert(rest.contains(x));
                    let i = choose|i: int| 0 <= i < rest.len() && rest[i] == x;
                    assert(s[i + 1] == x);
                } else {
                    let res = drop_empties(s);
                    let i = choose|i: int| 0 <= i < res.len() && res[i] == x;
                    if i == 0 {
                        assert(x == s[0]);
                        assert(s.contains(x));
                    } else {
                        assert(res[i] == drop_empties(rest)[i - 1]);
                        assert(drop_empties(rest).contains(x));
                        assert(rest.contains(x));
                        let k = choose|k: int| 0 <= k < rest.len() && rest[k] == x;
                        assert(s[k + 1] == x);
                    }
                }
            }
            if s.contains(x) && x != REF_EMPTY_STRING {
                let i = choose|i: int| 0 <= i < s.len() && s[i] == x;
                if i == 0 {
                    assert(s[0] != REF_EMPTY_STRING);
                    assert(drop_empties(s)[0] == x);
                    assert(drop_empties(s).contains(x));
                } else {
                    assert(rest[i - 1] == x);
                    assert(rest.contains(x));
                    assert(drop_empties(rest).contains(x));
                    let k = choose|k: int|
                        0 <= k < drop_empties(rest).len() && drop_empties(rest)[k] == x;
                    if s[0] == REF_EMPTY_STRING {
                        assert(drop_empties(s).contains(x));
                    } else {
                        assert(drop_empties(s)[k + 1] == x);
                        assert(drop_empties(s).contains(x));
                    }
                }
            }
        }
    }
}

/// `mk_byte` preserves the store invariant.
pub proof fn lemma_mk_byte_ok(v: Seq<Seq<u32>>, aw: int, b: u8)
    requires
        store_ok(v, aw),
        v.len() <= 0x0010_0000,
    ensures
        ({
            let (v2, r) = spec_mk_byte(v, b);
            &&& store_ok(v2, aw)
            &&& valid_ref(v2, r)
            &&& v.is_prefix_of(v2)
            &&& v.len() <= v2.len() <= v.len() + 1
            &&& v2[r as int] == seq![TAG_BYTE, b as u32]
        }),
{
    let w = seq![TAG_BYTE, b as u32];
    let v2 = v.push(w);
    let r: u32 = v.len() as u32;
    lemma_head_word(TAG_BYTE);
    assert(w[0] == head_word(TAG_BYTE, false));
    assert(wf_record(v2, aw, r));
    lemma_insert_wf(v, aw, w);
}

/// `mk_byte_set` preserves the store invariant.
pub proof fn lemma_mk_byte_set_ok(v: Seq<Seq<u32>>, aw: int, bits: Seq<u32>)
    requires
        store_ok(v, aw),
        v.len() <= 0x0010_0000,
        bits.len() == aw,
    ensures
        ({
            let (v2, r) = spec_mk_byte_set(v, bits);
            &&& store_ok(v2, aw)
            &&& valid_ref(v2, r)
            &&& v.is_prefix_of(v2)
            &&& v.len() <= v2.len() <= v.len() + 1
        }),
{
    if forall|i: int| 0 <= i < bits.len() ==> bits[i] == 0 {
        assert(v.take(v.len() as int) =~= v);
    } else {
        let w = seq![TAG_BYTE_SET] + bits;
        let v2 = v.push(w);
        let r: u32 = v.len() as u32;
        lemma_head_word(TAG_BYTE_SET);
        assert(w[0] == head_word(TAG_BYTE_SET, false));
        let i = choose|i: int| 0 <= i < bits.len() && bits[i] != 0;
        assert(w[i + 1] == bits[i]);
        assert(wf_record(v2, aw, r));
        lemma_insert_wf(v, aw, w);
    }
}

/// `mk_repeat` preserves the store invariant.
pub proof fn lemma_mk_repeat_ok(v: Seq<Seq<u32>>, aw: int, e: u32, lo: u32, hi: u32)
    requires
        store_ok(v, aw),
        v.len() <= 0x0010_0000,
        valid_ref(v, e),
    ensures
        ({
            let (v2, r) = spec_mk_repeat(v, e, lo, hi);
            &&& store_ok(v2, aw)
            &&& valid_ref(v2, r)
            &&& v.is_prefix_of(v2)
            &&& v.len() <= v2.len() <= v.len() + 1
        }),
{
    assert(v.take(v.len() as int) =~= v);
    if e != REF_NO_MATCH && lo != hi && lo + 1 != hi && lo <= hi {
        let l2: u32 = if rec_nullable(v, e) {
            0
        } else {
            lo
        };
        let w = seq![head_word(TAG_REPEAT, l2 == 0), e, l2, hi];
        let v2 = v.push(w);
        let r: u32 = v.len() as u32;
        lemma_head_word(TAG_REPEAT);
        assert(v2[e as int] == v[e as int]);
        assert(wf_record(v2, aw, r));
        lemma_insert_wf(v, aw, w);
    }
}

/// `mk_not` preserves the store invariant.
pub proof fn lemma_mk_not_ok(v: Seq<Seq<u32>>, aw: int, e: u32)
    requires
        store_ok(v, aw),
        v.len() <= 0x0010_0000,
        valid_ref(v, e),
    ensures
        ({
            let (v2, r) = spec_mk_not(v, e);
            &&& store_ok(v2, aw)
            &&& valid_ref(v2, r)
            &&& v.is_prefix_of(v2)
            &&& v.len() <= v2.len() <= v.len() + 1
        }),
{
    assert(v.take(v.len() as int) =~= v);
    if e == REF_EMPTY_STRING || e == REF_NON_EMPTY_STRING || e == REF_ANY_STRING || e
        == REF_NO_MATCH {
    } else if rec_tag(v, e) == TAG_NOT {
        assert(wf_record(v, aw, e));
    } else {
        let w = seq![head_word(TAG_NOT, !rec_nullable(v, e)), e];
        let v2 = v.push(w);
        let r: u32 = v.len() as u32;
        lemma_head_word(TAG_NOT);
        assert(v2[e as int] == v[e as int]);
        assert(wf_record(v2, aw, r));
        lemma_insert_wf(v, aw, w);
    }
}

/// `mk_or` preserves the store invariant.
pub proof fn lemma_mk_or_ok(v: Seq<Seq<u32>>, aw: int, args: Seq<u32>)
    requires
        store_ok(v, aw),
        v.len() <= 0x0010_0000,
        forall|i: int| 0 <= i < args.len() ==> valid_ref(v, #[trigger] args[i]),
    ensures
        ({
            let (v2, r) = spec_mk_or(v, args);
            &&& store_ok(v2, aw)
            &&& valid_ref(v2, r)
            &&& v.is_prefix_of(v2)
            &&& v.len() <= v2.len() <= v.len() + 1
        }),
{
    assert(v.take(v.len() as int) =~= v);
    let lst = or_list(v, args);
    lemma_or_list_props(v, aw, args);
    if !lst.contains(REF_ANY_STRING) && lst.len() >= 2 {
        let nul = any_nullable(v, lst);
        let w = nary_rec(TAG_OR, nul, lst);
        let v2 = v.push(w);
        let r: u32 = v.len() as u32;
        lemma_head_word(TAG_OR);
        assert(w[0] == head_word(TAG_OR, nul));
        assert(w.len() == 1 + lst.len());
        assert forall|i: int| 1 <= i < w.len() implies w[i] == lst[i - 1] by {}
        assert forall|i: int| 1 <= i < w.len() implies valid_ref(v2, #[trigger] w[i]) && w[i] < r
            && w[i] != REF_NO_MATCH && w[i] != REF_ANY_STRING && rec_tag(v2, w[i]) != TAG_OR by {
            assert(w[i] == lst[i - 1]);
            assert(lst.contains(lst[i - 1]));
            assert(v2[w[i] as int] == v[w[i] as int]);
        }
        assert(word_nullable(w[0]) <==> (exists|i: int|
            1 <= i < w.len() && rec_nullable(v2, #[trigger] w[i]))) by {
            if nul {
                let j = choose|j: int| 0 <= j < lst.len() && rec_nullable(v, #[trigger] lst[j]);
                assert(w[j + 1] == lst[j]);
                assert(v2[lst[j] as int] == v[lst[j] as int]);
                assert(rec_nullable(v2, w[j + 1]));
            } else {
                assert forall|i: int| 1 <= i < w.len() implies !rec_nullable(
                    v2,
                    #[trigger] w[i],
                ) by {
                    assert(w[i] == lst[i - 1]);
                    assert(v2[w[i] as int] == v[w[i] as int]);
                    assert(!rec_nullable(v, lst[i - 1]));
                }
            }
        }
        assert(wf_record(v2, aw, r));
        lemma_insert_wf(v, aw, w);
    }
}

/// `mk_and` preserves the store invariant.
pub proof fn lemma_mk_and_ok(v: Seq<Seq<u32>>, aw: int, args: Seq<u32>)
    requires
        store_ok(v, aw),
        v.len() <= 0x0010_0000,
        forall|i: int| 0 <= i < args.len() ==> valid_ref(v, #[trigger] args[i]),
    ensures
        ({
            let (v2, r) = spec_mk_and(v, args);
            &&& store_ok(v2, aw)
            &&& valid_ref(v2, r)
            &&& v.is_prefix_of(v2)
            &&& v.len() <= v2.len() <= v.len() + 1
        }),
{
    assert(v.take(v.len() as int) =~= v);
    let lst = and_list(v, args);
    lemma_and_list_props(v, aw, args);
    if !lst.contains(REF_NO_MATCH) && lst.len() >= 2 && !lst.contains(REF_EMPTY_STRING) {
        let nul = all_nullable(v, lst);
        let w = nary_rec(TAG_AND, nul, lst);
        let v2 = v.push(w);
        let r: u32 = v.len() as u32;
        lemma_head_word(TAG_AND);
        assert(w[0] == head_word(TAG_AND, nul));
        assert(w.len() == 1 + lst.len());
        assert forall|i: int| 1 <= i < w.len() implies w[i] == lst[i - 1] by {}
        assert forall|i: int| 1 <= i < w.len() implies valid_ref(v2, #[trigger] w[i]) && w[i] < r
            && w[i] != REF_EMPTY_STRING && w[i] != REF_NO_MATCH && w[i] != REF_ANY_STRING
            && rec_tag(v2, w[i]) != TAG_AND by {
            assert(w[i] == lst[i - 1]);
            assert(lst.contains(lst[i - 1]));
            assert(v2[w[i] as int] == v[w[i] as int]);
        }
        assert(word_nullable(w[0]) <==> (forall|i: int|
            1 <= i < w.len() ==> rec_nullable(v2, #[trigger] w[i]))) by {
            if nul {
                assert forall|i: int| 1 <= i < w.len() implies rec_nullable(
                    v2,
                    #[trigger] w[i],
                ) by {
                    assert(w[i] == lst[i - 1]);
                    assert(v2[w[i] as int] == v[w[i] as int]);
                    assert(rec_nullable(v, lst[i - 1]));
                }
            } else {
                let j = choose|j: int| 0 <= j < lst.len() && !rec_nullable(v, #[trigger] lst[j]);
                assert(w[j + 1] == lst[j]);
                assert(v2[lst[j] as int] == v[lst[j] as int]);
                assert(!rec_nullable(v2, w[j + 1]));
            }
        }
        assert(wf_record(v2, aw, r));
        lemma_insert_wf(v, aw, w);
    }
}

/// `mk_concat` preserves the store invariant.
pub proof fn lemma_mk_concat_ok(v: Seq<Seq<u32>>, aw: int, args: Seq<u32>)
    requires
        store_ok(v, aw),
        v.len() <= 0x0010_0000,
        forall|i: int| 0 <= i < args.len() ==> valid_ref(v, #[trigger] args[i]),
    ensures
        ({
            let (v2, r) = spec_mk_concat(v, args);
            &&& store_ok(v2, aw)
            &&& valid_ref(v2, r)
            &&& v.is_prefix_of(v2)
            &&& v.len() <= v2.len() <= v.len() + 1
        }),
{
    assert(v.take(v.len() as int) =~= v);
    let fl = flatten(v, TAG_CONCAT, args);
    let lst = concat_list(v, args);
    lemma_flatten_elems(v, aw, TAG_CONCAT, args);
    lemma_drop_empties_elems(fl);
    assert forall|j: int| 0 <= j < lst.len() implies valid_ref(v, #[trigger] lst[j]) && rec_tag(
        v,
        lst[j],
    ) != TAG_CONCAT && lst[j] != REF_EMPTY_STRING by {
        assert(lst.contains(lst[j]));
        assert(fl.contains(lst[j]));
        let k = choose|k: int| 0 <= k < fl.len() && fl[k] == lst[j];
    }
    if lst.len() == 0 {
    } else if lst.len() == 1 {
        assert(valid_ref(v, lst[0]));
    } else if lst.contains(REF_NO_MATCH) {
    } else {
        let nul = all_nullable(v, lst);
        let w = nary_rec(TAG_CONCAT, nul, lst);
        let v2 = v.push(w);
        let r: u32 = v.len() as u32;
        lemma_head_word(TAG_CONCAT);
        assert(w[0] == head_word(TAG_CONCAT, nul));
        assert(w.len() == 1 + lst.len());
        assert forall|i: int| 1 <= i < w.len() implies w[i] == lst[i - 1] by {}
        assert forall|i: int| 1 <= i < w.len() implies valid_ref(v2, #[trigger] w[i]) && w[i] < r
            && w[i] != REF_EMPTY_STRING && w[i] != REF_NO_MATCH && rec_tag(v2, w[i])
            != TAG_CONCAT by {
            assert(w[i] == lst[i - 1]);
            assert(lst.contains(lst[i - 1]));
            assert(v2[w[i] as int] == v[w[i] as int]);
        }
        assert(word_nullable(w[0]) <==> (forall|i: int|
            1 <= i < w.len() ==> rec_nullable(v2, #[trigger] w[i]))) by {
            if nul {
                assert forall|i: int| 1 <= i < w.len() implies rec_nullable(
                    v2,
                    #[trigger] w[i],
                ) by {
                    assert(w[i] == lst[i - 1]);
                    assert(v2[w[i] as int] == v[w[i] as int]);
                    assert(rec_nullable(v, lst[i - 1]));
                }
            } else {
                let j = choose|j: int| 0 <= j < lst.len() && !rec_nullable(v, #[trigger] lst[j]);
                assert(w[j + 1] == lst[j]);
                assert(v2[lst[j] as int] == v[lst[j] as int]);
                assert(!rec_nullable(v2, w[j + 1]));
            }
        }
        assert(wf_record(v2, aw, r));
        lemma_insert_wf(v, aw, w);
    }
}

/// Inserting an element anywhere in a sequence adds it to the multiset.
pub proof fn lemma_insert_multiset(s: Seq<u32>, pos: int, x: u32)
    requires
        0 <= pos <= s.len(),
    ensures
        s.insert(pos, x).to_multiset() == s.to_multiset().insert(x),
{
    broadcast use vstd::multiset::group_multiset_axioms;

    let a = s.subrange(0, pos);
    let b = s.subrange(pos, s.len() as int);
    assert(s.insert(pos, x) == a.push(x) + b);
    vstd::seq_lib::lemma_multiset_commutative(a.push(x), b);
    vstd::seq_lib::lemma_multiset_commutative(a, b);
    a.to_multiset_ensures();
    assert(a + b =~= s);
    assert(a.push(x).to_multiset() =~= a.to_multiset().insert(x));
    assert(a.to_multiset().insert(x).add(b.to_multiset()) =~= a.to_multiset().add(
        b.to_multiset(),
    ).insert(x));
}

/// Dropping `EmptyString` arguments distributes over concatenation.
pub proof fn lemma_drop_empties_concat(a: Seq<u32>, b: Seq<u32>)
    ensures
        drop_empties(a + b) == drop_empties(a) + drop_empties(b),
    decreases a.len(),
{
    if a.len() == 0 {
        assert(a + b =~= b);
        assert(drop_empties(a) + drop_empties(b) =~= drop_empties(b));
    } else {
        assert((a + b).drop_first() =~= a.drop_first() + b);
        lemma_drop_empties_concat(a.drop_first(), b);
        if a[0] == REF_EMPTY_STRING {
        } else {
            assert(seq![a[0]] + (drop_empties(a.drop_first()) + drop_empties(b)) =~= (seq![a[0]]
                + drop_empties(a.drop_first())) + drop_empties(b));
        }
    }
}

} // verus!
