//! The expression store: typed smart constructors and readers over the
//! hash-consed record heap.
//!
//! Every constructor returns a fully normalized reference; its contract
//! says that the new store and the returned reference are exactly the
//! functional model (`spec_mk_*`) applied to the old store.

use crate::hashcons::{spec_insert, VecHashMap};
use crate::model::{
    all_nullable, and_list, any_nullable, concat_list, drop_empties, flat_one, flatten,
    head_word, leq32, lemma_drop_empties_concat, lemma_drop_empties_elems, lemma_flatten_concat,
    lemma_flatten_elems, lemma_head_word, lemma_flags_mask, lemma_insert_multiset,
    lemma_leq32_total, lemma_mk_and_ok, lemma_mk_byte_ok,
    lemma_mk_byte_set_ok, lemma_mk_concat_ok, lemma_mk_not_ok, lemma_mk_or_ok,
    lemma_mk_repeat_ok, lemma_or_list_props, lemma_and_list_props, lemma_sort_refs,
    lemma_squash_props, nary_rec, or_list, rec_items, rec_nullable, rec_tag, sort_refs,
    spec_mk_and, spec_mk_byte, spec_mk_byte_set, spec_mk_concat, spec_mk_not, spec_mk_or,
    spec_mk_repeat, squash, store_ok, store_wf, valid_ref, wf_record, word_flags, word_nullable,
    word_tag, REF_ANY_BYTE, REF_ANY_STRING, REF_EMPTY_STRING, REF_NON_EMPTY_STRING,
    REF_NO_MATCH, REP_INF, TAG_AND, TAG_BYTE, TAG_BYTE_SET, TAG_CONCAT, TAG_EMPTY_STRING,
    TAG_NOT, TAG_NO_MATCH, TAG_OR, TAG_REPEAT,
};
use vstd::prelude::*;
use vstd::relations::sorted_by;
use vstd::seq_lib::lemma_sorted_unique;

verus! {

/// A 32-bit identifier of a stored expression; 0 is the invalid sentinel.
#[derive(Clone, Copy, Debug, PartialEq, Eq, Hash, Structural)]
pub struct ExprRef(pub u32);

impl ExprRef {
    /// The expression matching only the empty sequence (reserved
    /// identifier 1; identifier 0 is the invalid sentinel).
    pub fn empty_string() -> (r: ExprRef)
        ensures
            r.0 == REF_EMPTY_STRING,
    {
        ExprRef(REF_EMPTY_STRING)
    }

    /// The expression matching nothing (reserved identifier 2).
    pub fn no_match() -> (r: ExprRef)
        ensures
            r.0 == REF_NO_MATCH,
    {
        ExprRef(REF_NO_MATCH)
    }

    /// The byte set holding every byte of the alphabet (reserved
    /// identifier 3).
    pub fn any_byte() -> (r: ExprRef)
        ensures
            r.0 == REF_ANY_BYTE,
    {
        ExprRef(REF_ANY_BYTE)
    }

    /// Any sequence of bytes (reserved identifier 4).
    pub fn any_string() -> (r: ExprRef)
        ensures
            r.0 == REF_ANY_STRING,
    {
        ExprRef(REF_ANY_STRING)
    }

    /// Any non-empty sequence of bytes (reserved identifier 5).
    pub fn non_empty_string() -> (r: ExprRef)
        ensures
            r.0 == REF_NON_EMPTY_STRING,
    {
        ExprRef(REF_NON_EMPTY_STRING)
    }

    pub fn is_valid(&self) -> (res: bool)
        ensures
            res == (self.0 != 0),
    {
        self.0 != 0
    }

    pub fn as_usize(&self) -> (res: usize)
        ensures
            res == self.0 as usize,
    {
        self.0 as usize
    }

    pub fn as_u32(&self) -> (res: u32)
        ensures
            res == self.0,
    {
        self.0
    }
}

/// The map from a sequence of typed references to their raw identifiers.
pub open spec fn refs_of(s: Seq<ExprRef>) -> Seq<u32> {
    s.map_values(|e: ExprRef| e.0)
}

/// The flag bits of a record's head word (the NULLABLE bit and the
/// reserved bits above it).
#[derive(Clone, Copy, Debug, PartialEq, Eq)]
pub struct ExprFlags(u32);

impl View for ExprFlags {
    type V = u32;

    closed spec fn view(&self) -> u32 {
        self.0
    }
}

impl ExprFlags {
    /// Whether the NULLABLE bit is set.
    pub fn is_nullable(&self) -> (res: bool)
        ensures
            res == word_nullable(self@),
    {
        self.0 & 0x100 != 0
    }

    /// The flag word for a known nullability.
    pub fn from_nullable(nullable: bool) -> (f: Self)
        ensures
            f@ == if nullable {
                0x100u32
            } else {
                0u32
            },
    {
        if nullable {
            ExprFlags(0x100)
        } else {
            ExprFlags(0)
        }
    }

    /// Pack these flags with a tag into a head word.
    pub fn encode(&self, tag: u32) -> (w: u32)
        requires
            tag < 256,
        ensures
            w == (self@ | tag),
    {
        self.0 | tag
    }
}

/// A decoded expression node. Word payloads are copied out of the store,
/// so a returned node stays valid across later constructor calls.
#[derive(Debug, PartialEq, Eq)]
pub enum Expr {
    EmptyString,
    NoMatch,
    Byte(u8),
    ByteSet(Vec<u32>),
    Not(ExprFlags, ExprRef),
    Repeat(ExprFlags, ExprRef, u32, u32),
    Concat(ExprFlags, Vec<ExprRef>),
    Or(ExprFlags, Vec<ExprRef>),
    And(ExprFlags, Vec<ExprRef>),
}

/// Membership of byte `b` in a bitmap of 32-bit words.
pub open spec fn byteset_has(s: Seq<u32>, b: int) -> bool {
    s[b / 32] & (1u32 << (b % 32) as u32) != 0
}

/// Constant-time membership test in a byte-set bitmap.
pub fn byteset_contains(s: &[u32], b: usize) -> (res: bool)
    requires
        b / 32 < s@.len(),
    ensures
        res == byteset_has(s@, b as int),
{
    s[b / 32] & (1u32 << ((b % 32) as u32)) != 0
}

/// What a decoded node says about a single byte.
pub open spec fn spec_matches_byte(e: Expr, b: u8) -> bool {
    match e {
        Expr::Byte(b2) => b == b2,
        Expr::ByteSet(s) => byteset_has(s@, b as int),
        _ => false,
    }
}

impl Expr {
    /// Whether this leaf expression matches the single byte `b`.
    pub fn matches_byte(&self, b: u8) -> (res: bool)
        requires
            (self matches Expr::EmptyString) || (self matches Expr::NoMatch) || (self
                matches Expr::Byte(_)) || (self matches Expr::ByteSet(s) && (b as int) / 32
                < s@.len()),
        ensures
            res == spec_matches_byte(*self, b),
    {
        match self {
            Expr::EmptyString => false,
            Expr::NoMatch => false,
            Expr::Byte(b2) => b == *b2,
            Expr::ByteSet(s) => byteset_contains(s.as_slice(), b as usize),
            _ => false,
        }
    }

    /// The flag word of a decoded node, as the readers state it.
    pub open spec fn spec_flags(&self) -> u32 {
        match *self {
            Expr::EmptyString => 0x100u32,
            Expr::NoMatch => 0u32,
            Expr::Byte(_) => 0u32,
            Expr::ByteSet(_) => 0u32,
            Expr::Not(g, _) => g@,
            Expr::Repeat(g, _, _, _) => g@,
            Expr::Concat(g, _) => g@,
            Expr::Or(g, _) => g@,
            Expr::And(g, _) => g@,
        }
    }

    /// The flag word of a decoded node (leaves have fixed flags).
    pub fn get_flags(&self) -> (f: ExprFlags)
        ensures
            f@ == self.spec_flags(),
    {
        match self {
            Expr::EmptyString => ExprFlags(0x100),
            Expr::NoMatch => ExprFlags(0),
            Expr::Byte(_) => ExprFlags(0),
            Expr::ByteSet(_) => ExprFlags(0),
            Expr::Not(f, _) => *f,
            Expr::Repeat(f, _, _, _) => *f,
            Expr::Concat(f, _) => *f,
            Expr::Or(f, _) => *f,
            Expr::And(f, _) => *f,
        }
    }

    /// Whether the node's NULLABLE flag is set.
    pub fn nullable(&self) -> (res: bool)
        ensures
            res == word_nullable(self.spec_flags()),
    {
        let f = self.get_flags();
        f.is_nullable()
    }
}

/// A decoded node agrees with the record stored at `r`.
pub open spec fn expr_matches(e: Expr, v: Seq<Seq<u32>>, r: u32) -> bool {
    let w = v[r as int];
    match e {
        Expr::EmptyString => rec_tag(v, r) == TAG_EMPTY_STRING,
        Expr::NoMatch => rec_tag(v, r) == TAG_NO_MATCH,
        Expr::Byte(b) => rec_tag(v, r) == TAG_BYTE && w[1] == b as u32,
        Expr::ByteSet(bits) => rec_tag(v, r) == TAG_BYTE_SET && bits@ == rec_items(v, r),
        Expr::Not(f, c) => rec_tag(v, r) == TAG_NOT && f@ == word_flags(w[0]) && c.0 == w[1],
        Expr::Repeat(f, c, lo, hi) => rec_tag(v, r) == TAG_REPEAT && f@ == word_flags(w[0]) && c.0
            == w[1] && lo == w[2] && hi == w[3],
        Expr::Concat(f, es) => rec_tag(v, r) == TAG_CONCAT && f@ == word_flags(w[0]) && refs_of(
            es@,
        ) == rec_items(v, r),
        Expr::Or(f, es) => rec_tag(v, r) == TAG_OR && f@ == word_flags(w[0]) && refs_of(es@)
            == rec_items(v, r),
        Expr::And(f, es) => rec_tag(v, r) == TAG_AND && f@ == word_flags(w[0]) && refs_of(es@)
            == rec_items(v, r),
    }
}

/// The child references of the record at `r`: the single child of a
/// complement or repetition, the full child list of a composite, empty
/// for leaves.
pub open spec fn spec_args(v: Seq<Seq<u32>>, r: u32) -> Seq<u32> {
    let t = rec_tag(v, r);
    if t == TAG_NOT || t == TAG_REPEAT {
        seq![v[r as int][1]]
    } else if t == TAG_CONCAT || t == TAG_OR || t == TAG_AND {
        rec_items(v, r)
    } else {
        Seq::empty()
    }
}

/// A hash-consed, canonicalizing store of regular expressions over a
/// byte alphabet of a fixed size.
pub struct ExprSet {
    exprs: VecHashMap,
    alphabet_size: usize,
    alphabet_words: usize,
}

impl ExprSet {
    /// The stored records (the model every contract speaks of).
    pub closed spec fn store(&self) -> Seq<Seq<u32>> {
        self.exprs@
    }

    /// The alphabet size the store was created with.
    pub closed spec fn alpha_size(&self) -> int {
        self.alphabet_size as int
    }

    /// Number of 32-bit words of a byte-set bitmap.
    pub closed spec fn words(&self) -> int {
        self.alphabet_words as int
    }

    /// The store invariant: a consistent heap holding well-formed,
    /// duplicate-free records with the five reserved expressions in
    /// place.
    pub closed spec fn wf(&self) -> bool {
        &&& self.exprs.inv()
        &&& store_ok(self.store(), self.words())
        &&& self.alphabet_words == (self.alphabet_size + 31) / 32
        &&& 1 <= self.alphabet_size <= 0x10000
    }

    /// Public consequences of the invariant.
    pub proof fn lemma_wf(&self)
        requires
            self.wf(),
        ensures
            store_ok(self.store(), self.words()),
            self.words() == (self.alpha_size() + 31) / 32,
            1 <= self.alpha_size() <= 0x10000,
            1 <= self.words(),
            6 <= self.store().len(),
    {
    }

    /// Create a store over an alphabet of `alphabet_size` symbols and
    /// pre-populate the five reserved expressions at identifiers 1 to 5.
    pub fn new(alphabet_size: usize) -> (s: ExprSet)
        requires
            1 <= alphabet_size <= 0x10000,
        ensures
            s.wf(),
            s.alpha_size() == alphabet_size,
            s.store().len() == 6,
    {
        let mut exprs = VecHashMap::new();
        let alphabet_words = (alphabet_size + 31) / 32;
        let ghost v0 = exprs@;

        // identifier 1: EmptyString (nullable)
        let mut w1: Vec<u32> = Vec::new();
        w1.push(TAG_EMPTY_STRING | 0x100);
        let r1 = exprs.insert(w1);
        proof {
            assert(!crate::hashcons::has_record(v0, seq![head_word(TAG_EMPTY_STRING, true)]));
            assert(r1 == 1);
        }
        let ghost v1 = exprs@;

        // identifier 2: NoMatch
        let mut w2: Vec<u32> = Vec::new();
        w2.push(TAG_NO_MATCH);
        proof {
            lemma_head_word(TAG_EMPTY_STRING);
            assert(v1[1][0] == head_word(TAG_EMPTY_STRING, true));
            assert(head_word(TAG_EMPTY_STRING, true) != TAG_NO_MATCH) by {
                assert(word_tag(head_word(TAG_EMPTY_STRING, true)) == TAG_EMPTY_STRING);
                assert(word_tag(TAG_NO_MATCH) == TAG_NO_MATCH) by {
                    lemma_head_word(TAG_NO_MATCH);
                }
            }
            assert(!crate::hashcons::has_record(v1, seq![TAG_NO_MATCH]));
        }
        let r2 = exprs.insert(w2);
        proof {
            assert(r2 == 2);
        }
        let ghost v2 = exprs@;

        // identifier 3: the byte set holding the whole alphabet
        let mut w3: Vec<u32> = Vec::new();
        w3.push(TAG_BYTE_SET);
        let mut k: usize = 0;
        while k < alphabet_words
            invariant
                0 <= k <= alphabet_words,
                w3@ =~= seq![TAG_BYTE_SET] + crate::model::all_ones(k as int),
            decreases alphabet_words - k,
        {
            w3.push(0xffff_ffff);
            proof {
                assert(w3@ =~= seq![TAG_BYTE_SET] + crate::model::all_ones(k + 1 as int));
            }
            k = k + 1;
        }
        proof {
            lemma_head_word(TAG_BYTE_SET);
            lemma_head_word(TAG_NO_MATCH);
            assert(v2[1][0] == head_word(TAG_EMPTY_STRING, true));
            assert(v2[2][0] == TAG_NO_MATCH);
            assert(w3@[0] == TAG_BYTE_SET);
            assert(word_tag(head_word(TAG_EMPTY_STRING, true)) == TAG_EMPTY_STRING) by {
                lemma_head_word(TAG_EMPTY_STRING);
            }
            assert(word_tag(TAG_BYTE_SET) == TAG_BYTE_SET);
            assert(word_tag(TAG_NO_MATCH) == TAG_NO_MATCH);
            assert(v2[1][0] != w3@[0] && v2[2][0] != w3@[0]);
            assert(!crate::hashcons::has_record(v2, w3@));
        }
        let r3 = exprs.insert(w3);
        proof {
            assert(r3 == 3);
        }
        let ghost v3 = exprs@;

        // identifier 4: AnyByte repeated zero or more times (any string)
        let mut w4: Vec<u32> = Vec::new();
        w4.push(TAG_REPEAT | 0x100);
        w4.push(REF_ANY_BYTE);
        w4.push(0);
        w4.push(REP_INF);
        proof {
            lemma_head_word(TAG_REPEAT);
            assert(w4@ =~= seq![head_word(TAG_REPEAT, true), REF_ANY_BYTE, 0u32, REP_INF]);
            assert(word_tag(w4@[0]) == TAG_REPEAT);
            assert(v3[1][0] != w4@[0]) by {
                lemma_head_word(TAG_EMPTY_STRING);
            }
            assert(v3[2][0] != w4@[0]);
            assert(v3[3][0] != w4@[0]) by {
                lemma_head_word(TAG_BYTE_SET);
            }
            assert(!crate::hashcons::has_record(v3, w4@));
        }
        let r4 = exprs.insert(w4);
        proof {
            assert(r4 == 4);
        }
        let ghost v4 = exprs@;

        // identifier 5: AnyByte repeated one or more times
        let mut w5: Vec<u32> = Vec::new();
        w5.push(TAG_REPEAT);
        w5.push(REF_ANY_BYTE);
        w5.push(1);
        w5.push(REP_INF);
        proof {
            lemma_head_word(TAG_REPEAT);
            assert(w5@ =~= seq![TAG_REPEAT, REF_ANY_BYTE, 1u32, REP_INF]);
            assert(v4[1][0] != w5@[0]) by {
                lemma_head_word(TAG_EMPTY_STRING);
            }
            assert(v4[2][0] != w5@[0]);
            assert(v4[3][0] != w5@[0]) by {
                lemma_head_word(TAG_BYTE_SET);
            }
            assert(v4[4][0] != w5@[0]) by {
                assert(word_nullable(v4[4][0]) && !word_nullable(w5@[0]));
            }
            assert(!crate::hashcons::has_record(v4, w5@));
        }
        let r5 = exprs.insert(w5);
        proof {
            assert(r5 == 5);
        }

        let s = ExprSet { exprs, alphabet_size, alphabet_words };
        proof {
            s.exprs.lemma_inv();
            let v = s.store();
            let aw = s.words();
            assert(aw >= 1);
            assert(v.len() == 6);
            assert(v[0].len() == 0);
            assert(v[1] == seq![head_word(TAG_EMPTY_STRING, true)]);
            assert(v[2] == seq![TAG_NO_MATCH]);
            assert(v[3] == seq![TAG_BYTE_SET] + crate::model::all_ones(aw));
            assert(v[4] == seq![head_word(TAG_REPEAT, true), REF_ANY_BYTE, 0u32, REP_INF]);
            assert(v[5] == seq![TAG_REPEAT, REF_ANY_BYTE, 1u32, REP_INF]);
            lemma_head_word(TAG_EMPTY_STRING);
            lemma_head_word(TAG_NO_MATCH);
            lemma_head_word(TAG_BYTE_SET);
            lemma_head_word(TAG_REPEAT);
            assert(wf_record(v, aw, 1));
            assert(wf_record(v, aw, 2));
            assert(wf_record(v, aw, 3)) by {
                assert(v[3][1] == crate::model::all_ones(aw)[0]);
                assert(v[3][1] != 0);
            }
            assert(wf_record(v, aw, 4)) by {
                assert(rec_tag(v, REF_ANY_BYTE) == TAG_BYTE_SET);
                assert(!rec_nullable(v, REF_ANY_BYTE));
            }
            assert(wf_record(v, aw, 5)) by {
                assert(!rec_nullable(v, REF_ANY_BYTE));
            }
            assert forall|r: u32| #[trigger] valid_ref(v, r) implies wf_record(v, aw, r) by {
                assert(1 <= r < 6);
                if r == 1 {
                    assert(wf_record(v, aw, 1));
                } else if r == 2 {
                    assert(wf_record(v, aw, 2));
                } else if r == 3 {
                    assert(wf_record(v, aw, 3));
                } else if r == 4 {
                    assert(wf_record(v, aw, 4));
                } else {
                    assert(wf_record(v, aw, 5));
                }
            }
            assert(store_wf(v, aw));
        }
        s
    }

    /// The alphabet size fixed at construction.
    pub fn alphabet_size(&self) -> (n: usize)
        ensures
            n == self.alpha_size(),
    {
        self.alphabet_size
    }

    /// The number of words of each byte-set bitmap.
    pub fn alphabet_words(&self) -> (n: usize)
        ensures
            n == self.words(),
    {
        self.alphabet_words
    }

    /// The number of distinct expressions stored so far.
    pub fn len(&self) -> (n: usize)
        requires
            self.wf(),
        ensures
            n == self.store().len() - 1,
    {
        self.exprs.len()
    }

    /// The storage footprint of the record arena in bytes (saturating).
    pub fn bytes(&self) -> (n: usize)
        requires
            self.wf(),
        ensures
            n == if 4 * crate::hashcons::total_words(self.store()) <= usize::MAX {
                4 * crate::hashcons::total_words(self.store())
            } else {
                usize::MAX as int
            },
    {
        self.exprs.bytes()
    }

    /// Insert an encoded record, returning its stable reference.
    fn mk(&mut self, w: Vec<u32>) -> (r: ExprRef)
        requires
            old(self).exprs.inv(),
            w@.len() >= 1,
            old(self).store().len() <= 0x0010_0000,
        ensures
            final(self).exprs.inv(),
            (final(self).store(), r.0) == spec_insert(old(self).store(), w@),
            final(self).alphabet_size == old(self).alphabet_size,
            final(self).alphabet_words == old(self).alphabet_words,
    {
        ExprRef(self.exprs.insert(w))
    }

    fn get_rec(&self, r: u32) -> (s: &[u32])
        requires
            self.wf(),
            valid_ref(self.store(), r),
        ensures
            s@ == self.store()[r as int],
            s@.len() >= 1,
    {
        proof {
            self.exprs.lemma_inv();
        }
        match self.exprs.get(r) {
            Some(s) => s,
            None => {
                proof {
                    assert(false);
                }
                &[]
            },
        }
    }

    fn get_tag(&self, r: u32) -> (t: u32)
        requires
            self.wf(),
            valid_ref(self.store(), r),
        ensures
            t == rec_tag(self.store(), r),
    {
        let s = self.get_rec(r);
        s[0] & 0xff
    }

    /// The flag word of the record named by `id`.
    fn get_flags(&self, id: ExprRef) -> (f: ExprFlags)
        requires
            self.wf(),
            valid_ref(self.store(), id.0),
        ensures
            f@ == word_flags(self.store()[id.0 as int][0]),
    {
        let s = self.get_rec(id.0);
        ExprFlags(s[0] & 0xffff_ff00)
    }

    /// Whether the stored expression's NULLABLE flag is set (by the
    /// store invariant, exactly when its language contains the empty
    /// sequence).
    pub fn is_nullable(&self, id: ExprRef) -> (res: bool)
        requires
            self.wf(),
            valid_ref(self.store(), id.0),
        ensures
            res == rec_nullable(self.store(), id.0),
    {
        let f = self.get_flags(id);
        proof {
            lemma_flags_mask(self.store()[id.0 as int][0]);
        }
        f.is_nullable()
    }

    /// Build a single-byte expression.
    pub fn mk_byte(&mut self, b: u8) -> (r: ExprRef)
        requires
            old(self).wf(),
            old(self).store().len() <= 0x0010_0000,
        ensures
            final(self).wf(),
            final(self).alpha_size() == old(self).alpha_size(),
            final(self).words() == old(self).words(),
            (final(self).store(), r.0) == spec_mk_byte(old(self).store(), b),
            valid_ref(final(self).store(), r.0),
            old(self).store().is_prefix_of(final(self).store()),
    {
        let mut w: Vec<u32> = Vec::new();
        w.push(TAG_BYTE);
        w.push(b as u32);
        proof {
            assert(w@ =~= seq![TAG_BYTE, b as u32]);
            lemma_mk_byte_ok(self.store(), self.words(), b);
        }
        self.mk(w)
    }

    /// Build a byte-set expression from a bitmap of `alphabet_words`
    /// words; the empty set is returned as `NoMatch` and never stored.
    pub fn mk_byte_set(&mut self, s: &[u32]) -> (r: ExprRef)
        requires
            old(self).wf(),
            old(self).store().len() <= 0x0010_0000,
            s@.len() == old(self).words(),
        ensures
            final(self).wf(),
            final(self).alpha_size() == old(self).alpha_size(),
            final(self).words() == old(self).words(),
            (final(self).store(), r.0) == spec_mk_byte_set(old(self).store(), s@),
            valid_ref(final(self).store(), r.0),
            old(self).store().is_prefix_of(final(self).store()),
    {
        proof {
            lemma_mk_byte_set_ok(self.store(), self.words(), s@);
        }
        let mut i: usize = 0;
        while i < s.len() && s[i] == 0
            invariant
                0 <= i <= s@.len(),
                forall|k: int| 0 <= k < i ==> s@[k] == 0,
            decreases s@.len() - i,
        {
            i = i + 1;
        }
        if i == s.len() {
            proof {
                assert(self.store().is_prefix_of(self.store())) by {
                    assert(self.store().take(self.store().len() as int) =~= self.store());
                }
            }
            return ExprRef(REF_NO_MATCH);
        }
        proof {
            assert(s@[i as int] != 0);
            assert(!(forall|k: int| 0 <= k < s@.len() ==> s@[k] == 0));
        }
        let mut w: Vec<u32> = Vec::new();
        w.push(TAG_BYTE_SET);
        let mut k: usize = 0;
        while k < s.len()
            invariant
                0 <= k <= s@.len(),
                w@ =~= seq![TAG_BYTE_SET] + s@.take(k as int),
            decreases s@.len() - k,
        {
            w.push(s[k]);
            proof {
                assert(w@ =~= seq![TAG_BYTE_SET] + s@.take(k + 1));
            }
            k = k + 1;
        }
        proof {
            assert(s@.take(s@.len() as int) =~= s@);
            assert(w@ =~= seq![TAG_BYTE_SET] + s@);
        }
        self.mk(w)
    }

    /// Build `e` repeated between `min` and `max` times (inclusive;
    /// `u32::MAX` stands for unbounded), normalized as specified.
    pub fn mk_repeat(&mut self, e: ExprRef, min: u32, max: u32) -> (r: ExprRef)
        requires
            old(self).wf(),
            old(self).store().len() <= 0x0010_0000,
            valid_ref(old(self).store(), e.0),
        ensures
            final(self).wf(),
            final(self).alpha_size() == old(self).alpha_size(),
            final(self).words() == old(self).words(),
            (final(self).store(), r.0) == spec_mk_repeat(old(self).store(), e.0, min, max),
            valid_ref(final(self).store(), r.0),
            old(self).store().is_prefix_of(final(self).store()),
    {
        proof {
            lemma_mk_repeat_ok(self.store(), self.words(), e.0, min, max);
            assert(self.store().take(self.store().len() as int) =~= self.store());
        }
        if e.0 == REF_NO_MATCH {
            if min == 0 {
                ExprRef(REF_EMPTY_STRING)
            } else {
                ExprRef(REF_NO_MATCH)
            }
        } else if min == max {
            ExprRef(REF_EMPTY_STRING)
        } else if min < max && max - min == 1 {
            e
        } else if min > max {
            ExprRef(REF_NO_MATCH)
        } else {
            let l2: u32 = if self.is_nullable(e) {
                0
            } else {
                min
            };
            let head: u32 = if l2 == 0 {
                TAG_REPEAT | 0x100
            } else {
                TAG_REPEAT
            };
            let mut w: Vec<u32> = Vec::new();
            w.push(head);
            w.push(e.0);
            w.push(l2);
            w.push(max);
            proof {
                assert(w@ =~= seq![head_word(TAG_REPEAT, l2 == 0), e.0, l2, max]);
            }
            self.mk(w)
        }
    }

    /// `e` repeated zero or more times.
    pub fn mk_star(&mut self, e: ExprRef) -> (r: ExprRef)
        requires
            old(self).wf(),
            old(self).store().len() <= 0x0010_0000,
            valid_ref(old(self).store(), e.0),
        ensures
            final(self).wf(),
            final(self).alpha_size() == old(self).alpha_size(),
            final(self).words() == old(self).words(),
            (final(self).store(), r.0) == spec_mk_repeat(old(self).store(), e.0, 0, REP_INF),
            valid_ref(final(self).store(), r.0),
            old(self).store().is_prefix_of(final(self).store()),
    {
        self.mk_repeat(e, 0, REP_INF)
    }

    /// `e` repeated one or more times.
    pub fn mk_plus(&mut self, e: ExprRef) -> (r: ExprRef)
        requires
            old(self).wf(),
            old(self).store().len() <= 0x0010_0000,
            valid_ref(old(self).store(), e.0),
        ensures
            final(self).wf(),
            final(self).alpha_size() == old(self).alpha_size(),
            final(self).words() == old(self).words(),
            (final(self).store(), r.0) == spec_mk_repeat(old(self).store(), e.0, 1, REP_INF),
            valid_ref(final(self).store(), r.0),
            old(self).store().is_prefix_of(final(self).store()),
    {
        self.mk_repeat(e, 1, REP_INF)
    }

    /// Build the complement of `e`, normalized: double complement
    /// cancels, and the four fixed points map to each other.
    pub fn mk_not(&mut self, e: ExprRef) -> (r: ExprRef)
        requires
            old(self).wf(),
            old(self).store().len() <= 0x0010_0000,
            valid_ref(old(self).store(), e.0),
        ensures
            final(self).wf(),
            final(self).alpha_size() == old(self).alpha_size(),
            final(self).words() == old(self).words(),
            (final(self).store(), r.0) == spec_mk_not(old(self).store(), e.0),
            valid_ref(final(self).store(), r.0),
            old(self).store().is_prefix_of(final(self).store()),
    {
        proof {
            lemma_mk_not_ok(self.store(), self.words(), e.0);
            assert(self.store().take(self.store().len() as int) =~= self.store());
        }
        if e.0 == REF_EMPTY_STRING {
            ExprRef(REF_NON_EMPTY_STRING)
        } else if e.0 == REF_NON_EMPTY_STRING {
            ExprRef(REF_EMPTY_STRING)
        } else if e.0 == REF_ANY_STRING {
            ExprRef(REF_NO_MATCH)
        } else if e.0 == REF_NO_MATCH {
            ExprRef(REF_ANY_STRING)
        } else {
            let t = self.get_tag(e.0);
            if t == TAG_NOT {
                let s = self.get_rec(e.0);
                proof {
                    assert(wf_record(self.store(), self.words(), e.0));
                }
                ExprRef(s[1])
            } else {
                let nul = !self.is_nullable(e);
                let head: u32 = if nul {
                    TAG_NOT | 0x100
                } else {
                    TAG_NOT
                };
                let mut w: Vec<u32> = Vec::new();
                w.push(head);
                w.push(e.0);
                proof {
                    assert(w@ =~= seq![head_word(TAG_NOT, !rec_nullable(self.store(), e.0)), e.0]);
                }
                self.mk(w)
            }
        }
    }
}

/// Sort a list of raw identifiers ascending (insertion sort).
fn sort_u32(input: Vec<u32>) -> (out: Vec<u32>)
    ensures
        out@ == sort_refs(input@),
{
    let mut out: Vec<u32> = Vec::new();
    let mut i: usize = 0;
    proof {
        assert(input@.take(0) =~= Seq::<u32>::empty());
        assert(out@ =~= Seq::<u32>::empty());
    }
    while i < input.len()
        invariant
            0 <= i <= input@.len(),
            sorted_by(out@, leq32()),
            out@.to_multiset() == input@.take(i as int).to_multiset(),
        decreases input@.len() - i,
    {
        let x = input[i];
        let mut pos: usize = 0;
        while pos < out.len() && out[pos] <= x
            invariant
                0 <= pos <= out@.len(),
                forall|k: int| 0 <= k < pos ==> out@[k] <= x,
            decreases out@.len() - pos,
        {
            pos = pos + 1;
        }
        let ghost out0 = out@;
        out.insert(pos, x);
        proof {
            out0.insert_ensures(pos as int, x);
            assert forall|a: int, b: int| 0 <= a < b < out@.len() implies leq32()(
                out@[a],
                out@[b],
            ) by {
                let p = pos as int;
                if b < p {
                    assert(out@[a] == out0[a] && out@[b] == out0[b]);
                    assert(leq32()(out0[a], out0[b]));
                } else if a < p && b == p {
                    assert(out@[a] == out0[a] && out@[b] == x);
                } else if a < p && b > p {
                    assert(out@[a] == out0[a] && out@[b] == out0[b - 1]);
                    if b - 1 < p {
                        assert(leq32()(out0[a], out0[b - 1]));
                    } else {
                        assert(out0[p] > x);
                        assert(leq32()(out0[p], out0[b - 1]));
                    }
                } else if a == p {
                    assert(out@[a] == x && out@[b] == out0[b - 1]);
                    assert(out0[p] > x);
                    assert(leq32()(out0[p], out0[b - 1]));
                } else {
                    assert(out@[a] == out0[a - 1] && out@[b] == out0[b - 1]);
                    assert(leq32()(out0[a - 1], out0[b - 1]));
                }
            }
            lemma_insert_multiset(out0, pos as int, x);
            input@.take(i as int).to_multiset_ensures();
            assert(input@.take(i + 1) =~= input@.take(i as int).push(x));
        }
        i = i + 1;
    }
    proof {
        assert(input@.take(input@.len() as int) =~= input@);
        lemma_sort_refs(input@);
        lemma_leq32_total();
        lemma_sorted_unique(out@, sort_refs(input@), leq32());
        assert(out@ == sort_refs(input@));
    }
    out
}

impl ExprSet {
    /// Splice the children of every argument whose top-level tag is
    /// `exp_tag` into the argument list.
    fn flatten_tag(&self, exp_tag: u32, args: &Vec<ExprRef>) -> (out: Vec<u32>)
        requires
            self.wf(),
            forall|i: int| 0 <= i < args@.len() ==> valid_ref(self.store(), #[trigger] args@[i].0),
        ensures
            out@ == flatten(self.store(), exp_tag, refs_of(args@)),
    {
        let ghost v = self.store();
        let ghost rs = refs_of(args@);
        let mut out: Vec<u32> = Vec::new();
        let mut i: usize = 0;
        while i < args.len()
            invariant
                self.wf(),
                v == self.store(),
                rs == refs_of(args@),
                forall|k: int| 0 <= k < args@.len() ==> valid_ref(v, #[trigger] args@[k].0),
                0 <= i <= args@.len(),
                out@ == flatten(v, exp_tag, rs.take(i as int)),
            decreases args@.len() - i,
        {
            let x = args[i].0;
            proof {
                assert(rs[i as int] == x);
                assert(valid_ref(v, x));
                assert(wf_record(v, self.words(), x));
            }
            let t = self.get_tag(x);
            let ghost out0 = out@;
            if t == exp_tag {
                let s = self.get_rec(x);
                let mut j: usize = 1;
                while j < s.len()
                    invariant
                        1 <= j <= s@.len(),
                        s@ == v[x as int],
                        s@.len() >= 1,
                        out@ == out0 + s@.subrange(1, j as int),
                    decreases s@.len() - j,
                {
                    let y = s[j];
                    out.push(y);
                    proof {
                        assert(out@ =~= out0 + s@.subrange(1, j + 1));
                    }
                    j = j + 1;
                }
                proof {
                    assert(s@.subrange(1, s@.len() as int) =~= rec_items(v, x));
                    assert(flat_one(v, exp_tag, x) == rec_items(v, x));
                }
            } else {
                out.push(x);
                proof {
                    assert(out@ =~= out0 + seq![x]);
                    assert(flat_one(v, exp_tag, x) == seq![x]);
                }
            }
            proof {
                assert(rs.take(i + 1) =~= rs.take(i as int) + seq![x]);
                lemma_flatten_concat(v, exp_tag, rs.take(i as int), seq![x]);
                assert(seq![x].drop_first() =~= Seq::<u32>::empty());
                assert(flatten(v, exp_tag, seq![x]) == flat_one(v, exp_tag, x) + flatten(
                    v,
                    exp_tag,
                    seq![x].drop_first(),
                ));
                assert(flat_one(v, exp_tag, x) + Seq::<u32>::empty() =~= flat_one(v, exp_tag, x));
                assert(out@ == flatten(v, exp_tag, rs.take(i + 1)));
            }
            i = i + 1;
        }
        proof {
            assert(rs.take(rs.len() as int) =~= rs);
        }
        out
    }

    /// Build the union of the arguments, normalized: nested unions are
    /// flattened, the children sorted by identifier, `NoMatch` and
    /// duplicates dropped, `AnyString` absorbs everything, and unions of
    /// zero or one child collapse.
    #[verifier::loop_isolation(false)]
    #[verifier::spinoff_prover]
    #[verifier::rlimit(100)]
    pub fn mk_or(&mut self, args: Vec<ExprRef>) -> (r: ExprRef)
        requires
            old(self).wf(),
            old(self).store().len() <= 0x0010_0000,
            forall|i: int|
                0 <= i < args@.len() ==> valid_ref(old(self).store(), #[trigger] args@[i].0),
        ensures
            final(self).wf(),
            final(self).alpha_size() == old(self).alpha_size(),
            final(self).words() == old(self).words(),
            (final(self).store(), r.0) == spec_mk_or(old(self).store(), refs_of(args@)),
            valid_ref(final(self).store(), r.0),
            old(self).store().is_prefix_of(final(self).store()),
    {
        let ghost v = old(self).store();
        let ghost rs = refs_of(args@);
        let ghost aw = old(self).words();
        proof {
            lemma_mk_or_ok(v, aw, rs);
            assert(v.take(v.len() as int) =~= v);
        }
        let flat = self.flatten_tag(TAG_OR, &args);
        let sorted = sort_u32(flat);
        let ghost so = sorted@;
        proof {
            lemma_flatten_elems(v, aw, TAG_OR, rs);
            lemma_sort_refs(flatten(v, TAG_OR, rs));
            lemma_squash_props(so, REF_NO_MATCH, REF_NO_MATCH);
            lemma_or_list_props(v, aw, rs);
            assert(or_list(v, rs) == squash(so, REF_NO_MATCH, REF_NO_MATCH));
            assert forall|k: int| 0 <= k < so.len() implies valid_ref(v, #[trigger] so[k]) by {
                assert(so.contains(so[k]));
                assert(flatten(v, TAG_OR, rs).contains(so[k]));
                let j = choose|j: int|
                    0 <= j < flatten(v, TAG_OR, rs).len() && flatten(v, TAG_OR, rs)[j] == so[k];
            }
        }
        let mut out: Vec<u32> = Vec::new();
        let mut prev: u32 = REF_NO_MATCH;
        let mut nullable = false;
        let mut idx: usize = 0;
        proof {
            assert(so.skip(0) =~= so);
            assert(out@ =~= Seq::<u32>::empty());
            assert(Seq::<u32>::empty() + squash(so, REF_NO_MATCH, REF_NO_MATCH) =~= squash(
                so,
                REF_NO_MATCH,
                REF_NO_MATCH,
            ));
        }
        while idx < sorted.len()
            invariant
                self.wf(),
                self.store() == v,
                v == old(self).store(),
                aw == self.words(),
                self.alphabet_size == old(self).alphabet_size,
                self.alphabet_words == old(self).alphabet_words,
                so == sorted@,
                sorted_by(so, leq32()),
                forall|k: int| 0 <= k < so.len() ==> valid_ref(v, #[trigger] so[k]),
                0 <= idx <= so.len(),
                out@ + squash(so.skip(idx as int), REF_NO_MATCH, prev) == squash(
                    so,
                    REF_NO_MATCH,
                    REF_NO_MATCH,
                ),
                prev != REF_ANY_STRING,
                forall|k: int| 0 <= k < idx ==> so[k] != REF_ANY_STRING,
                nullable == any_nullable(v, out@),
            decreases so.len() - idx,
        {
            let x = sorted[idx];
            proof {
                assert(so.skip(idx as int)[0] == x);
                assert(so.skip(idx as int).drop_first() =~= so.skip(idx + 1));
            }
            if x == prev || x == REF_NO_MATCH {
            } else if x == REF_ANY_STRING {
                proof {
                    assert(so.contains(REF_ANY_STRING));
                    assert(or_list(v, rs).contains(REF_ANY_STRING));
                }
                return ExprRef(REF_ANY_STRING);
            } else {
                if !nullable && self.is_nullable(ExprRef(x)) {
                    nullable = true;
                }
                let ghost out0 = out@;
                out.push(x);
                proof {
                    assert(squash(so.skip(idx as int), REF_NO_MATCH, prev) == seq![x] + squash(
                        so.skip(idx + 1),
                        REF_NO_MATCH,
                        x,
                    ));
                    assert(out@ + squash(so.skip(idx + 1), REF_NO_MATCH, x) =~= out0 + (seq![x]
                        + squash(so.skip(idx + 1), REF_NO_MATCH, x)));
                    assert(any_nullable(v, out@) == (any_nullable(v, out0) || rec_nullable(v, x)))
                        by {
                        if any_nullable(v, out0) {
                            let j = choose|j: int|
                                0 <= j < out0.len() && rec_nullable(v, #[trigger] out0[j]);
                            assert(out@[j] == out0[j]);
                        }
                        if rec_nullable(v, x) {
                            assert(rec_nullable(v, out@[out0.len() as int]));
                        }
                        if any_nullable(v, out@) {
                            let j = choose|j: int|
                                0 <= j < out@.len() && rec_nullable(v, #[trigger] out@[j]);
                            if j < out0.len() {
                                assert(rec_nullable(v, out0[j]));
                            } else {
                                assert(out@[j] == x);
                            }
                        }
                    }
                }
                prev = x;
            }
            idx = idx + 1;
        }
        proof {
            assert(so.skip(so.len() as int) =~= Seq::<u32>::empty());
            assert(out@ + Seq::<u32>::empty() =~= out@);
            assert(out@ == or_list(v, rs));
            assert(!so.contains(REF_ANY_STRING)) by {
                if so.contains(REF_ANY_STRING) {
                    let k = choose|k: int| 0 <= k < so.len() && so[k] == REF_ANY_STRING;
                }
            }
            assert(!or_list(v, rs).contains(REF_ANY_STRING));
        }
        if out.len() == 0 {
            return ExprRef(REF_NO_MATCH);
        }
        if out.len() == 1 {
            let r0 = out[0];
            proof {
                assert(or_list(v, rs)[0] == r0);
            }
            return ExprRef(r0);
        }
        let head: u32 = if nullable {
            TAG_OR | 0x100
        } else {
            TAG_OR
        };
        let mut w: Vec<u32> = Vec::new();
        w.push(head);
        let mut j: usize = 0;
        while j < out.len()
            invariant
                0 <= j <= out@.len(),
                w@ =~= seq![head] + out@.take(j as int),
                head == head_word(TAG_OR, nullable),
            decreases out@.len() - j,
        {
            let y = out[j];
            w.push(y);
            proof {
                assert(w@ =~= seq![head] + out@.take(j + 1));
            }
            j = j + 1;
        }
        proof {
            assert(out@.take(out@.len() as int) =~= out@);
            assert(w@ =~= nary_rec(TAG_OR, any_nullable(v, out@), out@));
        }
        self.mk(w)
    }

    /// Build the intersection of the arguments, normalized: nested
    /// intersections are flattened, children sorted, `AnyString` and
    /// duplicates dropped, `NoMatch` annihilates, and an intersection
    /// containing `EmptyString` collapses to `EmptyString` or `NoMatch`
    /// according to the nullability of the rest.
    #[verifier::loop_isolation(false)]
    #[verifier::spinoff_prover]
    #[verifier::rlimit(100)]
    pub fn mk_and(&mut self, args: Vec<ExprRef>) -> (r: ExprRef)
        requires
            old(self).wf(),
            old(self).store().len() <= 0x0010_0000,
            forall|i: int|
                0 <= i < args@.len() ==> valid_ref(old(self).store(), #[trigger] args@[i].0),
        ensures
            final(self).wf(),
            final(self).alpha_size() == old(self).alpha_size(),
            final(self).words() == old(self).words(),
            (final(self).store(), r.0) == spec_mk_and(old(self).store(), refs_of(args@)),
            valid_ref(final(self).store(), r.0),
            old(self).store().is_prefix_of(final(self).store()),
    {
        let ghost v = old(self).store();
        let ghost rs = refs_of(args@);
        let ghost aw = old(self).words();
        proof {
            lemma_mk_and_ok(v, aw, rs);
            assert(v.take(v.len() as int) =~= v);
        }
        let flat = self.flatten_tag(TAG_AND, &args);
        let sorted = sort_u32(flat);
        let ghost so = sorted@;
        proof {
            lemma_flatten_elems(v, aw, TAG_AND, rs);
            lemma_sort_refs(flatten(v, TAG_AND, rs));
            lemma_squash_props(so, REF_ANY_STRING, REF_ANY_STRING);
            lemma_and_list_props(v, aw, rs);
            assert(and_list(v, rs) == squash(so, REF_ANY_STRING, REF_ANY_STRING));
            assert forall|k: int| 0 <= k < so.len() implies valid_ref(v, #[trigger] so[k]) by {
                assert(so.contains(so[k]));
                assert(flatten(v, TAG_AND, rs).contains(so[k]));
                let j = choose|j: int|
                    0 <= j < flatten(v, TAG_AND, rs).len() && flatten(v, TAG_AND, rs)[j] == so[k];
            }
        }
        let mut out: Vec<u32> = Vec::new();
        let mut prev: u32 = REF_ANY_STRING;
        let mut had_empty = false;
        let mut nullable = true;
        let mut idx: usize = 0;
        proof {
            assert(so.skip(0) =~= so);
            assert(out@ =~= Seq::<u32>::empty());
            assert(Seq::<u32>::empty() + squash(so, REF_ANY_STRING, REF_ANY_STRING) =~= squash(
                so,
                REF_ANY_STRING,
                REF_ANY_STRING,
            ));
        }
        while idx < sorted.len()
            invariant
                self.wf(),
                self.store() == v,
                v == old(self).store(),
                aw == self.words(),
                self.alphabet_size == old(self).alphabet_size,
                self.alphabet_words == old(self).alphabet_words,
                so == sorted@,
                sorted_by(so, leq32()),
                forall|k: int| 0 <= k < so.len() ==> valid_ref(v, #[trigger] so[k]),
                0 <= idx <= so.len(),
                out@ + squash(so.skip(idx as int), REF_ANY_STRING, prev) == squash(
                    so,
                    REF_ANY_STRING,
                    REF_ANY_STRING,
                ),
                prev != REF_NO_MATCH,
                forall|k: int| 0 <= k < idx ==> so[k] != REF_NO_MATCH,
                had_empty == out@.contains(REF_EMPTY_STRING),
                nullable == all_nullable(v, out@),
            decreases so.len() - idx,
        {
            let x = sorted[idx];
            proof {
                assert(so.skip(idx as int)[0] == x);
                assert(so.skip(idx as int).drop_first() =~= so.skip(idx + 1));
            }
            if x == prev || x == REF_ANY_STRING {
            } else if x == REF_NO_MATCH {
                proof {
                    assert(so.contains(REF_NO_MATCH));
                    assert(and_list(v, rs).contains(REF_NO_MATCH));
                }
                return ExprRef(REF_NO_MATCH);
            } else {
                if x == REF_EMPTY_STRING {
                    had_empty = true;
                }
                if nullable && !self.is_nullable(ExprRef(x)) {
                    nullable = false;
                }
                let ghost out0 = out@;
                out.push(x);
                proof {
                    assert(squash(so.skip(idx as int), REF_ANY_STRING, prev) == seq![x] + squash(
                        so.skip(idx + 1),
                        REF_ANY_STRING,
                        x,
                    ));
                    assert(out@ + squash(so.skip(idx + 1), REF_ANY_STRING, x) =~= out0 + (seq![x]
                        + squash(so.skip(idx + 1), REF_ANY_STRING, x)));
                    assert(out@.contains(REF_EMPTY_STRING) == (out0.contains(REF_EMPTY_STRING) || x
                        == REF_EMPTY_STRING)) by {
                        if out0.contains(REF_EMPTY_STRING) {
                            let j = choose|j: int|
                                0 <= j < out0.len() && out0[j] == REF_EMPTY_STRING;
                            assert(out@[j] == REF_EMPTY_STRING);
                        }
                        if x == REF_EMPTY_STRING {
                            assert(out@[out0.len() as int] == REF_EMPTY_STRING);
                        }
                        if out@.contains(REF_EMPTY_STRING) {
                            let j = choose|j: int|
                                0 <= j < out@.len() && out@[j] == REF_EMPTY_STRING;
                            if j < out0.len() {
                                assert(out0[j] == REF_EMPTY_STRING);
                            } else {
                                assert(out@[j] == x);
                            }
                        }
                    }
                    assert(all_nullable(v, out@) == (all_nullable(v, out0) && rec_nullable(v, x)))
                        by {
                        if all_nullable(v, out0) && rec_nullable(v, x) {
                            assert forall|j: int| 0 <= j < out@.len() implies rec_nullable(
                                v,
                                #[trigger] out@[j],
                            ) by {
                                if j < out0.len() {
                                    assert(rec_nullable(v, out0[j]));
                                } else {
                                    assert(out@[j] == x);
                                }
                            }
                        }
                        if all_nullable(v, out@) {
                            assert forall|j: int| 0 <= j < out0.len() implies rec_nullable(
                                v,
                                #[trigger] out0[j],
                            ) by {
                                assert(out@[j] == out0[j]);
                                assert(rec_nullable(v, out@[j]));
                            }
                            assert(rec_nullable(v, out@[out0.len() as int]));
                        }
                    }
                }
                prev = x;
            }
            idx = idx + 1;
        }
        proof {
            assert(so.skip(so.len() as int) =~= Seq::<u32>::empty());
            assert(out@ + Seq::<u32>::empty() =~= out@);
            assert(out@ == and_list(v, rs));
            assert(!so.contains(REF_NO_MATCH)) by {
                if so.contains(REF_NO_MATCH) {
                    let k = choose|k: int| 0 <= k < so.len() && so[k] == REF_NO_MATCH;
                }
            }
            assert(!and_list(v, rs).contains(REF_NO_MATCH));
        }
        if out.len() == 0 {
            return ExprRef(REF_ANY_STRING);
        }
        if out.len() == 1 {
            let r0 = out[0];
            proof {
                assert(and_list(v, rs)[0] == r0);
            }
            return ExprRef(r0);
        }
        if had_empty {
            if nullable {
                return ExprRef(REF_EMPTY_STRING);
            } else {
                return ExprRef(REF_NO_MATCH);
            }
        }
        let head: u32 = if nullable {
            TAG_AND | 0x100
        } else {
            TAG_AND
        };
        let mut w: Vec<u32> = Vec::new();
        w.push(head);
        let mut j: usize = 0;
        while j < out.len()
            invariant
                0 <= j <= out@.len(),
                w@ =~= seq![head] + out@.take(j as int),
                head == head_word(TAG_AND, nullable),
            decreases out@.len() - j,
        {
            let y = out[j];
            w.push(y);
            proof {
                assert(w@ =~= seq![head] + out@.take(j + 1));
            }
            j = j + 1;
        }
        proof {
            assert(out@.take(out@.len() as int) =~= out@);
            assert(w@ =~= nary_rec(TAG_AND, all_nullable(v, out@), out@));
        }
        self.mk(w)
    }

    /// Build the concatenation of the arguments, normalized: nested
    /// concatenations are flattened, `EmptyString` arguments dropped,
    /// `NoMatch` annihilates, and concatenations of zero or one child
    /// collapse. Order is kept.
    #[verifier::loop_isolation(false)]
    #[verifier::spinoff_prover]
    #[verifier::rlimit(100)]
    pub fn mk_concat(&mut self, args: Vec<ExprRef>) -> (r: ExprRef)
        requires
            old(self).wf(),
            old(self).store().len() <= 0x0010_0000,
            forall|i: int|
                0 <= i < args@.len() ==> valid_ref(old(self).store(), #[trigger] args@[i].0),
        ensures
            final(self).wf(),
            final(self).alpha_size() == old(self).alpha_size(),
            final(self).words() == old(self).words(),
            (final(self).store(), r.0) == spec_mk_concat(old(self).store(), refs_of(args@)),
            valid_ref(final(self).store(), r.0),
            old(self).store().is_prefix_of(final(self).store()),
    {
        let ghost v = old(self).store();
        let ghost rs = refs_of(args@);
        let ghost aw = old(self).words();
        proof {
            lemma_mk_concat_ok(v, aw, rs);
            assert(v.take(v.len() as int) =~= v);
        }
        let flat = self.flatten_tag(TAG_CONCAT, &args);
        let ghost fl = flat@;
        proof {
            lemma_flatten_elems(v, aw, TAG_CONCAT, rs);
            lemma_drop_empties_elems(fl);
            assert(concat_list(v, rs) == drop_empties(fl));
        }
        let mut kept: Vec<u32> = Vec::new();
        let mut i: usize = 0;
        proof {
            assert(fl.take(0) =~= Seq::<u32>::empty());
            assert(kept@ =~= drop_empties(fl.take(0)));
        }
        while i < flat.len()
            invariant
                0 <= i <= fl.len(),
                kept@ == drop_empties(fl.take(i as int)),
            decreases fl.len() - i,
        {
            let x = flat[i];
            proof {
                assert(fl.take(i + 1) =~= fl.take(i as int) + seq![x]);
                lemma_drop_empties_concat(fl.take(i as int), seq![x]);
                assert(seq![x].drop_first() =~= Seq::<u32>::empty());
                if x == REF_EMPTY_STRING {
                    assert(drop_empties(seq![x]) =~= Seq::<u32>::empty());
                    assert(kept@ + Seq::<u32>::empty() =~= kept@);
                } else {
                    assert(drop_empties(seq![x]) =~= seq![x]);
                }
            }
            if x != REF_EMPTY_STRING {
                kept.push(x);
                proof {
                    assert(kept@ =~= drop_empties(fl.take(i as int)) + seq![x]);
                }
            }
            i = i + 1;
        }
        proof {
            assert(fl.take(fl.len() as int) =~= fl);
            assert(kept@ == concat_list(v, rs));
            assert forall|k: int| 0 <= k < kept@.len() implies valid_ref(
                v,
                #[trigger] kept@[k],
            ) by {
                assert(kept@.contains(kept@[k]));
                assert(fl.contains(kept@[k]));
                let j = choose|j: int| 0 <= j < fl.len() && fl[j] == kept@[k];
            }
        }
        if kept.len() == 0 {
            return ExprRef(REF_EMPTY_STRING);
        }
        if kept.len() == 1 {
            let r0 = kept[0];
            return ExprRef(r0);
        }
        let mut k: usize = 0;
        while k < kept.len()
            invariant
                0 <= k <= kept@.len(),
                forall|m: int| 0 <= m < k ==> kept@[m] != REF_NO_MATCH,
            decreases kept@.len() - k,
        {
            if kept[k] == REF_NO_MATCH {
                proof {
                    assert(kept@.contains(REF_NO_MATCH));
                }
                return ExprRef(REF_NO_MATCH);
            }
            k = k + 1;
        }
        proof {
            assert(!kept@.contains(REF_NO_MATCH)) by {
                if kept@.contains(REF_NO_MATCH) {
                    let m = choose|m: int| 0 <= m < kept@.len() && kept@[m] == REF_NO_MATCH;
                }
            }
        }
        let mut nullable = true;
        let mut j: usize = 0;
        proof {
            assert(kept@.take(0) =~= Seq::<u32>::empty());
        }
        while j < kept.len()
            invariant
                0 <= j <= kept@.len(),
                nullable == all_nullable(v, kept@.take(j as int)),
            decreases kept@.len() - j,
        {
            let y = kept[j];
            let yn = self.is_nullable(ExprRef(y));
            proof {
                let t0 = kept@.take(j as int);
                let t1 = kept@.take(j + 1);
                assert(t1 =~= t0 + seq![y]);
                assert(all_nullable(v, t1) == (all_nullable(v, t0) && rec_nullable(v, y))) by {
                    if all_nullable(v, t0) && rec_nullable(v, y) {
                        assert forall|m: int| 0 <= m < t1.len() implies rec_nullable(
                            v,
                            #[trigger] t1[m],
                        ) by {
                            if m < t0.len() {
                                assert(t1[m] == t0[m]);
                                assert(rec_nullable(v, t0[m]));
                            } else {
                                assert(t1[m] == y);
                            }
                        }
                    }
                    if all_nullable(v, t1) {
                        assert forall|m: int| 0 <= m < t0.len() implies rec_nullable(
                            v,
                            #[trigger] t0[m],
                        ) by {
                            assert(t1[m] == t0[m]);
                            assert(rec_nullable(v, t1[m]));
                        }
                        assert(rec_nullable(v, t1[t0.len() as int]));
                    }
                }
            }
            nullable = nullable && yn;
            j = j + 1;
        }
        proof {
            assert(kept@.take(kept@.len() as int) =~= kept@);
        }
        let head: u32 = if nullable {
            TAG_CONCAT | 0x100
        } else {
            TAG_CONCAT
        };
        let mut w: Vec<u32> = Vec::new();
        w.push(head);
        let mut m: usize = 0;
        while m < kept.len()
            invariant
                0 <= m <= kept@.len(),
                w@ =~= seq![head] + kept@.take(m as int),
                head == head_word(TAG_CONCAT, nullable),
            decreases kept@.len() - m,
        {
            let y = kept[m];
            w.push(y);
            proof {
                assert(w@ =~= seq![head] + kept@.take(m + 1));
            }
            m = m + 1;
        }
        proof {
            assert(kept@.take(kept@.len() as int) =~= kept@);
            assert(w@ =~= nary_rec(TAG_CONCAT, all_nullable(v, kept@), kept@));
        }
        self.mk(w)
    }

    /// Decode the record named by `id` into a typed node; payloads are
    /// copied, so the node survives later constructor calls.
    pub fn get(&self, id: ExprRef) -> (e: Expr)
        requires
            self.wf(),
            valid_ref(self.store(), id.0),
        ensures
            expr_matches(e, self.store(), id.0),
    {
        let ghost v = self.store();
        proof {
            assert(wf_record(v, self.words(), id.0));
        }
        let s = self.get_rec(id.0);
        let t = s[0] & 0xff;
        let flags = ExprFlags(s[0] & 0xffff_ff00);
        if t == TAG_EMPTY_STRING {
            Expr::EmptyString
        } else if t == TAG_NO_MATCH {
            Expr::NoMatch
        } else if t == TAG_BYTE {
            Expr::Byte(s[1] as u8)
        } else if t == TAG_BYTE_SET {
            let mut bits: Vec<u32> = Vec::new();
            let mut j: usize = 1;
            while j < s.len()
                invariant
                    1 <= j <= s@.len(),
                    s@ == v[id.0 as int],
                    s@.len() >= 1,
                    bits@ == s@.subrange(1, j as int),
                decreases s@.len() - j,
            {
                let y = s[j];
                bits.push(y);
                proof {
                    assert(bits@ =~= s@.subrange(1, j + 1));
                }
                j = j + 1;
            }
            proof {
                assert(s@.subrange(1, s@.len() as int) =~= rec_items(v, id.0));
            }
            Expr::ByteSet(bits)
        } else if t == TAG_NOT {
            Expr::Not(flags, ExprRef(s[1]))
        } else if t == TAG_REPEAT {
            Expr::Repeat(flags, ExprRef(s[1]), s[2], s[3])
        } else {
            let mut es: Vec<ExprRef> = Vec::new();
            let mut j: usize = 1;
            proof {
                assert(refs_of(es@) =~= s@.subrange(1, 1));
            }
            while j < s.len()
                invariant
                    1 <= j <= s@.len(),
                    s@ == v[id.0 as int],
                    s@.len() >= 1,
                    refs_of(es@) == s@.subrange(1, j as int),
                decreases s@.len() - j,
            {
                let y = s[j];
                let ghost es0 = es@;
                es.push(ExprRef(y));
                proof {
                    assert(es@ == es0.push(ExprRef(y)));
                    assert(refs_of(es@) =~= refs_of(es0).push(y));
                    assert(s@.subrange(1, j + 1) =~= s@.subrange(1, j as int).push(s@[j as int]));
                    assert(refs_of(es@) =~= s@.subrange(1, j + 1));
                }
                j = j + 1;
            }
            proof {
                assert(s@.subrange(1, s@.len() as int) =~= rec_items(v, id.0));
            }
            if t == TAG_CONCAT {
                Expr::Concat(flags, es)
            } else if t == TAG_OR {
                Expr::Or(flags, es)
            } else {
                proof {
                    assert(t == TAG_AND);
                }
                Expr::And(flags, es)
            }
        }
    }

    /// The child references of the record named by `id`: the single
    /// child for a complement or a repetition, the full child list for a
    /// composite, empty for leaves.
    pub fn get_args(&self, id: ExprRef) -> (args: Vec<ExprRef>)
        requires
            self.wf(),
            valid_ref(self.store(), id.0),
        ensures
            refs_of(args@) == spec_args(self.store(), id.0),
    {
        let ghost v = self.store();
        proof {
            assert(wf_record(v, self.words(), id.0));
        }
        let s = self.get_rec(id.0);
        let t = s[0] & 0xff;
        let mut es: Vec<ExprRef> = Vec::new();
        if t == TAG_NOT || t == TAG_REPEAT {
            es.push(ExprRef(s[1]));
            proof {
                assert(refs_of(es@) =~= seq![s@[1]]);
            }
        } else if t == TAG_CONCAT || t == TAG_OR || t == TAG_AND {
            let mut j: usize = 1;
            proof {
                assert(refs_of(es@) =~= s@.subrange(1, 1));
            }
            while j < s.len()
                invariant
                    1 <= j <= s@.len(),
                    s@ == v[id.0 as int],
                    s@.len() >= 1,
                    refs_of(es@) == s@.subrange(1, j as int),
                decreases s@.len() - j,
            {
                let y = s[j];
                let ghost es0 = es@;
                es.push(ExprRef(y));
                proof {
                    assert(es@ == es0.push(ExprRef(y)));
                    assert(refs_of(es@) =~= refs_of(es0).push(y));
                    assert(s@.subrange(1, j + 1) =~= s@.subrange(1, j as int).push(s@[j as int]));
                    assert(refs_of(es@) =~= s@.subrange(1, j + 1));
                }
                j = j + 1;
            }
            proof {
                assert(s@.subrange(1, s@.len() as int) =~= rec_items(v, id.0));
            }
        } else {
            proof {
                assert(refs_of(es@) =~= Seq::<u32>::empty());
            }
        }
        es
    }
}

} // verus!
