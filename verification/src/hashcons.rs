//! An append-only, hash-consed heap of variable-length records of 32-bit
//! words. Identical word sequences share one record and one identifier.
//!
//! Identifiers are dense 32-bit integers starting at 1; identifier 0 is
//! reserved as an invalid sentinel. The heap is modelled as a sequence of
//! records `Seq<Seq<u32>>` whose entry 0 is an empty placeholder.

use std::collections::HashMap;
use vstd::prelude::*;
use vstd::slice::slice_subrange;

verus! {

broadcast use vstd::std_specs::hash::group_hash_axioms;

/// Soft cap on the number of records: identifiers stay well inside 32 bits.
pub const MAX_RECORDS: usize = 0x0010_0000;

/// No two distinct identifiers name the same record content.
pub open spec fn records_unique(v: Seq<Seq<u32>>) -> bool {
    forall|i: int, j: int| 1 <= i < j < v.len() ==> v[i] != v[j]
}

/// Some identifier already names exactly this word sequence.
pub open spec fn has_record(v: Seq<Seq<u32>>, w: Seq<u32>) -> bool {
    exists|i: int| 1 <= i < v.len() && v[i] == w
}

/// The identifier of an already-present word sequence (unique when
/// `records_unique(v)` holds).
pub open spec fn record_ref(v: Seq<Seq<u32>>, w: Seq<u32>) -> int {
    choose|i: int| 1 <= i < v.len() && v[i] == w
}

/// Functional model of insertion: return the existing identifier on a hit,
/// else append the record and return the fresh identifier.
pub open spec fn spec_insert(v: Seq<Seq<u32>>, w: Seq<u32>) -> (Seq<Seq<u32>>, u32) {
    if has_record(v, w) {
        (v, record_ref(v, w) as u32)
    } else {
        (v.push(w), v.len() as u32)
    }
}

/// Total number of words held by all records.
pub open spec fn total_words(v: Seq<Seq<u32>>) -> int
    decreases v.len(),
{
    if v.len() == 0 {
        0
    } else {
        total_words(v.drop_last()) + v.last().len()
    }
}

spec fn hash_step(acc: u64, w: u32) -> u64 {
    (acc ^ (w as u64)).wrapping_mul(0x0000_0100_0000_01b3)
}

spec fn hash_seq(s: Seq<u32>) -> u64
    decreases s.len(),
{
    if s.len() == 0 {
        0xcbf2_9ce4_8422_2325u64
    } else {
        hash_step(hash_seq(s.drop_last()), s.last())
    }
}

fn hash_words(s: &[u32]) -> (h: u64)
    ensures
        h == hash_seq(s@),
{
    let mut h: u64 = 0xcbf2_9ce4_8422_2325u64;
    let mut i: usize = 0;
    while i < s.len()
        invariant
            0 <= i <= s@.len(),
            h == hash_seq(s@.take(i as int)),
        decreases s@.len() - i,
    {
        proof {
            assert(s@.take(i + 1).drop_last() =~= s@.take(i as int));
            assert(s@.take(i + 1).last() == s@[i as int]);
        }
        h = (h ^ (s[i] as u64)).wrapping_mul(0x0000_0100_0000_01b3);
        i = i + 1;
    }
    proof {
        assert(s@.take(s@.len() as int) =~= s@);
    }
    h
}

/// A dense arena of variable-length word records, deduplicated by content.
pub struct VecHashMap {
    words: Vec<u32>,
    offsets: Vec<usize>,
    lens: Vec<usize>,
    by_hash: HashMap<u64, Vec<u32>>,
}

impl View for VecHashMap {
    type V = Seq<Seq<u32>>;

    closed spec fn view(&self) -> Seq<Seq<u32>> {
        Seq::new(
            self.offsets@.len(),
            |i: int|
                self.words@.subrange(
                    self.offsets@[i] as int,
                    self.offsets@[i] + self.lens@[i],
                ),
        )
    }
}

impl VecHashMap {
    /// Internal consistency of the arena, the offset table, and the hash
    /// index: every record is reachable through its content hash, and no
    /// two identifiers name the same content.
    pub closed spec fn inv(&self) -> bool {
        &&& self.offsets@.len() == self.lens@.len()
        &&& 1 <= self.offsets@.len() <= MAX_RECORDS + 1
        &&& self.offsets@[0] == 0
        &&& self.lens@[0] == 0
        &&& forall|i: int|
            0 <= i < self.offsets@.len() ==> self.offsets@[i] + self.lens@[i]
                <= self.words@.len()
        &&& forall|i: int| 1 <= i < self.lens@.len() ==> self.lens@[i] >= 1
        &&& self.words@.len() == total_words(self@)
        &&& records_unique(self@)
        &&& forall|i: int|
            1 <= i < self@.len() ==> {
                &&& self.by_hash@.contains_key(#[trigger] hash_seq(self@[i]))
                &&& self.by_hash@[hash_seq(self@[i])]@.contains(i as u32)
            }
        &&& forall|h: u64, j: int|
            self.by_hash@.contains_key(h) && 0 <= j < self.by_hash@[h]@.len() ==> {
                &&& 1 <= #[trigger] self.by_hash@[h]@[j] < self@.len()
                &&& hash_seq(self@[self.by_hash@[h]@[j] as int]) == h
            }
    }

    /// Basic shape facts about a consistent heap.
    pub proof fn lemma_inv(&self)
        requires
            self.inv(),
        ensures
            records_unique(self@),
            self@.len() >= 1,
            self@.len() <= MAX_RECORDS + 1,
            self@[0] == Seq::<u32>::empty(),
            forall|i: int| 1 <= i < self@.len() ==> self@[i].len() >= 1,
    {
        assert(self@[0] =~= Seq::<u32>::empty());
        assert forall|i: int| 1 <= i < self@.len() implies self@[i].len() >= 1 by {
            assert(self@[i].len() == self.lens@[i]);
        }
    }

    /// An empty heap: one reserved placeholder record at identifier 0.
    pub fn new() -> (r: Self)
        ensures
            r.inv(),
            r@ =~= seq![Seq::<u32>::empty()],
    {
        let mut offsets: Vec<usize> = Vec::new();
        offsets.push(0);
        let mut lens: Vec<usize> = Vec::new();
        lens.push(0);
        let r = VecHashMap { words: Vec::new(), offsets, lens, by_hash: HashMap::new() };
        proof {
            assert(r@ =~~= seq![Seq::<u32>::empty()]);
            assert(total_words(r@) == total_words(r@.drop_last()) + r@.last().len());
            assert(r@.drop_last() =~= Seq::<Seq<u32>>::empty());
        }
        r
    }

    /// The number of records issued so far (the placeholder not counted).
    pub fn len(&self) -> (n: usize)
        requires
            self.inv(),
        ensures
            n == self@.len() - 1,
    {
        self.offsets.len() - 1
    }

    /// The storage footprint of the arena in bytes (saturating).
    pub fn bytes(&self) -> (n: usize)
        requires
            self.inv(),
        ensures
            n == if 4 * total_words(self@) <= usize::MAX {
                4 * total_words(self@)
            } else {
                usize::MAX as int
            },
    {
        match self.words.len().checked_mul(4) {
            Some(b) => b,
            None => usize::MAX,
        }
    }

    /// A read-only view of the record named by `r`, or `None` for an
    /// identifier the heap never issued.
    pub fn get(&self, r: u32) -> (res: Option<&[u32]>)
        requires
            self.inv(),
        ensures
            match res {
                Some(s) => 1 <= r < self@.len() && s@ == self@[r as int],
                None => !(1 <= r < self@.len()),
            },
    {
        if r == 0 || r as usize >= self.offsets.len() {
            None
        } else {
            let off = self.offsets[r as usize];
            let l = self.lens[r as usize];
            let wlen = self.words.len();
            proof {
                assert(self.offsets@[r as int] + self.lens@[r as int] <= self.words@.len());
                assert(off + l <= wlen);
            }
            Some(slice_subrange(self.words.as_slice(), off, off + l))
        }
    }

    fn record_matches(&self, r: u32, w: &[u32]) -> (b: bool)
        requires
            self.inv(),
            1 <= r < self@.len(),
        ensures
            b == (self@[r as int] == w@),
    {
        let off = self.offsets[r as usize];
        let l = self.lens[r as usize];
        let wlen = self.words.len();
        proof {
            assert(self.offsets@[r as int] + self.lens@[r as int] <= self.words@.len());
            assert(off + l <= wlen);
            assert(self@[r as int].len() == self.lens@[r as int]);
        }
        if l != w.len() {
            return false;
        }
        let mut i: usize = 0;
        while i < l
            invariant
                self.inv(),
                1 <= r < self@.len(),
                off == self.offsets@[r as int],
                l == self.lens@[r as int],
                l == w@.len(),
                l == self@[r as int].len(),
                off + l <= wlen,
                wlen == self.words@.len(),
                0 <= i <= l,
                forall|k: int| 0 <= k < i ==> self@[r as int][k] == w@[k],
            decreases l - i,
        {
            if self.words[off + i] != w[i] {
                proof {
                    assert(self@[r as int][i as int] == self.words@[off + i]);
                }
                return false;
            }
            proof {
                assert(self@[r as int][i as int] == self.words@[off + i]);
            }
            i = i + 1;
        }
        proof {
            assert(self@[r as int] =~= w@);
        }
        true
    }

    fn lookup(&self, w: &[u32], h: u64) -> (res: Option<u32>)
        requires
            self.inv(),
            h == hash_seq(w@),
        ensures
            match res {
                Some(r) => 1 <= r < self@.len() && self@[r as int] == w@,
                None => !has_record(self@, w@),
            },
    {
        match self.by_hash.get(&h) {
            None => {
                proof {
                    if has_record(self@, w@) {
                        let i = choose|i: int| 1 <= i < self@.len() && self@[i] == w@;
                        assert(self.by_hash@.contains_key(hash_seq(self@[i])));
                    }
                }
                None
            },
            Some(bucket) => {
                let ghost bs = bucket@;
                proof {
                    assert(self.by_hash@.contains_key(h) && self.by_hash@[h] == *bucket);
                }
                let n = bucket.len();
                let mut j: usize = 0;
                while j < n
                    invariant
                        self.inv(),
                        h == hash_seq(w@),
                        bs == bucket@,
                        n == bs.len(),
                        bs == self.by_hash@[h]@,
                        self.by_hash@.contains_key(h),
                        0 <= j <= n,
                        forall|k: int| 0 <= k < j ==> self@[#[trigger] bs[k] as int] != w@,
                    decreases n - j,
                {
                    let r = bucket[j];
                    proof {
                        assert(self.by_hash@[h]@[j as int] == r);
                        assert(1 <= r < self@.len());
                    }
                    if self.record_matches(r, w) {
                        return Some(r);
                    }
                    j = j + 1;
                }
                proof {
                    if has_record(self@, w@) {
                        let i = choose|i: int| 1 <= i < self@.len() && self@[i] == w@;
                        assert(hash_seq(self@[i]) == h);
                        assert(self.by_hash@[h]@.contains(i as u32));
                        let k = choose|k: int| 0 <= k < bs.len() && bs[k] == i as u32;
                        assert(self@[bs[k] as int] != w@);
                    }
                }
                None
            },
        }
    }

    /// Insert a word sequence, returning its stable identifier. If the
    /// same sequence was inserted before, the existing identifier is
    /// returned and the heap does not change.
    pub fn insert(&mut self, w: Vec<u32>) -> (r: u32)
        requires
            old(self).inv(),
            w@.len() >= 1,
            old(self)@.len() <= MAX_RECORDS,
        ensures
            final(self).inv(),
            (final(self)@, r) == spec_insert(old(self)@, w@),
    {
        let h = hash_words(w.as_slice());
        match self.lookup(w.as_slice(), h) {
            Some(r) => {
                proof {
                    assert(has_record(self@, w@));
                    let i = record_ref(self@, w@);
                    assert(1 <= i < self@.len() && self@[i] == w@);
                    assert(i == r as int);
                }
                r
            },
            None => {
                let ghost v0 = self@;
                let old_words_len = self.words.len();
                let mut k: usize = 0;
                while k < w.len()
                    invariant
                        0 <= k <= w@.len(),
                        self.offsets@ == old(self).offsets@,
                        self.lens@ == old(self).lens@,
                        self.by_hash@ == old(self).by_hash@,
                        self.words@ == old(self).words@ + w@.take(k as int),
                        old_words_len == old(self).words@.len(),
                    decreases w@.len() - k,
                {
                    let x = w[k];
                    self.words.push(x);
                    proof {
                        assert(w@.take(k + 1) =~= w@.take(k as int).push(w@[k as int]));
                        assert(self.words@ =~= old(self).words@ + w@.take(k + 1));
                    }
                    k = k + 1;
                }
                proof {
                    assert(w@.take(w@.len() as int) =~= w@);
                    assert(self.words@ =~= old(self).words@ + w@);
                }
                let r32: u32 = self.offsets.len() as u32;
                self.offsets.push(old_words_len);
                self.lens.push(w.len());
                let ghost m0 = self.by_hash@;
                let mut bucket: Vec<u32> = match self.by_hash.remove(&h) {
                    Some(b) => b,
                    None => Vec::new(),
                };
                let ghost ob = bucket@;
                proof {
                    if m0.contains_key(h) {
                        assert(ob == m0[h]@);
                    } else {
                        assert(ob =~= Seq::<u32>::empty());
                    }
                }
                bucket.push(r32);
                self.by_hash.insert(h, bucket);
                proof {
                    self.lemma_after_append(v0, w@, h, r32, m0, ob, old(self).offsets@,
                        old(self).lens@, old(self).words@);
                }
                r32
            },
        }
    }

    proof fn lemma_after_append(
        &self,
        v0: Seq<Seq<u32>>,
        w: Seq<u32>,
        h: u64,
        r32: u32,
        m0: Map<u64, Vec<u32>>,
        ob: Seq<u32>,
        offs0: Seq<usize>,
        lens0: Seq<usize>,
        words0: Seq<u32>,
    )
        requires
            // the pre-insert state was consistent
            offs0.len() == lens0.len(),
            1 <= offs0.len() <= MAX_RECORDS,
            offs0[0] == 0,
            lens0[0] == 0,
            forall|i: int| 0 <= i < offs0.len() ==> offs0[i] + lens0[i] <= words0.len(),
            forall|i: int| 1 <= i < lens0.len() ==> lens0[i] >= 1,
            v0 == Seq::new(
                offs0.len(),
                |i: int| words0.subrange(offs0[i] as int, offs0[i] + lens0[i]),
            ),
            words0.len() == total_words(v0),
            records_unique(v0),
            forall|i: int|
                1 <= i < v0.len() ==> {
                    &&& m0.contains_key(#[trigger] hash_seq(v0[i]))
                    &&& m0[hash_seq(v0[i])]@.contains(i as u32)
                },
            forall|h2: u64, j: int|
                m0.contains_key(h2) && 0 <= j < m0[h2]@.len() ==> {
                    &&& 1 <= #[trigger] m0[h2]@[j] < v0.len()
                    &&& hash_seq(v0[m0[h2]@[j] as int]) == h2
                },
            // the new record
            w.len() >= 1,
            w.len() <= usize::MAX,
            words0.len() <= usize::MAX,
            h == hash_seq(w),
            !has_record(v0, w),
            r32 as int == v0.len(),
            // how the current state was built from the old one
            self.words@ == words0 + w,
            self.offsets@ == offs0.push(words0.len() as usize),
            self.lens@ == lens0.push(w.len() as usize),
            (if m0.contains_key(h) {
                ob == m0[h]@
            } else {
                ob == Seq::<u32>::empty()
            }),
            self.by_hash@ == m0.remove(h).insert(h, self.by_hash@[h]),
            self.by_hash@.contains_key(h),
            self.by_hash@[h]@ == ob.push(r32),
        ensures
            self.inv(),
            self@ == v0.push(w),
    {
        let v1 = self@;
        let n0 = v0.len();
        assert(v1.len() == n0 + 1);
        assert forall|i: int| 0 <= i < n0 implies v1[i] == v0[i] by {
            assert(offs0[i] + lens0[i] <= words0.len());
            assert(v1[i] =~= v0[i]);
        }
        assert(self.offsets@[n0 as int] == words0.len());
        assert(self.lens@[n0 as int] == w.len());
        assert(v1[n0 as int] == self.words@.subrange(
            words0.len() as int,
            words0.len() + w.len() as int,
        ));
        assert(v1[n0 as int].len() == w.len());
        assert forall|t: int| 0 <= t < w.len() implies v1[n0 as int][t] == w[t] by {
            assert(v1[n0 as int][t] == self.words@[words0.len() + t]);
            assert(self.words@[words0.len() + t] == w[t]);
        }
        assert(v1[n0 as int] =~= w);
        assert(v1 =~~= v0.push(w));
        assert(self@ == v0.push(w));
        // total word count
        assert(v1.drop_last() =~= v0);
        assert(total_words(v1) == total_words(v0) + w.len());
        // uniqueness
        assert(records_unique(v1)) by {
            assert forall|i: int, j: int| 1 <= i < j < v1.len() implies v1[i] != v1[j] by {
                if j == n0 as int {
                    assert(v1[i] == v0[i]);
                    assert(!has_record(v0, w));
                }
            }
        }
        // every record is reachable through its hash
        assert forall|i: int| 1 <= i < v1.len() implies {
            &&& self.by_hash@.contains_key(#[trigger] hash_seq(v1[i]))
            &&& self.by_hash@[hash_seq(v1[i])]@.contains(i as u32)
        } by {
            if i < n0 {
                assert(v1[i] == v0[i]);
                let hi = hash_seq(v0[i]);
                assert(m0.contains_key(hi));
                assert(m0[hi]@.contains(i as u32));
                if hi == h {
                    assert(ob == m0[h]@);
                    let t = choose|t: int| 0 <= t < ob.len() && ob[t] == i as u32;
                    assert(ob.push(r32)[t] == i as u32);
                    assert(self.by_hash@[h]@.contains(i as u32));
                } else {
                    assert(self.by_hash@[hi] == m0[hi]);
                }
            } else {
                assert(i == n0 as int);
                assert(v1[i] == w);
                let bl = self.by_hash@[h]@;
                assert(bl[bl.len() - 1] == r32);
                assert(bl.contains(r32));
            }
        }
        // every bucket entry names a live record with that hash
        assert forall|h2: u64, j: int|
            self.by_hash@.contains_key(h2) && 0 <= j < self.by_hash@[h2]@.len() implies {
            &&& 1 <= #[trigger] self.by_hash@[h2]@[j] < v1.len()
            &&& hash_seq(v1[self.by_hash@[h2]@[j] as int]) == h2
        } by {
            if h2 == h {
                let bl = self.by_hash@[h]@;
                if j < bl.len() - 1 {
                    assert(bl[j] == ob[j]);
                    assert(m0.contains_key(h) && 0 <= j < m0[h]@.len());
                    let rr = m0[h]@[j];
                    assert(1 <= rr < n0);
                    assert(v1[rr as int] == v0[rr as int]);
                } else {
                    assert(bl[j] == r32);
                    assert(v1[r32 as int] == w);
                }
            } else {
                assert(m0.contains_key(h2));
                assert(self.by_hash@[h2] == m0[h2]);
                let rr = m0[h2]@[j];
                assert(1 <= rr < n0);
                assert(v1[rr as int] == v0[rr as int]);
            }
        }
    }

    proof fn finish_insert(&self, v0: Seq<Seq<u32>>, w: Seq<u32>, h: u64, r32: u32)
        requires
            // arena and tables after the append
            self.offsets@.len() == self.lens@.len(),
            self.offsets@.len() >= 2,
            self.offsets@.len() <= MAX_RECORDS + 1,
            r32 as int == self.offsets@.len() - 1,
            w.len() >= 1,
            h == hash_seq(w),
            !has_record(v0, w),
            // relation to the pre-insert state v0
            v0.len() == self.offsets@.len() - 1,
            self.offsets@[0] == 0,
            self.lens@[0] == 0,
            forall|i: int|
                0 <= i < v0.len() ==> v0[i] == self.words@.subrange(
                    self.offsets@[i] as int,
                    self.offsets@[i] + self.lens@[i],
                ),
            forall|i: int|
                0 <= i < v0.len() ==> self.offsets@[i] + self.lens@[i] <= self.offsets@[
                    r32 as int
                ],
            forall|i: int| 1 <= i < v0.len() ==> self.lens@[i] >= 1,
            self.offsets@[r32 as int] + self.lens@[r32 as int] == self.words@.len(),
            self.lens@[r32 as int] == w.len(),
            self.words@.subrange(
                self.offsets@[r32 as int] as int,
                self.offsets@[r32 as int] + self.lens@[r32 as int],
            ) == w,
            self.offsets@[r32 as int] as int == total_words(v0),
            records_unique(v0),
            // the hash index before this record was added: same as now minus h
            forall|i: int|
                1 <= i < v0.len() ==> {
                    &&& self.by_hash@.contains_key(#[trigger] hash_seq(v0[i]))
                    &&& self.by_hash@[hash_seq(v0[i])]@.contains(i as u32)
                },
            forall|h2: u64, j: int|
                self.by_hash@.contains_key(h2) && 0 <= j < self.by_hash@[h2]@.len() && !(h2 == h
                    && j == self.by_hash@[h2]@.len() - 1) ==> {
                    &&& 1 <= #[trigger] self.by_hash@[h2]@[j] < v0.len()
                    &&& hash_seq(v0[self.by_hash@[h2]@[j] as int]) == h2
                },
            self.by_hash@.contains_key(h),
            self.by_hash@[h]@.len() >= 1,
            self.by_hash@[h]@.last() == r32,
        ensures
            self.inv(),
            self@ == v0.push(w),
    {
        assert(self@.len() == v0.len() + 1);
        assert forall|i: int| 0 <= i < v0.len() implies self@[i] == v0[i] by {
            assert(self@[i] == self.words@.subrange(
                self.offsets@[i] as int,
                self.offsets@[i] + self.lens@[i],
            ));
        }
        assert(self@[r32 as int] == w);
        assert(self@ =~= v0.push(w));
        assert(total_words(self@) == total_words(self@.drop_last()) + self@.last().len());
        assert(self@.drop_last() =~= v0);
        assert(self.words@.len() == total_words(self@));
        assert(records_unique(self@)) by {
            assert forall|i: int, j: int| 1 <= i < j < self@.len() implies self@[i] != self@[j]
            by {
                if j == r32 as int {
                    assert(!has_record(v0, w));
                    assert(self@[i] == v0[i]);
                }
            }
        }
        assert forall|i: int| 1 <= i < self@.len() implies {
            &&& self.by_hash@.contains_key(#[trigger] hash_seq(self@[i]))
            &&& self.by_hash@[hash_seq(self@[i])]@.contains(i as u32)
        } by {
            if i < v0.len() {
                assert(self@[i] == v0[i]);
                assert(self.by_hash@.contains_key(hash_seq(v0[i])));
                assert(self.by_hash@[hash_seq(v0[i])]@.contains(i as u32));
            } else {
                assert(i == r32 as int);
                assert(self@[i] == w);
                let bl = self.by_hash@[h]@;
                assert(bl[bl.len() - 1] == r32);
                assert(bl.contains(r32));
                assert(r32 as int == i);
            }
        }
        assert forall|h2: u64, j: int|
            self.by_hash@.contains_key(h2) && 0 <= j < self.by_hash@[h2]@.len() implies {
            &&& 1 <= #[trigger] self.by_hash@[h2]@[j] < self@.len()
            &&& hash_seq(self@[self.by_hash@[h2]@[j] as int]) == h2
        } by {
            if h2 == h && j == self.by_hash@[h2]@.len() - 1 {
                assert(self.by_hash@[h2]@[j] == r32);
                assert(self@[r32 as int] == w);
            } else {
                let rr = self.by_hash@[h2]@[j];
                assert(1 <= rr < v0.len());
                assert(self@[rr as int] == v0[rr as int]);
            }
        }
    }
}

} // verus!
