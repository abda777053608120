//! A size-fixed, separately chained hash table that hands out stable
//! `(bucket, slot)` coordinates for its keys.

use vstd::prelude::*;
use vstd::string::StrSliceExecFns;

verus! {

/// Number of distinct hash codes; every key hashes into `[0, HASH_SPACE)`.
pub const HASH_SPACE: u64 = 0x1_0000_0000;

/// Polynomial rolling hash of a character sequence, reduced modulo `HASH_SPACE`.
pub open spec fn hash_of_chars(s: Seq<char>) -> int
    decreases s.len(),
{
    if s.len() == 0 {
        0
    } else {
        (hash_of_chars(s.drop_last()) * 31 + (s.last() as u32)) % (HASH_SPACE as int)
    }
}

pub proof fn lemma_hash_of_chars_in_range(s: Seq<char>)
    ensures
        0 <= hash_of_chars(s) < HASH_SPACE as int,
    decreases s.len(),
{
    if s.len() != 0 {
        lemma_hash_of_chars_in_range(s.drop_last());
    }
}

/// A key the hash table can store: hashed and compared through its
/// mathematical view, so that equal views always land in the same bucket.
pub trait TableKey: View + Sized {
    /// The hash code of a key, a function of its view alone.
    spec fn view_hash(v: Self::V) -> int;

    proof fn lemma_view_hash_in_range(v: Self::V)
        ensures
            0 <= Self::view_hash(v) < HASH_SPACE as int,
    ;

    fn hash_code(&self) -> (h: u64)
        ensures
            h as int == Self::view_hash(self@),
    ;

    fn key_eq(&self, other: &Self) -> (b: bool)
        ensures
            b == (self@ == other@),
    ;
}

impl TableKey for i32 {
    open spec fn view_hash(v: i32) -> int {
        v as int + 0x8000_0000
    }

    proof fn lemma_view_hash_in_range(v: i32) {
    }

    fn hash_code(&self) -> (h: u64) {
        (((*self) as i64) + 0x8000_0000) as u64
    }

    fn key_eq(&self, other: &Self) -> (b: bool) {
        *self == *other
    }
}

impl TableKey for String {
    open spec fn view_hash(v: Seq<char>) -> int {
        hash_of_chars(v)
    }

    proof fn lemma_view_hash_in_range(v: Seq<char>) {
        lemma_hash_of_chars_in_range(v);
    }

    fn hash_code(&self) -> (h: u64) {
        let s: &str = self.as_str();
        let n = s.unicode_len();
        let mut h: u64 = 0;
        let mut i: usize = 0;
        while i < n
            invariant
                s@ == self@,
                n == s@.len(),
                i <= n,
                h < HASH_SPACE,
                h as int == hash_of_chars(s@.take(i as int)),
            decreases n - i,
        {
            let c = s.get_char(i);
            proof {
                assert(s@.take(i + 1).drop_last() =~= s@.take(i as int));
                assert(s@.take(i + 1).last() == s@[i as int]);
            }
            h = (h * 31 + ((c as u32) as u64)) % HASH_SPACE;
            i += 1;
        }
        proof {
            assert(s@.take(n as int) =~= s@);
        }
        h
    }

    fn key_eq(&self, other: &Self) -> (b: bool) {
        self.eq(other)
    }
}

/// Index of the first occurrence of `v` in `bucket`; `bucket.len()` when absent.
pub open spec fn first_slot<V>(bucket: Seq<V>, v: V) -> int
    decreases bucket.len(),
{
    if bucket.len() == 0 {
        0
    } else if bucket[0] == v {
        0
    } else {
        1 + first_slot(bucket.drop_first(), v)
    }
}

/// Whether `bucket` holds `v` at some slot.
pub open spec fn bucket_has<V>(bucket: Seq<V>, v: V) -> bool {
    first_slot(bucket, v) < bucket.len()
}

pub proof fn lemma_first_slot<V>(bucket: Seq<V>, v: V)
    ensures
        0 <= first_slot(bucket, v) <= bucket.len(),
        first_slot(bucket, v) < bucket.len() ==> bucket[first_slot(bucket, v)] == v,
        forall|j: int| 0 <= j < first_slot(bucket, v) ==> bucket[j] != v,
        forall|j: int| 0 <= j < bucket.len() && bucket[j] == v ==> first_slot(bucket, v) <= j,
    decreases bucket.len(),
{
    if bucket.len() == 0 {
    } else if bucket[0] == v {
    } else {
        lemma_first_slot(bucket.drop_first(), v);
        assert forall|j: int| 0 <= j < first_slot(bucket, v) implies bucket[j] != v by {
            if j > 0 {
                assert(bucket.drop_first()[j - 1] == bucket[j]);
            }
        }
        assert forall|j: int| 0 <= j < bucket.len() && bucket[j] == v implies first_slot(
            bucket,
            v,
        ) <= j by {
            assert(j > 0);
            assert(bucket.drop_first()[j - 1] == bucket[j]);
        }
    }
}

/// Appending a fresh key at the end of a bucket moves no earlier slot.
pub proof fn lemma_first_slot_push<V>(bucket: Seq<V>, v: V, w: V)
    requires
        bucket_has(bucket, v),
    ensures
        bucket_has(bucket.push(w), v),
        first_slot(bucket.push(w), v) == first_slot(bucket, v),
    decreases bucket.len(),
{
    if bucket.len() == 0 {
    } else if bucket[0] == v {
        assert(bucket.push(w)[0] == v);
    } else {
        assert(bucket.push(w)[0] == bucket[0]);
        assert(bucket.push(w).drop_first() =~= bucket.drop_first().push(w));
        lemma_first_slot_push(bucket.drop_first(), v, w);
    }
}

/// A key that was never in a bucket sits at no slot of it.
pub proof fn lemma_first_slot_push_self<V>(bucket: Seq<V>, v: V)
    requires
        !bucket_has(bucket, v),
    ensures
        first_slot(bucket.push(v), v) == bucket.len(),
    decreases bucket.len(),
{
    lemma_first_slot(bucket, v);
    if bucket.len() == 0 {
        assert(bucket.push(v)[0] == v);
    } else {
        assert(bucket.push(v)[0] == bucket[0]);
        assert(bucket[0] != v);
        assert(bucket.push(v).drop_first() =~= bucket.drop_first().push(v));
        assert(!bucket_has(bucket.drop_first(), v)) by {
            lemma_first_slot(bucket.drop_first(), v);
            assert forall|j: int|
                0 <= j < bucket.drop_first().len() implies bucket.drop_first()[j] != v by {
                assert(bucket.drop_first()[j] == bucket[j + 1]);
            }
        }
        lemma_first_slot_push_self(bucket.drop_first(), v);
    }
}

/// The separate-chaining hash table. The number of buckets is fixed at
/// construction; a key's coordinates never change while it stays in the table.
#[derive(Debug)]
pub struct MyHashMap<Key: TableKey> {
    size: usize,
    table: Vec<Vec<Key>>,
}

impl<Key: TableKey> MyHashMap<Key> {
    /// The number of buckets.
    pub closed spec fn capacity(&self) -> int {
        self.size as int
    }

    /// The contents, bucket by bucket, as views of the stored keys.
    pub closed spec fn buckets(&self) -> Seq<Seq<Key::V>> {
        self.table@.map_values(|b: Vec<Key>| b@.map_values(|k: Key| k@))
    }

    /// The bucket a view hashes to.
    pub open spec fn bucket_of(&self, v: Key::V) -> int {
        Key::view_hash(v) % self.capacity()
    }

    pub open spec fn well_formed(&self) -> bool {
        &&& 1 <= self.capacity()
        &&& self.buckets().len() == self.capacity()
        &&& forall|b: int, s: int|
            0 <= b < self.buckets().len() && 0 <= s < self.buckets()[b].len() ==> self.bucket_of(
                #[trigger] self.buckets()[b][s],
            ) == b
        &&& forall|b: int, s1: int, s2: int|
            #![trigger self.buckets()[b][s1], self.buckets()[b][s2]]
            0 <= b < self.buckets().len() && 0 <= s1 < self.buckets()[b].len() && 0 <= s2
                < self.buckets()[b].len() && s1 != s2 ==> self.buckets()[b][s1]
                != self.buckets()[b][s2]
    }

    /// Whether some key with view `v` is stored.
    pub open spec fn contains_view(&self, v: Key::V) -> bool {
        bucket_has(self.buckets()[self.bucket_of(v)], v)
    }

    /// The coordinates of the key with view `v`, if stored.
    pub open spec fn find_pos(&self, v: Key::V) -> Option<(int, int)> {
        if self.contains_view(v) {
            Some((self.bucket_of(v), first_slot(self.buckets()[self.bucket_of(v)], v)))
        } else {
            None
        }
    }

    pub fn new(size: usize) -> (r: Self)
        requires
            size >= 1,
        ensures
            r.well_formed(),
            r.capacity() == size as int,
            forall|b: int| 0 <= b < size as int ==> #[trigger] r.buckets()[b].len() == 0,
    {
        let mut table: Vec<Vec<Key>> = Vec::new();
        let mut i: usize = 0;
        while i < size
            invariant
                i <= size,
                table@.len() == i as int,
                forall|b: int| 0 <= b < i as int ==> #[trigger] table@[b]@.len() == 0,
            decreases size - i,
        {
            table.push(Vec::new());
            i += 1;
        }
        let r = Self { size, table };
        proof {
            assert(forall|b: int|
                0 <= b < size as int ==> #[trigger] r.buckets()[b] =~= Seq::<Key::V>::empty());
        }
        r
    }

    fn get_hash(&self, key: &Key) -> (b: usize)
        requires
            self.capacity() >= 1,
        ensures
            b as int == self.bucket_of(key@),
            b < self.capacity(),
    {
        let h = key.hash_code();
        proof {
            Key::lemma_view_hash_in_range(key@);
        }
        (h % (self.size as u64)) as usize
    }

    pub fn get(&self, key: &Key) -> (r: Option<(usize, usize)>)
        requires
            self.well_formed(),
        ensures
            r is Some <==> self.contains_view(key@),
            match r {
                Some(p) => {
                    &&& p.0 as int == self.bucket_of(key@)
                    &&& p.1 as int == first_slot(self.buckets()[p.0 as int], key@)
                    &&& self.buckets()[p.0 as int][p.1 as int] == key@
                },
                None => !self.contains_view(key@),
            },
    {
        let b = self.get_hash(key);
        let bucket: &Vec<Key> = &self.table[b];
        let ghost bview = self.buckets()[b as int];
        proof {
            assert(bview =~= bucket@.map_values(|k: Key| k@));
            lemma_first_slot(bview, key@);
        }
        let mut s: usize = 0;
        while s < bucket.len()
            invariant
                self.well_formed(),
                b as int == self.bucket_of(key@),
                b < self.buckets().len(),
                bview == self.buckets()[b as int],
                bview.len() == bucket@.len(),
                forall|j: int| 0 <= j < bview.len() ==> #[trigger] bview[j] == bucket@[j]@,
                s <= bucket@.len(),
                forall|j: int| 0 <= j < s as int ==> #[trigger] bview[j] != key@,
            decreases bucket@.len() - s,
        {
            if bucket[s].key_eq(key) {
                proof {
                    lemma_first_slot(bview, key@);
                    assert(bview[s as int] == key@);
                    assert(first_slot(bview, key@) <= s as int);
                    assert(s as int <= first_slot(bview, key@));
                }
                return Some((b, s));
            }
            s += 1;
        }
        proof {
            lemma_first_slot(bview, key@);
        }
        None
    }

    pub fn insert(&mut self, key: Key) -> (r: Result<(usize, usize), ()>)
        requires
            old(self).well_formed(),
        ensures
            final(self).well_formed(),
            final(self).capacity() == old(self).capacity(),
            r is Ok <==> !old(self).contains_view(key@),
            match r {
                Ok(p) => {
                    &&& p.0 as int == old(self).bucket_of(key@)
                    &&& p.1 as int == old(self).buckets()[p.0 as int].len()
                    &&& final(self).buckets() == old(self).buckets().update(
                        p.0 as int,
                        old(self).buckets()[p.0 as int].push(key@),
                    )
                },
                Err(()) => *final(self) == *old(self),
            },
    {
        if self.get(&key).is_some() {
            return Err(());
        }
        let b = self.get_hash(&key);
        let ghost old_buckets = self.buckets();
        let ghost kv = key@;
        let mut bucket: Vec<Key> = self.table.remove(b);
        bucket.push(key);
        let slot = bucket.len() - 1;
        self.table.insert(b, bucket);
        proof {
            assert(self.buckets() =~~= old_buckets.update(
                b as int,
                old_buckets[b as int].push(kv),
            ));
            assert forall|bi: int, s: int|
                0 <= bi < self.buckets().len() && 0 <= s < self.buckets()[bi].len() implies self
                .bucket_of(#[trigger] self.buckets()[bi][s]) == bi by {
                if bi == b as int && s == self.buckets()[bi].len() - 1 {
                    assert(self.buckets()[bi][s] == kv);
                } else {
                    assert(self.buckets()[bi][s] == old_buckets[bi][s]);
                }
            }
            lemma_first_slot(old_buckets[b as int], kv);
            assert forall|bi: int, s1: int, s2: int|
                #![trigger self.buckets()[bi][s1], self.buckets()[bi][s2]]
                0 <= bi < self.buckets().len() && 0 <= s1 < self.buckets()[bi].len() && 0 <= s2
                    < self.buckets()[bi].len() && s1 != s2 implies self.buckets()[bi][s1]
                != self.buckets()[bi][s2] by {
                if bi == b as int {
                    if s1 == self.buckets()[bi].len() - 1 {
                        assert(old_buckets[bi][s2] != kv);
                    } else if s2 == self.buckets()[bi].len() - 1 {
                        assert(old_buckets[bi][s1] != kv);
                    }
                }
            }
        }
        Ok((b, slot))
    }

    pub fn get_by_position(&self, position: &(usize, usize)) -> (r: Option<&Key>)
        ensures
            r is Some <==> ((position.0 as int) < self.buckets().len() && (position.1 as int)
                < self.buckets()[position.0 as int].len()),
            match r {
                Some(k) => k@ == self.buckets()[position.0 as int][position.1 as int],
                None => true,
            },
    {
        if position.0 < self.table.len() {
            let bucket: &Vec<Key> = &self.table[position.0];
            if position.1 < bucket.len() {
                Some(&bucket[position.1])
            } else {
                None
            }
        } else {
            None
        }
    }

    pub fn delete(&mut self, key: &Key) -> (r: Result<(), ()>)
        requires
            old(self).well_formed(),
        ensures
            final(self).well_formed(),
            final(self).capacity() == old(self).capacity(),
            r is Ok <==> old(self).contains_view(key@),
            match r {
                Ok(()) => final(self).buckets() == old(self).buckets().update(
                    old(self).bucket_of(key@),
                    old(self).buckets()[old(self).bucket_of(key@)].remove(
                        first_slot(old(self).buckets()[old(self).bucket_of(key@)], key@),
                    ),
                ),
                Err(()) => *final(self) == *old(self),
            },
    {
        let pos = match self.get(key) {
            None => {
                return Err(());
            },
            Some(p) => p,
        };
        let b = pos.0;
        let s = pos.1;
        let ghost old_buckets = self.buckets();
        let ghost kv = key@;
        let mut bucket: Vec<Key> = self.table.remove(b);
        bucket.remove(s);
        self.table.insert(b, bucket);
        proof {
            assert(self.buckets() =~~= old_buckets.update(
                b as int,
                old_buckets[b as int].remove(s as int),
            ));
            assert forall|bi: int, si: int|
                0 <= bi < self.buckets().len() && 0 <= si < self.buckets()[bi].len() implies self
                .bucket_of(#[trigger] self.buckets()[bi][si]) == bi by {
                if bi == b as int {
                    if si < s as int {
                        assert(self.buckets()[bi][si] == old_buckets[bi][si]);
                    } else {
                        assert(self.buckets()[bi][si] == old_buckets[bi][si + 1]);
                    }
                } else {
                    assert(self.buckets()[bi][si] == old_buckets[bi][si]);
                }
            }
            assert forall|bi: int, s1: int, s2: int|
                #![trigger self.buckets()[bi][s1], self.buckets()[bi][s2]]
                0 <= bi < self.buckets().len() && 0 <= s1 < self.buckets()[bi].len() && 0 <= s2
                    < self.buckets()[bi].len() && s1 != s2 implies self.buckets()[bi][s1]
                != self.buckets()[bi][s2] by {
                if bi == b as int {
                    let t1: int = if s1 < s as int {
                        s1
                    } else {
                        s1 + 1
                    };
                    let t2: int = if s2 < s as int {
                        s2
                    } else {
                        s2 + 1
                    };
                    assert(self.buckets()[bi][s1] == old_buckets[bi][t1]);
                    assert(self.buckets()[bi][s2] == old_buckets[bi][t2]);
                }
            }
        }
        Ok(())
    }

    /// The number of buckets, for walking the table from outside.
    pub fn bucket_count(&self) -> (n: usize)
        ensures
            n as int == self.buckets().len(),
    {
        self.table.len()
    }

    /// Whether every bucket is empty.
    pub open spec fn all_buckets_empty(&self) -> bool {
        forall|b: int| 0 <= b < self.buckets().len() ==> #[trigger] self.buckets()[b].len() == 0
    }
}

/// Find-or-insert: relates a table before and after a key with view `v` was
/// looked up and, when absent, appended, with `p` the coordinates handed out.
pub open spec fn added<Key: TableKey>(
    m1: MyHashMap<Key>,
    m2: MyHashMap<Key>,
    v: Key::V,
    p: (usize, usize),
) -> bool {
    &&& m2.capacity() == m1.capacity()
    &&& if m1.contains_view(v) {
        m2 == m1 && Some((p.0 as int, p.1 as int)) == m1.find_pos(v)
    } else {
        &&& p.0 as int == m1.bucket_of(v)
        &&& p.1 as int == m1.buckets()[m1.bucket_of(v)].len()
        &&& m2.buckets() == m1.buckets().update(
            p.0 as int,
            m1.buckets()[p.0 as int].push(v),
        )
    }
}

/// A freshly inserted key is found exactly at the coordinates that the
/// insertion handed out.
pub proof fn lemma_insert_then_find<Key: TableKey>(
    m1: MyHashMap<Key>,
    m2: MyHashMap<Key>,
    v: Key::V,
)
    requires
        m1.well_formed(),
        !m1.contains_view(v),
        m2.capacity() == m1.capacity(),
        m2.buckets() == m1.buckets().update(
            m1.bucket_of(v),
            m1.buckets()[m1.bucket_of(v)].push(v),
        ),
    ensures
        m2.contains_view(v),
        m2.find_pos(v) == Some((m1.bucket_of(v), m1.buckets()[m1.bucket_of(v)].len() as int)),
{
    let b = m1.bucket_of(v);
    lemma_first_slot_push_self(m1.buckets()[b], v);
}

/// Stored coordinates never move when another key is inserted.
pub proof fn lemma_position_stable<Key: TableKey>(
    m1: MyHashMap<Key>,
    m2: MyHashMap<Key>,
    v: Key::V,
    w: Key::V,
)
    requires
        m1.well_formed(),
        m1.contains_view(v),
        m2.capacity() == m1.capacity(),
        m2.buckets() == m1.buckets().update(
            m1.bucket_of(w),
            m1.buckets()[m1.bucket_of(w)].push(w),
        ),
    ensures
        m2.contains_view(v),
        m2.find_pos(v) == m1.find_pos(v),
{
    if m1.bucket_of(v) == m1.bucket_of(w) {
        lemma_first_slot_push(m1.buckets()[m1.bucket_of(v)], v, w);
    } else {
        assert(m2.buckets()[m2.bucket_of(v)] == m1.buckets()[m1.bucket_of(v)]);
    }
}

/// Find-or-insert of another key never moves the coordinates of a key already
/// stored.
pub proof fn lemma_added_preserves_find<Key: TableKey>(
    m1: MyHashMap<Key>,
    m2: MyHashMap<Key>,
    v: Key::V,
    w: Key::V,
    p: (usize, usize),
)
    requires
        m1.well_formed(),
        added(m1, m2, w, p),
        m1.contains_view(v),
    ensures
        m2.contains_view(v),
        m2.find_pos(v) == m1.find_pos(v),
{
    if m1.contains_view(w) {
    } else {
        lemma_position_stable(m1, m2, v, w);
    }
}

/// Find-or-insert of the same view twice hands out the same coordinates the
/// second time and changes nothing.
pub proof fn lemma_added_idempotent<Key: TableKey>(
    m0: MyHashMap<Key>,
    m1: MyHashMap<Key>,
    m2: MyHashMap<Key>,
    v: Key::V,
    p1: (usize, usize),
    p2: (usize, usize),
)
    requires
        m0.well_formed(),
        added(m0, m1, v, p1),
        added(m1, m2, v, p2),
    ensures
        p2 == p1,
        m2 == m1,
{
    if m0.contains_view(v) {
    } else {
        lemma_insert_then_find(m0, m1, v);
    }
}

} // verus!
