//! A fixed-capacity hash table whose buckets are growable lists, so that
//! colliding keys coexist and insertion never fails.
//!
//! `insert` does not check for an existing equal key: inserting the same
//! key twice stores two entries, and `get` returns the value of the one
//! inserted first (first-match-wins). Callers that need one entry per key
//! must check with `contains_key` before inserting.

use vstd::prelude::*;

verus! {

/// The polynomial rolling hash used for text keys: a deterministic, pure
/// function of the character sequence, computed with wrapping arithmetic.
pub open spec fn str_hash_seq(s: Seq<char>) -> usize
    decreases s.len(),
{
    if s.len() == 0 {
        0usize
    } else {
        vstd::wrapping::usize_specs::wrapping_add(
            vstd::wrapping::usize_specs::wrapping_mul(str_hash_seq(s.drop_last()), 31),
            s.last() as usize,
        )
    }
}

/// A key type usable by [`HashTable`]: it can be hashed, compared and
/// duplicated, and all three agree with the key's mathematical view.
pub trait Hashable: View + Sized {
    /// The hash as a function of the key's view, so that equal views
    /// always land in the same bucket.
    spec fn view_hash(v: <Self as View>::V) -> usize;

    fn hash(&self) -> (h: usize)
        ensures
            h == Self::view_hash(self@),
    ;

    fn key_eq(&self, other: &Self) -> (b: bool)
        ensures
            b == (self@ == other@),
    ;

    fn clone_key(&self) -> (r: Self)
        ensures
            r@ == self@,
    ;
}

impl Hashable for String {
    open spec fn view_hash(v: Seq<char>) -> usize {
        str_hash_seq(v)
    }

    fn hash(&self) -> (h: usize)
        ensures
            h == Self::view_hash(self@),
    {
        let cs = crate::text::chars_of(self.as_str());
        let mut acc: usize = 0;
        let mut i: usize = 0;
        while i < cs.len()
            invariant
                i <= cs.len(),
                cs@ == self@,
                acc == str_hash_seq(cs@.take(i as int)),
            decreases cs.len() - i,
        {
            acc = acc.wrapping_mul(31).wrapping_add(cs[i] as usize);
            proof {
                assert(cs@.take(i + 1).drop_last() =~= cs@.take(i as int));
                assert(cs@.take(i + 1).last() == cs@[i as int]);
            }
            i = i + 1;
        }
        proof {
            assert(cs@.take(cs@.len() as int) =~= cs@);
        }
        acc
    }

    fn key_eq(&self, other: &Self) -> (b: bool)
        ensures
            b == (self@ == other@),
    {
        *self == *other
    }

    fn clone_key(&self) -> (r: Self)
        ensures
            r@ == self@,
    {
        self.clone()
    }
}

impl Hashable for u32 {
    open spec fn view_hash(v: u32) -> usize {
        vstd::wrapping::usize_specs::wrapping_mul(17, (v ^ 2) as usize)
    }

    fn hash(&self) -> (h: usize)
        ensures
            h == Self::view_hash(self@),
    {
        17usize.wrapping_mul((*self ^ 2) as usize)
    }

    fn key_eq(&self, other: &Self) -> (b: bool)
        ensures
            b == (self@ == other@),
    {
        *self == *other
    }

    fn clone_key(&self) -> (r: Self)
        ensures
            r@ == self@,
    {
        *self
    }
}

/// Concatenation of a sequence of bucket lists, in bucket order.
pub open spec fn flatten_seqs<K, V>(bs: Seq<Seq<(K, V)>>) -> Seq<(K, V)>
    decreases bs.len(),
{
    if bs.len() == 0 {
        Seq::empty()
    } else {
        flatten_seqs(bs.drop_last()) + bs.last()
    }
}

/// First value stored under a view-equal key, scanning the bucket list
/// front to back.
pub open spec fn first_match<K: View, V>(bucket: Seq<(K, V)>, kv: <K as View>::V) -> Option<V>
    decreases bucket.len(),
{
    if bucket.len() == 0 {
        None
    } else if bucket.first().0@ == kv {
        Some(bucket.first().1)
    } else {
        first_match(bucket.drop_first(), kv)
    }
}

#[derive(Debug)]
pub struct HashTable<K, V> {
    items: Vec<Vec<(K, V)>>,
    count: usize,
    size: usize,
}

impl<K: Hashable, V> HashTable<K, V> {
    /// The bucket lists, each a sequence of (key, value) entries.
    pub closed spec fn buckets(self) -> Seq<Seq<(K, V)>> {
        self.items@.map(|i: int, b: Vec<(K, V)>| b@)
    }

    /// Number of buckets, fixed at construction.
    pub closed spec fn capacity(self) -> int {
        self.size as int
    }

    /// Every entry sits in the bucket selected by its key's hash.
    pub open spec fn wf(self) -> bool {
        &&& self.capacity() > 0
        &&& self.buckets().len() == self.capacity()
        &&& forall|i: int, j: int|
            0 <= i < self.buckets().len() && 0 <= j < self.buckets()[i].len()
                ==> K::view_hash((#[trigger] self.buckets()[i][j]).0@) as int % self.capacity()
                == i
    }

    /// The bucket a key belongs to.
    pub open spec fn bucket_of(self, kv: <K as View>::V) -> int {
        K::view_hash(kv) as int % self.capacity()
    }

    /// The value `get` returns for a key: the first entry of the key's
    /// bucket whose stored key has the same view.
    pub open spec fn spec_get(self, kv: <K as View>::V) -> Option<V> {
        first_match(self.buckets()[self.bucket_of(kv)], kv)
    }

    /// Whether some entry is stored under a key with this view.
    pub open spec fn contains(self, kv: <K as View>::V) -> bool {
        self.spec_get(kv) is Some
    }

    /// All entries in bucket order, then list order within a bucket.
    pub open spec fn entries(self) -> Seq<(K, V)> {
        flatten_seqs(self.buckets())
    }

    pub fn new(size: usize) -> (t: Self)
        requires
            size > 0,
        ensures
            t.wf(),
            t.capacity() == size,
            forall|i: int| 0 <= i < size ==> t.buckets()[i] == Seq::<(K, V)>::empty(),
    {
        let mut items: Vec<Vec<(K, V)>> = Vec::new();
        let mut i: usize = 0;
        while i < size
            invariant
                i <= size,
                items@.len() == i,
                forall|j: int| 0 <= j < i ==> items@[j]@ == Seq::<(K, V)>::empty(),
            decreases size - i,
        {
            items.push(Vec::new());
            i = i + 1;
        }
        HashTable { items, count: 0, size }
    }

    /// Reduces a raw hash to a bucket index.
    pub fn rehash(&self, hash: usize) -> (b: usize)
        requires
            self.capacity() > 0,
        ensures
            b == hash as int % self.capacity(),
    {
        hash % self.size
    }

    /// Appends the pair to its key's bucket. Never fails in the
    /// bucket-list design; the `Result` is always `Ok`.
    pub fn insert(&mut self, key: &K, value: V) -> (r: Result<(), crate::DbError>)
        requires
            old(self).wf(),
        ensures
            r is Ok,
            final(self).wf(),
            final(self).capacity() == old(self).capacity(),
            final(self).buckets().len() == old(self).buckets().len(),
            final(self).buckets()[old(self).bucket_of(key@)].len()
                == old(self).buckets()[old(self).bucket_of(key@)].len() + 1,
            forall|j: int|
                0 <= j < old(self).buckets()[old(self).bucket_of(key@)].len()
                    ==> final(self).buckets()[old(self).bucket_of(key@)][j]
                    == old(self).buckets()[old(self).bucket_of(key@)][j],
            final(self).buckets()[old(self).bucket_of(key@)].last().0@ == key@,
            final(self).buckets()[old(self).bucket_of(key@)].last().1 == value,
            forall|i: int|
                0 <= i < old(self).buckets().len() && i != old(self).bucket_of(key@)
                    ==> final(self).buckets()[i] == old(self).buckets()[i],
            forall|kv: <K as View>::V|
                kv != key@ ==> #[trigger] final(self).spec_get(kv) == old(self).spec_get(kv),
            !old(self).contains(key@) ==> final(self).spec_get(key@) == Some(value),
            old(self).contains(key@) ==> final(self).spec_get(key@) == old(self).spec_get(key@),
            final(self).contains(key@),
    {
        let h = self.rehash(key.hash());
        let stored = key.clone_key();
        let ghost old_table = *self;
        let ghost gkey = stored;
        let bucket = &mut self.items[h];
        bucket.push((stored, value));
        self.count = if self.count < usize::MAX {
            self.count + 1
        } else {
            self.count
        };
        proof {
            let ghost pair = (gkey, value);
            assert(self.buckets() =~= old_table.buckets().update(
                h as int,
                old_table.buckets()[h as int].push(pair),
            ));
            assert forall|kv: <K as View>::V|
                kv != key@ implies #[trigger] self.spec_get(kv) == old_table.spec_get(kv) by {
                if old_table.bucket_of(kv) == h as int {
                    Self::lemma_first_match_push(old_table.buckets()[h as int], pair, kv);
                }
            }
            Self::lemma_first_match_push(old_table.buckets()[h as int], pair, key@);
        }
        Ok(())
    }

    /// Appending an entry leaves the first match unchanged for every key
    /// already present, and makes the appended pair the first match for
    /// its own key only when that key was absent.
    proof fn lemma_first_match_push(bucket: Seq<(K, V)>, pair: (K, V), kv: <K as View>::V)
        ensures
            first_match(bucket, kv) is Some ==> first_match(bucket.push(pair), kv) == first_match(
                bucket,
                kv,
            ),
            first_match(bucket, kv) is None && pair.0@ == kv ==> first_match(bucket.push(pair), kv)
                == Some(pair.1),
            first_match(bucket, kv) is None && pair.0@ != kv ==> first_match(bucket.push(pair), kv)
                is None,
        decreases bucket.len(),
    {
        if bucket.len() == 0 {
            assert(bucket.push(pair).first() == pair);
            assert(bucket.push(pair).drop_first() =~= Seq::<(K, V)>::empty());
            assert(first_match(Seq::<(K, V)>::empty(), kv) is None);
        } else {
            assert(bucket.push(pair).first() == bucket.first());
            assert(bucket.push(pair).drop_first() =~= bucket.drop_first().push(pair));
            Self::lemma_first_match_push(bucket.drop_first(), pair, kv);
        }
    }

    /// Returns a clone of the first value stored under the key, if any.
    pub fn get(&self, key: &K) -> (r: Option<V>) where V: Clone
        requires
            self.wf(),
        ensures
            match r {
                Some(v) => self.spec_get(key@) is Some && cloned::<V>(
                    self.spec_get(key@).unwrap(),
                    v,
                ),
                None => self.spec_get(key@) is None,
            },
    {
        let h = self.rehash(key.hash());
        let bucket = &self.items[h];
        proof {
            assert(bucket@.skip(0) =~= bucket@);
        }
        let mut i: usize = 0;
        while i < bucket.len()
            invariant
                i <= bucket@.len(),
                bucket@ == self.buckets()[h as int],
                h as int == self.bucket_of(key@),
                first_match(bucket@.skip(i as int), key@) == self.spec_get(key@),
                forall|j: int| 0 <= j < i ==> bucket@[j].0@ != key@,
            decreases bucket.len() - i,
        {
            if bucket[i].0.key_eq(key) {
                proof {
                    assert(bucket@.skip(i as int).first() == bucket@[i as int]);
                }
                return Some(bucket[i].1.clone());
            }
            proof {
                assert(bucket@.skip(i as int).first() == bucket@[i as int]);
                assert(bucket@.skip(i as int).drop_first() =~= bucket@.skip(i + 1));
            }
            i = i + 1;
        }
        proof {
            assert(bucket@.skip(i as int).len() == 0);
        }
        None
    }

    /// Borrows the first value stored under the key, if any.
    pub fn get_ref(&self, key: &K) -> (r: Option<&V>)
        requires
            self.wf(),
        ensures
            match r {
                Some(v) => self.spec_get(key@) == Some(*v),
                None => self.spec_get(key@) is None,
            },
    {
        let h = self.rehash(key.hash());
        let bucket = &self.items[h];
        proof {
            assert(bucket@.skip(0) =~= bucket@);
        }
        let mut i: usize = 0;
        while i < bucket.len()
            invariant
                i <= bucket@.len(),
                bucket@ == self.buckets()[h as int],
                h as int == self.bucket_of(key@),
                first_match(bucket@.skip(i as int), key@) == self.spec_get(key@),
                forall|j: int| 0 <= j < i ==> bucket@[j].0@ != key@,
            decreases bucket.len() - i,
        {
            if bucket[i].0.key_eq(key) {
                proof {
                    assert(bucket@.skip(i as int).first() == bucket@[i as int]);
                }
                return Some(&bucket[i].1);
            }
            proof {
                assert(bucket@.skip(i as int).first() == bucket@[i as int]);
                assert(bucket@.skip(i as int).drop_first() =~= bucket@.skip(i + 1));
            }
            i = i + 1;
        }
        proof {
            assert(bucket@.skip(i as int).len() == 0);
        }
        None
    }

    /// Whether some entry is stored under the key.
    pub fn contains_key(&self, key: &K) -> (b: bool)
        requires
            self.wf(),
        ensures
            b == self.contains(key@),
    {
        self.get_ref(key).is_some()
    }

    /// If any element of a bucket matches the key, the scan finds one.
    proof fn lemma_first_match_some(bucket: Seq<(K, V)>, kv: <K as View>::V)
        requires
            exists|j: int| 0 <= j < bucket.len() && (#[trigger] bucket[j]).0@ == kv,
        ensures
            first_match(bucket, kv) is Some,
        decreases bucket.len(),
    {
        if bucket.first().0@ != kv {
            let j = choose|j: int| 0 <= j < bucket.len() && (#[trigger] bucket[j]).0@ == kv;
            assert(bucket.drop_first()[j - 1].0@ == kv);
            Self::lemma_first_match_some(bucket.drop_first(), kv);
        }
    }

    /// Every position of the concatenated entry list falls in some
    /// bucket.
    proof fn lemma_flatten_elem(bs: Seq<Seq<(K, V)>>, idx: int)
        requires
            0 <= idx < flatten_seqs(bs).len(),
        ensures
            exists|i: int, j: int|
                0 <= i < bs.len() && 0 <= j < bs[i].len() && flatten_seqs(bs)[idx]
                    == #[trigger] bs[i][j],
        decreases bs.len(),
    {
        let whole = flatten_seqs(bs);
        let front = flatten_seqs(bs.drop_last());
        if idx >= front.len() {
            assert(whole[idx] == bs.last()[idx - front.len()]);
            assert(bs[bs.len() - 1] == bs.last());
        } else {
            Self::lemma_flatten_elem(bs.drop_last(), idx);
            let (i, j): (int, int) = choose|i: int, j: int|
                0 <= i < bs.drop_last().len() && 0 <= j < bs.drop_last()[i].len()
                    && flatten_seqs(bs.drop_last())[idx] == #[trigger] bs.drop_last()[i][j];
            assert(bs[i] == bs.drop_last()[i]);
            assert(whole[idx] == bs[i][j]);
        }
    }

    /// Every key occurring among the entries is found by a lookup.
    pub proof fn lemma_entries_contained(self, idx: int)
        requires
            self.wf(),
            0 <= idx < self.entries().len(),
        ensures
            self.contains(self.entries()[idx].0@),
    {
        Self::lemma_flatten_elem(self.buckets(), idx);
        let (i, j): (int, int) = choose|i: int, j: int|
            0 <= i < self.buckets().len() && 0 <= j < self.buckets()[i].len()
                && self.entries()[idx] == #[trigger] self.buckets()[i][j];
        let kv = self.entries()[idx].0@;
        assert(K::view_hash(self.buckets()[i][j].0@) as int % self.capacity() == i);
        assert(self.bucket_of(kv) == i);
        Self::lemma_first_match_some(self.buckets()[i], kv);
    }

    /// At the first matching position, the scan returns that entry's
    /// value; replacing that value moves the first match with it, and
    /// leaves every other key's first match alone.
    proof fn lemma_first_match_update(bucket: Seq<(K, V)>, i: int, kv: <K as View>::V)
        requires
            0 <= i < bucket.len(),
            bucket[i].0@ == kv,
            forall|j: int| 0 <= j < i ==> bucket[j].0@ != kv,
        ensures
            first_match(bucket, kv) == Some(bucket[i].1),
            forall|v2: V|
                first_match(bucket.update(i, (bucket[i].0, v2)), kv) == Some(v2),
            forall|v2: V, kv2: <K as View>::V|
                kv2 != kv ==> first_match(bucket.update(i, (bucket[i].0, v2)), kv2)
                    == first_match(bucket, kv2),
        decreases bucket.len(),
    {
        if i == 0 {
            assert forall|v2: V|
                first_match(bucket.update(i, (bucket[i].0, v2)), kv) == Some(v2) by {
                let b2 = bucket.update(0, (bucket[0].0, v2));
                assert(b2.first() == (bucket[0].0, v2));
            }
            assert forall|v2: V, kv2: <K as View>::V|
                kv2 != kv implies first_match(bucket.update(i, (bucket[i].0, v2)), kv2)
                == first_match(bucket, kv2) by {
                let b2 = bucket.update(0, (bucket[0].0, v2));
                assert(b2.first() == (bucket[0].0, v2));
                assert(b2.drop_first() =~= bucket.drop_first());
            }
        } else {
            Self::lemma_first_match_update(bucket.drop_first(), i - 1, kv);
            assert(bucket.drop_first()[i - 1] == bucket[i]);
            assert forall|v2: V|
                first_match(bucket.update(i, (bucket[i].0, v2)), kv) == Some(v2) by {
                let b2 = bucket.update(i, (bucket[i].0, v2));
                assert(b2.first() == bucket.first());
                assert(b2.drop_first() =~= bucket.drop_first().update(
                    i - 1,
                    (bucket.drop_first()[i - 1].0, v2),
                ));
            }
            assert forall|v2: V, kv2: <K as View>::V|
                kv2 != kv implies first_match(bucket.update(i, (bucket[i].0, v2)), kv2)
                == first_match(bucket, kv2) by {
                let b2 = bucket.update(i, (bucket[i].0, v2));
                assert(b2.first() == bucket.first());
                assert(b2.drop_first() =~= bucket.drop_first().update(
                    i - 1,
                    (bucket.drop_first()[i - 1].0, v2),
                ));
                if bucket.first().0@ == kv2 {
                    assert(first_match(b2, kv2) == Some(b2.first().1));
                    assert(first_match(bucket, kv2) == Some(bucket.first().1));
                } else {
                    assert(first_match(b2.drop_first(), kv2) == first_match(
                        bucket.drop_first(),
                        kv2,
                    ));
                    assert(first_match(b2, kv2) == first_match(b2.drop_first(), kv2));
                    assert(first_match(bucket, kv2) == first_match(bucket.drop_first(), kv2));
                }
            }
        }
    }

    /// Returns a mutable handle to the first value stored under the key,
    /// if any. The table afterwards holds whatever the caller wrote
    /// through the handle, under the same key; everything else is
    /// untouched.
    pub fn get_mut(&mut self, key: &K) -> (r: Option<&mut V>)
        requires
            old(self).wf(),
        ensures
            old(self).spec_get(key@) is None ==> r is None && *final(self) == *old(self),
            old(self).spec_get(key@) is Some ==> {
                &&& r is Some
                &&& *r.unwrap() == old(self).spec_get(key@).unwrap()
                &&& final(self).wf()
                &&& final(self).capacity() == old(self).capacity()
                &&& final(self).spec_get(key@) == Some(*final(r.unwrap()))
                &&& forall|kv: <K as View>::V|
                    kv != key@ ==> #[trigger] final(self).spec_get(kv) == old(self).spec_get(kv)
            },
    {
        let h = self.rehash(key.hash());
        let mut found: Option<usize> = None;
        {
            let bucket = &self.items[h];
            proof {
                assert(bucket@.skip(0) =~= bucket@);
            }
            let mut i: usize = 0;
            while i < bucket.len()
                invariant_except_break
                    found is None,
                invariant
                    i <= bucket@.len(),
                    bucket@ == self.buckets()[h as int],
                    h as int == self.bucket_of(key@),
                    self.wf(),
                    first_match(bucket@.skip(i as int), key@) == self.spec_get(key@),
                    forall|j: int| 0 <= j < i ==> bucket@[j].0@ != key@,
                ensures
                    match found {
                        Some(fi) => fi < bucket@.len() && bucket@[fi as int].0@ == key@ && (
                        forall|j: int| 0 <= j < fi ==> bucket@[j].0@ != key@) && self.spec_get(
                            key@,
                        ) == Some(bucket@[fi as int].1),
                        None => self.spec_get(key@) is None,
                    },
                decreases bucket.len() - i,
            {
                if bucket[i].0.key_eq(key) {
                    proof {
                        assert(bucket@.skip(i as int).first() == bucket@[i as int]);
                    }
                    found = Some(i);
                    break ;
                }
                proof {
                    assert(bucket@.skip(i as int).first() == bucket@[i as int]);
                    assert(bucket@.skip(i as int).drop_first() =~= bucket@.skip(i + 1));
                }
                i = i + 1;
            }
        }
        match found {
            None => None,
            Some(i) => {
                let ghost old_table = *self;
                proof {
                    Self::lemma_first_match_update(
                        old_table.buckets()[h as int],
                        i as int,
                        key@,
                    );
                }
                let vref = &mut self.items[h][i].1;
                proof {
                    assert(after_borrow(*self).buckets() =~= old_table.buckets().update(
                        h as int,
                        old_table.buckets()[h as int].update(
                            i as int,
                            (old_table.buckets()[h as int][i as int].0, *final(vref)),
                        ),
                    ));
                }
                Some(vref)
            },
        }
    }

    /// Returns a mutable handle to the value stored under the key,
    /// inserting a default value first when the key is absent. Always
    /// succeeds; a failing re-lookup after the insert would be an
    /// internal-invariant violation, which verification rules out.
    pub fn get_mut_or_default(&mut self, key: &K) -> (r: Result<&mut V, crate::DbError>) where
        V: Default + Clone,

        requires
            old(self).wf(),
        ensures
            r is Ok,
            final(self).wf(),
            final(self).capacity() == old(self).capacity(),
            final(self).spec_get(key@) == Some(*final(r.unwrap())),
            forall|kv: <K as View>::V|
                kv != key@ ==> #[trigger] final(self).spec_get(kv) == old(self).spec_get(kv),
            old(self).contains(key@) ==> *r.unwrap() == old(self).spec_get(key@).unwrap(),
            !old(self).contains(key@) ==> call_ensures(
                <V as Default>::default,
                (),
                *r.unwrap(),
            ),
    {
        if self.contains_key(key) {
            match self.get_mut(key) {
                Some(v) => Ok(v),
                None => Err(crate::DbError::InvariantViolation),
            }
        } else {
            let d: V = Default::default();
            let _ = self.insert(key, d);
            match self.get_mut(key) {
                Some(v) => Ok(v),
                None => Err(crate::DbError::InvariantViolation),
            }
        }
    }

    /// Visits every stored pair, in bucket order and then list order.
    pub fn for_each<F: Fn(&K, &V)>(&self, f: F)
        requires
            self.wf(),
            forall|k: &K, v: &V| #[trigger] call_requires(f, (k, v)),
    {
        let mut i: usize = 0;
        while i < self.items.len()
            invariant
                self.wf(),
                self.items@.len() == self.capacity(),
                forall|k: &K, v: &V| #[trigger] call_requires(f, (k, v)),
            decreases self.items.len() - i,
        {
            let bucket = &self.items[i];
            let mut j: usize = 0;
            while j < bucket.len()
                invariant
                    forall|k: &K, v: &V| #[trigger] call_requires(f, (k, v)),
                decreases bucket.len() - j,
            {
                f(&bucket[j].0, &bucket[j].1);
                j = j + 1;
            }
            i = i + 1;
        }
    }

    /// All stored pairs, by reference, in bucket order and then list
    /// order: position `idx` of the result is entry `idx` of the table.
    pub fn get_pairs(&self) -> (r: Vec<(&K, &V)>)
        requires
            self.wf(),
        ensures
            r@.len() == self.entries().len(),
            forall|idx: int|
                0 <= idx < r@.len() ==> *#[trigger] r@[idx].0 == self.entries()[idx].0
                    && *r@[idx].1 == self.entries()[idx].1,
    {
        let mut r: Vec<(&K, &V)> = Vec::new();
        let mut i: usize = 0;
        proof {
            assert(self.buckets().take(0) =~= Seq::<Seq<(K, V)>>::empty());
        }
        while i < self.items.len()
            invariant
                i <= self.items@.len(),
                self.buckets().len() == self.items@.len(),
                r@.len() == flatten_seqs(self.buckets().take(i as int)).len(),
                forall|idx: int|
                    0 <= idx < r@.len() ==> *#[trigger] r@[idx].0 == flatten_seqs(
                        self.buckets().take(i as int),
                    )[idx].0 && *r@[idx].1 == flatten_seqs(self.buckets().take(i as int))[idx].1,
            decreases self.items.len() - i,
        {
            let ghost prefix = flatten_seqs(self.buckets().take(i as int));
            let bucket = &self.items[i];
            let mut j: usize = 0;
            while j < bucket.len()
                invariant
                    j <= bucket@.len(),
                    bucket@ == self.buckets()[i as int],
                    0 <= i < self.buckets().len(),
                    prefix == flatten_seqs(self.buckets().take(i as int)),
                    r@.len() == prefix.len() + j,
                    forall|idx: int|
                        0 <= idx < prefix.len() ==> *#[trigger] r@[idx].0 == prefix[idx].0
                            && *r@[idx].1 == prefix[idx].1,
                    forall|idx: int|
                        prefix.len() <= idx < r@.len() ==> *#[trigger] r@[idx].0 == bucket@[idx
                            - prefix.len()].0 && *r@[idx].1 == bucket@[idx - prefix.len()].1,
                decreases bucket.len() - j,
            {
                r.push((&bucket[j].0, &bucket[j].1));
                j = j + 1;
            }
            proof {
                assert(self.buckets().take(i + 1).drop_last() =~= self.buckets().take(i as int));
                assert(flatten_seqs(self.buckets().take(i + 1)) == prefix + bucket@);
            }
            i = i + 1;
        }
        proof {
            assert(self.buckets().take(self.buckets().len() as int) =~= self.buckets());
        }
        r
    }
}

} // verus!
