use vstd::prelude::*;
use std::hash::BuildHasher;
use crate::error::CacheError;
use crate::lru_cache::{LruCache, get_entries, has_key, index_of, lemma_index_of, lemma_recent_puts_present, put_all, put_entries, remove_entries, touch, unique_keys};

verus! {

/// Relies on std's `BuildHasher::hash_one`: a hash of the key from a fresh
/// hasher state. A seeded hasher gives different hashes in different processes,
/// so nothing is said of the result.
#[verifier::external_body]
fn hash_key<S: BuildHasher>(hasher: &S, key: &u64) -> (r: u64) {
    hasher.hash_one(key)
}

/// The shard that a key with hash `hash` belongs to, among `n` shards.
pub fn shard_index(hash: u64, n: usize) -> (r: usize)
    requires
        n > 0,
    ensures
        r == hash as int % n as int,
        r < n,
{
    (hash % (n as u64)) as usize
}

/// Shard `i` of `before` took `value` under `key` as `LruCache::put` does, giving
/// `after`, with `r` the value replaced; every other shard is as it was.
pub open spec fn put_in_shard<V>(
    before: Seq<Seq<(u64, V)>>,
    after: Seq<Seq<(u64, V)>>,
    cap: nat,
    i: int,
    key: u64,
    value: V,
    r: Option<V>,
) -> bool {
    let s = before[i];
    &&& after == before.update(i, put_entries(s, cap, key, value))
    &&& has_key(s, key) ==> r == Some(s[index_of(s, key)].1)
    &&& !has_key(s, key) ==> r is None
}

/// Every shard but shard `i` is the same in `before` and `after`.
pub open spec fn others_unchanged<V>(before: Seq<Seq<(u64, V)>>, after: Seq<Seq<(u64, V)>>, i: int) -> bool {
    &&& 0 <= i < before.len()
    &&& after == before.update(i, after[i])
}

/// Shard `i` of `before` answered `get(key)` with `r`, giving `after`.
pub open spec fn get_in_shard<V>(
    before: Seq<Seq<(u64, V)>>,
    after: Seq<Seq<(u64, V)>>,
    i: int,
    key: u64,
    r: Option<&V>,
) -> bool {
    let s = before[i];
    &&& others_unchanged(before, after, i)
    &&& after[i] == get_entries(s, key)
    &&& has_key(s, key) ==> r == Some(&s[index_of(s, key)].1)
    &&& !has_key(s, key) ==> r is None
}

/// Shard `i` of `before` answered `remove(key)` with `r`, giving `after`.
pub open spec fn remove_in_shard<V>(
    before: Seq<Seq<(u64, V)>>,
    after: Seq<Seq<(u64, V)>>,
    i: int,
    key: u64,
    r: Option<V>,
) -> bool {
    let s = before[i];
    &&& others_unchanged(before, after, i)
    &&& after[i] == remove_entries(s, key)
    &&& has_key(s, key) ==> r == Some(s[index_of(s, key)].1)
    &&& !has_key(s, key) ==> r is None
}

/// Shard `i` of `before` answered `get_or_insert(key, f)` with `r`, giving `after`.
pub open spec fn get_or_insert_in_shard<V, F: FnOnce(&u64) -> Result<V, CacheError>>(
    before: Seq<Seq<(u64, V)>>,
    after: Seq<Seq<(u64, V)>>,
    cap: nat,
    i: int,
    key: u64,
    f: F,
    r: Result<&V, CacheError>,
) -> bool {
    let s = before[i];
    &&& others_unchanged(before, after, i)
    &&& has_key(s, key) ==> after[i] == touch(s, index_of(s, key)) && r == Ok::<&V, CacheError>(&s[index_of(s, key)].1)
    &&& !has_key(s, key) ==> exists|out: Result<V, CacheError>| {
        &&& #[trigger] f.ensures((&key,), out)
        &&& match out {
            Ok(v) => after[i] == put_entries(s, cap, key, v) && r == Ok::<&V, CacheError>(&v),
            Err(e) => after[i] == s && r == Err::<&V, CacheError>(e),
        }
    }
}

/// The shards after storing `v(k)` under each key `k` of `ks` in turn, each in
/// shard `h(k) mod S` for `S` shards of capacity `cap`.
pub open spec fn put_all_sharded<V>(
    ss: Seq<Seq<(u64, V)>>,
    cap: nat,
    ks: Seq<u64>,
    v: spec_fn(u64) -> V,
    h: spec_fn(u64) -> u64,
) -> Seq<Seq<(u64, V)>>
    decreases ks.len(),
{
    if ks.len() == 0 {
        ss
    } else {
        let prev = put_all_sharded(ss, cap, ks.drop_last(), v, h);
        let k = ks.last();
        let i = h(k) as int % ss.len() as int;
        prev.update(i, put_entries(prev[i], cap, k, v(k)))
    }
}

/// The keys of `ks` that hash to shard `i` of `n`, in order.
pub open spec fn keys_of_shard(ks: Seq<u64>, h: spec_fn(u64) -> u64, n: nat, i: int) -> Seq<u64> {
    ks.filter(|k: u64| h(k) as int % n as int == i)
}

/// Under a series of puts, each shard ends as a single cache would that was
/// given, in order, the puts of exactly the keys that hash to it.
pub proof fn lemma_sharded_puts<V>(
    ss: Seq<Seq<(u64, V)>>,
    cap: nat,
    ks: Seq<u64>,
    v: spec_fn(u64) -> V,
    h: spec_fn(u64) -> u64,
    i: int,
)
    requires
        ss.len() > 0,
        0 <= i < ss.len(),
    ensures
        put_all_sharded(ss, cap, ks, v, h).len() == ss.len(),
        put_all_sharded(ss, cap, ks, v, h)[i] == put_all(ss[i], cap, keys_of_shard(ks, h, ss.len(), i), v),
    decreases ks.len(),
{
    reveal(Seq::filter);
    let f = keys_of_shard(ks, h, ss.len(), i);
    if ks.len() > 0 {
        lemma_sharded_puts(ss, cap, ks.drop_last(), v, h, i);
        let pf = keys_of_shard(ks.drop_last(), h, ss.len(), i);
        let k = ks.last();
        if h(k) as int % ss.len() as int == i {
            assert(f == pf.push(k));
            assert(f.drop_last() =~= pf);
        } else {
            assert(f == pf);
        }
    }
}

/// Where at most `cap` of a series of keys hash to a shard, every one of them is
/// in that shard after the puts, with the value stored for it.
pub proof fn lemma_sharded_recent_present<V>(
    ss: Seq<Seq<(u64, V)>>,
    cap: nat,
    ks: Seq<u64>,
    v: spec_fn(u64) -> V,
    h: spec_fn(u64) -> u64,
    i: int,
)
    requires
        ss.len() > 0,
        0 <= i < ss.len(),
        cap >= 1,
        unique_keys(ss[i]),
        ss[i].len() <= cap,
        keys_of_shard(ks, h, ss.len(), i).len() <= cap,
    ensures
        forall|j: int| 0 <= j < keys_of_shard(ks, h, ss.len(), i).len() ==> #[trigger] has_key(
            put_all_sharded(ss, cap, ks, v, h)[i],
            keys_of_shard(ks, h, ss.len(), i)[j],
        ) && put_all_sharded(ss, cap, ks, v, h)[i][index_of(
            put_all_sharded(ss, cap, ks, v, h)[i],
            keys_of_shard(ks, h, ss.len(), i)[j],
        )].1 == v(keys_of_shard(ks, h, ss.len(), i)[j]),
{
    lemma_sharded_puts(ss, cap, ks, v, h, i);
    lemma_recent_puts_present(ss[i], cap, keys_of_shard(ks, h, ss.len(), i), v);
}

/// A cache split into shards, each an `LruCache` of equal capacity. A key lives
/// in the shard that its hash selects.
pub struct ShardingLruCache<V, S> {
    sharding_vec: Vec<LruCache<V>>,
    hasher: S,
}

impl<V, S> View for ShardingLruCache<V, S> {
    type V = Seq<Seq<(u64, V)>>;

    closed spec fn view(&self) -> Seq<Seq<(u64, V)>> {
        self.sharding_vec@.map_values(|c: LruCache<V>| c@)
    }
}

impl<V, S: BuildHasher> ShardingLruCache<V, S> {
    /// The capacity of each shard.
    pub closed spec fn shard_capacity(&self) -> nat {
        self.sharding_vec@[0].capacity()
    }

    pub closed spec fn wf(&self) -> bool {
        &&& self.sharding_vec@.len() >= 1
        &&& forall|i: int| 0 <= i < self.sharding_vec@.len() ==> (#[trigger] self.sharding_vec@[i]).wf()
            && self.sharding_vec@[i].capacity() == self.shard_capacity()
    }

    /// A cache of total capacity `cap` in `sharding_size` shards of equal capacity.
    /// A capacity that the shards cannot share equally is refused, and so is a
    /// capacity of zero.
    pub fn new(cap: usize, sharding_size: usize, hasher: S) -> (r: Result<Self, CacheError>)
        requires
            sharding_size > 0,
        ensures
            cap % sharding_size != 0 ==> r == Err::<Self, CacheError>(CacheError::ShardingNotAlign),
            cap % sharding_size == 0 && cap == 0 ==> r == Err::<Self, CacheError>(CacheError::CacheSizeOverFlow),
            cap % sharding_size == 0 && cap > 0 ==> (r matches Ok(c) && c.wf()
                && c@.len() == sharding_size
                && c.shard_capacity() == cap / sharding_size
                && forall|i: int| 0 <= i < sharding_size ==> (#[trigger] c@[i]).len() == 0),
    {
        if cap % sharding_size != 0 {
            return Err(CacheError::ShardingNotAlign);
        }
        let sharding_cap = cap / sharding_size;
        proof {
            vstd::arithmetic::div_mod::lemma_fundamental_div_mod(cap as int, sharding_size as int);
            assert(sharding_cap == 0 ==> cap == 0) by (nonlinear_arith)
                requires cap == sharding_size * sharding_cap + 0;
        }
        let mut sharding_vec: Vec<LruCache<V>> = Vec::new();
        let mut i: usize = 0;
        while i < sharding_size
            invariant
                i <= sharding_size,
                sharding_cap == cap / sharding_size,
                cap % sharding_size == 0,
                sharding_cap == 0 <==> cap == 0,
                i > 0 ==> cap > 0,
                sharding_vec@.len() == i,
                forall|j: int| 0 <= j < i ==> (#[trigger] sharding_vec@[j]).wf()
                    && sharding_vec@[j].capacity() == sharding_cap
                    && sharding_vec@[j]@.len() == 0,
            decreases sharding_size - i,
        {
            match LruCache::new(sharding_cap) {
                Ok(shard) => sharding_vec.push(shard),
                Err(e) => return Err(e),
            }
            i = i + 1;
        }
        let r = ShardingLruCache { sharding_vec, hasher };
        assert forall|i: int| 0 <= i < sharding_size implies (#[trigger] r@[i]).len() == 0 by {
            assert(r@[i] == r.sharding_vec@[i]@);
        }
        Ok(r)
    }

    /// The number of shards.
    pub fn sharding_size(&self) -> (r: usize)
        ensures
            r == self@.len(),
    {
        self.sharding_vec.len()
    }

    /// Stores `value` under `key` in the shard selected by `hash`, as `LruCache::put`
    /// does; the other shards are left as they were.
    pub fn put_hashed(&mut self, hash: u64, key: u64, value: V) -> (r: Option<V>)
        requires
            old(self).wf(),
        ensures
            final(self).wf(),
            final(self).shard_capacity() == old(self).shard_capacity(),
            put_in_shard(old(self)@, final(self)@, old(self).shard_capacity(), hash as int % old(self)@.len() as int, key, value, r),
    {
        let i = shard_index(hash, self.sharding_vec.len());
        assert(self.sharding_vec@[i as int].wf());
        let r = self.sharding_vec[i].put(key, value);
        proof {
            assert(self@ =~= old(self)@.update(i as int, self.sharding_vec@[i as int]@));
            assert forall|j: int| 0 <= j < self.sharding_vec@.len() implies (#[trigger] self.sharding_vec@[j]).wf()
                && self.sharding_vec@[j].capacity() == self.shard_capacity() by {
                if j != i {
                    assert(self.sharding_vec@[j] == old(self).sharding_vec@[j]);
                }
                assert(old(self).sharding_vec@[0].capacity() == old(self).sharding_vec@[i as int].capacity());
                if i != 0 {
                    assert(self.sharding_vec@[0] == old(self).sharding_vec@[0]);
                }
            }
        }
        r
    }

    /// Stores `value` under `key` in the shard that the hash of `key` selects.
    pub fn put(&mut self, key: u64, value: V) -> (r: Option<V>)
        requires
            old(self).wf(),
        ensures
            final(self).wf(),
            final(self).shard_capacity() == old(self).shard_capacity(),
            exists|i: int| 0 <= i < old(self)@.len() && #[trigger] put_in_shard(old(self)@, final(self)@, old(self).shard_capacity(), i, key, value, r),
    {
        let h = hash_key(&self.hasher, &key);
        let r = self.put_hashed(h, key, value);
        assert(0 <= (h as int) % (old(self)@.len() as int) < old(self)@.len());
        r
    }

    proof fn lemma_shard_replaced(&self, old_self: Self, i: int)
        requires
            old_self.wf(),
            0 <= i < old_self.sharding_vec@.len(),
            self.sharding_vec@ == old_self.sharding_vec@.update(i, self.sharding_vec@[i]),
            self.sharding_vec@[i].wf(),
            self.sharding_vec@[i].capacity() == old_self.sharding_vec@[i].capacity(),
        ensures
            self.wf(),
            self.shard_capacity() == old_self.shard_capacity(),
            self@ == old_self@.update(i, self@[i]),
            self@[i] == self.sharding_vec@[i]@,
            old_self@[i] == old_self.sharding_vec@[i]@,
    {
        assert(self@ =~= old_self@.update(i, self@[i]));
        assert(old_self.sharding_vec@[0].capacity() == old_self.sharding_vec@[i].capacity());
        if i != 0 {
            assert(self.sharding_vec@[0] == old_self.sharding_vec@[0]);
        }
        assert forall|j: int| 0 <= j < self.sharding_vec@.len() implies (#[trigger] self.sharding_vec@[j]).wf()
            && self.sharding_vec@[j].capacity() == self.shard_capacity() by {
            if j != i {
                assert(self.sharding_vec@[j] == old_self.sharding_vec@[j]);
            }
        }
    }

    /// The value under `key` in its shard, which it promotes to the most recent.
    pub fn get(&mut self, key: &u64) -> (r: Option<&V>)
        requires
            old(self).wf(),
        ensures
            final(self).wf(),
            final(self).shard_capacity() == old(self).shard_capacity(),
            exists|i: int| #[trigger] get_in_shard(old(self)@, final(self)@, i, *key, r),
    {
        let h = hash_key(&self.hasher, key);
        self.get_hashed(h, key)
    }

    /// Removes the entry for `key` from its shard, and returns its value.
    pub fn remove(&mut self, key: &u64) -> (r: Option<V>)
        requires
            old(self).wf(),
        ensures
            final(self).wf(),
            final(self).shard_capacity() == old(self).shard_capacity(),
            exists|i: int| #[trigger] remove_in_shard(old(self)@, final(self)@, i, *key, r),
    {
        let h = hash_key(&self.hasher, key);
        self.remove_hashed(h, key)
    }

    /// The value for `key` in its shard, made by `fn_once` on a miss, as
    /// `LruCache::get_or_insert` does.
    pub fn get_or_insert<F>(&mut self, key: u64, fn_once: F) -> (r: Result<&V, CacheError>)
        where
            F: FnOnce(&u64) -> Result<V, CacheError>,
        requires
            old(self).wf(),
            fn_once.requires((&key,)),
        ensures
            final(self).wf(),
            final(self).shard_capacity() == old(self).shard_capacity(),
            exists|i: int| #[trigger] get_or_insert_in_shard(old(self)@, final(self)@, old(self).shard_capacity(), i, key, fn_once, r),
    {
        let h = hash_key(&self.hasher, &key);
        self.get_or_insert_hashed(h, key, fn_once)
    }

    /// The value under `key` in the shard selected by `hash`, which it promotes to
    /// the most recent.
    pub fn get_hashed(&mut self, hash: u64, key: &u64) -> (r: Option<&V>)
        requires
            old(self).wf(),
        ensures
            final(self).wf(),
            final(self).shard_capacity() == old(self).shard_capacity(),
            get_in_shard(old(self)@, final(self)@, hash as int % old(self)@.len() as int, *key, r),
    {
        let i = shard_index(hash, self.sharding_vec.len());
        assert(self.sharding_vec@[i as int].wf());
        let hit = self.sharding_vec[i].promote(key);
        proof {
            self.lemma_shard_replaced(*old(self), i as int);
            if hit {
                lemma_index_of(self@[i as int], self@[i as int].len() - 1);
            }
        }
        let r = self.sharding_vec[i].peek(key);
        assert(get_in_shard(old(self)@, self@, i as int, *key, r));
        r
    }

    /// Removes the entry for `key` from the shard selected by `hash`, and returns
    /// its value.
    pub fn remove_hashed(&mut self, hash: u64, key: &u64) -> (r: Option<V>)
        requires
            old(self).wf(),
        ensures
            final(self).wf(),
            final(self).shard_capacity() == old(self).shard_capacity(),
            remove_in_shard(old(self)@, final(self)@, hash as int % old(self)@.len() as int, *key, r),
    {
        let i = shard_index(hash, self.sharding_vec.len());
        assert(self.sharding_vec@[i as int].wf());
        let r = self.sharding_vec[i].remove(key);
        proof {
            self.lemma_shard_replaced(*old(self), i as int);
            assert(remove_in_shard(old(self)@, self@, i as int, *key, r));
        }
        r
    }

    /// The value for `key` in the shard selected by `hash`, made by `fn_once` on a
    /// miss, as `LruCache::get_or_insert` does.
    pub fn get_or_insert_hashed<F>(&mut self, hash: u64, key: u64, fn_once: F) -> (r: Result<&V, CacheError>)
        where
            F: FnOnce(&u64) -> Result<V, CacheError>,
        requires
            old(self).wf(),
            fn_once.requires((&key,)),
        ensures
            final(self).wf(),
            final(self).shard_capacity() == old(self).shard_capacity(),
            get_or_insert_in_shard(old(self)@, final(self)@, old(self).shard_capacity(), hash as int % old(self)@.len() as int, key, fn_once, r),
    {
        let i = shard_index(hash, self.sharding_vec.len());
        assert(self.sharding_vec@[i as int].wf());
        let filled = self.sharding_vec[i].fill(key, fn_once);
        proof {
            self.lemma_shard_replaced(*old(self), i as int);
            assert(old(self).sharding_vec@[i as int].capacity() == old(self).shard_capacity());
            let s = old(self)@[i as int];
            if filled is Ok {
                lemma_index_of(self@[i as int], self@[i as int].len() - 1);
                assert(self@[i as int][self@[i as int].len() - 1].0 == key);
                assert(has_key(self.sharding_vec@[i as int]@, key));
            }
        }
        let r = match filled {
            Ok(()) => Ok(self.sharding_vec[i].peek(&key).unwrap()),
            Err(e) => Err(e),
        };
        assert(get_or_insert_in_shard(old(self)@, self@, old(self).shard_capacity(), i as int, key, fn_once, r));
        r
    }

    /// Whether every shard is empty.
    pub fn is_empty(&self) -> (r: bool)
        ensures
            r == forall|i: int| 0 <= i < self@.len() ==> (#[trigger] self@[i]).len() == 0,
    {
        let mut i: usize = 0;
        while i < self.sharding_vec.len()
            invariant
                i <= self.sharding_vec@.len(),
                self@.len() == self.sharding_vec@.len(),
                forall|j: int| 0 <= j < i ==> (#[trigger] self@[j]).len() == 0,
            decreases self.sharding_vec.len() - i,
        {
            assert(self@[i as int] == self.sharding_vec@[i as int]@);
            if !self.sharding_vec[i].is_empty() {
                return false;
            }
            i = i + 1;
        }
        true
    }

    /// The shards, in order, and the hasher that selects among them.
    pub fn into_shards(self) -> (r: (Vec<LruCache<V>>, S))
        requires
            self.wf(),
        ensures
            r.0@.len() == self@.len(),
            forall|i: int| 0 <= i < r.0@.len() ==> (#[trigger] r.0@[i]).wf() && r.0@[i]@ == self@[i]
                && r.0@[i].capacity() == self.shard_capacity(),
    {
        (self.sharding_vec, self.hasher)
    }
}

} // verus!
