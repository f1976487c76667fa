use vstd::prelude::*;
use crate::error::CacheError;

verus! {

/// One cached entry.
pub struct Node<V> {
    pub key: u64,
    pub value: V,
}

impl<V> Node<V> {
    pub fn new(key: u64, value: V) -> (r: Node<V>)
        ensures
            r.key == key,
            r.value == value,
    {
        Node { key, value }
    }
}

/// A bounded cache that evicts the least recently used entry.
///
/// Entries are kept in order of use: the least recently used first, the most
/// recently used last. Each key appears at most once.
pub struct LruCache<V> {
    entries: Vec<Node<V>>,
    cap: usize,
}

/// Whether some entry has key `k`.
pub open spec fn has_key<V>(s: Seq<(u64, V)>, k: u64) -> bool {
    exists|i: int| 0 <= i < s.len() && #[trigger] s[i].0 == k
}

/// The position of the entry with key `k`, where there is one.
pub open spec fn index_of<V>(s: Seq<(u64, V)>, k: u64) -> int {
    choose|i: int| 0 <= i < s.len() && #[trigger] s[i].0 == k
}

pub open spec fn unique_keys<V>(s: Seq<(u64, V)>) -> bool {
    forall|i: int, j: int| 0 <= i < s.len() && 0 <= j < s.len() && #[trigger] s[i].0 == #[trigger] s[j].0 ==> i == j
}

/// The entries after a use of the entry at position `i`: it becomes the most recent.
pub open spec fn touch<V>(s: Seq<(u64, V)>, i: int) -> Seq<(u64, V)> {
    s.remove(i).push(s[i])
}

/// The entries after storing `v` under `k` in a cache of capacity `cap`: an entry
/// for `k` is replaced; otherwise, when the cache is full, the least recently used
/// entry is evicted. The new entry is the most recent.
pub open spec fn put_entries<V>(s: Seq<(u64, V)>, cap: nat, k: u64, v: V) -> Seq<(u64, V)> {
    if has_key(s, k) {
        s.remove(index_of(s, k)).push((k, v))
    } else if s.len() >= cap {
        s.drop_first().push((k, v))
    } else {
        s.push((k, v))
    }
}

/// The entries after a lookup of `k`: a hit becomes the most recent.
pub open spec fn get_entries<V>(s: Seq<(u64, V)>, k: u64) -> Seq<(u64, V)> {
    if has_key(s, k) {
        touch(s, index_of(s, k))
    } else {
        s
    }
}

/// The entries after removing the entry for `k`, where there is one.
pub open spec fn remove_entries<V>(s: Seq<(u64, V)>, k: u64) -> Seq<(u64, V)> {
    if has_key(s, k) {
        s.remove(index_of(s, k))
    } else {
        s
    }
}

pub proof fn lemma_index_of<V>(s: Seq<(u64, V)>, i: int)
    requires
        unique_keys(s),
        0 <= i < s.len(),
    ensures
        has_key(s, s[i].0),
        index_of(s, s[i].0) == i,
{
    assert(has_key(s, s[i].0));
}

/// The entries after storing `v(k)` under each key `k` of `ks` in turn.
pub open spec fn put_all<V>(s: Seq<(u64, V)>, cap: nat, ks: Seq<u64>, v: spec_fn(u64) -> V) -> Seq<(u64, V)>
    decreases ks.len(),
{
    if ks.len() == 0 {
        s
    } else {
        let k = ks.last();
        put_entries(put_all(s, cap, ks.drop_last(), v), cap, k, v(k))
    }
}

pub open spec fn entry_keys<V>(s: Seq<(u64, V)>) -> Seq<u64> {
    s.map_values(|e: (u64, V)| e.0)
}

/// An entry for `k2` other than `k`, and within `cap` of the most recent end of `s`,
/// is still in `r` with the same value, at most one place further from that end.
pub open spec fn kept_near_end<V>(s: Seq<(u64, V)>, r: Seq<(u64, V)>, cap: nat, k: u64, k2: u64) -> bool {
    k2 != k && has_key(s, k2) && s.len() - index_of(s, k2) < cap ==> {
        &&& has_key(r, k2)
        &&& r.len() - index_of(r, k2) <= s.len() - index_of(s, k2) + 1
        &&& r[index_of(r, k2)].1 == s[index_of(s, k2)].1
    }
}

proof fn lemma_put_step<V>(s: Seq<(u64, V)>, cap: nat, k: u64, v: V, r: Seq<(u64, V)>)
    requires
        unique_keys(s),
        s.len() <= cap,
        cap >= 1,
        r == put_entries(s, cap, k, v),
    ensures
        unique_keys(r),
        r.len() <= cap,
        has_key(r, k),
        index_of(r, k) == r.len() - 1,
        r[r.len() - 1] == (k, v),
        forall|k2: u64| #[trigger] kept_near_end(s, r, cap, k, k2),
{
    let n = r.len() - 1;
    let (t, shift) = if has_key(s, k) {
        (s.remove(index_of(s, k)), index_of(s, k))
    } else if s.len() >= cap {
        (s.drop_first(), 0)
    } else {
        (s, s.len() as int)
    };
    // `t` is what is left of `s`; an entry of `s` at position `j` sits in `t` at
    // `j` before `shift` and at `j - 1` after it, but for the dropped one.
    assert(r == t.push((k, v)));
    assert forall|j: int| 0 <= j < t.len() implies #[trigger] t[j].0 != k by {
        if has_key(s, k) {
            let i = index_of(s, k);
            if j < i {
                assert(t[j] == s[j]);
            } else {
                assert(t[j] == s[j + 1]);
            }
        } else if s.len() >= cap {
            assert(t[j] == s[j + 1]);
        }
    }
    assert forall|i: int, j: int| 0 <= i < r.len() && 0 <= j < r.len() && #[trigger] r[i].0 == #[trigger] r[j].0 implies i == j by {
        if i < n && j < n {
            if has_key(s, k) {
                let x = if i < shift { i } else { i + 1 };
                let y = if j < shift { j } else { j + 1 };
                assert(r[i] == s[x]);
                assert(r[j] == s[y]);
            } else if s.len() >= cap {
                assert(r[i] == s[i + 1]);
                assert(r[j] == s[j + 1]);
            } else {
                assert(r[i] == s[i]);
                assert(r[j] == s[j]);
            }
        } else if i < n {
            assert(r[i] == t[i]);
        } else if j < n {
            assert(r[j] == t[j]);
        }
    }
    assert(r[n].0 == k);
    assert(r.len() <= cap);
    assert(unique_keys(r));
    lemma_index_of(r, n);
    assert(has_key(r, k));
    assert forall|k2: u64| #[trigger] kept_near_end(s, r, cap, k, k2) by {
        let j = index_of(s, k2);
        if !(k2 != k && has_key(s, k2) && s.len() - j < cap) {
        } else if has_key(s, k) {
            let i = index_of(s, k);
            assert(j != i);
            let j2 = if j < i { j } else { j - 1 };
            assert(r[j2] == s[j]);
            lemma_index_of(r, j2);
        } else if s.len() >= cap {
            assert(j >= 1);
            assert(r[j - 1] == s[j]);
            lemma_index_of(r, j - 1);
        } else {
            assert(r[j] == s[j]);
            lemma_index_of(r, j);
        }
    }
}

proof fn lemma_put_all_recent<V>(s: Seq<(u64, V)>, cap: nat, ks: Seq<u64>, v: spec_fn(u64) -> V)
    requires
        unique_keys(s),
        s.len() <= cap,
        cap >= 1,
        ks.len() <= cap,
    ensures
        ({
            let r = put_all(s, cap, ks, v);
            &&& unique_keys(r)
            &&& r.len() <= cap
            &&& forall|j: int| 0 <= j < ks.len() ==> {
                &&& #[trigger] has_key(r, ks[j])
                &&& r.len() - index_of(r, ks[j]) <= ks.len()
                &&& r[index_of(r, ks[j])].1 == v(ks[j])
            }
        }),
    decreases ks.len(),
{
    if ks.len() > 0 {
        let p = ks.drop_last();
        let k = ks.last();
        lemma_put_all_recent(s, cap, p, v);
        let m = put_all(s, cap, p, v);
        lemma_put_step(m, cap, k, v(k), put_entries(m, cap, k, v(k)));
        let r = put_all(s, cap, ks, v);
        assert(r == put_entries(m, cap, k, v(k)));
        assert forall|j: int| 0 <= j < ks.len() implies {
            &&& #[trigger] has_key(r, ks[j])
            &&& r.len() - index_of(r, ks[j]) <= ks.len()
            &&& r[index_of(r, ks[j])].1 == v(ks[j])
        } by {
            if j < ks.len() - 1 && ks[j] != k {
                assert(p[j] == ks[j]);
                assert(has_key(m, p[j]));
                assert(kept_near_end(m, r, cap, k, ks[j]));
            }
        }
    }
}

/// Storing at most `capacity` keys one after another, in a well-formed cache,
/// leaves every one of them in the cache, with the value stored for it.
pub proof fn lemma_recent_puts_present<V>(s: Seq<(u64, V)>, cap: nat, ks: Seq<u64>, v: spec_fn(u64) -> V)
    requires
        unique_keys(s),
        s.len() <= cap,
        cap >= 1,
        ks.len() <= cap,
    ensures
        forall|j: int| 0 <= j < ks.len() ==> #[trigger] has_key(put_all(s, cap, ks, v), ks[j])
            && put_all(s, cap, ks, v)[index_of(put_all(s, cap, ks, v), ks[j])].1 == v(ks[j]),
{
    lemma_put_all_recent(s, cap, ks, v);
    let r = put_all(s, cap, ks, v);
    assert forall|j: int| 0 <= j < ks.len() implies #[trigger] has_key(r, ks[j]) && r[index_of(r, ks[j])].1 == v(ks[j]) by {}
}

proof fn lemma_fill_distinct<V>(cap: nat, ks: Seq<u64>, v: spec_fn(u64) -> V)
    requires
        cap >= 1,
        ks.len() <= cap,
        ks.no_duplicates(),
    ensures
        entry_keys(put_all(Seq::<(u64, V)>::empty(), cap, ks, v)) == ks,
        unique_keys(put_all(Seq::<(u64, V)>::empty(), cap, ks, v)),
    decreases ks.len(),
{
    let e = Seq::<(u64, V)>::empty();
    if ks.len() == 0 {
        assert(entry_keys(e) =~= ks);
    } else {
        let p = ks.drop_last();
        let k = ks.last();
        assert(p.no_duplicates());
        lemma_fill_distinct(cap, p, v);
        let m = put_all(e, cap, p, v);
        assert(!has_key(m, k)) by {
            if has_key(m, k) {
                let i = choose|i: int| 0 <= i < m.len() && #[trigger] m[i].0 == k;
                assert(entry_keys(m)[i] == k);
                assert(ks[i] == ks[ks.len() - 1]);
            }
        }
        lemma_put_step(m, cap, k, v(k), put_entries(m, cap, k, v(k)));
        assert(m.len() == p.len());
        assert(put_all(e, cap, ks, v) == m.push((k, v(k))));
        assert(entry_keys(m.push((k, v(k)))) =~= entry_keys(m).push(k));
        assert(ks =~= p.push(k));
    }
}

/// From an empty cache, storing `capacity + 1` distinct keys evicts exactly one
/// key, the first stored: the least recently used.
pub proof fn lemma_overflow_evicts_oldest<V>(cap: nat, ks: Seq<u64>, v: spec_fn(u64) -> V)
    requires
        cap >= 1,
        ks.len() == cap + 1,
        ks.no_duplicates(),
    ensures
        entry_keys(put_all(Seq::<(u64, V)>::empty(), cap, ks, v)) == ks.drop_first(),
{
    let e = Seq::<(u64, V)>::empty();
    let p = ks.drop_last();
    let k = ks.last();
    assert(p.no_duplicates());
    lemma_fill_distinct(cap, p, v);
    let m = put_all(e, cap, p, v);
    assert(!has_key(m, k)) by {
        if has_key(m, k) {
            let i = choose|i: int| 0 <= i < m.len() && #[trigger] m[i].0 == k;
            assert(entry_keys(m)[i] == k);
            assert(ks[i] == ks[ks.len() - 1]);
        }
    }
    assert(m.len() == p.len());
    assert(put_all(e, cap, ks, v) == m.drop_first().push((k, v(k))));
    assert(entry_keys(m.drop_first().push((k, v(k)))) =~= entry_keys(m).drop_first().push(k));
    assert(ks.drop_first() =~= p.drop_first().push(k));
}

impl<V> View for LruCache<V> {
    type V = Seq<(u64, V)>;

    closed spec fn view(&self) -> Seq<(u64, V)> {
        self.entries@.map_values(|n: Node<V>| (n.key, n.value))
    }
}

impl<V> LruCache<V> {
    pub closed spec fn capacity(&self) -> nat {
        self.cap as nat
    }

    pub open spec fn wf(&self) -> bool {
        &&& unique_keys(self@)
        &&& self@.len() <= self.capacity()
        &&& self.capacity() >= 1
    }

    /// An empty cache of capacity `cap`; a capacity of zero is refused.
    pub fn new(cap: usize) -> (r: Result<LruCache<V>, CacheError>)
        ensures
            cap == 0 <==> r == Err::<LruCache<V>, CacheError>(CacheError::CacheSizeOverFlow),
            cap > 0 <==> r is Ok,
            r is Ok ==> r->Ok_0.wf() && r->Ok_0@ == Seq::<(u64, V)>::empty() && r->Ok_0.capacity() == cap,
    {
        if cap < 1 {
            return Err(CacheError::CacheSizeOverFlow);
        }
        let r = LruCache { entries: Vec::new(), cap };
        assert(r@ =~= Seq::<(u64, V)>::empty());
        Ok(r)
    }

    /// The position of the entry for `key`.
    fn find(&self, key: u64) -> (r: Option<usize>)
        requires
            self.wf(),
        ensures
            match r {
                Some(i) => i < self@.len() && index_of(self@, key) == i && has_key(self@, key),
                None => !has_key(self@, key),
            },
    {
        let mut i: usize = 0;
        while i < self.entries.len()
            invariant
                i <= self.entries@.len(),
                self@.len() == self.entries@.len(),
                self.wf(),
                forall|j: int| 0 <= j < i ==> #[trigger] self@[j].0 != key,
            decreases self.entries.len() - i,
        {
            assert(self@[i as int].0 == self.entries@[i as int].key);
            if self.entries[i].key == key {
                proof {
                    lemma_index_of(self@, i as int);
                }
                return Some(i);
            }
            i = i + 1;
        }
        None
    }

    /// Takes the entry at position `i` out of the order of use.
    fn detach(&mut self, i: usize) -> (r: Node<V>)
        requires
            old(self).wf(),
            i < old(self)@.len(),
        ensures
            final(self)@ == old(self)@.remove(i as int),
            (r.key, r.value) == old(self)@[i as int],
            final(self).capacity() == old(self).capacity(),
            final(self).wf(),
    {
        let r = self.entries.remove(i);
        assert(self@ =~= old(self)@.remove(i as int));
        r
    }

    /// Puts a node at the most recent end of the order of use.
    fn attach(&mut self, node: Node<V>)
        requires
            unique_keys(old(self)@),
            !has_key(old(self)@, node.key),
            old(self)@.len() < old(self).capacity(),
            old(self).capacity() >= 1,
        ensures
            final(self)@ == old(self)@.push((node.key, node.value)),
            final(self).capacity() == old(self).capacity(),
            final(self).wf(),
    {
        let ghost k = node.key;
        self.entries.push(node);
        assert(self@ =~= old(self)@.push((k, self@.last().1)));
        assert forall|i: int, j: int| 0 <= i < self@.len() && 0 <= j < self@.len() && #[trigger] self@[i].0 == #[trigger] self@[j].0 implies i == j by {
            if i < old(self)@.len() && j == old(self)@.len() {
                assert(old(self)@[i].0 == k);
            }
            if j < old(self)@.len() && i == old(self)@.len() {
                assert(old(self)@[j].0 == k);
            }
        }
    }

    /// Evicts the least recently used entry when the cache is full.
    pub fn expulsion(&mut self)
        requires
            old(self).wf(),
        ensures
            final(self).wf(),
            final(self).capacity() == old(self).capacity(),
            old(self)@.len() > 0 && old(self)@.len() >= old(self).capacity() ==> final(self)@ == old(self)@.drop_first(),
            !(old(self)@.len() > 0 && old(self)@.len() >= old(self).capacity()) ==> final(self)@ == old(self)@,
    {
        if self.entries.len() > 0 && self.entries.len() >= self.cap {
            let _evicted = self.detach(0);
            assert(old(self)@.remove(0) =~= old(self)@.drop_first());
        }
    }

    /// Stores `value` under `key` as the most recently used entry, and returns the
    /// value it replaces.
    pub fn put(&mut self, key: u64, value: V) -> (r: Option<V>)
        requires
            old(self).wf(),
        ensures
            final(self).wf(),
            final(self).capacity() == old(self).capacity(),
            final(self)@ == put_entries(old(self)@, old(self).capacity(), key, value),
            has_key(old(self)@, key) ==> r == Some(old(self)@[index_of(old(self)@, key)].1),
            !has_key(old(self)@, key) ==> r is None,
    {
        let old_value = match self.find(key) {
            Some(i) => {
                let n = self.detach(i);
                Some(n.value)
            },
            None => None,
        };
        proof {
            if has_key(old(self)@, key) {
                let i = index_of(old(self)@, key);
                assert forall|j: int| 0 <= j < self@.len() implies #[trigger] self@[j].0 != key by {
                    if j < i {
                        assert(self@[j] == old(self)@[j]);
                    } else {
                        assert(self@[j] == old(self)@[j + 1]);
                    }
                }
            }
        }
        let ghost mid = self@;
        self.expulsion();
        proof {
            if mid.len() > 0 && mid.len() >= self.capacity() {
                assert forall|j: int| 0 <= j < self@.len() implies #[trigger] self@[j].0 != key by {
                    assert(self@[j] == mid[j + 1]);
                }
            }
        }
        self.attach(Node::new(key, value));
        old_value
    }

    /// Promotes the entry for `key` to the most recently used, and returns it.
    pub fn get_node(&mut self, key: &u64) -> (r: Option<&Node<V>>)
        requires
            old(self).wf(),
        ensures
            final(self).wf(),
            final(self).capacity() == old(self).capacity(),
            has_key(old(self)@, *key) ==> {
                let i = index_of(old(self)@, *key);
                &&& final(self)@ == touch(old(self)@, i)
                &&& r matches Some(n) && n.key == *key && n.value == old(self)@[i].1
            },
            !has_key(old(self)@, *key) ==> final(self)@ == old(self)@ && r is None,
    {
        match self.find(*key) {
            Some(i) => {
                let n = self.detach(i);
                proof {
                    let k = *key;
                    assert forall|j: int| 0 <= j < self@.len() implies #[trigger] self@[j].0 != k by {
                        if j < i {
                            assert(self@[j] == old(self)@[j]);
                        } else {
                            assert(self@[j] == old(self)@[j + 1]);
                        }
                    }
                }
                self.attach(n);
                let last = self.entries.len() - 1;
                assert(self@[last as int] == (self.entries@[last as int].key, self.entries@[last as int].value));
                Some(&self.entries[last])
            },
            None => None,
        }
    }

    /// The value under `key`, which becomes the most recently used entry.
    pub fn get(&mut self, key: &u64) -> (r: Option<&V>)
        requires
            old(self).wf(),
        ensures
            final(self).wf(),
            final(self).capacity() == old(self).capacity(),
            has_key(old(self)@, *key) ==> {
                let i = index_of(old(self)@, *key);
                &&& final(self)@ == touch(old(self)@, i)
                &&& r == Some(&old(self)@[i].1)
            },
            !has_key(old(self)@, *key) ==> final(self)@ == old(self)@ && r is None,
    {
        match self.get_node(key) {
            Some(n) => Some(&n.value),
            None => None,
        }
    }

    /// Removes the entry for `key`, and returns its value.
    pub fn remove(&mut self, key: &u64) -> (r: Option<V>)
        requires
            old(self).wf(),
        ensures
            final(self).wf(),
            final(self).capacity() == old(self).capacity(),
            final(self)@ == remove_entries(old(self)@, *key),
            has_key(old(self)@, *key) ==> r == Some(old(self)@[index_of(old(self)@, *key)].1),
            !has_key(old(self)@, *key) ==> r is None,
    {
        match self.find(*key) {
            Some(i) => {
                let n = self.detach(i);
                Some(n.value)
            },
            None => None,
        }
    }

    /// The entry for `key`, promoted to the most recently used; on a miss the value
    /// is made by `fn_once` and stored as by `put`. A failure of `fn_once` is passed
    /// on and leaves the cache as it was.
    pub fn get_or_insert_node<F>(&mut self, key: u64, fn_once: F) -> (r: Result<&Node<V>, CacheError>)
        where
            F: FnOnce(&u64) -> Result<V, CacheError>,
        requires
            old(self).wf(),
            fn_once.requires((&key,)),
        ensures
            final(self).wf(),
            final(self).capacity() == old(self).capacity(),
            has_key(old(self)@, key) ==> {
                let i = index_of(old(self)@, key);
                &&& final(self)@ == touch(old(self)@, i)
                &&& r matches Ok(n) && n.key == key && n.value == old(self)@[i].1
            },
            !has_key(old(self)@, key) ==> exists|out: Result<V, CacheError>| {
                &&& #[trigger] fn_once.ensures((&key,), out)
                &&& match out {
                    Ok(v) => final(self)@ == put_entries(old(self)@, old(self).capacity(), key, v)
                        && (r matches Ok(n) && n.key == key && n.value == v),
                    Err(e) => final(self)@ == old(self)@ && r == Err::<&Node<V>, CacheError>(e),
                }
            },
    {
        if self.find(key).is_some() {
            Ok(self.get_node(&key).unwrap())
        } else {
            let out = fn_once(&key);
            match out {
                Ok(value) => {
                    let _replaced = self.put(key, value);
                    let last = self.entries.len() - 1;
                    assert(self@[last as int] == (self.entries@[last as int].key, self.entries@[last as int].value));
                    Ok(&self.entries[last])
                },
                Err(e) => Err(e),
            }
        }
    }

    /// The value for `key`, as `get_or_insert_node` finds or makes it.
    pub fn get_or_insert<F>(&mut self, key: u64, fn_once: F) -> (r: Result<&V, CacheError>)
        where
            F: FnOnce(&u64) -> Result<V, CacheError>,
        requires
            old(self).wf(),
            fn_once.requires((&key,)),
        ensures
            final(self).wf(),
            final(self).capacity() == old(self).capacity(),
            has_key(old(self)@, key) ==> {
                let i = index_of(old(self)@, key);
                &&& final(self)@ == touch(old(self)@, i)
                &&& r == Ok::<&V, CacheError>(&old(self)@[i].1)
            },
            !has_key(old(self)@, key) ==> exists|out: Result<V, CacheError>| {
                &&& #[trigger] fn_once.ensures((&key,), out)
                &&& match out {
                    Ok(v) => final(self)@ == put_entries(old(self)@, old(self).capacity(), key, v)
                        && r == Ok::<&V, CacheError>(&v),
                    Err(e) => final(self)@ == old(self)@ && r == Err::<&V, CacheError>(e),
                }
            },
    {
        match self.get_or_insert_node(key, fn_once) {
            Ok(n) => Ok(&n.value),
            Err(e) => Err(e),
        }
    }

    /// Every entry, as a key and its value, from the least to the most recently used.
    pub fn iter(&self) -> (r: Vec<(&u64, &V)>)
        ensures
            r@.len() == self@.len(),
            forall|i: int| 0 <= i < r@.len() ==> *(#[trigger] r@[i]).0 == self@[i].0 && *r@[i].1 == self@[i].1,
    {
        let mut r: Vec<(&u64, &V)> = Vec::new();
        let mut i: usize = 0;
        while i < self.entries.len()
            invariant
                i <= self.entries@.len(),
                self@.len() == self.entries@.len(),
                r@.len() == i,
                forall|j: int| 0 <= j < i ==> *(#[trigger] r@[j]).0 == self@[j].0 && *r@[j].1 == self@[j].1,
            decreases self.entries.len() - i,
        {
            let n = &self.entries[i];
            assert(self@[i as int] == (n.key, n.value));
            r.push((&n.key, &n.value));
            i = i + 1;
        }
        r
    }

    /// Promotes the entry for `key`, if any, to the most recently used.
    pub(crate) fn promote(&mut self, key: &u64) -> (r: bool)
        requires
            old(self).wf(),
        ensures
            final(self).wf(),
            final(self).capacity() == old(self).capacity(),
            final(self)@ == get_entries(old(self)@, *key),
            r == has_key(old(self)@, *key),
            r ==> final(self)@.last() == old(self)@[index_of(old(self)@, *key)],
    {
        match self.get_node(key) {
            Some(_) => {
                assert(self@.last() == touch(old(self)@, index_of(old(self)@, *key)).last());
                true
            },
            None => false,
        }
    }

    /// The value under `key`, leaving the order of use as it is.
    pub(crate) fn peek(&self, key: &u64) -> (r: Option<&V>)
        requires
            self.wf(),
        ensures
            has_key(self@, *key) ==> r == Some(&self@[index_of(self@, *key)].1),
            !has_key(self@, *key) ==> r is None,
    {
        match self.find(*key) {
            Some(i) => {
                assert(self@[i as int] == (self.entries@[i as int].key, self.entries@[i as int].value));
                Some(&self.entries[i].value)
            },
            None => None,
        }
    }

    /// Makes sure an entry for `key` is the most recently used: a hit is promoted;
    /// on a miss the value made by `fn_once` is stored as by `put`. A failure of
    /// `fn_once` is passed on and leaves the cache as it was.
    pub(crate) fn fill<F>(&mut self, key: u64, fn_once: F) -> (r: Result<(), CacheError>)
        where
            F: FnOnce(&u64) -> Result<V, CacheError>,
        requires
            old(self).wf(),
            fn_once.requires((&key,)),
        ensures
            final(self).wf(),
            final(self).capacity() == old(self).capacity(),
            has_key(old(self)@, key) ==> final(self)@ == touch(old(self)@, index_of(old(self)@, key)) && r is Ok,
            !has_key(old(self)@, key) ==> exists|out: Result<V, CacheError>| {
                &&& #[trigger] fn_once.ensures((&key,), out)
                &&& match out {
                    Ok(v) => final(self)@ == put_entries(old(self)@, old(self).capacity(), key, v) && r is Ok,
                    Err(e) => final(self)@ == old(self)@ && r == Err::<(), CacheError>(e),
                }
            },
    {
        if self.promote(&key) {
            Ok(())
        } else {
            match fn_once(&key) {
                Ok(value) => {
                    let _replaced = self.put(key, value);
                    Ok(())
                },
                Err(e) => Err(e),
            }
        }
    }

    /// The number of entries.
    pub fn len(&self) -> (r: usize)
        ensures
            r == self@.len(),
    {
        self.entries.len()
    }

    /// Whether the cache holds no entry.
    pub fn is_empty(&self) -> (r: bool)
        ensures
            r == (self@.len() == 0),
    {
        self.entries.len() == 0
    }
}

} // verus!
