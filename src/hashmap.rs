use vstd::prelude::*;

verus! {

/// A key of the store's maps: a value whose equality can be tested in
/// executable code, and which folds eight of its bytes into a hash.
pub trait MapKey: Copy {
    spec fn spec_fold(&self) -> u64;

    fn fold(&self) -> (r: u64)
        ensures
            r == self.spec_fold(),
    ;

    fn same_key(&self, other: &Self) -> (r: bool)
        ensures
            r == (*self == *other),
    ;
}

/// The keys of a list of entries, in order.
pub open spec fn keys_of<K, V>(s: Seq<(K, V)>) -> Seq<K> {
    s.map_values(|e: (K, V)| e.0)
}

/// The map that a list of entries with distinct keys stands for.
pub open spec fn entries_map<K, V>(s: Seq<(K, V)>) -> Map<K, V> {
    Map::new(
        |k: K| keys_of(s).contains(k),
        |k: K| s[choose|i: int| 0 <= i < s.len() && s[i].0 == k].1,
    )
}

/// The entry at `i` is what the map holds for its key.
pub proof fn lemma_entry_in_map<K, V>(s: Seq<(K, V)>, i: int)
    requires
        keys_of(s).no_duplicates(),
        0 <= i < s.len(),
    ensures
        entries_map(s).contains_key(s[i].0),
        entries_map(s)[s[i].0] == s[i].1,
{
    assert(keys_of(s)[i] == s[i].0);
    let j = choose|j: int| 0 <= j < s.len() && s[j].0 == s[i].0;
    assert(keys_of(s)[j] == keys_of(s)[i]);
}

pub proof fn lemma_push_entry<K, V>(s: Seq<(K, V)>, k: K, v: V)
    requires
        keys_of(s).no_duplicates(),
        !keys_of(s).contains(k),
    ensures
        keys_of(s.push((k, v))).no_duplicates(),
        entries_map(s.push((k, v))) == entries_map(s).insert(k, v),
{
    let t = s.push((k, v));
    assert(keys_of(t) =~= keys_of(s).push(k));
    assert forall|a: int, b: int| 0 <= a < b < keys_of(t).len() implies keys_of(t)[a] != keys_of(t)[b] by {
        if b == s.len() {
            assert(keys_of(s)[a] == keys_of(t)[a]);
        } else {
            assert(keys_of(s)[a] == keys_of(t)[a] && keys_of(s)[b] == keys_of(t)[b]);
        }
    }
    assert forall|key: K| #[trigger] entries_map(t).contains_key(key) == entries_map(s).insert(k, v).contains_key(key) by {
        if keys_of(s).contains(key) {
            let i = choose|i: int| 0 <= i < keys_of(s).len() && keys_of(s)[i] == key;
            assert(keys_of(t)[i] == key);
        }
        if keys_of(t).contains(key) && key != k {
            let i = choose|i: int| 0 <= i < keys_of(t).len() && keys_of(t)[i] == key;
            assert(keys_of(s)[i] == key);
        }
        assert(keys_of(t)[s.len() as int] == k);
    }
    assert forall|key: K| #[trigger] entries_map(t).contains_key(key) implies entries_map(t)[key]
        == entries_map(s).insert(k, v)[key] by {
        let i = choose|i: int| 0 <= i < keys_of(t).len() && keys_of(t)[i] == key;
        lemma_entry_in_map(t, i);
        if i < s.len() {
            assert(t[i] == s[i]);
            lemma_entry_in_map(s, i);
        }
    }
    assert(entries_map(t) =~= entries_map(s).insert(k, v));
}

proof fn lemma_remove_entry<K, V>(s: Seq<(K, V)>, i: int)
    requires
        keys_of(s).no_duplicates(),
        0 <= i < s.len(),
    ensures
        keys_of(s.update(i, s.last()).drop_last()).no_duplicates(),
        entries_map(s.update(i, s.last()).drop_last()) == entries_map(s).remove(s[i].0),
{
    let t = s.update(i, s.last()).drop_last();
    let n = s.len() - 1;
    assert forall|j: int| 0 <= j < t.len() implies #[trigger] t[j] == s[if j == i { n } else { j }] by {}
    assert forall|a: int, b: int| 0 <= a < b < keys_of(t).len() implies keys_of(t)[a] != keys_of(t)[b] by {
        let a2 = if a == i { n } else { a };
        let b2 = if b == i { n } else { b };
        assert(keys_of(t)[a] == keys_of(s)[a2] && keys_of(t)[b] == keys_of(s)[b2]);
    }
    assert forall|key: K| #[trigger] entries_map(t).contains_key(key) == entries_map(s).remove(s[i].0).contains_key(key) by {
        if keys_of(t).contains(key) {
            let j = choose|j: int| 0 <= j < keys_of(t).len() && keys_of(t)[j] == key;
            let j2 = if j == i { n } else { j };
            assert(keys_of(s)[j2] == key);
            assert(keys_of(s)[i] == s[i].0);
        }
        if keys_of(s).contains(key) && key != s[i].0 {
            let j = choose|j: int| 0 <= j < keys_of(s).len() && keys_of(s)[j] == key;
            assert(j != i);
            if j == n {
                assert(keys_of(t)[i] == key);
            } else {
                assert(keys_of(t)[j] == key);
            }
        }
    }
    assert forall|key: K| #[trigger] entries_map(t).contains_key(key) implies entries_map(t)[key]
        == entries_map(s).remove(s[i].0)[key] by {
        let j = choose|j: int| 0 <= j < keys_of(t).len() && keys_of(t)[j] == key;
        lemma_entry_in_map(t, j);
        let j2 = if j == i { n } else { j };
        lemma_entry_in_map(s, j2);
    }
    assert(entries_map(t) =~= entries_map(s).remove(s[i].0));
}

/// A list of entries with distinct keys: one bucket of a map.
#[derive(Debug)]
pub struct Bucket<K, V> {
    entries: Vec<(K, V)>,
}

impl<K: MapKey, V> Bucket<K, V> {
    pub closed spec fn entries(&self) -> Seq<(K, V)> {
        self.entries@
    }

    pub closed spec fn wf(&self) -> bool {
        keys_of(self.entries@).no_duplicates()
    }

    pub closed spec fn view(&self) -> Map<K, V> {
        entries_map(self.entries@)
    }

    /// The entries stand for the map.
    pub proof fn lemma_entries(&self)
        requires
            self.wf(),
        ensures
            forall|i: int| 0 <= i < self.entries().len() ==> {
                &&& #[trigger] self@.contains_key(self.entries()[i].0)
                &&& self@[self.entries()[i].0] == self.entries()[i].1
            },
            forall|k: K| #[trigger] self@.contains_key(k) ==> exists|i: int|
                0 <= i < self.entries().len() && #[trigger] self.entries()[i].0 == k,
            self@.len() == self.entries().len(),
            self@.dom().finite(),
            self@ == entries_map(self.entries()),
            keys_of(self.entries()).no_duplicates(),
    {
        assert forall|i: int| 0 <= i < self.entries().len() implies {
            &&& #[trigger] self@.contains_key(self.entries()[i].0)
            &&& self@[self.entries()[i].0] == self.entries()[i].1
        } by {
            lemma_entry_in_map(self.entries@, i);
        }
        assert forall|k: K| #[trigger] self@.contains_key(k) implies exists|i: int|
            0 <= i < self.entries().len() && #[trigger] self.entries()[i].0 == k by {
            let i = choose|i: int| 0 <= i < keys_of(self.entries@).len() && keys_of(self.entries@)[i] == k;
            assert(self.entries()[i].0 == k);
        }
        let keys = keys_of(self.entries@);
        keys.unique_seq_to_set();
        assert(self@.dom() =~= keys.to_set());
    }

    pub fn new() -> (r: Self)
        ensures
            r.wf(),
            r@ == Map::<K, V>::empty(),
    {
        let r = Bucket { entries: Vec::new() };
        assert(r@ =~= Map::<K, V>::empty());
        r
    }

    fn find(&self, key: &K) -> (r: Option<usize>)
        requires
            self.wf(),
        ensures
            match r {
                Some(i) => i < self.entries@.len() && self.entries@[i as int].0 == *key,
                None => !self@.contains_key(*key),
            },
    {
        let mut i: usize = 0;
        while i < self.entries.len()
            invariant
                i <= self.entries@.len(),
                forall|j: int| 0 <= j < i ==> self.entries@[j].0 != *key,
            decreases self.entries@.len() - i,
        {
            if self.entries[i].0.same_key(key) {
                return Some(i);
            }
            i = i + 1;
        }
        proof {
            if self@.contains_key(*key) {
                let j = choose|j: int| 0 <= j < keys_of(self.entries@).len() && keys_of(self.entries@)[j] == *key;
                assert(self.entries@[j].0 == *key);
            }
        }
        None
    }

    /// Sets the value of `key`, and returns the value it replaced.
    pub fn insert(&mut self, key: K, value: V) -> (r: Option<V>)
        requires
            old(self).wf(),
        ensures
            final(self).wf(),
            final(self)@ == old(self)@.insert(key, value),
            match r {
                Some(v) => old(self)@.contains_key(key) && v == old(self)@[key],
                None => !old(self)@.contains_key(key),
            },
    {
        match self.find(&key) {
            Some(i) => {
                proof {
                    lemma_entry_in_map(self.entries@, i as int);
                    lemma_remove_entry(self.entries@, i as int);
                }
                let (_, previous) = self.entries.swap_remove(i);
                proof {
                    assert(!self@.contains_key(key));
                    assert(!keys_of(self.entries@).contains(key));
                    lemma_push_entry(self.entries@, key, value);
                }
                self.entries.push((key, value));
                assert(self@ =~= old(self)@.insert(key, value));
                Some(previous)
            },
            None => {
                proof {
                    assert(!keys_of(self.entries@).contains(key));
                    lemma_push_entry(self.entries@, key, value);
                }
                self.entries.push((key, value));
                None
            },
        }
    }

    /// Takes `key` out of the map, and returns its value.
    pub fn remove(&mut self, key: &K) -> (r: Option<V>)
        requires
            old(self).wf(),
        ensures
            final(self).wf(),
            final(self)@ == old(self)@.remove(*key),
            match r {
                Some(v) => old(self)@.contains_key(*key) && v == old(self)@[*key],
                None => !old(self)@.contains_key(*key),
            },
    {
        match self.find(key) {
            Some(i) => {
                proof {
                    lemma_entry_in_map(self.entries@, i as int);
                    lemma_remove_entry(self.entries@, i as int);
                }
                let (_, previous) = self.entries.swap_remove(i);
                Some(previous)
            },
            None => {
                assert(self@ =~= old(self)@.remove(*key));
                None
            },
        }
    }

    /// The value of `key`, if the map holds it.
    pub fn get(&self, key: &K) -> (r: Option<&V>)
        requires
            self.wf(),
        ensures
            match r {
                Some(v) => self@.contains_key(*key) && *v == self@[*key],
                None => !self@.contains_key(*key),
            },
    {
        match self.find(key) {
            Some(i) => {
                proof {
                    lemma_entry_in_map(self.entries@, i as int);
                }
                Some(&self.entries[i].1)
            },
            None => None,
        }
    }

    /// Whether the map holds `key`.
    pub fn contains_key(&self, key: &K) -> (r: bool)
        requires
            self.wf(),
        ensures
            r == self@.contains_key(*key),
    {
        match self.find(key) {
            Some(i) => {
                proof {
                    lemma_entry_in_map(self.entries@, i as int);
                }
                true
            },
            None => false,
        }
    }

    /// The entries, in no particular order.
    pub fn iter(&self) -> (r: &[(K, V)])
        ensures
            r@ == self.entries(),
    {
        self.entries.as_slice()
    }

    pub fn len(&self) -> (r: usize)
        ensures
            r == self.entries().len(),
    {
        self.entries.len()
    }
}

/// The entries of a list of buckets, bucket after bucket.
pub open spec fn flatten<K, V>(bs: Seq<Seq<(K, V)>>) -> Seq<(K, V)>
    decreases bs.len(),
{
    if bs.len() == 0 {
        Seq::empty()
    } else {
        flatten(bs.drop_last()) + bs.last()
    }
}

proof fn lemma_concat_entries<K, V>(a: Seq<(K, V)>, b: Seq<(K, V)>)
    requires
        keys_of(a).no_duplicates(),
        keys_of(b).no_duplicates(),
        forall|k: K| keys_of(a).contains(k) ==> !keys_of(b).contains(k),
    ensures
        keys_of(a + b).no_duplicates(),
        entries_map(a + b) == entries_map(a).union_prefer_right(entries_map(b)),
    decreases b.len(),
{
    if b.len() == 0 {
        assert(a + b =~= a);
        assert(entries_map(b) =~= Map::empty());
        assert(entries_map(a).union_prefer_right(entries_map(b)) =~= entries_map(a));
    } else {
        let c = b.drop_last();
        let e = b.last();
        assert(keys_of(c) =~= keys_of(b).drop_last());
        assert forall|k: K| keys_of(a).contains(k) implies !keys_of(c).contains(k) by {
            if keys_of(c).contains(k) {
                let i = choose|i: int| 0 <= i < keys_of(c).len() && keys_of(c)[i] == k;
                assert(keys_of(b)[i] == k);
            }
        }
        lemma_concat_entries(a, c);
        assert(a + b =~= (a + c).push(e));
        assert(keys_of(a + c) =~= keys_of(a) + keys_of(c));
        assert(!keys_of(a + c).contains(e.0)) by {
            if keys_of(a + c).contains(e.0) {
                let i = choose|i: int| 0 <= i < keys_of(a + c).len() && keys_of(a + c)[i] == e.0;
                if i < a.len() {
                    assert(keys_of(a)[i] == e.0);
                    assert(keys_of(a).contains(e.0));
                    assert(keys_of(b)[b.len() - 1] == e.0);
                    assert(keys_of(b).contains(e.0));
                } else {
                    let x = i - a.len();
                    assert(keys_of(c)[x] == e.0);
                    assert(keys_of(b)[x] == keys_of(c)[x]);
                    assert(keys_of(b)[b.len() - 1] == e.0);
                    assert(x != b.len() - 1);
                }
            }
        }
        lemma_push_entry(a + c, e.0, e.1);
        assert(b =~= c.push(e));
        assert(!keys_of(c).contains(e.0)) by {
            if keys_of(c).contains(e.0) {
                let i = choose|i: int| 0 <= i < keys_of(c).len() && keys_of(c)[i] == e.0;
                assert(keys_of(b)[i] == keys_of(b)[b.len() - 1]);
            }
        }
        lemma_push_entry(c, e.0, e.1);
        assert(entries_map(a + b) =~= entries_map(a).union_prefer_right(entries_map(b)));
    }
}

/// A map from content-addressed keys to values: each key sits in the bucket
/// that its folded bytes pick.
#[derive(Debug)]
pub struct U64HashMap<K, V> {
    buckets: Vec<Bucket<K, V>>,
}

impl<K: MapKey, V> U64HashMap<K, V> {
    pub closed spec fn slot(&self, k: K) -> int {
        (k.spec_fold() as nat % self.buckets@.len()) as int
    }

    pub closed spec fn bucket_entries(&self) -> Seq<Seq<(K, V)>> {
        self.buckets@.map_values(|b: Bucket<K, V>| b.entries())
    }

    /// The entries, bucket after bucket.
    pub closed spec fn entries(&self) -> Seq<(K, V)> {
        flatten(self.bucket_entries())
    }

    pub closed spec fn view(&self) -> Map<K, V> {
        entries_map(self.entries())
    }

    pub closed spec fn wf(&self) -> bool {
        &&& self.buckets@.len() > 0
        &&& forall|j: int| 0 <= j < self.buckets@.len() ==> (#[trigger] self.buckets@[j]).wf()
        &&& forall|j: int, i: int| 0 <= j < self.buckets@.len() && 0 <= i < self.buckets@[j].entries().len()
            ==> self.slot(#[trigger] self.buckets@[j].entries()[i].0) == j
    }

    /// The entries of the first `p` buckets stand for the keys whose bucket
    /// comes before `p`.
    proof fn lemma_prefix(&self, p: int)
        requires
            self.wf(),
            0 <= p <= self.buckets@.len(),
        ensures
            keys_of(flatten(self.bucket_entries().subrange(0, p))).no_duplicates(),
            entries_map(flatten(self.bucket_entries().subrange(0, p))) == Map::new(
                |k: K| self.slot(k) < p && self.buckets@[self.slot(k)]@.contains_key(k),
                |k: K| self.buckets@[self.slot(k)]@[k],
            ),
        decreases p,
    {
        let bs = self.bucket_entries().subrange(0, p);
        if p == 0 {
            assert(flatten(bs) =~= Seq::<(K, V)>::empty());
            assert(keys_of(flatten(bs)) =~= Seq::<K>::empty());
            assert(entries_map(flatten(bs)) =~= Map::new(
                |k: K| self.slot(k) < p && self.buckets@[self.slot(k)]@.contains_key(k),
                |k: K| self.buckets@[self.slot(k)]@[k],
            ));
        } else {
            self.lemma_prefix(p - 1);
            let prev = self.bucket_entries().subrange(0, p - 1);
            assert(bs.drop_last() =~= prev);
            let b = self.buckets@[p - 1];
            assert(bs.last() == b.entries());
            b.lemma_entries();
            assert forall|k: K| keys_of(flatten(prev)).contains(k) implies !keys_of(b.entries()).contains(k) by {
                if keys_of(b.entries()).contains(k) {
                    let i = choose|i: int| 0 <= i < keys_of(b.entries()).len() && keys_of(b.entries())[i] == k;
                    assert(self.slot(b.entries()[i].0) == p - 1);
                    let x = choose|x: int| 0 <= x < keys_of(flatten(prev)).len() && keys_of(flatten(prev))[x] == k;
                    lemma_entry_in_map(flatten(prev), x);
                }
            }
            lemma_concat_entries(flatten(prev), b.entries());
            assert forall|k: K| #[trigger] entries_map(flatten(bs)).contains_key(k) == (self.slot(k) < p
                && self.buckets@[self.slot(k)]@.contains_key(k)) by {
                if b@.contains_key(k) {
                    let i = choose|i: int| 0 <= i < b.entries().len() && #[trigger] b.entries()[i].0 == k;
                    assert(self.slot(b.entries()[i].0) == p - 1);
                }
                if self.slot(k) == p - 1 && self.buckets@[self.slot(k)]@.contains_key(k) {
                    assert(b@.contains_key(k));
                }
            }
            assert forall|k: K| #[trigger] entries_map(flatten(bs)).contains_key(k) implies entries_map(flatten(bs))[k]
                == self.buckets@[self.slot(k)]@[k] by {
                if b@.contains_key(k) {
                    let i = choose|i: int| 0 <= i < b.entries().len() && #[trigger] b.entries()[i].0 == k;
                    assert(self.slot(b.entries()[i].0) == p - 1);
                }
            }
            assert(entries_map(flatten(bs)) =~= Map::new(
                |k: K| self.slot(k) < p && self.buckets@[self.slot(k)]@.contains_key(k),
                |k: K| self.buckets@[self.slot(k)]@[k],
            ));
        }
    }

    /// The map holds a key just when the key's bucket does, with its value.
    proof fn lemma_view(&self)
        requires
            self.wf(),
        ensures
            keys_of(self.entries()).no_duplicates(),
            forall|k: K| #[trigger] self@.contains_key(k) == self.buckets@[self.slot(k)]@.contains_key(k),
            forall|k: K| #[trigger] self@.contains_key(k) ==> self@[k] == self.buckets@[self.slot(k)]@[k],
            forall|k: K| 0 <= #[trigger] self.slot(k) < self.buckets@.len(),
    {
        assert forall|k: K| 0 <= #[trigger] self.slot(k) < self.buckets@.len() by {
            vstd::arithmetic::div_mod::lemma_mod_bound(k.spec_fold() as int, self.buckets@.len() as int);
        }
        self.lemma_prefix(self.buckets@.len() as int);
        assert(self.bucket_entries().subrange(0, self.buckets@.len() as int) =~= self.bucket_entries());
    }

    proof fn lemma_flatten_len(bs: Seq<Seq<(K, V)>>, j: int, x: Seq<(K, V)>)
        requires
            0 <= j < bs.len(),
        ensures
            flatten(bs.update(j, x)).len() == flatten(bs).len() - bs[j].len() + x.len(),
        decreases bs.len(),
    {
        if j < bs.len() - 1 {
            Self::lemma_flatten_len(bs.drop_last(), j, x);
            assert(bs.update(j, x).drop_last() =~= bs.drop_last().update(j, x));
        } else {
            assert(bs.update(j, x).drop_last() =~= bs.drop_last());
        }
    }

    /// The entries stand for the map.
    pub proof fn lemma_entries(&self)
        requires
            self.wf(),
        ensures
            forall|i: int| 0 <= i < self.entries().len() ==> {
                &&& #[trigger] self@.contains_key(self.entries()[i].0)
                &&& self@[self.entries()[i].0] == self.entries()[i].1
            },
            forall|k: K| #[trigger] self@.contains_key(k) ==> exists|i: int|
                0 <= i < self.entries().len() && #[trigger] self.entries()[i].0 == k,
            self@.len() == self.entries().len(),
            self@.dom().finite(),
            self@ == entries_map(self.entries()),
            keys_of(self.entries()).no_duplicates(),
    {
        self.lemma_view();
        let s = self.entries();
        assert forall|i: int| 0 <= i < s.len() implies {
            &&& #[trigger] self@.contains_key(s[i].0)
            &&& self@[s[i].0] == s[i].1
        } by {
            lemma_entry_in_map(s, i);
        }
        assert forall|k: K| #[trigger] self@.contains_key(k) implies exists|i: int|
            0 <= i < s.len() && #[trigger] s[i].0 == k by {
            let i = choose|i: int| 0 <= i < keys_of(s).len() && keys_of(s)[i] == k;
            assert(s[i].0 == k);
        }
        let keys = keys_of(s);
        keys.unique_seq_to_set();
        assert(self@.dom() =~= keys.to_set());
    }

    pub fn new() -> (r: Self)
        ensures
            r.wf(),
            r@ == Map::<K, V>::empty(),
    {
        Self::with_capacity(1)
    }

    /// An empty map whose number of buckets suits `capacity` entries.
    pub fn with_capacity(capacity: usize) -> (r: Self)
        ensures
            r.wf(),
            r@ == Map::<K, V>::empty(),
    {
        let count = if capacity < 2 { 1 } else { capacity / 2 };
        let mut buckets: Vec<Bucket<K, V>> = Vec::new();
        let mut j: usize = 0;
        while j < count
            invariant
                j <= count,
                buckets@.len() == j,
                forall|i: int| 0 <= i < j ==> (#[trigger] buckets@[i]).wf() && buckets@[i].entries().len() == 0,
            decreases count - j,
        {
            let b = Bucket::new();
            proof {
                b.lemma_entries();
            }
            buckets.push(b);
            j = j + 1;
        }
        let r = U64HashMap { buckets };
        proof {
            lemma_flatten_empty(r.bucket_entries());
            assert(r@ =~= Map::<K, V>::empty());
        }
        r
    }

    fn slot_of(&self, key: &K) -> (r: usize)
        requires
            self.wf(),
        ensures
            r == self.slot(*key),
            r < self.buckets@.len(),
    {
        proof {
            self.lemma_view();
        }
        (key.fold() % (self.buckets.len() as u64)) as usize
    }

    /// Sets the value of `key`, and returns the value it replaced.
    pub fn insert(&mut self, key: K, value: V) -> (r: Option<V>)
        requires
            old(self).wf(),
        ensures
            final(self).wf(),
            final(self)@ == old(self)@.insert(key, value),
            match r {
                Some(v) => old(self)@.contains_key(key) && v == old(self)@[key],
                None => !old(self)@.contains_key(key),
            },
    {
        proof {
            self.lemma_view();
        }
        let j = self.slot_of(&key);
        let ghost before = self.buckets@[j as int];
        let r = self.buckets[j].insert(key, value);
        proof {
            let b = self.buckets@[j as int];
            assert(b@ == before@.insert(key, value));
            assert(self.buckets@ == old(self).buckets@.update(j as int, b));
            assert(self.bucket_entries() =~= old(self).bucket_entries().update(j as int, b.entries()));
            Self::lemma_flatten_len(old(self).bucket_entries(), j as int, b.entries());
            before.lemma_entries();
            b.lemma_entries();
            assert forall|jj: int, i: int| 0 <= jj < self.buckets@.len() && 0 <= i < self.buckets@[jj].entries().len()
                implies self.slot(#[trigger] self.buckets@[jj].entries()[i].0) == jj by {
                if jj == j {
                    let k2 = b.entries()[i].0;
                    if k2 != key {
                        assert(b@.contains_key(b.entries()[i].0));
                        assert(before@.contains_key(k2));
                        let i2 = choose|i2: int| 0 <= i2 < before.entries().len() && #[trigger] before.entries()[i2].0 == k2;
                        assert(old(self).slot(old(self).buckets@[jj].entries()[i2].0) == jj);
                    }
                }
            }
        }
        proof {
            self.lemma_view();
            old(self).lemma_view();
            assert(old(self)@.contains_key(key) == before@.contains_key(key));
            assert(self@ =~= old(self)@.insert(key, value));
        }
        r
    }

    /// Takes `key` out of the map, and returns its value.
    pub fn remove(&mut self, key: &K) -> (r: Option<V>)
        requires
            old(self).wf(),
        ensures
            final(self).wf(),
            final(self)@ == old(self)@.remove(*key),
            match r {
                Some(v) => old(self)@.contains_key(*key) && v == old(self)@[*key],
                None => !old(self)@.contains_key(*key),
            },
    {
        proof {
            self.lemma_view();
        }
        let j = self.slot_of(key);
        let ghost before = self.buckets@[j as int];
        let r = self.buckets[j].remove(key);
        proof {
            let b = self.buckets@[j as int];
            assert(b@ == before@.remove(*key));
            assert(self.buckets@ == old(self).buckets@.update(j as int, b));
            assert(self.bucket_entries() =~= old(self).bucket_entries().update(j as int, b.entries()));
            Self::lemma_flatten_len(old(self).bucket_entries(), j as int, b.entries());
            before.lemma_entries();
            b.lemma_entries();
            assert forall|jj: int, i: int| 0 <= jj < self.buckets@.len() && 0 <= i < self.buckets@[jj].entries().len()
                implies self.slot(#[trigger] self.buckets@[jj].entries()[i].0) == jj by {
                if jj == j {
                    let k2 = b.entries()[i].0;
                    assert(b@.contains_key(b.entries()[i].0));
                    assert(before@.contains_key(k2));
                    let i2 = choose|i2: int| 0 <= i2 < before.entries().len() && #[trigger] before.entries()[i2].0 == k2;
                    assert(old(self).slot(old(self).buckets@[jj].entries()[i2].0) == jj);
                }
            }
        }
        proof {
            self.lemma_view();
            old(self).lemma_view();
            assert(old(self)@.contains_key(*key) == before@.contains_key(*key));
            assert forall|k: K| #[trigger] self@.contains_key(k) == old(self)@.remove(*key).contains_key(k) by {
                if self.slot(k) != j {
                    assert(self.buckets@[self.slot(k)] == old(self).buckets@[self.slot(k)]);
                }
            }
            assert forall|k: K| #[trigger] self@.contains_key(k) implies self@[k] == old(self)@.remove(*key)[k] by {
                if self.slot(k) != j {
                    assert(self.buckets@[self.slot(k)] == old(self).buckets@[self.slot(k)]);
                }
            }
            assert(self@ =~= old(self)@.remove(*key));
        }
        r
    }

    /// The value of `key`, if the map holds it.
    pub fn get(&self, key: &K) -> (r: Option<&V>)
        requires
            self.wf(),
        ensures
            match r {
                Some(v) => self@.contains_key(*key) && *v == self@[*key],
                None => !self@.contains_key(*key),
            },
    {
        proof {
            self.lemma_view();
        }
        let j = self.slot_of(key);
        let bucket = &self.buckets[j];
        assert(*bucket == self.buckets@[j as int]);
        let r = bucket.get(key);
        proof {
            if r is Some {
                assert(self@.contains_key(*key));
            }
        }
        r
    }

    /// Whether the map holds `key`.
    pub fn contains_key(&self, key: &K) -> (r: bool)
        requires
            self.wf(),
        ensures
            r == self@.contains_key(*key),
    {
        proof {
            self.lemma_view();
        }
        let j = self.slot_of(key);
        self.buckets[j].contains_key(key)
    }

    /// The number of entries, capped at the largest `usize`.
    pub fn len(&self) -> (r: usize)
        requires
            self.wf(),
        ensures
            r as int == if self@.len() > usize::MAX { usize::MAX as int } else { self@.len() as int },
    {
        proof {
            self.lemma_entries();
        }
        let mut sum: usize = 0;
        let mut j: usize = 0;
        while j < self.buckets.len()
            invariant
                self.wf(),
                j <= self.buckets@.len(),
                sum as int == if flatten(self.bucket_entries().subrange(0, j as int)).len() > usize::MAX {
                    usize::MAX as int
                } else {
                    flatten(self.bucket_entries().subrange(0, j as int)).len() as int
                },
            decreases self.buckets@.len() - j,
        {
            let n = self.buckets[j].len();
            assert(self.bucket_entries().subrange(0, j + 1).drop_last() =~= self.bucket_entries().subrange(0, j as int));
            assert(self.bucket_entries()[j as int] == self.buckets@[j as int].entries());
            sum = if sum > usize::MAX - n { usize::MAX } else { sum + n };
            j = j + 1;
        }
        assert(self.bucket_entries().subrange(0, self.buckets@.len() as int) =~= self.bucket_entries());
        sum
    }
}

impl<K: MapKey, V: Copy> U64HashMap<K, V> {
    /// The entries, bucket after bucket.
    pub fn iter(&self) -> (r: Vec<(K, V)>)
        requires
            self.wf(),
        ensures
            r@ == self.entries(),
    {
        let mut r: Vec<(K, V)> = Vec::new();
        let mut j: usize = 0;
        while j < self.buckets.len()
            invariant
                j <= self.buckets@.len(),
                r@ == flatten(self.bucket_entries().subrange(0, j as int)),
            decreases self.buckets@.len() - j,
        {
            let entries = self.buckets[j].iter();
            let ghost start = r@;
            let mut i: usize = 0;
            while i < entries.len()
                invariant
                    i <= entries@.len(),
                    r@ == start + entries@.subrange(0, i as int),
                decreases entries@.len() - i,
            {
                r.push(entries[i]);
                i = i + 1;
                assert(r@ =~= start + entries@.subrange(0, i as int));
            }
            assert(entries@.subrange(0, entries@.len() as int) =~= entries@);
            assert(self.bucket_entries().subrange(0, j + 1).drop_last() =~= self.bucket_entries().subrange(0, j as int));
            j = j + 1;
        }
        assert(self.bucket_entries().subrange(0, self.buckets@.len() as int) =~= self.bucket_entries());
        r
    }
}

proof fn lemma_flatten_empty<K, V>(bs: Seq<Seq<(K, V)>>)
    requires
        forall|i: int| 0 <= i < bs.len() ==> (#[trigger] bs[i]).len() == 0,
    ensures
        flatten(bs) == Seq::<(K, V)>::empty(),
    decreases bs.len(),
{
    if bs.len() > 0 {
        lemma_flatten_empty(bs.drop_last());
        assert(flatten(bs) =~= Seq::<(K, V)>::empty());
    }
}

} // verus!
