//! A map keyed by device name: what the viewer keeps per device.
use vstd::prelude::*;

verus! {

/// Values keyed by name; each name occurs at most once.
pub struct NameMap<V> {
    entries: Vec<(String, V)>,
}

impl<V> NameMap<V> {
    /// No name occurs twice.
    pub closed spec fn wf(&self) -> bool {
        forall|i: int, j: int|
            0 <= i < j < self.entries@.len() ==> self.entries@[i].0@ != self.entries@[j].0@
    }

    /// Number of entries.
    pub closed spec fn size(&self) -> nat {
        self.entries@.len()
    }

    /// Name of the entry at position `i`.
    pub closed spec fn key_at(&self, i: int) -> Seq<char> {
        self.entries@[i].0@
    }

    /// Value of the entry at position `i`.
    pub closed spec fn value_at(&self, i: int) -> V {
        self.entries@[i].1
    }

    /// Whether `k` is the name of some entry.
    pub open spec fn has_key(&self, k: Seq<char>) -> bool {
        exists|i: int| 0 <= i < self.size() && #[trigger] self.key_at(i) == k
    }

    /// The map from names to values.
    pub open spec fn view(&self) -> Map<Seq<char>, V> {
        Map::new(
            |k: Seq<char>| self.has_key(k),
            |k: Seq<char>| self.value_at(choose|i: int| 0 <= i < self.size() && #[trigger] self.key_at(i) == k),
        )
    }

    /// The entry at position `i` is what the map gives for its name.
    pub proof fn lemma_entry(&self, i: int)
        requires
            self.wf(),
            0 <= i < self.size(),
        ensures
            self@.contains_key(self.key_at(i)),
            self@[self.key_at(i)] == self.value_at(i),
    {
        let k = self.key_at(i);
        assert(self.has_key(k));
        let j: int = choose|j: int| 0 <= j < self.size() && #[trigger] self.key_at(j) == k;
        if j != i {
            if j < i {
                assert(self.entries@[j].0@ != self.entries@[i].0@);
            } else {
                assert(self.entries@[i].0@ != self.entries@[j].0@);
            }
        }
    }

    /// The map made of the first `n` entries.
    pub open spec fn first_entries(&self, n: int) -> Map<Seq<char>, V> {
        Map::new(
            |k: Seq<char>| exists|i: int| 0 <= i < n && #[trigger] self.key_at(i) == k,
            |k: Seq<char>| self.value_at(choose|i: int| 0 <= i < n && #[trigger] self.key_at(i) == k),
        )
    }

    /// The first `n + 1` entries are the first `n` and one more, under a name
    /// that the first `n` do not hold; all of them are the whole map.
    pub proof fn lemma_first_entries(&self, n: int)
        requires
            self.wf(),
            0 <= n < self.size(),
        ensures
            !self.first_entries(n).contains_key(self.key_at(n)),
            self.first_entries(n + 1) == self.first_entries(n).insert(self.key_at(n), self.value_at(n)),
            self.first_entries(self.size() as int) == self@,
    {
        let k = self.key_at(n);
        if self.first_entries(n).contains_key(k) {
            let j: int = choose|j: int| 0 <= j < n && #[trigger] self.key_at(j) == k;
            assert(self.entries@[j].0@ != self.entries@[n].0@);
        }
        let a = self.first_entries(n + 1);
        let b = self.first_entries(n).insert(k, self.value_at(n));
        assert forall|q: Seq<char>| #[trigger] a.contains_key(q) == b.contains_key(q) by {
            if q == k {
                assert(self.key_at(n) == q);
            }
            if a.contains_key(q) && q != k {
                let j: int = choose|j: int| 0 <= j < n + 1 && #[trigger] self.key_at(j) == q;
                assert(j != n);
            }
            if b.contains_key(q) && q != k {
                let j: int = choose|j: int| 0 <= j < n && #[trigger] self.key_at(j) == q;
                assert(self.key_at(j) == q);
            }
        }
        assert forall|q: Seq<char>| #[trigger] a.contains_key(q) implies a[q] == b[q] by {
            let j: int = choose|j: int| 0 <= j < n + 1 && #[trigger] self.key_at(j) == q;
            if q == k {
                if j != n {
                    if j < n {
                        assert(self.entries@[j].0@ != self.entries@[n].0@);
                    }
                }
            } else {
                let j2: int = choose|j2: int| 0 <= j2 < n && #[trigger] self.key_at(j2) == q;
                if j != j2 {
                    if j < j2 {
                        assert(self.entries@[j].0@ != self.entries@[j2].0@);
                    } else {
                        assert(self.entries@[j2].0@ != self.entries@[j].0@);
                    }
                }
            }
        }
        assert(a =~= b);
        assert(self.first_entries(self.size() as int) =~= self@);
    }

    /// An empty map.
    pub fn new() -> (r: Self)
        ensures
            r.wf(),
            r@ == Map::<Seq<char>, V>::empty(),
            r.size() == 0,
    {
        let r = NameMap { entries: Vec::new() };
        assert(r@ =~= Map::<Seq<char>, V>::empty());
        r
    }

    /// Number of entries.
    pub fn len(&self) -> (r: usize)
        ensures
            r == self.size(),
    {
        self.entries.len()
    }

    /// Name of the entry at position `i`.
    pub fn key(&self, i: usize) -> (r: &String)
        requires
            i < self.size(),
        ensures
            r@ == self.key_at(i as int),
    {
        &self.entries[i].0
    }

    /// Value of the entry at position `i`.
    pub fn value(&self, i: usize) -> (r: &V)
        requires
            i < self.size(),
        ensures
            *r == self.value_at(i as int),
    {
        &self.entries[i].1
    }

    /// Position of the entry named `key`, if there is one.
    fn position(&self, key: &String) -> (r: Option<usize>)
        requires
            self.wf(),
        ensures
            r is None ==> !self@.contains_key(key@),
            r is Some ==> r->0 < self.size() && self.key_at(r->0 as int) == key@,
    {
        let mut i: usize = 0;
        while i < self.entries.len()
            invariant
                0 <= i <= self.entries@.len(),
                forall|j: int| 0 <= j < i ==> self.entries@[j].0@ != key@,
            decreases self.entries@.len() - i,
        {
            if self.entries[i].0 == *key {
                return Some(i);
            }
            i = i + 1;
        }
        assert(!self.has_key(key@));
        None
    }

    /// The value for `key`, if there is one.
    pub fn get(&self, key: &String) -> (r: Option<&V>)
        requires
            self.wf(),
        ensures
            r is Some <==> self@.contains_key(key@),
            r is Some ==> *r->0 == self@[key@],
    {
        match self.position(key) {
            Some(i) => {
                proof {
                    self.lemma_entry(i as int);
                }
                Some(&self.entries[i].1)
            },
            None => None,
        }
    }

    /// Sets the value for `key`, replacing the one it had.
    pub fn insert(&mut self, key: String, value: V)
        requires
            old(self).wf(),
        ensures
            final(self).wf(),
            final(self)@ == old(self)@.insert(key@, value),
    {
        let ghost k = key@;
        let ghost before = *self;
        match self.position(&key) {
            Some(i) => {
                self.entries.set(i, (key, value));
                assert(self.wf());
                assert forall|q: Seq<char>| #[trigger] self@.contains_key(q) == before@.insert(
                    k,
                    value,
                ).contains_key(q) by {
                    if before.has_key(q) {
                        let j: int = choose|j: int| 0 <= j < before.size() && #[trigger] before.key_at(j) == q;
                        if j != i {
                            assert(self.key_at(j) == q);
                        }
                    }
                    if q == k {
                        assert(self.key_at(i as int) == q);
                    }
                    if self.has_key(q) {
                        let j: int = choose|j: int| 0 <= j < self.size() && #[trigger] self.key_at(j) == q;
                        if j != i {
                            assert(before.key_at(j) == q);
                        }
                    }
                }
                assert forall|q: Seq<char>| #[trigger] self@.contains_key(q) implies self@[q]
                    == before@.insert(k, value)[q] by {
                    let j: int = choose|j: int| 0 <= j < self.size() && #[trigger] self.key_at(j) == q;
                    self.lemma_entry(j);
                    if q != k {
                        assert(j != i);
                        assert(before.key_at(j) == q);
                        before.lemma_entry(j);
                    } else {
                        self.lemma_entry(i as int);
                    }
                }
                assert(self@ =~= before@.insert(k, value));
            },
            None => {
                self.entries.push((key, value));
                let n: usize = self.entries.len() - 1;
                assert forall|j: int| 0 <= j < n implies before.key_at(j) != k by {
                    if before.key_at(j) == k {
                        assert(before.has_key(k));
                    }
                }
                assert(self.entries@[n as int].0@ == k);
                assert forall|a: int, b: int| 0 <= a < b < self.entries@.len() implies self.entries@[a].0@
                    != self.entries@[b].0@ by {
                    assert(self.entries@[a] == before.entries@[a]);
                    if b < n {
                        assert(self.entries@[b] == before.entries@[b]);
                    } else {
                        assert(before.key_at(a) != k);
                    }
                }
                assert(self.wf());
                assert forall|q: Seq<char>| #[trigger] self@.contains_key(q) == before@.insert(
                    k,
                    value,
                ).contains_key(q) by {
                    if before.has_key(q) {
                        let j: int = choose|j: int| 0 <= j < before.size() && #[trigger] before.key_at(j) == q;
                        assert(self.key_at(j) == q);
                    }
                    if q == k {
                        assert(self.key_at(n as int) == q);
                    }
                    if self.has_key(q) {
                        let j: int = choose|j: int| 0 <= j < self.size() && #[trigger] self.key_at(j) == q;
                        if j != n {
                            assert(before.key_at(j) == q);
                        }
                    }
                }
                assert forall|q: Seq<char>| #[trigger] self@.contains_key(q) implies self@[q]
                    == before@.insert(k, value)[q] by {
                    let j: int = choose|j: int| 0 <= j < self.size() && #[trigger] self.key_at(j) == q;
                    self.lemma_entry(j);
                    if q != k {
                        assert(j != n);
                        assert(before.key_at(j) == q);
                        before.lemma_entry(j);
                    } else {
                        self.lemma_entry(n as int);
                    }
                }
                assert(self@ =~= before@.insert(k, value));
            },
        }
    }
}

/// A value written under a name is what a later read of that name gives,
/// and reads of other names are unchanged.
pub proof fn law_read_after_write<V>(m: Map<Seq<char>, V>, k: Seq<char>, v: V, other: Seq<char>)
    requires
        other != k,
    ensures
        m.insert(k, v).contains_key(k),
        m.insert(k, v)[k] == v,
        m.insert(k, v).contains_key(other) == m.contains_key(other),
        m.contains_key(other) ==> m.insert(k, v)[other] == m[other],
{
}

} // verus!
