use vstd::prelude::*;
use crate::chars::chars_eq;

verus! {

/// A mapping keyed by a pair of character sequences, compared by content.
///
/// The score table, the posterior accumulator and the phoneme map are all
/// instances of this shape. It is stored as a flat list of entries with
/// pairwise distinct keys; its meaning is the map from key pairs to
/// values, and iteration order is unspecified.
pub struct HashMap2<V> {
    entries: Vec<(Vec<char>, Vec<char>, V)>,
}

impl<V> HashMap2<V> {
    /// Number of entries.
    pub closed spec fn spec_len(self) -> int {
        self.entries.len() as int
    }

    /// The key pair of the entry at position `t`.
    pub closed spec fn key_at(self, t: int) -> (Seq<char>, Seq<char>) {
        (self.entries[t].0@, self.entries[t].1@)
    }

    /// The value of the entry at position `t`.
    pub closed spec fn val_at(self, t: int) -> V {
        self.entries[t].2
    }

    pub closed spec fn has_key(self, k: (Seq<char>, Seq<char>)) -> bool {
        exists|t: int| 0 <= t < self.spec_len() && self.key_at(t) == k
    }

    pub closed spec fn index_of(self, k: (Seq<char>, Seq<char>)) -> int {
        choose|t: int| 0 <= t < self.spec_len() && self.key_at(t) == k
    }

    /// The map this container stands for.
    pub closed spec fn view(self) -> Map<(Seq<char>, Seq<char>), V> {
        Map::new(|k: (Seq<char>, Seq<char>)| self.has_key(k), |k: (Seq<char>, Seq<char>)| self.val_at(self.index_of(k)))
    }

    /// Entries carry pairwise distinct keys.
    pub closed spec fn wf(self) -> bool {
        forall|t1: int, t2: int| 0 <= t1 < t2 < self.spec_len()
            ==> #[trigger] self.key_at(t1) != #[trigger] self.key_at(t2)
    }

    /// Each listed entry is an entry of the map.
    pub proof fn lemma_entry_in_view(self, t: int)
        requires
            self.wf(),
            0 <= t < self.spec_len(),
        ensures
            self@.contains_key(self.key_at(t)),
            self@[self.key_at(t)] == self.val_at(t),
    {
        assert(self.has_key(self.key_at(t)));
        let s = self.index_of(self.key_at(t));
        assert(0 <= s < self.spec_len() && self.key_at(s) == self.key_at(t));
        if s != t {
            assert(self.key_at(s) != self.key_at(t));
        }
    }

    /// Each entry of the map is listed: its key stands at position
    /// `index_of` with its value.
    pub proof fn lemma_view_to_entry(self, k: (Seq<char>, Seq<char>))
        requires
            self@.contains_key(k),
        ensures
            0 <= self.index_of(k) < self.spec_len(),
            self.key_at(self.index_of(k)) == k,
            self@[k] == self.val_at(self.index_of(k)),
    {
        assert(self.has_key(k));
    }

    /// A private bridge: a state whose entries equal `pre`'s with the value
    /// at `t` replaced stands for `pre`'s map with that entry's key bound
    /// anew.
    proof fn lemma_value_replaced(pre: Self, post: Self, t: int, v: V)
        requires
            pre.wf(),
            0 <= t < pre.spec_len(),
            post.spec_len() == pre.spec_len(),
            forall|s: int| 0 <= s < pre.spec_len() ==> #[trigger] post.key_at(s) == pre.key_at(s),
            forall|s: int| 0 <= s < pre.spec_len() && s != t ==> #[trigger] post.val_at(s) == pre.val_at(s),
            post.val_at(t) == v,
        ensures
            post.wf(),
            post@ == pre@.insert(pre.key_at(t), v),
    {
        assert forall|k: (Seq<char>, Seq<char>)| #[trigger] post.has_key(k) == (pre.has_key(k) || k == pre.key_at(t)) by {
            if post.has_key(k) {
                let s = choose|s: int| 0 <= s < post.spec_len() && post.key_at(s) == k;
                assert(pre.key_at(s) == k);
                assert(pre.has_key(k));
            }
            if pre.has_key(k) {
                let s = choose|s: int| 0 <= s < pre.spec_len() && pre.key_at(s) == k;
                assert(post.key_at(s) == k);
                assert(post.has_key(k));
            }
            assert(pre.has_key(pre.key_at(t)));
        }
        assert forall|k: (Seq<char>, Seq<char>)| post.has_key(k) implies
            post.val_at(post.index_of(k)) == (if k == pre.key_at(t) { v } else { pre.val_at(pre.index_of(k)) }) by {
            let s = post.index_of(k);
            assert(0 <= s < post.spec_len() && post.key_at(s) == k);
            if k == pre.key_at(t) {
                if s != t {
                    assert(pre.key_at(s) != pre.key_at(t));
                }
                assert(s == t);
            } else {
                assert(pre.key_at(s) == k);
                let s2 = pre.index_of(k);
                assert(0 <= s2 < pre.spec_len() && pre.key_at(s2) == k);
                if s2 != s {
                    assert(pre.key_at(s2) != pre.key_at(s));
                }
                assert(s != t);
            }
        }
        assert(post@ =~= pre@.insert(pre.key_at(t), v));
    }

    /// A private bridge: a state whose entries equal `pre`'s with one entry
    /// appended, under a key `pre` does not hold, stands for `pre`'s map
    /// with that key bound.
    proof fn lemma_entry_pushed(pre: Self, post: Self, k: (Seq<char>, Seq<char>), v: V)
        requires
            pre.wf(),
            !pre.has_key(k),
            post.spec_len() == pre.spec_len() + 1,
            forall|s: int| 0 <= s < pre.spec_len() ==> #[trigger] post.key_at(s) == pre.key_at(s),
            forall|s: int| 0 <= s < pre.spec_len() ==> #[trigger] post.val_at(s) == pre.val_at(s),
            post.key_at(pre.spec_len()) == k,
            post.val_at(pre.spec_len()) == v,
        ensures
            post.wf(),
            post@ == pre@.insert(k, v),
    {
        let n = pre.spec_len();
        assert forall|t1: int, t2: int| 0 <= t1 < t2 < post.spec_len() implies
            #[trigger] post.key_at(t1) != #[trigger] post.key_at(t2) by {
            if t2 == n {
                if post.key_at(t1) == k {
                    assert(pre.key_at(t1) == k);
                    assert(pre.has_key(k));
                }
            } else {
                assert(pre.key_at(t1) != pre.key_at(t2));
            }
        }
        assert forall|k2: (Seq<char>, Seq<char>)| #[trigger] post.has_key(k2) == (pre.has_key(k2) || k2 == k) by {
            if post.has_key(k2) {
                let s = choose|s: int| 0 <= s < post.spec_len() && post.key_at(s) == k2;
                if s < n {
                    assert(pre.key_at(s) == k2);
                    assert(pre.has_key(k2));
                }
            }
            if pre.has_key(k2) {
                let s = choose|s: int| 0 <= s < pre.spec_len() && pre.key_at(s) == k2;
                assert(post.key_at(s) == k2);
                assert(post.has_key(k2));
            }
            assert(post.key_at(n) == k);
            assert(post.has_key(k));
        }
        assert forall|k2: (Seq<char>, Seq<char>)| post.has_key(k2) implies
            post.val_at(post.index_of(k2)) == (if k2 == k { v } else { pre.val_at(pre.index_of(k2)) }) by {
            let s = post.index_of(k2);
            assert(0 <= s < post.spec_len() && post.key_at(s) == k2);
            if k2 == k {
                if s < n {
                    assert(pre.key_at(s) == k);
                    assert(pre.has_key(k));
                }
                assert(s == n);
            } else {
                assert(s != n);
                assert(pre.key_at(s) == k2);
                let s2 = pre.index_of(k2);
                assert(0 <= s2 < pre.spec_len() && pre.key_at(s2) == k2);
                if s2 != s {
                    assert(pre.key_at(s2) != pre.key_at(s));
                }
            }
        }
        assert(post@ =~= pre@.insert(k, v));
    }

    pub fn new() -> (r: Self)
        ensures
            r.wf(),
            r@ == Map::<(Seq<char>, Seq<char>), V>::empty(),
            r.spec_len() == 0,
    {
        let r = HashMap2 { entries: Vec::new() };
        proof {
            assert(r@ =~= Map::<(Seq<char>, Seq<char>), V>::empty());
        }
        r
    }

    /// Position of the entry under the given key pair, if there is one.
    fn find(&self, key1: &Vec<char>, key2: &Vec<char>) -> (r: Option<usize>)
        ensures
            match r {
                Some(t) => 0 <= t < self.spec_len() && self.key_at(t as int) == (key1@, key2@),
                None => !self.has_key((key1@, key2@)),
            },
    {
        let n = self.entries.len();
        let mut t: usize = 0;
        while t < n
            invariant
                t <= n,
                n == self.spec_len(),
                forall|s: int| 0 <= s < t ==> #[trigger] self.key_at(s) != (key1@, key2@),
            decreases n - t,
        {
            if chars_eq(&self.entries[t].0, key1) && chars_eq(&self.entries[t].1, key2) {
                assert(self.key_at(t as int) == (key1@, key2@));
                return Some(t);
            }
            assert(self.key_at(t as int) != (key1@, key2@));
            t = t + 1;
        }
        proof {
            if self.has_key((key1@, key2@)) {
                let s = choose|s: int| 0 <= s < self.spec_len() && self.key_at(s) == (key1@, key2@);
                assert(self.key_at(s) != (key1@, key2@));
            }
        }
        None
    }

    /// Insert-or-replace.
    pub fn insert(&mut self, key1: Vec<char>, key2: Vec<char>, value: V)
        requires
            old(self).wf(),
        ensures
            final(self).wf(),
            final(self)@ == old(self)@.insert((key1@, key2@), value),
    {
        match self.find(&key1, &key2) {
            Some(t) => {
                let e = &mut self.entries[t];
                e.2 = value;
                proof {
                    Self::lemma_value_replaced(*old(self), *self, t as int, e.2);
                }
            }
            None => {
                self.entries.push((key1, key2, value));
                proof {
                    Self::lemma_entry_pushed(*old(self), *self, (key1@, key2@), value);
                }
            }
        }
    }

    /// Lookup by borrowed key pair.
    pub fn get(&self, key1: &Vec<char>, key2: &Vec<char>) -> (r: Option<&V>)
        requires
            self.wf(),
        ensures
            match r {
                Some(v) => self@.contains_key((key1@, key2@)) && *v == self@[(key1@, key2@)],
                None => !self@.contains_key((key1@, key2@)),
            },
    {
        match self.find(key1, key2) {
            Some(t) => {
                proof {
                    self.lemma_entry_in_view(t as int);
                }
                Some(&self.entries[t].2)
            }
            None => None,
        }
    }

    /// Membership test.
    pub fn contains_key(&self, key1: &Vec<char>, key2: &Vec<char>) -> (r: bool)
        requires
            self.wf(),
        ensures
            r == self@.contains_key((key1@, key2@)),
    {
        match self.find(key1, key2) {
            Some(t) => {
                proof {
                    self.lemma_entry_in_view(t as int);
                }
                true
            }
            None => false,
        }
    }

    /// Number of entries; iteration runs over positions `0..len()`.
    pub fn len(&self) -> (r: usize)
        ensures
            r == self.spec_len(),
    {
        self.entries.len()
    }

    pub fn key1_at(&self, t: usize) -> (r: &Vec<char>)
        requires
            t < self.spec_len(),
        ensures
            r@ == self.key_at(t as int).0,
    {
        &self.entries[t].0
    }

    pub fn key2_at(&self, t: usize) -> (r: &Vec<char>)
        requires
            t < self.spec_len(),
        ensures
            r@ == self.key_at(t as int).1,
    {
        &self.entries[t].1
    }

    pub fn value_at(&self, t: usize) -> (r: &V)
        requires
            t < self.spec_len(),
        ensures
            *r == self.val_at(t as int),
    {
        &self.entries[t].2
    }

    /// Replace the value of the entry at position `t`, leaving every key
    /// and every other value in place.
    pub fn set_value_at(&mut self, t: usize, value: V)
        requires
            old(self).wf(),
            t < old(self).spec_len(),
        ensures
            final(self).wf(),
            final(self).spec_len() == old(self).spec_len(),
            forall|s: int| 0 <= s < old(self).spec_len()
                ==> #[trigger] final(self).key_at(s) == old(self).key_at(s),
            forall|s: int| 0 <= s < old(self).spec_len() && s != t
                ==> #[trigger] final(self).val_at(s) == old(self).val_at(s),
            final(self).val_at(t as int) == value,
            final(self)@ == old(self)@.insert(old(self).key_at(t as int), value),
    {
        let e = &mut self.entries[t];
        e.2 = value;
        proof {
            Self::lemma_value_replaced(*old(self), *self, t as int, value);
        }
    }
}

/// A membership-only structure over quadruples of character sequences,
/// compared by content. It holds the mergeable adjacencies.
pub struct HashSet4 {
    entries: Vec<(Vec<char>, Vec<char>, Vec<char>, Vec<char>)>,
}

impl HashSet4 {
    pub closed spec fn spec_len(self) -> int {
        self.entries.len() as int
    }

    pub closed spec fn key_at(self, t: int) -> (Seq<char>, Seq<char>, Seq<char>, Seq<char>) {
        (self.entries[t].0@, self.entries[t].1@, self.entries[t].2@, self.entries[t].3@)
    }

    /// The set this container stands for.
    pub closed spec fn view(self) -> Set<(Seq<char>, Seq<char>, Seq<char>, Seq<char>)> {
        Set::new(|k: (Seq<char>, Seq<char>, Seq<char>, Seq<char>)|
            exists|t: int| 0 <= t < self.spec_len() && self.key_at(t) == k)
    }

    pub fn new() -> (r: Self)
        ensures
            r@ == Set::<(Seq<char>, Seq<char>, Seq<char>, Seq<char>)>::empty(),
    {
        let r = HashSet4 { entries: Vec::new() };
        proof {
            assert(r@ =~= Set::<(Seq<char>, Seq<char>, Seq<char>, Seq<char>)>::empty());
        }
        r
    }

    fn find(&self, k1: &Vec<char>, k2: &Vec<char>, k3: &Vec<char>, k4: &Vec<char>) -> (r: bool)
        ensures
            r == exists|t: int| 0 <= t < self.spec_len() && self.key_at(t) == (k1@, k2@, k3@, k4@),
    {
        let n = self.entries.len();
        let mut t: usize = 0;
        while t < n
            invariant
                t <= n,
                n == self.spec_len(),
                forall|s: int| 0 <= s < t ==> #[trigger] self.key_at(s) != (k1@, k2@, k3@, k4@),
            decreases n - t,
        {
            if chars_eq(&self.entries[t].0, k1) && chars_eq(&self.entries[t].1, k2)
                && chars_eq(&self.entries[t].2, k3) && chars_eq(&self.entries[t].3, k4) {
                assert(self.key_at(t as int) == (k1@, k2@, k3@, k4@));
                return true;
            }
            assert(self.key_at(t as int) != (k1@, k2@, k3@, k4@));
            t = t + 1;
        }
        proof {
            if exists|s: int| 0 <= s < self.spec_len() && self.key_at(s) == (k1@, k2@, k3@, k4@) {
                let s = choose|s: int| 0 <= s < self.spec_len() && self.key_at(s) == (k1@, k2@, k3@, k4@);
                assert(self.key_at(s) != (k1@, k2@, k3@, k4@));
            }
        }
        false
    }

    pub fn insert(&mut self, key1: Vec<char>, key2: Vec<char>, key3: Vec<char>, key4: Vec<char>)
        ensures
            final(self)@ == old(self)@.insert((key1@, key2@, key3@, key4@)),
    {
        if !self.find(&key1, &key2, &key3, &key4) {
            self.entries.push((key1, key2, key3, key4));
        }
        proof {
            let k = (key1@, key2@, key3@, key4@);
            assert forall|k2: (Seq<char>, Seq<char>, Seq<char>, Seq<char>)|
                self@.contains(k2) == old(self)@.insert(k).contains(k2) by {
                let n = old(self).spec_len();
                if self.spec_len() == n + 1 {
                    assert(self.key_at(n) == k);
                    if self@.contains(k2) {
                        let s = choose|s: int| 0 <= s < self.spec_len() && self.key_at(s) == k2;
                        if s < n {
                            assert(old(self).key_at(s) == k2);
                        }
                    }
                    if old(self)@.contains(k2) {
                        let s = choose|s: int| 0 <= s < n && old(self).key_at(s) == k2;
                        assert(self.key_at(s) == k2);
                    }
                } else {
                    if old(self)@.contains(k2) {
                        let s = choose|s: int| 0 <= s < n && old(self).key_at(s) == k2;
                        assert(self.key_at(s) == k2);
                    }
                }
            }
            assert(final(self)@ =~= old(self)@.insert(k));
        }
    }

    pub fn contains(&self, key1: &Vec<char>, key2: &Vec<char>, key3: &Vec<char>, key4: &Vec<char>) -> (r: bool)
        ensures
            r == self@.contains((key1@, key2@, key3@, key4@)),
    {
        self.find(key1, key2, key3, key4)
    }
}

} // verus!
