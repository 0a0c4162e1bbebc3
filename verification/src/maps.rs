//! Small association maps and sets used to model the keyed stores and the
//! derived lookup tables.
//!
//! Both map types keep their entries in a vector with pairwise-distinct keys
//! and present themselves in specifications as a mathematical `Map` from key
//! to the value's view.

use vstd::prelude::*;

use crate::digest::Digest;

verus! {

/// The map described by an association list keyed by `u64`: later entries
/// override earlier ones, though a well-formed map never has two entries
/// with one key.
pub open spec fn kv_map_of<V: View>(s: Seq<(u64, V)>) -> Map<u64, V::V>
    decreases s.len(),
{
    if s.len() == 0 {
        Map::empty()
    } else {
        kv_map_of(s.drop_last()).insert(s.last().0, s.last().1@)
    }
}

pub proof fn lemma_kv_map_of_dom<V: View>(s: Seq<(u64, V)>)
    ensures
        forall|k: u64|
            kv_map_of(s).dom().contains(k) <==> exists|i: int| 0 <= i < s.len() && s[i].0 == k,
    decreases s.len(),
{
    if s.len() > 0 {
        lemma_kv_map_of_dom(s.drop_last());
        assert(kv_map_of(s) == kv_map_of(s.drop_last()).insert(s.last().0, s.last().1@));
        assert forall|k: u64| kv_map_of(s).dom().contains(k) implies exists|i: int|
            0 <= i < s.len() && s[i].0 == k by {
            if s.last().0 == k {
                assert(s[s.len() - 1].0 == k);
            } else {
                assert(kv_map_of(s.drop_last()).dom().contains(k));
                let i = choose|i: int| 0 <= i < s.drop_last().len() && s.drop_last()[i].0 == k;
                assert(s.drop_last()[i] == s[i]);
                assert(s[i].0 == k);
            }
        }
        assert forall|k: u64| (exists|i: int| 0 <= i < s.len() && s[i].0 == k) implies kv_map_of(
            s,
        ).dom().contains(k) by {
            let i = choose|i: int| 0 <= i < s.len() && s[i].0 == k;
            if i < s.len() - 1 {
                assert(s.drop_last()[i] == s[i]);
                assert(s.drop_last()[i].0 == k);
            }
        }
    }
}

/// Keys are pairwise distinct.
pub open spec fn kv_keys_unique<V: View>(s: Seq<(u64, V)>) -> bool {
    forall|i: int, j: int| 0 <= i < j < s.len() ==> s[i].0 != s[j].0
}

pub proof fn lemma_kv_map_of_index<V: View>(s: Seq<(u64, V)>, i: int)
    requires
        kv_keys_unique(s),
        0 <= i < s.len(),
    ensures
        kv_map_of(s).dom().contains(s[i].0),
        kv_map_of(s)[s[i].0] == s[i].1@,
    decreases s.len(),
{
    lemma_kv_map_of_dom(s);
    if i < s.len() - 1 {
        lemma_kv_map_of_index(s.drop_last(), i);
        assert(s.drop_last()[i] == s[i]);
    }
}

pub proof fn lemma_kv_map_of_update<V: View>(s: Seq<(u64, V)>, i: int, v: V)
    requires
        kv_keys_unique(s),
        0 <= i < s.len(),
    ensures
        kv_map_of(s.update(i, (s[i].0, v))) =~= kv_map_of(s).insert(s[i].0, v@),
    decreases s.len(),
{
    let t = s.update(i, (s[i].0, v));
    if i == s.len() - 1 {
        assert(t.drop_last() =~= s.drop_last());
        assert(t.last() == (s[i].0, v));
    } else {
        assert(t.drop_last() =~= s.drop_last().update(i, (s[i].0, v)));
        assert(s.drop_last()[i] == s[i]);
        lemma_kv_map_of_update(s.drop_last(), i, v);
        assert(t.last() == s.last());
        lemma_kv_map_of_dom(s.drop_last());
    }
}

pub proof fn lemma_kv_map_of_remove<V: View>(s: Seq<(u64, V)>, i: int)
    requires
        kv_keys_unique(s),
        0 <= i < s.len(),
    ensures
        kv_map_of(s.remove(i)) =~= kv_map_of(s).remove(s[i].0),
    decreases s.len(),
{
    lemma_kv_map_of_dom(s.drop_last());
    if i == s.len() - 1 {
        assert(s.remove(i) =~= s.drop_last());
    } else {
        assert(s.remove(i).drop_last() =~= s.drop_last().remove(i));
        assert(s.remove(i).last() == s.last());
        assert(s.drop_last()[i] == s[i]);
        lemma_kv_map_of_remove(s.drop_last(), i);
    }
}

/// An association map keyed by `u64`, the model of the keyed lookup tables
/// whose keys are heights, era identifiers or validator identifiers.
pub struct KvMap<V: View> {
    pub entries: Vec<(u64, V)>,
}

impl<V: View> View for KvMap<V> {
    type V = Map<u64, <V as View>::V>;

    open spec fn view(&self) -> Map<u64, <V as View>::V> {
        kv_map_of(self.entries@)
    }
}

impl<V: View> KvMap<V> {
    /// Well-formed: no key occurs twice.
    pub open spec fn wf(&self) -> bool {
        kv_keys_unique(self.entries@)
    }

    pub fn new() -> (r: KvMap<V>)
        ensures
            r.wf(),
            r@ =~= Map::<u64, <V as View>::V>::empty(),
            r.entries@.len() == 0,
    {
        KvMap { entries: Vec::new() }
    }

    pub fn len(&self) -> (r: usize)
        requires
            self.wf(),
        ensures
            r == self.entries@.len(),
            r == self@.dom().len(),
    {
        proof {
            self.lemma_len();
        }
        self.entries.len()
    }

    /// The number of entries equals the cardinality of the map's domain.
    pub proof fn lemma_len(&self)
        requires
            self.wf(),
        ensures
            self@.dom().len() == self.entries@.len(),
            self@.dom().finite(),
    {
        Self::lemma_len_rec(self.entries@);
    }

    proof fn lemma_len_rec(s: Seq<(u64, V)>)
        requires
            kv_keys_unique(s),
        ensures
            kv_map_of(s).dom().len() == s.len(),
            kv_map_of(s).dom().finite(),
        decreases s.len(),
    {
        if s.len() > 0 {
            Self::lemma_len_rec(s.drop_last());
            lemma_kv_map_of_dom(s.drop_last());
            assert(!kv_map_of(s.drop_last()).dom().contains(s.last().0));
        }
    }

    fn index_of(&self, key: u64) -> (r: Option<usize>)
        requires
            self.wf(),
        ensures
            match r {
                Some(i) => i < self.entries@.len() && self.entries@[i as int].0 == key,
                None => forall|i: int| 0 <= i < self.entries@.len() ==> self.entries@[i].0 != key,
            },
    {
        let n = self.entries.len();
        let mut i: usize = 0;
        while i < n
            invariant
                i <= n,
                n == self.entries@.len(),
                forall|j: int| 0 <= j < i ==> self.entries@[j].0 != key,
            decreases n - i,
        {
            if self.entries[i].0 == key {
                return Some(i);
            }
            i += 1;
        }
        None
    }

    pub fn contains_key(&self, key: u64) -> (r: bool)
        requires
            self.wf(),
        ensures
            r <==> self@.dom().contains(key),
    {
        proof {
            lemma_kv_map_of_dom(self.entries@);
        }
        self.index_of(key).is_some()
    }

    pub fn get(&self, key: u64) -> (r: Option<&V>)
        requires
            self.wf(),
        ensures
            match r {
                Some(v) => self@.dom().contains(key) && v@ == self@[key] && exists|i: int|
                    0 <= i < self.entries@.len() && #[trigger] self.entries@[i] == (key, *v),
                None => !self@.dom().contains(key),
            },
    {
        proof {
            lemma_kv_map_of_dom(self.entries@);
        }
        match self.index_of(key) {
            Some(i) => {
                proof {
                    lemma_kv_map_of_index(self.entries@, i as int);
                }
                Some(&self.entries[i].1)
            },
            None => None,
        }
    }

    /// Inserts, replacing any entry under the same key.
    pub fn insert(&mut self, key: u64, value: V)
        requires
            old(self).wf(),
        ensures
            final(self).wf(),
            final(self)@ =~= old(self)@.insert(key, value@),
            final(self).entries@.len() == if old(self)@.dom().contains(key) {
                old(self).entries@.len() as int
            } else {
                old(self).entries@.len() + 1 as int
            },
            forall|a: int|
                0 <= a < final(self).entries@.len() ==> #[trigger] final(self).entries@[a] == (
                key,
                value,
                ) || old(self).entries@.contains(final(self).entries@[a]),
    {
        proof {
            lemma_kv_map_of_dom(self.entries@);
        }
        let ghost pre = self.entries@;
        match self.index_of(key) {
            Some(i) => {
                proof {
                    lemma_kv_map_of_update(self.entries@, i as int, value);
                }
                self.entries.set(i, (key, value));
                proof {
                    assert forall|a: int|
                        0 <= a < self.entries@.len() implies #[trigger] self.entries@[a] == (
                    key,
                    value,
                    ) || pre.contains(self.entries@[a]) by {
                        if a != i {
                            assert(self.entries@[a] == pre[a]);
                        }
                    }
                }
            },
            None => {
                self.entries.push((key, value));
                proof {
                    assert(self.entries@.drop_last() =~= old(self).entries@);
                    assert forall|a: int|
                        0 <= a < self.entries@.len() implies #[trigger] self.entries@[a] == (
                    key,
                    value,
                    ) || pre.contains(self.entries@[a]) by {
                        if a < pre.len() {
                            assert(self.entries@[a] == pre[a]);
                        }
                    }
                }
            },
        }
    }

    /// Removes the entry under `key`, if any.
    pub fn remove(&mut self, key: u64)
        requires
            old(self).wf(),
        ensures
            final(self).wf(),
            final(self)@ =~= old(self)@.remove(key),
            forall|a: int|
                0 <= a < final(self).entries@.len() ==> old(self).entries@.contains(
                    #[trigger] final(self).entries@[a],
                ),
    {
        proof {
            lemma_kv_map_of_dom(self.entries@);
        }
        let ghost pre = self.entries@;
        match self.index_of(key) {
            Some(i) => {
                proof {
                    lemma_kv_map_of_remove(self.entries@, i as int);
                }
                let _ = self.entries.remove(i);
                proof {
                    assert forall|a: int| 0 <= a < self.entries@.len() implies pre.contains(
                        #[trigger] self.entries@[a],
                    ) by {
                        if a < i {
                            assert(self.entries@[a] == pre[a]);
                        } else {
                            assert(self.entries@[a] == pre[a + 1]);
                        }
                    }
                }
            },
            None => {
                proof {
                    assert(self@ =~= self@.remove(key));
                }
            },
        }
    }

    /// The keys, in entry order.
    pub fn keys(&self) -> (r: Vec<u64>)
        requires
            self.wf(),
        ensures
            r@.len() == self.entries@.len(),
            forall|i: int| 0 <= i < r@.len() ==> r@[i] == self.entries@[i].0,
            forall|k: u64| self@.dom().contains(k) <==> r@.contains(k),
    {
        let n = self.entries.len();
        let mut r: Vec<u64> = Vec::new();
        let mut i: usize = 0;
        while i < n
            invariant
                i <= n,
                n == self.entries@.len(),
                r@.len() == i,
                forall|j: int| 0 <= j < i ==> r@[j] == self.entries@[j].0,
            decreases n - i,
        {
            r.push(self.entries[i].0);
            i += 1;
        }
        proof {
            lemma_kv_map_of_dom(self.entries@);
            assert forall|k: u64| self@.dom().contains(k) implies r@.contains(k) by {
                let i = choose|i: int| 0 <= i < self.entries@.len() && self.entries@[i].0 == k;
                assert(r@[i] == k);
            }
        }
        r
    }
}

/// The map described by an association list keyed by digests.
pub open spec fn digest_map_of<V: View>(s: Seq<(Digest, V)>) -> Map<Seq<u8>, V::V>
    decreases s.len(),
{
    if s.len() == 0 {
        Map::empty()
    } else {
        digest_map_of(s.drop_last()).insert(s.last().0@, s.last().1@)
    }
}

pub proof fn lemma_digest_map_of_dom<V: View>(s: Seq<(Digest, V)>)
    ensures
        forall|k: Seq<u8>|
            digest_map_of(s).dom().contains(k) <==> exists|i: int| 0 <= i < s.len() && s[i].0@ == k,
    decreases s.len(),
{
    if s.len() > 0 {
        lemma_digest_map_of_dom(s.drop_last());
        assert(digest_map_of(s) == digest_map_of(s.drop_last()).insert(s.last().0@, s.last().1@));
        assert forall|k: Seq<u8>| digest_map_of(s).dom().contains(k) implies exists|i: int|
            0 <= i < s.len() && s[i].0@ == k by {
            if s.last().0@ == k {
                assert(s[s.len() - 1].0@ == k);
            } else {
                assert(digest_map_of(s.drop_last()).dom().contains(k));
                let i = choose|i: int| 0 <= i < s.drop_last().len() && s.drop_last()[i].0@ == k;
                assert(s.drop_last()[i] == s[i]);
                assert(s[i].0@ == k);
            }
        }
        assert forall|k: Seq<u8>| (exists|i: int| 0 <= i < s.len() && s[i].0@ == k)
            implies digest_map_of(s).dom().contains(k) by {
            let i = choose|i: int| 0 <= i < s.len() && s[i].0@ == k;
            if i < s.len() - 1 {
                assert(s.drop_last()[i] == s[i]);
                assert(s.drop_last()[i].0@ == k);
            }
        }
    }
}

/// For a key of the map, an index of the entry that carries it.
pub proof fn lemma_digest_map_entry_index<V: View>(s: Seq<(Digest, V)>, k: Seq<u8>) -> (i: int)
    requires
        digest_keys_unique(s),
        digest_map_of(s).dom().contains(k),
    ensures
        0 <= i < s.len(),
        s[i].0@ == k,
        s[i].1@ == digest_map_of(s)[k],
    decreases s.len(),
{
    lemma_digest_map_of_dom(s);
    if s.last().0@ == k {
        s.len() - 1
    } else {
        lemma_digest_map_of_dom(s.drop_last());
        let i = lemma_digest_map_entry_index(s.drop_last(), k);
        assert(s.drop_last()[i] == s[i]);
        i
    }
}

pub open spec fn digest_keys_unique<V: View>(s: Seq<(Digest, V)>) -> bool {
    forall|i: int, j: int| 0 <= i < j < s.len() ==> s[i].0@ != s[j].0@
}

pub proof fn lemma_digest_map_of_index<V: View>(s: Seq<(Digest, V)>, i: int)
    requires
        digest_keys_unique(s),
        0 <= i < s.len(),
    ensures
        digest_map_of(s).dom().contains(s[i].0@),
        digest_map_of(s)[s[i].0@] == s[i].1@,
    decreases s.len(),
{
    lemma_digest_map_of_dom(s);
    if i < s.len() - 1 {
        lemma_digest_map_of_index(s.drop_last(), i);
        assert(s.drop_last()[i] == s[i]);
    }
}

pub proof fn lemma_digest_map_of_update<V: View>(s: Seq<(Digest, V)>, i: int, d: Digest, v: V)
    requires
        digest_keys_unique(s),
        0 <= i < s.len(),
        d@ == s[i].0@,
    ensures
        digest_map_of(s.update(i, (d, v))) =~= digest_map_of(s).insert(d@, v@),
    decreases s.len(),
{
    let t = s.update(i, (d, v));
    if i == s.len() - 1 {
        assert(t.drop_last() =~= s.drop_last());
        assert(t.last() == (d, v));
    } else {
        assert(t.drop_last() =~= s.drop_last().update(i, (d, v)));
        assert(s.drop_last()[i] == s[i]);
        lemma_digest_map_of_update(s.drop_last(), i, d, v);
        assert(t.last() == s.last());
        lemma_digest_map_of_dom(s.drop_last());
    }
}

pub proof fn lemma_digest_map_of_remove<V: View>(s: Seq<(Digest, V)>, i: int)
    requires
        digest_keys_unique(s),
        0 <= i < s.len(),
    ensures
        digest_map_of(s.remove(i)) =~= digest_map_of(s).remove(s[i].0@),
    decreases s.len(),
{
    lemma_digest_map_of_dom(s.drop_last());
    if i == s.len() - 1 {
        assert(s.remove(i) =~= s.drop_last());
    } else {
        assert(s.remove(i).drop_last() =~= s.drop_last().remove(i));
        assert(s.remove(i).last() == s.last());
        assert(s.drop_last()[i] == s[i]);
        lemma_digest_map_of_remove(s.drop_last(), i);
    }
}

/// An association map keyed by content digests: the model of a keyed store
/// or of a lookup table keyed by block hash.
pub struct DigestMap<V: View> {
    pub entries: Vec<(Digest, V)>,
}

impl<V: View> View for DigestMap<V> {
    type V = Map<Seq<u8>, <V as View>::V>;

    open spec fn view(&self) -> Map<Seq<u8>, <V as View>::V> {
        digest_map_of(self.entries@)
    }
}

impl<V: View> DigestMap<V> {
    pub open spec fn wf(&self) -> bool {
        digest_keys_unique(self.entries@)
    }

    pub fn new() -> (r: DigestMap<V>)
        ensures
            r.wf(),
            r@ =~= Map::<Seq<u8>, <V as View>::V>::empty(),
            r.entries@.len() == 0,
    {
        DigestMap { entries: Vec::new() }
    }

    fn index_of(&self, key: &Digest) -> (r: Option<usize>)
        requires
            self.wf(),
        ensures
            match r {
                Some(i) => i < self.entries@.len() && self.entries@[i as int].0@ == key@,
                None => forall|i: int| 0 <= i < self.entries@.len() ==> self.entries@[i].0@ != key@,
            },
    {
        let n = self.entries.len();
        let mut i: usize = 0;
        while i < n
            invariant
                i <= n,
                n == self.entries@.len(),
                forall|j: int| 0 <= j < i ==> self.entries@[j].0@ != key@,
            decreases n - i,
        {
            if self.entries[i].0.equals(key) {
                return Some(i);
            }
            i += 1;
        }
        None
    }

    pub fn contains_key(&self, key: &Digest) -> (r: bool)
        requires
            self.wf(),
        ensures
            r <==> self@.dom().contains(key@),
    {
        proof {
            lemma_digest_map_of_dom(self.entries@);
        }
        self.index_of(key).is_some()
    }

    pub fn get(&self, key: &Digest) -> (r: Option<&V>)
        requires
            self.wf(),
        ensures
            match r {
                Some(v) => self@.dom().contains(key@) && v@ == self@[key@] && exists|i: int|
                    0 <= i < self.entries@.len() && #[trigger] self.entries@[i].0@ == key@
                        && self.entries@[i].1 == *v,
                None => !self@.dom().contains(key@),
            },
    {
        proof {
            lemma_digest_map_of_dom(self.entries@);
        }
        match self.index_of(key) {
            Some(i) => {
                proof {
                    lemma_digest_map_of_index(self.entries@, i as int);
                }
                Some(&self.entries[i].1)
            },
            None => None,
        }
    }

    /// Inserts, replacing any entry under the same key.
    pub fn insert(&mut self, key: Digest, value: V)
        requires
            old(self).wf(),
        ensures
            final(self).wf(),
            final(self)@ =~= old(self)@.insert(key@, value@),
            forall|a: int|
                0 <= a < final(self).entries@.len() ==> #[trigger] final(self).entries@[a] == (
                key,
                value,
                ) || old(self).entries@.contains(final(self).entries@[a]),
    {
        proof {
            lemma_digest_map_of_dom(self.entries@);
        }
        let ghost pre = self.entries@;
        match self.index_of(&key) {
            Some(i) => {
                proof {
                    lemma_digest_map_of_update(self.entries@, i as int, key, value);
                }
                self.entries.set(i, (key, value));
                proof {
                    assert forall|a: int|
                        0 <= a < self.entries@.len() implies #[trigger] self.entries@[a] == (
                    key,
                    value,
                    ) || pre.contains(self.entries@[a]) by {
                        if a != i {
                            assert(self.entries@[a] == pre[a]);
                        }
                    }
                }
            },
            None => {
                self.entries.push((key, value));
                proof {
                    assert(self.entries@.drop_last() =~= old(self).entries@);
                    assert forall|a: int|
                        0 <= a < self.entries@.len() implies #[trigger] self.entries@[a] == (
                    key,
                    value,
                    ) || pre.contains(self.entries@[a]) by {
                        if a < pre.len() {
                            assert(self.entries@[a] == pre[a]);
                        }
                    }
                }
            },
        }
    }

    /// Removes the entry under `key`, if any.
    pub fn remove(&mut self, key: &Digest)
        requires
            old(self).wf(),
        ensures
            final(self).wf(),
            final(self)@ =~= old(self)@.remove(key@),
            forall|a: int|
                0 <= a < final(self).entries@.len() ==> old(self).entries@.contains(
                    #[trigger] final(self).entries@[a],
                ),
    {
        proof {
            lemma_digest_map_of_dom(self.entries@);
        }
        let ghost pre = self.entries@;
        match self.index_of(key) {
            Some(i) => {
                proof {
                    lemma_digest_map_of_remove(self.entries@, i as int);
                }
                let _ = self.entries.remove(i);
                proof {
                    assert forall|a: int| 0 <= a < self.entries@.len() implies pre.contains(
                        #[trigger] self.entries@[a],
                    ) by {
                        if a < i {
                            assert(self.entries@[a] == pre[a]);
                        } else {
                            assert(self.entries@[a] == pre[a + 1]);
                        }
                    }
                }
            },
            None => {
                proof {
                    assert(self@ =~= self@.remove(key@));
                }
            },
        }
    }
}

/// A set of digests with pairwise-distinct members.
pub struct DigestSet {
    pub items: Vec<Digest>,
}

impl View for DigestSet {
    type V = Set<Seq<u8>>;

    open spec fn view(&self) -> Set<Seq<u8>> {
        self.items@.map_values(|d: Digest| d@).to_set()
    }
}

impl DigestSet {
    pub open spec fn wf(&self) -> bool {
        forall|i: int, j: int| 0 <= i < j < self.items@.len() ==> self.items@[i]@ != self.items@[j]@
    }

    pub fn new() -> (r: DigestSet)
        ensures
            r.wf(),
            r@ =~= Set::<Seq<u8>>::empty(),
            r.items@.len() == 0,
    {
        DigestSet { items: Vec::new() }
    }

    pub fn contains(&self, d: &Digest) -> (r: bool)
        requires
            self.wf(),
        ensures
            r <==> self@.contains(d@),
    {
        let n = self.items.len();
        let mut i: usize = 0;
        while i < n
            invariant
                i <= n,
                n == self.items@.len(),
                forall|j: int| 0 <= j < i ==> self.items@[j]@ != d@,
            decreases n - i,
        {
            if self.items[i].equals(d) {
                proof {
                    assert(self.items@.map_values(|x: Digest| x@)[i as int] == d@);
                }
                return true;
            }
            i += 1;
        }
        proof {
            assert forall|k: Seq<u8>| self@.contains(k) implies exists|j: int|
                0 <= j < n && self.items@[j]@ == k by {
                let m = self.items@.map_values(|x: Digest| x@);
                let j = choose|j: int| 0 <= j < m.len() && m[j] == k;
                assert(self.items@[j]@ == k);
            }
        }
        false
    }

    /// Inserts a digest that is not yet a member.
    pub fn insert(&mut self, d: Digest)
        requires
            old(self).wf(),
            !old(self)@.contains(d@),
        ensures
            final(self).wf(),
            final(self)@ =~= old(self)@.insert(d@),
            final(self).items@.len() == old(self).items@.len() + 1,
    {
        proof {
            assert forall|j: int| 0 <= j < self.items@.len() implies self.items@[j]@ != d@ by {
                if self.items@[j]@ == d@ {
                    assert(self.items@.map_values(|x: Digest| x@)[j] == d@);
                }
            }
        }
        self.items.push(d);
        proof {
            let m0 = old(self).items@.map_values(|x: Digest| x@);
            let m1 = self.items@.map_values(|x: Digest| x@);
            assert(m1 =~= m0.push(d@));
            assert(m1.drop_last() =~= m0);
            assert forall|k: Seq<u8>| m1.to_set().contains(k) implies old(self)@.insert(
                d@,
            ).contains(k) by {
                let j = choose|j: int| 0 <= j < m1.len() && m1[j] == k;
                if j < m0.len() {
                    assert(m0[j] == k);
                }
            }
            assert forall|k: Seq<u8>| old(self)@.insert(d@).contains(k) implies m1.to_set().contains(
                k,
            ) by {
                if k == d@ {
                    assert(m1[m1.len() - 1] == k);
                } else {
                    let j = choose|j: int| 0 <= j < m0.len() && m0[j] == k;
                    assert(m1[j] == k);
                }
            }
        }
    }

    /// Cardinality of the set equals the number of stored digests.
    pub proof fn lemma_len(&self)
        requires
            self.wf(),
        ensures
            self@.finite(),
            self@.len() == self.items@.len(),
    {
        let m = self.items@.map_values(|d: Digest| d@);
        assert(m.no_duplicates());
        m.unique_seq_to_set();
    }
}

} // verus!
