//! Validator weight tables and sums of weights.

use vstd::prelude::*;

use crate::maps::KvMap;

verus! {

/// Largest admissible sum of all weights of one era. Keeping the total at
/// or below a third of the integer range lets every threshold product
/// `3 * signed` and `2 * total` be computed exactly.
pub const MAX_TOTAL_WEIGHT: u128 = u128::MAX / 3;

/// The sum of the values of a finite map from validator to weight.
pub open spec fn map_sum(m: Map<u64, u128>) -> int
    decreases m.dom().len(),
    when m.dom().finite()
{
    if m.dom().len() == 0 {
        0
    } else {
        let k = m.dom().choose();
        m[k] + map_sum(m.remove(k))
    }
}

/// Taking a key out of the map takes exactly its weight out of the sum.
pub proof fn lemma_map_sum_remove(m: Map<u64, u128>, k: u64)
    requires
        m.dom().finite(),
        m.dom().contains(k),
    ensures
        map_sum(m) == m[k] + map_sum(m.remove(k)),
    decreases m.dom().len(),
{
    let c = m.dom().choose();
    assert(m.dom().contains(c));
    if c == k {
    } else {
        lemma_map_sum_remove(m.remove(c), k);
        lemma_map_sum_remove(m.remove(k), c);
        assert(m.remove(c).remove(k) =~= m.remove(k).remove(c));
        assert(m.remove(c)[k] == m[k]);
        assert(m.remove(k)[c] == m[c]);
        assert(m.remove(k).dom().choose() == m.remove(k).dom().choose());
        lemma_map_sum_choose(m.remove(k));
    }
}

/// Unfolds one step of `map_sum` for a nonempty map.
proof fn lemma_map_sum_choose(m: Map<u64, u128>)
    requires
        m.dom().finite(),
        m.dom().len() > 0,
    ensures
        map_sum(m) == m[m.dom().choose()] + map_sum(m.remove(m.dom().choose())),
{
}

/// A sum of weights is never negative.
pub proof fn lemma_map_sum_nonneg(m: Map<u64, u128>)
    requires
        m.dom().finite(),
    ensures
        map_sum(m) >= 0,
    decreases m.dom().len(),
{
    if m.dom().len() > 0 {
        let k = m.dom().choose();
        assert(m.dom().contains(k));
        lemma_map_sum_nonneg(m.remove(k));
    }
}

/// Adding a fresh key adds exactly its weight to the sum.
pub proof fn lemma_map_sum_insert(m: Map<u64, u128>, k: u64, v: u128)
    requires
        m.dom().finite(),
        !m.dom().contains(k),
    ensures
        map_sum(m.insert(k, v)) == map_sum(m) + v,
{
    lemma_map_sum_remove(m.insert(k, v), k);
    assert(m.insert(k, v).remove(k) =~= m);
}

/// The sum over a restriction never exceeds the sum over the whole map.
pub proof fn lemma_map_sum_restrict(m: Map<u64, u128>, s: Set<u64>)
    requires
        m.dom().finite(),
    ensures
        map_sum(m) == map_sum(m.restrict(s)) + map_sum(m.remove_keys(s)),
        map_sum(m.restrict(s)) <= map_sum(m),
        map_sum(m.restrict(s)) >= 0,
    decreases m.dom().len(),
{
    assert(m.restrict(s).dom() =~= m.dom().intersect(s));
    assert(m.remove_keys(s).dom() =~= m.dom().difference(s));
    vstd::set_lib::lemma_len_subset(m.restrict(s).dom(), m.dom());
    vstd::set_lib::lemma_len_subset(m.remove_keys(s).dom(), m.dom());
    if m.dom().len() == 0 {
        assert(m.restrict(s).dom() =~= Set::<u64>::empty());
        assert(m.remove_keys(s).dom() =~= Set::<u64>::empty());
    } else {
        let k = m.dom().choose();
        assert(m.dom().contains(k));
        lemma_map_sum_restrict(m.remove(k), s);
        if s.contains(k) {
            assert(m.remove(k).restrict(s) =~= m.restrict(s).remove(k));
            assert(m.remove(k).remove_keys(s) =~= m.remove_keys(s));
            lemma_map_sum_remove(m.restrict(s), k);
            assert(m.restrict(s)[k] == m[k]);
        } else {
            assert(m.remove(k).restrict(s) =~= m.restrict(s));
            assert(m.remove(k).remove_keys(s) =~= m.remove_keys(s).remove(k));
            lemma_map_sum_remove(m.remove_keys(s), k);
            assert(m.remove_keys(s)[k] == m[k]);
        }
        lemma_map_sum_nonneg(m.remove_keys(s));
        lemma_map_sum_nonneg(m.restrict(s));
    }
}

/// A single weight never exceeds the sum of its map.
pub proof fn lemma_map_sum_member(m: Map<u64, u128>, k: u64)
    requires
        m.dom().finite(),
        m.dom().contains(k),
    ensures
        map_sum(m) >= m[k],
    decreases m.dom().len(),
{
    lemma_map_sum_remove(m, k);
    lemma_map_sum_nonneg(m.remove(k));
}

/// The validator weight table of one era: a map from validator to weight
/// with its total maintained alongside, the total bounded so that
/// threshold arithmetic cannot overflow.
pub struct WeightMap {
    pub entries: KvMap<u128>,
    pub total: u128,
}

impl View for WeightMap {
    type V = Map<u64, u128>;

    open spec fn view(&self) -> Map<u64, u128> {
        self.entries@
    }
}

impl WeightMap {
    /// Well-formed: keys unique, the cached total is the sum of all
    /// weights, and it stays within the admissible range.
    pub open spec fn wf(&self) -> bool {
        &&& self.entries.wf()
        &&& self.total == map_sum(self@)
        &&& self.total <= MAX_TOTAL_WEIGHT
    }

    pub fn new() -> (r: WeightMap)
        ensures
            r.wf(),
            r@ =~= Map::<u64, u128>::empty(),
    {
        let r = WeightMap { entries: KvMap::new(), total: 0 };
        proof {
            assert(r@.dom() =~= Set::<u64>::empty());
        }
        r
    }

    /// Inserts or replaces a validator's weight. Returns `false` and
    /// leaves the table unchanged when the new total would exceed
    /// `MAX_TOTAL_WEIGHT`.
    pub fn insert(&mut self, key: u64, weight: u128) -> (r: bool)
        requires
            old(self).wf(),
        ensures
            final(self).wf(),
            r ==> final(self)@ =~= old(self)@.insert(key, weight),
            !r ==> *final(self) == *old(self),
            r <==> map_sum(old(self)@.insert(key, weight)) <= MAX_TOTAL_WEIGHT,
    {
        proof {
            self.entries.lemma_len();
        }
        let prior: u128 = match self.entries.get(key) {
            Some(w) => *w,
            None => 0,
        };
        proof {
            if self@.dom().contains(key) {
                lemma_map_sum_remove(self@, key);
                lemma_map_sum_insert(self@.remove(key), key, weight);
                assert(self@.insert(key, weight) =~= self@.remove(key).insert(key, weight));
                lemma_map_sum_nonneg(self@.remove(key));
            } else {
                lemma_map_sum_insert(self@, key, weight);
            }
        }
        let base: u128 = self.total - prior;
        if weight > MAX_TOTAL_WEIGHT - base {
            return false;
        }
        self.total = base + weight;
        self.entries.insert(key, weight);
        true
    }

    pub fn get(&self, key: u64) -> (r: Option<&u128>)
        requires
            self.wf(),
        ensures
            match r {
                Some(w) => self@.dom().contains(key) && *w == self@[key],
                None => !self@.dom().contains(key),
            },
    {
        self.entries.get(key)
    }

    pub fn contains_key(&self, key: u64) -> (r: bool)
        requires
            self.wf(),
        ensures
            r <==> self@.dom().contains(key),
    {
        self.entries.contains_key(key)
    }

    /// The sum of all weights in the table.
    pub fn total_weight(&self) -> (r: u128)
        requires
            self.wf(),
        ensures
            r == map_sum(self@),
            r <= MAX_TOTAL_WEIGHT,
    {
        self.total
    }

    pub fn len(&self) -> (r: usize)
        requires
            self.wf(),
        ensures
            r == self@.dom().len(),
    {
        self.entries.len()
    }
}

} // verus!
