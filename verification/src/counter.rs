//! A counter: keys with their multiplicities, kept as key/count pairs.

use vstd::prelude::*;
use vstd::std_specs::cmp::PartialEqSpec;

verus! {

/// The index of the first pair in `pairs` whose key equals `key` under the
/// key type's equality; the length when no pair matches.
pub open spec fn first_key_index<T: PartialEq>(pairs: Seq<(T, usize)>, key: T) -> int
    decreases pairs.len(),
{
    if pairs.len() == 0 {
        0
    } else if pairs[0].0.eq_spec(&key) {
        0
    } else {
        1 + first_key_index(pairs.drop_first(), key)
    }
}

/// The count `pairs` records for `key`: the count of the first matching
/// pair, or zero when the key is absent.
pub open spec fn count_in<T: PartialEq>(pairs: Seq<(T, usize)>, key: T) -> usize {
    let j = first_key_index(pairs, key);
    if j < pairs.len() {
        pairs[j].1
    } else {
        0
    }
}

/// The first matching index lies in range, matches when it is in range,
/// and nothing before it matches.
proof fn lemma_first_key_index<T: PartialEq>(pairs: Seq<(T, usize)>, key: T)
    ensures
        0 <= first_key_index(pairs, key) <= pairs.len(),
        first_key_index(pairs, key) < pairs.len() ==> pairs[first_key_index(pairs, key)].0.eq_spec(
            &key,
        ),
        forall|k: int|
            0 <= k < first_key_index(pairs, key) ==> !(#[trigger] pairs[k].0.eq_spec(&key)),
    decreases pairs.len(),
{
    if pairs.len() > 0 && !pairs[0].0.eq_spec(&key) {
        lemma_first_key_index(pairs.drop_first(), key);
        let j = first_key_index(pairs, key);
        assert(j == 1 + first_key_index(pairs.drop_first(), key));
        if j < pairs.len() {
            assert(pairs[j] == pairs.drop_first()[j - 1]);
        }
        assert forall|k: int| 0 <= k < j implies !(#[trigger] pairs[k].0.eq_spec(&key)) by {
            if k >= 1 {
                assert(pairs[k] == pairs.drop_first()[k - 1]);
            }
        }
    }
}

/// Keys with their counts.  The pair list is public, like the map it
/// stands for in spirit: callers may walk it freely.
#[derive(Debug, Clone)]
pub struct Counter<T>(pub Vec<(T, usize)>);

impl<T> Counter<T> {
    /// An empty counter.
    pub fn new() -> (r: Self)
        ensures
            r.0@ == Seq::<(T, usize)>::empty(),
    {
        Counter(Vec::new())
    }

    /// The number of keys held.
    pub fn len(&self) -> (r: usize)
        ensures
            r == self.0@.len(),
    {
        self.0.len()
    }

    /// Whether no key is held.
    pub fn is_empty(&self) -> (r: bool)
        ensures
            r == (self.0@.len() == 0),
    {
        self.0.len() == 0
    }

    /// The key/count pairs, in storage order.
    pub fn iter(&self) -> (r: &[(T, usize)])
        ensures
            r@ == self.0@,
    {
        self.0.as_slice()
    }

    /// Removes every entry.
    pub fn clear(&mut self)
        ensures
            final(self).0@ == Seq::<(T, usize)>::empty(),
    {
        self.0 = Vec::new();
    }
}

impl<T: PartialEq> Counter<T> {
    /// The keys are pairwise distinct under the key type's equality.
    pub open spec fn wf(self) -> bool {
        forall|k: int, l: int|
            0 <= k < l < self.0@.len() ==> !(#[trigger] self.0@[k].0.eq_spec(&self.0@[l].0))
    }

    /// The count recorded for `key`; zero when the key is absent.
    pub fn get(&self, key: &T) -> (r: usize)
        requires
            T::obeys_eq_spec(),
        ensures
            r == count_in(self.0@, *key),
    {
        let n = self.0.len();
        let mut i: usize = 0;
        while i < n
            invariant
                i <= n,
                n == self.0@.len(),
                T::obeys_eq_spec(),
                forall|k: int| 0 <= k < i ==> !(#[trigger] self.0@[k].0.eq_spec(key)),
            decreases n - i,
        {
            if self.0[i].0.eq(key) {
                proof {
                    lemma_first_key_index(self.0@, *key);
                    assert(first_key_index(self.0@, *key) == i);
                }
                return self.0[i].1;
            }
            i = i + 1;
        }
        proof {
            lemma_first_key_index(self.0@, *key);
            assert(first_key_index(self.0@, *key) == n);
        }
        0
    }

    /// Raises the count for `key` by one: the first matching pair's count
    /// grows, or the key is appended with count one when it is absent.
    pub fn increment(&mut self, key: T)
        requires
            T::obeys_eq_spec(),
            old(self).wf(),
            forall|k: int| 0 <= k < old(self).0@.len() ==> (#[trigger] old(self).0@[k]).1
                < usize::MAX,
        ensures
            final(self).wf(),
            ({
                let pairs = old(self).0@;
                let j = first_key_index(pairs, key);
                if j < pairs.len() {
                    final(self).0@ == pairs.update(j, (pairs[j].0, (pairs[j].1 + 1) as usize))
                } else {
                    final(self).0@ == pairs.push((key, 1))
                }
            }),
    {
        let ghost pairs = self.0@;
        let n = self.0.len();
        let mut i: usize = 0;
        while i < n
            invariant
                i <= n,
                n == self.0@.len(),
                T::obeys_eq_spec(),
                self.0@ == pairs,
                pairs == old(self).0@,
                old(self).wf(),
                forall|k: int| 0 <= k < old(self).0@.len() ==> (#[trigger] old(self).0@[k]).1
                    < usize::MAX,
                forall|k: int| 0 <= k < i ==> !(#[trigger] pairs[k].0.eq_spec(&key)),
            decreases n - i,
        {
            if self.0[i].0.eq(&key) {
                proof {
                    lemma_first_key_index(pairs, key);
                    assert(first_key_index(pairs, key) == i);
                }
                let pair = self.0.remove(i);
                let bumped = (pair.0, pair.1 + 1);
                self.0.insert(i, bumped);
                proof {
                    let updated = pairs.update(i as int, (pairs[i as int].0, (pairs[i as int].1
                        + 1) as usize));
                    pairs.remove_ensures(i as int);
                    pairs.remove(i as int).insert_ensures(i as int, bumped);
                    assert(self.0@ =~= updated);
                    assert forall|k: int, l: int| 0 <= k < l < self.0@.len() implies !(
                    #[trigger] self.0@[k].0.eq_spec(&self.0@[l].0)) by {
                        assert(self.0@[k].0 == pairs[k].0);
                        assert(self.0@[l].0 == pairs[l].0);
                    }
                }
                return ;
            }
            i = i + 1;
        }
        proof {
            lemma_first_key_index(pairs, key);
            assert(first_key_index(pairs, key) == n);
        }
        self.0.push((key, 1));
        proof {
            assert forall|k: int, l: int| 0 <= k < l < self.0@.len() implies !(
            #[trigger] self.0@[k].0.eq_spec(&self.0@[l].0)) by {
                if l < pairs.len() {
                    assert(self.0@[k].0 == pairs[k].0);
                    assert(self.0@[l].0 == pairs[l].0);
                } else {
                    assert(self.0@[k] == pairs[k]);
                    assert(self.0@[l].0 == key);
                }
            }
        }
    }
}

impl<T> Default for Counter<T> {
    fn default() -> (r: Self)
        ensures
            r.0@ == Seq::<(T, usize)>::empty(),
    {
        Counter(Vec::new())
    }
}

} // verus!
