//! Insert-or-accumulate mappings from names to values, held as association
//! vectors with pairwise-distinct keys. Insertion order is incidental; the
//! contracts speak only of the final key-to-value state, through `spec_get`.

use vstd::prelude::*;
use vstd::pervasive::VecAdditionalExecFns;
use crate::money::Money;

verus! {

/// A mapping from names to values, one entry per distinct name.
#[derive(Debug, PartialEq)]
pub struct Tally<V> {
    pub entries: Vec<(String, V)>,
}

pub open spec fn keys_unique<V>(s: Seq<(String, V)>) -> bool {
    forall|i: int, j: int| 0 <= i < j < s.len() ==> s[i].0@ != s[j].0@
}

/// The value bound to `key`, scanning entries from the front.
pub open spec fn spec_get<V>(s: Seq<(String, V)>, key: Seq<char>) -> Option<V>
    decreases s.len(),
{
    if s.len() == 0 {
        None
    } else if s[0].0@ == key {
        Some(s[0].1)
    } else {
        spec_get(s.drop_first(), key)
    }
}

proof fn lemma_get_push<V>(s: Seq<(String, V)>, e: (String, V), key: Seq<char>)
    ensures
        spec_get(s.push(e), key) == (if spec_get(s, key) is Some {
            spec_get(s, key)
        } else if e.0@ == key {
            Some(e.1)
        } else {
            None::<V>
        }),
    decreases s.len(),
{
    if s.len() == 0 {
        assert(s.push(e)[0] == e);
        assert(s.push(e).drop_first() =~= Seq::<(String, V)>::empty());
        assert(spec_get(s.push(e).drop_first(), key) is None);
    } else {
        assert(s.push(e)[0] == s[0]);
        assert(s.push(e).drop_first() =~= s.drop_first().push(e));
        lemma_get_push(s.drop_first(), e, key);
        if s[0].0@ == key {
            assert(spec_get(s.push(e), key) == Some(s[0].1));
            assert(spec_get(s, key) == Some(s[0].1));
        } else {
            assert(spec_get(s.push(e), key) == spec_get(s.drop_first().push(e), key));
            assert(spec_get(s, key) == spec_get(s.drop_first(), key));
        }
    }
}

proof fn lemma_get_update<V>(s: Seq<(String, V)>, i: int, e: (String, V), key: Seq<char>)
    requires
        0 <= i < s.len(),
        e.0@ == s[i].0@,
        keys_unique(s),
    ensures
        spec_get(s.update(i, e), key) == (if s[i].0@ == key {
            Some(e.1)
        } else {
            spec_get(s, key)
        }),
    decreases s.len(),
{
    if i == 0 {
        assert(s.update(i, e)[0] == e);
        assert(s.update(i, e).drop_first() =~= s.drop_first());
    } else {
        assert(s.update(i, e)[0] == s[0]);
        assert(s.update(i, e).drop_first() =~= s.drop_first().update(i - 1, e));
        assert(keys_unique(s.drop_first())) by {
            assert(forall|p: int, q: int|
                0 <= p < q < s.drop_first().len() ==> s.drop_first()[p] == s[p + 1]
                    && s.drop_first()[q] == s[q + 1]);
        }
        lemma_get_update(s.drop_first(), i - 1, e, key);
        if s[i].0@ == key {
            assert(s[0].0@ != key);
        }
    }
}

/// With no entry for `key` among the first `i`, the lookup is decided by the
/// rest.
proof fn lemma_get_skip<V>(s: Seq<(String, V)>, i: int, key: Seq<char>)
    requires
        0 <= i <= s.len(),
        forall|t: int| 0 <= t < i ==> s[t].0@ != key,
    ensures
        spec_get(s, key) == spec_get(s.skip(i), key),
    decreases i,
{
    if i == 0 {
        assert(s.skip(0) =~= s);
    } else {
        assert(spec_get(s, key) == spec_get(s.drop_first(), key));
        assert(forall|t: int|
            0 <= t < i - 1 ==> s.drop_first()[t] == s[t + 1] && s[t + 1].0@ != key);
        lemma_get_skip(s.drop_first(), i - 1, key);
        assert(s.drop_first().skip(i - 1) =~= s.skip(i));
    }
}

pub proof fn lemma_get_found<V>(s: Seq<(String, V)>, i: int, key: Seq<char>)
    requires
        0 <= i < s.len(),
        forall|t: int| 0 <= t < i ==> s[t].0@ != key,
        s[i].0@ == key,
    ensures
        spec_get(s, key) == Some(s[i].1),
{
    lemma_get_skip(s, i, key);
    assert(s.skip(i)[0] == s[i]);
}

proof fn lemma_get_none<V>(s: Seq<(String, V)>, key: Seq<char>)
    requires
        forall|t: int| 0 <= t < s.len() ==> s[t].0@ != key,
    ensures
        spec_get(s, key) is None,
{
    lemma_get_skip(s, s.len() as int, key);
    assert(s.skip(s.len() as int) =~= Seq::<(String, V)>::empty());
}

/// A name has a binding exactly when some entry carries it.
pub proof fn lemma_get_some_iff<V>(s: Seq<(String, V)>, key: Seq<char>)
    ensures
        (spec_get(s, key) is Some) == (exists|t: int| 0 <= t < s.len() && s[t].0@ == key),
    decreases s.len(),
{
    if s.len() == 0 {
    } else if s[0].0@ == key {
        assert(0 <= 0 < s.len() && s[0].0@ == key);
    } else {
        lemma_get_some_iff(s.drop_first(), key);
        if spec_get(s, key) is Some {
            let t = choose|t: int| 0 <= t < s.drop_first().len() && s.drop_first()[t].0@ == key;
            assert(s[t + 1].0@ == key);
        } else {
            if exists|t: int| 0 <= t < s.len() && s[t].0@ == key {
                let t = choose|t: int| 0 <= t < s.len() && s[t].0@ == key;
                assert(t >= 1);
                assert(s.drop_first()[t - 1].0@ == key);
            }
        }
    }
}

impl<V: Copy> Tally<V> {
    pub open spec fn wf(self) -> bool {
        keys_unique(self.entries@)
    }

    /// The value bound to a name, as the contracts see it.
    pub open spec fn get_spec(self, key: Seq<char>) -> Option<V> {
        spec_get(self.entries@, key)
    }

    pub fn new() -> (t: Tally<V>)
        ensures
            t.wf(),
            t.entries@.len() == 0,
            forall|k: Seq<char>| #[trigger] t.get_spec(k) is None,
    {
        Tally { entries: Vec::new() }
    }

    /// Looks a name up.
    pub fn get(&self, key: &String) -> (r: Option<V>)
        ensures
            r == self.get_spec(key@),
    {
        let n = self.entries.len();
        let mut i: usize = 0;
        while i < n
            invariant
                n == self.entries@.len(),
                0 <= i <= n,
                forall|t: int| 0 <= t < i ==> self.entries@[t].0@ != key@,
            decreases n - i,
        {
            if self.entries[i].0 == *key {
                proof {
                    lemma_get_found(self.entries@, i as int, key@);
                }
                return Some(self.entries[i].1);
            }
            i = i + 1;
        }
        proof {
            lemma_get_none(self.entries@, key@);
        }
        None
    }

    /// Binds a name to a value, replacing any earlier binding.
    pub fn put(&mut self, key: &String, value: V)
        requires
            old(self).wf(),
        ensures
            final(self).wf(),
            final(self).get_spec(key@) == Some(value),
            forall|k: Seq<char>|
                k != key@ ==> #[trigger] final(self).get_spec(k) == old(self).get_spec(k),
            final(self).entries@.len() <= old(self).entries@.len() + 1,
    {
        let ghost olds = self.entries@;
        let n = self.entries.len();
        let mut i: usize = 0;
        while i < n
            invariant
                self.entries@ == olds,
                olds == old(self).entries@,
                keys_unique(olds),
                n == olds.len(),
                0 <= i <= n,
                forall|t: int| 0 <= t < i ==> olds[t].0@ != key@,
            decreases n - i,
        {
            if self.entries[i].0 == *key {
                proof {
                    lemma_get_found(olds, i as int, key@);
                }
                self.entries.set(i, (clone_string(key), value));
                proof {
                    let e = self.entries@[i as int];
                    assert(self.entries@ =~= olds.update(i as int, e));
                    assert(self.get_spec(key@) == Some(value)) by {
                        lemma_get_update(olds, i as int, e, key@);
                    }
                    assert forall|k: Seq<char>| k != key@ implies #[trigger] self.get_spec(k)
                        == spec_get(olds, k) by {
                        lemma_get_update(olds, i as int, e, k);
                    }
                    assert(keys_unique(self.entries@)) by {
                        assert(forall|t: int|
                            0 <= t < olds.len() ==> self.entries@[t].0@ == olds[t].0@);
                    }
                }
                return;
            }
            i = i + 1;
        }
        self.entries.push((clone_string(key), value));
        proof {
            let e = self.entries@[olds.len() as int];
            assert(self.entries@ =~= olds.push(e));
            lemma_get_none(olds, key@);
            assert(self.get_spec(key@) == Some(value)) by {
                lemma_get_push(olds, e, key@);
            }
            assert forall|k: Seq<char>| k != key@ implies #[trigger] self.get_spec(k) == spec_get(
                olds,
                k,
            ) by {
                lemma_get_push(olds, e, k);
            }
            assert(keys_unique(self.entries@)) by {
                assert(forall|t: int| 0 <= t < olds.len() ==> self.entries@[t].0@ == olds[t].0@);
                assert(self.entries@[olds.len() as int].0@ == key@);
            }
        }
    }
}

impl Tally<Money> {
    /// Adds an amount to a name's running value, starting it at zero if the
    /// name is new.
    pub fn accumulate(&mut self, key: &String, delta: Money)
        requires
            old(self).wf(),
            i128::MIN <= (match old(self).get_spec(key@) {
                Some(m) => m.units as int,
                None => 0,
            }) + delta.units <= i128::MAX,
        ensures
            final(self).wf(),
            final(self).get_spec(key@) is Some,
            final(self).get_spec(key@).unwrap().units == (match old(self).get_spec(key@) {
                Some(m) => m.units as int,
                None => 0,
            }) + delta.units,
            forall|k: Seq<char>|
                k != key@ ==> #[trigger] final(self).get_spec(k) == old(self).get_spec(k),
            final(self).entries@.len() <= old(self).entries@.len() + 1,
    {
        let current = self.get(key);
        let next = match current {
            Some(m) => Money { units: m.units + delta.units },
            None => delta,
        };
        self.put(key, next);
    }
}

/// A clone with the same view.
fn clone_string(s: &String) -> (r: String)
    ensures
        r@ == s@,
{
    s.clone()
}

} // verus!
