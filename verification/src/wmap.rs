//! A word-keyed association map with mathematical `Map` semantics.

use vstd::prelude::*;
use vstd::pervasive::VecAdditionalExecFns;
use crate::text::str_eq;

verus! {

/// The map described by an association list; an earlier pair wins over
/// a later pair with the same key.
pub open spec fn map_of<V: View>(ps: Seq<(String, V)>) -> Map<Seq<char>, V::V>
    decreases ps.len(),
{
    if ps.len() == 0 {
        Map::empty()
    } else {
        map_of(ps.drop_first()).insert(ps[0].0@, ps[0].1@)
    }
}

/// A map from canonical words to values, backed by an association list.
pub struct WordMap<V> {
    pairs: Vec<(String, V)>,
}

impl<V: View> View for WordMap<V> {
    type V = Map<Seq<char>, V::V>;

    closed spec fn view(&self) -> Map<Seq<char>, V::V> {
        map_of(self.pairs@)
    }
}

proof fn lemma_map_of_dom<V: View>(ps: Seq<(String, V)>, k: Seq<char>)
    ensures
        map_of(ps).dom().contains(k) <==> exists|i: int| 0 <= i < ps.len() && (#[trigger] ps[i]).0@
            == k,
    decreases ps.len(),
{
    if ps.len() > 0 {
        lemma_map_of_dom(ps.drop_first(), k);
        if ps[0].0@ == k {
        } else {
            if map_of(ps).dom().contains(k) {
                let i = choose|i: int|
                    0 <= i < ps.drop_first().len() && (#[trigger] ps.drop_first()[i]).0@ == k;
                assert(ps[i + 1].0@ == k);
            }
            if exists|i: int| 0 <= i < ps.len() && (#[trigger] ps[i]).0@ == k {
                let i = choose|i: int| 0 <= i < ps.len() && (#[trigger] ps[i]).0@ == k;
                assert(ps.drop_first()[i - 1].0@ == k);
            }
        }
    }
}

/// The value at the first pair carrying `k` is the map's value.
proof fn lemma_map_of_first<V: View>(ps: Seq<(String, V)>, i: int)
    requires
        0 <= i < ps.len(),
        forall|j: int| 0 <= j < i ==> (#[trigger] ps[j]).0@ != ps[i].0@,
    ensures
        map_of(ps).dom().contains(ps[i].0@),
        map_of(ps)[ps[i].0@] == ps[i].1@,
    decreases i,
{
    if i == 0 {
    } else {
        assert(forall|j: int|
            0 <= j < i - 1 ==> (#[trigger] ps.drop_first()[j]).0@ == ps[j + 1].0@);
        assert(ps.drop_first()[i - 1] == ps[i]);
        lemma_map_of_first(ps.drop_first(), i - 1);
        assert(ps[0].0@ != ps[i].0@);
    }
}

proof fn lemma_map_of_push_fresh<V: View>(ps: Seq<(String, V)>, k: String, v: V)
    requires
        forall|i: int| 0 <= i < ps.len() ==> (#[trigger] ps[i]).0@ != k@,
    ensures
        map_of(ps.push((k, v))) == map_of(ps).insert(k@, v@),
    decreases ps.len(),
{
    if ps.len() == 0 {
        assert(ps.push((k, v)).drop_first() =~= Seq::<(String, V)>::empty());
        assert(ps.push((k, v))[0] == (k, v));
        assert(map_of(Seq::<(String, V)>::empty()) == Map::<Seq<char>, V::V>::empty());
        assert(map_of(ps.push((k, v))) == map_of(ps.push((k, v)).drop_first()).insert(k@, v@));
        assert(map_of(ps.push((k, v))) =~= map_of(ps).insert(k@, v@));
    } else {
        assert(ps.push((k, v))[0] == ps[0]);
        assert(ps.push((k, v)).drop_first() =~= ps.drop_first().push((k, v)));
        assert(forall|i: int|
            0 <= i < ps.drop_first().len() ==> (#[trigger] ps.drop_first()[i]).0@ == ps[i
                + 1].0@);
        lemma_map_of_push_fresh(ps.drop_first(), k, v);
        assert(map_of(ps.drop_first()).insert(k@, v@).insert(ps[0].0@, ps[0].1@) =~= map_of(
            ps.drop_first(),
        ).insert(ps[0].0@, ps[0].1@).insert(k@, v@)) by {
            assert(ps[0].0@ != k@);
        }
    }
}

proof fn lemma_map_of_update<V: View>(ps: Seq<(String, V)>, i: int, k: String, v: V)
    requires
        0 <= i < ps.len(),
        ps[i].0@ == k@,
        forall|j: int| 0 <= j < i ==> (#[trigger] ps[j]).0@ != k@,
    ensures
        map_of(ps.update(i, (k, v))) == map_of(ps).insert(k@, v@),
    decreases i,
{
    if i == 0 {
        assert(ps.update(0, (k, v))[0] == (k, v));
        assert(ps.update(0, (k, v)).drop_first() =~= ps.drop_first());
        assert(map_of(ps.update(0, (k, v))) == map_of(ps.drop_first()).insert(k@, v@));
        assert(map_of(ps.drop_first()).insert(ps[0].0@, ps[0].1@).insert(k@, v@) =~= map_of(
            ps.drop_first(),
        ).insert(k@, v@)) by {
            assert(ps[0].0@ == k@);
        }
    } else {
        assert(ps.update(i, (k, v))[0] == ps[0]);
        assert(ps.update(i, (k, v)).drop_first() =~= ps.drop_first().update(i - 1, (k, v)));
        assert(ps.drop_first()[i - 1] == ps[i]);
        assert(forall|j: int|
            0 <= j < i - 1 ==> (#[trigger] ps.drop_first()[j]).0@ == ps[j + 1].0@);
        lemma_map_of_update(ps.drop_first(), i - 1, k, v);
        assert(map_of(ps.drop_first()).insert(k@, v@).insert(ps[0].0@, ps[0].1@) =~= map_of(
            ps.drop_first(),
        ).insert(ps[0].0@, ps[0].1@).insert(k@, v@)) by {
            assert(ps[0].0@ != k@);
        }
    }
}

impl<V: View> WordMap<V> {
    /// The empty map.
    pub fn new() -> (r: WordMap<V>)
        ensures
            r@ == Map::<Seq<char>, V::V>::empty(),
    {
        WordMap { pairs: Vec::new() }
    }

    /// The value stored under `k`, if any.
    pub fn get(&self, k: &str) -> (r: Option<&V>)
        ensures
            r is Some <==> self@.dom().contains(k@),
            r matches Some(v) ==> v@ == self@[k@],
    {
        let mut i: usize = 0;
        while i < self.pairs.len()
            invariant
                0 <= i <= self.pairs@.len(),
                forall|j: int| 0 <= j < i ==> (#[trigger] self.pairs@[j]).0@ != k@,
            decreases self.pairs@.len() - i,
        {
            if str_eq(self.pairs[i].0.as_str(), k) {
                proof {
                    lemma_map_of_first(self.pairs@, i as int);
                }
                return Some(&self.pairs[i].1);
            }
            i = i + 1;
        }
        proof {
            lemma_map_of_dom(self.pairs@, k@);
        }
        None
    }

    /// Whether `k` is present.
    pub fn contains_key(&self, k: &str) -> (r: bool)
        ensures
            r == self@.dom().contains(k@),
    {
        self.get(k).is_some()
    }

    /// Store `v` under `k`, replacing any earlier value.
    pub fn insert(&mut self, k: String, v: V)
        ensures
            final(self)@ == old(self)@.insert(k@, v@),
    {
        let mut i: usize = 0;
        while i < self.pairs.len()
            invariant
                0 <= i <= self.pairs@.len(),
                self.pairs@ == old(self).pairs@,
                forall|j: int| 0 <= j < i ==> (#[trigger] self.pairs@[j]).0@ != k@,
            decreases self.pairs@.len() - i,
        {
            if str_eq(self.pairs[i].0.as_str(), k.as_str()) {
                proof {
                    lemma_map_of_update(self.pairs@, i as int, k, v);
                }
                self.pairs.set(i, (k, v));
                return ;
            }
            i = i + 1;
        }
        proof {
            lemma_map_of_push_fresh(self.pairs@, k, v);
        }
        self.pairs.push((k, v));
    }
}

} // verus!
