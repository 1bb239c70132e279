//! A map keyed by strings, kept as a list of distinct keys in insertion
//! order; inserting a present key replaces its value.

use vstd::prelude::*;
use crate::text::{chars_lt, chars_of, lemma_seq_lt_total, lemma_seq_lt_transitive, seq_lt};

verus! {

/// The map that a sequence of `(key, value)` insertions builds, a later
/// insertion of a key replacing the earlier one.
pub open spec fn pairs_to_map<W>(ps: Seq<(Seq<char>, W)>) -> Map<Seq<char>, W>
    decreases ps.len(),
{
    if ps.len() == 0 {
        Map::empty()
    } else {
        pairs_to_map(ps.drop_last()).insert(ps.last().0, ps.last().1)
    }
}

pub open spec fn keys_distinct<W>(ps: Seq<(Seq<char>, W)>) -> bool {
    forall|i: int, j: int| 0 <= i < j < ps.len() ==> ps[i].0 != ps[j].0
}

pub proof fn lemma_pairs_to_map_lookup<W>(ps: Seq<(Seq<char>, W)>, k: Seq<char>)
    requires
        keys_distinct(ps),
    ensures
        pairs_to_map(ps).dom().contains(k) <==> exists|i: int| 0 <= i < ps.len() && ps[i].0 == k,
        forall|i: int| 0 <= i < ps.len() && ps[i].0 == k ==> pairs_to_map(ps)[k] == ps[i].1,
    decreases ps.len(),
{
    if ps.len() > 0 {
        let init = ps.drop_last();
        lemma_pairs_to_map_lookup(init, k);
        if pairs_to_map(ps).dom().contains(k) {
            if ps.last().0 != k {
                let i = choose|i: int| 0 <= i < init.len() && init[i].0 == k;
                assert(ps[i].0 == k);
            } else {
                assert(ps[ps.len() - 1].0 == k);
            }
        }
        if exists|i: int| 0 <= i < ps.len() && ps[i].0 == k {
            let i = choose|i: int| 0 <= i < ps.len() && ps[i].0 == k;
            if i < ps.len() - 1 {
                assert(init[i] == ps[i]);
            }
        }
        assert forall|i: int| 0 <= i < ps.len() && ps[i].0 == k implies pairs_to_map(ps)[k]
            == ps[i].1 by {
            if i < ps.len() - 1 {
                assert(init[i] == ps[i]);
            }
        }
    }
}

proof fn lemma_pairs_to_map_update<W>(ps: Seq<(Seq<char>, W)>, j: int, k: Seq<char>, v: W)
    requires
        keys_distinct(ps),
        0 <= j < ps.len(),
        ps[j].0 == k,
    ensures
        pairs_to_map(ps.update(j, (k, v))) == pairs_to_map(ps).insert(k, v),
    decreases ps.len(),
{
    let qs = ps.update(j, (k, v));
    if j == ps.len() - 1 {
        assert(qs.drop_last() =~= ps.drop_last());
        assert(pairs_to_map(ps.drop_last()).insert(k, ps[j].1).insert(k, v) =~= pairs_to_map(
            ps.drop_last(),
        ).insert(k, v));
    } else {
        let init = ps.drop_last();
        assert(qs.drop_last() =~= init.update(j, (k, v)));
        lemma_pairs_to_map_update(init, j, k, v);
        assert(ps.last().0 != k);
        assert(pairs_to_map(qs) =~= pairs_to_map(ps).insert(k, v));
    }
}

proof fn lemma_distinct_len<W>(ps: Seq<(Seq<char>, W)>)
    requires
        keys_distinct(ps),
    ensures
        pairs_to_map(ps).dom().len() == ps.len(),
        pairs_to_map(ps).dom().finite(),
    decreases ps.len(),
{
    if ps.len() > 0 {
        let init = ps.drop_last();
        lemma_distinct_len(init);
        lemma_pairs_to_map_lookup(init, ps.last().0);
        assert forall|i: int| 0 <= i < init.len() implies init[i].0 != ps.last().0 by {
            assert(init[i] == ps[i]);
        }
    }
}

/// The position of `key` among the keys of `entries`.
fn position_of<V: DeepView>(entries: &Vec<(String, V)>, key: &str) -> (r: Option<usize>)
    ensures
        match r {
            Some(i) => i < entries.len() && entries.deep_view()[i as int].0 == key@,
            None => forall|t: int| 0 <= t < entries.len() ==> entries.deep_view()[t].0 != key@,
        },
{
    let wanted = String::from_str(key);
    let mut i: usize = 0;
    while i < entries.len()
        invariant
            i <= entries.len(),
            wanted@ == key@,
            forall|t: int| 0 <= t < i ==> entries.deep_view()[t].0 != key@,
        decreases entries.len() - i,
    {
        assert(entries.deep_view()[i as int].0 == entries[i as int].0@);
        if entries[i].0 == wanted {
            return Some(i);
        }
        i += 1;
    }
    None
}

proof fn lemma_dom_from_keys<W, X>(ps: Seq<(Seq<char>, W)>, qs: Seq<(Seq<char>, X)>)
    requires
        ps.len() == qs.len(),
        forall|t: int| 0 <= t < ps.len() ==> ps[t].0 == qs[t].0,
    ensures
        pairs_to_map(ps).dom() == pairs_to_map(qs).dom(),
    decreases ps.len(),
{
    if ps.len() > 0 {
        lemma_dom_from_keys(ps.drop_last(), qs.drop_last());
        assert(pairs_to_map(ps).dom() =~= pairs_to_map(qs).dom());
    }
}

/// A map from strings to values of type `V`.
#[derive(Debug)]
pub struct StrMap<V: DeepView> {
    entries: Vec<(String, V)>,
}

impl<V: DeepView> View for StrMap<V> {
    type V = Map<Seq<char>, V::V>;

    closed spec fn view(&self) -> Map<Seq<char>, V::V> {
        pairs_to_map(self.entries.deep_view())
    }
}

impl<V: DeepView + Clone> Clone for StrMap<V> {
    /// A copy with the same keys, in the same order, and the values cloned.
    fn clone(&self) -> (r: Self)
        ensures
            r@.dom() == self@.dom(),
    {
        proof {
            use_type_invariant(self);
        }
        let ghost dv = self.entries.deep_view();
        let mut entries: Vec<(String, V)> = Vec::new();
        let mut i: usize = 0;
        while i < self.entries.len()
            invariant
                i <= self.entries.len(),
                dv == self.entries.deep_view(),
                keys_distinct(dv),
                entries.len() == i,
                forall|t: int| 0 <= t < i ==> entries.deep_view()[t].0 == dv[t].0,
            decreases self.entries.len() - i,
        {
            let k = self.entries[i].0.clone();
            let v = self.entries[i].1.clone();
            entries.push((k, v));
            i += 1;
        }
        assert forall|a: int, b: int|
            0 <= a < b < entries.deep_view().len() implies entries.deep_view()[a].0
            != entries.deep_view()[b].0 by {
            assert(entries.deep_view()[a].0 == dv[a].0);
            assert(entries.deep_view()[b].0 == dv[b].0);
        }
        proof {
            lemma_dom_from_keys(entries.deep_view(), dv);
        }
        StrMap { entries }
    }
}

impl<V: DeepView> Default for StrMap<V> {
    /// The empty map.
    fn default() -> (r: Self)
        ensures
            r@ == Map::<Seq<char>, V::V>::empty(),
    {
        Self::new()
    }
}

/// `keys` is sorted in strictly increasing `String` order.
pub open spec fn strictly_sorted(keys: Seq<Seq<char>>) -> bool {
    forall|i: int, j: int| 0 <= i < j < keys.len() ==> seq_lt(keys[i], keys[j])
}

impl<V: DeepView> StrMap<V> {
    /// Each key is held once.
    #[verifier::type_invariant]
    closed spec fn keys_unique(&self) -> bool {
        keys_distinct(self.entries.deep_view())
    }

    pub fn new() -> (r: Self)
        ensures
            r@ == Map::<Seq<char>, V::V>::empty(),
    {
        let r = StrMap { entries: Vec::new() };
        assert(r.entries.deep_view() =~= Seq::<(Seq<char>, V::V)>::empty());
        r
    }

    /// Sets `key` to `value`, replacing any earlier value of `key`.
    pub fn insert(&mut self, key: String, value: V)
        ensures
            final(self)@ == old(self)@.insert(key@, value.deep_view()),
    {
        proof {
            use_type_invariant(&*self);
        }
        let mut entries: Vec<(String, V)> = Vec::new();
        std::mem::swap(&mut entries, &mut self.entries);
        let ghost old_dv = entries.deep_view();
        assert(old_dv == old(self).entries.deep_view());
        let ghost kv = key@;
        let ghost v = value.deep_view();
        if let Some(i) = position_of(&entries, key.as_str()) {
            entries.set(i, (key, value));
            assert(entries.deep_view() =~= old_dv.update(i as int, (kv, v)));
            proof {
                lemma_pairs_to_map_update(old_dv, i as int, kv, v);
                assert forall|a: int, b: int|
                    0 <= a < b < entries.deep_view().len() implies entries.deep_view()[a].0
                    != entries.deep_view()[b].0 by {
                    assert(old_dv[a].0 == entries.deep_view()[a].0);
                    assert(old_dv[b].0 == entries.deep_view()[b].0);
                }
            }
        } else {
            entries.push((key, value));
            assert(entries.deep_view() =~= old_dv.push((kv, v)));
            assert(entries.deep_view().drop_last() =~= old_dv);
        }
        self.entries = entries;
    }

    /// The value of `key`, if it is present.
    pub fn get(&self, key: &str) -> (r: Option<&V>)
        ensures
            match r {
                Some(v) => self@.dom().contains(key@) && self@[key@] == v.deep_view(),
                None => !self@.dom().contains(key@),
            },
    {
        proof {
            use_type_invariant(self);
        }
        let ghost dv = self.entries.deep_view();
        proof {
            lemma_pairs_to_map_lookup(dv, key@);
        }
        match position_of(&self.entries, key) {
            Some(i) => {
                assert(dv[i as int].1 == self.entries[i as int].1.deep_view());
                Some(&self.entries[i].1)
            },
            None => None,
        }
    }

    /// The number of keys.
    pub fn len(&self) -> (r: usize)
        ensures
            r == self@.dom().len(),
            self@.dom().finite(),
    {
        proof {
            use_type_invariant(self);
            lemma_distinct_len(self.entries.deep_view());
        }
        self.entries.len()
    }

    /// The keys, in increasing `String` order.
    pub fn sorted_keys(&self) -> (r: Vec<String>)
        ensures
            strictly_sorted(r.deep_view()),
            r.len() == self@.dom().len(),
            forall|k: Seq<char>| self@.dom().contains(k) <==> r.deep_view().contains(k),
    {
        proof {
            use_type_invariant(self);
            lemma_distinct_len(self.entries.deep_view());
        }
        let ghost dv = self.entries.deep_view();
        let mut r: Vec<String> = Vec::new();
        let mut i: usize = 0;
        while i < self.entries.len()
            invariant
                i <= self.entries.len(),
                dv == self.entries.deep_view(),
                keys_distinct(dv),
                r.len() == i,
                strictly_sorted(r.deep_view()),
                forall|k: Seq<char>|
                    r.deep_view().contains(k) <==> exists|t: int| 0 <= t < i && dv[t].0 == k,
            decreases self.entries.len() - i,
        {
            let ghost old_r = r.deep_view();
            let key = self.entries[i].0.clone();
            let kc = chars_of(key.as_str());
            assert(dv[i as int].0 == key@);
            let mut pos: usize = 0;
            while pos < r.len() && !chars_lt(&kc, &chars_of(r[pos].as_str()))
                invariant
                    pos <= r.len(),
                    old_r == r.deep_view(),
                    forall|t: int| 0 <= t < pos ==> !seq_lt(kc@, #[trigger] old_r[t]),
                decreases r.len() - pos,
            {
                pos += 1;
            }
            // Every key before `pos` is below `key`; from `pos` on, above it.
            assert forall|t: int| 0 <= t < pos implies seq_lt(#[trigger] old_r[t], kc@) by {
                assert(old_r.contains(old_r[t]));
                let u = choose|u: int| 0 <= u < i && dv[u].0 == old_r[t];
                assert(old_r[t] != kc@);
                lemma_seq_lt_total(old_r[t], kc@);
            }
            assert forall|t: int| pos <= t < old_r.len() implies seq_lt(kc@, #[trigger] old_r[t]) by {
                if t > pos {
                    lemma_seq_lt_transitive(kc@, old_r[pos as int], old_r[t]);
                }
            }
            r.insert(pos, key);
            let ghost new_r = old_r.insert(pos as int, kc@);
            assert(r.deep_view() =~= new_r);
            assert forall|a: int, b: int| 0 <= a < b < new_r.len() implies seq_lt(
                new_r[a],
                new_r[b],
            ) by {
                if a < pos && b > pos {
                    lemma_seq_lt_transitive(new_r[a], kc@, new_r[b]);
                }
            }
            assert forall|k: Seq<char>| new_r.contains(k) <==> exists|t: int|
                0 <= t < i + 1 && dv[t].0 == k by {
                if new_r.contains(k) {
                    let x = choose|x: int| 0 <= x < new_r.len() && new_r[x] == k;
                    if x < pos {
                        assert(old_r.contains(old_r[x]));
                    } else if x > pos {
                        assert(old_r.contains(old_r[x - 1]));
                    }
                }
                if exists|t: int| 0 <= t < i + 1 && dv[t].0 == k {
                    let t = choose|t: int| 0 <= t < i + 1 && dv[t].0 == k;
                    if t == i {
                        assert(new_r[pos as int] == k);
                    } else {
                        assert(old_r.contains(k));
                        let x = choose|x: int| 0 <= x < old_r.len() && old_r[x] == k;
                        if x < pos {
                            assert(new_r[x] == k);
                        } else {
                            assert(new_r[x + 1] == k);
                        }
                    }
                }
            }
            i += 1;
        }
        proof {
            assert forall|k: Seq<char>| self@.dom().contains(k) <==> r.deep_view().contains(k) by {
                lemma_pairs_to_map_lookup(dv, k);
            }
        }
        r
    }
}

} // verus!
