//! A map from byte-string keys, kept as a sorted vector: the store's in-memory
//! indexes and overlays.

use vstd::prelude::*;

use crate::bytes::{lemma_lex_order, lex_less, lex_lt};
use crate::sorted::{erase, has_key, lemma_erase_sorted, lemma_rank, lemma_upsert_sorted, lookup,
    rank, sorted, upsert};

verus! {

/// An ordered map from byte strings. Its view lists the bindings in key order.
pub struct SortedMap<V> {
    entries: Vec<(Vec<u8>, V)>,
}

pub open spec fn binding_views<V>(es: Seq<(Vec<u8>, V)>) -> Seq<(Seq<u8>, V)> {
    Seq::new(es.len(), |i: int| (es[i].0@, es[i].1))
}

impl<V> View for SortedMap<V> {
    type V = Seq<(Seq<u8>, V)>;

    closed spec fn view(&self) -> Seq<(Seq<u8>, V)> {
        binding_views(self.entries@)
    }
}

impl<V> SortedMap<V> {
    /// Keys strictly increase.
    pub open spec fn wf(&self) -> bool {
        sorted(self@)
    }

    pub fn new() -> (r: SortedMap<V>)
        ensures
            r@ == Seq::<(Seq<u8>, V)>::empty(),
            r.wf(),
    {
        let r: SortedMap<V> = SortedMap { entries: Vec::new() };
        assert(r@ =~= Seq::empty());
        r
    }

    pub fn len(&self) -> (r: usize)
        ensures
            r == self@.len(),
    {
        self.entries.len()
    }

    pub fn is_empty(&self) -> (r: bool)
        ensures
            r == (self@.len() == 0),
    {
        self.entries.len() == 0
    }

    /// How many keys are below `key`.
    pub fn position(&self, key: &[u8]) -> (r: usize)
        ensures
            self.wf() ==> r == rank(self@, key@),
            r <= self@.len(),
    {
        let ghost s = self@;
        proof {
            if self.wf() {
                lemma_rank(s, key@);
            }
        }
        let mut lo: usize = 0;
        let mut hi: usize = self.entries.len();
        while lo < hi
            invariant
                lo <= hi <= self.entries@.len(),
                s == self@,
                s == binding_views(self.entries@),
                self.wf() ==> lo <= rank(s, key@) <= hi,
                self.wf() ==> forall|i: int|
                    0 <= i < rank(s, key@) ==> lex_lt((#[trigger] s[i]).0, key@),
                self.wf() ==> forall|i: int|
                    rank(s, key@) <= i < s.len() ==> !lex_lt((#[trigger] s[i]).0, key@),
            decreases hi - lo,
        {
            let mid: usize = lo + (hi - lo) / 2;
            assert(s[mid as int].0 == self.entries@[mid as int].0@);
            if lex_less(&self.entries[mid].0, key) {
                lo = mid + 1;
            } else {
                hi = mid;
            }
        }
        lo
    }

    fn find(&self, key: &[u8]) -> (r: (bool, usize))
        ensures
            self.wf() ==> r.1 == rank(self@, key@) && r.0 == has_key(self@, key@),
            r.1 <= self@.len(),
            r.0 ==> r.1 < self@.len(),
    {
        let at: usize = self.position(key);
        if at >= self.entries.len() {
            return (false, at);
        }
        proof {
            if self.wf() {
                lemma_rank(self@, key@);
            }
            lemma_lex_order();
            assert(self@[at as int].0 == self.entries@[at as int].0@);
        }
        let past = lex_less(key, &self.entries[at].0);
        (!past, at)
    }

    pub fn contains(&self, key: &[u8]) -> (r: bool)
        ensures
            self.wf() ==> r == has_key(self@, key@),
    {
        self.find(key).0
    }

    pub fn get(&self, key: &[u8]) -> (r: Option<&V>)
        ensures
            self.wf() ==> match r {
                Some(v) => lookup(self@, key@) == Some(*v),
                None => lookup(self@, key@) is None,
            },
    {
        let (found, at) = self.find(key);
        if found {
            assert(self@[at as int].1 == self.entries@[at as int].1);
            Some(&self.entries[at].1)
        } else {
            None
        }
    }

    /// Bind `key` to `value`, replacing what was there.
    pub fn insert(&mut self, key: Vec<u8>, value: V)
        ensures
            old(self).wf() ==> final(self)@ == upsert(old(self)@, key@, value) && final(self).wf(),
    {
        let (found, at) = self.find(&key);
        let ghost before = self@;
        let ghost es = self.entries@;
        let ghost k = key@;
        proof {
            if self.wf() {
                lemma_upsert_sorted(before, key@, value);
            }
        }
        if found {
            self.entries.set(at, (key, value));
            assert(self@ =~= before.update(at as int, (k, value)));
        } else {
            self.entries.insert(at, (key, value));
            assert(self@ =~= before.insert(at as int, (k, value)));
        }
    }

    /// Remove `key`; returns what was there.
    pub fn remove(&mut self, key: &[u8]) -> (r: Option<V>)
        ensures
            old(self).wf() ==> final(self)@ == erase(old(self)@, key@) && r == lookup(
                old(self)@,
                key@,
            ) && final(self).wf(),
    {
        let (found, at) = self.find(key);
        if !found {
            return None;
        }
        let ghost before = self@;
        proof {
            if self.wf() {
                lemma_erase_sorted(before, key@);
            }
            assert(before[at as int].1 == self.entries@[at as int].1);
        }
        let (_, v) = self.entries.remove(at);
        assert(self@ =~= before.remove(at as int));
        Some(v)
    }

    pub fn clear(&mut self)
        ensures
            final(self)@ == Seq::<(Seq<u8>, V)>::empty(),
            final(self).wf(),
    {
        self.entries.clear();
        assert(self@ =~= Seq::empty());
    }

    /// The `i`-th key in order.
    pub fn key_at(&self, i: usize) -> (r: &Vec<u8>)
        requires
            i < self@.len(),
        ensures
            r@ == self@[i as int].0,
    {
        &self.entries[i].0
    }

    /// The value under the `i`-th key.
    pub fn value_at(&self, i: usize) -> (r: &V)
        requires
            i < self@.len(),
        ensures
            *r == self@[i as int].1,
    {
        &self.entries[i].1
    }
}

} // verus!
