//! An association map from byte-string keys to values, kept in strictly
//! ascending lexicographic key order. Every component of the store keeps its
//! records in one of these, so listings come out in ascending key order and
//! range scans can stop early.

use vstd::prelude::*;
use crate::bytes::{lex_lt, sorted_strict, lex_cmp, lemma_lex_irrefl, lemma_lex_asym,
    lemma_lex_connex, lemma_lex_trans};

verus! {

pub struct OMap<V> {
    pub keys: Vec<Vec<u8>>,
    pub vals: Vec<V>,
}

/// The value paired with the first occurrence of `k` in `keys`.
pub open spec fn assoc_get<V>(keys: Seq<Seq<u8>>, vals: Seq<V>, k: Seq<u8>) -> Option<V>
    decreases keys.len(),
{
    if keys.len() == 0 {
        None
    } else if keys[0] == k {
        Some(vals[0])
    } else {
        assoc_get(keys.skip(1), vals.skip(1), k)
    }
}

proof fn lemma_assoc_first<V>(keys: Seq<Seq<u8>>, vals: Seq<V>, k: Seq<u8>, i: int)
    requires
        keys.len() == vals.len(),
        0 <= i < keys.len(),
        keys[i] == k,
        forall|j: int| 0 <= j < i ==> keys[j] != k,
    ensures
        assoc_get(keys, vals, k) == Some(vals[i]),
    decreases i,
{
    if i > 0 {
        lemma_assoc_first(keys.skip(1), vals.skip(1), k, i - 1);
    }
}

proof fn lemma_assoc_none<V>(keys: Seq<Seq<u8>>, vals: Seq<V>, k: Seq<u8>)
    requires
        forall|j: int| 0 <= j < keys.len() ==> keys[j] != k,
    ensures
        assoc_get(keys, vals, k) is None,
    decreases keys.len(),
{
    if keys.len() > 0 {
        lemma_assoc_none(keys.skip(1), vals.skip(1), k);
    }
}

proof fn lemma_assoc_witness<V>(keys: Seq<Seq<u8>>, vals: Seq<V>, k: Seq<u8>)
    requires
        assoc_get(keys, vals, k) is Some,
    ensures
        exists|i: int| 0 <= i < keys.len() && keys[i] == k,
    decreases keys.len(),
{
    if keys.len() > 0 {
        if keys[0] == k {
            assert(0 <= 0 < keys.len() && keys[0] == k);
        } else {
            lemma_assoc_witness(keys.skip(1), vals.skip(1), k);
            let j = choose|i: int| 0 <= i < keys.skip(1).len() && keys.skip(1)[i] == k;
            assert(keys[j + 1] == k);
        }
    }
}

impl<V> OMap<V> {
    /// The keys, in the order the map holds them.
    pub open spec fn key_seq(self) -> Seq<Seq<u8>> {
        self.keys@.map_values(|k: Vec<u8>| k@)
    }

    /// The values, in the same order as `key_seq`.
    pub open spec fn val_seq(self) -> Seq<V> {
        self.vals@
    }

    /// Well-formed: the two columns run in parallel and the keys ascend
    /// strictly.
    pub open spec fn wf(self) -> bool {
        &&& self.keys@.len() == self.vals@.len()
        &&& sorted_strict(self.key_seq())
    }

    /// The value stored under key `k`, if any.
    pub open spec fn spec_get(self, k: Seq<u8>) -> Option<V> {
        assoc_get(self.key_seq(), self.vals@, k)
    }

    pub open spec fn contains_key(self, k: Seq<u8>) -> bool {
        self.spec_get(k) is Some
    }

    /// In a well-formed map, distinct positions hold distinct keys.
    pub proof fn lemma_keys_distinct(self, i: int, j: int)
        requires
            self.wf(),
            0 <= i < self.key_seq().len(),
            0 <= j < self.key_seq().len(),
            self.key_seq()[i] == self.key_seq()[j],
        ensures
            i == j,
    {
        lemma_lex_irrefl(self.key_seq()[i]);
    }

    /// The value column lines up with `spec_get`.
    pub proof fn lemma_get_at(self, idx: int)
        requires
            self.wf(),
            0 <= idx < self.key_seq().len(),
        ensures
            self.spec_get(self.key_seq()[idx]) == Some(self.val_seq()[idx]),
    {
        let k = self.key_seq()[idx];
        assert forall|j: int| 0 <= j < idx implies self.key_seq()[j] != k by {
            if self.key_seq()[j] == k {
                self.lemma_keys_distinct(j, idx);
            }
        }
        lemma_assoc_first(self.key_seq(), self.vals@, k, idx);
    }

    /// A key absent from the key column is absent from the map.
    pub proof fn lemma_get_none(self, k: Seq<u8>)
        requires
            forall|i: int| 0 <= i < self.key_seq().len() ==> self.key_seq()[i] != k,
        ensures
            self.spec_get(k) is None,
    {
        lemma_assoc_none(self.key_seq(), self.vals@, k);
    }

    /// Membership in the key column and in the map agree.
    pub proof fn lemma_contains_iff(self, k: Seq<u8>)
        requires
            self.wf(),
        ensures
            self.key_seq().contains(k) == self.contains_key(k),
    {
        if self.key_seq().contains(k) {
            let i = choose|i: int| 0 <= i < self.key_seq().len() && self.key_seq()[i] == k;
            self.lemma_get_at(i);
        }
        if self.contains_key(k) {
            self.lemma_contains_index(k);
            assert(self.key_seq().contains(k));
        }
    }

    /// A present key stands somewhere in the key column.
    pub proof fn lemma_contains_index(self, k: Seq<u8>)
        requires
            self.spec_get(k) is Some,
        ensures
            exists|i: int| 0 <= i < self.key_seq().len() && self.key_seq()[i] == k,
    {
        lemma_assoc_witness(self.key_seq(), self.vals@, k);
    }

    pub fn new() -> (r: Self)
        ensures
            r.wf(),
            r.key_seq().len() == 0,
            forall|k: Seq<u8>| r.spec_get(k) is None,
    {
        OMap { keys: Vec::new(), vals: Vec::new() }
    }

    pub fn len(&self) -> (r: usize)
        ensures
            r == self.key_seq().len(),
    {
        self.keys.len()
    }

    pub fn key_at(&self, i: usize) -> (r: &Vec<u8>)
        requires
            i < self.key_seq().len(),
        ensures
            r@ == self.key_seq()[i as int],
    {
        &self.keys[i]
    }

    pub fn val_at(&self, i: usize) -> (r: &V)
        requires
            self.wf(),
            i < self.key_seq().len(),
        ensures
            *r == self.val_seq()[i as int],
            self.spec_get(self.key_seq()[i as int]) == Some(*r),
    {
        proof {
            self.lemma_get_at(i as int);
        }
        &self.vals[i]
    }

    /// The position of the first key not below `k`.
    fn locate(&self, k: &Vec<u8>) -> (i: usize)
        requires
            self.wf(),
        ensures
            i <= self.key_seq().len(),
            forall|j: int| 0 <= j < i ==> lex_lt(self.key_seq()[j], k@),
            i < self.key_seq().len() ==> !lex_lt(self.key_seq()[i as int], k@),
    {
        let mut i: usize = 0;
        while i < self.keys.len()
            invariant
                self.wf(),
                i <= self.keys@.len(),
                forall|j: int| 0 <= j < i ==> lex_lt(self.key_seq()[j], k@),
            decreases self.keys@.len() - i,
        {
            let c = lex_cmp(&self.keys[i], k);
            if c >= 0 {
                proof {
                    lemma_lex_irrefl(k@);
                    lemma_lex_asym(k@, self.key_seq()[i as int]);
                }
                return i;
            }
            i = i + 1;
        }
        i
    }

    pub fn get(&self, k: &Vec<u8>) -> (r: Option<&V>)
        requires
            self.wf(),
        ensures
            match r {
                Some(v) => self.spec_get(k@) == Some(*v),
                None => self.spec_get(k@) is None,
            },
    {
        let i = self.locate(k);
        if i < self.keys.len() {
            let c = lex_cmp(&self.keys[i], k);
            if c == 0 {
                proof {
                    self.lemma_get_at(i as int);
                }
                return Some(&self.vals[i]);
            }
        }
        proof {
            assert forall|j: int| 0 <= j < self.key_seq().len() implies self.key_seq()[j] != k@ by {
                if j < i {
                    lemma_lex_irrefl(k@);
                } else if j > i {
                    assert(lex_lt(self.key_seq()[i as int], self.key_seq()[j]));
                }
            }
            self.lemma_get_none(k@);
        }
        None
    }

    pub fn insert(&mut self, k: Vec<u8>, v: V)
        requires
            old(self).wf(),
        ensures
            final(self).wf(),
            final(self).spec_get(k@) == Some(v),
            forall|k2: Seq<u8>| k2 != k@ ==> final(self).spec_get(k2) == old(self).spec_get(k2),
            forall|k2: Seq<u8>|
                final(self).contains_key(k2) == (old(self).contains_key(k2) || k2 == k@),
            old(self).contains_key(k@) ==> final(self).key_seq() == old(self).key_seq(),
            !old(self).contains_key(k@) ==> final(self).key_seq().len() == old(
                self,
            ).key_seq().len() + 1,
    {
        let ghost m0 = *self;
        let i = self.locate(&k);
        if i < self.keys.len() {
            let c = lex_cmp(&self.keys[i], &k);
            if c == 0 {
                self.vals[i] = v;
                proof {
                    assert(self.key_seq() =~= m0.key_seq());
                    assert(self.wf());
                    self.lemma_get_at(i as int);
                    assert(m0.contains_key(k@)) by {
                        m0.lemma_get_at(i as int);
                    }
                    assert forall|k2: Seq<u8>| k2 != k@ implies self.spec_get(k2) == m0.spec_get(
                        k2,
                    ) by {
                        if exists|j: int| 0 <= j < m0.key_seq().len() && m0.key_seq()[j] == k2 {
                            let j = choose|j: int|
                                0 <= j < m0.key_seq().len() && m0.key_seq()[j] == k2;
                            assert(m0.key_seq()[i as int] == k@);
                            m0.lemma_get_at(j);
                            self.lemma_get_at(j);
                        } else {
                            m0.lemma_get_none(k2);
                            self.lemma_get_none(k2);
                        }
                    }
                }
                return;
            }
        }
        proof {
            if i < self.key_seq().len() {
                lemma_lex_connex(self.key_seq()[i as int], k@);
            }
            assert forall|j: int| 0 <= j < m0.key_seq().len() implies m0.key_seq()[j] != k@ by {
                if j < i {
                    lemma_lex_irrefl(k@);
                } else if j > i {
                    lemma_lex_trans(k@, m0.key_seq()[i as int], m0.key_seq()[j]);
                    lemma_lex_irrefl(k@);
                } else {
                    lemma_lex_irrefl(k@);
                }
            }
            m0.lemma_get_none(k@);
        }
        let ghost kview = k@;
        self.keys.insert(i, k);
        self.vals.insert(i, v);
        proof {
            assert(self.key_seq() =~= m0.key_seq().insert(i as int, kview));
            let s = self.key_seq();
            let n = s.len();
            assert forall|a: int, b: int| 0 <= a < b < n implies lex_lt(s[a], s[b]) by {
                if b < i {
                    assert(s[a] == m0.key_seq()[a] && s[b] == m0.key_seq()[b]);
                } else if b == i {
                    assert(s[a] == m0.key_seq()[a]);
                } else {
                    if a < i {
                        assert(s[a] == m0.key_seq()[a] && s[b] == m0.key_seq()[b - 1]);
                        assert(lex_lt(s[a], s[b]));
                    } else if a == i {
                        assert(s[a] == kview && s[b] == m0.key_seq()[b - 1]);
                        if b - 1 > i {
                            lemma_lex_trans(kview, m0.key_seq()[i as int], m0.key_seq()[b - 1]);
                        }
                        assert(lex_lt(s[a], s[b]));
                    } else {
                        assert(s[a] == m0.key_seq()[a - 1] && s[b] == m0.key_seq()[b - 1]);
                    }
                }
            }
            assert(self.wf());
            self.lemma_get_at(i as int);
            assert(self.spec_get(kview) == Some(v));
            assert forall|k2: Seq<u8>| k2 != kview implies self.spec_get(k2) == m0.spec_get(
                k2,
            ) by {
                if exists|j: int| 0 <= j < m0.key_seq().len() && m0.key_seq()[j] == k2 {
                    let j = choose|j: int| 0 <= j < m0.key_seq().len() && m0.key_seq()[j] == k2;
                    m0.lemma_get_at(j);
                    if j < i {
                        self.lemma_get_at(j);
                    } else {
                        assert(s[j + 1] == m0.key_seq()[j]);
                        self.lemma_get_at(j + 1);
                    }
                } else {
                    assert forall|j: int| 0 <= j < s.len() implies s[j] != k2 by {
                        if j < i {
                            assert(s[j] == m0.key_seq()[j]);
                        } else if j > i {
                            assert(s[j] == m0.key_seq()[j - 1]);
                        }
                    }
                    self.lemma_get_none(k2);
                    m0.lemma_get_none(k2);
                }
            }
            assert forall|k2: Seq<u8>|
                self.contains_key(k2) == (m0.contains_key(k2) || k2 == kview) by {
                if k2 == kview {
                } else {
                    assert(self.spec_get(k2) == m0.spec_get(k2));
                }
            }
        }
    }

    /// Removes the entry at position `i`, keeping the remaining entries in
    /// order.
    pub fn remove_at(&mut self, i: usize) -> (r: (Vec<u8>, V))
        requires
            old(self).wf(),
            i < old(self).key_seq().len(),
        ensures
            final(self).wf(),
            r.0@ == old(self).key_seq()[i as int],
            Some(r.1) == old(self).spec_get(r.0@),
            final(self).key_seq() == old(self).key_seq().remove(i as int),
            final(self).spec_get(r.0@) is None,
            forall|k2: Seq<u8>| k2 != r.0@ ==> final(self).spec_get(k2) == old(self).spec_get(k2),
    {
        let ghost m0 = *self;
        proof {
            m0.lemma_get_at(i as int);
        }
        let key = self.keys.remove(i);
        let v = self.vals.remove(i);
        proof {
            assert(self.key_seq() =~= m0.key_seq().remove(i as int));
            let s = self.key_seq();
            assert forall|a: int, b: int| 0 <= a < b < s.len() implies lex_lt(s[a], s[b]) by {
                let a0: int = if a < i {
                    a
                } else {
                    a + 1
                };
                let b0: int = if b < i {
                    b
                } else {
                    b + 1
                };
                assert(s[a] == m0.key_seq()[a0] && s[b] == m0.key_seq()[b0]);
            }
            assert(self.wf());
            assert forall|k2: Seq<u8>| k2 != key@ implies self.spec_get(k2) == m0.spec_get(k2) by {
                if exists|j: int| 0 <= j < m0.key_seq().len() && m0.key_seq()[j] == k2 {
                    let j = choose|j: int| 0 <= j < m0.key_seq().len() && m0.key_seq()[j] == k2;
                    m0.lemma_get_at(j);
                    if j < i {
                        self.lemma_get_at(j);
                    } else {
                        assert(j != i);
                        assert(s[j - 1] == m0.key_seq()[j]);
                        self.lemma_get_at(j - 1);
                    }
                } else {
                    assert forall|j: int| 0 <= j < s.len() implies s[j] != k2 by {
                        if j < i {
                            assert(s[j] == m0.key_seq()[j]);
                        } else {
                            assert(s[j] == m0.key_seq()[j + 1]);
                        }
                    }
                    self.lemma_get_none(k2);
                    m0.lemma_get_none(k2);
                }
            }
            assert(self.spec_get(key@) is None) by {
                assert forall|j: int| 0 <= j < s.len() implies s[j] != key@ by {
                    let j0: int = if j < i {
                        j
                    } else {
                        j + 1
                    };
                    assert(s[j] == m0.key_seq()[j0]);
                    if s[j] == key@ {
                        m0.lemma_keys_distinct(j0, i as int);
                    }
                }
                self.lemma_get_none(key@);
            }
        }
        (key, v)
    }

    pub fn remove(&mut self, k: &Vec<u8>) -> (r: Option<V>)
        requires
            old(self).wf(),
        ensures
            final(self).wf(),
            final(self).spec_get(k@) is None,
            forall|k2: Seq<u8>| k2 != k@ ==> final(self).spec_get(k2) == old(self).spec_get(k2),
            forall|k2: Seq<u8>|
                final(self).contains_key(k2) == (old(self).contains_key(k2) && k2 != k@),
            r == old(self).spec_get(k@),
            !old(self).contains_key(k@) ==> final(self).key_seq() == old(self).key_seq(),
            old(self).contains_key(k@) ==> final(self).key_seq().len() == old(
                self,
            ).key_seq().len() - 1,
    {
        let ghost m0 = *self;
        let i = self.locate(k);
        if i < self.keys.len() {
            let c = lex_cmp(&self.keys[i], k);
            if c == 0 {
                proof {
                    m0.lemma_get_at(i as int);
                }
                self.keys.remove(i);
                let v = self.vals.remove(i);
                proof {
                    assert(self.key_seq() =~= m0.key_seq().remove(i as int));
                    let s = self.key_seq();
                    assert forall|a: int, b: int| 0 <= a < b < s.len() implies lex_lt(
                        s[a],
                        s[b],
                    ) by {
                        let a0: int = if a < i {
                            a
                        } else {
                            a + 1
                        };
                        let b0: int = if b < i {
                            b
                        } else {
                            b + 1
                        };
                        assert(s[a] == m0.key_seq()[a0] && s[b] == m0.key_seq()[b0]);
                    }
                    assert(self.wf());
                    assert forall|k2: Seq<u8>| k2 != k@ implies self.spec_get(k2) == m0.spec_get(
                        k2,
                    ) by {
                        if exists|j: int| 0 <= j < m0.key_seq().len() && m0.key_seq()[j] == k2 {
                            let j = choose|j: int|
                                0 <= j < m0.key_seq().len() && m0.key_seq()[j] == k2;
                            m0.lemma_get_at(j);
                            m0.lemma_keys_distinct(i as int, i as int);
                            if j < i {
                                self.lemma_get_at(j);
                            } else {
                                assert(j != i);
                                assert(s[j - 1] == m0.key_seq()[j]);
                                self.lemma_get_at(j - 1);
                            }
                        } else {
                            assert forall|j: int| 0 <= j < s.len() implies s[j] != k2 by {
                                if j < i {
                                    assert(s[j] == m0.key_seq()[j]);
                                } else {
                                    assert(s[j] == m0.key_seq()[j + 1]);
                                }
                            }
                            self.lemma_get_none(k2);
                            m0.lemma_get_none(k2);
                        }
                    }
                    assert(self.spec_get(k@) is None) by {
                        assert forall|j: int| 0 <= j < s.len() implies s[j] != k@ by {
                            let j0: int = if j < i {
                                j
                            } else {
                                j + 1
                            };
                            assert(s[j] == m0.key_seq()[j0]);
                            m0.lemma_keys_distinct(i as int, i as int);
                            if s[j] == k@ {
                                m0.lemma_keys_distinct(j0, i as int);
                            }
                        }
                        self.lemma_get_none(k@);
                    }
                    assert forall|k2: Seq<u8>|
                        self.contains_key(k2) == (m0.contains_key(k2) && k2 != k@) by {
                        if k2 != k@ {
                            assert(self.spec_get(k2) == m0.spec_get(k2));
                        }
                    }
                }
                return Some(v);
            }
        }
        proof {
            assert forall|j: int| 0 <= j < self.key_seq().len() implies self.key_seq()[j] != k@ by {
                if j < i {
                    lemma_lex_irrefl(k@);
                } else if j > i {
                    assert(lex_lt(self.key_seq()[i as int], self.key_seq()[j]));
                }
            }
            self.lemma_get_none(k@);
        }
        None
    }
}

} // verus!
