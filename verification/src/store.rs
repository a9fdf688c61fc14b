//! The in-memory store: a mapping from binary keys to binary values, kept as
//! an association list with pairwise-distinct keys. Its model is the
//! sequence of (key, value) pairs, which also fixes the iteration order that
//! `KEYS` exposes.
use vstd::prelude::*;
use vstd::pervasive::VecAdditionalExecFns;
use crate::reply::copy_bytes;

verus! {

/// The mathematical model of the store: its entries, in order.
pub type StoreModel = Seq<(Seq<u8>, Seq<u8>)>;

/// The position of key `k`, or -1 when absent.
pub open spec fn key_index(m: StoreModel, k: Seq<u8>) -> int
    decreases m.len(),
{
    if m.len() == 0 {
        -1
    } else if m[0].0 == k {
        0
    } else {
        let r = key_index(m.skip(1), k);
        if r < 0 {
            -1
        } else {
            r + 1
        }
    }
}

pub open spec fn model_contains(m: StoreModel, k: Seq<u8>) -> bool {
    key_index(m, k) >= 0
}

pub open spec fn model_get(m: StoreModel, k: Seq<u8>) -> Option<Seq<u8>> {
    if key_index(m, k) >= 0 {
        Some(m[key_index(m, k)].1)
    } else {
        None
    }
}

/// `SET`: replace the value in place, or append a new entry.
pub open spec fn model_set(m: StoreModel, k: Seq<u8>, v: Seq<u8>) -> StoreModel {
    if key_index(m, k) >= 0 {
        m.update(key_index(m, k), (k, v))
    } else {
        m.push((k, v))
    }
}

/// `DEL`: remove the entry for `k`, if any.
pub open spec fn model_del(m: StoreModel, k: Seq<u8>) -> StoreModel {
    if key_index(m, k) >= 0 {
        m.remove(key_index(m, k))
    } else {
        m
    }
}

pub open spec fn distinct_keys(m: StoreModel) -> bool {
    forall|a: int, b: int| 0 <= a < b < m.len() ==> m[a].0 != m[b].0
}

pub open spec fn keys_of(m: StoreModel) -> Seq<Seq<u8>> {
    Seq::new(m.len(), |i: int| m[i].0)
}

/// What `key_index` finds: the first entry whose key is `k`, if one exists.
pub proof fn lemma_key_index(m: StoreModel, k: Seq<u8>)
    ensures
        key_index(m, k) >= 0 ==> key_index(m, k) < m.len() && m[key_index(m, k)].0 == k,
        key_index(m, k) < 0 ==> (forall|i: int| 0 <= i < m.len() ==> m[i].0 != k),
        key_index(m, k) >= 0 ==> (forall|i: int| 0 <= i < key_index(m, k) ==> m[i].0 != k),
    decreases m.len(),
{
    if m.len() == 0 {
    } else if m[0].0 == k {
    } else {
        lemma_key_index(m.skip(1), k);
        assert forall|i: int| 0 <= i < m.len() && i >= 1 implies m[i] == m.skip(1)[i - 1] by {}
    }
}

/// The first position with key `k` is what `key_index` returns.
pub proof fn lemma_key_index_first(m: StoreModel, k: Seq<u8>, i: int)
    requires
        0 <= i < m.len(),
        m[i].0 == k,
        forall|t: int| 0 <= t < i ==> m[t].0 != k,
    ensures
        key_index(m, k) == i,
    decreases m.len(),
{
    if m[0].0 == k {
        assert(i == 0);
    } else {
        assert(i >= 1);
        assert(m.skip(1)[i - 1] == m[i]);
        assert forall|t: int| 0 <= t < i - 1 implies m.skip(1)[t].0 != k by {
            assert(m.skip(1)[t] == m[t + 1]);
        }
        lemma_key_index_first(m.skip(1), k, i - 1);
    }
}

/// Absent keys have no position.
pub proof fn lemma_key_index_none(m: StoreModel, k: Seq<u8>)
    requires
        forall|t: int| 0 <= t < m.len() ==> m[t].0 != k,
    ensures
        key_index(m, k) < 0,
    decreases m.len(),
{
    if m.len() > 0 {
        assert forall|t: int| 0 <= t < m.skip(1).len() implies m.skip(1)[t].0 != k by {
            assert(m.skip(1)[t] == m[t + 1]);
        }
        lemma_key_index_none(m.skip(1), k);
    }
}

pub proof fn lemma_distinct_set(m: StoreModel, k: Seq<u8>, v: Seq<u8>)
    requires
        distinct_keys(m),
    ensures
        distinct_keys(model_set(m, k, v)),
{
    lemma_key_index(m, k);
    let m2 = model_set(m, k, v);
    assert forall|a: int, b: int| 0 <= a < b < m2.len() implies m2[a].0 != m2[b].0 by {
        if key_index(m, k) >= 0 {
            let i = key_index(m, k);
            assert(m2 == m.update(i, (k, v)));
            if a == i {
                assert(m2[a].0 == k && m2[b] == m[b]);
            } else if b == i {
                assert(m2[b].0 == k && m2[a] == m[a]);
            } else {
                assert(m2[a] == m[a] && m2[b] == m[b]);
            }
        } else {
            if b == m.len() {
                assert(m2[a] == m[a] && m2[b].0 == k);
            } else {
                assert(m2[a] == m[a] && m2[b] == m[b]);
            }
        }
    }
}

pub proof fn lemma_distinct_del(m: StoreModel, k: Seq<u8>)
    requires
        distinct_keys(m),
    ensures
        distinct_keys(model_del(m, k)),
{
    lemma_key_index(m, k);
    let m2 = model_del(m, k);
    if key_index(m, k) >= 0 {
        let i = key_index(m, k);
        assert forall|a: int, b: int| 0 <= a < b < m2.len() implies m2[a].0 != m2[b].0 by {
            let a0 = if a < i {
                a
            } else {
                a + 1
            };
            let b0 = if b < i {
                b
            } else {
                b + 1
            };
            assert(m2[a] == m[a0] && m2[b] == m[b0]);
        }
    }
}

/// Compares two byte vectors by contents.
pub fn bytes_eq(a: &Vec<u8>, b: &Vec<u8>) -> (r: bool)
    ensures
        r == (a@ == b@),
{
    if a.len() != b.len() {
        return false;
    }
    let mut k: usize = 0;
    while k < a.len()
        invariant
            k <= a.len(),
            a.len() == b.len(),
            forall|t: int| 0 <= t < k ==> a@[t] == b@[t],
        decreases a.len() - k,
    {
        if a[k] != b[k] {
            return false;
        }
        k = k + 1;
    }
    proof {
        assert(a@ =~= b@);
    }
    true
}

/// The key-value store.
pub struct Store {
    entries: Vec<(Vec<u8>, Vec<u8>)>,
}

impl View for Store {
    type V = StoreModel;

    closed spec fn view(&self) -> StoreModel {
        Seq::new(self.entries@.len(), |i: int| (self.entries@[i].0@, self.entries@[i].1@))
    }
}

impl Store {
    pub fn new() -> (r: Store)
        ensures
            r@ == StoreModel::empty(),
            distinct_keys(r@),
    {
        let s = Store { entries: Vec::new() };
        proof {
            assert(s@ =~= StoreModel::empty());
        }
        s
    }

    fn find(&self, k: &Vec<u8>) -> (r: Option<usize>)
        ensures
            (match r {
                Some(i) => i < self@.len() && key_index(self@, k@) == i as int,
                None => key_index(self@, k@) < 0,
            }),
    {
        let mut i: usize = 0;
        while i < self.entries.len()
            invariant
                i <= self.entries.len(),
                self@.len() == self.entries@.len(),
                forall|t: int| 0 <= t < i ==> #[trigger] self@[t].0 != k@,
                forall|t: int|
                    0 <= t < self@.len() ==> #[trigger] self@[t] == (
                    self.entries@[t].0@,
                    self.entries@[t].1@,
                ),
            decreases self.entries.len() - i,
        {
            if bytes_eq(&self.entries[i].0, k) {
                proof {
                    lemma_key_index_first(self@, k@, i as int);
                }
                return Some(i);
            }
            i = i + 1;
        }
        proof {
            lemma_key_index_none(self@, k@);
        }
        None
    }

    /// `SET`: binds `k` to `v`.
    pub fn set(&mut self, k: &Vec<u8>, v: &Vec<u8>)
        requires
            distinct_keys(old(self)@),
        ensures
            final(self)@ == model_set(old(self)@, k@, v@),
            distinct_keys(final(self)@),
    {
        proof {
            lemma_distinct_set(old(self)@, k@, v@);
        }
        let kc = copy_bytes(k);
        let vc = copy_bytes(v);
        match self.find(&kc) {
            Some(i) => {
                self.entries.set(i, (kc, vc));
                proof {
                    assert(self@ =~= model_set(old(self)@, k@, v@));
                }
            },
            None => {
                self.entries.push((kc, vc));
                proof {
                    assert(self@ =~= model_set(old(self)@, k@, v@));
                }
            },
        }
    }

    /// `GET`: the value bound to `k`, if any.
    pub fn get(&self, k: &Vec<u8>) -> (r: Option<Vec<u8>>)
        ensures
            (match r {
                Some(v) => model_get(self@, k@) == Some(v@),
                None => model_get(self@, k@) is None,
            }),
    {
        match self.find(k) {
            Some(i) => Some(copy_bytes(&self.entries[i].1)),
            None => None,
        }
    }

    /// `DEL`: removes `k`; reports whether it was present.
    pub fn del(&mut self, k: &Vec<u8>) -> (r: bool)
        requires
            distinct_keys(old(self)@),
        ensures
            r == model_contains(old(self)@, k@),
            final(self)@ == model_del(old(self)@, k@),
            distinct_keys(final(self)@),
    {
        proof {
            lemma_distinct_del(old(self)@, k@);
        }
        match self.find(k) {
            Some(i) => {
                self.entries.remove(i);
                proof {
                    assert(self@ =~= old(self)@.remove(key_index(old(self)@, k@)));
                }
                true
            },
            None => false,
        }
    }

    /// `FLUSHDB`: drops every entry.
    pub fn clear(&mut self)
        ensures
            final(self)@ == StoreModel::empty(),
            distinct_keys(final(self)@),
    {
        self.entries.clear();
        proof {
            assert(self@ =~= StoreModel::empty());
        }
    }

    pub fn len(&self) -> (r: usize)
        ensures
            r == self@.len(),
    {
        self.entries.len()
    }

    /// A copy of the key at position `i`.
    pub fn key_at(&self, i: usize) -> (r: Vec<u8>)
        requires
            i < self@.len(),
        ensures
            r@ == self@[i as int].0,
    {
        copy_bytes(&self.entries[i].0)
    }
}

} // verus!
