//! Sets of keys.

use crate::table::Key;
use vstd::prelude::*;

verus! {

/// A set of keys.
pub struct KeySet<K: Key> {
    items: Vec<K>,
}

impl<K: Key> View for KeySet<K> {
    type V = Set<K::V>;

    closed spec fn view(&self) -> Set<K::V> {
        self.list().to_set()
    }
}

impl<K: Key> KeySet<K> {
    /// The members in the order in which they came.
    pub closed spec fn list(&self) -> Seq<K::V> {
        self.items@.map_values(|k: K| k@)
    }

    /// No member is held twice.
    pub closed spec fn wf(&self) -> bool {
        self.list().no_duplicates()
    }

    pub proof fn lemma_listed(&self)
        requires
            self.wf(),
        ensures
            self@ == self.list().to_set(),
            self.list().no_duplicates(),
            self@.finite(),
    {
        self.list().unique_seq_to_set();
    }

    pub fn new() -> (r: Self)
        ensures
            r.wf(),
            r@ == Set::<K::V>::empty(),
            r.list() == Seq::<K::V>::empty(),
    {
        let r = KeySet { items: Vec::new() };
        proof {
            assert(r.list() =~= Seq::<K::V>::empty());
            assert(r@ =~= Set::<K::V>::empty());
        }
        r
    }

    /// The number of members.
    pub fn len(&self) -> (n: usize)
        requires
            self.wf(),
        ensures
            n == self@.len(),
            n == self.list().len(),
            self@.finite(),
    {
        proof {
            self.list().unique_seq_to_set();
        }
        self.items.len()
    }

    /// The member at a position.
    pub fn item(&self, i: usize) -> (k: &K)
        requires
            i < self.list().len(),
        ensures
            k@ == self.list()[i as int],
            self@.contains(k@),
    {
        proof {
            assert(self.list().contains(self.list()[i as int]));
        }
        &self.items[i]
    }

    pub fn contains(&self, key: &K) -> (r: bool)
        ensures
            r == self@.contains(key@),
    {
        let mut i: usize = 0;
        while i < self.items.len()
            invariant
                0 <= i <= self.items@.len(),
                forall|j: int| 0 <= j < i ==> #[trigger] self.list()[j] != key@,
            decreases self.items@.len() - i,
        {
            if self.items[i].same(key) {
                proof {
                    assert(self.list()[i as int] == key@);
                }
                return true;
            }
            proof {
                assert(self.list()[i as int] == self.items@[i as int]@);
            }
            i += 1;
        }
        false
    }

    pub fn insert(&mut self, key: K)
        requires
            old(self).wf(),
        ensures
            final(self).wf(),
            final(self)@ == old(self)@.insert(key@),
    {
        let ghost before = self.list();
        let ghost k = key@;
        if !self.contains(&key) {
            self.items.push(key);
            proof {
                assert(self.list() =~= before.push(k));
                assert forall|x: K::V| before.push(k).contains(x) == (before.contains(x) || x == k) by {
                    if before.contains(x) {
                        let j = choose|j: int| 0 <= j < before.len() && before[j] == x;
                        assert(before.push(k)[j] == x);
                    }
                    assert(before.push(k)[before.len() as int] == k);
                    if before.push(k).contains(x) && x != k {
                        let j = choose|j: int|
                            0 <= j < before.push(k).len() && before.push(k)[j] == x;
                        assert(before[j] == x);
                    }
                }
                assert(self@ =~= old(self)@.insert(k));
            }
        } else {
            proof {
                assert(self@ =~= old(self)@.insert(k));
            }
        }
    }
}

/// A copy of a set of texts.
pub fn copy_texts(set: &KeySet<String>) -> (r: KeySet<String>)
    requires
        set.wf(),
    ensures
        r.wf(),
        r@ == set@,
{
    let mut out: KeySet<String> = KeySet::new();
    let n = set.len();
    let mut i: usize = 0;
    while i < n
        invariant
            0 <= i <= n,
            n == set.list().len(),
            set.wf(),
            out.wf(),
            out@ == set.list().take(i as int).to_set(),
        decreases n - i,
    {
        let ghost done = set.list().take(i as int);
        let k = set.item(i);
        out.insert(k.clone());
        proof {
            let more = set.list().take(i + 1);
            assert(more =~= done.push(k@));
            assert(more.to_set() =~= done.to_set().insert(k@)) by {
                assert forall|x: Seq<char>| more.contains(x) == (done.contains(x) || x == k@) by {
                    if done.contains(x) {
                        let j = choose|j: int| 0 <= j < done.len() && done[j] == x;
                        assert(more[j] == x);
                    }
                    assert(more[i as int] == k@);
                    if more.contains(x) && x != k@ {
                        let j = choose|j: int| 0 <= j < more.len() && more[j] == x;
                        assert(done[j] == x);
                    }
                }
            }
        }
        i += 1;
    }
    proof {
        assert(set.list().take(n as int) =~= set.list());
        set.lemma_listed();
    }
    out
}

} // verus!
