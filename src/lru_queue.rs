//! Recency order of cache keys: the front is the least recently used.
use vstd::prelude::*;
use crate::bytes::{bytes_eq, to_vec};

verus! {

/// `q` with the first occurrence of `k` moved to the back, or `k` appended
/// when it does not occur.
pub open spec fn promote(q: Seq<Seq<u8>>, k: Seq<u8>) -> Seq<Seq<u8>> {
    q.remove_value(k).push(k)
}

/// Keys ordered from least to most recently used.
pub struct LruQueue {
    queue: Vec<Vec<u8>>,
}

impl View for LruQueue {
    type V = Seq<Seq<u8>>;

    closed spec fn view(&self) -> Seq<Seq<u8>> {
        self.queue@.map_values(|k: Vec<u8>| k@)
    }
}

impl LruQueue {
    pub fn new() -> (r: LruQueue)
        ensures
            r@ == Seq::<Seq<u8>>::empty(),
    {
        let r = LruQueue { queue: Vec::new() };
        assert(r@ =~= Seq::<Seq<u8>>::empty());
        r
    }

    pub fn len(&self) -> (r: usize)
        ensures
            r == self@.len(),
    {
        self.queue.len()
    }

    /// The index of the first occurrence of `key`.
    fn position(&self, key: &[u8]) -> (r: Option<usize>)
        ensures
            match r {
                Some(i) => self@.index_of_first(key@) == Some(i as int),
                None => self@.index_of_first(key@) is None,
            },
    {
        proof {
            self@.index_of_first_ensures(key@);
        }
        let mut i: usize = 0;
        while i < self.queue.len()
            invariant
                i <= self@.len(),
                self@.len() == self.queue@.len(),
                forall|j: int| 0 <= j < i ==> self@[j] != key@,
            decreases self.queue@.len() - i,
        {
            if bytes_eq(self.queue[i].as_slice(), key) {
                proof {
                    self@.index_of_first_ensures(key@);
                    assert(self@[i as int] == key@);
                }
                return Some(i);
            }
            i = i + 1;
        }
        proof {
            self@.index_of_first_ensures(key@);
        }
        None
    }

    /// Moves `new_element` to the most recently used end, adding it when absent.
    pub fn add_lru(&mut self, new_element: &[u8])
        ensures
            final(self)@ == promote(old(self)@, new_element@),
    {
        proof {
            old(self)@.index_of_first_ensures(new_element@);
        }
        match self.position(new_element) {
            Some(p) => {
                let elem = self.queue.remove(p);
                self.queue.push(elem);
                assert(final(self)@ =~= promote(old(self)@, new_element@));
            },
            None => {
                self.queue.push(to_vec(new_element));
                assert(final(self)@ =~= promote(old(self)@, new_element@));
            },
        }
    }

    /// Removes and returns the least recently used key, if any.
    pub fn evict_lru(&mut self) -> (r: Option<Vec<u8>>)
        ensures
            old(self)@.len() == 0 ==> r is None && final(self)@ == old(self)@,
            old(self)@.len() > 0 ==> (r matches Some(k) && k@ == old(self)@[0]),
            old(self)@.len() > 0 ==> final(self)@ == old(self)@.drop_first(),
    {
        if self.queue.len() > 0 {
            let result = self.queue.remove(0);
            assert(final(self)@ =~= old(self)@.drop_first());
            return Some(result);
        }
        None
    }

    /// Removes the first occurrence of `value`, returning it when it was present.
    pub fn evict_lru_by_value(&mut self, value: &[u8]) -> (r: Option<Vec<u8>>)
        ensures
            r is Some == old(self)@.contains(value@),
            r matches Some(k) ==> k@ == value@,
            final(self)@ == old(self)@.remove_value(value@),
    {
        proof {
            old(self)@.index_of_first_ensures(value@);
        }
        match self.position(value) {
            Some(p) => {
                let result = self.queue.remove(p);
                assert(final(self)@ =~= old(self)@.remove_value(value@));
                Some(result)
            },
            None => None,
        }
    }
}

} // verus!
