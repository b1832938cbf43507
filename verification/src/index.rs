//! Finding the elements of a list by key.

use crate::element::{key_of, Element};
use crate::fxmap::{fx_contains_key, fx_get, fx_insert, fx_new};
use crate::journal::{has_key, is_first_with_key};
use rustc_hash::FxHashMap;
use vstd::prelude::*;

verus! {

/// For each key that occurs in a list, the position of the first element
/// that carries it. An element without a key carries the key `None`.
pub struct KeyIndex {
    by_key: FxHashMap<u64, usize>,
    unkeyed: Option<usize>,
}

impl KeyIndex {
    /// What the index answers for `key`.
    pub closed spec fn answer(&self, key: Option<u64>) -> Option<usize> {
        match key {
            Some(k) => if self.by_key@.contains_key(k) {
                Some(self.by_key@[k])
            } else {
                None
            },
            None => self.unkeyed,
        }
    }

    /// Whether the index answers for the list `v`: for a key that occurs in
    /// `v` it gives the position of the first element with the key, for any
    /// other key nothing.
    pub open spec fn indexes<E, F>(&self, v: Seq<Element<E, F>>) -> bool {
        forall|key: Option<u64>|
            match #[trigger] self.answer(key) {
                Some(j) => is_first_with_key(v, key, j as int),
                None => !has_key(v, key),
            }
    }

    /// The index of the list `v`.
    pub fn build<E, F>(v: &Vec<Element<E, F>>) -> (index: Self)
        ensures
            index.indexes(v@),
    {
        let mut index = KeyIndex { by_key: fx_new(), unkeyed: None };
        let mut i: usize = 0;
        assert(index.indexes(v@.take(0)));
        while i < v.len()
            invariant
                i <= v.len(),
                index.indexes(v@.take(i as int)),
            decreases v.len() - i,
        {
            let ghost before = index;
            let ghost seen = v@.take(i as int);
            let ghost more = v@.take(i + 1);
            let key = v[i].inner_key();
            let fresh = match key {
                Some(k) => !fx_contains_key(&index.by_key, k),
                None => index.unkeyed.is_none(),
            };
            if fresh {
                match key {
                    Some(k) => {
                        let _ = fx_insert(&mut index.by_key, k, i);
                    },
                    None => {
                        index.unkeyed = Some(i);
                    },
                }
            }
            proof {
                assert(more.drop_last() =~= seen);
                assert(more.last() == v@[i as int]);
                assert(forall|j: int| 0 <= j < i ==> more[j] == seen[j]);
                assert forall|other: Option<u64>|
                    match #[trigger] index.answer(other) {
                        Some(j) => is_first_with_key(more, other, j as int),
                        None => !has_key(more, other),
                    } by {
                    let was = before.answer(other);
                    if other == key {
                        if fresh {
                            assert(was is None);
                            assert(!has_key(seen, other));
                            assert(index.answer(other) == Some(i));
                            assert forall|j: int| 0 <= j < i implies key_of(#[trigger] more[j])
                                != other by {
                                assert(key_of(seen[j]) != other);
                            }
                        } else {
                            assert(index.answer(other) == was);
                            assert(is_first_with_key(seen, other, was->0 as int));
                        }
                    } else {
                        assert(index.answer(other) == was);
                        match was {
                            Some(j) => {
                                assert(is_first_with_key(seen, other, j as int));
                            },
                            None => {
                                assert(!has_key(seen, other));
                                if has_key(more, other) {
                                    let j = choose|j: int|
                                        0 <= j < more.len() && key_of(#[trigger] more[j]) == other;
                                    assert(j < i);
                                    assert(key_of(seen[j]) == other);
                                }
                            },
                        }
                    }
                }
            }
            i += 1;
        }
        assert(v@.take(v.len() as int) =~= v@);
        index
    }

    /// The position of the first element that carries `key` in the list that
    /// was indexed, if there is one.
    pub fn find(&self, key: Option<u64>) -> (found: Option<usize>)
        ensures
            found == self.answer(key),
    {
        match key {
            Some(k) => match fx_get(&self.by_key, k) {
                Some(j) => Some(*j),
                None => None,
            },
            None => self.unkeyed,
        }
    }
}

} // verus!
