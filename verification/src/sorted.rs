//! Vectors kept in ascending order of a string key, each key once.

use vstd::prelude::*;
use crate::bytes::{order_text, text_lt, Order};
use crate::bytes::{lemma_text_lt_irreflexive, lemma_text_lt_transitive};

verus! {

/// A value that is found by a string.
pub trait Keyed {
    /// The string that the value is found by.
    spec fn key(&self) -> Seq<char>;

    fn key_str(&self) -> (key: &str)
        ensures
            key@ == self.key(),
    ;
}

/// The keys of `items` ascend strictly, so none occurs twice.
pub open spec fn sorted<T: Keyed>(items: Seq<T>) -> bool {
    forall|i: int, j: int| 0 <= i < j < items.len() ==> text_lt(
        #[trigger] items[i].key(),
        #[trigger] items[j].key(),
    )
}

/// `at` is where `key` stands in `items`, or where it would have to go.
pub open spec fn search_result<T: Keyed>(items: Seq<T>, key: Seq<char>, at: Result<usize, usize>) -> bool {
    match at {
        Ok(i) => i < items.len() && items[i as int].key() == key,
        Err(i) => {
            &&& i <= items.len()
            &&& forall|k: int| 0 <= k < i ==> text_lt(#[trigger] items[k].key(), key)
            &&& forall|k: int| i <= k < items.len() ==> text_lt(key, #[trigger] items[k].key())
        },
    }
}

/// A key stands at one place at most.
pub proof fn lemma_sorted_unique<T: Keyed>(items: Seq<T>, i: int, j: int)
    requires
        sorted(items),
        0 <= i < items.len(),
        0 <= j < items.len(),
        items[i].key() == items[j].key(),
    ensures
        i == j,
{
    lemma_text_lt_irreflexive(items[i].key());
}

/// A key that is not there has one place to go, and no item has it.
pub proof fn lemma_search_absent<T: Keyed>(items: Seq<T>, key: Seq<char>, at: usize)
    requires
        search_result(items, key, Err(at)),
    ensures
        forall|k: int| 0 <= k < items.len() ==> (#[trigger] items[k]).key() != key,
{
    lemma_text_lt_irreflexive(key);
}

/// Putting an item where its key has to go keeps the order.
pub proof fn lemma_insert_sorted<T: Keyed>(items: Seq<T>, at: usize, item: T)
    requires
        sorted(items),
        search_result(items, item.key(), Err(at)),
    ensures
        sorted(items.insert(at as int, item)),
{
    let after = items.insert(at as int, item);
    assert forall|i: int, j: int| 0 <= i < j < after.len() implies text_lt(
        #[trigger] after[i].key(),
        #[trigger] after[j].key(),
    ) by {
        if i < at && j > at {
            assert(after[i] == items[i]);
            assert(after[j] == items[j - 1]);
        } else if i < at && j < at {
            assert(after[i] == items[i]);
            assert(after[j] == items[j]);
        } else if i > at {
            assert(after[i] == items[i - 1]);
            assert(after[j] == items[j - 1]);
        } else if i == at {
            assert(after[j] == items[j - 1]);
        } else {
            assert(after[i] == items[i]);
        }
    }
}

/// Finds `key` in `items` by halving: the place where it stands, or the place
/// where it would have to go.
pub fn search<T: Keyed>(items: &Vec<T>, key: &str) -> (at: Result<usize, usize>)
    requires
        sorted(items@),
    ensures
        search_result(items@, key@, at),
{
    let mut low: usize = 0;
    let mut high: usize = items.len();
    while low < high
        invariant
            low <= high <= items@.len(),
            sorted(items@),
            forall|k: int| 0 <= k < low ==> text_lt(#[trigger] items@[k].key(), key@),
            forall|k: int| high <= k < items@.len() ==> text_lt(key@, #[trigger] items@[k].key()),
        decreases high - low,
    {
        let mid = low + (high - low) / 2;
        match order_text(items[mid].key_str(), key) {
            Order::Equal => {
                return Ok(mid);
            },
            Order::Less => {
                proof {
                    assert forall|k: int| 0 <= k < mid + 1 implies text_lt(
                        #[trigger] items@[k].key(),
                        key@,
                    ) by {
                        if k < mid {
                            lemma_text_lt_transitive(items@[k].key(), items@[mid as int].key(), key@);
                        }
                    }
                }
                low = mid + 1;
            },
            Order::Greater => {
                proof {
                    assert forall|k: int| mid <= k < items@.len() implies text_lt(
                        key@,
                        #[trigger] items@[k].key(),
                    ) by {
                        if k > mid {
                            lemma_text_lt_transitive(key@, items@[mid as int].key(), items@[k].key());
                        }
                    }
                }
                high = mid;
            },
        }
    }
    Err(low)
}

} // verus!
