//! An indexed binary min-heap.
//!
//! Besides the usual `push` and `pop`, the heap supports replacing the
//! priority of an item already stored (decrease-key / increase-key) in
//! logarithmic time.  It does so by keeping, next to the backing array, a
//! hash map from each stored key to the array slot currently holding its
//! item; every operation that relocates an item updates the map in the
//! same step.

use vstd::prelude::*;

use std::collections::HashMap;

verus! {

/// Interface an item must offer to be stored in a [`BinaryHashHeap`]:
/// a key that identifies it uniquely and a priority value that orders it.
pub trait BinaryHashHeapItem: Sized {
    /// The item's key, as specifications see it.
    spec fn spec_key(&self) -> usize;

    /// The item's priority value, as specifications see it.
    spec fn spec_value(&self) -> usize;

    /// The key identifying this item in the heap.
    fn key(&self) -> (k: usize)
        ensures
            k == self.spec_key(),
    ;

    /// The priority value the heap orders items by; smaller comes out first.
    fn value(&self) -> (v: usize)
        ensures
            v == self.spec_value(),
    ;
}

/// Action to be taken if an item with the same key has already been
/// inserted into the heap.
pub enum PushAction {
    Keep,
    DecreaseKey,
    IncreaseKey,
}

/// The simplest possible heap item: a bare key/value pair.
pub struct KeyValue {
    pub key: usize,
    pub value: usize,
}

impl BinaryHashHeapItem for KeyValue {
    open spec fn spec_key(&self) -> usize {
        self.key
    }

    open spec fn spec_value(&self) -> usize {
        self.value
    }

    fn key(&self) -> (k: usize) {
        self.key
    }

    fn value(&self) -> (v: usize) {
        self.value
    }
}

/// Relies on the standard library's slice `swap`: it exchanges the elements
/// at the two given indices and leaves every other element in place.
#[verifier::external_body]
fn vec_swap<T>(v: &mut Vec<T>, a: usize, b: usize)
    requires
        a < old(v)@.len(),
        b < old(v)@.len(),
    ensures
        final(v)@ == old(v)@.update(a as int, old(v)@[b as int]).update(
            b as int,
            old(v)@[a as int],
        ),
{
    v.swap(a, b);
}

/// A binary min-heap that additionally supports push with decrease-key or
/// increase-key by maintaining a hash map from keys to array slots.
pub struct BinaryHashHeap<T: BinaryHashHeapItem> {
    items: Vec<T>,
    map: HashMap<usize, usize>,
}

impl<T: BinaryHashHeapItem> BinaryHashHeap<T> {
    /// What the heap holds, as a map from each stored key to its item.
    pub closed spec fn contents(&self) -> Map<usize, T> {
        Map::new(
            |k: usize| self.map@.contains_key(k),
            |k: usize| self.items@[self.map@[k] as int],
        )
    }

    /// The backing array and the key map agree: the map sends each stored
    /// item's key to the slot holding it, and speaks of no other key.
    pub closed spec fn map_consistent(&self) -> bool {
        &&& forall|i: int|
            0 <= i < self.items@.len() ==> self.map@.contains_key(
                #[trigger] self.items@[i].spec_key(),
            ) && self.map@[self.items@[i].spec_key()] == i
        &&& forall|k: usize|
            #[trigger] self.map@.contains_key(k) ==> self.map@[k] < self.items@.len()
                && self.items@[self.map@[k] as int].spec_key() == k
    }

    /// The key map reports, for every slot of the backing array, exactly
    /// that slot.
    pub closed spec fn map_matches_array(&self) -> bool {
        forall|i: int|
            0 <= i < self.items@.len() ==> self.map@.contains_key(
                #[trigger] self.items@[i].spec_key(),
            ) && self.map@[self.items@[i].spec_key()] == i
    }

    /// Min-heap order: no slot's value is less than its parent slot's value.
    pub closed spec fn heap_ordered(&self) -> bool {
        forall|i: int|
            1 <= i < self.items@.len() ==> self.items@[(i - 1) / 2].spec_value() <= (
            #[trigger] self.items@[i]).spec_value()
    }

    /// The invariant every public operation preserves.
    pub closed spec fn wf(&self) -> bool {
        self.map_consistent() && self.heap_ordered()
    }

    /// In a heap-ordered array the root's value is a lower bound for every slot.
    proof fn lemma_root_min(&self, i: int)
        requires
            self.heap_ordered(),
            0 <= i < self.items@.len(),
        ensures
            self.items@[0].spec_value() <= self.items@[i].spec_value(),
        decreases i,
    {
        if i > 0 {
            self.lemma_root_min((i - 1) / 2);
        }
    }

    /// Heap order holds everywhere except possibly between slot `j` and its
    /// parent, and `j`'s own children are already bounded by `j`'s parent.
    spec fn sift_up_ok(&self, j: int) -> bool {
        &&& forall|i: int|
            1 <= i < self.items@.len() && i != j ==> self.items@[(i - 1) / 2].spec_value() <= (
            #[trigger] self.items@[i]).spec_value()
        &&& j > 0 && 2 * j + 1 < self.items@.len() ==> self.items@[(j - 1) / 2].spec_value()
            <= self.items@[2 * j + 1].spec_value()
        &&& j > 0 && 2 * j + 2 < self.items@.len() ==> self.items@[(j - 1) / 2].spec_value()
            <= self.items@[2 * j + 2].spec_value()
    }

    /// Heap order holds everywhere except possibly between slot `j` and its
    /// children, and those children are already bounded by `j`'s parent.
    spec fn sift_down_ok(&self, j: int) -> bool {
        &&& forall|i: int|
            1 <= i < self.items@.len() && (i - 1) / 2 != j ==> self.items@[(i - 1)
                / 2].spec_value() <= (#[trigger] self.items@[i]).spec_value()
        &&& j > 0 && 2 * j + 1 < self.items@.len() ==> self.items@[(j - 1) / 2].spec_value()
            <= self.items@[2 * j + 1].spec_value()
        &&& j > 0 && 2 * j + 2 < self.items@.len() ==> self.items@[(j - 1) / 2].spec_value()
            <= self.items@[2 * j + 2].spec_value()
    }

    /// Swap the items in slots `a` and `b` and update the key map for both
    /// in the same step, so that array and map never disagree.
    fn swap_slots(&mut self, a: usize, b: usize)
        requires
            old(self).map_consistent(),
            a < old(self).items@.len(),
            b < old(self).items@.len(),
        ensures
            final(self).map_consistent(),
            final(self).contents() == old(self).contents(),
            final(self).items@ == old(self).items@.update(
                a as int,
                old(self).items@[b as int],
            ).update(b as int, old(self).items@[a as int]),
    {
        let ka = self.items[a].key();
        let kb = self.items[b].key();
        vec_swap(&mut self.items, a, b);
        self.map.insert(ka, b);
        self.map.insert(kb, a);
        proof {
            assert forall|k: usize| #[trigger] self.map@.contains_key(k) implies self.map@[k]
                < self.items@.len() && self.items@[self.map@[k] as int].spec_key() == k by {
                if k != ka && k != kb {
                    assert(old(self).map@.contains_key(k));
                    assert(old(self).items@[old(self).map@[k] as int].spec_key() == k);
                }
            }
            assert forall|i: int| 0 <= i < self.items@.len() implies self.map@.contains_key(
                #[trigger] self.items@[i].spec_key(),
            ) && self.map@[self.items@[i].spec_key()] == i by {
                if i != a as int && i != b as int {
                    assert(old(self).items@[i].spec_key() == self.items@[i].spec_key());
                    assert(old(self).map@[old(self).items@[i].spec_key()] == i);
                    assert(old(self).items@[i].spec_key() != ka && old(self).items@[i].spec_key()
                        != kb);
                }
            }
            assert(self.contents() =~= old(self).contents());
        }
    }

    /// Move the item in slot `j` toward the root until its parent's value is
    /// no larger, keeping the key map in step with every swap.
    fn sift_up(&mut self, j: usize)
        requires
            old(self).map_consistent(),
            j < old(self).items@.len(),
            old(self).sift_up_ok(j as int),
        ensures
            final(self).wf(),
            final(self).contents() == old(self).contents(),
            final(self).items@.len() == old(self).items@.len(),
        decreases j,
    {
        if j == 0 {
            return ;
        }
        let p = (j - 1) / 2;
        let vj = self.items[j].value();
        let vp = self.items[p].value();
        if vp <= vj {
            return ;
        }
        self.swap_slots(j, p);
        self.sift_up(p);
    }

    /// Move the item in slot `j` toward the leaves until no child's value is
    /// smaller, keeping the key map in step with every swap.
    fn sift_down(&mut self, j: usize)
        requires
            old(self).map_consistent(),
            j < old(self).items@.len(),
            old(self).sift_down_ok(j as int),
        ensures
            final(self).wf(),
            final(self).contents() == old(self).contents(),
            final(self).items@.len() == old(self).items@.len(),
        decreases old(self).items@.len() - j,
    {
        let len = self.items.len();
        if j >= len / 2 {
            // Slot j has no children.
            return ;
        }
        let left = 2 * j + 1;
        let vl = self.items[left].value();
        let c: usize;
        let vc: usize;
        if left + 1 < len {
            let vr = self.items[left + 1].value();
            if vl <= vr {
                c = left;
                vc = vl;
            } else {
                c = left + 1;
                vc = vr;
            }
        } else {
            c = left;
            vc = vl;
        }
        let vj = self.items[j].value();
        if vj <= vc {
            return ;
        }
        self.swap_slots(j, c);
        self.sift_down(c);
    }

    /// Push an item onto the heap.
    ///
    /// If no item with the same key is stored the item is inserted and the
    /// call returns true.  Otherwise `action` decides: `Keep` leaves the
    /// stored item; `DecreaseKey` replaces it only if the new value is
    /// strictly smaller; `IncreaseKey` only if it is strictly larger.  The
    /// call returns whether the heap changed.
    pub fn push(&mut self, action: PushAction, item: T) -> (changed: bool)
        requires
            old(self).wf(),
        ensures
            final(self).wf(),
            !old(self).contents().contains_key(item.spec_key()) ==> changed && final(self).contents() == old(self).contents().insert(item.spec_key(), item),
            old(self).contents().contains_key(item.spec_key()) ==> match action {
                PushAction::Keep => !changed && final(self).contents() == old(self).contents(),
                PushAction::DecreaseKey => if item.spec_value() < old(self).contents()[item.spec_key()].spec_value() {
                    changed && final(self).contents() == old(self).contents().insert(
                        item.spec_key(),
                        item,
                    )
                } else {
                    !changed && final(self).contents() == old(self).contents()
                },
                PushAction::IncreaseKey => if item.spec_value() > old(self).contents()[item.spec_key()].spec_value() {
                    changed && final(self).contents() == old(self).contents().insert(
                        item.spec_key(),
                        item,
                    )
                } else {
                    !changed && final(self).contents() == old(self).contents()
                },
            },
    {
        let k = item.key();
        let existing: Option<usize> = match self.map.get(&k) {
            Some(i) => Some(*i),
            None => None,
        };
        match existing {
            None => {
                let idx = self.items.len();
                self.map.insert(k, idx);
                self.items.push(item);
                proof {
                    assert(self.contents() =~= old(self).contents().insert(k, item));
                }
                self.sift_up(idx);
                true
            },
            Some(idx) => {
                match action {
                    PushAction::Keep => false,
                    PushAction::DecreaseKey => {
                        let cur = self.items[idx].value();
                        if cur <= item.value() {
                            false
                        } else {
                            self.items[idx] = item;
                            proof {
                                assert(self.contents() =~= old(self).contents().insert(k, item));
                            }
                            self.sift_up(idx);
                            true
                        }
                    },
                    PushAction::IncreaseKey => {
                        let cur = self.items[idx].value();
                        if cur >= item.value() {
                            false
                        } else {
                            self.items[idx] = item;
                            proof {
                                assert(self.contents() =~= old(self).contents().insert(k, item));
                            }
                            self.sift_down(idx);
                            true
                        }
                    },
                }
            },
        }
    }

    /// Pop the item with the smallest value, or nothing if the heap is empty.
    pub fn pop(&mut self) -> (popped: Option<T>)
        requires
            old(self).wf(),
        ensures
            final(self).wf(),
            popped is None <==> old(self).contents() == Map::<usize, T>::empty(),
            popped is None ==> final(self).contents() == old(self).contents(),
            popped matches Some(t) ==> old(self).contents().contains_key(t.spec_key()) && old(self).contents()[t.spec_key()] == t && final(self).contents() == old(self).contents().remove(t.spec_key()) && (forall|k: usize|
                #[trigger] old(self).contents().contains_key(k) ==> t.spec_value() <= old(self).contents()[k].spec_value()),
    {
        if self.items.len() == 0 {
            proof {
                assert(self.contents() =~= Map::<usize, T>::empty());
            }
            return None;
        }
        proof {
            assert(self.contents().contains_key(self.items@[0].spec_key()));
        }
        let result = self.items.swap_remove(0);
        let k = result.key();
        self.map.remove(&k);
        if self.items.len() > 0 {
            let k0 = self.items[0].key();
            self.map.insert(k0, 0);
            proof {
                let pre = old(self);
                let n = pre.items@.len();
                assert(pre.map@[k] == 0 && pre.map@[k0] == n - 1);
                assert(k != k0);
                assert forall|kk: usize| #[trigger] self.map@.contains_key(kk) implies self.map@[kk]
                    < self.items@.len() && self.items@[self.map@[kk] as int].spec_key() == kk by {
                    if kk != k0 {
                        assert(pre.map@.contains_key(kk));
                        assert(pre.items@[pre.map@[kk] as int].spec_key() == kk);
                        assert(pre.map@[kk] != 0 && pre.map@[kk] != n - 1);
                    }
                }
                assert forall|i: int| 0 <= i < self.items@.len() implies self.map@.contains_key(
                    #[trigger] self.items@[i].spec_key(),
                ) && self.map@[self.items@[i].spec_key()] == i by {
                    if i != 0 {
                        assert(self.items@[i] == pre.items@[i]);
                        assert(pre.map@[pre.items@[i].spec_key()] == i);
                        assert(pre.items@[i].spec_key() != k && pre.items@[i].spec_key() != k0);
                    }
                }
                assert(self.contents() =~= pre.contents().remove(k));
            }
            self.sift_down(0);
        } else {
            proof {
                assert forall|kk: usize| !(#[trigger] self.map@.contains_key(kk)) by {
                    if self.map@.contains_key(kk) {
                        assert(old(self).map@.contains_key(kk) && kk != k);
                        assert(old(self).items@[old(self).map@[kk] as int].spec_key() == kk);
                    }
                }
                assert(self.contents() =~= old(self).contents().remove(k));
            }
        }
        proof {
            let pre = old(self);
            assert forall|kk: usize| #[trigger] pre.contents().contains_key(kk) implies
                result.spec_value() <= pre.contents()[kk].spec_value() by {
                pre.lemma_root_min(pre.map@[kk] as int);
            }
        }
        Some(result)
    }

    /// Check that the key map reports, for every slot of the backing array,
    /// exactly that slot.  A well-formed heap always passes.
    pub fn sanity_check(&self) -> (good: bool)
        ensures
            good == self.map_matches_array(),
            self.wf() ==> good,
    {
        let n = self.items.len();
        let mut i: usize = 0;
        while i < n
            invariant
                n == self.items@.len(),
                i <= n,
                forall|j: int|
                    0 <= j < i ==> self.map@.contains_key(#[trigger] self.items@[j].spec_key())
                        && self.map@[self.items@[j].spec_key()] == j,
            decreases n - i,
        {
            let key = self.items[i].key();
            match self.map.get(&key) {
                Some(slot) => {
                    if *slot != i {
                        return false;
                    }
                },
                None => {
                    return false;
                },
            }
            i = i + 1;
        }
        true
    }

    /// Values leave the heap in non-decreasing order.  `pop` guarantees the
    /// returned item's value is minimal among the stored items and that the
    /// rest stay; so whatever a later `pop` returns was already stored at
    /// the earlier pop, and its value can only be at least as large.
    pub proof fn lemma_pop_order(stored: Map<usize, T>, first: T, second: T)
        requires
            stored.contains_key(first.spec_key()),
            stored[first.spec_key()] == first,
            forall|k: usize|
                #[trigger] stored.contains_key(k) ==> first.spec_value()
                    <= stored[k].spec_value(),
            stored.remove(first.spec_key()).contains_key(second.spec_key()),
            stored.remove(first.spec_key())[second.spec_key()] == second,
        ensures
            first.spec_value() <= second.spec_value(),
    {
        assert(stored.contains_key(second.spec_key()));
    }

    /// The contents map is finite, with exactly one entry per stored
    /// item; so for instance an insert or a removal changes its size by
    /// one entry at a time.
    pub proof fn lemma_contents_finite(&self)
        requires
            self.wf(),
        ensures
            self.contents().dom().finite(),
            self.contents().dom().len() == self.len_spec(),
    {
        let keys = self.items@.map_values(|t: T| t.spec_key());
        assert(keys.no_duplicates()) by {
            assert forall|i: int, j: int|
                0 <= i < keys.len() && 0 <= j < keys.len() && i != j implies keys[i] != keys[
            j] by {
                assert(self.map@[self.items@[i].spec_key()] == i);
                assert(self.map@[self.items@[j].spec_key()] == j);
            }
        }
        vstd::seq_lib::seq_to_set_is_finite::<usize>(keys);
        keys.unique_seq_to_set();
        assert(self.contents().dom() =~= keys.to_set()) by {
            assert forall|k: usize| self.contents().dom().contains(k) implies keys.to_set().contains(
                k,
            ) by {
                assert(keys[self.map@[k] as int] == k);
            }
            assert forall|k: usize| keys.to_set().contains(k) implies self.contents().dom().contains(
                k,
            ) by {
                let i = choose|i: int| 0 <= i < keys.len() && keys[i] == k;
                assert(self.items@[i].spec_key() == k);
            }
        }
    }

    /// The number of items stored, as specifications see it.
    pub closed spec fn len_spec(&self) -> int {
        self.items@.len() as int
    }

    /// The number of items stored.
    pub fn len(&self) -> (n: usize)
        requires
            self.wf(),
        ensures
            n == self.len_spec(),
            n == self.contents().dom().len(),
    {
        proof {
            self.lemma_contents_finite();
        }
        self.items.len()
    }

    /// Create an empty heap.
    pub fn new() -> (heap: Self)
        ensures
            heap.wf(),
            heap.contents() == Map::<usize, T>::empty(),
    {
        Self::default()
    }
}

impl<T: BinaryHashHeapItem> Default for BinaryHashHeap<T> {
    /// An empty heap.
    fn default() -> (heap: Self)
        ensures
            heap.wf(),
            heap.contents() == Map::<usize, T>::empty(),
    {
        let heap = BinaryHashHeap { items: Vec::new(), map: HashMap::new() };
        proof {
            assert(heap.contents() =~= Map::<usize, T>::empty());
        }
        heap
    }
}

} // verus!
