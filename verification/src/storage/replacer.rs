//! The replacer: which unpinned frame gives way when a page needs one.

use vstd::prelude::*;
use crate::storage::descriptors::DescriptorID;

verus! {

/// How a victim selector orders its candidates.
pub struct Policy {
    /// The candidates after an index was pinned.
    pub pinned: spec_fn(Seq<usize>, usize) -> Seq<usize>,
    /// The candidates of a selector of the given capacity after an index
    /// was unpinned.
    pub unpinned: spec_fn(Seq<usize>, nat, usize) -> Seq<usize>,
}

/// A victim selector over descriptor indices.
///
/// The selector holds the indices that may be evicted, the next victim
/// first. How `pin` and `unpin` order them is the policy's own matter.
pub trait Replacer {
    /// The indices that may be evicted, the next victim first.
    spec fn candidates(&self) -> Seq<usize>;

    /// How the selector orders its candidates.
    spec fn policy() -> Policy;

    /// The number of indices that the selector can hold.
    spec fn capacity(&self) -> nat;

    /// Whether the selector is consistent: it holds no index twice, and no
    /// more indices than its capacity.
    spec fn wf(&self) -> bool;

    /// A consistent selector holds no index twice and is not over capacity.
    proof fn lemma_wf(&self)
        requires
            self.wf(),
        ensures
            self.candidates().no_duplicates(),
            self.candidates().len() <= self.capacity(),
    ;

    /// Removes and returns the next victim, or returns `None` where there
    /// is no candidate.
    fn victim(&mut self) -> (r: Option<DescriptorID>)
        requires
            old(self).wf(),
        ensures
            final(self).wf(),
            final(self).capacity() == old(self).capacity(),
            match r {
                Some(id) => old(self).candidates().len() > 0 && id.0 == old(self).candidates()[0]
                    && final(self).candidates() == old(self).candidates().drop_first()
                    && final(self).candidates().to_set() == old(self).candidates().to_set().remove(
                    id.0,
                ),
                None => old(self).candidates().len() == 0 && final(self).candidates() == old(
                    self,
                ).candidates(),
            },
    ;

    /// Takes the index out of the candidates.
    fn pin(&mut self, descriptor_id: DescriptorID)
        requires
            old(self).wf(),
        ensures
            final(self).wf(),
            final(self).capacity() == old(self).capacity(),
            final(self).candidates() == (Self::policy().pinned)(
                old(self).candidates(),
                descriptor_id.0,
            ),
            final(self).candidates().to_set() == old(self).candidates().to_set().remove(
                descriptor_id.0,
            ),
    ;

    /// Makes the index a candidate. Where it is none yet and the selector
    /// is full, other candidates may have to leave.
    fn unpin(&mut self, descriptor_id: DescriptorID)
        requires
            old(self).wf(),
        ensures
            final(self).wf(),
            final(self).capacity() == old(self).capacity(),
            final(self).candidates() == (Self::policy().unpinned)(
                old(self).candidates(),
                old(self).capacity(),
                descriptor_id.0,
            ),
            final(self).candidates().to_set().subset_of(
                old(self).candidates().to_set().insert(descriptor_id.0),
            ),
            old(self).candidates().contains(descriptor_id.0) || old(self).candidates().len() < old(
                self,
            ).capacity() ==> final(self).candidates().to_set() == old(
                self,
            ).candidates().to_set().insert(descriptor_id.0),
    ;
}

/// The keys of the cache, the least recently used first.
pub uninterp spec fn lru_order(cache: lru::LruCache<usize, bool>) -> Seq<usize>;

/// The number of keys that the cache was made to hold.
pub uninterp spec fn lru_cap(cache: lru::LruCache<usize, bool>) -> nat;

/// `lru::LruCache`, a cache with a fixed capacity that drops its least
/// recently used key when it is full. Nothing is known of what is inside
/// but what `lru_order` and `lru_cap` name.
#[verifier::external_type_specification]
#[verifier::external_body]
#[verifier::reject_recursive_types(K)]
#[verifier::reject_recursive_types(V)]
#[verifier::reject_recursive_types(S)]
pub struct ExLruCache<K, V, S>(lru::LruCache<K, V, S>);

/// `lru::DefaultHasher`, the hasher of an `LruCache` that is made without
/// one. Nothing is known of it.
#[verifier::external_type_specification]
#[verifier::external_body]
pub struct ExLruHasher(lru::DefaultHasher);

/// The sequence without `x`, in the same order.
pub open spec fn without(order: Seq<usize>, x: usize) -> Seq<usize>
    decreases order.len(),
{
    if order.len() == 0 {
        order
    } else if order.last() == x {
        without(order.drop_last(), x)
    } else {
        without(order.drop_last(), x).push(order.last())
    }
}

/// `without` keeps every element but `x`.
pub proof fn lemma_without_contains(order: Seq<usize>, x: usize, y: usize)
    ensures
        without(order, x).contains(y) <==> order.contains(y) && y != x,
    decreases order.len(),
{
    let kept = without(order, x);
    if order.len() > 0 {
        let rest = order.drop_last();
        let last = order.last();
        let inner = without(rest, x);
        lemma_without_contains(rest, x, y);
        if kept.contains(y) {
            let i = choose|i: int| 0 <= i < kept.len() && kept[i] == y;
            if last != x && i == kept.len() - 1 {
                assert(order[order.len() - 1] == y);
            } else {
                assert(inner[i] == y);
                assert(inner.contains(y));
                assert(rest.contains(y));
                let j = choose|j: int| 0 <= j < rest.len() && rest[j] == y;
                assert(order[j] == y);
            }
        }
        if order.contains(y) && y != x {
            let j = choose|j: int| 0 <= j < order.len() && order[j] == y;
            if j == order.len() - 1 {
                assert(kept[kept.len() - 1] == y);
            } else {
                assert(rest[j] == y);
                assert(rest.contains(y));
                assert(inner.contains(y));
                let i = choose|i: int| 0 <= i < inner.len() && inner[i] == y;
                assert(kept[i] == y);
            }
        }
    }
}

/// What `without` keeps: every element but `x`, none of them more often
/// than before.
pub proof fn lemma_without(order: Seq<usize>, x: usize)
    ensures
        forall|y: usize| #[trigger] without(order, x).contains(y) <==> order.contains(y) && y != x,
        without(order, x).len() <= order.len(),
        order.no_duplicates() ==> without(order, x).no_duplicates(),
        !order.contains(x) ==> without(order, x) == order,
    decreases order.len(),
{
    let kept = without(order, x);
    assert forall|y: usize| #[trigger] kept.contains(y) <==> order.contains(y) && y != x by {
        lemma_without_contains(order, x, y);
    }
    if order.len() > 0 {
        let rest = order.drop_last();
        let last = order.last();
        lemma_without(rest, x);
        let inner = without(rest, x);
        if order.no_duplicates() {
            assert(rest.no_duplicates());
            if last != x {
                assert(!rest.contains(last)) by {
                    if rest.contains(last) {
                        let j = choose|j: int| 0 <= j < rest.len() && rest[j] == last;
                        assert(order[j] == order[order.len() - 1]);
                    }
                }
                lemma_without_contains(rest, x, last);
                assert(!inner.contains(last));
                assert forall|i: int, j: int|
                    0 <= i < kept.len() && 0 <= j < kept.len() && i != j implies kept[i]
                    != kept[j] by {
                    if i == kept.len() - 1 {
                        assert(inner[j] == kept[j]);
                        assert(inner.contains(kept[j]));
                    } else if j == kept.len() - 1 {
                        assert(inner[i] == kept[i]);
                        assert(inner.contains(kept[i]));
                    } else {
                        assert(inner[i] == kept[i] && inner[j] == kept[j]);
                    }
                }
            }
        }
        if !order.contains(x) {
            assert(!rest.contains(x)) by {
                if rest.contains(x) {
                    let j = choose|j: int| 0 <= j < rest.len() && rest[j] == x;
                    assert(order[j] == x);
                }
            }
            assert(last != x) by {
                assert(order[order.len() - 1] == last);
            }
            assert(kept =~= order);
        }
    }
}

/// Taking an element out of a sequence without repetitions makes the
/// sequence shorter by one at most.
pub proof fn lemma_without_len(order: Seq<usize>, x: usize)
    requires
        order.no_duplicates(),
    ensures
        without(order, x).len() >= order.len() - 1,
    decreases order.len(),
{
    if order.len() > 0 {
        let rest = order.drop_last();
        assert(rest.no_duplicates());
        lemma_without_len(rest, x);
        if order.last() == x {
            assert(!rest.contains(x)) by {
                if rest.contains(x) {
                    let j = choose|j: int| 0 <= j < rest.len() && rest[j] == x;
                    assert(order[j] == order[order.len() - 1]);
                }
            }
            lemma_without(rest, x);
        }
    }
}

/// A sequence of numbers below `n`, none of them twice, has `n` elements
/// at most.
pub proof fn lemma_length_bound(order: Seq<usize>, n: nat)
    requires
        order.no_duplicates(),
        forall|i: int| 0 <= i < order.len() ==> (#[trigger] order[i]) < n,
    ensures
        order.len() <= n,
    decreases n,
{
    if n == 0 {
        if order.len() > 0 {
            assert(order[0] < n);
        }
    } else {
        let x = (n - 1) as usize;
        let rest = without(order, x);
        lemma_without(order, x);
        lemma_without_len(order, x);
        assert forall|i: int| 0 <= i < rest.len() implies (#[trigger] rest[i]) < n - 1 by {
            assert(rest.contains(rest[i]));
            assert(order.contains(rest[i]));
            let j = choose|j: int| 0 <= j < order.len() && order[j] == rest[i];
            assert(order[j] < n);
        }
        lemma_length_bound(rest, (n - 1) as nat);
    }
}

/// A sequence of numbers below `n`, none of them twice, that lacks one of
/// the numbers below `n` has fewer than `n` elements.
pub proof fn lemma_room_left(order: Seq<usize>, n: nat, x: usize)
    requires
        order.no_duplicates(),
        forall|i: int| 0 <= i < order.len() ==> (#[trigger] order[i]) < n,
        x < n,
        !order.contains(x),
    ensures
        order.len() < n,
{
    let more = order.push(x);
    assert forall|i: int, j: int| 0 <= i < more.len() && 0 <= j < more.len() && i != j implies more[i]
        != more[j] by {
        if i == more.len() - 1 {
            assert(order[j] == more[j]);
            assert(order.contains(more[j]));
        } else if j == more.len() - 1 {
            assert(order[i] == more[i]);
            assert(order.contains(more[i]));
        } else {
            assert(order[i] == more[i] && order[j] == more[j]);
        }
    }
    assert forall|i: int| 0 <= i < more.len() implies (#[trigger] more[i]) < n by {
        if i < order.len() {
            assert(order[i] == more[i]);
        }
    }
    lemma_length_bound(more, n);
}

/// The order after a put holds `key` (unless the capacity is 0), no key
/// twice, and no more keys than the capacity.
pub proof fn lemma_order_after_put(order: Seq<usize>, cap: nat, key: usize)
    requires
        order.no_duplicates(),
        order.len() <= cap,
    ensures
        order_after_put(order, cap, key).no_duplicates(),
        order_after_put(order, cap, key).len() <= cap,
        order_after_put(order, cap, key).to_set().subset_of(order.to_set().insert(key)),
        order.contains(key) || order.len() < cap ==> order_after_put(order, cap, key).to_set()
            == order.to_set().insert(key),
{
    let after = order_after_put(order, cap, key);
    lemma_without(order, key);
    if order.contains(key) {
        let kept = without(order, key);
        assert(kept.len() < order.len()) by {
            lemma_without_shrinks(order, key);
        }
        assert(after.no_duplicates()) by {
            assert forall|i: int, j: int|
                0 <= i < after.len() && 0 <= j < after.len() && i != j implies after[i]
                != after[j] by {
                if i == after.len() - 1 {
                    assert(kept[j] == after[j]);
                    assert(kept.contains(after[j]));
                } else if j == after.len() - 1 {
                    assert(kept[i] == after[i]);
                    assert(kept.contains(after[i]));
                } else {
                    assert(kept[i] == after[i] && kept[j] == after[j]);
                }
            }
        }
        assert(after.to_set() =~= order.to_set().insert(key)) by {
            assert forall|y: usize| after.contains(y) <==> order.contains(y) || y == key by {
                if after.contains(y) {
                    let i = choose|i: int| 0 <= i < after.len() && after[i] == y;
                    if i < kept.len() {
                        assert(kept[i] == y);
                        assert(kept.contains(y));
                    }
                }
                if order.contains(y) && y != key {
                    assert(kept.contains(y));
                    let i = choose|i: int| 0 <= i < kept.len() && kept[i] == y;
                    assert(after[i] == y);
                }
                if y == key {
                    assert(after[after.len() - 1] == y);
                }
            }
        }
    } else if cap == 0 {
        assert(order.to_set().subset_of(order.to_set().insert(key)));
    } else {
        let base = if order.len() >= cap {
            order.drop_first()
        } else {
            order
        };
        assert(after == base.push(key));
        assert forall|y: usize| base.contains(y) implies order.contains(y) by {
            let i = choose|i: int| 0 <= i < base.len() && base[i] == y;
            if order.len() >= cap {
                assert(order[i + 1] == y);
            } else {
                assert(order[i] == y);
            }
        }
        assert(after.no_duplicates()) by {
            assert forall|i: int, j: int|
                0 <= i < after.len() && 0 <= j < after.len() && i != j implies after[i]
                != after[j] by {
                if i == after.len() - 1 {
                    assert(base[j] == after[j]);
                    assert(base.contains(after[j]));
                } else if j == after.len() - 1 {
                    assert(base[i] == after[i]);
                    assert(base.contains(after[i]));
                } else {
                    assert(base[i] == after[i] && base[j] == after[j]);
                }
            }
        }
        assert forall|y: usize| after.contains(y) implies order.contains(y) || y == key by {
            let i = choose|i: int| 0 <= i < after.len() && after[i] == y;
            if i < base.len() {
                assert(base[i] == y);
                assert(base.contains(y));
            }
        }
        assert(after.to_set().subset_of(order.to_set().insert(key)));
        if order.len() < cap {
            assert forall|y: usize| order.contains(y) || y == key implies after.contains(y) by {
                if y == key {
                    assert(after[after.len() - 1] == y);
                } else {
                    let i = choose|i: int| 0 <= i < order.len() && order[i] == y;
                    assert(after[i] == y);
                }
            }
            assert(after.to_set() =~= order.to_set().insert(key));
        }
    }
}

/// Taking out an element that is there makes the sequence shorter.
pub proof fn lemma_without_shrinks(order: Seq<usize>, x: usize)
    requires
        order.contains(x),
    ensures
        without(order, x).len() < order.len(),
    decreases order.len(),
{
    lemma_without(order.drop_last(), x);
    if order.last() != x {
        let j = choose|j: int| 0 <= j < order.len() && order[j] == x;
        assert(order.drop_last()[j] == x);
        lemma_without_shrinks(order.drop_last(), x);
    }
}

/// The order of the keys after `key` was put in a cache of capacity `cap`
/// with the keys `order`: a key that is there moves to the most recently
/// used end; a new key is added there, and where the cache is full the
/// least recently used key leaves first; a cache of capacity 0 stays empty.
pub open spec fn order_after_put(order: Seq<usize>, cap: nat, key: usize) -> Seq<usize> {
    if order.contains(key) {
        without(order, key).push(key)
    } else if cap == 0 {
        order
    } else if order.len() >= cap {
        order.drop_first().push(key)
    } else {
        order.push(key)
    }
}

/// An empty cache for `cap` keys.
///
/// Calls `LruCache::new`, which builds an empty cache and records `cap`.
#[verifier::external_body]
fn lru_new(cap: usize) -> (cache: lru::LruCache<usize, bool>)
    ensures
        lru_order(cache) == Seq::<usize>::empty(),
        lru_cap(cache) == cap,
{
    lru::LruCache::new(cap)
}

/// Puts `key` in the cache as its most recently used key.
///
/// Calls `LruCache::put`: a key that is in the cache is moved to the most
/// recently used end; a new key is added there, after the least recently
/// used key was dropped where the cache held as many keys as its capacity;
/// with capacity 0 nothing is stored. No key is ever held twice.
#[verifier::external_body]
fn lru_put(cache: &mut lru::LruCache<usize, bool>, key: usize)
    ensures
        lru_cap(*final(cache)) == lru_cap(*old(cache)),
        lru_order(*final(cache)) == order_after_put(lru_order(*old(cache)), lru_cap(*old(cache)), key),
{
    cache.put(key, true);
}

/// Takes `key` out of the cache, if it is there.
///
/// Calls `LruCache::pop`, which removes the key's entry and leaves the
/// others in their order.
#[verifier::external_body]
fn lru_pop(cache: &mut lru::LruCache<usize, bool>, key: usize)
    ensures
        lru_cap(*final(cache)) == lru_cap(*old(cache)),
        lru_order(*final(cache)) == without(lru_order(*old(cache)), key),
{
    cache.pop(&key);
}

/// Takes the least recently used key out of the cache and returns it, or
/// returns `None` where the cache is empty.
///
/// Calls `LruCache::pop_lru`.
#[verifier::external_body]
fn lru_pop_lru(cache: &mut lru::LruCache<usize, bool>) -> (r: Option<usize>)
    ensures
        lru_cap(*final(cache)) == lru_cap(*old(cache)),
        match r {
            Some(key) => lru_order(*old(cache)).len() > 0 && key == lru_order(*old(cache))[0]
                && lru_order(*final(cache)) == lru_order(*old(cache)).drop_first(),
            None => lru_order(*old(cache)).len() == 0 && lru_order(*final(cache)) == lru_order(
                *old(cache),
            ),
        },
{
    cache.pop_lru().map(|(key, _)| key)
}

/// The least-recently-used policy: the victim is the candidate whose last
/// `unpin` is the longest ago.
pub struct LruReplacer {
    cache: lru::LruCache<usize, bool>,
}

impl LruReplacer {
    /// An empty selector for `size` indices.
    pub fn new(size: usize) -> (r: Self)
        requires
            size > 0,
        ensures
            r.wf(),
            r.candidates() == Seq::<usize>::empty(),
            r.capacity() == size,
    {
        Self { cache: lru_new(size) }
    }
}

impl Replacer for LruReplacer {
    closed spec fn candidates(&self) -> Seq<usize> {
        lru_order(self.cache)
    }

    /// A pinned index leaves, and the others keep their order. An
    /// unpinned index becomes the most recently unpinned candidate; where
    /// it is no candidate yet and the selector is full, the least recently
    /// unpinned candidate leaves.
    open spec fn policy() -> Policy {
        Policy {
            pinned: |order: Seq<usize>, id: usize| without(order, id),
            unpinned: |order: Seq<usize>, capacity: nat, id: usize|
                order_after_put(order, capacity, id),
        }
    }

    closed spec fn capacity(&self) -> nat {
        lru_cap(self.cache)
    }

    closed spec fn wf(&self) -> bool {
        lru_order(self.cache).no_duplicates() && lru_order(self.cache).len() <= lru_cap(self.cache)
    }

    proof fn lemma_wf(&self) {
    }

    fn victim(&mut self) -> (r: Option<DescriptorID>) {
        let ghost before = lru_order(self.cache);
        match lru_pop_lru(&mut self.cache) {
            Some(key) => {
                proof {
                    let after = before.drop_first();
                    assert forall|y: usize| after.contains(y) <==> before.contains(y) && y
                        != key by {
                        if after.contains(y) {
                            let i = choose|i: int| 0 <= i < after.len() && after[i] == y;
                            assert(before[i + 1] == y);
                        }
                        if before.contains(y) && y != key {
                            let i = choose|i: int| 0 <= i < before.len() && before[i] == y;
                            assert(after[i - 1] == y);
                        }
                    }
                    assert(after.to_set() =~= before.to_set().remove(key));
                }
                Some(DescriptorID(key))
            },
            None => None,
        }
    }

    fn pin(&mut self, descriptor_id: DescriptorID) {
        proof {
            lemma_without(lru_order(self.cache), descriptor_id.0);
        }
        lru_pop(&mut self.cache, descriptor_id.0);
        assert(self.candidates().to_set() =~= old(self).candidates().to_set().remove(
            descriptor_id.0,
        ));
    }

    fn unpin(&mut self, descriptor_id: DescriptorID) {
        proof {
            lemma_order_after_put(lru_order(self.cache), lru_cap(self.cache), descriptor_id.0);
        }
        lru_put(&mut self.cache, descriptor_id.0);
    }
}

} // verus!
