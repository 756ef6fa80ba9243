//! What a pool and its handles are, as mathematics, and what a checkout and a checkin do to
//! them.

use crate::reset::{is_fresh, Dirty, Reset, ResetOnCheckin};
use vstd::prelude::*;

verus! {

/// What an entry holds for its user: the payload and the extra bytes.
pub struct EntryView<T> {
    /// The payload.
    pub data: T,
    /// The extra bytes.
    pub extra: Seq<u8>,
}

/// What a handle stands for: the index of its entry in the arena, and what the entry holds.
pub struct CheckoutView<T> {
    /// Index of the entry in the arena.
    pub index: usize,
    /// What the entry holds.
    pub entry: EntryView<T>,
}

/// `n` bytes, all zero.
pub open spec fn zeros(n: nat) -> Seq<u8> {
    Seq::new(n, |i: int| 0u8)
}

/// The state of a pool: which entries are free, in which order they will be handed out, and
/// what each entry in the pool holds.
pub struct PoolView<T> {
    /// Number of entries in the arena.
    pub count: nat,
    /// Number of extra bytes of every entry.
    pub extra: nat,
    /// The free list, head first.
    pub free: Seq<usize>,
    /// Per entry, what it holds while it is in the pool; `None` while it is checked out.
    pub slots: Seq<Option<EntryView<T>>>,
}

impl<T> PoolView<T> {
    /// The entries on the free list are exactly the entries in the pool, none is listed
    /// twice, and each has the pool's number of extra bytes.
    pub open spec fn wf(self) -> bool {
        &&& self.count <= usize::MAX
        &&& self.slots.len() == self.count
        &&& self.free.no_duplicates()
        &&& forall|i: int| 0 <= i < self.free.len() ==> (#[trigger] self.free[i]) < self.count
        &&& forall|j: int|
            0 <= j < self.count ==> ((#[trigger] self.slots[j]) is Some <==> self.free.contains(
                j as usize,
            ))
        &&& forall|j: int|
            0 <= j < self.count ==> ((#[trigger] self.slots[j]) matches Some(e) ==> e.extra.len()
                == self.extra)
    }

    /// No entry is free.
    pub open spec fn depleted(self) -> bool {
        self.free.len() == 0
    }

    /// The entries that are checked out.
    pub open spec fn outstanding(self) -> Set<int> {
        Set::new(|j: int| 0 <= j < self.count && self.slots[j] is None)
    }

    /// The handle that the next checkout gives: the entry at the head of the free list.
    pub open spec fn first(self) -> CheckoutView<T>
        recommends
            !self.depleted(),
    {
        CheckoutView { index: self.free[0], entry: self.slots[self.free[0] as int].unwrap() }
    }

    /// The pool after a checkout: without the head of the free list, or unchanged if no
    /// entry is free.
    pub open spec fn after_checkout(self) -> PoolView<T> {
        if self.depleted() {
            self
        } else {
            PoolView {
                free: self.free.drop_first(),
                slots: self.slots.update(self.free[0] as int, None),
                ..self
            }
        }
    }

    /// The pool takes the handle back: it names an entry of this pool that is checked out,
    /// and brings the pool's number of extra bytes.
    pub open spec fn accepts(self, c: CheckoutView<T>) -> bool {
        &&& c.index < self.count
        &&& self.slots[c.index as int] is None
        &&& c.entry.extra.len() == self.extra
    }

    /// The pool after a checkin of `c`: with the entry at the head of the free list, or
    /// unchanged if the pool does not take the handle.
    pub open spec fn after_checkin(self, c: CheckoutView<T>) -> PoolView<T> {
        if self.accepts(c) {
            PoolView {
                free: seq![c.index] + self.free,
                slots: self.slots.update(c.index as int, Some(c.entry)),
                ..self
            }
        } else {
            self
        }
    }
}

/// `c` is a handle that a checkout from `pool` may give: it names the entry at the head of the
/// free list and brings its extra bytes, and its payload is that of the entry after the
/// checkout hook has run on it.
pub open spec fn hands_out<T: Reset>(pool: PoolView<T>, c: CheckoutView<T>) -> bool {
    &&& !pool.depleted()
    &&& c.index == pool.first().index
    &&& c.entry.extra == pool.first().entry.extra
    &&& T::checkout_resets(pool.first().entry.data, c.entry.data)
}

/// `e` is what the entry of the handle `c` may hold once it is checked in: the extra bytes as
/// the handle brought them, and the payload after the checkin hook has run on it.
pub open spec fn takes_back<T: Reset>(c: CheckoutView<T>, e: EntryView<T>) -> bool {
    &&& e.extra == c.entry.extra
    &&& T::checkin_resets(c.entry.data, e.data)
}

/// The pool after `k` checkouts in a row.
pub open spec fn after_checkouts<T>(pool: PoolView<T>, k: nat) -> PoolView<T>
    decreases k,
{
    if k == 0 {
        pool
    } else {
        after_checkouts(pool.after_checkout(), (k - 1) as nat)
    }
}

/// The entries that are in the pool.
spec fn present<T>(pool: PoolView<T>) -> Set<int> {
    Set::new(|j: int| 0 <= j < pool.count && pool.slots[j] is Some)
}

/// Every entry is either free or checked out, so the number of entries that are checked out at
/// any one time is the number of entries less the length of the free list, and never more
/// than the number of entries.
pub proof fn lemma_outstanding<T>(pool: PoolView<T>)
    requires
        pool.wf(),
    ensures
        pool.outstanding().finite(),
        pool.outstanding().len() + pool.free.len() == pool.count,
        pool.outstanding().len() <= pool.count,
        pool.depleted() <==> pool.outstanding().len() == pool.count,
{
    let all = vstd::set_lib::set_int_range(0, pool.count as int);
    let out = pool.outstanding();
    let free = present(pool);
    let ints = pool.free.map_values(|x: usize| x as int);
    vstd::set_lib::lemma_int_range(0, pool.count as int);
    assert(out.subset_of(all));
    assert(free.subset_of(all));
    vstd::set_lib::lemma_len_subset(out, all);
    vstd::set_lib::lemma_len_subset(free, all);
    assert(out.disjoint(free));
    assert(out + free =~= all);
    vstd::set_lib::lemma_set_disjoint_lens(out, free);
    assert(ints.no_duplicates());
    ints.unique_seq_to_set();
    assert(ints.to_set() =~= free) by {
        assert forall|x: int| ints.to_set().contains(x) implies free.contains(x) by {
            let i = choose|i: int| 0 <= i < ints.len() && ints[i] == x;
            assert(ints[i] == pool.free[i] as int);
            assert(pool.free.contains(pool.free[i]));
        }
        assert forall|x: int| free.contains(x) implies ints.to_set().contains(x) by {
            assert(pool.slots[x] is Some);
            let i = choose|i: int| 0 <= i < pool.free.len() && pool.free[i] == x as usize;
            assert(ints[i] == x);
        }
    }
}

/// A checkout from a pool with a free entry leaves a well-formed pool with one more entry
/// checked out, and the pool takes the handle back: checking it in again, as it is, gives the
/// pool that was there before.
pub proof fn lemma_checkout<T>(pool: PoolView<T>)
    requires
        pool.wf(),
        !pool.depleted(),
    ensures
        pool.after_checkout().wf(),
        pool.first().index < pool.count,
        pool.slots[pool.first().index as int] is Some,
        pool.first().entry.extra.len() == pool.extra,
        pool.after_checkout().outstanding() == pool.outstanding().insert(pool.first().index as int),
        pool.after_checkout().accepts(pool.first()),
        pool.after_checkout().after_checkin(pool.first()) == pool,
{
    let head = pool.free[0];
    let after = pool.after_checkout();
    assert(pool.free.contains(head));
    assert(pool.slots[head as int] is Some);
    assert forall|j: int| 0 <= j < after.count implies ((#[trigger] after.slots[j]) is Some
        <==> after.free.contains(j as usize)) by {
        if j != head {
            assert(after.slots[j] == pool.slots[j]);
            if pool.slots[j] is Some {
                let i = choose|i: int| 0 <= i < pool.free.len() && pool.free[i] == j as usize;
                assert(after.free[i - 1] == j as usize);
            }
            if after.free.contains(j as usize) {
                let i = choose|i: int| 0 <= i < after.free.len() && after.free[i] == j as usize;
                assert(pool.free[i + 1] == j as usize);
            }
        } else {
            if after.free.contains(head) {
                let i = choose|i: int| 0 <= i < after.free.len() && after.free[i] == head;
                assert(pool.free[i + 1] == pool.free[0]);
            }
        }
    }
    assert forall|j: int| 0 <= j < after.count implies ((#[trigger] after.slots[j]) matches Some(e)
        ==> e.extra.len() == after.extra) by {
        if j != head {
            assert(after.slots[j] == pool.slots[j]);
        }
    }
    assert forall|i: int| 0 <= i < after.free.len() implies (#[trigger] after.free[i])
        < after.count by {
        assert(after.free[i] == pool.free[i + 1]);
    }
    assert(after.outstanding() =~= pool.outstanding().insert(head as int));
    let back = after.after_checkin(pool.first());
    assert(back.free =~= pool.free);
    assert(back.slots =~= pool.slots);
}

/// A checkin that the pool takes leaves a well-formed pool with one entry less checked out.
/// The entry is the first to be handed out again: the next checkout gives a handle to the same
/// entry with the same contents, and leaves the pool that was there before the checkin.
pub proof fn lemma_checkin<T>(pool: PoolView<T>, c: CheckoutView<T>)
    requires
        pool.wf(),
        pool.accepts(c),
    ensures
        pool.after_checkin(c).wf(),
        pool.after_checkin(c).outstanding() == pool.outstanding().remove(c.index as int),
        !pool.after_checkin(c).depleted(),
        pool.after_checkin(c).first() == c,
        pool.after_checkin(c).after_checkout() == pool,
{
    let after = pool.after_checkin(c);
    assert(!pool.free.contains(c.index));
    assert(after.free[0] == c.index);
    assert(after.free.no_duplicates()) by {
        assert forall|i: int, j: int|
            0 <= i < after.free.len() && 0 <= j < after.free.len() && i != j implies after.free[i]
            != after.free[j] by {
            if i > 0 {
                assert(after.free[i] == pool.free[i - 1]);
            }
            if j > 0 {
                assert(after.free[j] == pool.free[j - 1]);
            }
        }
    }
    assert forall|i: int| 0 <= i < after.free.len() implies (#[trigger] after.free[i])
        < after.count by {
        if i > 0 {
            assert(after.free[i] == pool.free[i - 1]);
        }
    }
    assert forall|j: int| 0 <= j < after.count implies ((#[trigger] after.slots[j]) is Some
        <==> after.free.contains(j as usize)) by {
        if j != c.index {
            assert(after.slots[j] == pool.slots[j]);
            if pool.slots[j] is Some {
                let i = choose|i: int| 0 <= i < pool.free.len() && pool.free[i] == j as usize;
                assert(after.free[i + 1] == j as usize);
            }
            if after.free.contains(j as usize) {
                let i = choose|i: int| 0 <= i < after.free.len() && after.free[i] == j as usize;
                assert(pool.free[i - 1] == j as usize);
            }
        }
    }
    assert forall|j: int| 0 <= j < after.count implies ((#[trigger] after.slots[j]) matches Some(e)
        ==> e.extra.len() == after.extra) by {
        if j != c.index {
            assert(after.slots[j] == pool.slots[j]);
        }
    }
    assert(after.outstanding() =~= pool.outstanding().remove(c.index as int));
    let back = after.after_checkout();
    assert(back.free =~= pool.free);
    assert(back.slots =~= pool.slots);
}

/// A pool hands out its free entries in the order of the free list, one per checkout, until
/// none is left: after `k` checkouts the free list has lost its first `k` entries, and the
/// pool is depleted when all of them are gone and not before.
pub proof fn lemma_depletion<T>(pool: PoolView<T>, k: nat)
    requires
        pool.wf(),
        k <= pool.free.len(),
    ensures
        after_checkouts(pool, k).wf(),
        after_checkouts(pool, k).free == pool.free.skip(k as int),
        after_checkouts(pool, k).depleted() <==> k == pool.free.len(),
        after_checkouts(pool, k).depleted() ==> after_checkouts(pool, k).after_checkout()
            == after_checkouts(pool, k),
    decreases k,
{
    if k == 0 {
        assert(pool.free.skip(0) =~= pool.free);
    } else {
        lemma_checkout(pool);
        lemma_depletion(pool.after_checkout(), (k - 1) as nat);
        assert(pool.free.drop_first().skip(k - 1) =~= pool.free.skip(k as int));
    }
}

/// A round trip through the pool. When a handle is checked in and the next checkout follows
/// at once, the checkout gives the same entry with the same extra bytes. Its payload is what
/// the checkin hook and then the checkout hook make of the payload that was handed in, and
/// the pool is left as it was before the checkin.
pub proof fn lemma_round_trip<T: Reset>(
    pool: PoolView<T>,
    c: CheckoutView<T>,
    e: EntryView<T>,
    again: CheckoutView<T>,
)
    requires
        pool.wf(),
        pool.accepts(c),
        takes_back(c, e),
        hands_out(pool.after_checkin(CheckoutView { index: c.index, entry: e }), again),
    ensures
        again.index == c.index,
        again.entry.extra == c.entry.extra,
        T::checkin_resets(c.entry.data, e.data),
        T::checkout_resets(e.data, again.entry.data),
        pool.after_checkin(CheckoutView { index: c.index, entry: e }).after_checkout() == pool,
{
    lemma_checkin(pool, CheckoutView { index: c.index, entry: e });
}

/// A round trip of a payload that is never reset: the next checkout finds the payload
/// exactly as it was handed in.
pub proof fn lemma_round_trip_dirty<T>(
    pool: PoolView<Dirty<T>>,
    c: CheckoutView<Dirty<T>>,
    e: EntryView<Dirty<T>>,
    again: CheckoutView<Dirty<T>>,
)
    requires
        pool.wf(),
        pool.accepts(c),
        takes_back(c, e),
        hands_out(pool.after_checkin(CheckoutView { index: c.index, entry: e }), again),
    ensures
        again == c,
{
    lemma_round_trip(pool, c, e, again);
}

/// A round trip of a payload with the default policy: whatever was handed in, the next
/// checkout finds a clone of the default value.
pub proof fn lemma_round_trip_default<T: Default + Clone>(
    pool: PoolView<T>,
    c: CheckoutView<T>,
    e: EntryView<T>,
    again: CheckoutView<T>,
)
    requires
        pool.wf(),
        pool.accepts(c),
        takes_back(c, e),
        hands_out(pool.after_checkin(CheckoutView { index: c.index, entry: e }), again),
    ensures
        again.index == c.index,
        e.data == c.entry.data,
        is_fresh(again.entry.data),
{
    lemma_round_trip(pool, c, e, again);
}

/// A round trip of a payload that is reset on checkin: the payload is a clone of the default
/// value from the moment it is back in the pool, and the next checkout finds it so.
pub proof fn lemma_round_trip_reset_on_checkin<T: Default + Clone>(
    pool: PoolView<ResetOnCheckin<T>>,
    c: CheckoutView<ResetOnCheckin<T>>,
    e: EntryView<ResetOnCheckin<T>>,
    again: CheckoutView<ResetOnCheckin<T>>,
)
    requires
        pool.wf(),
        pool.accepts(c),
        takes_back(c, e),
        hands_out(pool.after_checkin(CheckoutView { index: c.index, entry: e }), again),
    ensures
        again.index == c.index,
        is_fresh(e.data.0),
        pool.after_checkin(CheckoutView { index: c.index, entry: e }).slots[c.index as int]
            == Some(e),
        again.entry.data == e.data,
{
    lemma_round_trip(pool, c, e, again);
}

} // verus!
