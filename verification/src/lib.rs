//! A fixed-capacity store of pre-initialized values.
//!
//! A [`Pool`] is made with all its entries, each holding a payload and a number of extra
//! bytes. A checkout takes the entry at the head of the free list out of the pool and hands it
//! to the caller in a [`Checkout`], which gives access to the payload and to the extra bytes.
//! A checkin puts the entry back at the head of the free list, so the pool hands out last what
//! it got back first. What a reused payload looks like is up to its type: see [`Reset`].
//!
//! A handle owns its entry. It cannot be copied and a checkin consumes it, so no entry can be
//! checked in twice and no two handles give access to one entry. A handle that is dropped
//! without a checkin takes its entry with it; the pool then has one entry less to hand out.
//!
//! The modules:
//! - [`layout`]: the size arithmetic of the arena;
//! - [`free_list`]: the free list as a chain of indices, and what pushing and popping do to it;
//! - [`reset`]: the hooks that run on a payload when it leaves the pool and when it comes back;
//! - [`view`]: what a pool and a handle are as mathematics, and the laws of checkout and checkin;
//! - [`interleaving`]: the steps of checkins and checkouts that run side by side on a shared
//!   head, and a proof that the free list stays intact however they are interleaved.

use vstd::prelude::*;

pub mod free_list;
pub mod interleaving;
pub mod layout;
pub mod reset;
pub mod view;

use crate::free_list::{
    ascending, is_list, lemma_ascending, lemma_link_off_list, lemma_list_bounded, lemma_pop,
    lemma_push, lemma_walk_is_list, walk,
};
use crate::interleaving::{stands_for, CheckoutProgress, State};
use crate::layout::{layout_of, Layout, LayoutError};
pub use crate::reset::{Dirty, Reset, ResetOnCheckin};
pub use crate::view::{hands_out, takes_back, zeros, CheckoutView, EntryView, PoolView};

verus! {

/// One entry of the arena: the payload, the link to the next free entry, and the extra bytes.
pub struct Entry<T> {
    /// The payload.
    data: T,
    /// Index of the next free entry, or the number of entries if this is the last free one.
    /// It means something only while the entry is on the free list.
    next: usize,
    /// The extra bytes.
    extra: Vec<u8>,
}

impl<T> View for Entry<T> {
    type V = EntryView<T>;

    closed spec fn view(&self) -> EntryView<T> {
        EntryView { data: self.data, extra: self.extra@ }
    }
}

impl<T> Entry<T> {
    /// Read access to the extra bytes.
    fn extra(&self) -> (r: &[u8])
        ensures
            r@ == self@.extra,
    {
        self.extra.as_slice()
    }

    /// Write access to the extra bytes.
    fn extra_mut(&mut self) -> (r: &mut [u8])
        ensures
            r@ == old(self)@.extra,
            final(self)@ == (EntryView { data: old(self)@.data, extra: final(r)@ }),
            final(self).next == old(self).next,
    {
        self.extra.as_mut_slice()
    }
}

/// A handle to a checked out entry. It owns the entry until it is checked back in, so no two
/// handles give access to the same entry, and no entry is checked in twice.
pub struct Checkout<T> {
    /// Index of the entry in the arena.
    idx: usize,
    /// The entry.
    entry: Entry<T>,
}

impl<T> View for Checkout<T> {
    type V = CheckoutView<T>;

    closed spec fn view(&self) -> CheckoutView<T> {
        CheckoutView { index: self.idx, entry: self.entry@ }
    }
}

/// The arena and its free list.
pub struct PoolInner<T> {
    /// The entries; an entry is absent while it is checked out.
    slots: Vec<Option<Entry<T>>>,
    /// Index of the first free entry, or the number of entries if none is free.
    head: usize,
    /// Number and size of the entries.
    layout: Layout,
}

/// The link of every entry; for an absent entry, the sentinel.
spec fn links<T>(slots: Seq<Option<Entry<T>>>) -> Seq<usize> {
    Seq::new(slots.len(), |j: int| link(slots[j], slots.len() as usize))
}

/// The link of one entry, or `end` if the entry is absent.
spec fn link<T>(slot: Option<Entry<T>>, end: usize) -> usize {
    match slot {
        Some(e) => e.next,
        None => end,
    }
}

/// What one slot of the arena shows to the outside.
spec fn slot_view<T>(slot: Option<Entry<T>>) -> Option<EntryView<T>> {
    match slot {
        Some(e) => Some(e@),
        None => None,
    }
}

/// What the slots of the arena show to the outside.
spec fn slot_views<T>(slots: Seq<Option<Entry<T>>>) -> Seq<Option<EntryView<T>>> {
    Seq::new(slots.len(), |j: int| slot_view(slots[j]))
}

/// The entries met on a walk along the links from `head`, with a step for every slot at most.
spec fn free_list<T>(slots: Seq<Option<Entry<T>>>, head: usize) -> Seq<usize> {
    walk(links(slots), head, slots.len())
}

/// The head and the links spell out the free list `free`, which holds exactly the entries that
/// are present, and every entry that is present has `extra` extra bytes.
spec fn arena_wf<T>(
    slots: Seq<Option<Entry<T>>>,
    head: usize,
    free: Seq<usize>,
    extra: nat,
) -> bool {
    &&& is_list(links(slots), head, free)
    &&& forall|j: int|
        0 <= j < slots.len() ==> ((#[trigger] slots[j]) is Some <==> free.contains(j as usize))
    &&& forall|j: int|
        0 <= j < slots.len() ==> ((#[trigger] slots[j]) matches Some(e) ==> e.extra.len() == extra)
}

/// Taking the head entry out of the arena and moving the head to its link takes the entry off
/// the free list and changes nothing else.
proof fn lemma_take_head<T>(slots: Seq<Option<Entry<T>>>, head: usize, free: Seq<usize>, extra: nat)
    requires
        arena_wf(slots, head, free, extra),
        head != slots.len(),
    ensures
        free.len() > 0,
        head == free[0],
        head < slots.len(),
        slots[head as int] is Some,
        arena_wf(
            slots.update(head as int, None),
            slots[head as int].unwrap().next,
            free.drop_first(),
            extra,
        ),
        slot_views(slots.update(head as int, None)) == slot_views(slots).update(head as int, None),
        free_list(slots.update(head as int, None), slots[head as int].unwrap().next)
            == free.drop_first(),
{
    let next = links(slots);
    let slots2 = slots.update(head as int, None);
    let free2 = free.drop_first();
    if free.len() == 0 {
        assert(head == slots.len());
    }
    lemma_pop(next, head, free);
    assert(free.contains(free[0]));
    assert(slots[head as int] is Some);
    assert(next[head as int] == slots[head as int].unwrap().next);
    lemma_link_off_list(next, next[head as int], free2, head, slots.len() as usize);
    assert(links(slots2) =~= next.update(head as int, slots.len() as usize));
    assert forall|j: int| 0 <= j < slots2.len() implies ((#[trigger] slots2[j]) is Some
        <==> free2.contains(j as usize)) by {
        if j == head {
        } else {
            assert(slots2[j] == slots[j]);
            if slots[j] is Some {
                let i = choose|i: int| 0 <= i < free.len() && free[i] == j as usize;
                assert(i > 0);
                assert(free2[i - 1] == j as usize);
            }
            if free2.contains(j as usize) {
                let i = choose|i: int| 0 <= i < free2.len() && free2[i] == j as usize;
                assert(free[i + 1] == j as usize);
            }
        }
    }
    assert forall|j: int| 0 <= j < slots2.len() implies ((#[trigger] slots2[j]) matches Some(e)
        ==> e.extra.len() == extra) by {
        if j != head {
            assert(slots2[j] == slots[j]);
        }
    }
    assert(slot_views(slots2) =~= slot_views(slots).update(head as int, None));
    lemma_walk_is_list(links(slots2), next[head as int], free2);
}

/// Putting an entry that links to the head into its empty slot and moving the head to it
/// puts the entry in front of the free list and changes nothing else.
proof fn lemma_put_head<T>(
    slots: Seq<Option<Entry<T>>>,
    head: usize,
    free: Seq<usize>,
    extra: nat,
    idx: usize,
    entry: Entry<T>,
)
    requires
        arena_wf(slots, head, free, extra),
        idx < slots.len(),
        slots[idx as int] is None,
        entry.next == head,
        entry.extra.len() == extra,
    ensures
        arena_wf(slots.update(idx as int, Some(entry)), idx, seq![idx] + free, extra),
        slot_views(slots.update(idx as int, Some(entry))) == slot_views(slots).update(
            idx as int,
            Some(entry@),
        ),
        free_list(slots.update(idx as int, Some(entry)), idx) == seq![idx] + free,
{
    let next = links(slots);
    let slots2 = slots.update(idx as int, Some(entry));
    let free2 = seq![idx] + free;
    assert(!free.contains(idx));
    lemma_push(next, head, free, idx);
    assert(links(slots2) =~= next.update(idx as int, head));
    assert forall|j: int| 0 <= j < slots2.len() implies ((#[trigger] slots2[j]) is Some
        <==> free2.contains(j as usize)) by {
        if j == idx {
            assert(free2[0] == idx);
        } else {
            assert(slots2[j] == slots[j]);
            if slots[j] is Some {
                let i = choose|i: int| 0 <= i < free.len() && free[i] == j as usize;
                assert(free2[i + 1] == j as usize);
            }
            if free2.contains(j as usize) {
                let i = choose|i: int| 0 <= i < free2.len() && free2[i] == j as usize;
                assert(i > 0);
                assert(free[i - 1] == j as usize);
            }
        }
    }
    assert forall|j: int| 0 <= j < slots2.len() implies ((#[trigger] slots2[j]) matches Some(e)
        ==> e.extra.len() == extra) by {
        if j != idx {
            assert(slots2[j] == slots[j]);
        }
    }
    assert(slot_views(slots2) =~= slot_views(slots).update(idx as int, Some(entry@)));
    lemma_walk_is_list(links(slots2), idx, free2);
}

/// The entries among the first `n` that are checked out, in ascending order.
spec fn vacant<T>(slots: Seq<Option<Entry<T>>>, n: nat) -> Seq<usize>
    decreases n,
{
    if n == 0 {
        Seq::empty()
    } else if slots[n - 1] is None {
        vacant(slots, (n - 1) as nat).push((n - 1) as usize)
    } else {
        vacant(slots, (n - 1) as nat)
    }
}

/// The sequence of the entries that are checked out lists each of them once, and no other.
proof fn lemma_vacant<T>(slots: Seq<Option<Entry<T>>>, n: nat)
    requires
        n <= slots.len() <= usize::MAX,
    ensures
        vacant(slots, n).no_duplicates(),
        forall|x: usize| #[trigger]
            vacant(slots, n).contains(x) <==> x < n && slots[x as int] is None,
    decreases n,
{
    if n > 0 {
        let before = vacant(slots, (n - 1) as nat);
        let last = (n - 1) as usize;
        lemma_vacant(slots, (n - 1) as nat);
        if slots[n - 1] is None {
            let v = before.push(last);
            assert forall|i: int, j: int|
                0 <= i < v.len() && 0 <= j < v.len() && i != j implies v[i] != v[j] by {
                if i < before.len() {
                    assert(before.contains(v[i]));
                }
                if j < before.len() {
                    assert(before.contains(v[j]));
                }
            }
            assert forall|x: usize| #[trigger]
                v.contains(x) <==> x < n && slots[x as int] is None by {
                if v.contains(x) {
                    let i = choose|i: int| 0 <= i < v.len() && v[i] == x;
                    if i < before.len() {
                        assert(before.contains(x));
                    }
                }
                if x < n && slots[x as int] is None {
                    if x == last {
                        assert(v[before.len() as int] == x);
                    } else {
                        assert(before.contains(x));
                        let i = choose|i: int| 0 <= i < before.len() && before[i] == x;
                        assert(v[i] == x);
                    }
                }
            }
        }
    }
}

/// A buffer of `n` zero bytes.
fn zeroed(n: usize) -> (v: Vec<u8>)
    ensures
        v@ == zeros(n as nat),
{
    let v = vec![0u8; n];
    assert(v@ =~= zeros(n as nat));
    v
}

impl<T> PoolInner<T> {
    /// The head and the links spell out a free list that holds exactly the entries in the
    /// pool, and every entry in the pool has the layout's number of extra bytes.
    pub closed spec fn wf(&self) -> bool {
        &&& self.layout.wf()
        &&& self.slots.len() == self.layout.count
        &&& arena_wf(
            self.slots@,
            self.head,
            free_list(self.slots@, self.head),
            self.layout.extra as nat,
        )
    }

    /// What the pool shows to the outside. The free list is what a walk along the links from
    /// the head meets.
    pub closed spec fn view(&self) -> PoolView<T> {
        PoolView {
            count: self.layout.count as nat,
            extra: self.layout.extra as nat,
            free: free_list(self.slots@, self.head),
            slots: slot_views(self.slots@),
        }
    }

    /// The shape of a pool of `count` entries of this payload type with `extra` extra bytes
    /// each, or the reason for which there is no such pool.
    pub open spec fn spec_layout(count: usize, extra: usize) -> Result<Layout, LayoutError> {
        layout_of(
            count,
            extra,
            vstd::layout::size_of::<Entry<T>>() as usize,
            vstd::layout::align_of::<Entry<T>>() as usize,
        )
    }

    /// Works out the shape of a pool of `count` entries with `extra` extra bytes each.
    pub fn layout(count: usize, extra: usize) -> (r: Result<Layout, LayoutError>)
        ensures
            r == Self::spec_layout(count, extra),
            r matches Ok(l) ==> l.wf() && l.count == count && extra <= l.extra,
    {
        vstd::layout::layout_for_type_is_valid::<Entry<T>>();
        Layout::new(
            count,
            extra,
            core::mem::size_of::<Entry<T>>(),
            core::mem::align_of::<Entry<T>>(),
        )
    }

    /// Builds the arena of the given shape. Every entry gets a payload from `init` and zeroed
    /// extra bytes, and links to the entry after it; the free list holds all entries in
    /// ascending order.
    fn build<F: Fn() -> T>(layout: Layout, init: F) -> (pool: PoolInner<T>)
        requires
            layout.wf(),
            init.requires(()),
        ensures
            pool.wf(),
            pool@.count == layout.count,
            pool@.extra == layout.extra,
            pool@.free == ascending(layout.count as nat),
            pool@.slots.len() == layout.count,
            forall|j: int|
                0 <= j < layout.count ==> ((#[trigger] pool@.slots[j]) matches Some(e)
                    && init.ensures((), e.data) && e.extra == zeros(layout.extra as nat)),
    {
        let count = layout.count;
        let mut slots: Vec<Option<Entry<T>>> = Vec::with_capacity(count);
        let mut i: usize = 0;
        while i < count
            invariant
                i <= count,
                count < usize::MAX,
                slots.len() == i,
                init.requires(()),
                forall|j: int|
                    0 <= j < i ==> ((#[trigger] slots[j]) matches Some(e) && e.next == j + 1
                        && init.ensures((), e.data) && e.extra@ == zeros(layout.extra as nat)),
            decreases count - i,
        {
            let entry = Entry { data: init(), next: i + 1, extra: zeroed(layout.extra) };
            slots.push(Some(entry));
            i += 1;
        }
        let head: usize = if count == 0 {
            count
        } else {
            0
        };
        let pool = PoolInner { slots, head, layout };
        proof {
            let next = links(pool.slots@);
            assert forall|j: int| 0 <= j < next.len() implies next[j] == j + 1 by {
                assert(pool.slots@[j] is Some);
            }
            lemma_ascending(next);
            let free = ascending(count as nat);
            lemma_walk_is_list(next, head, free);
            assert forall|j: int| 0 <= j < pool.slots@.len() implies ((
            #[trigger] pool.slots@[j]) is Some <==> free.contains(j as usize)) by {
                assert(free[j] == j as usize);
            }
            assert forall|j: int| 0 <= j < count implies ((
            #[trigger] pool@.slots[j]) matches Some(e) && init.ensures((), e.data) && e.extra
                == zeros(layout.extra as nat)) by {
                assert(pool.slots@[j] is Some);
            }
        }
        pool
    }

    /// Creates a pool of `count` entries with at least `extra` extra bytes each, rounded up
    /// to the alignment of an entry. The payload of every entry comes from a call of `init`;
    /// the extra bytes are zero. All entries are free, and will be handed out in ascending
    /// order.
    pub fn with_capacity<F: Fn() -> T>(count: usize, extra: usize, init: F) -> (pool: PoolInner<T>)
        requires
            Self::spec_layout(count, extra) is Ok,
            init.requires(()),
        ensures
            pool.wf(),
            pool@.wf(),
            pool@.count == count,
            pool@.extra == Self::spec_layout(count, extra).unwrap().extra,
            pool@.extra >= extra,
            pool@.free == ascending(count as nat),
            forall|j: int|
                0 <= j < count ==> ((#[trigger] pool@.slots[j]) matches Some(e) && init.ensures(
                    (),
                    e.data,
                ) && e.extra == zeros(pool@.extra)),
    {
        Self::try_with_capacity(count, extra, init).unwrap()
    }

    /// Creates a pool as [`PoolInner::with_capacity`] does, or says why there is no pool of
    /// the requested shape.
    pub fn try_with_capacity<F: Fn() -> T>(count: usize, extra: usize, init: F) -> (r: Result<
        PoolInner<T>,
        LayoutError,
    >)
        requires
            init.requires(()),
        ensures
            match r {
                Ok(pool) => {
                    &&& Self::spec_layout(count, extra) matches Ok(layout)
                    &&& pool.wf()
                    &&& pool@.wf()
                    &&& pool@.count == count
                    &&& pool@.extra == layout.extra
                    &&& pool@.extra >= extra
                    &&& pool@.free == ascending(count as nat)
                    &&& forall|j: int|
                        0 <= j < count ==> ((#[trigger] pool@.slots[j]) matches Some(e)
                            && init.ensures((), e.data) && e.extra == zeros(pool@.extra))
                },
                Err(e) => Self::spec_layout(count, extra) == Err::<Layout, LayoutError>(e),
            },
    {
        match Self::layout(count, extra) {
            Ok(layout) => {
                let pool = Self::build(layout, init);
                proof {
                    pool.lemma_view_wf();
                }
                Ok(pool)
            },
            Err(e) => Err(e),
        }
    }

    /// What a well-formed pool shows to the outside is well-formed.
    pub proof fn lemma_view_wf(&self)
        requires
            self.wf(),
        ensures
            self@.wf(),
            self@.free.len() <= self@.count,
    {
        let v = self@;
        lemma_list_bounded(links(self.slots@), self.head, self@.free);
        assert forall|j: int| 0 <= j < v.count implies ((#[trigger] v.slots[j]) is Some
            <==> v.free.contains(j as usize)) by {
            assert(self.slots@[j] is Some <==> v.slots[j] is Some);
        }
        assert forall|j: int| 0 <= j < v.count implies ((#[trigger] v.slots[j]) matches Some(e)
            ==> e.extra.len() == v.extra) by {
            assert(self.slots@[j] is Some <==> v.slots[j] is Some);
        }
    }

    /// The pool at rest as a state of the machine of [`crate::interleaving`]: the head and the
    /// links as they are, every entry that is checked out held through a handle, and no
    /// checkin or checkout under way.
    pub closed spec fn at_rest(&self) -> State {
        State {
            head: self.head,
            next: links(self.slots@),
            held: vacant(self.slots@, self.slots@.len()),
            checkins: Seq::empty(),
            checkout: CheckoutProgress::Idle,
        }
    }

    /// A well-formed pool at rest is a state of the machine that is in order, and one that
    /// stands for what the pool shows. So what is proved of the machine holds of the pool.
    pub proof fn lemma_at_rest(&self)
        requires
            self.wf(),
        ensures
            self.at_rest().inv(),
            self.at_rest().quiet(),
            stands_for(self.at_rest(), self@),
    {
        let s = self.at_rest();
        lemma_vacant(self.slots@, self.slots@.len());
        assert(s.returning() =~= Seq::<usize>::empty());
        assert(s.free() == self@.free);
        assert forall|x: usize| x < self@.count implies #[trigger] s.members().contains(x) by {
            if self.slots@[x as int] is None {
                assert(s.held.contains(x));
            } else {
                assert(self@.free.contains(x));
            }
        }
    }

    /// The number of entries of the pool.
    pub fn count(&self) -> (n: usize)
        ensures
            n == self@.count,
    {
        self.layout.count
    }

    /// The entry at `idx`, if there is such an entry and it is in the pool.
    fn entry(&self, idx: usize) -> (r: Option<&Entry<T>>)
        requires
            self.slots.len() == self.layout.count,
        ensures
            r == (if idx < self.slots.len() {
                match self.slots[idx as int] {
                    Some(e) => Some(&e),
                    None => None,
                }
            } else {
                None
            }),
    {
        if idx < self.layout.count {
            self.slots[idx].as_ref()
        } else {
            None
        }
    }

    /// Takes the entry at the head of the free list out of the pool. Returns `None` if no
    /// entry is free. The payload is handed out as it was left.
    pub fn checkout(&mut self) -> (r: Option<Checkout<T>>)
        requires
            old(self).wf(),
        ensures
            final(self).wf(),
            final(self)@ == old(self)@.after_checkout(),
            old(self)@.depleted() ==> r is None,
            !old(self)@.depleted() ==> (r matches Some(c) && c@ == old(self)@.first()),
    {
        let idx = self.head;
        if idx == self.layout.count {
            proof {
                if self@.free.len() > 0 {
                    assert(self@.free[0] < links(self.slots@).len());
                }
            }
            return None;
        }
        proof {
            lemma_take_head(self.slots@, self.head, self@.free, self.layout.extra as nat);
        }
        let nxt = self.entry(idx).unwrap().next;
        let entry = self.slots[idx].take().unwrap();
        self.head = nxt;
        Some(Checkout { idx, entry })
    }

    /// Whether the pool takes `checkout` back: it names a checked out entry of this pool and
    /// brings the pool's number of extra bytes.
    pub fn accepts(&self, checkout: &Checkout<T>) -> (b: bool)
        requires
            self.wf(),
        ensures
            b == self@.accepts(checkout@),
    {
        let idx = checkout.idx;
        idx < self.layout.count && self.slots[idx].is_none() && checkout.entry.extra.len()
            == self.layout.extra
    }

    /// Puts the entry of `checkout` back at the head of the free list, with its payload and
    /// extra bytes as they are. A handle that does not name a checked out entry of this pool,
    /// or brings another number of extra bytes, is handed back and the pool stays as it is.
    pub fn checkin(&mut self, checkout: Checkout<T>) -> (r: Result<(), Checkout<T>>)
        requires
            old(self).wf(),
        ensures
            final(self).wf(),
            final(self)@ == old(self)@.after_checkin(checkout@),
            match r {
                Ok(_) => old(self)@.accepts(checkout@),
                Err(back) => !old(self)@.accepts(checkout@) && back == checkout,
            },
    {
        if !self.accepts(&checkout) {
            return Err(checkout);
        }
        let idx = checkout.idx;
        let mut entry = checkout.entry;
        entry.next = self.head;
        proof {
            lemma_put_head(
                self.slots@,
                self.head,
                self@.free,
                self.layout.extra as nat,
                idx,
                entry,
            );
            assert(entry@ == checkout@.entry);
        }
        self.slots[idx] = Some(entry);
        self.head = idx;
        Ok(())
    }
}

impl<T> Checkout<T> {
    /// The index in the arena of the entry that this handle holds.
    pub fn index(&self) -> (i: usize)
        ensures
            i == self@.index,
    {
        self.idx
    }

    /// Read access to the extra bytes.
    pub fn extra(&self) -> (r: &[u8])
        ensures
            r@ == self@.entry.extra,
    {
        self.entry().extra()
    }

    /// Write access to the extra bytes.
    pub fn extra_mut(&mut self) -> (r: &mut [u8])
        ensures
            r@ == old(self)@.entry.extra,
            final(self)@ == (CheckoutView {
                index: old(self)@.index,
                entry: EntryView { data: old(self)@.entry.data, extra: final(r)@ },
            }),
    {
        self.entry_mut().extra_mut()
    }

    /// The entry that this handle holds.
    fn entry(&self) -> (r: &Entry<T>)
        ensures
            *r == self.entry,
    {
        &self.entry
    }

    /// The entry that this handle holds, for writing.
    fn entry_mut(&mut self) -> (r: &mut Entry<T>)
        ensures
            *r == old(self).entry,
            *final(self) == (Checkout { idx: old(self).idx, entry: *final(r) }),
    {
        &mut self.entry
    }
}

impl<T> core::ops::Deref for Checkout<T> {
    type Target = T;

    /// Read access to the payload.
    fn deref(&self) -> (r: &T)
        ensures
            *r == self@.entry.data,
    {
        &self.entry().data
    }
}

impl<T> core::ops::DerefMut for Checkout<T> {
    /// Write access to the payload.
    fn deref_mut(&mut self) -> (r: &mut T)
        ensures
            *r == old(self)@.entry.data,
            final(self)@ == (CheckoutView {
                index: old(self)@.index,
                entry: EntryView { data: *final(r), extra: old(self)@.entry.extra },
            }),
    {
        &mut self.entry_mut().data
    }
}

/// A pool of reusable values.
pub struct Pool<T: Reset> {
    inner: PoolInner<T>,
}

impl<T: Reset> View for Pool<T> {
    type V = PoolView<T>;

    closed spec fn view(&self) -> PoolView<T> {
        self.inner@
    }
}

impl<T: Reset> Pool<T> {
    /// The free list of the pool holds exactly the entries that are in the pool. Every pool
    /// is made so and stays so.
    pub closed spec fn wf(&self) -> bool {
        self.inner.wf()
    }

    /// What a well-formed pool shows to the outside is well-formed.
    pub proof fn lemma_view_wf(&self)
        requires
            self.wf(),
        ensures
            self@.wf(),
            self@.free.len() <= self@.count,
    {
        self.inner.lemma_view_wf();
    }

    /// The pool at rest as a state of the machine of [`crate::interleaving`].
    pub closed spec fn at_rest(&self) -> State {
        self.inner.at_rest()
    }

    /// A well-formed pool at rest is a state of the machine that is in order, and one that
    /// stands for what the pool shows. So what is proved of the machine holds of the pool.
    pub proof fn lemma_at_rest(&self)
        requires
            self.wf(),
        ensures
            self.at_rest().inv(),
            self.at_rest().quiet(),
            stands_for(self.at_rest(), self@),
    {
        self.inner.lemma_at_rest();
    }

    /// Creates a pool of `count` entries with at least `extra` extra bytes each, rounded up
    /// to the alignment of an entry. The payload of every entry comes from a call of `init`;
    /// the extra bytes are zero. All entries are free, and will be handed out in ascending
    /// order.
    pub fn with_capacity<F: Fn() -> T>(count: usize, extra: usize, init: F) -> (pool: Pool<T>)
        requires
            PoolInner::<T>::spec_layout(count, extra) is Ok,
            init.requires(()),
        ensures
            pool.wf(),
            pool@.wf(),
            pool@.count == count,
            pool@.extra == PoolInner::<T>::spec_layout(count, extra).unwrap().extra,
            pool@.extra >= extra,
            pool@.free == ascending(count as nat),
            forall|j: int|
                0 <= j < count ==> ((#[trigger] pool@.slots[j]) matches Some(e) && init.ensures(
                    (),
                    e.data,
                ) && e.extra == zeros(pool@.extra)),
    {
        Pool { inner: PoolInner::with_capacity(count, extra, init) }
    }

    /// Creates a pool as [`Pool::with_capacity`] does, or says why there is no pool of the
    /// requested shape.
    pub fn try_with_capacity<F: Fn() -> T>(count: usize, extra: usize, init: F) -> (r: Result<
        Pool<T>,
        LayoutError,
    >)
        requires
            init.requires(()),
        ensures
            match r {
                Ok(pool) => {
                    &&& PoolInner::<T>::spec_layout(count, extra) matches Ok(layout)
                    &&& pool.wf()
                    &&& pool@.wf()
                    &&& pool@.count == count
                    &&& pool@.extra == layout.extra
                    &&& pool@.extra >= extra
                    &&& pool@.free == ascending(count as nat)
                    &&& forall|j: int|
                        0 <= j < count ==> ((#[trigger] pool@.slots[j]) matches Some(e)
                            && init.ensures((), e.data) && e.extra == zeros(pool@.extra))
                },
                Err(e) => PoolInner::<T>::spec_layout(count, extra) == Err::<Layout, LayoutError>(
                    e,
                ),
            },
    {
        match PoolInner::try_with_capacity(count, extra, init) {
            Ok(inner) => Ok(Pool { inner }),
            Err(e) => Err(e),
        }
    }

    /// The number of entries of the pool.
    pub fn count(&self) -> (n: usize)
        ensures
            n == self@.count,
    {
        self.inner.count()
    }

    /// Checks out the entry at the head of the free list, after the payload's checkout hook
    /// has run on it. Returns `None` if no entry is free.
    pub fn checkout(&mut self) -> (r: Option<Checkout<T>>)
        requires
            old(self).wf(),
        ensures
            final(self).wf(),
            final(self)@ == old(self)@.after_checkout(),
            old(self)@.depleted() ==> r is None,
            !old(self)@.depleted() ==> (r matches Some(c) && hands_out(old(self)@, c@)),
    {
        match self.inner.checkout() {
            Some(mut checkout) => {
                checkout.entry.data.reset_on_checkout();
                Some(checkout)
            },
            None => None,
        }
    }

    /// Whether the pool takes `checkout` back: it names a checked out entry of this pool and
    /// brings the pool's number of extra bytes.
    pub fn accepts(&self, checkout: &Checkout<T>) -> (b: bool)
        requires
            self.wf(),
        ensures
            b == self@.accepts(checkout@),
    {
        self.inner.accepts(checkout)
    }

    /// Checks the entry of `checkout` back in: the payload's checkin hook runs on it, then the
    /// entry goes to the head of the free list. A handle that the pool does not take is
    /// handed back as it is, and the pool stays as it is.
    pub fn checkin(&mut self, checkout: Checkout<T>) -> (r: Result<(), Checkout<T>>)
        requires
            old(self).wf(),
        ensures
            final(self).wf(),
            match r {
                Ok(_) => {
                    &&& old(self)@.accepts(checkout@)
                    &&& final(self)@.slots[checkout@.index as int] matches Some(e)
                    &&& takes_back(checkout@, e)
                    &&& final(self)@ == old(self)@.after_checkin(
                        CheckoutView { index: checkout@.index, entry: e },
                    )
                },
                Err(back) => {
                    &&& !old(self)@.accepts(checkout@)
                    &&& back == checkout
                    &&& final(self)@ == old(self)@
                },
            },
    {
        if !self.inner.accepts(&checkout) {
            return Err(checkout);
        }
        let mut checkout = checkout;
        checkout.entry.data.reset_on_checkin();
        self.inner.checkin(checkout)
    }
}

} // verus!
