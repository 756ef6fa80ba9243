//! The free list under interleaving.
//!
//! A checkin and a checkout each touch what the threads share, the head of the free list and
//! the links, in a few atomic steps: a checkin reads the head, links its entry to what it
//! read, and swings the head to its entry if the head is still what it read; a checkout reads
//! the head, reads the link of the entry it found there, and swings the head to that link if
//! the head is still what it read. A step that finds the head changed starts over from what
//! the head is now. Checkins may run in any number side by side; one checkout runs at a time.
//!
//! This module states those steps as a machine and proves that, however the steps of the
//! checkins and of the checkout are interleaved, the head and the links spell out a free list
//! without duplicates, no entry is lost, and no more entries are out than there are.
//!
//! The machine takes every step as atomic and the steps of all threads as happening one after
//! the other, in an order that all threads agree on. It says nothing of the order in which a
//! processor makes the writes of one thread visible to another.

use crate::free_list::{
    ascending, is_list, lemma_ascending, lemma_distinct_bounded, lemma_link_off_list,
    lemma_list_bounded, lemma_pop, lemma_push, lemma_walk_is_list, walk,
};
use crate::view::{CheckoutView, PoolView};
use vstd::prelude::*;

verus! {

/// How far a checkin has come.
pub enum CheckinProgress {
    /// It has not read the head yet.
    Start,
    /// It has read the head and found `seen` there.
    Loaded { seen: usize },
    /// It has linked its entry to `seen`.
    Linked { seen: usize },
}

/// A checkin under way: the entry that it returns and how far it has come.
pub struct Checkin {
    /// The entry that the checkin returns.
    pub idx: usize,
    /// How far the checkin has come.
    pub at: CheckinProgress,
}

/// How far the checkout has come.
pub enum CheckoutProgress {
    /// None is under way.
    Idle,
    /// It has read the head and found `seen` there.
    Loaded { seen: usize },
    /// It has read `link`, the link of the entry `seen`.
    Read { seen: usize, link: usize },
}

/// The pool and everything that is going on in it.
pub struct State {
    /// Index of the first free entry, or the sentinel: shared by all threads.
    pub head: usize,
    /// The link of every entry: shared by all threads.
    pub next: Seq<usize>,
    /// The entries that are held through a handle.
    pub held: Seq<usize>,
    /// The checkins under way.
    pub checkins: Seq<Checkin>,
    /// The checkout under way.
    pub checkout: CheckoutProgress,
}

/// One atomic step of one thread.
pub enum Event {
    /// The holder of the `k`-th handle lets go of it, which starts a checkin.
    Release { k: int },
    /// The `t`-th checkin takes its next step.
    Checkin { t: int },
    /// The checkout takes its next step; if none is under way, one starts.
    Checkout,
}

impl State {
    /// The number of entries, which is also the sentinel.
    pub open spec fn count(self) -> nat {
        self.next.len()
    }

    /// The free list, head first: the entries met on a walk along the links from the head.
    pub open spec fn free(self) -> Seq<usize> {
        walk(self.next, self.head, self.count())
    }

    /// The entries that the checkins under way return.
    pub open spec fn returning(self) -> Seq<usize> {
        self.checkins.map_values(|c: Checkin| c.idx)
    }

    /// The entries that are somewhere: on the free list, held, or on their way back.
    pub open spec fn members(self) -> Set<usize> {
        Set::new(
            |x: usize|
                self.free().contains(x) || self.held.contains(x) || self.returning().contains(x),
        )
    }

    /// The state after the holder of the `k`-th handle has let go of it.
    pub open spec fn release(self, k: int) -> State {
        if 0 <= k < self.held.len() {
            State {
                held: self.held.remove(k),
                checkins: self.checkins.push(
                    Checkin { idx: self.held[k], at: CheckinProgress::Start },
                ),
                ..self
            }
        } else {
            self
        }
    }

    /// The state after the next step of the `t`-th checkin: it reads the head; or links its
    /// entry to what it read; or swings the head to its entry and is done, if the head is
    /// what it read, and else takes what the head is now as read.
    pub open spec fn checkin_step(self, t: int) -> State {
        if 0 <= t < self.checkins.len() {
            let idx = self.checkins[t].idx;
            match self.checkins[t].at {
                CheckinProgress::Start => State {
                    checkins: self.checkins.update(
                        t,
                        Checkin { idx, at: CheckinProgress::Loaded { seen: self.head } },
                    ),
                    ..self
                },
                CheckinProgress::Loaded { seen } => State {
                    next: self.next.update(idx as int, seen),
                    checkins: self.checkins.update(
                        t,
                        Checkin { idx, at: CheckinProgress::Linked { seen } },
                    ),
                    ..self
                },
                CheckinProgress::Linked { seen } => if self.head == seen {
                    State { head: idx, checkins: self.checkins.remove(t), ..self }
                } else {
                    State {
                        checkins: self.checkins.update(
                            t,
                            Checkin { idx, at: CheckinProgress::Loaded { seen: self.head } },
                        ),
                        ..self
                    }
                },
            }
        } else {
            self
        }
    }

    /// The state after the next step of the checkout: it reads the head; or gives up if it
    /// read the sentinel, and else reads the link of the entry it found; or swings the head
    /// to that link and holds the entry, if the head is what it read, and else takes what the
    /// head is now as read.
    pub open spec fn checkout_step(self) -> State {
        match self.checkout {
            CheckoutProgress::Idle => State {
                checkout: CheckoutProgress::Loaded { seen: self.head },
                ..self
            },
            CheckoutProgress::Loaded { seen } => if seen == self.count() {
                State { checkout: CheckoutProgress::Idle, ..self }
            } else {
                State {
                    checkout: CheckoutProgress::Read { seen, link: self.next[seen as int] },
                    ..self
                }
            },
            CheckoutProgress::Read { seen, link } => if self.head == seen {
                State {
                    head: link,
                    held: self.held.push(seen),
                    checkout: CheckoutProgress::Idle,
                    ..self
                }
            } else {
                State { checkout: CheckoutProgress::Loaded { seen: self.head }, ..self }
            },
        }
    }

    /// The state after one step.
    pub open spec fn step(self, event: Event) -> State {
        match event {
            Event::Release { k } => self.release(k),
            Event::Checkin { t } => self.checkin_step(t),
            Event::Checkout => self.checkout_step(),
        }
    }

    /// The state after the steps of `events`, in their order.
    pub open spec fn run(self, events: Seq<Event>) -> State
        decreases events.len(),
    {
        if events.len() == 0 {
            self
        } else {
            self.step(events[0]).run(events.drop_first())
        }
    }

    /// If the checkin has linked its entry, the entry still has that link.
    pub open spec fn link_stands(self, checkin: Checkin) -> bool {
        checkin.at matches CheckinProgress::Linked { seen } ==> self.next[checkin.idx as int]
            == seen
    }

    /// What holds of the pool whatever the threads have done so far. The head and the links
    /// spell out the free list. Every entry is in at most one place: on the free list, held,
    /// or on its way back. What a thread remembers of the shared state is still of use: an
    /// entry that a checkin has linked still has that link, and the entry that the checkout
    /// found at the head is still on the free list, with the link that the checkout read.
    pub open spec fn inv(self) -> bool {
        &&& is_list(self.next, self.head, self.free())
        &&& self.held.no_duplicates()
        &&& self.returning().no_duplicates()
        &&& forall|x: usize| #[trigger]
            self.held.contains(x) ==> x < self.count() && !self.free().contains(x)
                && !self.returning().contains(x)
        &&& forall|x: usize| #[trigger]
            self.returning().contains(x) ==> x < self.count() && !self.free().contains(x)
        &&& forall|t: int|
            0 <= t < self.checkins.len() ==> self.link_stands(#[trigger] self.checkins[t])
        &&& match self.checkout {
            CheckoutProgress::Idle => true,
            CheckoutProgress::Loaded { seen } => seen == self.count() || self.free().contains(seen),
            CheckoutProgress::Read { seen, link } => self.free().contains(seen)
                && self.next[seen as int] == link,
        }
    }

    /// No checkin and no checkout is under way.
    pub open spec fn quiet(self) -> bool {
        self.checkins.len() == 0 && self.checkout is Idle
    }
}

/// The state of a new pool of `count` entries: every entry links to the one after it, all are
/// free, and nothing is going on.
pub open spec fn fresh(count: nat) -> State {
    State {
        head: if count == 0 {
            count as usize
        } else {
            0
        },
        next: Seq::new(count, |i: int| (i + 1) as usize),
        held: Seq::empty(),
        checkins: Seq::empty(),
        checkout: CheckoutProgress::Idle,
    }
}

/// Taking the `k`-th member out of a sequence without duplicates takes out that member and no
/// other.
proof fn lemma_remove<A>(s: Seq<A>, k: int)
    requires
        s.no_duplicates(),
        0 <= k < s.len(),
    ensures
        s.remove(k).no_duplicates(),
        forall|x: A| #[trigger] s.remove(k).contains(x) <==> s.contains(x) && x != s[k],
{
    let r = s.remove(k);
    assert forall|i: int, j: int| 0 <= i < r.len() && 0 <= j < r.len() && i != j implies r[i]
        != r[j] by {
        let a = if i < k { i } else { i + 1 };
        let b = if j < k { j } else { j + 1 };
        assert(r[i] == s[a] && r[j] == s[b]);
    }
    assert forall|x: A| #[trigger] r.contains(x) <==> s.contains(x) && x != s[k] by {
        if r.contains(x) {
            let i = choose|i: int| 0 <= i < r.len() && r[i] == x;
            let a = if i < k { i } else { i + 1 };
            assert(r[i] == s[a]);
        }
        if s.contains(x) && x != s[k] {
            let a = choose|a: int| 0 <= a < s.len() && s[a] == x;
            let i = if a < k { a } else { a - 1 };
            assert(r[i] == x);
        }
    }
}

/// Adding a new member at the end of a sequence without duplicates adds that member and no
/// other.
proof fn lemma_push_back<A>(s: Seq<A>, v: A)
    requires
        s.no_duplicates(),
        !s.contains(v),
    ensures
        s.push(v).no_duplicates(),
        forall|x: A| #[trigger] s.push(v).contains(x) <==> s.contains(x) || x == v,
{
    let r = s.push(v);
    assert forall|i: int, j: int| 0 <= i < r.len() && 0 <= j < r.len() && i != j implies r[i]
        != r[j] by {
        if i < s.len() {
            assert(s.contains(r[i]));
        }
        if j < s.len() {
            assert(s.contains(r[j]));
        }
    }
    assert forall|x: A| #[trigger] r.contains(x) <==> s.contains(x) || x == v by {
        if r.contains(x) {
            let i = choose|i: int| 0 <= i < r.len() && r[i] == x;
            if i < s.len() {
                assert(s[i] == x);
            }
        }
        if s.contains(x) {
            let i = choose|i: int| 0 <= i < s.len() && s[i] == x;
            assert(r[i] == x);
        }
        if x == v {
            assert(r[s.len() as int] == x);
        }
    }
}

/// Adding a member at the front of a sequence adds that member and no other.
proof fn lemma_push_front<A>(s: Seq<A>, v: A)
    ensures
        forall|x: A| #[trigger] (seq![v] + s).contains(x) <==> s.contains(x) || x == v,
{
    let r = seq![v] + s;
    assert forall|x: A| #[trigger] r.contains(x) <==> s.contains(x) || x == v by {
        if r.contains(x) {
            let i = choose|i: int| 0 <= i < r.len() && r[i] == x;
            if i > 0 {
                assert(s[i - 1] == x);
            }
        }
        if s.contains(x) {
            let i = choose|i: int| 0 <= i < s.len() && s[i] == x;
            assert(r[i + 1] == x);
        }
        if x == v {
            assert(r[0] == x);
        }
    }
}

/// Taking the first member off a sequence without duplicates takes off that member and no
/// other.
proof fn lemma_drop_first<A>(s: Seq<A>)
    requires
        s.no_duplicates(),
        s.len() > 0,
    ensures
        forall|x: A| #[trigger] s.drop_first().contains(x) <==> s.contains(x) && x != s[0],
{
    assert(s.drop_first() =~= s.remove(0));
    lemma_remove(s, 0);
}

/// A list that the head and the links spell out is the free list.
proof fn lemma_free_is(s: State, f: Seq<usize>)
    requires
        is_list(s.next, s.head, f),
    ensures
        s.free() == f,
{
    lemma_walk_is_list(s.next, s.head, f);
}

/// A new pool is in order.
pub proof fn lemma_fresh(count: nat)
    requires
        count <= usize::MAX,
    ensures
        fresh(count).inv(),
        fresh(count).quiet(),
        fresh(count).count() == count,
        fresh(count).free() == ascending(count),
        forall|x: usize| x < count ==> #[trigger] fresh(count).members().contains(x),
{
    let s = fresh(count);
    lemma_ascending(s.next);
    lemma_free_is(s, ascending(count));
    assert(s.returning() =~= Seq::<usize>::empty());
    assert forall|x: usize| x < count implies #[trigger] s.members().contains(x) by {
        assert(ascending(count)[x as int] == x);
    }
}

/// Letting go of a handle keeps the pool in order and loses no entry.
pub proof fn lemma_release(s: State, k: int)
    requires
        s.inv(),
    ensures
        s.release(k).inv(),
        s.release(k).members() == s.members(),
        s.release(k).count() == s.count(),
{
    if 0 <= k < s.held.len() {
        let r = s.release(k);
        let idx = s.held[k];
        assert(s.held.contains(idx));
        lemma_remove(s.held, k);
        lemma_push_back(s.returning(), idx);
        assert(r.returning() =~= s.returning().push(idx));
        assert forall|t: int| 0 <= t < r.checkins.len() implies r.link_stands(
            #[trigger] r.checkins[t],
        ) by {
            if t < s.checkins.len() {
                assert(r.checkins[t] == s.checkins[t]);
            }
        }
        assert(r.members() =~= s.members());
    }
}

/// A step of a checkin keeps the pool in order and loses no entry.
pub proof fn lemma_checkin_step(s: State, t: int)
    requires
        s.inv(),
    ensures
        s.checkin_step(t).inv(),
        s.checkin_step(t).members() == s.members(),
        s.checkin_step(t).count() == s.count(),
{
    if 0 <= t < s.checkins.len() {
        let r = s.checkin_step(t);
        let idx = s.checkins[t].idx;
        assert(s.returning()[t] == idx);
        assert(s.returning().contains(idx));
        match s.checkins[t].at {
            CheckinProgress::Start => {
                assert(r.returning() =~= s.returning());
                assert forall|u: int| 0 <= u < r.checkins.len() implies r.link_stands(
                    #[trigger] r.checkins[u],
                ) by {
                    if u != t {
                        assert(r.checkins[u] == s.checkins[u]);
                    }
                }
                assert(r.members() =~= s.members());
            },
            CheckinProgress::Loaded { seen } => {
                assert(r.returning() =~= s.returning());
                lemma_link_off_list(s.next, s.head, s.free(), idx, seen);
                lemma_free_is(r, s.free());
                assert forall|u: int| 0 <= u < r.checkins.len() implies r.link_stands(
                    #[trigger] r.checkins[u],
                ) by {
                    if u != t {
                        assert(r.checkins[u] == s.checkins[u]);
                        assert(s.returning()[u] == s.checkins[u].idx);
                        assert(s.checkins[u].idx != idx);
                        assert(s.returning().contains(s.checkins[u].idx));
                    }
                }
                match s.checkout {
                    CheckoutProgress::Read { seen: found, link } => {
                        assert(found != idx);
                    },
                    _ => {},
                }
                assert(r.members() =~= s.members());
            },
            CheckinProgress::Linked { seen } => {
                if s.head == seen {
                    lemma_push(s.next, s.head, s.free(), idx);
                    assert(s.next.update(idx as int, s.head) =~= s.next);
                    lemma_free_is(r, seq![idx] + s.free());
                    lemma_remove(s.returning(), t);
                    assert(r.returning() =~= s.returning().remove(t));
                    lemma_push_front(s.free(), idx);
                    assert forall|u: int| 0 <= u < r.checkins.len() implies r.link_stands(
                        #[trigger] r.checkins[u],
                    ) by {
                        let v = if u < t { u } else { u + 1 };
                        assert(r.checkins[u] == s.checkins[v]);
                    }
                    assert(r.members() =~= s.members());
                } else {
                    assert(r.returning() =~= s.returning());
                    assert forall|u: int| 0 <= u < r.checkins.len() implies r.link_stands(
                        #[trigger] r.checkins[u],
                    ) by {
                        if u != t {
                            assert(r.checkins[u] == s.checkins[u]);
                        }
                    }
                    assert(r.members() =~= s.members());
                }
            },
        }
    }
}

/// A step of the checkout keeps the pool in order and loses no entry.
pub proof fn lemma_checkout_step(s: State)
    requires
        s.inv(),
    ensures
        s.checkout_step().inv(),
        s.checkout_step().members() == s.members(),
        s.checkout_step().count() == s.count(),
{
    let r = s.checkout_step();
    match s.checkout {
        CheckoutProgress::Idle => {
            if s.free().len() > 0 {
                assert(s.free().contains(s.free()[0]));
            }
            assert(r.members() =~= s.members());
        },
        CheckoutProgress::Loaded { seen } => {
            assert(r.members() =~= s.members());
        },
        CheckoutProgress::Read { seen, link } => {
            if s.head == seen {
                lemma_pop(s.next, s.head, s.free());
                lemma_free_is(r, s.free().drop_first());
                lemma_drop_first(s.free());
                lemma_push_back(s.held, seen);
                assert(r.returning() =~= s.returning());
                assert(r.members() =~= s.members());
            } else {
                if s.free().len() > 0 {
                    assert(s.free().contains(s.free()[0]));
                }
                assert(r.members() =~= s.members());
            }
        },
    }
}

/// However the steps of the threads are interleaved, the pool stays in order and no entry is
/// lost or made up.
pub proof fn lemma_run(s: State, events: Seq<Event>)
    requires
        s.inv(),
    ensures
        s.run(events).inv(),
        s.run(events).members() == s.members(),
        s.run(events).count() == s.count(),
    decreases events.len(),
{
    if events.len() > 0 {
        match events[0] {
            Event::Release { k } => lemma_release(s, k),
            Event::Checkin { t } => lemma_checkin_step(s, t),
            Event::Checkout => lemma_checkout_step(s),
        }
        lemma_run(s.step(events[0]), events.drop_first());
    }
}

/// After any interleaving, a walk along the links from the head visits every free entry once
/// and no entry twice, and then reaches the sentinel.
pub proof fn lemma_free_list_intact(s: State, events: Seq<Event>)
    requires
        s.inv(),
    ensures
        is_list(s.run(events).next, s.run(events).head, s.run(events).free()),
        s.run(events).free().no_duplicates(),
        s.run(events).free().len() <= s.count(),
        forall|x: usize| #[trigger]
            s.run(events).free().contains(x) ==> x < s.count() && s.members().contains(x),
{
    lemma_run(s, events);
    let r = s.run(events);
    lemma_list_bounded(r.next, r.head, r.free());
    assert forall|x: usize| #[trigger] r.free().contains(x) implies x < s.count()
        && s.members().contains(x) by {
        assert(r.members().contains(x));
        let i = choose|i: int| 0 <= i < r.free().len() && r.free()[i] == x;
        assert(r.free()[i] < r.next.len());
    }
}

/// After any interleaving, no entry is held through two handles, and no entry that is held is
/// on the free list or on its way back: a handle gives exclusive access to its entry.
pub proof fn lemma_handles_exclusive(s: State, events: Seq<Event>)
    requires
        s.inv(),
    ensures
        s.run(events).held.no_duplicates(),
        forall|x: usize| #[trigger]
            s.run(events).held.contains(x) ==> !s.run(events).free().contains(x)
                && !s.run(events).returning().contains(x),
{
    lemma_run(s, events);
}

/// Once no checkin is under way, every entry that was on its way back is on the free list, or
/// has been handed out again.
pub proof fn lemma_all_returned(s: State, events: Seq<Event>, x: usize)
    requires
        s.inv(),
        s.returning().contains(x),
        s.run(events).checkins.len() == 0,
    ensures
        s.run(events).free().contains(x) || s.run(events).held.contains(x),
{
    lemma_run(s, events);
    let r = s.run(events);
    assert(s.members().contains(x));
    assert(r.members().contains(x));
    assert(r.returning() =~= Seq::<usize>::empty());
}

/// The steps of a checkin of the `k`-th handle that no other thread disturbs: the handle is
/// let go, then the checkin reads the head, links its entry and swings the head.
pub open spec fn checkin_alone(k: int) -> Seq<Event> {
    seq![
        Event::Release { k },
        Event::Checkin { t: 0 },
        Event::Checkin { t: 0 },
        Event::Checkin { t: 0 },
    ]
}

/// The steps of a checkout that no other thread disturbs and that finds a free entry: it
/// reads the head, reads the link of the entry found there and swings the head.
pub open spec fn checkout_alone() -> Seq<Event> {
    seq![Event::Checkout, Event::Checkout, Event::Checkout]
}

/// The steps of a checkout that finds no free entry: it reads the head and gives up.
pub open spec fn checkout_in_vain() -> Seq<Event> {
    seq![Event::Checkout, Event::Checkout]
}

/// The machine is in the state that the pool shows: it has the pool's entries and the pool's
/// free list, and every entry is somewhere.
pub open spec fn stands_for<T>(s: State, pool: PoolView<T>) -> bool {
    &&& s.count() == pool.count
    &&& s.free() == pool.free
    &&& forall|x: usize| x < pool.count ==> #[trigger] s.members().contains(x)
}

/// Where the steps of an undisturbed checkin lead.
proof fn lemma_checkin_alone_state(s: State, k: int)
    requires
        s.checkins.len() == 0,
        0 <= k < s.held.len(),
    ensures
        s.run(checkin_alone(k)) == (State {
            head: s.held[k],
            next: s.next.update(s.held[k] as int, s.head),
            held: s.held.remove(k),
            checkins: Seq::empty(),
            checkout: s.checkout,
        }),
{
    let idx = s.held[k];
    let events = checkin_alone(k);
    let s1 = s.release(k);
    let s2 = s1.checkin_step(0);
    let s3 = s2.checkin_step(0);
    let s4 = s3.checkin_step(0);
    assert(s1.checkins =~= seq![Checkin { idx, at: CheckinProgress::Start }]);
    let loaded = Checkin { idx, at: CheckinProgress::Loaded { seen: s.head } };
    let linked = Checkin { idx, at: CheckinProgress::Linked { seen: s.head } };
    assert(s2.checkins =~= seq![loaded]);
    assert(s3.checkins =~= seq![linked]);
    assert(s4.checkins =~= Seq::<Checkin>::empty());
    let e1 = events.drop_first();
    let e2 = e1.drop_first();
    let e3 = e2.drop_first();
    let e4 = e3.drop_first();
    assert(e4.len() == 0);
    assert(s4.run(e4) == s4);
    assert(s3.run(e3) == s4.run(e4));
    assert(s2.run(e2) == s3.run(e3));
    assert(s1.run(e1) == s2.run(e2));
    assert(s.run(events) == s1.run(e1));
}

/// A checkin that no other thread disturbs does what a checkin does to a pool that is
/// borrowed exclusively: the entry goes to the head of the free list.
pub proof fn lemma_checkin_alone<T>(s: State, pool: PoolView<T>, k: int, c: CheckoutView<T>)
    requires
        s.inv(),
        pool.wf(),
        stands_for(s, pool),
        s.checkins.len() == 0,
        0 <= k < s.held.len(),
        c.index == s.held[k],
        c.entry.extra.len() == pool.extra,
    ensures
        pool.accepts(c),
        stands_for(s.run(checkin_alone(k)), pool.after_checkin(c)),
        s.run(checkin_alone(k)).inv(),
        s.run(checkin_alone(k)).checkins.len() == 0,
        s.run(checkin_alone(k)).checkout == s.checkout,
        s.run(checkin_alone(k)).held == s.held.remove(k),
{
    lemma_checkin_alone_state(s, k);
    lemma_run(s, checkin_alone(k));
    assert(s.held.contains(c.index));
    assert(!pool.free.contains(c.index));
    assert(pool.slots[c.index as int] is None);
    lemma_push(s.next, s.head, s.free(), c.index);
    lemma_free_is(s.run(checkin_alone(k)), seq![c.index] + s.free());
}

/// Where the steps of an undisturbed checkout lead.
proof fn lemma_checkout_alone_state(s: State)
    requires
        s.checkout is Idle,
    ensures
        s.head != s.count() ==> s.run(checkout_alone()) == (State {
            head: s.next[s.head as int],
            held: s.held.push(s.head),
            ..s
        }),
        s.head == s.count() ==> s.run(checkout_in_vain()) == s,
{
    let s1 = s.checkout_step();
    let s2 = s1.checkout_step();
    let s3 = s2.checkout_step();
    if s.head != s.count() {
        let events = checkout_alone();
        let e1 = events.drop_first();
        let e2 = e1.drop_first();
        let e3 = e2.drop_first();
        assert(e3.len() == 0);
        assert(s3.run(e3) == s3);
        assert(s2.run(e2) == s3.run(e3));
        assert(s1.run(e1) == s2.run(e2));
        assert(s.run(events) == s1.run(e1));
    } else {
        let events = checkout_in_vain();
        let e1 = events.drop_first();
        let e2 = e1.drop_first();
        assert(e2.len() == 0);
        assert(s2.run(e2) == s2);
        assert(s1.run(e1) == s2.run(e2));
        assert(s.run(events) == s1.run(e1));
    }
}

/// A checkout that no other thread disturbs does what a checkout does to a pool that is
/// borrowed exclusively: it takes the entry at the head of the free list into a handle.
pub proof fn lemma_checkout_alone<T>(s: State, pool: PoolView<T>)
    requires
        s.inv(),
        pool.wf(),
        stands_for(s, pool),
        s.checkout is Idle,
        !pool.depleted(),
    ensures
        stands_for(s.run(checkout_alone()), pool.after_checkout()),
        s.run(checkout_alone()).inv(),
        s.run(checkout_alone()).checkins == s.checkins,
        s.run(checkout_alone()).checkout is Idle,
        s.run(checkout_alone()).held == s.held.push(pool.first().index),
{
    assert(s.free()[0] < s.next.len());
    lemma_checkout_alone_state(s);
    lemma_run(s, checkout_alone());
    lemma_pop(s.next, s.head, s.free());
    lemma_free_is(s.run(checkout_alone()), s.free().drop_first());
}

/// A checkout from a pool without a free entry gives up after it has read the head, and
/// leaves everything as it is.
pub proof fn lemma_checkout_in_vain<T>(s: State, pool: PoolView<T>)
    requires
        s.inv(),
        stands_for(s, pool),
        s.checkout is Idle,
        pool.depleted(),
    ensures
        s.run(checkout_in_vain()) == s,
        pool.after_checkout() == pool,
{
    lemma_checkout_alone_state(s);
}

/// After any interleaving, the entries that are held, those on their way back and those on
/// the free list are together no more than there are entries: no more handles are out than
/// the pool has entries.
pub proof fn lemma_outstanding_bounded(s: State, events: Seq<Event>)
    requires
        s.inv(),
    ensures
        s.run(events).held.len() + s.run(events).checkins.len() + s.run(events).free().len()
            <= s.count(),
{
    lemma_run(s, events);
    lemma_places_bounded(s.run(events));
}

/// In a pool that is in order, the entries that are held, those on their way back and those
/// on the free list are together no more than there are entries.
pub proof fn lemma_places_bounded(r: State)
    requires
        r.inv(),
    ensures
        r.held.len() + r.checkins.len() + r.free().len() <= r.count(),
{
    let all = r.held + r.returning() + r.free();
    assert forall|i: int, j: int| 0 <= i < all.len() && 0 <= j < all.len() && i != j implies all[i]
        != all[j] by {
        lemma_places_distinct(r, i, j);
    }
    assert forall|i: int| 0 <= i < all.len() implies (#[trigger] all[i]) < r.count() by {
        lemma_place(r, i);
    }
    lemma_distinct_bounded(all, r.count());
}

/// Where the `i`-th of all entries that are somewhere is: 0 if it is held, 1 if it is on its
/// way back, 2 if it is on the free list.
spec fn place(r: State, i: int) -> int {
    if i < r.held.len() {
        0
    } else if i < r.held.len() + r.returning().len() {
        1
    } else {
        2
    }
}

/// The `i`-th of all entries that are somewhere is an entry, and is where its position says.
proof fn lemma_place(r: State, i: int)
    requires
        r.inv(),
        0 <= i < (r.held + r.returning() + r.free()).len(),
    ensures
        (r.held + r.returning() + r.free())[i] < r.count(),
        place(r, i) == 0 ==> (r.held + r.returning() + r.free())[i] == r.held[i] && r.held.contains(
            (r.held + r.returning() + r.free())[i],
        ),
        place(r, i) == 1 ==> (r.held + r.returning() + r.free())[i] == r.returning()[i
            - r.held.len()] && r.returning().contains((r.held + r.returning() + r.free())[i]),
        place(r, i) == 2 ==> (r.held + r.returning() + r.free())[i] == r.free()[i - r.held.len()
            - r.returning().len()] && r.free().contains((r.held + r.returning() + r.free())[i]),
{
    let all = r.held + r.returning() + r.free();
    let a = r.held.len();
    let b = a + r.returning().len();
    if i < a {
        assert(all[i] == r.held[i]);
        assert(r.held.contains(all[i]));
    } else if i < b {
        assert(all[i] == r.returning()[i - a]);
        assert(r.returning().contains(all[i]));
    } else {
        assert(all[i] == r.free()[i - b]);
        assert(r.free().contains(all[i]));
        assert(r.free()[i - b] < r.next.len());
    }
}

/// No entry is in two places, nor twice in one.
proof fn lemma_places_distinct(r: State, i: int, j: int)
    requires
        r.inv(),
        0 <= i < (r.held + r.returning() + r.free()).len(),
        0 <= j < (r.held + r.returning() + r.free()).len(),
        i != j,
    ensures
        (r.held + r.returning() + r.free())[i] != (r.held + r.returning() + r.free())[j],
{
    lemma_place(r, i);
    lemma_place(r, j);
    let all = r.held + r.returning() + r.free();
    let x = all[i];
    let y = all[j];
    if place(r, i) == place(r, j) {
        if place(r, i) == 0 {
            assert(r.held[i] != r.held[j]);
        } else if place(r, i) == 1 {
            assert(r.returning()[i - r.held.len()] != r.returning()[j - r.held.len()]);
        } else {
            let b = r.held.len() + r.returning().len();
            assert(r.free()[i - b] != r.free()[j - b]);
        }
    } else {
        if x == y {
            if place(r, i) == 0 || place(r, j) == 0 {
                assert(r.held.contains(x));
            } else {
                assert(r.returning().contains(x));
            }
        }
    }
}

} // verus!
