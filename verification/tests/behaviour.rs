use std::sync::atomic::{AtomicUsize, Ordering};
use std::sync::Arc;

use pool::layout::{pad, Layout, LayoutError, MAX};
use pool::{Dirty, Pool, PoolInner, ResetOnCheckin};

#[test]
fn layout_rounds_extra_up_to_the_alignment() {
    let layout = Layout::new(10, 10, 24, 8).unwrap();
    assert_eq!(layout.count, 10);
    assert_eq!(layout.align, 8);
    assert_eq!(layout.header, 24);
    assert_eq!(layout.extra, 16);
    assert_eq!(layout.entry_size, 40);
}

#[test]
fn layout_keeps_extra_that_is_aligned() {
    assert_eq!(Layout::new(3, 16, 24, 8).unwrap().extra, 16);
    assert_eq!(Layout::new(3, 0, 24, 8).unwrap().extra, 0);
    assert_eq!(Layout::new(3, 0, 24, 8).unwrap().entry_size, 24);
    assert_eq!(Layout::new(3, 1, 24, 8).unwrap().extra, 8);
    assert_eq!(Layout::new(3, 7, 5, 1).unwrap().extra, 7);
    assert_eq!(Layout::new(3, 7, 5, 1).unwrap().entry_size, 12);
}

#[test]
fn layout_of_no_entries() {
    let layout = Layout::new(0, 3, 16, 4).unwrap();
    assert_eq!(layout.count, 0);
    assert_eq!(layout.extra, 4);
    assert_eq!(layout.entry_size, 20);
}

#[test]
fn layout_refuses_too_many_entries() {
    assert_eq!(Layout::new(MAX, 0, 24, 8), Err(LayoutError::TooManyEntries));
    assert_eq!(Layout::new(usize::MAX, 0, 24, 8), Err(LayoutError::TooManyEntries));
    // the count is looked at before the alignment
    assert_eq!(Layout::new(MAX, 0, 24, 0), Err(LayoutError::TooManyEntries));
}

#[test]
fn layout_refuses_zero_alignment() {
    assert_eq!(Layout::new(1, 0, 24, 0), Err(LayoutError::ZeroAlignment));
}

#[test]
fn layout_refuses_entry_off_alignment() {
    assert_eq!(Layout::new(1, 0, 3, 8), Err(LayoutError::Misaligned));
    assert_eq!(Layout::new(1, 5, 12, 8), Err(LayoutError::Misaligned));
}

#[test]
fn layout_refuses_arena_too_large() {
    // all entries together reach the bound
    assert_eq!(Layout::new(MAX - 1, 0, 8, 8), Err(LayoutError::TooLarge));
    assert_eq!(Layout::new(2, 0, MAX / 2 + 1, 1), Err(LayoutError::TooLarge));
    // one entry alone does not fit
    assert_eq!(Layout::new(1, usize::MAX - 3, 24, 8), Err(LayoutError::TooLarge));
    assert_eq!(Layout::new(1, 8, usize::MAX - 7, 8), Err(LayoutError::TooLarge));
    // just below the bound
    assert!(Layout::new(1, 0, MAX - 1, 1).is_ok());
    assert_eq!(Layout::new(1, 0, MAX, 1), Err(LayoutError::TooLarge));
}

#[test]
fn pad_gives_the_next_multiple() {
    assert_eq!(pad(0, 8), Some(0));
    assert_eq!(pad(1, 8), Some(8));
    assert_eq!(pad(8, 8), Some(8));
    assert_eq!(pad(9, 8), Some(16));
    assert_eq!(pad(10, 3), Some(12));
    assert_eq!(pad(usize::MAX, 1), Some(usize::MAX));
    assert_eq!(pad(usize::MAX, 2), None);
}

#[test]
fn layout_of_a_payload_type() {
    let layout = PoolInner::<u64>::layout(4, 10).unwrap();
    assert_eq!(layout.count, 4);
    assert!(layout.extra >= 10);
    assert!(layout.extra < 10 + layout.align);
    assert_eq!(layout.extra % layout.align, 0);
    assert_eq!(layout.entry_size, layout.header + layout.extra);
    assert_eq!(PoolInner::<u64>::layout(MAX, 0), Err(LayoutError::TooManyEntries));
}

#[test]
fn try_with_capacity_refuses_what_does_not_fit() {
    assert!(matches!(
        Pool::<i32>::try_with_capacity(MAX, 0, || 0),
        Err(LayoutError::TooManyEntries)
    ));
    assert!(matches!(
        Pool::<i32>::try_with_capacity(1, usize::MAX - 1, || 0),
        Err(LayoutError::TooLarge)
    ));
    assert!(matches!(
        PoolInner::<i32>::try_with_capacity(MAX, 0, || 0),
        Err(LayoutError::TooManyEntries)
    ));
    let pool = Pool::<i32>::try_with_capacity(3, 0, || 0);
    assert!(matches!(pool, Ok(_)));
}

#[test]
fn new_pool_hands_out_entries_in_ascending_order() {
    let calls = AtomicUsize::new(0);
    let mut pool: Pool<Dirty<usize>> =
        Pool::with_capacity(4, 0, || Dirty(calls.fetch_add(1, Ordering::SeqCst)));
    assert_eq!(pool.count(), 4);
    for expected in 0..4 {
        let checkout = pool.checkout().unwrap();
        assert_eq!(checkout.index(), expected);
        // the payload of entry i comes from call i of the initializer
        assert_eq!(**checkout, expected);
    }
    assert!(pool.checkout().is_none());
}

#[test]
fn pool_without_entries_is_depleted_from_the_start() {
    let mut pool: Pool<i32> = Pool::with_capacity(0, 0, || 0);
    assert_eq!(pool.count(), 0);
    assert!(pool.checkout().is_none());
    assert!(pool.checkout().is_none());
}

#[test]
fn round_trip_without_reset_keeps_the_payload() {
    let mut pool: Pool<Dirty<Vec<i32>>> = Pool::with_capacity(1, 0, || Dirty(Vec::new()));
    let mut val = pool.checkout().unwrap();
    val.push(5);
    val.push(6);
    assert!(pool.checkin(val).is_ok());
    let val = pool.checkout().unwrap();
    assert_eq!(**val, vec![5, 6]);
}

#[test]
fn round_trip_with_reset_on_checkout_gives_the_default() {
    let mut pool: Pool<i32> = Pool::with_capacity(1, 0, || 3);
    let mut val = pool.checkout().unwrap();
    // reset on the way out, whatever the initializer made
    assert_eq!(*val, 0);
    *val = 17;
    assert!(pool.checkin(val).is_ok());
    let val = pool.checkout().unwrap();
    assert_eq!(*val, 0);
}

#[test]
fn reset_on_checkin_resets_at_once() {
    let mut pool: Pool<ResetOnCheckin<Vec<i32>>> =
        Pool::with_capacity(1, 0, || ResetOnCheckin(vec![1, 2, 3]));
    let mut val = pool.checkout().unwrap();
    // nothing is reset on the way out
    assert_eq!(**val, vec![1, 2, 3]);
    val.push(4);
    assert_eq!(val.len(), 4);
    assert!(pool.checkin(val).is_ok());
    let val = pool.checkout().unwrap();
    assert!(val.is_empty());
}

#[test]
fn raw_pool_never_resets() {
    let mut pool: PoolInner<i32> = PoolInner::with_capacity(2, 0, || 9);
    assert_eq!(pool.count(), 2);
    let mut val = pool.checkout().unwrap();
    assert_eq!(*val, 9);
    *val = 17;
    assert!(pool.accepts(&val));
    assert!(pool.checkin(val).is_ok());
    let val = pool.checkout().unwrap();
    assert_eq!(val.index(), 0);
    assert_eq!(*val, 17);
}

#[test]
fn last_in_first_out() {
    let mut pool: Pool<Dirty<i32>> = Pool::with_capacity(4, 0, || Dirty(0));
    let a = pool.checkout().unwrap();
    let b = pool.checkout().unwrap();
    let c = pool.checkout().unwrap();
    assert_eq!((a.index(), b.index(), c.index()), (0, 1, 2));

    assert!(pool.checkin(b).is_ok());
    let b = pool.checkout().unwrap();
    assert_eq!(b.index(), 1);

    assert!(pool.checkin(a).is_ok());
    assert!(pool.checkin(c).is_ok());
    assert!(pool.checkin(b).is_ok());
    // back in the order 0, 2, 1: out in the order 1, 2, 0, then the entry never taken
    assert_eq!(pool.checkout().unwrap().index(), 1);
    assert_eq!(pool.checkout().unwrap().index(), 2);
    assert_eq!(pool.checkout().unwrap().index(), 0);
    assert_eq!(pool.checkout().unwrap().index(), 3);
    assert!(pool.checkout().is_none());
}

#[test]
fn never_more_out_than_entries() {
    let mut pool: Pool<Dirty<u8>> = Pool::with_capacity(7, 0, || Dirty(0));
    let mut out = vec![];
    for round in 0..3 {
        while let Some(checkout) = pool.checkout() {
            out.push(checkout);
            assert!(out.len() <= 7);
        }
        assert_eq!(out.len(), 7);
        // hand some back, not all
        for _ in 0..(round + 2) {
            let checkout = out.pop().unwrap();
            assert!(pool.checkin(checkout).is_ok());
        }
    }
}

#[test]
fn free_list_holds_every_entry_once() {
    let mut pool: Pool<Dirty<u8>> = Pool::with_capacity(6, 0, || Dirty(0));
    let mut out = vec![];
    while let Some(checkout) = pool.checkout() {
        out.push(checkout);
    }
    // hand them back in an order of no pattern
    let order = [3usize, 0, 5, 1, 4, 2];
    let mut slots: Vec<Option<pool::Checkout<Dirty<u8>>>> = out.into_iter().map(Some).collect();
    for i in order {
        let checkout = slots[i].take().unwrap();
        assert_eq!(checkout.index(), i);
        assert!(pool.checkin(checkout).is_ok());
    }
    // every entry comes out once, the last in first
    let mut seen = vec![];
    while let Some(checkout) = pool.checkout() {
        seen.push(checkout.index());
        slots.push(Some(checkout));
    }
    assert_eq!(seen, vec![2, 4, 1, 5, 0, 3]);
}

#[test]
fn extra_bytes_are_zero_and_can_be_written() {
    let mut pool: Pool<Dirty<i32>> = Pool::with_capacity(1, 10, || Dirty(0));
    let mut val = pool.checkout().unwrap();
    assert!(val.extra().len() >= 10);
    assert!(val.extra().iter().all(|b| *b == 0));

    val.extra_mut()[0] = 0xAB;
    val.extra_mut()[9] = 0xCD;
    assert_eq!(val.extra()[0], 0xAB);
    assert_eq!(val.extra()[9], 0xCD);
    assert_eq!(val.extra()[1], 0);
}

#[test]
fn extra_bytes_have_the_length_of_the_layout() {
    let layout = PoolInner::<Dirty<i32>>::layout(2, 10).unwrap();
    let mut pool: Pool<Dirty<i32>> = Pool::with_capacity(2, 10, || Dirty(0));
    let a = pool.checkout().unwrap();
    let b = pool.checkout().unwrap();
    assert_eq!(a.extra().len(), layout.extra);
    assert_eq!(b.extra().len(), layout.extra);
    assert_eq!(a.extra().len() % layout.align, 0);

    let mut none: Pool<Dirty<i32>> = Pool::with_capacity(1, 0, || Dirty(0));
    assert_eq!(none.checkout().unwrap().extra().len(), 0);
}

#[test]
fn extra_bytes_stay_with_their_entry() {
    let mut pool: Pool<i32> = Pool::with_capacity(2, 4, || 0);
    let mut a = pool.checkout().unwrap();
    let b = pool.checkout().unwrap();
    a.extra_mut()[2] = 7;
    assert_eq!(b.extra()[2], 0);
    assert!(pool.checkin(b).is_ok());
    assert!(pool.checkin(a).is_ok());
    // entry 0 comes out first, its payload reset and its extra bytes as they were left
    let a = pool.checkout().unwrap();
    assert_eq!(a.index(), 0);
    assert_eq!(*a, 0);
    assert_eq!(a.extra()[2], 7);
    let b = pool.checkout().unwrap();
    assert_eq!(b.index(), 1);
    assert_eq!(b.extra()[2], 0);
}

#[test]
fn handle_of_another_pool_with_the_entry_in_place_is_refused() {
    let mut one: Pool<Dirty<i32>> = Pool::with_capacity(2, 0, || Dirty(1));
    let mut two: Pool<Dirty<i32>> = Pool::with_capacity(2, 0, || Dirty(2));
    let foreign = one.checkout().unwrap();
    assert_eq!(foreign.index(), 0);

    // entry 0 of the second pool is in the pool
    assert!(!two.accepts(&foreign));
    let back = match two.checkin(foreign) {
        Ok(()) => panic!("a handle to an entry that is in the pool was taken"),
        Err(back) => back,
    };
    assert_eq!(back.index(), 0);
    assert_eq!(**back, 1);

    // the second pool is as it was
    let a = two.checkout().unwrap();
    let b = two.checkout().unwrap();
    assert_eq!((a.index(), **a), (0, 2));
    assert_eq!((b.index(), **b), (1, 2));
    assert!(two.checkout().is_none());

    // and the first pool takes its handle back
    assert!(one.accepts(&back));
    assert!(one.checkin(back).is_ok());
}

#[test]
fn handle_of_a_larger_pool_is_refused() {
    let mut small: Pool<Dirty<i32>> = Pool::with_capacity(1, 0, || Dirty(0));
    let mut large: Pool<Dirty<i32>> = Pool::with_capacity(3, 0, || Dirty(0));
    let _a = large.checkout().unwrap();
    let _b = large.checkout().unwrap();
    let c = large.checkout().unwrap();
    assert_eq!(c.index(), 2);
    let _held = small.checkout().unwrap();
    assert!(!small.accepts(&c));
    assert!(small.checkin(c).is_err());
    assert!(small.checkout().is_none());
}

#[test]
fn handle_with_other_extra_bytes_is_refused() {
    let mut plain: Pool<Dirty<i32>> = Pool::with_capacity(1, 0, || Dirty(0));
    let mut padded: Pool<Dirty<i32>> = Pool::with_capacity(1, 64, || Dirty(0));
    let _held = plain.checkout().unwrap();
    let wide = padded.checkout().unwrap();
    assert!(!plain.accepts(&wide));
    assert!(plain.checkin(wide).is_err());
    assert!(plain.checkout().is_none());
}

#[test]
fn dirty_payload_is_reached_through_the_handle() {
    let mut pool: Pool<Dirty<String>> = Pool::with_capacity(1, 0, || Dirty(String::new()));
    let mut val = pool.checkout().unwrap();
    val.push_str("abc");
    assert_eq!(val.len(), 3);
    assert_eq!(val.0, "abc");
}

struct Counted {
    drops: Arc<AtomicUsize>,
}

impl Drop for Counted {
    fn drop(&mut self) {
        self.drops.fetch_add(1, Ordering::SeqCst);
    }
}

#[test]
fn every_payload_is_dropped_once() {
    let drops = Arc::new(AtomicUsize::new(0));
    {
        let mut pool: Pool<Dirty<Counted>> =
            Pool::with_capacity(5, 0, || Dirty(Counted { drops: drops.clone() }));
        let a = pool.checkout().unwrap();
        let b = pool.checkout().unwrap();
        let c = pool.checkout().unwrap();
        assert!(pool.checkin(b).is_ok());
        // one handle is dropped before the pool, one after it
        drop(a);
        assert_eq!(drops.load(Ordering::SeqCst), 1);
        drop(pool);
        assert_eq!(drops.load(Ordering::SeqCst), 4);
        drop(c);
    }
    assert_eq!(drops.load(Ordering::SeqCst), 5);
}
