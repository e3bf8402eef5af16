use std::cell::Cell;
use std::rc::Rc;

use minarrow::append_only_vec::AppendOnlyVec;

fn iter_count<T>(v: &AppendOnlyVec<T>) -> usize {
    let mut it = v.iter();
    let mut n = 0;
    while it.next().is_some() {
        n += 1;
    }
    n
}

#[test]
fn empty_starts_empty() {
    let v: AppendOnlyVec<String> = AppendOnlyVec::new();
    assert_eq!(v.count(), 0);
    assert!(v.get(0).is_none());
    assert_eq!(iter_count(&v), 0);
}

#[test]
fn push_and_get_returns_stable_addresses() {
    let mut v: AppendOnlyVec<String> = AppendOnlyVec::new();
    for i in 0..200 {
        let idx = v.push(format!("v{i}"));
        assert_eq!(idx, i);
        assert_eq!(v.get(i).unwrap(), &format!("v{i}"));
    }
    // After all the pushes (crossing multiple bucket boundaries), earlier
    // indices still resolve to the original strings.
    for i in 0..200 {
        let s: &String = v.get(i).unwrap();
        assert_eq!(s, &format!("v{i}"));
    }
}

#[test]
fn iter_yields_in_order() {
    let mut v: AppendOnlyVec<String> = AppendOnlyVec::new();
    for i in 0..50 {
        v.push(format!("e{i}"));
    }
    let mut items: Vec<(usize, String)> = Vec::new();
    let mut it = v.iter();
    while let Some((i, s)) = it.next() {
        items.push((i, s.clone()));
    }
    assert_eq!(items.len(), 50);
    for (i, (actual_idx, actual_str)) in items.iter().enumerate() {
        assert_eq!(*actual_idx, i);
        assert_eq!(actual_str, &format!("e{i}"));
    }
}

#[test]
fn locate_round_trips_across_buckets() {
    assert_eq!(AppendOnlyVec::<String>::locate(0), (0, 0));
    assert_eq!(AppendOnlyVec::<String>::locate(15), (0, 15));
    assert_eq!(AppendOnlyVec::<String>::locate(16), (1, 0));
    assert_eq!(AppendOnlyVec::<String>::locate(47), (1, 31));
    assert_eq!(AppendOnlyVec::<String>::locate(48), (2, 0));
    assert_eq!(AppendOnlyVec::<String>::locate(111), (2, 63));
}

#[test]
fn push_bounded_respects_cap_exactly() {
    let mut v: AppendOnlyVec<u32> = AppendOnlyVec::new();
    for i in 0..10 {
        assert_eq!(v.push_bounded(i, 10), Some(i as usize));
    }
    // Cap hit; further pushes return None and don't reserve a slot.
    assert_eq!(v.push_bounded(99, 10), None);
    assert_eq!(v.count(), 10);
    assert_eq!(v.push_bounded(99, 10), None);
    assert_eq!(v.count(), 10);
}

#[test]
fn drop_runs_for_initialised_slots_only() {
    struct Counted(#[allow(dead_code)] usize, Rc<Cell<usize>>);
    impl Drop for Counted {
        fn drop(&mut self) {
            self.1.set(self.1.get() + 1);
        }
    }

    let drops = Rc::new(Cell::new(0usize));
    {
        let mut v: AppendOnlyVec<Counted> = AppendOnlyVec::new();
        for i in 0..200 {
            v.push(Counted(i, Rc::clone(&drops)));
        }
    }
    assert_eq!(drops.get(), 200);
}

// ---- further cases ----

#[test]
fn locate_at_the_far_end_of_the_schedule() {
    // Bucket 27 starts at 16 * (2^27 - 1) and its last slot is the last of all 28 buckets.
    let start_27: usize = 16 * ((1usize << 27) - 1);
    assert_eq!(AppendOnlyVec::<u8>::locate(start_27), (27, 0));
    assert_eq!(AppendOnlyVec::<u8>::locate(start_27 - 1), (26, (16usize << 26) - 1));
    assert_eq!(AppendOnlyVec::<u8>::locate(0xFFFF_FFEF), (27, (16usize << 27) - 1));
}

#[test]
fn bucket_size_doubles() {
    assert_eq!(AppendOnlyVec::<u8>::bucket_size(0), 16);
    assert_eq!(AppendOnlyVec::<u8>::bucket_size(1), 32);
    assert_eq!(AppendOnlyVec::<u8>::bucket_size(5), 512);
    assert_eq!(AppendOnlyVec::<u8>::bucket_size(27), 16 << 27);
}

#[test]
fn push_then_get_reads_back_across_bucket_boundaries() {
    // Law: a read after a write gives back what was written; earlier entries keep theirs.
    let mut v: AppendOnlyVec<usize> = AppendOnlyVec::new();
    for i in 0..113 {
        assert_eq!(v.push(i * 7), i);
        assert_eq!(v.get(i), Some(&(i * 7)));
        assert_eq!(v.get(i + 1), None);
    }
    for i in 0..113 {
        assert_eq!(v.get(i), Some(&(i * 7)));
    }
    assert_eq!(v.count(), 113);
}

#[test]
fn push_bounded_with_zero_cap_never_pushes() {
    let mut v: AppendOnlyVec<u8> = AppendOnlyVec::new();
    assert_eq!(v.push_bounded(1, 0), None);
    assert_eq!(v.count(), 0);
    assert!(v.get(0).is_none());
}

#[test]
fn bounded_pushes_reach_cap_exactly() {
    // Law: k bounded pushes from empty leave min(k, cap) elements.
    let mut v: AppendOnlyVec<u8> = AppendOnlyVec::new();
    let mut successes = 0;
    for k in 0..40u8 {
        if v.push_bounded(k, 17).is_some() {
            successes += 1;
        }
    }
    assert_eq!(successes, 17);
    assert_eq!(v.count(), 17);
    assert_eq!(v.get(16), Some(&16));
}

#[test]
fn with_capacity_starts_empty_and_accepts_pushes() {
    let mut v: AppendOnlyVec<u16> = AppendOnlyVec::with_capacity(100);
    assert_eq!(v.count(), 0);
    for i in 0..100u16 {
        v.push(i);
    }
    assert_eq!(v.get(99), Some(&99));
    let big: AppendOnlyVec<u16> = AppendOnlyVec::with_capacity(5000);
    assert_eq!(big.count(), 0);
    let zero: AppendOnlyVec<u16> = AppendOnlyVec::with_capacity(0);
    assert_eq!(zero.count(), 0);
}

#[test]
fn default_is_empty() {
    let v: AppendOnlyVec<String> = AppendOnlyVec::default();
    assert_eq!(v.count(), 0);
}

#[test]
fn iter_captures_bound_and_stops() {
    let mut v: AppendOnlyVec<u32> = AppendOnlyVec::new();
    v.push(10);
    v.push(20);
    let mut it = v.iter();
    assert_eq!(it.next(), Some((0, &10)));
    assert_eq!(it.next(), Some((1, &20)));
    assert_eq!(it.next(), None);
    assert_eq!(it.next(), None);
}

#[test]
fn index_reads_stored_elements() {
    let mut v: AppendOnlyVec<u32> = AppendOnlyVec::new();
    for i in 0..40u32 {
        v.push(i * 3);
    }
    assert_eq!(*v.index(0), 0);
    assert_eq!(*v.index(16), 48);
    assert_eq!(*v.index(39), 117);
}
