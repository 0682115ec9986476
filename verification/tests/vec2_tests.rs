use std::cell::Cell;
use std::cmp::Ordering;
use std::rc::Rc;

use vec2::Vec2;

/// Element that tallies how many times it was dropped, for checking that the
/// container destroys each stored value exactly once.
struct DropTally(Rc<Cell<usize>>);

impl Drop for DropTally {
    fn drop(&mut self) {
        self.0.set(self.0.get() + 1);
    }
}

#[test]
fn test_push() {
    let mut v = Vec2::new();
    v.push(1, 2);
    assert_eq!(1, v.len());
    assert_eq!(Some((&1, &2)), v.get(0));
}

#[test]
fn test_push_many() {
    let mut v = Vec2::new();
    for i in 0..100 {
        v.push(i.to_string(), i * 2);
    }
    assert_eq!(100, v.len());
    for i in 0..100 {
        assert_eq!(Some((&i.to_string(), &(i * 2))), v.get(i));
    }
}

#[test]
fn test_into_iter() {
    let mut v = Vec2::new();
    for i in 0..100 {
        v.push(i.to_string(), i * 2);
    }
    let mut it = v.into_iter();
    let mut i: usize = 0;
    while let Some((a, b)) = it.next() {
        assert_eq!(i.to_string(), a);
        assert_eq!(i * 2, b);
        i += 1;
    }
    assert_eq!(100, i);
}

#[test]
fn test_sort_insertion_by() {
    let mut v = Vec2::new();
    v.push(1, 2);
    v.push(3, 4);
    v.push(2, 3);
    v.push(3, 2);
    v.sort_insertion_by(|(xa, xb), (ya, yb)| (xa, xb).cmp(&(ya, yb)));
    assert_eq!(Some((&1, &2)), v.get(0));
    assert_eq!(Some((&2, &3)), v.get(1));
    assert_eq!(Some((&3, &2)), v.get(2));
    assert_eq!(Some((&3, &4)), v.get(3));
}

#[test]
fn sort_by_orders_pairs_lexicographically() {
    let mut v = Vec2::new();
    v.push(1, 2);
    v.push(3, 4);
    v.push(2, 3);
    v.push(3, 2);
    v.sort_by(|(xa, xb), (ya, yb)| (xa, xb).cmp(&(ya, yb)));
    assert_eq!(Some((&1, &2)), v.get(0));
    assert_eq!(Some((&2, &3)), v.get(1));
    assert_eq!(Some((&3, &2)), v.get(2));
    assert_eq!(Some((&3, &4)), v.get(3));
}

#[test]
fn sort_by_orders_long_sequences() {
    let mut v = Vec2::new();
    for i in 0..50u64 {
        v.push(49 - i, i);
    }
    v.sort_by(|(xa, xb), (ya, yb)| (xa, xb).cmp(&(ya, yb)));
    for i in 0..50u64 {
        assert_eq!(Some((&i, &(49 - i))), v.get(i as usize));
    }
}

#[test]
fn new_container_is_empty() {
    let mut v: Vec2<u8, u8> = Vec2::new();
    assert!(v.is_empty());
    assert_eq!(v.len(), 0);
    assert_eq!(v.capacity(), 0);
    assert_eq!(v.get(0), None);
    assert_eq!(v.pop(), None);
}

#[test]
fn with_capacity_pushes_never_reallocate() {
    let cap: usize = 17;
    let mut v = Vec2::with_capacity(cap);
    assert_eq!(v.capacity(), cap);
    assert_eq!(v.len(), 0);
    for i in 0..cap {
        v.push(i, i as u64);
        assert_eq!(v.capacity(), cap);
    }
    assert_eq!(v.len(), cap);
    v.push(99, 99);
    assert!(v.capacity() > cap);
}

#[test]
fn growth_doubles_with_size_class_floor() {
    // a (u32, u32) pair is 8 bytes: the first growth reserves 4 slots
    let mut v: Vec2<u32, u32> = Vec2::new();
    v.push(0, 0);
    assert_eq!(v.capacity(), 4);
    for i in 1..5u32 {
        v.push(i, i);
    }
    assert_eq!(v.capacity(), 8);
    // a pair over 1024 bytes starts from a single slot
    let mut big: Vec2<[u8; 2048], u8> = Vec2::new();
    big.push([0; 2048], 1);
    assert_eq!(big.capacity(), 1);
    big.push([1; 2048], 2);
    assert_eq!(big.capacity(), 2);
}

#[test]
fn reserve_makes_room_without_changing_pairs() {
    let mut v = Vec2::new();
    v.push("x".to_string(), 1);
    v.reserve(10);
    assert!(v.capacity() >= 11);
    assert_eq!(v.len(), 1);
    assert_eq!(v.get(0), Some((&"x".to_string(), &1)));
}

#[test]
fn remove_shifts_following_pairs_down() {
    let mut v = Vec2::new();
    for i in 0..5u32 {
        v.push(i, i * 10);
    }
    let removed = v.remove(1);
    assert_eq!(removed, (1, 10));
    assert_eq!(v.len(), 4);
    assert_eq!(v.get(0), Some((&0, &0)));
    assert_eq!(v.get(1), Some((&2, &20)));
    assert_eq!(v.get(2), Some((&3, &30)));
    assert_eq!(v.get(3), Some((&4, &40)));
}

#[test]
fn remove_first_of_two() {
    let mut v = Vec2::new();
    v.push(1, "a".to_string());
    v.push(2, "b".to_string());
    let removed = v.remove(0);
    assert_eq!(removed, (1, "a".to_string()));
    assert_eq!(v.len(), 1);
    assert_eq!(v.get(0), Some((&2, &"b".to_string())));
}

#[test]
fn pop_returns_last_pushed_pair() {
    let mut v: Vec2<i8, i8> = Vec2::new();
    assert_eq!(v.pop(), None);
    v.push(7, 8);
    assert_eq!(v.pop(), Some((7, 8)));
    assert!(v.is_empty());
    assert_eq!(v.pop(), None);
}

#[test]
fn clear_keeps_capacity() {
    let mut v = Vec2::with_capacity(8);
    for i in 0..3u16 {
        v.push(i, i);
    }
    let cap_before = v.capacity();
    v.clear();
    assert!(v.is_empty());
    assert_eq!(v.len(), 0);
    assert_eq!(v.capacity(), cap_before);
    assert_eq!(v.capacity(), 8);
}

#[test]
fn into_iter_yields_what_get_returned() {
    let mut v = Vec2::new();
    for i in 0..10u64 {
        v.push(i, 100 - i);
    }
    let mut expected = Vec::new();
    for i in 0..v.len() {
        let (a, b) = v.get(i).unwrap();
        expected.push((*a, *b));
    }
    let mut it = v.into_iter();
    let mut produced = Vec::new();
    while let Some(pair) = it.next() {
        produced.push(pair);
    }
    assert_eq!(produced, expected);
}

#[test]
fn iter_borrows_pairs_in_order_and_restarts() {
    let mut v = Vec2::new();
    v.push(10, 'x');
    v.push(20, 'y');
    let mut it = v.iter();
    assert_eq!(it.next(), Some((&10, &'x')));
    assert_eq!(it.next(), Some((&20, &'y')));
    assert_eq!(it.next(), None);
    // a fresh iterator starts over; the container is untouched
    let mut again = v.iter();
    assert_eq!(again.next(), Some((&10, &'x')));
    assert_eq!(v.len(), 2);
}

#[test]
fn drop_destroys_each_element_exactly_once() {
    let a_drops = Rc::new(Cell::new(0));
    let b_drops = Rc::new(Cell::new(0));
    {
        let mut v = Vec2::new();
        for _ in 0..6 {
            v.push(DropTally(a_drops.clone()), DropTally(b_drops.clone()));
        }
        assert_eq!(a_drops.get(), 0);
        assert_eq!(b_drops.get(), 0);
    }
    assert_eq!(a_drops.get(), 6);
    assert_eq!(b_drops.get(), 6);
}

#[test]
fn abandoned_consuming_iterator_drops_the_rest() {
    let a_drops = Rc::new(Cell::new(0));
    let b_drops = Rc::new(Cell::new(0));
    {
        let mut v = Vec2::new();
        for _ in 0..5 {
            v.push(DropTally(a_drops.clone()), DropTally(b_drops.clone()));
        }
        let mut it = v.into_iter();
        let first = it.next();
        assert!(first.is_some());
        drop(first);
        assert_eq!(a_drops.get(), 1);
        assert_eq!(b_drops.get(), 1);
        // the iterator is abandoned here with four pairs unyielded
    }
    assert_eq!(a_drops.get(), 5);
    assert_eq!(b_drops.get(), 5);
}

#[test]
fn clear_destroys_stored_elements() {
    let a_drops = Rc::new(Cell::new(0));
    let b_drops = Rc::new(Cell::new(0));
    let mut v = Vec2::new();
    for _ in 0..4 {
        v.push(DropTally(a_drops.clone()), DropTally(b_drops.clone()));
    }
    v.clear();
    assert_eq!(a_drops.get(), 4);
    assert_eq!(b_drops.get(), 4);
    assert!(v.is_empty());
}

#[test]
fn clone_copies_pairs_and_sizes_to_length() {
    let mut v = Vec2::with_capacity(4);
    v.push(1, "one".to_string());
    v.push(2, "two".to_string());
    let c = v.clone();
    assert_eq!(c.len(), 2);
    // the copy is sized for its pairs, not for the source's spare room
    assert_eq!(c.capacity(), 2);
    assert_eq!(v.capacity(), 4);
    assert_eq!(c.get(0), Some((&1, &"one".to_string())));
    assert_eq!(c.get(1), Some((&2, &"two".to_string())));
    // the copy is independent
    v.remove(0);
    assert_eq!(c.len(), 2);
}

#[test]
fn default_is_empty() {
    let v: Vec2<u32, u32> = Default::default();
    assert!(v.is_empty());
    assert_eq!(v.capacity(), 0);
}

#[test]
fn bbb_ptr_exposes_the_b_column() {
    let mut v = Vec2::new();
    v.push(1u8, 10u32);
    v.push(2u8, 20u32);
    let column = v.bbb_ptr();
    assert_eq!(column, &[10u32, 20u32][..]);
}

#[test]
fn sort_by_handles_reversing_comparator() {
    let mut v = Vec2::new();
    for i in 0..25u32 {
        v.push(i, i);
    }
    v.sort_by(|x, y| match (x.0, x.1).cmp(&(y.0, y.1)) {
        Ordering::Less => Ordering::Greater,
        Ordering::Equal => Ordering::Equal,
        Ordering::Greater => Ordering::Less,
    });
    for i in 0..25u32 {
        assert_eq!(v.get(i as usize), Some((&(24 - i), &(24 - i))));
    }
}

#[test]
fn sort_insertion_keeps_equal_pairs_in_order() {
    let mut v = Vec2::new();
    v.push(1, 'a');
    v.push(0, 'b');
    v.push(1, 'c');
    v.push(0, 'd');
    // the comparator looks at the key only: 'a'..'d' ride along
    v.sort_insertion_by(|x, y| x.0.cmp(y.0));
    assert_eq!(v.get(0), Some((&0, &'b')));
    assert_eq!(v.get(1), Some((&0, &'d')));
    assert_eq!(v.get(2), Some((&1, &'a')));
    assert_eq!(v.get(3), Some((&1, &'c')));
}

#[test]
fn sort_by_keeps_equal_pairs_in_order_at_any_length() {
    // 32 pairs: long enough for the scratch-buffer merge path
    let mut v = Vec2::new();
    for i in 0..32u32 {
        v.push(i % 4, i);
    }
    v.sort_by(|x, y| x.0.cmp(y.0));
    let mut last_key: u32 = 0;
    let mut last_payload: u32 = 0;
    for i in 0..32 {
        let (k, p) = v.get(i).unwrap();
        if i > 0 {
            assert!(last_key <= *k);
            if last_key == *k {
                // within one key, payloads keep their push order
                assert!(last_payload < *p);
            }
        }
        last_key = *k;
        last_payload = *p;
    }
}
