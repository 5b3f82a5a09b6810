use std::cell::Cell;
use std::rc::Rc;

use server::queue::ArrayQueue;
use server::CachePadded;

#[test]
fn capacity_four_round_trip() {
    let mut q: ArrayQueue<i32> = ArrayQueue::new(4);
    assert_eq!(q.push(1), Ok(()));
    assert_eq!(q.push(2), Ok(()));
    assert_eq!(q.push(3), Ok(()));
    assert_eq!(q.push(4), Ok(()));
    assert_eq!(q.push(5), Err(5));
    assert_eq!(q.pop(), Some(1));
    assert_eq!(q.push(6), Ok(()));
    assert_eq!(q.pop(), Some(2));
    assert_eq!(q.pop(), Some(3));
    assert_eq!(q.pop(), Some(4));
    assert_eq!(q.pop(), Some(6));
    assert_eq!(q.pop(), None);
}

#[test]
fn capacity_two_chars() {
    let mut q: ArrayQueue<char> = ArrayQueue::new(2);
    assert_eq!(q.push('A'), Ok(()));
    assert_eq!(q.push('B'), Ok(()));
    assert_eq!(q.push('C'), Err('C'));
    assert_eq!(q.pop(), Some('A'));
    assert_eq!(q.pop(), Some('B'));
    assert_eq!(q.pop(), None);
    assert_eq!(q.push('D'), Ok(()));
    assert_eq!(q.pop(), Some('D'));
}

#[test]
fn capacity_one() {
    let mut q: ArrayQueue<i32> = ArrayQueue::new(1);
    assert_eq!(q.push(42), Ok(()));
    assert_eq!(q.push(43), Err(43));
    assert_eq!(q.pop(), Some(42));
    assert_eq!(q.pop(), None);
}

#[test]
fn capacity_three_lap_span() {
    let mut q: ArrayQueue<i32> = ArrayQueue::new(3);
    assert_eq!(q.one_lap(), 4);
    assert_eq!(q.push(1), Ok(()));
    assert_eq!(q.push(2), Ok(()));
    assert_eq!(q.push(3), Ok(()));
    assert_eq!(q.push(4), Err(4));
    assert_eq!(q.pop(), Some(1));
    assert_eq!(q.pop(), Some(2));
    assert_eq!(q.pop(), Some(3));
    assert_eq!(q.pop(), None);
}

#[test]
fn lap_span_values() {
    let expected = [(1usize, 2usize), (2, 4), (3, 4), (4, 8), (5, 8), (7, 8), (8, 16), (100, 128)];
    for (cap, span) in expected {
        let q: ArrayQueue<u8> = ArrayQueue::new(cap);
        assert_eq!(q.one_lap(), span);
        assert_eq!(q.capacity(), cap);
    }
}

#[test]
fn empty_and_full_observations() {
    let mut q: ArrayQueue<u32> = ArrayQueue::new(3);
    assert!(q.is_empty());
    assert!(!q.is_full());
    assert_eq!(q.len(), 0);
    q.push(1).unwrap();
    assert!(!q.is_empty());
    assert!(!q.is_full());
    assert_eq!(q.len(), 1);
    q.push(2).unwrap();
    q.push(3).unwrap();
    assert!(q.is_full());
    assert_eq!(q.len(), 3);
    q.pop().unwrap();
    assert!(!q.is_full());
    assert_eq!(q.len(), 2);
}

#[test]
fn many_laps_keep_order() {
    let mut q: ArrayQueue<u64> = ArrayQueue::new(3);
    let mut next_in: u64 = 0;
    let mut next_out: u64 = 0;
    for round in 0..2000u64 {
        let pushes = round % 4;
        for _ in 0..pushes {
            match q.push(next_in) {
                Ok(()) => next_in += 1,
                Err(v) => assert_eq!(v, next_in),
            }
            assert!(q.len() <= q.capacity());
        }
        let pops = (round * 7) % 4;
        for _ in 0..pops {
            match q.pop() {
                Some(v) => {
                    assert_eq!(v, next_out);
                    next_out += 1;
                }
                None => assert_eq!(next_in, next_out),
            }
        }
        assert_eq!(q.len() as u64, next_in - next_out);
        assert_eq!(q.is_empty(), next_in == next_out);
        assert_eq!(q.is_full(), next_in - next_out == 3);
    }
    assert!(next_out > 1000);
}

#[test]
fn conservation_over_a_run() {
    let mut q: ArrayQueue<u32> = ArrayQueue::new(5);
    let mut pushed: Vec<u32> = Vec::new();
    let mut popped: Vec<u32> = Vec::new();
    let mut seed: u32 = 12345;
    for i in 0..500u32 {
        seed = seed.wrapping_mul(1103515245).wrapping_add(12345);
        if (seed >> 16) % 3 != 0 {
            if q.push(i).is_ok() {
                pushed.push(i);
            }
        } else if let Some(v) = q.pop() {
            popped.push(v);
        }
        assert!(q.len() <= 5);
        assert_eq!(q.len(), pushed.len() - popped.len());
        assert_eq!(&pushed[..popped.len()], &popped[..]);
    }
    while let Some(v) = q.pop() {
        popped.push(v);
    }
    assert_eq!(q.pop(), None);
    assert_eq!(pushed, popped);
}

#[test]
fn full_queue_refuses_then_accepts_after_pop() {
    let mut q: ArrayQueue<String> = ArrayQueue::new(2);
    q.push("a".to_string()).unwrap();
    q.push("b".to_string()).unwrap();
    assert_eq!(q.push("c".to_string()), Err("c".to_string()));
    assert_eq!(q.push("d".to_string()), Err("d".to_string()));
    assert_eq!(q.len(), 2);
    assert_eq!(q.pop(), Some("a".to_string()));
    assert_eq!(q.push("e".to_string()), Ok(()));
    assert_eq!(q.into_vec(), vec!["b".to_string(), "e".to_string()]);
}

#[test]
fn empty_queue_gives_nothing_then_the_value_pushed() {
    let mut q: ArrayQueue<u8> = ArrayQueue::new(4);
    assert_eq!(q.pop(), None);
    assert_eq!(q.pop(), None);
    assert!(q.is_empty());
    q.push(9).unwrap();
    assert_eq!(q.pop(), Some(9));
    assert_eq!(q.pop(), None);
}

#[test]
fn into_vec_after_wrapping() {
    let mut q: ArrayQueue<u32> = ArrayQueue::new(4);
    for i in 0..4 {
        q.push(i).unwrap();
    }
    assert_eq!(q.pop(), Some(0));
    assert_eq!(q.pop(), Some(1));
    assert_eq!(q.pop(), Some(2));
    q.push(4).unwrap();
    q.push(5).unwrap();
    q.push(6).unwrap();
    assert!(q.is_full());
    assert_eq!(q.into_vec(), vec![3, 4, 5, 6]);
}

struct Counted {
    drops: Rc<Cell<usize>>,
}

impl Drop for Counted {
    fn drop(&mut self) {
        self.drops.set(self.drops.get() + 1);
    }
}

#[test]
fn dropping_the_queue_destroys_each_value_once() {
    for left in 0..=4usize {
        let made = Rc::new(Cell::new(0usize));
        let drops = Rc::new(Cell::new(0usize));
        {
            let mut q: ArrayQueue<Counted> = ArrayQueue::new(4);
            // Go round the ring once so that the values left straddle the end.
            for _ in 0..3 {
                made.set(made.get() + 1);
                assert!(q.push(Counted { drops: drops.clone() }).is_ok());
                drop(q.pop());
            }
            for _ in 0..left {
                made.set(made.get() + 1);
                assert!(q.push(Counted { drops: drops.clone() }).is_ok());
            }
            assert_eq!(q.len(), left);
            made.set(made.get() + 1);
            let outcome = q.push(Counted { drops: drops.clone() });
            assert_eq!(outcome.is_err(), left == 4);
            drop(outcome);
            assert_eq!(q.len(), if left == 4 { 4 } else { left + 1 });
        }
        assert_eq!(made.get(), drops.get());
    }
}

#[test]
fn cache_padded_round_trip() {
    let p = CachePadded::new(17u64);
    assert_eq!(*p.get(), 17);
    assert_eq!(p.into_inner(), 17);
}
