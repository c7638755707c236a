use chunked_list::list::ChunkedList;
use std::cell::Cell;
use std::collections::VecDeque;
use std::rc::Rc;

fn contents<const CAP: usize>(l: &ChunkedList<u32, CAP>) -> Vec<u32> {
    let mut out = Vec::new();
    let mut i = 0;
    while let Some(v) = l.get(i) {
        out.push(*v);
        i += 1;
    }
    out
}

#[test]
fn two_chunk_scenario_capacity_two() {
    let mut l = ChunkedList::<u32, 2>::new();
    l.push_back(1);
    l.push_back(2);
    l.push_back(3);
    assert_eq!(l.chunk_lengths(), vec![2, 1]);
    assert_eq!(contents(&l), vec![1, 2, 3]);
    assert_eq!(l.get(2), Some(&3));
    assert_eq!(l.pop_back(), Some(3));
    assert_eq!(l.chunk_lengths(), vec![2]);
    assert_eq!(contents(&l), vec![1, 2]);
    assert_eq!(l.pop_back(), Some(2));
    assert_eq!(l.pop_back(), Some(1));
    assert!(l.is_empty());
    assert_eq!(l.chunk_lengths(), Vec::<usize>::new());
    assert_eq!(l.pop_back(), None);
}

#[test]
fn front_then_back_scenario_capacity_three() {
    let mut l = ChunkedList::<u32, 3>::new();
    l.push_front(1);
    l.push_front(2);
    l.push_back(3);
    assert_eq!(l.get(0), Some(&2));
    assert_eq!(l.get(1), Some(&1));
    assert_eq!(l.get(2), Some(&3));
    assert_eq!(l.get(3), None);
    assert_eq!(l.len(), 3);
}

#[test]
fn back_end_is_a_stack() {
    let mut l = ChunkedList::<u32, 3>::new();
    let mut model: Vec<u32> = Vec::new();
    for round in 0..5u32 {
        for v in 0..(round * 3 + 2) {
            l.push_back(round * 100 + v);
            model.push(round * 100 + v);
        }
        for _ in 0..(round + 1) {
            assert_eq!(l.pop_back(), model.pop());
        }
    }
    while let Some(v) = model.pop() {
        assert_eq!(l.pop_back(), Some(v));
    }
    assert_eq!(l.pop_back(), None);
    assert_eq!(l.len(), 0);
}

#[test]
fn front_end_is_a_stack() {
    let mut l = ChunkedList::<u32, 2>::new();
    for v in 1..=7u32 {
        l.push_front(v);
    }
    assert_eq!(contents(&l), vec![7, 6, 5, 4, 3, 2, 1]);
    for v in (1..=7u32).rev() {
        assert_eq!(l.pop_front(), Some(v));
    }
    assert_eq!(l.pop_front(), None);
}

#[test]
fn interleaved_ends_match_a_deque() {
    let mut l = ChunkedList::<u32, 3>::new();
    let mut model: VecDeque<u32> = VecDeque::new();
    let mut seed: u32 = 12345;
    for step in 0..600u32 {
        seed = seed.wrapping_mul(1103515245).wrapping_add(12345);
        match (seed >> 16) % 5 {
            0 => {
                l.push_back(step);
                model.push_back(step);
            }
            1 => {
                l.push_front(step);
                model.push_front(step);
            }
            2 => assert_eq!(l.pop_back(), model.pop_back()),
            3 => assert_eq!(l.pop_front(), model.pop_front()),
            _ => {
                let i = (seed as usize) % (model.len() + 1);
                assert_eq!(l.get(i), model.get(i));
            }
        }
        assert_eq!(l.len(), model.len());
        let sizes = l.chunk_lengths();
        assert_eq!(sizes.iter().sum::<usize>(), model.len());
        for (k, s) in sizes.iter().enumerate() {
            assert!(*s >= 1 && *s <= 3);
            if k > 0 && k + 1 < sizes.len() {
                assert_eq!(*s, 3);
            }
        }
    }
    assert_eq!(contents(&l), model.iter().copied().collect::<Vec<u32>>());
}

#[test]
fn len_counts_reachable_elements() {
    let mut l = ChunkedList::<u32, 4>::new();
    for v in 0..10u32 {
        l.push_back(v);
    }
    l.pop_front();
    l.pop_back();
    l.push_front(99);
    let some = (0..l.len() + 3).filter(|i| l.get(*i).is_some()).count();
    assert_eq!(l.len(), 9);
    assert_eq!(some, l.len());
}

#[test]
fn interior_chunks_stay_full() {
    let mut l = ChunkedList::<u32, 4>::new();
    for v in 0..9u32 {
        l.push_front(v);
    }
    for v in 0..9u32 {
        l.push_back(v);
    }
    assert_eq!(l.chunk_lengths(), vec![1, 4, 4, 4, 4, 1]);
    for _ in 0..3 {
        l.pop_front();
        l.pop_back();
    }
    let sizes = l.chunk_lengths();
    assert_eq!(sizes.iter().sum::<usize>(), 12);
    for k in 1..sizes.len() - 1 {
        assert_eq!(sizes[k], 4);
    }
}

#[test]
fn emptied_list_behaves_like_new() {
    let mut used = ChunkedList::<u32, 2>::new();
    for v in 0..5u32 {
        used.push_back(v);
    }
    while used.pop_front().is_some() {}
    assert_eq!(used.chunk_lengths(), Vec::<usize>::new());
    let mut fresh = ChunkedList::<u32, 2>::new();
    for v in [7u32, 8, 9] {
        used.push_back(v);
        fresh.push_back(v);
        assert_eq!(used.chunk_lengths(), fresh.chunk_lengths());
    }
    assert_eq!(used.chunk_lengths(), vec![2, 1]);
    assert_eq!(contents(&used), contents(&fresh));
}

#[test]
fn first_push_front_allocates_one_chunk() {
    let mut l = ChunkedList::<u32, 3>::new();
    l.push_front(5);
    assert_eq!(l.chunk_lengths(), vec![1]);
    l.push_front(6);
    l.push_front(7);
    assert_eq!(l.chunk_lengths(), vec![3]);
    l.push_front(8);
    assert_eq!(l.chunk_lengths(), vec![1, 3]);
    assert_eq!(contents(&l), vec![8, 7, 6, 5]);
}

#[test]
fn get_mut_updates_one_element() {
    let mut l = ChunkedList::<u32, 2>::new();
    for v in 0..5u32 {
        l.push_back(v);
    }
    *l.get_mut(3).unwrap() = 30;
    assert!(l.get_mut(5).is_none());
    assert_eq!(contents(&l), vec![0, 1, 2, 30, 4]);
}

struct Counted {
    drops: Rc<Cell<usize>>,
}

impl Drop for Counted {
    fn drop(&mut self) {
        self.drops.set(self.drops.get() + 1);
    }
}

#[test]
fn dropping_the_list_drops_each_element_once() {
    let drops = Rc::new(Cell::new(0usize));
    let mut made = 0usize;
    {
        let mut l = ChunkedList::<Counted, 3>::new();
        for i in 0..20 {
            if i % 2 == 0 {
                l.push_back(Counted { drops: drops.clone() });
            } else {
                l.push_front(Counted { drops: drops.clone() });
            }
            made += 1;
        }
        let popped = l.pop_back();
        assert!(popped.is_some());
        drop(popped);
        assert_eq!(drops.get(), 1);
        drop(l.pop_front());
        assert_eq!(drops.get(), 2);
        assert_eq!(l.len(), 18);
    }
    assert_eq!(drops.get(), made);
}
