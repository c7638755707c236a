use chunked_list::chunk::Chunk;

#[test]
fn test_push_and_pop() {
    let mut chunk = Chunk::<u32, 4>::new();
    chunk.push(1);
    chunk.push(2);

    assert_eq!(*chunk.get(0).unwrap(), 1);
}

#[test]
fn chunk_push_pop_back_order() {
    let mut chunk = Chunk::<u32, 3>::new();
    assert_eq!(chunk.len(), 0);
    assert!(chunk.get(0).is_none());
    chunk.push(10);
    chunk.push(20);
    chunk.push(30);
    assert!(chunk.is_full_back());
    assert_eq!(chunk.len(), 3);
    assert_eq!(chunk.pop(), 30);
    assert_eq!(chunk.pop(), 20);
    assert_eq!(chunk.len(), 1);
    assert_eq!(*chunk.index(0), 10);
    assert!(chunk.get(1).is_none());
}

#[test]
fn chunk_front_fill_runs_backwards() {
    let mut chunk = Chunk::<u32, 3>::with_next(7);
    assert_eq!(chunk.next(), Some(7));
    assert_eq!(chunk.prev(), None);
    assert!(!chunk.is_full_front());
    chunk.push_front(1);
    chunk.push_front(2);
    chunk.push_front(3);
    assert!(chunk.is_full_front());
    assert!(chunk.is_full_back());
    assert_eq!(*chunk.get(0).unwrap(), 3);
    assert_eq!(*chunk.get(2).unwrap(), 1);
    assert_eq!(chunk.pop_front(), 3);
    assert_eq!(chunk.pop(), 1);
    assert_eq!(chunk.len(), 1);
    assert_eq!(*chunk.get(0).unwrap(), 2);
}

#[test]
fn chunk_links_and_new_front() {
    let mut chunk = Chunk::<u8, 2>::with_prev(4);
    assert_eq!(chunk.prev(), Some(4));
    assert_eq!(chunk.next(), None);
    chunk.set_next(Some(9));
    chunk.set_prev(None);
    assert_eq!(chunk.next(), Some(9));
    assert_eq!(chunk.prev(), None);
    let front = Chunk::<u8, 2>::new_front();
    assert!(front.is_full_back());
    assert!(!front.is_full_front());
    assert_eq!(front.len(), 0);
}

#[test]
fn chunk_get_mut_writes_through() {
    let mut chunk = Chunk::<u32, 4>::new();
    chunk.push(1);
    chunk.push(2);
    *chunk.get_mut(1).unwrap() = 20;
    *chunk.index_mut(0) += 5;
    assert!(chunk.get_mut(2).is_none());
    assert_eq!(*chunk.get(0).unwrap(), 6);
    assert_eq!(*chunk.get(1).unwrap(), 20);
}
