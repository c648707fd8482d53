use chunk_vec::Chunk;

fn filled<const N: usize>(items: &[i32]) -> Chunk<i32, N> {
    let mut chunk = Chunk::<i32, N>::new();
    for item in items {
        assert!(chunk.push(*item).is_ok());
    }
    chunk
}

#[test]
fn new_chunk_is_empty() {
    let chunk = Chunk::<i32, 4>::new();
    assert_eq!(chunk.len(), 0);
    assert_eq!(chunk.cap(), 4);
    assert!(!chunk.is_full());
    assert!(chunk.as_slice().is_empty());
}

#[test]
fn length_follows_the_push_count() {
    let mut chunk = Chunk::<i32, 4>::new();
    for count in 1..=4usize {
        assert!(chunk.push(count as i32 * 10).is_ok());
        assert_eq!(chunk.len(), count);
        assert_eq!(chunk.is_full(), count == 4);
    }
    assert_eq!(chunk.as_slice(), &[10, 20, 30, 40]);
}

#[test]
fn fewer_pushes_than_capacity_leave_room() {
    let chunk = filled::<5>(&[7, 8]);
    assert_eq!(chunk.len(), 2);
    assert_eq!(chunk.cap(), 5);
    assert!(!chunk.is_full());
    assert_eq!(chunk.as_slice(), &[7, 8]);
}

#[test]
fn push_into_full_chunk_hands_item_back() {
    let mut chunk = filled::<2>(&[1, 2]);
    assert!(chunk.is_full());
    assert_eq!(chunk.push(3), Err(3));
    assert_eq!(chunk.len(), 2);
    assert_eq!(chunk.as_slice(), &[1, 2]);
    assert_eq!(chunk.push(4), Err(4));
    assert_eq!(chunk.as_slice(), &[1, 2]);
}

#[test]
fn push_hands_back_owned_item_unchanged() {
    let mut chunk = Chunk::<String, 1>::new();
    assert!(chunk.push(String::from("first")).is_ok());
    let back = chunk.push(String::from("second"));
    assert_eq!(back, Err(String::from("second")));
    assert_eq!(chunk.as_slice(), &[String::from("first")]);
}

#[test]
fn push_returns_the_stored_slot() {
    let mut chunk = Chunk::<i32, 3>::new();
    {
        let slot = chunk.push(5).unwrap();
        assert_eq!(*slot, 5);
        *slot = 6;
    }
    let slot = chunk.push(7).unwrap();
    *slot += 1;
    assert_eq!(chunk.as_slice(), &[6, 8]);
}

#[test]
fn zero_capacity_chunk_is_always_full() {
    let mut chunk = Chunk::<i32, 0>::new();
    assert_eq!(chunk.cap(), 0);
    assert_eq!(chunk.len(), 0);
    assert!(chunk.is_full());
    assert_eq!(chunk.push(1), Err(1));
    assert_eq!(chunk.len(), 0);
}

#[test]
fn insert_with_room_shifts_and_grows() {
    let mut chunk = filled::<3>(&[1, 2]);
    assert_eq!(chunk.len(), 2);
    let (slot, evicted) = chunk.insert(1, 99);
    assert_eq!(*slot, 99);
    assert_eq!(evicted, None);
    assert_eq!(chunk.as_slice(), &[1, 99, 2]);
    assert_eq!(chunk.len(), 3);
    assert!(chunk.is_full());
}

#[test]
fn insert_into_full_chunk_evicts_the_last() {
    let mut chunk = filled::<4>(&[1, 2, 3, 4]);
    let (slot, evicted) = chunk.insert(2, 9);
    assert_eq!(*slot, 9);
    assert_eq!(evicted, Some(4));
    assert_eq!(chunk.as_slice(), &[1, 2, 9, 3]);
    assert_eq!(chunk.len(), 4);
}

#[test]
fn insert_at_front_with_room() {
    let mut chunk = filled::<5>(&[1, 2, 3]);
    let (_, evicted) = chunk.insert(0, 0);
    assert_eq!(evicted, None);
    assert_eq!(chunk.as_slice(), &[0, 1, 2, 3]);
}

#[test]
fn insert_at_end_with_room_appends() {
    let mut chunk = filled::<5>(&[1, 2, 3]);
    let (_, evicted) = chunk.insert(3, 4);
    assert_eq!(evicted, None);
    assert_eq!(chunk.as_slice(), &[1, 2, 3, 4]);
}

#[test]
fn insert_into_empty_chunk() {
    let mut chunk = Chunk::<i32, 2>::new();
    let (_, evicted) = chunk.insert(0, 5);
    assert_eq!(evicted, None);
    assert_eq!(chunk.as_slice(), &[5]);
}

#[test]
fn insert_at_front_of_full_chunk() {
    let mut chunk = filled::<3>(&[1, 2, 3]);
    let (_, evicted) = chunk.insert(0, 0);
    assert_eq!(evicted, Some(3));
    assert_eq!(chunk.as_slice(), &[0, 1, 2]);
}

#[test]
fn insert_at_last_slot_of_full_chunk_replaces_it() {
    let mut chunk = filled::<3>(&[1, 2, 3]);
    let (_, evicted) = chunk.insert(2, 9);
    assert_eq!(evicted, Some(3));
    assert_eq!(chunk.as_slice(), &[1, 2, 9]);
}

#[test]
fn insert_into_full_chunk_of_one() {
    let mut chunk = filled::<1>(&[1]);
    let (slot, evicted) = chunk.insert(0, 2);
    assert_eq!(*slot, 2);
    assert_eq!(evicted, Some(1));
    assert_eq!(chunk.as_slice(), &[2]);
}

#[test]
fn insert_keeps_every_element_or_hands_it_out() {
    for len in 0..=4usize {
        for index in 0..=len.min(3) {
            let items: Vec<i32> = (0..len as i32).collect();
            let mut chunk = filled::<4>(&items);
            let mut model = items.clone();
            let expected_evicted = if len == 4 { model.pop() } else { None };
            model.insert(index, 100);
            let (slot, evicted) = chunk.insert(index, 100);
            assert_eq!(*slot, 100);
            assert_eq!(evicted, expected_evicted);
            assert_eq!(chunk.as_slice(), model.as_slice());
        }
    }
}

#[test]
fn insert_returns_the_stored_slot() {
    let mut chunk = filled::<3>(&[1, 2]);
    let (slot, _) = chunk.insert(1, 5);
    *slot = 6;
    assert_eq!(chunk.as_slice(), &[1, 6, 2]);
}

#[test]
fn insert_moves_owned_values() {
    let mut chunk = Chunk::<String, 2>::new();
    assert!(chunk.push(String::from("a")).is_ok());
    assert!(chunk.push(String::from("b")).is_ok());
    let (_, evicted) = chunk.insert(0, String::from("c"));
    assert_eq!(evicted, Some(String::from("b")));
    assert_eq!(chunk.as_slice(), &[String::from("c"), String::from("a")]);
}

#[test]
fn mutable_slice_writes_reach_the_chunk() {
    let mut chunk = filled::<4>(&[1, 2, 3]);
    {
        let slice = chunk.as_mut_slice();
        assert_eq!(slice.len(), 3);
        slice[0] = 10;
        slice[2] = 30;
    }
    assert_eq!(chunk.as_slice(), &[10, 2, 30]);
    assert_eq!(chunk.len(), 3);
}

#[test]
fn mutable_slice_covers_only_what_is_held() {
    let mut chunk = filled::<8>(&[1, 2]);
    assert_eq!(chunk.as_mut_slice().len(), 2);
    assert_eq!(chunk.as_slice().len(), 2);
}

#[test]
fn chunk_reads_as_a_slice() {
    let chunk = filled::<4>(&[3, 1, 2]);
    assert_eq!(chunk[0], 3);
    assert_eq!(chunk.iter().sum::<i32>(), 6);
    assert_eq!(chunk.first(), Some(&3));
    assert_eq!(chunk.last(), Some(&2));
    let slice: &[i32] = &chunk;
    assert_eq!(slice, &[3, 1, 2]);
}

#[test]
fn chunk_writes_as_a_slice() {
    let mut chunk = filled::<4>(&[3, 1, 2]);
    chunk[1] = 7;
    chunk.sort();
    assert_eq!(chunk.as_slice(), &[2, 3, 7]);
    assert_eq!(chunk.len(), 3);
}
