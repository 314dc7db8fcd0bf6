use cpu_pool::ledger::{
    add_cpu_access, extend_entry_lock, find_placement, lock_entry, position, release_entry,
    unlock_entry, ActualBufferChunk,
};

fn chunk(index: usize, len: usize) -> ActualBufferChunk {
    ActualBufferChunk { index, len, num_cpu_accesses: 1, num_gpu_accesses: 0 }
}

fn counts(chunks: &Vec<ActualBufferChunk>) -> Vec<(usize, usize, usize, usize)> {
    chunks.iter().map(|c| (c.index, c.len, c.num_cpu_accesses, c.num_gpu_accesses)).collect()
}

#[test]
fn placement_in_an_empty_ledger() {
    let l: Vec<ActualBufferChunk> = vec![];
    assert_eq!(find_placement(&l, 0, 3, 3), Some(0));
    assert_eq!(find_placement(&l, 0, 4, 3), None);
    assert_eq!(find_placement(&l, 2, 1, 3), Some(2));
    assert_eq!(find_placement(&l, 2, 2, 3), Some(0));
    assert_eq!(find_placement(&l, 3, 3, 3), Some(0));
    assert_eq!(find_placement(&l, 0, 0, 0), Some(0));
    assert_eq!(find_placement(&l, 0, 1, 0), None);
}

#[test]
fn placement_at_the_cursor() {
    let l = vec![chunk(0, 2), chunk(5, 2)];
    // Right behind a chunk.
    assert_eq!(find_placement(&l, 2, 3, 10), Some(2));
    // Would run into the chunk at 5.
    assert_eq!(find_placement(&l, 2, 4, 10), None);
    // The cursor stands inside the chunk at 5.
    assert_eq!(find_placement(&l, 6, 1, 10), None);
    // The cursor stands at the start of the chunk at 5.
    assert_eq!(find_placement(&l, 5, 1, 10), None);
    assert_eq!(find_placement(&l, 7, 3, 10), Some(7));
    assert_eq!(find_placement(&l, 7, 4, 10), None);
}

#[test]
fn placement_at_the_start_is_coarse() {
    let l = vec![chunk(3, 1)];
    assert_eq!(find_placement(&l, 8, 3, 8), Some(0));
    assert_eq!(find_placement(&l, 8, 4, 8), None);
    let l = vec![chunk(4, 1)];
    assert_eq!(find_placement(&l, 8, 4, 8), Some(0));
    // Sums that do not fit the machine word are no room.
    assert_eq!(find_placement(&l, 8, usize::MAX, 8), None);
    assert_eq!(find_placement(&l, 9, 1, 8), Some(0));
}

#[test]
fn position_finds_the_first_chunk_at_an_index() {
    let l = vec![chunk(4, 1), chunk(0, 2), chunk(2, 2)];
    assert_eq!(position(&l, 0), Some(1));
    assert_eq!(position(&l, 4), Some(0));
    assert_eq!(position(&l, 2), Some(2));
    assert_eq!(position(&l, 1), None);
    let l = vec![chunk(0, 0), chunk(0, 2)];
    assert_eq!(position(&l, 0), Some(0));
}

#[test]
fn holder_counts_go_up_and_down() {
    let mut l = vec![chunk(0, 2), chunk(2, 3)];
    add_cpu_access(&mut l, 2);
    assert_eq!(counts(&l), vec![(0, 2, 1, 0), (2, 3, 2, 0)]);
    assert!(lock_entry(&mut l, 2));
    assert_eq!(counts(&l), vec![(0, 2, 1, 0), (2, 3, 2, 1)]);
    assert!(!lock_entry(&mut l, 2));
    assert_eq!(counts(&l), vec![(0, 2, 1, 0), (2, 3, 2, 1)]);
    extend_entry_lock(&mut l, 2);
    assert_eq!(counts(&l), vec![(0, 2, 1, 0), (2, 3, 2, 2)]);
    unlock_entry(&mut l, 2);
    unlock_entry(&mut l, 2);
    assert_eq!(counts(&l), vec![(0, 2, 1, 0), (2, 3, 2, 0)]);
    release_entry(&mut l, 2);
    assert_eq!(counts(&l), vec![(0, 2, 1, 0), (2, 3, 1, 0)]);
    release_entry(&mut l, 0);
    assert_eq!(counts(&l), vec![(2, 3, 1, 0)]);
    release_entry(&mut l, 2);
    assert_eq!(counts(&l), vec![]);
}

#[test]
fn granted_chunks_never_overlap() {
    let mut l: Vec<ActualBufferChunk> = vec![];
    let mut cursor = 0;
    let capacity = 16;
    let lens = [3usize, 1, 4, 1, 5, 2, 6, 1, 1];
    for (step, n) in lens.iter().enumerate() {
        if let Some(at) = find_placement(&l, cursor, *n, capacity) {
            for c in l.iter() {
                assert!(c.index + c.len <= at || at + n <= c.index);
            }
            assert!(at + n <= capacity);
            l.push(chunk(at, *n));
            cursor = at + n;
        }
        if step % 3 == 2 {
            let first = l[0].index;
            release_entry(&mut l, first);
        }
    }
    assert!(!l.is_empty());
}
