use cpu_pool::error::{AccessError, DeviceMemoryAllocError, OomError};
use cpu_pool::families::Sharing;
use cpu_pool::pool::{CpuBufferPool, CpuBufferPoolSubbuffer};
use cpu_pool::usage::BufferUsage;

#[test]
fn basic_create() {
    let _ = CpuBufferPool::<u8>::upload();
}

#[test]
fn reserve() {
    let mut pool = CpuBufferPool::<u8>::upload();
    assert_eq!(pool.capacity(), 0);

    pool.reserve(83).unwrap();
    assert_eq!(pool.capacity(), 83);
}

#[test]
fn capacity_increase() {
    let mut pool = CpuBufferPool::<i32>::upload();
    assert_eq!(pool.capacity(), 0);

    let _ = pool.next(12).unwrap();
    let first_cap = pool.capacity();
    assert!(first_cap >= 1);

    for _ in 0..first_cap + 5 {
        // The sub-buffer is never given back.
        let _ = pool.next(12).unwrap();
    }

    assert!(pool.capacity() > first_cap);
}

#[test]
fn reuse_subbuffers() {
    let mut pool = CpuBufferPool::<i32>::upload();
    assert_eq!(pool.capacity(), 0);

    let mut capacity = None;
    for _ in 0..64 {
        let h = pool.next(12).unwrap();
        h.release(&mut pool);

        let new_cap = pool.capacity();
        assert!(new_cap >= 1);
        match capacity {
            None => capacity = Some(new_cap),
            Some(c) => assert_eq!(c, new_cap),
        }
    }
}

#[test]
fn end_to_end_one_byte_elements() {
    let mut pool = CpuBufferPool::<u8>::upload();
    let first = pool.next(1).unwrap();
    assert_eq!(pool.capacity(), 3);
    let first_cap = pool.capacity();
    for _ in 0..first_cap + 5 {
        let _ = pool.next(2).unwrap();
    }
    assert!(pool.capacity() > first_cap);
    assert!(pool.is_live(&first));

    let mut pool = CpuBufferPool::<u8>::upload();
    let h = pool.next(1).unwrap();
    h.release(&mut pool);
    let reached = pool.capacity();
    for _ in 0..64 {
        let h = pool.next(1).unwrap();
        h.release(&mut pool);
        assert_eq!(pool.capacity(), reached);
    }
}

#[test]
fn upload_and_download_settings() {
    let up = CpuBufferPool::<u32>::upload();
    assert_eq!(up.usage(), BufferUsage::transfer_source());
    assert!(up.usage().transfer_source);
    assert!(!up.usage().transfer_destination);
    let down = CpuBufferPool::<u32>::download();
    assert_eq!(down.usage(), BufferUsage::transfer_destination());
    assert!(!down.usage().transfer_source);
    assert!(matches!(up.sharing(), Sharing::Exclusive));
    let raw = CpuBufferPool::<u32>::raw(4, BufferUsage::none(), vec![]);
    assert_eq!(raw.usage(), BufferUsage::none());
    assert_eq!(raw.capacity(), 0);
}

#[test]
fn sharing_follows_the_queue_families() {
    let none = CpuBufferPool::<u8>::new(BufferUsage::none(), vec![]);
    assert!(matches!(none.sharing(), Sharing::Exclusive));
    let one = CpuBufferPool::<u8>::new(BufferUsage::none(), vec![7]);
    assert!(matches!(one.sharing(), Sharing::Exclusive));
    let two = CpuBufferPool::<u8>::new(BufferUsage::none(), vec![7, 2]);
    match two.sharing() {
        Sharing::Concurrent(ids) => assert_eq!(ids, vec![7, 2]),
        Sharing::Exclusive => panic!("two families share concurrently"),
    }
    let six = CpuBufferPool::<u8>::new(BufferUsage::none(), vec![5, 4, 3, 2, 1, 0]);
    match six.sharing() {
        Sharing::Concurrent(ids) => assert_eq!(ids, vec![5, 4, 3, 2, 1, 0]),
        Sharing::Exclusive => panic!("six families share concurrently"),
    }
}

#[test]
fn reserve_keeps_a_large_enough_buffer() {
    let mut pool = CpuBufferPool::<u16>::upload();
    pool.reserve(10).unwrap();
    let h = pool.try_next(5).unwrap();
    pool.reserve(4).unwrap();
    assert_eq!(pool.capacity(), 10);
    pool.reserve(10).unwrap();
    assert_eq!(pool.capacity(), 10);
    // Still the same buffer: the next chunk follows the first.
    let g = pool.try_next(6).unwrap();
    assert_eq!(g.index(), 1);
    assert_eq!(g.inner(&pool).buffer, h.inner(&pool).buffer);
}

#[test]
fn reserve_grows_to_exactly_what_is_asked() {
    let mut pool = CpuBufferPool::<u16>::upload();
    pool.reserve(0).unwrap();
    assert_eq!(pool.capacity(), 0);
    pool.reserve(10).unwrap();
    assert_eq!(pool.capacity(), 10);
    let old = pool.try_next(5).unwrap();
    pool.reserve(11).unwrap();
    assert_eq!(pool.capacity(), 11);
    // The new buffer starts empty; the old sub-buffer is still valid.
    let new = pool.try_next(6).unwrap();
    assert_eq!(new.index(), 0);
    assert_eq!(new.inner(&pool).buffer, 2);
    assert_eq!(old.inner(&pool).buffer, 1);
    assert!(pool.is_live(&old));
    assert_eq!(old.read(&pool), vec![Some(5)]);
    old.release(&mut pool);
    assert!(pool.is_live(&new));
}

#[test]
fn reserve_reports_sizes_that_cannot_be_counted() {
    let mut pool = CpuBufferPool::<u32>::upload();
    assert_eq!(
        pool.reserve(usize::MAX),
        Err(DeviceMemoryAllocError::OomError(OomError::OutOfDeviceMemory))
    );
    assert_eq!(pool.capacity(), 0);
    assert_eq!(
        pool.reserve(usize::MAX / 4 + 1),
        Err(DeviceMemoryAllocError::OomError(OomError::OutOfDeviceMemory))
    );
    pool.reserve(2).unwrap();
    assert_eq!(
        pool.reserve(usize::MAX),
        Err(DeviceMemoryAllocError::OomError(OomError::OutOfDeviceMemory))
    );
    assert_eq!(pool.capacity(), 2);
}

#[test]
fn reserve_reports_the_host_out_of_memory() {
    let mut pool = CpuBufferPool::<u8>::upload();
    assert_eq!(
        pool.reserve(usize::MAX),
        Err(DeviceMemoryAllocError::OomError(OomError::OutOfHostMemory))
    );
    assert_eq!(pool.capacity(), 0);
}

#[test]
fn install_buffer_without_memory_changes_nothing() {
    let mut pool = CpuBufferPool::<u8>::upload();
    assert_eq!(
        pool.install_buffer(Vec::new(), false, 4),
        Err(DeviceMemoryAllocError::OomError(OomError::OutOfHostMemory))
    );
    assert_eq!(pool.capacity(), 0);
    assert_eq!(pool.install_buffer(Vec::new(), true, 4), Ok(()));
    assert_eq!(pool.capacity(), 4);
}

#[test]
fn try_next_on_a_pool_without_buffer() {
    let mut pool = CpuBufferPool::<u8>::upload();
    assert!(pool.try_next(1).is_none());
    assert_eq!(pool.capacity(), 0);
}

#[test]
fn first_chunk_grows_to_three_times_its_length() {
    let mut pool = CpuBufferPool::<u8>::upload();
    let h = pool.chunk(vec![1, 2, 3, 4, 5]).unwrap();
    assert_eq!(pool.capacity(), 15);
    assert_eq!(h.index(), 0);
    assert_eq!(h.len(), 5);
    assert_eq!(h.read(&pool), vec![Some(1), Some(2), Some(3), Some(4), Some(5)]);

    let mut pool = CpuBufferPool::<u8>::upload();
    let _ = pool.next(9).unwrap();
    assert_eq!(pool.capacity(), 3);
}

#[test]
fn growth_doubles_the_capacity_per_element() {
    let mut pool = CpuBufferPool::<u8>::upload();
    pool.reserve(4).unwrap();
    let _a = pool.chunk(vec![1, 2, 3]).unwrap();
    assert_eq!(pool.capacity(), 4);
    // No room for two at the cursor, and the start is taken: 2 * (2 * 4).
    let b = pool.chunk(vec![4, 5]).unwrap();
    assert_eq!(pool.capacity(), 16);
    assert_eq!(b.index(), 0);
    assert_eq!(b.inner(&pool).buffer, 1);
}

#[test]
fn growth_is_never_less_than_three_times_the_chunk() {
    let mut pool = CpuBufferPool::<u8>::upload();
    pool.reserve(0).unwrap();
    let _ = pool.chunk(vec![1, 2]).unwrap();
    assert_eq!(pool.capacity(), 6);

    let mut pool = CpuBufferPool::<u8>::upload();
    pool.reserve(1).unwrap();
    let _ = pool.chunk(vec![1, 2]).unwrap();
    assert_eq!(pool.capacity(), 6);
}

#[test]
fn empty_chunk_needs_a_buffer_only() {
    let mut pool = CpuBufferPool::<u8>::upload();
    let h = pool.chunk(vec![]).unwrap();
    assert_eq!(pool.capacity(), 0);
    assert_eq!(h.len(), 0);
    assert_eq!(h.size(&pool), 0);
    assert_eq!(h.read(&pool), vec![]);
}

#[test]
fn chunks_follow_the_cursor_and_wrap() {
    let mut pool = CpuBufferPool::<u8>::upload();
    pool.reserve(6).unwrap();
    let a = pool.chunk(vec![1, 2]).unwrap();
    let b = pool.chunk(vec![3, 4]).unwrap();
    let c = pool.chunk(vec![5, 6]).unwrap();
    assert_eq!((a.index(), b.index(), c.index()), (0, 2, 4));
    assert!(pool.try_next(7).is_none());
    a.release(&mut pool);
    // The cursor stands at the end: the chunk wraps to the start.
    let d = pool.chunk(vec![7, 8]).unwrap();
    assert_eq!(d.index(), 0);
    assert_eq!(pool.capacity(), 6);
    // The cursor stands at 2, inside nothing, but `b` starts there.
    assert!(pool.try_next(9).is_none());
    b.release(&mut pool);
    let e = pool.try_next(9).unwrap();
    assert_eq!(e.index(), 2);
    assert_eq!(e.read(&pool), vec![Some(9)]);
    assert_eq!(d.read(&pool), vec![Some(7), Some(8)]);
    assert_eq!(c.read(&pool), vec![Some(5), Some(6)]);
}

#[test]
fn wrap_is_refused_by_any_chunk_that_starts_before_the_length() {
    let mut pool = CpuBufferPool::<u8>::upload();
    pool.reserve(8).unwrap();
    let a = pool.chunk(vec![0, 0, 0]).unwrap();
    let b = pool.chunk(vec![1]).unwrap();
    let c = pool.chunk(vec![2, 2, 2, 2]).unwrap();
    assert_eq!((a.index(), b.index(), c.index()), (0, 3, 4));
    a.release(&mut pool);
    c.release(&mut pool);
    // Elements 0..3 and 4..8 are free, the cursor stands at 8.
    // A chunk of 3 fits at the start: `b` starts at 3.
    // A chunk of 4 does not: `b` starts before element 4.
    assert!(pool.try_next(5).is_some());
    let before = pool.capacity();
    let d = pool.chunk(vec![6, 6, 6, 6]).unwrap();
    assert!(pool.capacity() > before);
    assert_eq!(pool.capacity(), 4 * 16);
    assert_eq!(d.inner(&pool).buffer, 1);
    assert!(pool.is_live(&b));
}

#[test]
fn ring_reuse_after_all_chunks_were_given_back() {
    let mut pool = CpuBufferPool::<u8>::upload();
    pool.reserve(4).unwrap();
    let mut held: Vec<CpuBufferPoolSubbuffer<u8>> = Vec::new();
    for k in 0..4 {
        held.push(pool.try_next(k).unwrap());
    }
    assert!(pool.try_next(9).is_none());
    for h in held {
        h.release(&mut pool);
    }
    let all = pool.chunk(vec![1, 2, 3, 4]).unwrap();
    assert_eq!(pool.capacity(), 4);
    assert_eq!(all.index(), 0);
    assert_eq!(all.inner(&pool).buffer, 0);
}

#[test]
fn duplicate_keeps_the_chunk_reserved() {
    let mut pool = CpuBufferPool::<u8>::upload();
    pool.reserve(1).unwrap();
    let h = pool.try_next(1).unwrap();
    let d = h.duplicate(&mut pool);
    assert_eq!(d.accesses(&pool), (2, 0));
    assert_eq!((d.index(), d.len()), (h.index(), h.len()));
    h.release(&mut pool);
    assert!(pool.is_live(&d));
    assert_eq!(d.accesses(&pool), (1, 0));
    assert!(pool.try_next(2).is_none());
    d.release(&mut pool);
    let again = pool.try_next(3).unwrap();
    assert_eq!(again.index(), 0);
    assert_eq!(pool.capacity(), 1);
}

#[test]
fn gpu_lock_is_exclusive() {
    let mut pool = CpuBufferPool::<u8>::upload();
    let h = pool.next(1).unwrap();
    assert_eq!(h.try_gpu_lock(&mut pool), Ok(()));
    assert_eq!(h.accesses(&pool), (1, 1));
    assert_eq!(h.try_gpu_lock(&mut pool), Err(AccessError::AlreadyInUse));
    assert_eq!(h.accesses(&pool), (1, 1));
    h.increase_gpu_lock(&mut pool);
    h.increase_gpu_lock(&mut pool);
    assert_eq!(h.accesses(&pool), (1, 3));
    h.unlock(&mut pool);
    h.unlock(&mut pool);
    assert_eq!(h.try_gpu_lock(&mut pool), Err(AccessError::AlreadyInUse));
    h.unlock(&mut pool);
    assert_eq!(h.accesses(&pool), (1, 0));
    assert_eq!(h.try_gpu_lock(&mut pool), Ok(()));
    h.unlock(&mut pool);
    h.release(&mut pool);
}

#[test]
fn offsets_and_sizes_are_in_bytes() {
    let mut pool = CpuBufferPool::<u32>::upload();
    pool.reserve(10).unwrap();
    let a = pool.chunk(vec![1, 2, 3]).unwrap();
    let b = pool.chunk(vec![4, 5]).unwrap();
    assert_eq!(a.inner(&pool).offset, 0);
    assert_eq!(a.size(&pool), 12);
    assert_eq!(b.inner(&pool).offset, 12);
    assert_eq!(b.size(&pool), 8);
    assert_eq!(b.index(), 3);
}

#[test]
fn conflict_key_joins_buffer_and_index() {
    let mut pool = CpuBufferPool::<u8>::upload();
    pool.reserve(4).unwrap();
    let a = pool.try_next(1).unwrap();
    let b = pool.try_next(2).unwrap();
    assert_eq!(a.conflict_key(), 0);
    assert_eq!(b.conflict_key(), 1);
    let d = b.duplicate(&mut pool);
    assert_eq!(d.conflict_key(), b.conflict_key());
    pool.reserve(5).unwrap();
    let c = pool.try_next(3).unwrap();
    let e = pool.try_next(3).unwrap();
    assert_eq!(c.conflict_key(), 1);
    assert_eq!(e.conflict_key(), 2);
}

#[test]
fn is_live_tells_released_sub_buffers() {
    let mut pool = CpuBufferPool::<u8>::upload();
    let a = pool.next(1).unwrap();
    let b = pool.next(2).unwrap();
    let gone = a.duplicate(&mut pool);
    assert!(pool.is_live(&a));
    gone.release(&mut pool);
    assert!(pool.is_live(&a));
    let probe = a.duplicate(&mut pool);
    probe.release(&mut pool);
    let other = CpuBufferPool::<u8>::upload();
    assert!(!other.is_live(&a));
    let probe = a.duplicate(&mut pool);
    a.release(&mut pool);
    assert!(pool.is_live(&probe));
    assert!(pool.is_live(&b));
    let last = probe.duplicate(&mut pool);
    probe.release(&mut pool);
    let check = last.duplicate(&mut pool);
    last.release(&mut pool);
    check.release(&mut pool);
    assert!(pool.is_live(&b));
    assert_eq!(b.accesses(&pool), (1, 0));
}

#[test]
fn earlier_buffers_give_up_their_memory_with_their_last_chunk() {
    let mut pool = CpuBufferPool::<u8>::upload();
    pool.reserve(2).unwrap();
    let a = pool.try_next(1).unwrap();
    let b = pool.try_next(2).unwrap();
    assert_eq!(pool.held_elements(0), 2);
    let c = pool.next(3).unwrap();
    assert_eq!(pool.capacity(), 4);
    assert_eq!(c.inner(&pool).buffer, 1);
    assert_eq!(pool.held_elements(0), 2);
    assert_eq!(pool.held_elements(1), 4);
    assert_eq!(pool.held_elements(2), 0);
    a.release(&mut pool);
    assert_eq!(pool.held_elements(0), 2);
    assert_eq!(b.read(&pool), vec![Some(2)]);
    b.release(&mut pool);
    assert_eq!(pool.held_elements(0), 0);
    // The current buffer keeps its memory without any chunk.
    c.release(&mut pool);
    assert_eq!(pool.held_elements(1), 4);
    // A buffer without chunks gives its memory up when it is replaced.
    pool.reserve(5).unwrap();
    assert_eq!(pool.held_elements(1), 0);
    assert_eq!(pool.held_elements(2), 5);
}
