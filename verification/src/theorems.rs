//! What holds of the ledger and of the pool across several operations.

use crate::ledger::{
    duplicated, entry, front_free, gpu_extended, gpu_locked, gpu_unlocked, ledger_holds, ledger_wf,
    lemma_holds, lemma_placed, lemma_recount, placement, released, ActualBufferChunk,
};
use crate::pool::{BufferView, PoolView};
use vstd::prelude::*;

verus! {

/// In a well-formed ledger no element of the buffer belongs to two chunks.
pub proof fn theorem_chunks_never_intersect(
    l: Seq<ActualBufferChunk>,
    capacity: usize,
    i: int,
    j: int,
    k: int,
)
    requires
        ledger_wf(l, capacity),
        0 <= i < l.len(),
        0 <= j < l.len(),
        i != j,
    ensures
        !(l[i].covers(k) && l[j].covers(k)),
{
    if i < j {
        assert(l[i].apart(l[j]));
    } else {
        assert(l[j].apart(l[i]));
    }
}

/// In a well-formed pool no element of any buffer belongs to two chunks, and
/// every chunk lies inside its buffer.
pub proof fn theorem_pool_chunks_never_intersect<T>(
    pool: PoolView<T>,
    b: int,
    i: int,
    j: int,
    k: int,
)
    requires
        pool.wf(),
        0 <= b < pool.buffers.len(),
        0 <= i < pool.buffers[b].chunks.len(),
        0 <= j < pool.buffers[b].chunks.len(),
        i != j,
    ensures
        !(pool.buffers[b].chunks[i].covers(k) && pool.buffers[b].chunks[j].covers(k)),
        pool.buffers[b].chunks[i].end() <= pool.buffers[b].capacity,
{
    assert(pool.buffers[b].wf());
    theorem_chunks_never_intersect(pool.buffers[b].chunks, pool.buffers[b].capacity, i, j, k);
}

/// A pool without a buffer grows to three times the length of the first
/// chunk that is asked of it.
pub proof fn theorem_first_chunk_capacity<T>(pool: PoolView<T>, data: Seq<T>)
    requires
        pool.buffers.len() == 0,
        3 * data.len() <= usize::MAX,
    ensures
        pool.try_place(data.len() as usize) is None,
        pool.growth_capacity(data.len() as usize) == 3 * data.len(),
        pool.after_chunk(data).capacity() == 3 * data.len(),
        pool.granted(data).index == 0,
{
    let after = pool.after_chunk(data);
    assert(after.buffers.len() == 1);
    assert(after.buffers.last() == after.buffers[0]);
}

/// A buffer whose chunks were all given back has room for any chunk up to
/// its capacity, wherever the cursor stands: the pool grants it without
/// growing.
pub proof fn theorem_empty_ledger_has_room<T>(pool: PoolView<T>, data: Seq<T>)
    requires
        pool.wf(),
        pool.buffers.len() > 0,
        pool.buffers.last().chunks.len() == 0,
        data.len() <= pool.capacity(),
    ensures
        pool.try_place(data.len() as usize) is Some,
        pool.after_chunk(data).capacity() == pool.capacity(),
        pool.after_chunk(data).buffers.len() == pool.buffers.len(),
{
    let b = pool.buffers.last();
    let n = data.len() as usize;
    assert(front_free(b.chunks, n, b.capacity));
    let after = pool.after_chunk(data);
    assert(after.buffers.last() == after.buffers[pool.buffers.len() - 1]);
}

/// Granting a chunk where the current buffer has room leaves the capacity
/// as it is.
pub proof fn theorem_placement_keeps_capacity<T>(pool: PoolView<T>, data: Seq<T>)
    requires
        pool.try_place(data.len() as usize) is Some,
    ensures
        pool.after_chunk(data).capacity() == pool.capacity(),
{
    let after = pool.after_chunk(data);
    assert(after.buffers.last() == after.buffers[pool.buffers.len() - 1]);
}

/// A chunk that was duplicated and then released once is entered as before:
/// it stays reserved, with the holders it had, and stands in the way of
/// every placement that it stood in the way of.
pub proof fn theorem_release_after_duplicate(l: Seq<ActualBufferChunk>, index: usize)
    requires
        ledger_holds(l, index),
        1 <= entry(l, index).num_cpu_accesses < usize::MAX,
    ensures
        released(duplicated(l, index), index) == l,
        ledger_holds(released(duplicated(l, index), index), index),
        forall|cursor: usize, n: usize, capacity: usize|
            placement(released(duplicated(l, index), index), cursor, n, capacity) == placement(
                l,
                cursor,
                n,
                capacity,
            ),
{
    let c = entry(l, index);
    let d = duplicated(l, index);
    lemma_holds(l, index);
    lemma_recount(l, index, c.num_cpu_accesses + 1, c.num_gpu_accesses as int, 0);
    assert(entry(d, index).num_cpu_accesses >= 2);
    assert(released(d, index) =~= l);
}

/// Once the GPU has taken its first hold on a chunk, the chunk counts as
/// held, so that a second first hold is refused.
pub proof fn theorem_locked_chunk_is_held(l: Seq<ActualBufferChunk>, index: usize)
    requires
        ledger_holds(l, index),
        entry(l, index).num_cpu_accesses >= 1,
    ensures
        ledger_holds(gpu_locked(l, index), index),
        entry(gpu_locked(l, index), index).num_gpu_accesses == 1,
{
    lemma_holds(l, index);
    lemma_recount(l, index, entry(l, index).num_cpu_accesses as int, 1, 0);
}

/// Giving up a hold undoes taking one more: the ledger is as it was.
pub proof fn theorem_unlock_after_extend(l: Seq<ActualBufferChunk>, index: usize)
    requires
        ledger_holds(l, index),
        entry(l, index).num_cpu_accesses >= 1,
        entry(l, index).num_gpu_accesses < usize::MAX,
    ensures
        gpu_unlocked(gpu_extended(l, index), index) == l,
{
    let c = entry(l, index);
    lemma_holds(l, index);
    lemma_recount(l, index, c.num_cpu_accesses as int, c.num_gpu_accesses + 1, 0);
    assert(gpu_unlocked(gpu_extended(l, index), index) =~= l);
}

/// Giving up the first hold on a chunk leaves it without a GPU hold, as it
/// was before: the GPU can take a first hold again.
pub proof fn theorem_unlock_after_lock(l: Seq<ActualBufferChunk>, index: usize)
    requires
        ledger_holds(l, index),
        entry(l, index).num_cpu_accesses >= 1,
        entry(l, index).num_gpu_accesses == 0,
    ensures
        gpu_unlocked(gpu_locked(l, index), index) == l,
        entry(gpu_unlocked(gpu_locked(l, index), index), index).num_gpu_accesses == 0,
{
    let c = entry(l, index);
    lemma_holds(l, index);
    lemma_recount(l, index, c.num_cpu_accesses as int, 1, 0);
    assert(gpu_unlocked(gpu_locked(l, index), index) =~= l);
}

/// Placing a chunk writes its data where the chunk lies and leaves every
/// element of the chunks that were reserved before as it was.
pub proof fn theorem_placement_keeps_live_data<T>(
    b: BufferView<T>,
    data: Seq<T>,
    offset: usize,
    i: int,
    k: int,
)
    requires
        b.wf(),
        b.backed(),
        data.len() <= usize::MAX,
        placement(b.chunks, b.next_index, data.len() as usize, b.capacity) == Some(offset),
        0 <= i < b.chunks.len(),
        b.chunks[i].covers(k),
    ensures
        b.placed(offset, data).wf(),
        b.placed(offset, data).memory[k] == b.memory[k],
        forall|j: int|
            0 <= j < data.len() ==> b.placed(offset, data).memory[offset + j] == Some(data[j]),
{
    let n = data.len() as usize;
    lemma_placed(b.chunks, b.next_index, n, b.capacity, offset);
    let c = ActualBufferChunk::fresh(offset, n);
    let after = b.chunks.push(c);
    assert(after[i] == b.chunks[i]);
    assert(after[b.chunks.len() as int] == c);
    assert(after[i].apart(after[b.chunks.len() as int]));
    assert(b.chunks[i].end() <= b.capacity);
}

/// The ledger after the GPU took `n` more holds on the chunk at `index`.
pub open spec fn gpu_extended_times(
    l: Seq<ActualBufferChunk>,
    index: usize,
    n: nat,
) -> Seq<ActualBufferChunk>
    decreases n,
{
    if n == 0 {
        l
    } else {
        gpu_extended(gpu_extended_times(l, index, (n - 1) as nat), index)
    }
}

/// The ledger after the GPU gave up `n` holds on the chunk at `index`.
pub open spec fn gpu_unlocked_times(
    l: Seq<ActualBufferChunk>,
    index: usize,
    n: nat,
) -> Seq<ActualBufferChunk>
    decreases n,
{
    if n == 0 {
        l
    } else {
        gpu_unlocked_times(gpu_unlocked(l, index), index, (n - 1) as nat)
    }
}

/// Taking `n` more holds adds `n` to the GPU holds of the chunk and leaves
/// its CPU-side holders as they are.
pub proof fn lemma_extended_times(l: Seq<ActualBufferChunk>, index: usize, n: nat)
    requires
        ledger_holds(l, index),
        entry(l, index).num_cpu_accesses >= 1,
        entry(l, index).num_gpu_accesses + n <= usize::MAX,
    ensures
        ledger_holds(gpu_extended_times(l, index, n), index),
        entry(gpu_extended_times(l, index, n), index) == entry(l, index).with_counts(
            entry(l, index).num_cpu_accesses as int,
            entry(l, index).num_gpu_accesses + n,
        ),
    decreases n,
{
    if n > 0 {
        let before = gpu_extended_times(l, index, (n - 1) as nat);
        lemma_extended_times(l, index, (n - 1) as nat);
        let c = entry(before, index);
        lemma_recount(before, index, c.num_cpu_accesses as int, c.num_gpu_accesses + 1, 0);
    }
}

/// Giving up as many holds as were taken leaves the ledger as it was.
pub proof fn theorem_unlocks_undo_extends(l: Seq<ActualBufferChunk>, index: usize, n: nat)
    requires
        ledger_holds(l, index),
        entry(l, index).num_cpu_accesses >= 1,
        entry(l, index).num_gpu_accesses + n <= usize::MAX,
    ensures
        gpu_unlocked_times(gpu_extended_times(l, index, n), index, n) == l,
    decreases n,
{
    if n > 0 {
        let before = gpu_extended_times(l, index, (n - 1) as nat);
        lemma_extended_times(l, index, (n - 1) as nat);
        theorem_unlock_after_extend(before, index);
        theorem_unlocks_undo_extends(l, index, (n - 1) as nat);
    }
}

/// A chunk that the GPU took a first hold on and `n` more, and gave up
/// `n + 1` holds on, is without a GPU hold again: the ledger is as it was,
/// and a first hold can be taken anew.
pub proof fn theorem_lock_cycle(l: Seq<ActualBufferChunk>, index: usize, n: nat)
    requires
        ledger_holds(l, index),
        entry(l, index).num_cpu_accesses >= 1,
        entry(l, index).num_gpu_accesses == 0,
        1 + n <= usize::MAX,
    ensures
        gpu_unlocked_times(gpu_extended_times(gpu_locked(l, index), index, n), index, n + 1) == l,
{
    let locked = gpu_locked(l, index);
    theorem_locked_chunk_is_held(l, index);
    lemma_holds(l, index);
    lemma_recount(l, index, entry(l, index).num_cpu_accesses as int, 1, 0);
    theorem_unlocks_undo_extends(locked, index, n);
    theorem_unlock_after_lock(l, index);
    lemma_unlocked_times_last(gpu_extended_times(locked, index, n), index, n);
}

/// Giving up `n + 1` holds is giving up `n` and then one more.
proof fn lemma_unlocked_times_last(l: Seq<ActualBufferChunk>, index: usize, n: nat)
    ensures
        gpu_unlocked_times(l, index, n + 1) == gpu_unlocked(gpu_unlocked_times(l, index, n), index),
    decreases n,
{
    if n > 0 {
        lemma_unlocked_times_last(gpu_unlocked(l, index), index, (n - 1) as nat);
    } else {
        assert(gpu_unlocked_times(l, index, 1) == gpu_unlocked_times(
            gpu_unlocked(l, index),
            index,
            0,
        ));
    }
}

} // verus!
