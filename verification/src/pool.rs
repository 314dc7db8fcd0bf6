//! The pool, the buffers it allocates, and the sub-buffers it hands out.

use crate::error::{AccessError, DeviceMemoryAllocError, OomError};
use crate::families::{
    choose_sharing, families_from_vec, family_ids, sharing_of, QueueFamilies, Sharing,
};
use crate::ledger;
use crate::ledger::{
    add_cpu_access, duplicated, entry, extend_entry_lock, find_placement, gpu_extended,
    gpu_locked, gpu_unlocked, ledger_holds, ledger_wf, lemma_holds, lemma_placed, lemma_recount,
    lemma_remove, lock_entry, placement, release_entry, released, unlock_entry, ActualBufferChunk,
};
use crate::usage::BufferUsage;
use vstd::prelude::*;

verus! {

/// The memory after `data` was written at `offset`.
pub open spec fn written<T>(memory: Seq<Option<T>>, offset: int, data: Seq<T>) -> Seq<Option<T>> {
    Seq::new(
        memory.len(),
        |k: int|
            if offset <= k < offset + data.len() {
                Some(data[k - offset])
            } else {
                memory[k]
            },
    )
}

/// One buffer of a pool, as contracts see it.
pub struct BufferView<T> {
    /// The elements of the buffer; `None` where nothing was written yet.
    pub memory: Seq<Option<T>>,
    /// The families that share the buffer concurrently, if it is so shared.
    pub concurrent: Option<Seq<u32>>,
    /// What the buffer is used for.
    pub usage: BufferUsage,
    /// The chunks that are reserved.
    pub chunks: Seq<ActualBufferChunk>,
    /// Where the ring suggests that the next chunk start.
    pub next_index: usize,
    /// Number of elements in the buffer.
    pub capacity: usize,
}

impl<T> BufferView<T> {
    /// The buffer has its memory: one element for each of `capacity`.
    pub open spec fn backed(self) -> bool {
        self.memory.len() == self.capacity
    }

    /// The buffer has its memory, or has given it up with no chunk left; the
    /// bytes of `capacity` elements can be counted, the cursor lies within
    /// the buffer, and the ledger is well formed.
    pub open spec fn wf(self) -> bool {
        &&& self.backed() || (self.memory.len() == 0 && self.chunks.len() == 0)
        &&& vstd::layout::size_of::<T>() * self.capacity <= usize::MAX
        &&& self.next_index <= self.capacity
        &&& ledger_wf(self.chunks, self.capacity)
    }

    /// A buffer as it is allocated: nothing written, nothing reserved.
    pub open spec fn fresh(
        capacity: usize,
        usage: BufferUsage,
        concurrent: Option<Seq<u32>>,
    ) -> Self {
        BufferView {
            memory: Seq::new(capacity as nat, |k: int| None),
            concurrent,
            usage,
            chunks: Seq::empty(),
            next_index: 0,
            capacity,
        }
    }

    /// The buffer after `data` was placed at `offset`: written there, entered
    /// in the ledger with one holder, and the cursor moved behind it.
    pub open spec fn placed(self, offset: usize, data: Seq<T>) -> Self {
        BufferView {
            memory: written(self.memory, offset as int, data),
            chunks: self.chunks.push(ActualBufferChunk::fresh(offset, data.len() as usize)),
            next_index: (offset + data.len()) as usize,
            ..self
        }
    }

    /// The buffer with another ledger.
    pub open spec fn with_chunks(self, chunks: Seq<ActualBufferChunk>) -> Self {
        BufferView { chunks, ..self }
    }

    /// The buffer once it is no longer the current one: it gives up its
    /// memory as soon as no chunk of it is reserved.
    pub open spec fn retired(self) -> Self {
        if self.chunks.len() == 0 {
            BufferView { memory: Seq::empty(), ..self }
        } else {
            self
        }
    }
}

/// One buffer of the pool.
pub struct ActualBuffer<T> {
    // The memory held by the buffer.
    memory: Vec<Option<T>>,
    // How the queue families share the buffer.
    sharing: Sharing,
    // What the buffer is used for.
    usage: BufferUsage,
    // List of the chunks that are reserved.
    chunks_in_use: Vec<ActualBufferChunk>,
    // The index of the chunk that should be available next for the ring buffer.
    next_index: usize,
    // Number of elements in the buffer.
    capacity: usize,
}

impl<T> View for ActualBuffer<T> {
    type V = BufferView<T>;

    closed spec fn view(&self) -> BufferView<T> {
        BufferView {
            memory: self.memory@,
            concurrent: self.sharing.concurrent_ids(),
            usage: self.usage,
            chunks: self.chunks_in_use@,
            next_index: self.next_index,
            capacity: self.capacity,
        }
    }
}

impl<T: Copy> ActualBuffer<T> {
    /// Allocates nothing more: fills memory that was set aside for
    /// `capacity` elements and makes the buffer of it.
    fn with_memory(
        memory: Vec<Option<T>>,
        capacity: usize,
        usage: BufferUsage,
        sharing: Sharing,
    ) -> (buffer: ActualBuffer<T>)
        requires
            memory@.len() == 0,
        ensures
            buffer@ == BufferView::<T>::fresh(capacity, usage, sharing.concurrent_ids()),
    {
        let mut memory = memory;
        while memory.len() < capacity
            invariant
                memory@.len() <= capacity,
                forall|k: int| 0 <= k < memory@.len() ==> memory@[k] == None::<T>,
            decreases capacity - memory@.len(),
        {
            memory.push(None);
        }
        assert(memory@ =~= Seq::new(capacity as nat, |k: int| None::<T>));
        ActualBuffer {
            memory,
            sharing,
            usage,
            chunks_in_use: Vec::new(),
            next_index: 0,
            capacity,
        }
    }

    /// Gives up the memory if no chunk is reserved.
    fn retire(&mut self)
        ensures
            final(self)@ == old(self)@.retired(),
    {
        if self.chunks_in_use.len() == 0 {
            self.memory = Vec::new();
        }
    }

    /// Writes `data` at `offset`, enters the chunk and moves the cursor.
    fn place(&mut self, offset: usize, data: &Vec<T>)
        requires
            old(self)@.backed(),
            offset + data@.len() <= old(self)@.capacity,
        ensures
            final(self)@ == old(self)@.placed(offset, data@),
    {
        let n = data.len();
        let mut i: usize = 0;
        while i < n
            invariant
                i <= n,
                n == data@.len(),
                offset + n <= self.capacity,
                self.memory@.len() == self.capacity,
                self.memory@ == written(
                    old(self).memory@,
                    offset as int,
                    data@.subrange(0, i as int),
                ),
                self.sharing == old(self).sharing,
                self.usage == old(self).usage,
                self.chunks_in_use == old(self).chunks_in_use,
                self.next_index == old(self).next_index,
                self.capacity == old(self).capacity,
            decreases n - i,
        {
            self.memory[offset + i] = Some(data[i]);
            i += 1;
            assert(self.memory@ =~= written(
                old(self).memory@,
                offset as int,
                data@.subrange(0, i as int),
            ));
        }
        assert(data@.subrange(0, n as int) == data@);
        self.next_index = offset + n;
        self.chunks_in_use.push(
            ActualBufferChunk { index: offset, len: n, num_cpu_accesses: 1, num_gpu_accesses: 0 },
        );
    }
}

/// A pool as contracts see it: its settings and every buffer it has
/// allocated, the current one last.
pub struct PoolView<T> {
    /// What the pool's buffers are used for.
    pub usage: BufferUsage,
    /// The queue families allowed to access the buffers.
    pub families: Seq<u32>,
    /// The buffers, in the order of their allocation.
    pub buffers: Seq<BufferView<T>>,
}

/// A sub-buffer as contracts see it: which buffer, and which chunk of it.
pub struct ChunkRef {
    /// The number of the buffer among those the pool has allocated.
    pub buffer: usize,
    /// First element of the chunk.
    pub index: usize,
    /// Number of elements of the chunk.
    pub len: usize,
}

impl<T> PoolView<T> {
    /// Every buffer is well formed, and the current one has its memory.
    pub open spec fn wf(self) -> bool {
        &&& forall|i: int| 0 <= i < self.buffers.len() ==> (#[trigger] self.buffers[i]).wf()
        &&& self.buffers.len() > 0 ==> self.buffers.last().backed()
    }

    /// The capacity of the current buffer; 0 before the first allocation.
    pub open spec fn capacity(self) -> usize {
        if self.buffers.len() == 0 {
            0
        } else {
            self.buffers.last().capacity
        }
    }

    /// The current buffer has `capacity` elements or more.
    pub open spec fn has_room_for(self, capacity: usize) -> bool {
        self.buffers.len() > 0 && self.capacity() >= capacity
    }

    /// A buffer of `capacity` elements can be asked for: its elements and
    /// its bytes can be counted.
    pub open spec fn can_hold(capacity: int) -> bool {
        capacity <= usize::MAX && vstd::layout::size_of::<T>() * capacity <= usize::MAX
    }

    /// The buffers once the current one is no longer current.
    pub open spec fn retired_buffers(self) -> Seq<BufferView<T>> {
        if self.buffers.len() > 0 {
            self.buffers.update(self.buffers.len() - 1, self.buffers.last().retired())
        } else {
            self.buffers
        }
    }

    /// The pool after it allocated a new current buffer of `capacity`
    /// elements. The buffer that was current stays for the chunks that are
    /// reserved in it.
    pub open spec fn grown(self, capacity: usize) -> Self {
        PoolView {
            buffers: self.retired_buffers().push(
                BufferView::fresh(capacity, self.usage, sharing_of(self.families)),
            ),
            ..self
        }
    }

    /// Where a chunk of `n` elements goes in the current buffer, if anywhere.
    pub open spec fn try_place(self, n: usize) -> Option<usize> {
        if self.buffers.len() == 0 {
            None
        } else {
            let b = self.buffers.last();
            placement(b.chunks, b.next_index, n, b.capacity)
        }
    }

    /// The pool after `data` was placed at `offset` of the current buffer.
    pub open spec fn with_placed(self, offset: usize, data: Seq<T>) -> Self {
        PoolView {
            buffers: self.buffers.update(
                self.buffers.len() - 1,
                self.buffers.last().placed(offset, data),
            ),
            ..self
        }
    }

    /// The capacity that the pool grows to when a chunk of `n` elements
    /// finds no room: `n` times twice the current capacity, and never less
    /// than three times `n`.
    pub open spec fn growth_capacity(self, n: usize) -> int {
        if self.buffers.len() > 0 && 2 * self.capacity() > 3 {
            n * (2 * self.capacity())
        } else {
            n * 3
        }
    }

    /// The pool after a chunk with `data` was granted: in the current buffer
    /// where it has room, else at the start of a new and larger one.
    pub open spec fn after_chunk(self, data: Seq<T>) -> Self {
        match self.try_place(data.len() as usize) {
            Some(offset) => self.with_placed(offset, data),
            None => self.grown(self.growth_capacity(data.len() as usize) as usize).with_placed(
                0,
                data,
            ),
        }
    }

    /// The capacity after a chunk of `n` elements was granted: unchanged
    /// where the current buffer had room, else what the pool grew to.
    pub open spec fn capacity_after_chunk(self, n: usize) -> int {
        if self.try_place(n) is Some {
            self.capacity() as int
        } else {
            self.growth_capacity(n)
        }
    }

    /// What is reported when a buffer of `capacity` elements cannot be had:
    /// the device is out of memory where such a buffer cannot even be asked
    /// for, else the host.
    pub open spec fn alloc_error(capacity: int) -> DeviceMemoryAllocError {
        if Self::can_hold(capacity) {
            DeviceMemoryAllocError::OomError(OomError::OutOfHostMemory)
        } else {
            DeviceMemoryAllocError::OomError(OomError::OutOfDeviceMemory)
        }
    }

    /// `after` is this pool with a chunk for `data` granted as the
    /// sub-buffer `h`: the data is written, the chunk is entered with `h` as
    /// its one holder, and `h` is valid.
    pub open spec fn grants(self, after: Self, data: Seq<T>, h: ChunkRef) -> bool {
        &&& after == self.after_chunk(data)
        &&& h == self.granted(data)
        &&& after.holds(h)
        &&& data.len() > 0 ==> after.chunk_of(h) == ActualBufferChunk::fresh(h.index, h.len)
    }

    /// The sub-buffer that is handed out for a chunk with `data`.
    pub open spec fn granted(self, data: Seq<T>) -> ChunkRef {
        match self.try_place(data.len() as usize) {
            Some(offset) => ChunkRef {
                buffer: (self.buffers.len() - 1) as usize,
                index: offset,
                len: data.len() as usize,
            },
            None => ChunkRef {
                buffer: self.buffers.len() as usize,
                index: 0,
                len: data.len() as usize,
            },
        }
    }

    /// The range of `h` lies in its buffer, whose ledger has a chunk that
    /// starts where `h` does.
    pub open spec fn holds(self, h: ChunkRef) -> bool {
        &&& h.buffer < self.buffers.len()
        &&& h.index + h.len <= self.buffers[h.buffer as int].capacity
        &&& ledger_holds(self.buffers[h.buffer as int].chunks, h.index)
    }

    /// Every sub-buffer that was valid is valid in `after`, with the same
    /// ledger entry.
    pub open spec fn all_untouched(self, after: Self) -> bool {
        forall|g: ChunkRef|
            self.holds(g) ==> after.holds(g) && after.chunk_of(g) == self.chunk_of(g)
    }

    /// Every sub-buffer that was valid and starts elsewhere than `h` is valid
    /// in `after`, with the same ledger entry.
    pub open spec fn others_untouched(self, after: Self, h: ChunkRef) -> bool {
        forall|g: ChunkRef|
            self.holds(g) && !(g.buffer == h.buffer && g.index == h.index) ==> after.holds(g)
                && after.chunk_of(g) == self.chunk_of(g)
    }

    /// The ledger entry of the chunk of `h`.
    pub open spec fn chunk_of(self, h: ChunkRef) -> ActualBufferChunk {
        entry(self.buffers[h.buffer as int].chunks, h.index)
    }

    /// The ledger of the buffer of `h`.
    pub open spec fn ledger_of(self, h: ChunkRef) -> Seq<ActualBufferChunk> {
        self.buffers[h.buffer as int].chunks
    }

    /// The pool after one holder let go of the chunk of `h`. An earlier
    /// buffer gives up its memory with its last chunk.
    pub open spec fn after_release(self, h: ChunkRef) -> Self {
        let b = self.buffers[h.buffer as int].with_chunks(released(self.ledger_of(h), h.index));
        PoolView {
            buffers: self.buffers.update(
                h.buffer as int,
                if h.buffer + 1 < self.buffers.len() {
                    b.retired()
                } else {
                    b
                },
            ),
            ..self
        }
    }

    /// The pool with another ledger for the buffer of `h`.
    pub open spec fn with_ledger(self, h: ChunkRef, chunks: Seq<ActualBufferChunk>) -> Self {
        PoolView {
            buffers: self.buffers.update(
                h.buffer as int,
                self.buffers[h.buffer as int].with_chunks(chunks),
            ),
            ..self
        }
    }
}

/// Buffer from which "sub-buffers" can be individually allocated.
///
/// The pool works like a ring buffer. It starts empty; chunks are taken from
/// it and given back, and when a chunk finds no room the pool allocates a
/// larger buffer, which becomes the current one. The chunks of an earlier
/// buffer stay valid until their holders let go of them, and the buffer
/// gives up its memory with the last of them.
///
/// A sub-buffer is a plain value: every operation on it names the pool it
/// came from, and the last thing done with it is `release`.
pub struct CpuBufferPool<T> {
    // Queue families allowed to access the buffers.
    queue_families: QueueFamilies,
    // Buffer usage.
    usage: BufferUsage,
    // Every buffer allocated so far; elements are grabbed from the last.
    buffers: Vec<ActualBuffer<T>>,
}

impl<T> View for CpuBufferPool<T> {
    type V = PoolView<T>;

    closed spec fn view(&self) -> PoolView<T> {
        PoolView {
            usage: self.usage,
            families: family_ids(self.queue_families),
            buffers: Seq::new(self.buffers@.len(), |i: int| self.buffers@[i]@),
        }
    }
}

impl<T: Copy> CpuBufferPool<T> {
    /// Builds a `CpuBufferPool`.
    pub fn new(usage: BufferUsage, queue_families: Vec<u32>) -> (pool: CpuBufferPool<T>)
        ensures
            pool@ == (PoolView::<T> { usage, families: queue_families@, buffers: Seq::empty() }),
            pool@.wf(),
    {
        let pool = CpuBufferPool {
            queue_families: families_from_vec(queue_families),
            usage,
            buffers: Vec::new(),
        };
        assert(pool@.buffers =~= Seq::empty());
        pool
    }

    /// Builds a `CpuBufferPool` meant for simple uploads: a transfer source
    /// that one queue family at a time owns.
    pub fn upload() -> (pool: CpuBufferPool<T>)
        ensures
            pool@ == (PoolView::<T> {
                usage: BufferUsage { transfer_source: true, ..BufferUsage::spec_none() },
                families: Seq::empty(),
                buffers: Seq::empty(),
            }),
            pool@.wf(),
    {
        CpuBufferPool::new(BufferUsage::transfer_source(), Vec::new())
    }

    /// Builds a `CpuBufferPool` meant for simple downloads: a transfer
    /// destination that one queue family at a time owns.
    pub fn download() -> (pool: CpuBufferPool<T>)
        ensures
            pool@ == (PoolView::<T> {
                usage: BufferUsage { transfer_destination: true, ..BufferUsage::spec_none() },
                families: Seq::empty(),
                buffers: Seq::empty(),
            }),
            pool@.wf(),
    {
        CpuBufferPool::new(BufferUsage::transfer_destination(), Vec::new())
    }

    /// Builds a `CpuBufferPool` from the size of one element, which must be
    /// the size of `T`.
    pub fn raw(one_size: usize, usage: BufferUsage, queue_families: Vec<u32>) -> (pool:
        CpuBufferPool<T>)
        requires
            one_size == vstd::layout::size_of::<T>(),
        ensures
            pool@ == (PoolView::<T> { usage, families: queue_families@, buffers: Seq::empty() }),
            pool@.wf(),
    {
        CpuBufferPool::new(usage, queue_families)
    }

    /// What the pool's buffers are used for.
    pub fn usage(&self) -> (usage: BufferUsage)
        ensures
            usage == self@.usage,
    {
        self.usage
    }

    /// How the pool's queue families share a buffer that the pool allocates:
    /// concurrently where they are two or more, else exclusively.
    pub fn sharing(&self) -> (sharing: Sharing)
        ensures
            sharing.concurrent_ids() == sharing_of(self@.families),
    {
        choose_sharing(&self.queue_families)
    }

    /// Whether `h` is a sub-buffer of this pool whose chunk is still reserved.
    pub fn is_live(&self, h: &CpuBufferPoolSubbuffer<T>) -> (live: bool)
        ensures
            live == self@.holds(h@),
    {
        if h.buffer >= self.buffers.len() {
            return false;
        }
        let capacity = self.buffers[h.buffer].capacity;
        if h.len > capacity || h.index > capacity - h.len {
            return false;
        }
        ledger::position(&self.buffers[h.buffer].chunks_in_use, h.index).is_some()
    }

    /// How many elements of memory the buffer numbered `buffer` holds: its
    /// capacity, or nothing once it gave its memory up. No buffer has that
    /// number: nothing.
    pub fn held_elements(&self, buffer: usize) -> (n: usize)
        ensures
            n == (if buffer < self@.buffers.len() {
                self@.buffers[buffer as int].memory.len()
            } else {
                0
            }),
    {
        if buffer < self.buffers.len() {
            self.buffers[buffer].memory.len()
        } else {
            0
        }
    }

    /// Returns the current capacity of the pool, in number of elements.
    pub fn capacity(&self) -> (capacity: usize)
        ensures
            capacity == self@.capacity(),
    {
        let n = self.buffers.len();
        if n == 0 {
            0
        } else {
            self.buffers[n - 1].capacity
        }
    }

    /// Makes sure that the capacity is at least `capacity`. Allocates a new
    /// current buffer of exactly `capacity` elements if it is not the case,
    /// which can fail for want of memory.
    pub fn reserve(&mut self, capacity: usize) -> (r: Result<(), DeviceMemoryAllocError>)
        requires
            old(self)@.wf(),
        ensures
            final(self)@.wf(),
            old(self)@.has_room_for(capacity) ==> r is Ok && final(self)@ == old(self)@,
            !old(self)@.has_room_for(capacity) ==> match r {
                Ok(_) => final(self)@ == old(self)@.grown(capacity),
                Err(e) => final(self)@ == old(self)@ && e == PoolView::<T>::alloc_error(
                    capacity as int,
                ),
            },
            !old(self)@.has_room_for(capacity) && !PoolView::<T>::can_hold(capacity as int)
                ==> r is Err,
            final(self)@.capacity() >= old(self)@.capacity(),
            old(self)@.capacity() >= capacity ==> final(self)@.capacity() == old(self)@.capacity(),
            r is Ok ==> final(self)@.capacity() >= capacity,
            old(self)@.all_untouched(final(self)@),
    {
        let n = self.buffers.len();
        if n > 0 && self.buffers[n - 1].capacity >= capacity {
            return Ok(());
        }
        self.reset_buf(capacity)
    }

    /// Creates a new buffer and sets it as current. The capacity is in
    /// number of elements.
    fn reset_buf(&mut self, capacity: usize) -> (r: Result<(), DeviceMemoryAllocError>)
        requires
            old(self)@.wf(),
        ensures
            final(self)@.wf(),
            match r {
                Ok(_) => final(self)@ == old(self)@.grown(capacity) && PoolView::<T>::can_hold(
                    capacity as int,
                ),
                Err(e) => final(self)@ == old(self)@ && e == PoolView::<T>::alloc_error(
                    capacity as int,
                ),
            },
    {
        if core::mem::size_of::<T>().checked_mul(capacity).is_none() {
            return Err(DeviceMemoryAllocError::OomError(OomError::OutOfDeviceMemory));
        }
        let mut memory: Vec<Option<T>> = Vec::new();
        let reserved = memory.try_reserve(capacity).is_ok();
        self.install_buffer(memory, reserved, capacity)
    }

    /// Makes a buffer of `capacity` elements current, given memory and
    /// whether room for `capacity` elements could be set aside in it. Without
    /// that room the pool stays as it is and the host is reported out of
    /// memory.
    pub fn install_buffer(&mut self, memory: Vec<Option<T>>, reserved: bool, capacity: usize) -> (r:
        Result<(), DeviceMemoryAllocError>)
        requires
            old(self)@.wf(),
            memory@.len() == 0,
            PoolView::<T>::can_hold(capacity as int),
        ensures
            final(self)@.wf(),
            reserved ==> r is Ok && final(self)@ == old(self)@.grown(capacity),
            !reserved ==> r == Err::<(), DeviceMemoryAllocError>(
                DeviceMemoryAllocError::OomError(OomError::OutOfHostMemory),
            ) && final(self)@ == old(self)@,
    {
        if !reserved {
            return Err(DeviceMemoryAllocError::OomError(OomError::OutOfHostMemory));
        }
        let sharing = choose_sharing(&self.queue_families);
        let buffer = ActualBuffer::with_memory(memory, capacity, self.usage, sharing);
        let count = self.buffers.len();
        if count > 0 {
            self.buffers[count - 1].retire();
        }
        self.buffers.push(buffer);
        proof {
            let after = old(self)@.grown(capacity);
            assert(self@.buffers =~= after.buffers);
            assert forall|i: int| 0 <= i < after.buffers.len() implies (
            #[trigger] after.buffers[i]).wf() by {
                if i < count {
                    assert(old(self)@.buffers[i].wf());
                }
            }
        }
        Ok(())
    }
}

impl<T: Copy> CpuBufferPool<T> {
    /// Tries to take a chunk for `data` from the current buffer. Returns
    /// `None`, and changes nothing, if the pool has no buffer yet or the
    /// buffer has no room.
    fn try_next_impl(&mut self, data: &Vec<T>) -> (r: Option<CpuBufferPoolSubbuffer<T>>)
        requires
            old(self)@.wf(),
        ensures
            final(self)@.wf(),
            r is Some <==> old(self)@.try_place(data.len()) is Some,
            r is Some ==> old(self)@.grants(final(self)@, data@, r->0@),
            r is None ==> final(self)@ == old(self)@,
            old(self)@.all_untouched(final(self)@),
    {
        let count = self.buffers.len();
        if count == 0 {
            return None;
        }
        let last = count - 1;
        let data_len = data.len();
        let found = find_placement(
            &self.buffers[last].chunks_in_use,
            self.buffers[last].next_index,
            data_len,
            self.buffers[last].capacity,
        );
        match found {
            None => {
                assert(self@.buffers =~= old(self)@.buffers);
                None
            },
            Some(index) => {
                proof {
                    let b = old(self)@.buffers[last as int];
                    assert(b.wf());
                    lemma_placed(b.chunks, b.next_index, data_len, b.capacity, index);
                }
                self.buffers[last].place(index, data);
                proof {
                    let b = old(self)@.buffers[last as int];
                    assert(self@.buffers =~= old(self)@.with_placed(index, data@).buffers);
                    assert forall|i: int| 0 <= i < self@.buffers.len() implies (
                    #[trigger] self@.buffers[i]).wf() by {
                        assert(old(self)@.buffers[i].wf());
                    }
                    assert forall|h: ChunkRef| old(self)@.holds(h) implies self@.holds(h)
                        && self@.chunk_of(h) == old(self)@.chunk_of(h) by {
                        if h.buffer == last {
                            assert(ledger_holds(b.chunks, h.index));
                        }
                    }
                }
                Some(
                    CpuBufferPoolSubbuffer {
                        buffer: last,
                        index,
                        len: data_len,
                        marker: core::marker::PhantomData,
                    },
                )
            },
        }
    }

    /// Grants access to a new sub-buffer and puts `data` in it.
    ///
    /// If the current buffer has no room (because its chunks are still held),
    /// a new and larger buffer is allocated, which can fail for want of
    /// memory; the pool is then left as it was.
    pub fn chunk(&mut self, data: Vec<T>) -> (r: Result<
        CpuBufferPoolSubbuffer<T>,
        DeviceMemoryAllocError,
    >)
        requires
            old(self)@.wf(),
        ensures
            final(self)@.wf(),
            old(self)@.try_place(data.len()) is Some ==> r is Ok,
            old(self)@.try_place(data.len()) is None && !PoolView::<T>::can_hold(
                old(self)@.growth_capacity(data.len()),
            ) ==> r is Err,
            r is Ok ==> old(self)@.grants(final(self)@, data@, r->Ok_0@),
            r is Ok ==> final(self)@.capacity() == old(self)@.capacity_after_chunk(data.len()),
            r is Err ==> final(self)@ == old(self)@ && old(self)@.try_place(data.len()) is None,
            r is Err ==> r->Err_0 == PoolView::<T>::alloc_error(
                old(self)@.growth_capacity(data.len()),
            ),
            old(self)@.all_untouched(final(self)@),
    {
        match self.try_next_impl(&data) {
            Some(h) => {
                return Ok(h);
            },
            None => {},
        }
        let data_len = data.len();
        let count = self.buffers.len();
        let mut factor: usize = 3;
        if count > 0 {
            let capacity = self.buffers[count - 1].capacity;
            proof {
                let b = self@.buffers.last();
                // An empty chunk always finds room at the start of a buffer.
                assert(data_len >= 1) by {
                    if data_len == 0 {
                        assert(ledger::front_free(b.chunks, 0, b.capacity));
                    }
                }
            }
            match capacity.checked_mul(2) {
                None => {
                    proof {
                        assert(data_len * (2 * capacity) >= 2 * capacity) by (nonlinear_arith)
                            requires
                                data_len >= 1,
                                capacity >= 0,
                        ;
                    }
                    return Err(DeviceMemoryAllocError::OomError(OomError::OutOfDeviceMemory));
                },
                Some(twice) => {
                    if twice > 3 {
                        factor = twice;
                    }
                },
            }
        }
        let next_capacity = match data_len.checked_mul(factor) {
            None => {
                return Err(DeviceMemoryAllocError::OomError(OomError::OutOfDeviceMemory));
            },
            Some(c) => c,
        };
        assert(next_capacity == self@.growth_capacity(data_len));
        assert(next_capacity >= data_len) by (nonlinear_arith)
            requires
                next_capacity == data_len * factor,
                factor >= 3,
        ;
        match self.reset_buf(next_capacity) {
            Err(e) => {
                return Err(e);
            },
            Ok(_) => {},
        }
        proof {
            let b = self@.buffers.last();
            assert(b.chunks.len() == 0);
            assert(ledger::cursor_free(b.chunks, 0, data_len, b.capacity));
            assert(old(self)@.all_untouched(self@));
        }
        let h = self.try_next_impl(&data).unwrap();
        Ok(h)
    }

    /// Grants access to a new sub-buffer and puts `data` in it, allocating a
    /// larger buffer if the current one has no room.
    pub fn next(&mut self, data: T) -> (r: Result<
        CpuBufferPoolSubbuffer<T>,
        DeviceMemoryAllocError,
    >)
        requires
            old(self)@.wf(),
        ensures
            final(self)@.wf(),
            old(self)@.try_place(1) is Some ==> r is Ok,
            old(self)@.try_place(1) is None && !PoolView::<T>::can_hold(
                old(self)@.growth_capacity(1),
            ) ==> r is Err,
            r is Ok ==> old(self)@.grants(final(self)@, seq![data], r->Ok_0@),
            r is Ok ==> final(self)@.capacity() == old(self)@.capacity_after_chunk(1),
            r is Err ==> final(self)@ == old(self)@ && old(self)@.try_place(1) is None,
            r is Err ==> r->Err_0 == PoolView::<T>::alloc_error(old(self)@.growth_capacity(1)),
            old(self)@.all_untouched(final(self)@),
    {
        let mut one: Vec<T> = Vec::new();
        one.push(data);
        assert(one@ =~= seq![data]);
        self.chunk(one)
    }

    /// Grants access to a new sub-buffer and puts `data` in it.
    ///
    /// Returns `None`, and changes nothing, if the current buffer has no
    /// room. A pool has no buffer the first time it is used, so `try_next`
    /// finds nothing then.
    pub fn try_next(&mut self, data: T) -> (r: Option<CpuBufferPoolSubbuffer<T>>)
        requires
            old(self)@.wf(),
        ensures
            final(self)@.wf(),
            r is Some <==> old(self)@.try_place(1) is Some,
            r is Some ==> old(self)@.grants(final(self)@, seq![data], r->0@),
            r is Some ==> final(self)@.capacity() == old(self)@.capacity(),
            r is None ==> final(self)@ == old(self)@,
            old(self)@.all_untouched(final(self)@),
    {
        let mut one: Vec<T> = Vec::new();
        one.push(data);
        assert(one@ =~= seq![data]);
        self.try_next_impl(&one)
    }
}

/// A sub-buffer allocated from a `CpuBufferPool`.
///
/// The chunk stays reserved until every duplicate of the sub-buffer was
/// released to the pool.
pub struct CpuBufferPoolSubbuffer<T> {
    // Number of the buffer among those of the pool.
    buffer: usize,
    // Index of the sub-buffer within its buffer. In number of elements.
    index: usize,
    // Size of the sub-buffer in number of elements.
    len: usize,
    // The type of the elements.
    marker: core::marker::PhantomData<T>,
}

impl<T> View for CpuBufferPoolSubbuffer<T> {
    type V = ChunkRef;

    closed spec fn view(&self) -> ChunkRef {
        ChunkRef { buffer: self.buffer, index: self.index, len: self.len }
    }
}

/// Where a sub-buffer lies: in which buffer, and at which byte of it.
#[derive(Clone, Copy, Debug, PartialEq, Eq, Structural)]
pub struct BufferInner {
    /// The number of the buffer among those of the pool.
    pub buffer: usize,
    /// The byte at which the sub-buffer starts.
    pub offset: usize,
}

/// The key by which accesses to a chunk are recognised as conflicting: the
/// number of the buffer plus the first element, wrapping around.
pub open spec fn conflict_key_of(h: ChunkRef) -> u64 {
    vstd::wrapping::u64_specs::wrapping_add(h.buffer as u64, h.index as u64)
}

/// Setting the holder counts of the chunk of `h` keeps the pool well formed
/// and every sub-buffer valid.
pub proof fn lemma_pool_recount<T>(pool: PoolView<T>, h: ChunkRef, cpu: int, gpu: int)
    requires
        pool.wf(),
        pool.holds(h),
        1 <= cpu <= usize::MAX,
        0 <= gpu <= usize::MAX,
    ensures
        pool.with_ledger(h, ledger::recount(pool.ledger_of(h), h.index, cpu, gpu)).wf(),
        forall|g: ChunkRef|
            pool.holds(g) <==> pool.with_ledger(
                h,
                ledger::recount(pool.ledger_of(h), h.index, cpu, gpu),
            ).holds(g),
        pool.with_ledger(h, ledger::recount(pool.ledger_of(h), h.index, cpu, gpu)).chunk_of(h)
            == pool.chunk_of(h).with_counts(cpu, gpu),
        pool.others_untouched(
            pool.with_ledger(h, ledger::recount(pool.ledger_of(h), h.index, cpu, gpu)),
            h,
        ),
{
    let b = pool.buffers[h.buffer as int];
    assert(b.wf());
    lemma_recount(b.chunks, h.index, cpu, gpu, b.capacity);
    lemma_holds(b.chunks, h.index);
    let after = pool.with_ledger(h, ledger::recount(b.chunks, h.index, cpu, gpu));
    assert forall|i: int| 0 <= i < after.buffers.len() implies (
    #[trigger] after.buffers[i]).wf() by {
        assert(pool.buffers[i].wf());
    }
    assert forall|g: ChunkRef|
        pool.holds(g) && !(g.buffer == h.buffer && g.index == h.index) implies after.holds(g)
            && after.chunk_of(g) == pool.chunk_of(g) by {
        if g.buffer == h.buffer {
            lemma_holds(b.chunks, g.index);
        }
    }
}

/// Letting one holder go of the chunk of `h` keeps the pool well formed and
/// every sub-buffer valid that starts elsewhere; while the chunk has another
/// holder, those of the chunk too.
pub proof fn lemma_pool_released<T>(pool: PoolView<T>, h: ChunkRef)
    requires
        pool.wf(),
        pool.holds(h),
    ensures
        pool.after_release(h).wf(),
        pool.after_release(h).ledger_of(h) == released(pool.ledger_of(h), h.index),
        pool.chunk_of(h).num_cpu_accesses >= 2 ==> pool.after_release(h) == pool.with_ledger(
            h,
            released(pool.ledger_of(h), h.index),
        ),
        pool.chunk_of(h).num_cpu_accesses >= 2 ==> pool.after_release(h).chunk_of(h)
            == pool.chunk_of(h).with_counts(
            pool.chunk_of(h).num_cpu_accesses - 1,
            pool.chunk_of(h).num_gpu_accesses as int,
        ),
        pool.chunk_of(h).num_cpu_accesses >= 2 ==> forall|g: ChunkRef|
            pool.holds(g) ==> pool.after_release(h).holds(g),
        pool.chunk_of(h).num_cpu_accesses <= 1 ==> pool.after_release(h).ledger_of(h).len()
            == pool.ledger_of(h).len() - 1,
        pool.others_untouched(pool.after_release(h), h),
{
    let b = pool.buffers[h.buffer as int];
    let c = pool.chunk_of(h);
    let after = pool.after_release(h);
    assert(b.wf());
    lemma_holds(b.chunks, h.index);
    if c.num_cpu_accesses >= 2 {
        lemma_recount(
            b.chunks,
            h.index,
            c.num_cpu_accesses - 1,
            c.num_gpu_accesses as int,
            b.capacity,
        );
        assert(after.buffers =~= pool.with_ledger(h, released(b.chunks, h.index)).buffers);
    } else {
        lemma_remove(b.chunks, h.index, b.capacity);
    }
    assert forall|g: ChunkRef|
        pool.holds(g) && g.buffer == h.buffer && g.index != h.index implies entry(
            released(b.chunks, h.index),
            g.index,
        ) == entry(b.chunks, g.index) by {
        lemma_holds(b.chunks, g.index);
    }
    assert forall|i: int| 0 <= i < after.buffers.len() implies (
    #[trigger] after.buffers[i]).wf() by {
        assert(pool.buffers[i].wf());
    }
}

impl<T: Copy> CpuBufferPoolSubbuffer<T> {
    /// Makes another sub-buffer for the same chunk, which then has one more
    /// holder on the CPU side.
    pub fn duplicate(&self, pool: &mut CpuBufferPool<T>) -> (r: CpuBufferPoolSubbuffer<T>)
        requires
            old(pool)@.wf(),
            old(pool)@.holds(self@),
            old(pool)@.chunk_of(self@).num_cpu_accesses < usize::MAX,
        ensures
            r@ == self@,
            final(pool)@ == old(pool)@.with_ledger(
                self@,
                duplicated(old(pool)@.ledger_of(self@), self@.index),
            ),
            final(pool)@.chunk_of(self@) == old(pool)@.chunk_of(self@).with_counts(
                old(pool)@.chunk_of(self@).num_cpu_accesses + 1,
                old(pool)@.chunk_of(self@).num_gpu_accesses as int,
            ),
            old(pool)@.others_untouched(final(pool)@, self@),
            final(pool)@.wf(),
            forall|g: ChunkRef| old(pool)@.holds(g) <==> final(pool)@.holds(g),
    {
        proof {
            let c = pool@.chunk_of(self@);
            lemma_holds(pool@.ledger_of(self@), self.index);
            assert(pool@.buffers[self.buffer as int].wf());
            lemma_pool_recount(pool@, self@, c.num_cpu_accesses + 1, c.num_gpu_accesses as int);
        }
        add_cpu_access(&mut pool.buffers[self.buffer].chunks_in_use, self.index);
        assert(pool@.buffers =~= old(pool)@.with_ledger(
            self@,
            duplicated(old(pool)@.ledger_of(self@), self@.index),
        ).buffers);
        CpuBufferPoolSubbuffer {
            buffer: self.buffer,
            index: self.index,
            len: self.len,
            marker: core::marker::PhantomData,
        }
    }

    /// Where the sub-buffer lies: its buffer, and its offset there in bytes.
    pub fn inner(&self, pool: &CpuBufferPool<T>) -> (r: BufferInner)
        requires
            pool@.wf(),
            pool@.holds(self@),
        ensures
            r.buffer == self@.buffer,
            r.offset == self@.index * vstd::layout::size_of::<T>(),
    {
        let one = core::mem::size_of::<T>();
        proof {
            let b = pool@.buffers[self.buffer as int];
            assert(b.wf());
            assert(self.index * one <= one * b.capacity) by (nonlinear_arith)
                requires
                    self.index <= b.capacity,
                    one >= 0,
            ;
        }
        BufferInner { buffer: self.buffer, offset: self.index * one }
    }

    /// The size of the sub-buffer in bytes.
    pub fn size(&self, pool: &CpuBufferPool<T>) -> (r: usize)
        requires
            pool@.wf(),
            pool@.holds(self@),
        ensures
            r == self@.len * vstd::layout::size_of::<T>(),
    {
        let one = core::mem::size_of::<T>();
        proof {
            let b = pool@.buffers[self.buffer as int];
            assert(b.wf());
            assert(self.len * one <= one * b.capacity) by (nonlinear_arith)
                requires
                    self.len <= b.capacity,
                    one >= 0,
            ;
        }
        self.len * one
    }

    /// The number of elements of the sub-buffer.
    pub fn len(&self) -> (r: usize)
        ensures
            r == self@.len,
    {
        self.len
    }

    /// The first element of the sub-buffer within its buffer.
    pub fn index(&self) -> (r: usize)
        ensures
            r == self@.index,
    {
        self.index
    }

    /// How many holders the chunk has on the CPU side, and how many holds
    /// the GPU has on it.
    pub fn accesses(&self, pool: &CpuBufferPool<T>) -> (r: (usize, usize))
        requires
            pool@.holds(self@),
        ensures
            r.0 == pool@.chunk_of(self@).num_cpu_accesses,
            r.1 == pool@.chunk_of(self@).num_gpu_accesses,
    {
        let p = ledger::position(&pool.buffers[self.buffer].chunks_in_use, self.index).unwrap();
        let c = pool.buffers[self.buffer].chunks_in_use[p];
        (c.num_cpu_accesses, c.num_gpu_accesses)
    }

    /// The key by which a scheduler recognises accesses to this chunk.
    pub fn conflict_key(&self) -> (key: u64)
        ensures
            key == conflict_key_of(self@),
    {
        let buffer = self.buffer as u64;
        let index = self.index as u64;
        buffer.wrapping_add(index)
    }

    /// What the sub-buffer's elements hold.
    pub fn read(&self, pool: &CpuBufferPool<T>) -> (r: Vec<Option<T>>)
        requires
            pool@.wf(),
            pool@.holds(self@),
        ensures
            r@ == pool@.buffers[self@.buffer as int].memory.subrange(
                self@.index as int,
                self@.index + self@.len,
            ),
    {
        let ghost memory = pool@.buffers[self.buffer as int].memory;
        assert(pool@.buffers[self.buffer as int].wf());
        assert(memory.len() == pool@.buffers[self.buffer as int].capacity);
        let mut r: Vec<Option<T>> = Vec::new();
        let mut i: usize = 0;
        while i < self.len
            invariant
                i <= self.len,
                self.buffer < pool.buffers@.len(),
                memory == pool.buffers@[self.buffer as int].memory@,
                self.index + self.len <= memory.len() <= usize::MAX,
                r@ == memory.subrange(self.index as int, self.index + i),
            decreases self.len - i,
        {
            r.push(pool.buffers[self.buffer].memory[self.index + i]);
            i += 1;
            assert(r@ =~= memory.subrange(self.index as int, self.index + i));
        }
        r
    }

    /// Takes the GPU's first hold on the chunk. Fails, and changes nothing,
    /// if the GPU holds the chunk already.
    pub fn try_gpu_lock(&self, pool: &mut CpuBufferPool<T>) -> (r: Result<(), AccessError>)
        requires
            old(pool)@.wf(),
            old(pool)@.holds(self@),
        ensures
            r is Ok <==> old(pool)@.chunk_of(self@).num_gpu_accesses == 0,
            r is Ok ==> final(pool)@ == old(pool)@.with_ledger(
                self@,
                gpu_locked(old(pool)@.ledger_of(self@), self@.index),
            ),
            r is Ok ==> final(pool)@.chunk_of(self@) == old(pool)@.chunk_of(self@).with_counts(
                old(pool)@.chunk_of(self@).num_cpu_accesses as int,
                1,
            ),
            old(pool)@.others_untouched(final(pool)@, self@),
            r is Err ==> r == Err::<(), AccessError>(AccessError::AlreadyInUse) && final(pool)@
                == old(pool)@,
            final(pool)@.wf(),
            forall|g: ChunkRef| old(pool)@.holds(g) <==> final(pool)@.holds(g),
    {
        proof {
            let c = pool@.chunk_of(self@);
            lemma_holds(pool@.ledger_of(self@), self.index);
            assert(pool@.buffers[self.buffer as int].wf());
            lemma_pool_recount(pool@, self@, c.num_cpu_accesses as int, 1);
        }
        let locked = lock_entry(&mut pool.buffers[self.buffer].chunks_in_use, self.index);
        if locked {
            assert(pool@.buffers =~= old(pool)@.with_ledger(
                self@,
                gpu_locked(old(pool)@.ledger_of(self@), self@.index),
            ).buffers);
            Ok(())
        } else {
            assert(pool@.buffers =~= old(pool)@.buffers);
            Err(AccessError::AlreadyInUse)
        }
    }

    /// Counts one more GPU hold on the chunk.
    pub fn increase_gpu_lock(&self, pool: &mut CpuBufferPool<T>)
        requires
            old(pool)@.wf(),
            old(pool)@.holds(self@),
            old(pool)@.chunk_of(self@).num_gpu_accesses < usize::MAX,
        ensures
            final(pool)@ == old(pool)@.with_ledger(
                self@,
                gpu_extended(old(pool)@.ledger_of(self@), self@.index),
            ),
            final(pool)@.chunk_of(self@) == old(pool)@.chunk_of(self@).with_counts(
                old(pool)@.chunk_of(self@).num_cpu_accesses as int,
                old(pool)@.chunk_of(self@).num_gpu_accesses + 1,
            ),
            old(pool)@.others_untouched(final(pool)@, self@),
            final(pool)@.wf(),
            forall|g: ChunkRef| old(pool)@.holds(g) <==> final(pool)@.holds(g),
    {
        proof {
            let c = pool@.chunk_of(self@);
            lemma_holds(pool@.ledger_of(self@), self.index);
            assert(pool@.buffers[self.buffer as int].wf());
            lemma_pool_recount(pool@, self@, c.num_cpu_accesses as int, c.num_gpu_accesses + 1);
        }
        extend_entry_lock(&mut pool.buffers[self.buffer].chunks_in_use, self.index);
        assert(pool@.buffers =~= old(pool)@.with_ledger(
            self@,
            gpu_extended(old(pool)@.ledger_of(self@), self@.index),
        ).buffers);
    }

    /// Gives up one GPU hold on the chunk.
    pub fn unlock(&self, pool: &mut CpuBufferPool<T>)
        requires
            old(pool)@.wf(),
            old(pool)@.holds(self@),
            old(pool)@.chunk_of(self@).num_gpu_accesses >= 1,
        ensures
            final(pool)@ == old(pool)@.with_ledger(
                self@,
                gpu_unlocked(old(pool)@.ledger_of(self@), self@.index),
            ),
            final(pool)@.chunk_of(self@) == old(pool)@.chunk_of(self@).with_counts(
                old(pool)@.chunk_of(self@).num_cpu_accesses as int,
                old(pool)@.chunk_of(self@).num_gpu_accesses - 1,
            ),
            old(pool)@.others_untouched(final(pool)@, self@),
            final(pool)@.wf(),
            forall|g: ChunkRef| old(pool)@.holds(g) <==> final(pool)@.holds(g),
    {
        proof {
            let c = pool@.chunk_of(self@);
            lemma_holds(pool@.ledger_of(self@), self.index);
            assert(pool@.buffers[self.buffer as int].wf());
            lemma_pool_recount(pool@, self@, c.num_cpu_accesses as int, c.num_gpu_accesses - 1);
        }
        unlock_entry(&mut pool.buffers[self.buffer].chunks_in_use, self.index);
        assert(pool@.buffers =~= old(pool)@.with_ledger(
            self@,
            gpu_unlocked(old(pool)@.ledger_of(self@), self@.index),
        ).buffers);
    }

    /// Gives the sub-buffer back. The chunk stays reserved while a duplicate
    /// of the sub-buffer is left; with the last one it leaves the ledger, and
    /// the GPU must have given up its holds by then.
    pub fn release(self, pool: &mut CpuBufferPool<T>)
        requires
            old(pool)@.wf(),
            old(pool)@.holds(self@),
            old(pool)@.chunk_of(self@).num_cpu_accesses <= 1 ==> old(pool)@.chunk_of(
                self@,
            ).num_gpu_accesses == 0,
        ensures
            final(pool)@ == old(pool)@.after_release(self@),
            final(pool)@.ledger_of(self@) == released(old(pool)@.ledger_of(self@), self@.index),
            old(pool)@.chunk_of(self@).num_cpu_accesses >= 2 ==> final(pool)@.chunk_of(self@)
                == old(pool)@.chunk_of(self@).with_counts(
                old(pool)@.chunk_of(self@).num_cpu_accesses - 1,
                old(pool)@.chunk_of(self@).num_gpu_accesses as int,
            ),
            old(pool)@.chunk_of(self@).num_cpu_accesses >= 2 ==> forall|g: ChunkRef|
                old(pool)@.holds(g) ==> final(pool)@.holds(g),
            old(pool)@.chunk_of(self@).num_cpu_accesses <= 1 ==> final(pool)@.ledger_of(self@).len()
                == old(pool)@.ledger_of(self@).len() - 1,
            old(pool)@.others_untouched(final(pool)@, self@),
            final(pool)@.wf(),
    {
        proof {
            lemma_pool_released(pool@, self@);
        }
        let current = pool.buffers.len() - 1;
        release_entry(&mut pool.buffers[self.buffer].chunks_in_use, self.index);
        if self.buffer < current {
            pool.buffers[self.buffer].retire();
        }
        assert(pool@.buffers =~= old(pool)@.after_release(self@).buffers);
    }
}

} // verus!
