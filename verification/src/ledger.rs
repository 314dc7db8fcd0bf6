//! The chunk ledger: which ranges of a buffer are reserved, by how many
//! holders, and where the next chunk may be placed.

use vstd::prelude::*;

verus! {

/// Access pattern of one reserved chunk of a buffer.
#[derive(Clone, Copy, Debug)]
pub struct ActualBufferChunk {
    /// First element number within the buffer.
    pub index: usize,
    /// Number of occupied elements within the buffer.
    pub len: usize,
    /// Number of CPU-side holders of the chunk.
    pub num_cpu_accesses: usize,
    /// Number of GPU-side holds on the chunk.
    pub num_gpu_accesses: usize,
}

impl ActualBufferChunk {
    /// One past the last element of the chunk.
    pub open spec fn end(self) -> int {
        self.index + self.len
    }

    /// Element `k` lies inside the chunk.
    pub open spec fn covers(self, k: int) -> bool {
        self.index <= k < self.end()
    }

    /// The two chunks lie one wholly before the other.
    pub open spec fn apart(self, other: ActualBufferChunk) -> bool {
        self.end() <= other.index || other.end() <= self.index
    }

    /// The chunk stands in the way of a new chunk of `len` elements at `start`:
    /// it begins inside the new range, or the new range begins inside it.
    pub open spec fn blocks(self, start: usize, len: usize) -> bool {
        (start <= self.index < start + len) || (self.index <= start < self.end())
    }

    /// The same chunk with other holder counts.
    pub open spec fn with_counts(self, cpu: int, gpu: int) -> ActualBufferChunk {
        ActualBufferChunk {
            index: self.index,
            len: self.len,
            num_cpu_accesses: cpu as usize,
            num_gpu_accesses: gpu as usize,
        }
    }

    /// A chunk as it is entered at reservation: one CPU-side holder, no GPU hold.
    pub open spec fn fresh(index: usize, len: usize) -> ActualBufferChunk {
        ActualBufferChunk { index, len, num_cpu_accesses: 1, num_gpu_accesses: 0 }
    }
}

/// A ledger is well formed for a buffer of `capacity` elements when every
/// chunk lies inside the buffer and has a CPU-side holder, and no two chunks
/// overlap.
pub open spec fn ledger_wf(l: Seq<ActualBufferChunk>, capacity: usize) -> bool {
    &&& forall|i: int|
        0 <= i < l.len() ==> (#[trigger] l[i]).end() <= capacity && l[i].num_cpu_accesses >= 1
    &&& forall|i: int, j: int| #![trigger l[i], l[j]] 0 <= i < j < l.len() ==> l[i].apart(l[j])
}

/// A new chunk of `n` elements fits at the cursor.
pub open spec fn cursor_free(
    l: Seq<ActualBufferChunk>,
    cursor: usize,
    n: usize,
    capacity: usize,
) -> bool {
    &&& cursor + n <= capacity
    &&& forall|i: int| 0 <= i < l.len() ==> !(#[trigger] l[i]).blocks(cursor, n)
}

/// A new chunk of `n` elements fits at the start of the buffer. The test is
/// coarse on purpose: any chunk that starts before element `n` stands in the way.
pub open spec fn front_free(l: Seq<ActualBufferChunk>, n: usize, capacity: usize) -> bool {
    &&& n <= capacity
    &&& forall|i: int| 0 <= i < l.len() ==> (#[trigger] l[i]).index >= n
}

/// Where a new chunk of `n` elements goes: at the cursor if it fits there,
/// else at the start of the buffer if it fits there, else nowhere.
pub open spec fn placement(
    l: Seq<ActualBufferChunk>,
    cursor: usize,
    n: usize,
    capacity: usize,
) -> Option<usize> {
    if cursor_free(l, cursor, n, capacity) {
        Some(cursor)
    } else if front_free(l, n, capacity) {
        Some(0)
    } else {
        None
    }
}

/// Some chunk of the ledger starts at `index`.
pub open spec fn ledger_holds(l: Seq<ActualBufferChunk>, index: usize) -> bool {
    exists|i: int| 0 <= i < l.len() && (#[trigger] l[i]).index == index
}

/// `p` is the position of the first chunk that starts at `index`.
pub open spec fn is_first_at(l: Seq<ActualBufferChunk>, index: usize, p: int) -> bool {
    &&& 0 <= p < l.len()
    &&& l[p].index == index
    &&& forall|j: int| 0 <= j < p ==> (#[trigger] l[j]).index != index
}

/// The position of the first chunk that starts at `index`.
pub open spec fn first_at(l: Seq<ActualBufferChunk>, index: usize) -> int {
    choose|p: int| is_first_at(l, index, p)
}

/// The chunk that a holder of `index` refers to.
pub open spec fn entry(l: Seq<ActualBufferChunk>, index: usize) -> ActualBufferChunk {
    l[first_at(l, index)]
}

/// The ledger after the holder counts of the chunk at `index` were set.
pub open spec fn recount(
    l: Seq<ActualBufferChunk>,
    index: usize,
    cpu: int,
    gpu: int,
) -> Seq<ActualBufferChunk> {
    l.update(first_at(l, index), entry(l, index).with_counts(cpu, gpu))
}

/// The ledger after one more CPU-side holder took the chunk at `index`.
pub open spec fn duplicated(l: Seq<ActualBufferChunk>, index: usize) -> Seq<ActualBufferChunk> {
    let c = entry(l, index);
    recount(l, index, c.num_cpu_accesses + 1, c.num_gpu_accesses as int)
}

/// The ledger after the GPU took its first hold on the chunk at `index`.
pub open spec fn gpu_locked(l: Seq<ActualBufferChunk>, index: usize) -> Seq<ActualBufferChunk> {
    recount(l, index, entry(l, index).num_cpu_accesses as int, 1)
}

/// The ledger after the GPU took one more hold on the chunk at `index`.
pub open spec fn gpu_extended(l: Seq<ActualBufferChunk>, index: usize) -> Seq<ActualBufferChunk> {
    let c = entry(l, index);
    recount(l, index, c.num_cpu_accesses as int, c.num_gpu_accesses + 1)
}

/// The ledger after the GPU gave up one hold on the chunk at `index`.
pub open spec fn gpu_unlocked(l: Seq<ActualBufferChunk>, index: usize) -> Seq<ActualBufferChunk> {
    let c = entry(l, index);
    recount(l, index, c.num_cpu_accesses as int, c.num_gpu_accesses - 1)
}

/// The ledger after one CPU-side holder let go of the chunk at `index`: the
/// chunk stays while another holder is left, and leaves with the last one.
pub open spec fn released(l: Seq<ActualBufferChunk>, index: usize) -> Seq<ActualBufferChunk> {
    let c = entry(l, index);
    if c.num_cpu_accesses >= 2 {
        recount(l, index, c.num_cpu_accesses - 1, c.num_gpu_accesses as int)
    } else {
        l.remove(first_at(l, index))
    }
}

/// The first chunk that starts at `index` is the only position that is it.
pub proof fn lemma_first_at(l: Seq<ActualBufferChunk>, index: usize, p: int)
    requires
        is_first_at(l, index, p),
    ensures
        first_at(l, index) == p,
        ledger_holds(l, index),
{
    let q = first_at(l, index);
    assert(is_first_at(l, index, q));
    if q < p {
        assert(l[q].index != index);
    }
    if p < q {
        assert(l[p].index != index);
    }
}

/// Among the chunks that start at `index`, one comes first.
proof fn lemma_some_first(l: Seq<ActualBufferChunk>, index: usize, i: int)
    requires
        0 <= i < l.len(),
        l[i].index == index,
    ensures
        exists|p: int| is_first_at(l, index, p),
    decreases i,
{
    if forall|j: int| 0 <= j < i ==> (#[trigger] l[j]).index != index {
        assert(is_first_at(l, index, i));
    } else {
        let j = choose|j: int| 0 <= j < i && (#[trigger] l[j]).index == index;
        lemma_some_first(l, index, j);
    }
}

/// A ledger that holds a chunk at `index` has a first such chunk.
pub proof fn lemma_holds(l: Seq<ActualBufferChunk>, index: usize)
    requires
        ledger_holds(l, index),
    ensures
        is_first_at(l, index, first_at(l, index)),
        entry(l, index).index == index,
{
    let i = choose|i: int| 0 <= i < l.len() && (#[trigger] l[i]).index == index;
    lemma_some_first(l, index, i);
}

/// Finds where a new chunk of `data_len` elements goes in a buffer of
/// `capacity` elements whose cursor stands at `next_index`.
pub fn find_placement(
    chunks: &Vec<ActualBufferChunk>,
    next_index: usize,
    data_len: usize,
    capacity: usize,
) -> (r: Option<usize>)
    ensures
        r == placement(chunks@, next_index, data_len, capacity),
{
    let mut at_cursor: bool = next_index <= capacity && data_len <= capacity - next_index;
    let mut at_front: bool = data_len <= capacity;
    let mut i: usize = 0;
    while i < chunks.len()
        invariant
            i <= chunks.len(),
            at_cursor == (next_index + data_len <= capacity && forall|k: int|
                0 <= k < i ==> !(#[trigger] chunks@[k]).blocks(next_index, data_len)),
            at_front == (data_len <= capacity && forall|k: int|
                0 <= k < i ==> (#[trigger] chunks@[k]).index >= data_len),
        decreases chunks.len() - i,
    {
        let c = chunks[i];
        if at_cursor {
            let starts_inside = c.index >= next_index && c.index - next_index < data_len;
            let holds_start = c.index <= next_index && next_index - c.index < c.len;
            if starts_inside || holds_start {
                at_cursor = false;
            }
        }
        if c.index < data_len {
            at_front = false;
        }
        i += 1;
    }
    if at_cursor {
        Some(next_index)
    } else if at_front {
        Some(0)
    } else {
        None
    }
}

/// Finds the first chunk that starts at `index`.
pub fn position(chunks: &Vec<ActualBufferChunk>, index: usize) -> (r: Option<usize>)
    ensures
        match r {
            Some(p) => is_first_at(chunks@, index, p as int) && p == first_at(chunks@, index),
            None => !ledger_holds(chunks@, index),
        },
        r is Some <==> ledger_holds(chunks@, index),
{
    let mut i: usize = 0;
    while i < chunks.len()
        invariant
            i <= chunks.len(),
            forall|k: int| 0 <= k < i ==> (#[trigger] chunks@[k]).index != index,
        decreases chunks.len() - i,
    {
        if chunks[i].index == index {
            proof {
                lemma_first_at(chunks@, index, i as int);
            }
            return Some(i);
        }
        i += 1;
    }
    None
}

/// Setting the holder counts of a chunk moves no chunk: the ledger stays well
/// formed, and every holder finds the chunk it found before.
pub proof fn lemma_recount(
    l: Seq<ActualBufferChunk>,
    index: usize,
    cpu: int,
    gpu: int,
    capacity: usize,
)
    requires
        ledger_holds(l, index),
        1 <= cpu <= usize::MAX,
        0 <= gpu <= usize::MAX,
    ensures
        ledger_wf(l, capacity) ==> ledger_wf(recount(l, index, cpu, gpu), capacity),
        recount(l, index, cpu, gpu).len() == l.len(),
        forall|other: usize, p: int|
            is_first_at(l, other, p) <==> is_first_at(recount(l, index, cpu, gpu), other, p),
        forall|other: usize|
            ledger_holds(l, other) <==> ledger_holds(recount(l, index, cpu, gpu), other),
        forall|other: usize|
            ledger_holds(l, other) ==> first_at(recount(l, index, cpu, gpu), other) == first_at(
                l,
                other,
            ),
        entry(recount(l, index, cpu, gpu), index) == entry(l, index).with_counts(cpu, gpu),
{
    lemma_holds(l, index);
    let p0 = first_at(l, index);
    let r = recount(l, index, cpu, gpu);
    assert forall|k: int| 0 <= k < l.len() implies (#[trigger] r[k]).index == l[k].index && r[k].len
        == l[k].len by {}
    assert forall|other: usize, p: int| is_first_at(l, other, p) <==> is_first_at(
        r,
        other,
        p,
    ) by {
        if is_first_at(l, other, p) {
            assert forall|j: int| 0 <= j < p implies (#[trigger] r[j]).index != other by {
                assert(l[j].index != other);
            }
        }
        if is_first_at(r, other, p) {
            assert forall|j: int| 0 <= j < p implies (#[trigger] l[j]).index != other by {
                assert(r[j].index != other);
            }
        }
    }
    assert forall|other: usize| ledger_holds(l, other) <==> ledger_holds(r, other) by {
        if ledger_holds(l, other) {
            let i = choose|i: int| 0 <= i < l.len() && (#[trigger] l[i]).index == other;
            assert(r[i].index == other);
        }
        if ledger_holds(r, other) {
            let i = choose|i: int| 0 <= i < r.len() && (#[trigger] r[i]).index == other;
            assert(l[i].index == other);
        }
    }
    assert forall|other: usize| ledger_holds(l, other) implies first_at(r, other) == first_at(
        l,
        other,
    ) by {
        let q = first_at(l, other);
        lemma_holds(l, other);
        lemma_first_at(r, other, q);
    }
    if ledger_wf(l, capacity) {
        assert forall|i: int| 0 <= i < r.len() implies (#[trigger] r[i]).end() <= capacity
            && r[i].num_cpu_accesses >= 1 by {
            assert(l[i].end() <= capacity);
        }
        assert forall|i: int, j: int|
            #![trigger r[i], r[j]]
            0 <= i < j < r.len() implies r[i].apart(r[j]) by {
            assert(l[i].apart(l[j]));
        }
    }
}

/// Taking the first chunk at `index` out leaves a well-formed ledger, in which
/// the holders of chunks that start elsewhere still find them.
pub proof fn lemma_remove(l: Seq<ActualBufferChunk>, index: usize, capacity: usize)
    requires
        ledger_holds(l, index),
    ensures
        ledger_wf(l, capacity) ==> ledger_wf(l.remove(first_at(l, index)), capacity),
        forall|other: usize|
            other != index ==> (ledger_holds(l, other) <==> ledger_holds(
                l.remove(first_at(l, index)),
                other,
            )),
        forall|other: usize|
            other != index && ledger_holds(l, other) ==> entry(
                l.remove(first_at(l, index)),
                other,
            ) == entry(l, other),
{
    lemma_holds(l, index);
    let p0 = first_at(l, index);
    let r = l.remove(p0);
    assert forall|k: int| 0 <= k < r.len() implies (#[trigger] r[k]) == l[if k < p0 {
        k
    } else {
        k + 1
    }] by {}
    assert forall|other: usize| other != index implies (ledger_holds(l, other) <==> ledger_holds(
        r,
        other,
    )) by {
        if ledger_holds(l, other) {
            let i = choose|i: int| 0 <= i < l.len() && (#[trigger] l[i]).index == other;
            let k = if i < p0 {
                i
            } else {
                i - 1
            };
            assert(r[k].index == other);
        }
        if ledger_holds(r, other) {
            let k = choose|k: int| 0 <= k < r.len() && (#[trigger] r[k]).index == other;
            let i = if k < p0 {
                k
            } else {
                k + 1
            };
            assert(l[i].index == other);
        }
    }
    assert forall|other: usize| other != index && ledger_holds(l, other) implies entry(r, other)
        == entry(l, other) by {
        let q = first_at(l, other);
        lemma_holds(l, other);
        let k = if q < p0 {
            q
        } else {
            q - 1
        };
        assert forall|j: int| 0 <= j < k implies (#[trigger] r[j]).index != other by {
            let i = if j < p0 {
                j
            } else {
                j + 1
            };
            assert(l[i].index != other);
        }
        lemma_first_at(r, other, k);
    }
    if ledger_wf(l, capacity) {
        assert forall|i: int| 0 <= i < r.len() implies (#[trigger] r[i]).end() <= capacity
            && r[i].num_cpu_accesses >= 1 by {
            let a = if i < p0 {
                i
            } else {
                i + 1
            };
            assert(l[a].end() <= capacity);
        }
        assert forall|i: int, j: int|
            #![trigger r[i], r[j]]
            0 <= i < j < r.len() implies r[i].apart(r[j]) by {
            let a = if i < p0 {
                i
            } else {
                i + 1
            };
            let b = if j < p0 {
                j
            } else {
                j + 1
            };
            assert(l[a].apart(l[b]));
        }
    }
}

/// A chunk entered where `placement` says overlaps no chunk of the ledger,
/// and the holders of the chunks that were there still find them.
pub proof fn lemma_placed(
    l: Seq<ActualBufferChunk>,
    cursor: usize,
    n: usize,
    capacity: usize,
    offset: usize,
)
    requires
        placement(l, cursor, n, capacity) == Some(offset),
    ensures
        offset + n <= capacity,
        ledger_wf(l, capacity) ==> ledger_wf(
            l.push(ActualBufferChunk::fresh(offset, n)),
            capacity,
        ),
        ledger_holds(l.push(ActualBufferChunk::fresh(offset, n)), offset),
        forall|other: usize|
            ledger_holds(l, other) ==> ledger_holds(
                l.push(ActualBufferChunk::fresh(offset, n)),
                other,
            ) && entry(l.push(ActualBufferChunk::fresh(offset, n)), other) == entry(l, other),
        n > 0 ==> !ledger_holds(l, offset) && entry(
            l.push(ActualBufferChunk::fresh(offset, n)),
            offset,
        ) == ActualBufferChunk::fresh(offset, n),
{
    let c = ActualBufferChunk::fresh(offset, n);
    let r = l.push(c);
    assert(r[l.len() as int] == c);
    if n > 0 {
        assert forall|j: int| 0 <= j < l.len() implies (#[trigger] l[j]).index != offset by {
            if cursor_free(l, cursor, n, capacity) {
                assert(!l[j].blocks(cursor, n));
            } else {
                assert(l[j].index >= n);
            }
        }
        assert forall|j: int| 0 <= j < l.len() implies (#[trigger] r[j]).index != offset by {
            assert(r[j] == l[j]);
        }
        lemma_first_at(r, offset, l.len() as int);
    }
    assert forall|other: usize| ledger_holds(l, other) implies ledger_holds(r, other) && entry(
        r,
        other,
    ) == entry(l, other) by {
        let q = first_at(l, other);
        lemma_holds(l, other);
        assert(r[q] == l[q]);
        assert forall|j: int| 0 <= j < q implies (#[trigger] r[j]).index != other by {
            assert(l[j].index != other);
        }
        lemma_first_at(r, other, q);
    }
    if ledger_wf(l, capacity) {
        assert forall|i: int| 0 <= i < r.len() implies (#[trigger] r[i]).end() <= capacity
            && r[i].num_cpu_accesses >= 1 by {
            if i < l.len() {
                assert(l[i].end() <= capacity);
            }
        }
        assert forall|i: int, j: int|
            #![trigger r[i], r[j]]
            0 <= i < j < r.len() implies r[i].apart(r[j]) by {
            if j < l.len() {
                assert(l[i].apart(l[j]));
            } else {
                assert(r[i] == l[i]);
                if cursor_free(l, cursor, n, capacity) {
                    assert(!l[i].blocks(cursor, n));
                } else {
                    assert(l[i].index >= n);
                }
            }
        }
    }
}

/// Counts one more CPU-side holder of the chunk at `index`.
pub fn add_cpu_access(chunks: &mut Vec<ActualBufferChunk>, index: usize)
    requires
        ledger_holds(old(chunks)@, index),
        entry(old(chunks)@, index).num_cpu_accesses < usize::MAX,
    ensures
        final(chunks)@ == duplicated(old(chunks)@, index),
{
    let p = position(chunks, index).unwrap();
    let c = chunks[p];
    chunks[p] = ActualBufferChunk {
        index: c.index,
        len: c.len,
        num_cpu_accesses: c.num_cpu_accesses + 1,
        num_gpu_accesses: c.num_gpu_accesses,
    };
}

/// Takes the GPU's first hold on the chunk at `index`, unless the GPU holds
/// it already.
pub fn lock_entry(chunks: &mut Vec<ActualBufferChunk>, index: usize) -> (locked: bool)
    requires
        ledger_holds(old(chunks)@, index),
    ensures
        locked == (entry(old(chunks)@, index).num_gpu_accesses == 0),
        locked ==> final(chunks)@ == gpu_locked(old(chunks)@, index),
        !locked ==> final(chunks)@ == old(chunks)@,
{
    let p = position(chunks, index).unwrap();
    let c = chunks[p];
    if c.num_gpu_accesses != 0 {
        return false;
    }
    chunks[p] = ActualBufferChunk {
        index: c.index,
        len: c.len,
        num_cpu_accesses: c.num_cpu_accesses,
        num_gpu_accesses: 1,
    };
    true
}

/// Counts one more GPU hold on the chunk at `index`.
pub fn extend_entry_lock(chunks: &mut Vec<ActualBufferChunk>, index: usize)
    requires
        ledger_holds(old(chunks)@, index),
        entry(old(chunks)@, index).num_gpu_accesses < usize::MAX,
    ensures
        final(chunks)@ == gpu_extended(old(chunks)@, index),
{
    let p = position(chunks, index).unwrap();
    let c = chunks[p];
    chunks[p] = ActualBufferChunk {
        index: c.index,
        len: c.len,
        num_cpu_accesses: c.num_cpu_accesses,
        num_gpu_accesses: c.num_gpu_accesses + 1,
    };
}

/// Gives up one GPU hold on the chunk at `index`.
pub fn unlock_entry(chunks: &mut Vec<ActualBufferChunk>, index: usize)
    requires
        ledger_holds(old(chunks)@, index),
        entry(old(chunks)@, index).num_gpu_accesses >= 1,
    ensures
        final(chunks)@ == gpu_unlocked(old(chunks)@, index),
{
    let p = position(chunks, index).unwrap();
    let c = chunks[p];
    chunks[p] = ActualBufferChunk {
        index: c.index,
        len: c.len,
        num_cpu_accesses: c.num_cpu_accesses,
        num_gpu_accesses: c.num_gpu_accesses - 1,
    };
}

/// Lets one CPU-side holder go of the chunk at `index`; with the last holder
/// the chunk leaves the ledger, which the GPU must not hold then.
pub fn release_entry(chunks: &mut Vec<ActualBufferChunk>, index: usize)
    requires
        ledger_holds(old(chunks)@, index),
        entry(old(chunks)@, index).num_cpu_accesses <= 1 ==> entry(
            old(chunks)@,
            index,
        ).num_gpu_accesses == 0,
    ensures
        final(chunks)@ == released(old(chunks)@, index),
{
    let p = position(chunks, index).unwrap();
    let c = chunks[p];
    if c.num_cpu_accesses >= 2 {
        chunks[p] = ActualBufferChunk {
            index: c.index,
            len: c.len,
            num_cpu_accesses: c.num_cpu_accesses - 1,
            num_gpu_accesses: c.num_gpu_accesses,
        };
    } else {
        chunks.remove(p);
    }
}

} // verus!
