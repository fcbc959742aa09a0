//! Ordered reassembly: chunks complete out of order; the buffer holds the
//! early arrivals and releases bytes in strict index order from a moving
//! cursor.

use vstd::prelude::*;
use crate::chunk::DownloadedChunk;

verus! {

/// Index-keyed holding area for completed chunks. `next_expected` is the
/// lowest index whose bytes have not been released yet; everything below it
/// has already left the buffer in order.
pub struct ReassemblyBuffer {
    slots: Vec<Option<Vec<u8>>>,
    next_expected: usize,
}

impl ReassemblyBuffer {
    /// How many chunks the download was planned into.
    pub closed spec fn total(self) -> int {
        self.slots@.len() as int
    }

    /// The lowest index not yet released.
    pub closed spec fn cursor(self) -> int {
        self.next_expected as int
    }

    /// The bytes held for index `i`, `None` when `i` has not arrived (or
    /// has already been released).
    pub closed spec fn slot(self, i: int) -> Option<Seq<u8>> {
        match self.slots@[i] {
            Some(d) => Some(d@),
            None => None,
        }
    }

    pub closed spec fn wf(self) -> bool {
        &&& self.next_expected <= self.slots@.len()
        &&& forall|i: int| 0 <= i < self.next_expected ==> self.slots@[i] is None
    }

    /// An empty buffer for a download of `total_chunks` chunks.
    pub fn new(total_chunks: usize) -> (buf: ReassemblyBuffer)
        ensures
            buf.wf(),
            buf.total() == total_chunks,
            buf.cursor() == 0,
            forall|i: int| 0 <= i < total_chunks ==> buf.slot(i) is None,
    {
        let mut slots: Vec<Option<Vec<u8>>> = Vec::new();
        let mut k: usize = 0;
        while k < total_chunks
            invariant
                k == slots@.len(),
                k <= total_chunks,
                forall|i: int| 0 <= i < k ==> slots@[i] is None,
            decreases total_chunks - k,
        {
            slots.push(None);
            k = k + 1;
        }
        ReassemblyBuffer { slots, next_expected: 0 }
    }

    pub fn total_chunks(&self) -> (n: usize)
        ensures
            n == self.total(),
    {
        self.slots.len()
    }

    pub fn next_index(&self) -> (n: usize)
        ensures
            n == self.cursor(),
    {
        self.next_expected
    }

    /// Whether every chunk has been released: the writer's early
    /// termination signal.
    pub fn is_complete(&self) -> (b: bool)
        ensures
            b == (self.cursor() == self.total()),
    {
        self.next_expected == self.slots.len()
    }

    /// Whether the bytes of index `i` sit in the buffer, still waiting for
    /// their turn.
    pub fn holds(&self, i: usize) -> (b: bool)
        requires
            i < self.total(),
        ensures
            b == (self.slot(i as int) is Some),
    {
        self.slots[i].is_some()
    }

    /// Accept the arrival of one completed chunk and release the longest
    /// contiguous run of pending bytes starting at the cursor: the returned
    /// vector holds, in index order, the data of the chunks the cursor
    /// moved past. Each planned index arrives exactly once.
    pub fn insert(&mut self, chunk: DownloadedChunk) -> (drained: Vec<Vec<u8>>)
        requires
            old(self).wf(),
            old(self).cursor() <= chunk.index < old(self).total(),
            old(self).slot(chunk.index as int) is None,
        ensures
            final(self).wf(),
            final(self).total() == old(self).total(),
            final(self).cursor() == old(self).cursor() + drained@.len(),
            old(self).cursor() <= final(self).cursor() <= final(self).total(),
            forall|k: int|
                0 <= k < drained@.len() ==> Some((#[trigger] drained@[k])@) == slot_with(
                    *old(self),
                    chunk,
                    old(self).cursor() + k,
                ),
            forall|i: int|
                final(self).cursor() <= i < final(self).total() ==> #[trigger] final(self).slot(i)
                    == slot_with(*old(self), chunk, i),
            final(self).cursor() == final(self).total() || slot_with(
                *old(self),
                chunk,
                final(self).cursor(),
            ) is None,
    {
        let idx = chunk.index;
        self.slots[idx] = Some(chunk.data);
        let ghost base = old(self).cursor();
        let ghost updated = self.slots@;
        proof {
            assert(updated =~= old(self).slots@.update(idx as int, Some(chunk.data)));
        }
        let mut drained: Vec<Vec<u8>> = Vec::new();
        while self.next_expected < self.slots.len() && self.slots[self.next_expected].is_some()
            invariant
                self.slots@.len() == updated.len(),
                base <= self.next_expected <= self.slots@.len(),
                drained@.len() == self.next_expected - base,
                forall|i: int| 0 <= i < self.next_expected ==> self.slots@[i] is None,
                forall|i: int|
                    self.next_expected <= i < self.slots@.len() ==> self.slots@[i] == updated[i],
                forall|k: int|
                    0 <= k < drained@.len() ==> updated[base + k] == Some(#[trigger] drained@[k]),
            decreases self.slots@.len() - self.next_expected,
        {
            let ne = self.next_expected;
            let taken = self.slots[ne].take();
            proof {
                assert(taken == updated[ne as int]);
                assert(taken is Some);
            }
            let d = taken.unwrap();
            let ghost prev = drained@;
            drained.push(d);
            self.next_expected = ne + 1;
            proof {
                assert(drained@ =~= prev.push(d));
                assert forall|k: int|
                    0 <= k < drained@.len() implies updated[base + k] == Some(
                    #[trigger] drained@[k]) by {
                    if k < prev.len() {
                        assert(drained@[k] == prev[k]);
                    } else {
                        assert(drained@[k] == d);
                        assert(base + k == ne as int);
                    }
                }
            }
        }
        proof {
            let fin = *self;
            assert forall|k: int| 0 <= k < drained@.len() implies Some((#[trigger] drained@[k])@)
                == slot_with(*old(self), chunk, base + k) by {
                assert(updated[base + k] == Some(drained@[k]));
            }
            assert forall|i: int| fin.cursor() <= i < fin.total() implies #[trigger] fin.slot(i)
                == slot_with(*old(self), chunk, i) by {
                assert(fin.slots@[i] == updated[i]);
            }
            if fin.cursor() != fin.total() {
                assert(fin.slots@[fin.cursor()] == updated[fin.cursor()]);
                assert(fin.slots@[fin.cursor()] is None);
            }
        }
        drained
    }
}

/// What the buffer holds for index `i` just after `chunk` has arrived into
/// the state `buf`: the new data at the chunk's own index, the old contents
/// everywhere else.
pub open spec fn slot_with(buf: ReassemblyBuffer, chunk: DownloadedChunk, i: int) -> Option<
    Seq<u8>,
> {
    if i == chunk.index {
        Some(chunk.data@)
    } else {
        buf.slot(i)
    }
}

/// Every arrival carries an index below `n`.
pub open spec fn indices_below(arr: Seq<DownloadedChunk>, n: int) -> bool {
    forall|k: int| 0 <= k < arr.len() ==> (#[trigger] arr[k]).index < n
}

/// No two arrivals carry the same index.
pub open spec fn distinct_indices(arr: Seq<DownloadedChunk>) -> bool {
    forall|j: int, k: int|
        0 <= j < k < arr.len() ==> (#[trigger] arr[j]).index != (#[trigger] arr[k]).index
}

/// Some arrival carries index `i`.
pub open spec fn has_index(arr: Seq<DownloadedChunk>, i: int) -> bool {
    exists|k: int| 0 <= k < arr.len() && (#[trigger] arr[k]).index == i
}

/// The arrival sequence delivers each of the `n` planned indices exactly
/// once, in whatever order.
pub open spec fn complete_arrivals(arr: Seq<DownloadedChunk>, n: int) -> bool {
    &&& arr.len() == n
    &&& indices_below(arr, n)
    &&& distinct_indices(arr)
    &&& forall|i: int| 0 <= i < n ==> has_index(arr, i)
}

/// The bytes that the arrival sequence carries for index `i`.
pub open spec fn data_of(arr: Seq<DownloadedChunk>, i: int) -> Seq<u8> {
    arr[choose|k: int| 0 <= k < arr.len() && arr[k].index == i].data@
}

/// The bytes of indices `0, 1, .., upto - 1`, concatenated in index order.
/// This depends only on what each index carries, never on arrival order.
pub open spec fn index_ordered_bytes(arr: Seq<DownloadedChunk>, upto: int) -> Seq<u8>
    decreases upto,
{
    if upto <= 0 {
        Seq::empty()
    } else {
        index_ordered_bytes(arr, upto - 1) + data_of(arr, upto - 1)
    }
}

proof fn lemma_index_ordered_step(arr: Seq<DownloadedChunk>, upto: int)
    requires
        upto >= 1,
    ensures
        index_ordered_bytes(arr, upto) == index_ordered_bytes(arr, upto - 1) + data_of(
            arr,
            upto - 1,
        ),
{
}

/// Under distinct indices, `data_of` at the index of position `j` is the
/// data stored at position `j`.
pub proof fn lemma_data_of_at(arr: Seq<DownloadedChunk>, j: int)
    requires
        distinct_indices(arr),
        0 <= j < arr.len(),
    ensures
        has_index(arr, arr[j].index as int),
        data_of(arr, arr[j].index as int) == arr[j].data@,
{
    let i = arr[j].index as int;
    assert(0 <= j < arr.len() && arr[j].index == i);
    let k = choose|k: int| 0 <= k < arr.len() && arr[k].index == i;
    if k < j {
        assert(arr[k].index != arr[j].index);
        assert(false);
    } else if j < k {
        assert(arr[j].index != arr[k].index);
        assert(false);
    }
}

proof fn lemma_index_ordered_congruence(
    arr1: Seq<DownloadedChunk>,
    arr2: Seq<DownloadedChunk>,
    upto: int,
)
    requires
        forall|i: int| 0 <= i < upto ==> data_of(arr1, i) == data_of(arr2, i),
    ensures
        index_ordered_bytes(arr1, upto) == index_ordered_bytes(arr2, upto),
    decreases upto,
{
    if upto > 0 {
        lemma_index_ordered_congruence(arr1, arr2, upto - 1);
    }
}

/// Law (reorder invariance): two complete arrival sequences that carry the
/// same bytes per index produce the same output, whatever order the chunks
/// completed in.
pub proof fn lemma_reorder_invariance(
    arr1: Seq<DownloadedChunk>,
    arr2: Seq<DownloadedChunk>,
    n: int,
)
    requires
        complete_arrivals(arr1, n),
        complete_arrivals(arr2, n),
        forall|i: int| 0 <= i < n ==> data_of(arr1, i) == data_of(arr2, i),
    ensures
        index_ordered_bytes(arr1, n) == index_ordered_bytes(arr2, n),
{
    lemma_index_ordered_congruence(arr1, arr2, n);
}

/// An arrival with index `i` stands among the first `j`.
spec fn arrived_before(arr: Seq<DownloadedChunk>, j: int, i: int) -> bool {
    exists|k: int| 0 <= k < j <= arr.len() && (#[trigger] arr[k]).index == i
}

/// Feed a complete set of arrivals, in the order given, through a
/// reassembly buffer and collect everything it releases: the output is the
/// chunks' bytes in index order, whatever the arrival order was.
pub fn process_all(total_chunks: usize, arrivals: Vec<DownloadedChunk>) -> (out: Vec<u8>)
    requires
        complete_arrivals(arrivals@, total_chunks as int),
    ensures
        out@ == index_ordered_bytes(arrivals@, total_chunks as int),
{
    let ghost arr = arrivals@;
    let ghost n = total_chunks as int;
    let mut pending = arrivals;
    let mut buf = ReassemblyBuffer::new(total_chunks);
    let mut out: Vec<u8> = Vec::new();
    let mut j: usize = 0;
    while j < total_chunks
        invariant
            complete_arrivals(arr, n),
            n == total_chunks as int,
            0 <= j <= n,
            pending@ =~= arr.skip(j as int),
            buf.wf(),
            buf.total() == n,
            forall|i: int| 0 <= i < buf.cursor() ==> arrived_before(arr, j as int, i),
            forall|i: int|
                buf.cursor() <= i < n ==> #[trigger] buf.slot(i) == if arrived_before(
                    arr,
                    j as int,
                    i,
                ) {
                    Some(data_of(arr, i))
                } else {
                    None
                },
            buf.cursor() == n || !arrived_before(arr, j as int, buf.cursor()),
            out@ == index_ordered_bytes(arr, buf.cursor()),
        decreases n - j,
    {
        let ghost pre = buf;
        let chunk = pending.remove(0);
        let ghost cidx = chunk.index as int;
        proof {
            assert(chunk == arr[j as int]);
            lemma_data_of_at(arr, j as int);
            assert(!arrived_before(arr, j as int, cidx));
            if cidx < buf.cursor() {
                assert(arrived_before(arr, j as int, cidx));
            }
            assert(buf.slot(cidx) is None);
            assert forall|i: int| arrived_before(arr, j as int + 1, i) == (arrived_before(
                arr,
                j as int,
                i,
            ) || i == cidx) by {
                if arrived_before(arr, j as int + 1, i) && i != cidx {
                    let k = choose|k: int|
                        0 <= k < j as int + 1 <= arr.len() && (#[trigger] arr[k]).index == i;
                    assert(0 <= k < j as int && arr[k].index == i);
                }
            }
        }
        let drained = buf.insert(chunk);
        let ghost c0 = pre.cursor();
        proof {
            assert forall|k: int| 0 <= k < drained@.len() implies slot_with(pre, arr[j as int], c0 + k)
                == Some(#[trigger] data_of(arr, c0 + k)) by {
                assert(Some(drained@[k]@) == slot_with(pre, chunk, c0 + k));
                if c0 + k != cidx {
                    assert(pre.slot(c0 + k) is Some);
                    assert(arrived_before(arr, j as int, c0 + k));
                }
            }
        }
        let mut m: usize = 0;
        while m < drained.len()
            invariant
                0 <= m <= drained@.len(),
                0 <= c0,
                buf.cursor() == c0 + drained@.len(),
                forall|k: int|
                    0 <= k < drained@.len() ==> Some((#[trigger] drained@[k])@) == slot_with(
                        pre,
                        arr[j as int],
                        c0 + k,
                    ),
                forall|k: int|
                    0 <= k < drained@.len() ==> slot_with(pre, arr[j as int], c0 + k) == Some(
                        #[trigger] data_of(arr, c0 + k),
                    ),
                out@ == index_ordered_bytes(arr, c0 + m),
            decreases drained@.len() - m,
        {
            let piece_len = drained[m].len();
            let mut b: usize = 0;
            while b < piece_len
                invariant
                    m < drained@.len(),
                    piece_len == drained@[m as int]@.len(),
                    0 <= b <= piece_len,
                    out@ =~= index_ordered_bytes(arr, c0 + m) + drained@[m as int]@.subrange(
                        0,
                        b as int,
                    ),
                decreases piece_len - b,
            {
                let byte = drained[m][b];
                out.push(byte);
                b = b + 1;
            }
            proof {
                assert(drained@[m as int]@.subrange(0, piece_len as int) =~= drained@[m as int]@);
                assert(Some(drained@[m as int]@) == Some(data_of(arr, c0 + m)));
                assert(out@ =~= index_ordered_bytes(arr, c0 + m) + data_of(arr, c0 + m));
                lemma_index_ordered_step(arr, c0 + m + 1);
                assert(index_ordered_bytes(arr, c0 + m + 1) == index_ordered_bytes(arr, c0 + m)
                    + data_of(arr, c0 + m));
                assert(out@ =~= index_ordered_bytes(arr, c0 + m + 1));
            }
            m = m + 1;
        }
        proof {
            let jn = j as int + 1;
            assert forall|i: int| 0 <= i < buf.cursor() implies arrived_before(arr, jn, i) by {
                if i < c0 {
                    assert(arrived_before(arr, j as int, i));
                    let k = choose|k: int|
                        0 <= k < j as int <= arr.len() && (#[trigger] arr[k]).index == i;
                    assert(0 <= k < jn <= arr.len() && arr[k].index == i);
                } else {
                    let kk = i - c0;
                    assert(slot_with(pre, arr[j as int], c0 + kk) == Some(data_of(arr, c0 + kk)));
                    assert(slot_with(pre, arr[j as int], i) == Some(data_of(arr, i)));
                    if i == cidx {
                        assert(0 <= (j as int) < jn <= arr.len() && arr[j as int].index == i);
                    } else {
                        assert(pre.slot(i) is Some);
                        assert(arrived_before(arr, j as int, i));
                        let k = choose|k: int|
                            0 <= k < j as int <= arr.len() && (#[trigger] arr[k]).index == i;
                        assert(0 <= k < jn <= arr.len() && arr[k].index == i);
                    }
                }
            }
            assert forall|i: int| buf.cursor() <= i < n implies #[trigger] buf.slot(i)
                == (if arrived_before(arr, jn, i) {
                Some(data_of(arr, i))
            } else {
                None
            }) by {
                assert(buf.slot(i) == slot_with(pre, chunk, i));
            }
            if buf.cursor() != n {
                assert(slot_with(pre, chunk, buf.cursor()) is None);
                assert(!arrived_before(arr, jn, buf.cursor()));
            }
        }
        j = j + 1;
        proof {
            assert(pending@ =~= arr.skip(j as int));
        }
    }
    proof {
        if buf.cursor() < n {
            assert(has_index(arr, buf.cursor()));
            let k = choose|k: int| 0 <= k < arr.len() && (#[trigger] arr[k]).index == buf.cursor();
            assert(arrived_before(arr, n, buf.cursor()));
        }
    }
    out
}

} // verus!
