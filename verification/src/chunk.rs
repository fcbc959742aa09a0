//! Chunk planning: turning `(content_length, chunk_size)` into an ordered
//! partition of inclusive byte ranges.

use vstd::prelude::*;
use vstd::arithmetic::div_mod::lemma_fundamental_div_mod;

verus! {

/// A planned unit of work: the inclusive byte range `[start, end]` of the
/// remote object, to be fetched independently of its siblings.
#[derive(Debug, Clone)]
pub struct Chunk {
    pub index: usize,
    pub start: u64,
    pub end: u64,
}

/// A fetched byte range: `data` holds the bytes of the chunk that was
/// planned under `index`.
#[derive(Debug, Clone)]
pub struct DownloadedChunk {
    pub index: usize,
    pub data: Vec<u8>,
}

/// How many chunks a plan holds: `content_length / chunk_size`, rounded up.
pub open spec fn spec_chunk_count(content_length: int, chunk_size: int) -> int {
    (content_length + chunk_size - 1) / chunk_size
}

/// The shape of the chunk standing at position `i` of a plan: ranges are
/// laid out back to back, `chunk_size` bytes each, the last one cut short
/// at the end of the object.
pub open spec fn is_planned_chunk(c: Chunk, i: int, content_length: int, chunk_size: int) -> bool {
    &&& c.index == i
    &&& c.start == i * chunk_size
    &&& c.end == if i * chunk_size + chunk_size - 1 <= content_length - 1 {
        i * chunk_size + chunk_size - 1
    } else {
        content_length - 1
    }
}

/// The whole plan for an object of `content_length` bytes, cut into ranges
/// of at most `chunk_size` bytes.
pub open spec fn is_chunk_plan(chunks: Seq<Chunk>, content_length: int, chunk_size: int) -> bool {
    &&& chunks.len() == spec_chunk_count(content_length, chunk_size)
    &&& forall|i: int|
        0 <= i < chunks.len() ==> is_planned_chunk(#[trigger] chunks[i], i, content_length, chunk_size)
}

pub proof fn lemma_count_bounds(content_length: int, chunk_size: int, i: int)
    requires
        chunk_size >= 1,
        content_length >= 0,
        i >= 0,
    ensures
        i * chunk_size < content_length ==> i < spec_chunk_count(content_length, chunk_size),
        i * chunk_size >= content_length ==> i >= spec_chunk_count(content_length, chunk_size),
{
    assert(i * chunk_size < content_length ==> i < (content_length + chunk_size - 1) / chunk_size)
        by (nonlinear_arith)
        requires chunk_size >= 1 && content_length >= 0 && i >= 0;
    assert(i * chunk_size >= content_length ==> i >= (content_length + chunk_size - 1) / chunk_size)
        by (nonlinear_arith)
        requires chunk_size >= 1 && content_length >= 0 && i >= 0;
}

/// Cut `[0, content_length)` into ranges of at most `chunk_size` bytes, in
/// increasing index order. An empty object yields an empty plan.
pub fn create_chunks(content_length: u64, chunk_size: usize) -> (chunks: Vec<Chunk>)
    requires
        chunk_size >= 1,
        spec_chunk_count(content_length as int, chunk_size as int) <= usize::MAX,
    ensures
        is_chunk_plan(chunks@, content_length as int, chunk_size as int),
{
    let mut chunks: Vec<Chunk> = Vec::new();
    let mut start: u64 = 0;
    let mut index: usize = 0;
    let size: u64 = chunk_size as u64;

    while start < content_length
        invariant
            chunk_size >= 1,
            size == chunk_size as u64,
            spec_chunk_count(content_length as int, chunk_size as int) <= usize::MAX,
            index == chunks@.len(),
            start == if index as int * chunk_size as int <= content_length as int {
                index as int * chunk_size as int
            } else {
                content_length as int
            },
            index > 0 ==> ((index as int - 1) * (chunk_size as int)) < content_length as int,
            start <= content_length,
            forall|i: int|
                0 <= i < chunks@.len() ==> is_planned_chunk(
                    #[trigger] chunks@[i],
                    i,
                    content_length as int,
                    chunk_size as int,
                ),
        decreases content_length - start,
    {
        proof {
            lemma_count_bounds(content_length as int, chunk_size as int, index as int);
        }
        let end: u64 = if size - 1 <= content_length - 1 - start {
            start + (size - 1)
        } else {
            content_length - 1
        };
        chunks.push(Chunk { index, start, end });
        proof {
            assert((index as int + 1) * chunk_size as int == index as int * chunk_size as int
                + chunk_size as int) by (nonlinear_arith);
        }
        start = end + 1;
        index = index + 1;
    }
    proof {
        lemma_count_bounds(content_length as int, chunk_size as int, index as int);
        if index > 0 {
            assert((index as int - 1) * chunk_size as int == index as int * chunk_size as int
                - chunk_size as int) by (nonlinear_arith);
            lemma_count_bounds(content_length as int, chunk_size as int, index as int - 1);
        }
    }
    chunks
}

/// Law (partition): a chunk plan covers `[0, content_length)` exactly. The
/// ranges are contiguous, non-overlapping and strictly increasing by index;
/// every byte of the object falls in exactly one of them; an empty object
/// has an empty plan.
pub proof fn lemma_chunk_plan_partitions(chunks: Seq<Chunk>, content_length: int, chunk_size: int)
    requires
        chunk_size >= 1,
        content_length >= 0,
        is_chunk_plan(chunks, content_length, chunk_size),
    ensures
        chunks.len() == 0 <==> content_length == 0,
        chunks.len() > 0 ==> chunks[0].start == 0,
        forall|i: int| 0 <= i < chunks.len() ==> (#[trigger] chunks[i]).index == i,
        forall|i: int| 0 <= i < chunks.len() ==> (#[trigger] chunks[i]).start <= chunks[i].end,
        forall|i: int| 0 <= i && i + 1 < chunks.len() ==> (#[trigger] chunks[i]).end + 1 == chunks[i + 1].start,
        chunks.len() > 0 ==> chunks[chunks.len() - 1].end == content_length - 1,
        forall|b: int|
            0 <= b < content_length ==> {
                let i = #[trigger] (b / chunk_size);
                &&& 0 <= i < chunks.len()
                &&& chunks[i].start <= b <= chunks[i].end
            },
        forall|i: int, j: int|
            0 <= i < j < chunks.len() ==> (#[trigger] chunks[i]).end < (#[trigger] chunks[j]).start,
{
    assert(spec_chunk_count(content_length, chunk_size) >= 0) by (nonlinear_arith)
        requires chunk_size >= 1 && content_length >= 0;
    lemma_count_bounds(content_length, chunk_size, 0);
    if content_length > 0 {
        assert(chunks.len() > 0);
    }
    assert forall|i: int| 0 <= i < chunks.len() implies (#[trigger] chunks[i]).start
        <= chunks[i].end by {
        lemma_in_plan_bounds(content_length, chunk_size, i);
    }
    assert forall|i: int| 0 <= i && i + 1 < chunks.len() implies (#[trigger] chunks[i]).end + 1
        == chunks[i + 1].start by {
        lemma_in_plan_bounds(content_length, chunk_size, i + 1);
        assert((i + 1) * chunk_size == i * chunk_size + chunk_size) by (nonlinear_arith);
    }
    if chunks.len() > 0 {
        let last = chunks.len() - 1;
        lemma_in_plan_bounds(content_length, chunk_size, last);
        lemma_count_bounds(content_length, chunk_size, last + 1);
        assert((last + 1) * chunk_size == last * chunk_size + chunk_size) by (nonlinear_arith);
        assert(chunks[last].end == content_length - 1);
    }
    assert forall|b: int| 0 <= b < content_length implies {
        let i = #[trigger] (b / chunk_size);
        &&& 0 <= i < chunks.len()
        &&& chunks[i].start <= b <= chunks[i].end
    } by {
        let i = b / chunk_size;
        lemma_fundamental_div_mod(b, chunk_size);
        assert(0 <= b % chunk_size < chunk_size) by (nonlinear_arith)
            requires chunk_size >= 1 && b >= 0;
        assert(i >= 0) by (nonlinear_arith)
            requires chunk_size >= 1 && b >= 0 && i * chunk_size + b % chunk_size == b
                && b % chunk_size < chunk_size;
        lemma_count_bounds(content_length, chunk_size, i);
    }
    assert forall|i: int, j: int|
        0 <= i < j < chunks.len() implies (#[trigger] chunks[i]).end
        < (#[trigger] chunks[j]).start by {
        assert(chunks[i].end < (i + 1) * chunk_size && (i + 1) * chunk_size <= j * chunk_size)
            by (nonlinear_arith)
            requires chunk_size >= 1 && 0 <= i < j
                && chunks[i].end <= i * chunk_size + chunk_size - 1;
    }
}

/// Every index strictly inside the plan starts strictly inside the object.
pub proof fn lemma_in_plan_bounds(content_length: int, chunk_size: int, i: int)
    requires
        chunk_size >= 1,
        content_length >= 0,
        0 <= i < spec_chunk_count(content_length, chunk_size),
    ensures
        0 <= i * chunk_size < content_length,
{
    lemma_count_bounds(content_length, chunk_size, i);
    assert(i * chunk_size >= 0) by (nonlinear_arith)
        requires i >= 0 && chunk_size >= 1;
    if i * chunk_size >= content_length {
        assert(false);
    }
}

/// The bytes of `data` that chunk `c` covers.
pub open spec fn chunk_bytes(data: Seq<u8>, c: Chunk) -> Seq<u8> {
    data.subrange(c.start as int, c.end as int + 1)
}

/// The concatenation, in the given order, of the bytes each chunk covers.
pub open spec fn concat_chunk_bytes(data: Seq<u8>, chunks: Seq<Chunk>) -> Seq<u8>
    decreases chunks.len(),
{
    if chunks.len() == 0 {
        Seq::empty()
    } else {
        chunk_bytes(data, chunks[0]) + concat_chunk_bytes(data, chunks.drop_first())
    }
}

proof fn lemma_round_trip_from(data: Seq<u8>, chunks: Seq<Chunk>, chunk_size: int, i: int)
    requires
        chunk_size >= 1,
        is_chunk_plan(chunks, data.len() as int, chunk_size),
        0 <= i <= chunks.len(),
    ensures
        concat_chunk_bytes(data, chunks.skip(i)) == data.skip(
            if i * chunk_size <= data.len() {
                i * chunk_size
            } else {
                data.len() as int
            },
        ),
    decreases chunks.len() - i,
{
    let len = data.len() as int;
    assert(i * chunk_size >= 0) by (nonlinear_arith)
        requires i >= 0 && chunk_size >= 1;
    if i == chunks.len() {
        lemma_count_bounds(len, chunk_size, i);
        assert(i * chunk_size >= len);
        assert(chunks.skip(i) =~= Seq::<Chunk>::empty());
        assert(concat_chunk_bytes(data, chunks.skip(i)) =~= data.skip(len));
    } else {
        lemma_in_plan_bounds(len, chunk_size, i);
        let off = i * chunk_size;
        assert((i + 1) * chunk_size == i * chunk_size + chunk_size) by (nonlinear_arith);
        let next = if (i + 1) * chunk_size <= len {
            (i + 1) * chunk_size
        } else {
            len
        };
        let c = chunks[i];
        assert(c.end as int + 1 == next);
        assert(chunks.skip(i)[0] == c);
        assert(chunks.skip(i).drop_first() =~= chunks.skip(i + 1));
        lemma_round_trip_from(data, chunks, chunk_size, i + 1);
        assert(chunk_bytes(data, c) + data.skip(next) =~= data.skip(off));
    }
}

/// Law (round trip): fetching every planned range and concatenating the
/// results in index order reproduces the object bytes exactly.
pub proof fn lemma_chunk_plan_round_trip(data: Seq<u8>, chunks: Seq<Chunk>, chunk_size: int)
    requires
        chunk_size >= 1,
        is_chunk_plan(chunks, data.len() as int, chunk_size),
    ensures
        concat_chunk_bytes(data, chunks) == data,
{
    lemma_round_trip_from(data, chunks, chunk_size, 0);
    assert(chunks.skip(0) =~= chunks);
    assert(data.skip(0) =~= data);
}

} // verus!
