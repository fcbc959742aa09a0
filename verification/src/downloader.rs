//! The orchestrator's decisions: which strategy a download takes after
//! HEAD, and the shape of the pipeline around it.

use vstd::prelude::*;
use crate::chunk::Chunk;
use crate::chunk::chunk_bytes;
use crate::chunk::create_chunks;
use crate::chunk::is_chunk_plan;
use crate::chunk::lemma_count_bounds;
use crate::chunk::lemma_in_plan_bounds;
use crate::chunk::spec_chunk_count;
use crate::client::ObjectMetadata;
use crate::chunk::DownloadedChunk;
use crate::reassembly::complete_arrivals;
use crate::reassembly::data_of;
use crate::reassembly::index_ordered_bytes;

verus! {

/// The strategy chosen for one download.
pub enum DownloadPlan {
    /// Nothing to fetch: the object is empty, the output is empty.
    EmptyObject,
    /// One whole-object request: the backend does not honour ranges.
    SingleStream,
    /// The pipeline proper: the planned chunks, fetched concurrently and
    /// reassembled in order.
    Chunked(Vec<Chunk>),
}

/// Choose the strategy the orchestrator follows after HEAD: an empty
/// object needs no fetch at all; without range support the object comes in
/// a single stream; otherwise it is cut into chunks and goes through the
/// pipeline.
pub fn plan_download(metadata: &ObjectMetadata, chunk_size: usize) -> (p: DownloadPlan)
    requires
        chunk_size >= 1,
        spec_chunk_count(metadata.content_length as int, chunk_size as int) <= usize::MAX,
    ensures
        metadata.content_length == 0 <==> p is EmptyObject,
        (metadata.content_length > 0 && !metadata.supports_range) <==> p is SingleStream,
        (metadata.content_length > 0 && metadata.supports_range) <==> p is Chunked,
        (p matches DownloadPlan::Chunked(chunks) ==> is_chunk_plan(
            chunks@,
            metadata.content_length as int,
            chunk_size as int,
        )),
{
    if metadata.content_length == 0 {
        DownloadPlan::EmptyObject
    } else if !metadata.supports_range {
        DownloadPlan::SingleStream
    } else {
        DownloadPlan::Chunked(create_chunks(metadata.content_length, chunk_size))
    }
}

/// The capacity of the queue between the workers and the writer: twice the
/// worker count, so one chunk can be written while another waits. It
/// saturates only at the address-space bound.
pub fn output_queue_capacity(concurrency: usize) -> (c: usize)
    ensures
        c == if 2 * concurrency <= usize::MAX {
            2 * concurrency
        } else {
            usize::MAX as int
        },
{
    if concurrency <= usize::MAX / 2 {
        2 * concurrency
    } else {
        usize::MAX
    }
}

proof fn lemma_output_prefix(
    data: Seq<u8>,
    chunks: Seq<Chunk>,
    arr: Seq<DownloadedChunk>,
    chunk_size: int,
    k: int,
)
    requires
        chunk_size >= 1,
        is_chunk_plan(chunks, data.len() as int, chunk_size),
        forall|i: int| 0 <= i < chunks.len() ==> data_of(arr, i) == chunk_bytes(
            data,
            #[trigger] chunks[i],
        ),
        0 <= k <= chunks.len(),
    ensures
        index_ordered_bytes(arr, k) == data.subrange(
            0,
            if k * chunk_size <= data.len() {
                k * chunk_size
            } else {
                data.len() as int
            },
        ),
    decreases k,
{
    let len = data.len() as int;
    if k == 0 {
        assert(index_ordered_bytes(arr, 0) =~= data.subrange(0, 0));
    } else {
        lemma_output_prefix(data, chunks, arr, chunk_size, k - 1);
        lemma_in_plan_bounds(len, chunk_size, k - 1);
        assert(k * chunk_size == (k - 1) * chunk_size + chunk_size) by (nonlinear_arith);
        let prev = (k - 1) * chunk_size;
        let next = if k * chunk_size <= len {
            k * chunk_size
        } else {
            len
        };
        assert(chunks[k - 1].start == prev);
        assert(chunks[k - 1].end + 1 == next);
        assert(data.subrange(0, prev) + data.subrange(prev, next) =~= data.subrange(0, next));
    }
}

/// Law (pipeline round trip): when every planned chunk completes with
/// exactly the bytes of its range — each index exactly once, in whatever
/// order — the reassembled output is the original object, byte for byte.
pub proof fn lemma_pipeline_round_trip(
    data: Seq<u8>,
    chunks: Seq<Chunk>,
    arr: Seq<DownloadedChunk>,
    chunk_size: int,
)
    requires
        chunk_size >= 1,
        is_chunk_plan(chunks, data.len() as int, chunk_size),
        complete_arrivals(arr, chunks.len() as int),
        forall|i: int| 0 <= i < chunks.len() ==> data_of(arr, i) == chunk_bytes(
            data,
            #[trigger] chunks[i],
        ),
    ensures
        index_ordered_bytes(arr, chunks.len() as int) == data,
{
    let len = data.len() as int;
    let n = chunks.len() as int;
    lemma_output_prefix(data, chunks, arr, chunk_size, n);
    lemma_count_bounds(len, chunk_size, n);
    if n > 0 {
        lemma_in_plan_bounds(len, chunk_size, n - 1);
        assert(n * chunk_size == (n - 1) * chunk_size + chunk_size) by (nonlinear_arith);
    }
    assert(data.subrange(0, len) =~= data);
}

} // verus!
