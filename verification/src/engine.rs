//! The parsing engine: turns the whole byte content into one field map per
//! block, and hands each map to a caller-supplied factory that may turn it
//! into a typed record or decline it.

use vstd::prelude::*;
use crate::extract::{block_fields, parse_chunk, parse_fields};
use crate::fields::FieldMap;
use crate::scan::{chunk_ranges, lemma_chunk_ranges_partition, scan_chunks, ChunkRange};

verus! {

/// The caller-supplied output factory: turns a completed field map into a
/// typed value, or declines the block by returning `None`. Declining is a
/// normal outcome, never an error.
pub trait Parsable {
    type Output;

    fn new(key_values: FieldMap) -> (r: Option<Self::Output>)
        requires
            key_values.wf(),
    ;
}

/// A unit of work for a chunk worker: parse one chunk range, or quit.
#[derive(Clone, Copy)]
pub enum Task {
    Process(ChunkRange),
    Quit,
}

/// The field maps that a sequence of ranges yields, in that order.
pub open spec fn maps_of_ranges(s: Seq<u8>, ranges: Seq<(int, int)>) -> Seq<Map<Seq<u8>, Seq<u8>>> {
    ranges.map_values(|r: (int, int)| block_fields(s.subrange(r.0, r.1)))
}

/// The field maps of all blocks of the content, in file order.
pub open spec fn block_maps(s: Seq<u8>) -> Seq<Map<Seq<u8>, Seq<u8>>> {
    maps_of_ranges(s, chunk_ranges(s))
}

/// Parses the whole content into one field map per block, in file order.
pub fn parse_blocks(bytes: &[u8]) -> (r: Vec<FieldMap>)
    ensures
        r@.len() == block_maps(bytes@).len(),
        forall|i: int|
            0 <= i < r@.len() ==> (#[trigger] r@[i]).wf() && r@[i]@ == block_maps(bytes@)[i],
{
    let ranges = scan_chunks(bytes);
    proof {
        lemma_chunk_ranges_partition(bytes@);
    }
    let n = ranges.len();
    let mut out: Vec<FieldMap> = Vec::new();
    let mut i: usize = 0;
    while i < n
        invariant
            i <= n,
            out@.len() == i,
            forall|j: int|
                0 <= j < i ==> (#[trigger] out@[j]).wf() && out@[j]@ == block_maps(bytes@)[j],
        decreases n - i,
    {
        let rg = ranges[i];
        let chunk = vstd::slice::slice_subrange(bytes, rg.start, rg.end);
        let lines = parse_chunk(chunk);
        let fm = parse_fields(lines);
        out.push(fm);
        i += 1;
    }
    out
}

/// Parses the whole content and converts each block through the factory `P`,
/// collecting the records of the blocks that the factory accepts. Malformed
/// lines and declined blocks are dropped silently, never reported as errors.
pub fn parse<P: Parsable>(bytes: &[u8]) -> (r: Vec<P::Output>)
    ensures
        r@.len() <= block_maps(bytes@).len(),
{
    let mut blocks = parse_blocks(bytes);
    let ghost total = block_maps(bytes@).len();
    let mut out: Vec<P::Output> = Vec::new();
    while blocks.len() > 0
        invariant
            out@.len() + blocks@.len() <= total,
            forall|j: int| 0 <= j < blocks@.len() ==> (#[trigger] blocks@[j]).wf(),
        decreases blocks@.len(),
    {
        let fm = match blocks.pop() {
            Some(f) => f,
            None => FieldMap::new(),
        };
        match P::new(fm) {
            Some(record) => out.push(record),
            None => {},
        }
    }
    out
}

/// One chunk-worker iteration: a `Quit` task asks the worker to stop; a
/// `Process` task extracts the chunk's field map and offers it to the
/// factory `P`, whose acceptance decides whether a record comes back.
pub fn run_task<P: Parsable>(bytes: &[u8], task: Task) -> (r: (bool, Option<P::Output>))
    requires
        task matches Task::Process(rg) ==> rg.start <= rg.end <= bytes@.len(),
    ensures
        r.0 == (task is Quit),
        task is Quit ==> r.1 is None,
{
    match task {
        Task::Quit => (true, None),
        Task::Process(rg) => {
            let chunk = vstd::slice::slice_subrange(bytes, rg.start, rg.end);
            let lines = parse_chunk(chunk);
            let fm = parse_fields(lines);
            (false, P::new(fm))
        },
    }
}

} // verus!
