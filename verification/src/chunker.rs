//! Cutting a byte string into chunks.
//!
//! Three strategies: the whole input as one chunk, fixed-size blocks, or
//! content-defined chunking with FastCDC-2020 (through the `fastcdc` crate).
//! Whatever the strategy, concatenating the emitted chunks reproduces the
//! input exactly.

use vstd::prelude::*;
use vstd::seq_lib::lemma_flatten_concat;
use vstd::slice::{slice_subrange, slice_to_vec};

verus! {

/// Default FastCDC parameters: 1 MiB minimum, 2 MiB average, 4 MiB maximum.
pub const MIN_CHUNK: u32 = 1024 * 1024;

pub const AVG_CHUNK: u32 = 2 * 1024 * 1024;

pub const MAX_CHUNK: u32 = 4 * 1024 * 1024;

/// How an upload is cut into chunks. `Whole` emits the input as a single
/// chunk; `Fixed(n)` cuts every `n` bytes; `Cdc(min, avg, max)` runs
/// FastCDC-2020 with the given minimum, average and maximum chunk sizes.
#[derive(Clone, Copy, Debug)]
pub enum ChunkingStrategy {
    Whole,
    Fixed(u32),
    Cdc(u32, u32, u32),
}

impl ChunkingStrategy {
    /// The parameter constraints of a strategy. The bounds on the FastCDC
    /// parameters are the ones the `fastcdc` crate itself insists on (each
    /// size even and within its documented range), beside the structural
    /// `min <= avg <= max`.
    pub open spec fn wf(self) -> bool {
        match self {
            ChunkingStrategy::Whole => true,
            ChunkingStrategy::Fixed(n) => n >= 1,
            ChunkingStrategy::Cdc(min_size, avg_size, max_size) => {
                &&& 64 <= min_size <= 1048576
                &&& 256 <= avg_size <= 4194304
                &&& 1024 <= max_size <= 16777216
                &&& min_size <= avg_size <= max_size
                &&& min_size % 2 == 0
                &&& avg_size % 2 == 0
                &&& max_size % 2 == 0
            },
        }
    }

    /// The largest chunk a strategy can emit. `Whole` emits the input as one
    /// chunk, which `fits` caps at `u32::MAX` bytes.
    pub open spec fn max_chunk_len(self) -> int {
        match self {
            ChunkingStrategy::Whole => u32::MAX as int,
            ChunkingStrategy::Fixed(n) => n as int,
            ChunkingStrategy::Cdc(min_size, avg_size, max_size) => max_size as int,
        }
    }

    /// The smallest chunk a strategy can emit other than the final one.
    pub open spec fn min_chunk_len(self) -> int {
        match self {
            ChunkingStrategy::Whole => 0,
            ChunkingStrategy::Fixed(n) => n as int,
            ChunkingStrategy::Cdc(min_size, avg_size, max_size) => min_size as int,
        }
    }

    /// Whether a strategy can cut an input of the given length.
    pub open spec fn fits(self, input_len: int) -> bool {
        match self {
            ChunkingStrategy::Whole => input_len <= u32::MAX,
            _ => true,
        }
    }

    /// Check the parameter constraints of this strategy.
    pub fn is_valid(&self) -> (r: bool)
        ensures
            r == self.wf(),
    {
        match self {
            ChunkingStrategy::Whole => true,
            ChunkingStrategy::Fixed(n) => *n >= 1,
            ChunkingStrategy::Cdc(min_size, avg_size, max_size) => {
                let min_size = *min_size;
                let avg_size = *avg_size;
                let max_size = *max_size;
                64 <= min_size && min_size <= 1048576 && 256 <= avg_size && avg_size <= 4194304
                    && 1024 <= max_size && max_size <= 16777216 && min_size <= avg_size
                    && avg_size <= max_size && min_size % 2 == 0 && avg_size % 2 == 0
                    && max_size % 2 == 0
            },
        }
    }

    /// Check whether this strategy can cut an input of the given length.
    pub fn accepts_len(&self, input_len: usize) -> (r: bool)
        ensures
            r == self.fits(input_len as int),
    {
        match self {
            ChunkingStrategy::Whole => input_len <= u32::MAX as usize,
            _ => true,
        }
    }
}

impl Default for ChunkingStrategy {
    /// The default strategy is FastCDC with the default parameters.
    fn default() -> (r: Self)
        ensures
            r == ChunkingStrategy::Cdc(MIN_CHUNK, AVG_CHUNK, MAX_CHUNK),
    {
        ChunkingStrategy::Cdc(MIN_CHUNK, AVG_CHUNK, MAX_CHUNK)
    }
}

/// The views of a sequence of byte vectors.
pub open spec fn views_of(s: Seq<Vec<u8>>) -> Seq<Seq<u8>> {
    s.map_values(|c: Vec<u8>| c@)
}

/// The chunks FastCDC-2020 cuts a byte string into, given the minimum,
/// average and maximum chunk sizes. A function of its arguments alone: the
/// algorithm is deterministic, which is what makes chunk boundaries
/// reproducible across implementations.
pub uninterp spec fn spec_cdc(data: Seq<u8>, min_size: u32, avg_size: u32, max_size: u32) -> Seq<
    Seq<u8>,
>;

/// Relies on `fastcdc::v2020::StreamCDC`: the FastCDC-2020 chunker yields
/// contiguous, non-empty chunks of at most `max_size` bytes, every one of at
/// least `min_size` bytes except the final one, whose concatenation is
/// exactly the input; its boundaries depend on the input bytes and the three
/// size parameters alone.
#[verifier::external_body]
fn cdc_chunks(data: &[u8], min_size: u32, avg_size: u32, max_size: u32) -> (r: Vec<Vec<u8>>)
    requires
        ChunkingStrategy::Cdc(min_size, avg_size, max_size).wf(),
    ensures
        views_of(r@) == spec_cdc(data@, min_size, avg_size, max_size),
        views_of(r@).flatten() == data@,
        forall|i: int| 0 <= i < r@.len() ==> 1 <= (#[trigger] r@[i])@.len() <= max_size,
        forall|i: int| 0 <= i < r@.len() - 1 ==> (#[trigger] r@[i])@.len() >= min_size,
        r@.len() == 0 <==> data@.len() == 0,
{
    let mut out: Vec<Vec<u8>> = Vec::new();
    let chunker = fastcdc::v2020::StreamCDC::new(
        data,
        min_size as usize,
        avg_size as usize,
        max_size as usize,
    );
    for chunk in chunker {
        // reading from a byte slice cannot fail
        out.push(chunk.unwrap().data);
    }
    out
}

/// Fixed-size splitting: blocks of `n` bytes, the last one possibly shorter,
/// none empty.
pub open spec fn spec_split_fixed(data: Seq<u8>, n: u32) -> Seq<Seq<u8>>
    decreases data.len(),
    when n >= 1
{
    if data.len() == 0 {
        Seq::empty()
    } else if data.len() <= n {
        seq![data]
    } else {
        seq![data.take(n as int)] + spec_split_fixed(data.skip(n as int), n)
    }
}

/// What `spec_split_fixed` yields: non-empty blocks of at most `n` bytes that
/// concatenate back to the input.
pub proof fn lemma_split_fixed_props(data: Seq<u8>, n: u32)
    requires
        n >= 1,
    ensures
        spec_split_fixed(data, n).flatten() == data,
        forall|i: int|
            0 <= i < spec_split_fixed(data, n).len() ==> 1 <= (#[trigger] spec_split_fixed(
                data,
                n,
            )[i]).len() <= n,
        forall|i: int|
            0 <= i < spec_split_fixed(data, n).len() - 1 ==> (#[trigger] spec_split_fixed(
                data,
                n,
            )[i]).len() == n,
        spec_split_fixed(data, n).len() == 0 <==> data.len() == 0,
    decreases data.len(),
{
    broadcast use Seq::group_seq_flatten;

    let parts = spec_split_fixed(data, n);
    if data.len() == 0 {
        assert(parts.flatten() =~= data);
    } else if data.len() <= n {
        assert(parts.len() == 1);
        assert(parts.flatten() == data);
    } else {
        let rest = spec_split_fixed(data.skip(n as int), n);
        lemma_split_fixed_props(data.skip(n as int), n);
        lemma_flatten_concat(seq![data.take(n as int)], rest);
        assert(seq![data.take(n as int)].flatten() == data.take(n as int));
        assert(parts.flatten() =~= data);
        assert forall|i: int| 0 <= i < parts.len() implies 1 <= (#[trigger] parts[i]).len()
            <= n by {
            if i >= 1 {
                assert(parts[i] == rest[i - 1]);
            }
        }
        assert forall|i: int| 0 <= i < parts.len() - 1 implies (#[trigger] parts[i]).len()
            == n by {
            if i >= 1 {
                assert(parts[i] == rest[i - 1]);
            }
        }
    }
}

/// A byte string longer than every part's bound cannot be covered by fewer
/// than two parts.
proof fn lemma_two_chunks(parts: Seq<Seq<u8>>, data: Seq<u8>, bound: int)
    requires
        0 <= bound,
        parts.flatten() == data,
        forall|i: int| 0 <= i < parts.len() ==> (#[trigger] parts[i]).len() <= bound,
        data.len() > bound,
    ensures
        parts.len() >= 2,
{
    broadcast use Seq::group_seq_flatten;

    if parts.len() == 0 {
        assert(parts.flatten() =~= Seq::<u8>::empty());
    } else if parts.len() == 1 {
        parts.lemma_flatten_singleton();
        assert(data.len() == parts[0].len());
    }
}

/// The chunks a strategy cuts a byte string into.
pub open spec fn spec_split(strategy: ChunkingStrategy, data: Seq<u8>) -> Seq<Seq<u8>> {
    match strategy {
        ChunkingStrategy::Whole => if data.len() == 0 {
            Seq::empty()
        } else {
            seq![data]
        },
        ChunkingStrategy::Fixed(n) => spec_split_fixed(data, n),
        ChunkingStrategy::Cdc(min_size, avg_size, max_size) => spec_cdc(
            data,
            min_size,
            avg_size,
            max_size,
        ),
    }
}

/// Cut `data` into chunks under `strategy`. Chunks come in input order, none
/// is empty (an empty input yields no chunks, under every strategy, `Whole`
/// included), each is at most the strategy's maximum chunk length, each but
/// the final one is at least its minimum, and their concatenation is exactly
/// `data`. An input larger than the maximum chunk length is therefore cut
/// into at least two chunks.
pub fn chunk_bytes(strategy: &ChunkingStrategy, data: &[u8]) -> (r: Vec<Vec<u8>>)
    requires
        strategy.wf(),
        strategy.fits(data@.len() as int),
    ensures
        views_of(r@) == spec_split(*strategy, data@),
        views_of(r@).flatten() == data@,
        forall|i: int| 0 <= i < r@.len() ==> 1 <= (#[trigger] r@[i])@.len() <= u32::MAX,
        forall|i: int|
            0 <= i < r@.len() ==> (#[trigger] r@[i])@.len() <= strategy.max_chunk_len(),
        forall|i: int|
            0 <= i < r@.len() - 1 ==> (#[trigger] r@[i])@.len() >= strategy.min_chunk_len(),
        data@.len() > strategy.max_chunk_len() ==> r@.len() >= 2,
        r@.len() == 0 <==> data@.len() == 0,
{
    broadcast use Seq::group_seq_flatten;
    broadcast use Seq::lemma_push_map_commute;

    match strategy {
        ChunkingStrategy::Whole => {
            let mut out: Vec<Vec<u8>> = Vec::new();
            if data.len() > 0 {
                out.push(slice_to_vec(data));
            }
            proof {
                assert(views_of(out@) =~= spec_split(*strategy, data@));
                if data@.len() > 0 {
                    assert(views_of(out@).flatten() == data@);
                    assert(out@[0]@.len() <= u32::MAX);
                } else {
                    assert(views_of(out@).flatten() =~= data@);
                }
            }
            out
        },
        ChunkingStrategy::Fixed(n) => {
            let n = *n;
            let mut out: Vec<Vec<u8>> = Vec::new();
            let mut pos: usize = 0;
            proof {
                assert(data@.skip(0) =~= data@);
            }
            while pos < data.len()
                invariant
                    n >= 1,
                    pos <= data@.len(),
                    views_of(out@) + spec_split_fixed(data@.skip(pos as int), n)
                        == spec_split_fixed(data@, n),
                    forall|i: int|
                        0 <= i < out@.len() ==> 1 <= (#[trigger] out@[i])@.len() <= n,
                decreases data@.len() - pos,
            {
                let remaining = data.len() - pos;
                let chunk_len = if remaining < n as usize {
                    remaining
                } else {
                    n as usize
                };
                let chunk = slice_to_vec(slice_subrange(data, pos, pos + chunk_len));
                let ghost rest = data@.skip(pos as int);
                proof {
                    if remaining <= n {
                        assert(chunk@ =~= rest);
                        assert(spec_split_fixed(rest, n) == seq![rest]);
                        assert(views_of(out@).push(rest) + spec_split_fixed(
                            data@.skip(data@.len() as int),
                            n,
                        ) =~= views_of(out@) + spec_split_fixed(rest, n));
                    } else {
                        assert(chunk@ =~= rest.take(n as int));
                        assert(data@.skip(pos + n as int) =~= rest.skip(n as int));
                        assert(views_of(out@).push(rest.take(n as int))
                            + spec_split_fixed(rest.skip(n as int), n) =~= views_of(out@)
                            + spec_split_fixed(rest, n));
                    }
                }
                out.push(chunk);
                pos = pos + chunk_len;
            }
            proof {
                assert(data@.skip(data@.len() as int) =~= Seq::<u8>::empty());
                assert(views_of(out@) + spec_split_fixed(Seq::<u8>::empty(), n)
                    =~= views_of(out@));
                lemma_split_fixed_props(data@, n);
                assert forall|i: int| 0 <= i < out@.len() implies (#[trigger] out@[i])@.len()
                    == spec_split_fixed(data@, n)[i].len() by {
                    assert(views_of(out@)[i] == out@[i]@);
                }
                if data@.len() > n {
                    lemma_two_chunks(views_of(out@), data@, n as int);
                }
            }
            out
        },
        ChunkingStrategy::Cdc(min_size, avg_size, max_size) => {
            let out = cdc_chunks(data, *min_size, *avg_size, *max_size);
            proof {
                assert forall|i: int|
                    0 <= i < out@.len() implies (#[trigger] views_of(out@)[i]).len() <= *max_size
                    as int by {
                    assert(views_of(out@)[i] == out@[i]@);
                }
                if data@.len() > *max_size {
                    lemma_two_chunks(views_of(out@), data@, *max_size as int);
                }
                assert(views_of(out@) == spec_split(*strategy, data@));
            }
            out
        },
    }
}

} // verus!
