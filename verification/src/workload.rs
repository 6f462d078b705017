//! The deterministic skeleton of the stress-test workload: its builder and
//! the registry of written files. Sampling (payload sizes, action mix,
//! read-back picks) draws from floating-point distributions and lives with
//! the driver, outside this library; the registry here guarantees that a
//! file handed out for a read or delete was written and is handed out only
//! once.

use vstd::prelude::*;

verus! {

/// An opaque handle the workload uses to track a written file, so that a
/// later read can regenerate the same payload from its seed.
#[derive(Clone, Copy, PartialEq, Eq, Structural, Hash, Debug)]
pub struct InternalId(pub u64);

/// Builder for a stress-test workload: its name, concurrency, random seed,
/// payload size percentiles, and the write/read/delete weights.
#[derive(Clone, Debug)]
pub struct WorkloadBuilder {
    pub name: String,
    pub concurrency: usize,
    pub seed: u64,
    pub p50_size: u64,
    pub p99_size: u64,
    pub write_weight: u8,
    pub read_weight: u8,
    pub delete_weight: u8,
}

impl WorkloadBuilder {
    /// How many operations run in flight at once.
    pub fn concurrency(self, concurrency: usize) -> (r: Self)
        ensures
            r == (WorkloadBuilder { concurrency, ..self }),
    {
        WorkloadBuilder { concurrency, ..self }
    }

    /// The payload size distribution, given as its median and its 99th
    /// percentile.
    pub fn size_distribution(self, p50: u64, p99: u64) -> (r: Self)
        ensures
            r == (WorkloadBuilder { p50_size: p50, p99_size: p99, ..self }),
    {
        WorkloadBuilder { p50_size: p50, p99_size: p99, ..self }
    }

    /// The relative weights of write, read and delete actions.
    pub fn action_weights(self, writes: u8, reads: u8, deletes: u8) -> (r: Self)
        ensures
            r == (WorkloadBuilder {
                write_weight: writes,
                read_weight: reads,
                delete_weight: deletes,
                ..self
            }),
    {
        WorkloadBuilder {
            write_weight: writes,
            read_weight: reads,
            delete_weight: deletes,
            ..self
        }
    }
}

/// The files a workload has written so far and may later read back or
/// delete. An entry handed out for a read or delete is removed, so no file
/// is read while another task deletes it and nothing is read twice within
/// one batch.
pub struct FileRegistry {
    entries: Vec<(InternalId, String)>,
}

impl FileRegistry {
    /// The registered files, in insertion order.
    pub closed spec fn view(self) -> Seq<(InternalId, Seq<char>)> {
        self.entries@.map_values(|e: (InternalId, String)| (e.0, e.1@))
    }

    /// An empty registry.
    pub fn new() -> (r: FileRegistry)
        ensures
            r@ == Seq::<(InternalId, Seq<char>)>::empty(),
    {
        let r = FileRegistry { entries: Vec::new() };
        proof {
            assert(r@ =~= Seq::<(InternalId, Seq<char>)>::empty());
        }
        r
    }

    /// How many files are registered.
    pub fn len(&self) -> (r: usize)
        ensures
            r == self@.len(),
    {
        self.entries.len()
    }

    /// Register a written file under its internal handle and external name.
    pub fn push_file(&mut self, internal: InternalId, external: String)
        ensures
            final(self)@ == old(self)@.push((internal, external@)),
    {
        let ghost pre = self@;
        let ghost e = (internal, external@);
        self.entries.push((internal, external));
        proof {
            assert(self@ =~= pre.push(e));
        }
    }

    /// Hand out the file at a position, removing it so it cannot be handed
    /// out again.
    pub fn take_at(&mut self, idx: usize) -> (r: (InternalId, String))
        requires
            idx < old(self)@.len(),
        ensures
            (r.0, r.1@) == old(self)@[idx as int],
            final(self)@ == old(self)@.remove(idx as int),
    {
        let ghost pre = self@;
        let taken = self.entries.remove(idx);
        proof {
            assert(self@ =~= pre.remove(idx as int));
        }
        taken
    }
}

impl View for FileRegistry {
    type V = Seq<(InternalId, Seq<char>)>;

    open spec fn view(&self) -> Seq<(InternalId, Seq<char>)> {
        FileRegistry::view(*self)
    }
}

} // verus!
