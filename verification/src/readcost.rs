//! Read-cost samples: a bounded ring of per-materialization measurements.

use vstd::prelude::*;

verus! {

/// Bounded sample ring length.
pub const READ_COST_RING: usize = 4096;

/// One materialization's read-cost sample.
#[derive(Debug, Clone, Copy, PartialEq, Eq)]
pub struct ReadCostSample {
    /// Representation family of the batch's first descriptor.
    pub family: &'static str,
    /// The descriptor's own reference contribution (0 terminal, 1 reference).
    pub reference_depth: u8,
    /// Deepest reference-chain level walked.
    pub max_path_depth: u8,
    /// Distinct nodes traversed.
    pub dag_nodes: u32,
    /// Most nested children of any single node.
    pub fanout: u32,
    /// Distinct object ids prefetched.
    pub referenced_objects: u32,
    /// Physical bytes of the fetched objects.
    pub bytes_fetched: u64,
    /// Backend fetch submissions.
    pub read_many_submissions: u32,
    /// Decoded-model cache hits.
    pub cache_hits: u32,
    /// Decoded-model cache misses.
    pub cache_misses: u32,
    /// Decode thread-CPU time.
    pub decode_cpu_ns: u64,
    /// The prefetch's wall time.
    pub io_wait_ns: u64,
    /// Total materialization wall time.
    pub read_latency_ns: u64,
    /// Materialized output length.
    pub logical_bytes: u64,
}

impl Default for ReadCostSample {
    fn default() -> (r: ReadCostSample)
        ensures
            r == (ReadCostSample {
                family: "UNKNOWN",
                reference_depth: 0,
                max_path_depth: 0,
                dag_nodes: 0,
                fanout: 0,
                referenced_objects: 0,
                bytes_fetched: 0,
                read_many_submissions: 0,
                cache_hits: 0,
                cache_misses: 0,
                decode_cpu_ns: 0,
                io_wait_ns: 0,
                read_latency_ns: 0,
                logical_bytes: 0,
            }),
    {
        ReadCostSample {
            family: "UNKNOWN",
            reference_depth: 0,
            max_path_depth: 0,
            dag_nodes: 0,
            fanout: 0,
            referenced_objects: 0,
            bytes_fetched: 0,
            read_many_submissions: 0,
            cache_hits: 0,
            cache_misses: 0,
            decode_cpu_ns: 0,
            io_wait_ns: 0,
            read_latency_ns: 0,
            logical_bytes: 0,
        }
    }
}

/// The bounded sample ring (first in, first out).
pub struct ReadCostRing {
    samples: Vec<ReadCostSample>,
}

impl View for ReadCostRing {
    type V = Seq<ReadCostSample>;

    closed spec fn view(&self) -> Seq<ReadCostSample> {
        self.samples@
    }
}

/// The last `n` samples of a stream.
pub open spec fn last_samples(s: Seq<ReadCostSample>, n: nat) -> Seq<ReadCostSample> {
    if s.len() <= n {
        s
    } else {
        s.skip(s.len() - n)
    }
}

impl ReadCostRing {
    /// No more samples than the ring holds.
    pub open spec fn wf(&self) -> bool {
        self@.len() <= READ_COST_RING
    }

    /// An empty ring.
    pub fn new() -> (r: ReadCostRing)
        ensures
            r@ == Seq::<ReadCostSample>::empty(),
            r.wf(),
    {
        ReadCostRing { samples: Vec::new() }
    }

    /// Push one sample; evicts the oldest past the cap.
    pub fn push(&mut self, s: ReadCostSample)
        requires
            old(self).wf(),
        ensures
            final(self)@ == last_samples(old(self)@.push(s), READ_COST_RING as nat),
            final(self).wf(),
    {
        let ghost before = self@;
        if self.samples.len() >= READ_COST_RING {
            self.samples.remove(0);
        }
        self.samples.push(s);
        assert(self@ =~= last_samples(before.push(s), READ_COST_RING as nat));
    }

    /// Snapshot of the samples, oldest first.
    pub fn snapshot(&self) -> (r: Vec<ReadCostSample>)
        ensures
            r@ == self@,
    {
        let mut out: Vec<ReadCostSample> = Vec::with_capacity(self.samples.len());
        let mut i: usize = 0;
        while i < self.samples.len()
            invariant
                i <= self.samples@.len(),
                out@ == self.samples@.take(i as int),
            decreases self.samples@.len() - i,
        {
            out.push(self.samples[i]);
            i += 1;
        }
        assert(self.samples@.take(i as int) =~= self.samples@);
        out
    }

    /// Reset.
    pub fn clear(&mut self)
        ensures
            final(self)@ == Seq::<ReadCostSample>::empty(),
            final(self).wf(),
    {
        self.samples.clear();
    }
}

/// After a stream of samples the ring holds the most recent ones of it.
pub proof fn ring_keeps_latest(stream: Seq<ReadCostSample>, s: ReadCostSample)
    ensures
        last_samples(
            last_samples(stream, READ_COST_RING as nat).push(s),
            READ_COST_RING as nat,
        ) == last_samples(stream.push(s), READ_COST_RING as nat),
{
    assert(last_samples(last_samples(stream, READ_COST_RING as nat).push(s), READ_COST_RING as nat)
        =~= last_samples(stream.push(s), READ_COST_RING as nat));
}

} // verus!
