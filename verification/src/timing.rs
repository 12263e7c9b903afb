//! What is measured of a shot: when outcomes and syndromes came in, and how long the
//! decodes took.
use crate::registry::Registry;
use vstd::prelude::*;

verus! {

/// How a decode found its decoder.
#[derive(Debug, Clone, Copy, PartialEq, Eq, Structural)]
pub enum DecodePath {
    /// a loaded decoder was reused
    CacheHit,
    /// a decoder was built and loaded
    BuiltLoaded,
    /// a decoder was built for this decode only
    Temporary,
}

/// What is recorded of one decode, with its number in the log. Times are in
/// nanoseconds.
#[derive(Debug, Clone, PartialEq, Eq)]
pub struct WindowTiming {
    pub seq: u64,
    pub window_gids: Vec<u64>,
    pub path: Option<DecodePath>,
    pub concurrent_decodes: u32,
    pub num_committing: u32,
    pub num_gadgets: u32,
    pub num_vertices: u32,
    pub num_hyperedges: u32,
    pub syndrome_weight: u32,
    pub syndrome_bytes: u64,
    /// the size of the hypergraph as a message
    pub hypergraph_bytes: u64,
    pub correction_weight: u32,
    /// the size of the answer of the decoder as a message
    pub parity_factor_bytes: u64,
    pub cache_size: u32,
    pub leader_arrived_ns: u64,
    /// when the syndromes near the leader were there
    pub mandatory_ready_ns: u64,
    /// when the last syndrome of the window was there
    pub syndrome_ready_ns: u64,
    pub decode_start_ns: u64,
    pub decode_end_ns: u64,
    pub explore_ns: u64,
    pub build_ns: u64,
    pub merge_ns: u64,
    pub compact_ns: u64,
    pub load_ns: u64,
    pub decode_ns: u64,
    pub decoder_compute_ns: u64,
}

/// The records since the log was last drained.
#[derive(Debug, Clone, PartialEq, Eq)]
pub struct TimingLog {
    pub next_seq: u64,
    pub records: Vec<WindowTiming>,
}

impl TimingLog {
    /// The records are numbered in order, up to the next number.
    pub open spec fn wf(&self) -> bool {
        &&& self.records@.len() <= self.next_seq
        &&& forall|i: int|
            0 <= i < self.records@.len() ==> (#[trigger] self.records@[i]).seq == self.next_seq - self.records@.len() + i
    }

    /// An empty log.
    pub fn new() -> (log: TimingLog)
        ensures
            log.wf(),
            log.next_seq == 0,
            log.records@ == Seq::<WindowTiming>::empty(),
    {
        TimingLog { next_seq: 0, records: Vec::new() }
    }

    /// Appends a record, with the next number.
    pub fn push(&mut self, timing: WindowTiming)
        requires
            old(self).wf(),
            old(self).next_seq < u64::MAX,
        ensures
            final(self).wf(),
            final(self).next_seq == old(self).next_seq + 1,
            final(self).records@ == old(self).records@.push((WindowTiming { seq: old(self).next_seq, ..timing })),
    {
        let mut timing = timing;
        timing.seq = self.next_seq;
        self.next_seq += 1;
        self.records.push(timing);
    }

    /// Takes all records; the numbers go on.
    pub fn drain(&mut self) -> (records: Vec<WindowTiming>)
        requires
            old(self).wf(),
        ensures
            final(self).wf(),
            records@ == old(self).records@,
            final(self).records@ == Seq::<WindowTiming>::empty(),
            final(self).next_seq == old(self).next_seq,
    {
        let mut records: Vec<WindowTiming> = Vec::new();
        std::mem::swap(&mut records, &mut self.records);
        records
    }

    /// Forgets all records and starts the numbers again.
    pub fn reset(&mut self)
        ensures
            final(self).wf(),
            final(self).next_seq == 0,
            final(self).records@ == Seq::<WindowTiming>::empty(),
    {
        self.next_seq = 0;
        self.records = Vec::new();
    }
}

/// When the outcomes of a gadget first came in.
#[derive(Debug, Clone, Copy, PartialEq, Eq, Structural)]
pub struct OutcomeArrival {
    pub gid: u64,
    pub received_ns: u64,
}

/// The arrivals since the log was last drained, in order.
#[derive(Debug, Clone, PartialEq, Eq)]
pub struct ArrivalLog {
    pub arrivals: Vec<OutcomeArrival>,
}

impl ArrivalLog {
    /// An empty log.
    pub fn new() -> (log: ArrivalLog)
        ensures
            log.arrivals@ == Seq::<OutcomeArrival>::empty(),
    {
        ArrivalLog { arrivals: Vec::new() }
    }

    /// Notes an arrival, unless outcomes of the gadget came in before.
    pub fn note(&mut self, gid: u64, received_ns: u64, first_arrival: bool)
        ensures
            final(self).arrivals@ == (if first_arrival {
                old(self).arrivals@.push(OutcomeArrival { gid, received_ns })
            } else {
                old(self).arrivals@
            }),
    {
        if first_arrival {
            self.arrivals.push(OutcomeArrival { gid, received_ns });
        }
    }

    /// Takes all arrivals.
    pub fn drain(&mut self) -> (arrivals: Vec<OutcomeArrival>)
        ensures
            arrivals@ == old(self).arrivals@,
            final(self).arrivals@ == Seq::<OutcomeArrival>::empty(),
    {
        let mut arrivals: Vec<OutcomeArrival> = Vec::new();
        std::mem::swap(&mut arrivals, &mut self.arrivals);
        arrivals
    }

    /// Forgets all arrivals.
    pub fn reset(&mut self)
        ensures
            final(self).arrivals@ == Seq::<OutcomeArrival>::empty(),
    {
        self.arrivals = Vec::new();
    }
}

/// When the syndromes of a set of check models were all there: the latest of the times
/// that are noted, 0 if none is.
pub open spec fn is_ready_time(times: Map<u64, u64>, cids: Seq<u64>, ns: u64) -> bool {
    &&& forall|i: int| 0 <= i < cids.len() && times.contains_key(#[trigger] cids[i]) ==> times[cids[i]] <= ns
    &&& ns == 0 || exists|i: int| 0 <= i < cids.len() && times.contains_key(#[trigger] cids[i]) && times[cids[i]] == ns
}

/// When the last syndrome of the listed check models was there.
pub fn syndrome_ready_ns(times: &Registry<u64>, cids: &Vec<u64>) -> (ns: u64)
    requires
        times.wf(),
    ensures
        is_ready_time(times@, cids@, ns),
{
    let mut ns: u64 = 0;
    let mut i: usize = 0;
    while i < cids.len()
        invariant
            i <= cids@.len(),
            times.wf(),
            forall|k: int| 0 <= k < i && times@.contains_key(#[trigger] cids@[k]) ==> times@[cids@[k]] <= ns,
            ns == 0 || exists|k: int| 0 <= k < i && times@.contains_key(#[trigger] cids@[k]) && times@[cids@[k]] == ns,
        decreases cids@.len() - i,
    {
        if let Some(time) = times.get(cids[i]) {
            if *time > ns {
                ns = *time;
                assert(times@.contains_key(cids@[i as int]) && times@[cids@[i as int]] == ns);
            }
        }
        i += 1;
    }
    ns
}

/// The syndromes of check models are all there when the last of them is: no noted time is
/// later, and with a noted time the result is one of them.
pub proof fn law_ready_time_is_the_latest(times: Map<u64, u64>, cids: Seq<u64>, ns: u64, i: int)
    requires
        is_ready_time(times, cids, ns),
        0 <= i < cids.len(),
        times.contains_key(cids[i]),
    ensures
        times[cids[i]] <= ns,
        exists|j: int| 0 <= j < cids.len() && times.contains_key(#[trigger] cids[j]) && times[cids[j]] == ns,
{
    if ns == 0 {
        assert(times[cids[i]] == ns);
    }
}

} // verus!
