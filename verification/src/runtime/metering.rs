//! The host-side metering projector.
//!
//! Per process it keeps cumulative instruction and bandwidth counters and
//! current memory and storage gauges. Engine readings replace the previous
//! ones (the engine's meter is authoritative and monotonic); bandwidth and
//! storage bytes accumulate. A process's observation reads absent entries
//! as zero.
use std::collections::HashMap;
use vstd::prelude::*;

verus! {

broadcast use vstd::std_specs::hash::group_hash_axioms;

/// Process identifier.
pub type ProcessId = u64;

/// One process's projected metering.
#[derive(Clone, Copy, Debug, PartialEq, Eq, Structural, Default)]
pub struct MeteringObservation {
    /// Cumulative executed guest instructions.
    pub cpu_instructions: u64,
    /// Current committed linear-memory bytes.
    pub memory_bytes: u64,
    /// Current storage bytes.
    pub storage_bytes: u64,
    /// Cumulative bandwidth bytes.
    pub bandwidth_bytes: u64,
}

/// A counter's value, absent meaning zero.
pub open spec fn reading(m: Map<ProcessId, u64>, p: ProcessId) -> u64 {
    if m.contains_key(p) {
        m[p]
    } else {
        0
    }
}

/// Host-side metering accumulator.
pub struct MeteringProjector {
    cpu: HashMap<ProcessId, u64>,
    memory: HashMap<ProcessId, u64>,
    bandwidth: HashMap<ProcessId, u64>,
    storage: HashMap<ProcessId, u64>,
}

/// A counter's value, absent meaning zero.
fn read(m: &HashMap<ProcessId, u64>, p: ProcessId) -> (r: u64)
    ensures
        r == reading(m@, p),
{
    match m.get(&p) {
        Some(v) => *v,
        None => 0,
    }
}

impl MeteringProjector {
    /// The instruction counters.
    pub closed spec fn cpu_view(&self) -> Map<ProcessId, u64> {
        self.cpu@
    }

    /// The memory gauges.
    pub closed spec fn memory_view(&self) -> Map<ProcessId, u64> {
        self.memory@
    }

    /// The bandwidth counters.
    pub closed spec fn bandwidth_view(&self) -> Map<ProcessId, u64> {
        self.bandwidth@
    }

    /// The storage gauges.
    pub closed spec fn storage_view(&self) -> Map<ProcessId, u64> {
        self.storage@
    }

    /// A projector with no readings.
    pub fn new() -> (r: Self)
        ensures
            r.cpu_view() == Map::<ProcessId, u64>::empty(),
            r.memory_view() == Map::<ProcessId, u64>::empty(),
            r.bandwidth_view() == Map::<ProcessId, u64>::empty(),
            r.storage_view() == Map::<ProcessId, u64>::empty(),
    {
        MeteringProjector {
            cpu: HashMap::new(),
            memory: HashMap::new(),
            bandwidth: HashMap::new(),
            storage: HashMap::new(),
        }
    }

    /// Records the engine's cumulative instruction count and committed
    /// memory gauge for a process; the latest reading replaces the last.
    pub fn observe_engine(&mut self, process_id: ProcessId, instructions: u64, memory_bytes: u64)
        ensures
            final(self).cpu_view() == old(self).cpu_view().insert(process_id, instructions),
            final(self).memory_view() == old(self).memory_view().insert(process_id, memory_bytes),
            final(self).bandwidth_view() == old(self).bandwidth_view(),
            final(self).storage_view() == old(self).storage_view(),
    {
        self.cpu.insert(process_id, instructions);
        self.memory.insert(process_id, memory_bytes);
    }

    /// Accumulates bandwidth bytes for a process.
    pub fn record_bandwidth(&mut self, process_id: ProcessId, bytes: u64)
        requires
            reading(old(self).bandwidth_view(), process_id) + bytes <= u64::MAX,
        ensures
            final(self).bandwidth_view() == old(self).bandwidth_view().insert(
                process_id,
                (reading(old(self).bandwidth_view(), process_id) + bytes) as u64,
            ),
            final(self).cpu_view() == old(self).cpu_view(),
            final(self).memory_view() == old(self).memory_view(),
            final(self).storage_view() == old(self).storage_view(),
    {
        let current = read(&self.bandwidth, process_id);
        self.bandwidth.insert(process_id, current + bytes);
    }

    /// Accumulates storage bytes for a process.
    pub fn record_storage(&mut self, process_id: ProcessId, bytes: u64)
        requires
            reading(old(self).storage_view(), process_id) + bytes <= u64::MAX,
        ensures
            final(self).storage_view() == old(self).storage_view().insert(
                process_id,
                (reading(old(self).storage_view(), process_id) + bytes) as u64,
            ),
            final(self).cpu_view() == old(self).cpu_view(),
            final(self).memory_view() == old(self).memory_view(),
            final(self).bandwidth_view() == old(self).bandwidth_view(),
    {
        let current = read(&self.storage, process_id);
        self.storage.insert(process_id, current + bytes);
    }

    /// Removes a process's readings on teardown.
    pub fn remove(&mut self, process_id: ProcessId)
        ensures
            final(self).cpu_view() == old(self).cpu_view().remove(process_id),
            final(self).memory_view() == old(self).memory_view().remove(process_id),
            final(self).bandwidth_view() == old(self).bandwidth_view().remove(process_id),
            final(self).storage_view() == old(self).storage_view().remove(process_id),
    {
        self.cpu.remove(&process_id);
        self.memory.remove(&process_id);
        self.bandwidth.remove(&process_id);
        self.storage.remove(&process_id);
    }

    /// The projected observation of a process: cumulative instructions and
    /// bandwidth, current memory and storage; absent readings are zero.
    pub fn project(&self, process_id: ProcessId) -> (r: MeteringObservation)
        ensures
            r.cpu_instructions == reading(self.cpu_view(), process_id),
            r.memory_bytes == reading(self.memory_view(), process_id),
            r.storage_bytes == reading(self.storage_view(), process_id),
            r.bandwidth_bytes == reading(self.bandwidth_view(), process_id),
    {
        MeteringObservation {
            cpu_instructions: read(&self.cpu, process_id),
            memory_bytes: read(&self.memory, process_id),
            storage_bytes: read(&self.storage, process_id),
            bandwidth_bytes: read(&self.bandwidth, process_id),
        }
    }
}

/// Accumulation adds up: recording `a` then `b` bandwidth bytes leaves the
/// same counter as recording `a + b` at once, and teardown leaves nothing
/// for the process, which then reads as zero.
pub proof fn lemma_accumulation_adds(m: Map<ProcessId, u64>, p: ProcessId, a: u64, b: u64)
    requires
        reading(m, p) + a + b <= u64::MAX,
    ensures
        ({
            let once = m.insert(p, (reading(m, p) + a) as u64);
            once.insert(p, (reading(once, p) + b) as u64) == m.insert(p, (reading(m, p) + a + b) as u64)
        }),
        reading(m.remove(p), p) == 0,
{
    let once = m.insert(p, (reading(m, p) + a) as u64);
    assert(once.insert(p, (reading(once, p) + b) as u64) =~= m.insert(p, (reading(m, p) + a + b) as u64));
}

} // verus!
