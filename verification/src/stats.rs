use vstd::prelude::*;

verus! {

/// The text that `byte_unit` writes for a size in bytes, with its exact unit.
pub uninterp spec fn byte_text(size: u64) -> Seq<char>;

/// `memory_stats::memory_stats`: the memory that the process holds right now, as
/// `(virtual, physical)` in bytes, or nothing where the platform does not tell. Nothing
/// is claimed of the numbers.
#[verifier::external_body]
fn sample_memory() -> (r: Option<(usize, usize)>) {
    match memory_stats::memory_stats() {
        Some(usage) => Some((usage.virtual_mem, usage.physical_mem)),
        None => None,
    }
}

/// `byte_unit::Byte::from_u64` and the alternate `Display` form of the `Byte` it gives:
/// the size as a number, a blank and a unit, the unit being the largest under which the
/// size is written exactly with at most three fractional digits. The text depends on
/// the size alone; it is taken on trust and goes by the name `byte_text`.
#[verifier::external_body]
fn format_bytes(size: u64) -> (r: String)
    ensures
        r@ == byte_text(size),
{
    let byte = byte_unit::Byte::from_u64(size);
    format!("{byte:#}")
}

/// What the counters of a search hold.
pub struct StatsView {
    pub clauses_learned: usize,
    pub clauses_forgotten: usize,
    pub virtual_memory: usize,
    pub physical_memory: usize,
}

/// Counters of a search: clauses learned and forgotten, and the memory last sampled.
pub struct Stats {
    clauses_learned: usize,
    clauses_forgotten: usize,
    virtual_memory: usize,
    physical_memory: usize,
}

impl View for Stats {
    type V = StatsView;

    closed spec fn view(&self) -> StatsView {
        StatsView {
            clauses_learned: self.clauses_learned,
            clauses_forgotten: self.clauses_forgotten,
            virtual_memory: self.virtual_memory,
            physical_memory: self.physical_memory,
        }
    }
}

impl StatsView {
    /// The counters without the memory figures.
    pub open spec fn counters(self) -> StatsView {
        StatsView { virtual_memory: 0, physical_memory: 0, ..self }
    }

    /// The counters after a memory sample: a sample replaces both memory figures, no
    /// sample leaves them.
    pub open spec fn sampled(self, sample: Option<(usize, usize)>) -> StatsView {
        match sample {
            Some((virtual_memory, physical_memory)) => StatsView {
                virtual_memory: virtual_memory,
                physical_memory: physical_memory,
                ..self
            },
            None => self,
        }
    }
}

impl Stats {
    pub fn new() -> (r: Stats)
        ensures
            r@ == (StatsView {
                clauses_learned: 0,
                clauses_forgotten: 0,
                virtual_memory: 0,
                physical_memory: 0,
            }),
    {
        Stats { clauses_learned: 0, clauses_forgotten: 0, virtual_memory: 0, physical_memory: 0 }
    }

    /// Samples the memory of the process and records it.
    pub fn update(&mut self)
        ensures
            exists|sample: Option<(usize, usize)>| final(self)@ == old(self)@.sampled(sample),
            final(self)@.counters() == old(self)@.counters(),
    {
        let sample = sample_memory();
        self.record_memory(sample);
    }

    /// Records a memory sample, given as `(virtual, physical)`.
    pub fn record_memory(&mut self, sample: Option<(usize, usize)>)
        ensures
            final(self)@ == old(self)@.sampled(sample),
    {
        match sample {
            Some((virtual_memory, physical_memory)) => {
                self.virtual_memory = virtual_memory;
                self.physical_memory = physical_memory;
            },
            None => {},
        }
    }

    pub fn increase_learned(&mut self)
        requires
            old(self)@.clauses_learned < usize::MAX,
        ensures
            final(self)@ == (StatsView {
                clauses_learned: (old(self)@.clauses_learned + 1) as usize,
                ..old(self)@
            }),
    {
        self.clauses_learned += 1;
    }

    pub fn increase_forgotten(&mut self, amount: usize)
        requires
            old(self)@.clauses_forgotten + amount <= usize::MAX,
        ensures
            final(self)@ == (StatsView {
                clauses_forgotten: (old(self)@.clauses_forgotten + amount) as usize,
                ..old(self)@
            }),
    {
        self.clauses_forgotten += amount;
    }

    pub fn get_clauses_learned(&self) -> (r: usize)
        ensures
            r == self@.clauses_learned,
    {
        self.clauses_learned
    }

    pub fn get_clauses_forgotten(&self) -> (r: usize)
        ensures
            r == self@.clauses_forgotten,
    {
        self.clauses_forgotten
    }

    /// The virtual memory last sampled, in bytes.
    pub fn virtual_memory_bytes(&self) -> (r: usize)
        ensures
            r == self@.virtual_memory,
    {
        self.virtual_memory
    }

    /// The physical memory last sampled, in bytes.
    pub fn physical_memory_bytes(&self) -> (r: usize)
        ensures
            r == self@.physical_memory,
    {
        self.physical_memory
    }

    /// The virtual memory last sampled, written with its unit.
    pub fn get_virtual_memory(&self) -> (r: String)
        ensures
            r@ == byte_text(self@.virtual_memory as u64),
    {
        format_bytes(self.virtual_memory as u64)
    }

    /// The physical memory last sampled, written with its unit.
    pub fn get_physical_memory(&self) -> (r: String)
        ensures
            r@ == byte_text(self@.physical_memory as u64),
    {
        format_bytes(self.physical_memory as u64)
    }
}

} // verus!
