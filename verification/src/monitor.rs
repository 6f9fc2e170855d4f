//! The aggregator: owns one instance of each sampler and exposes a single
//! refresh entry point, invoked once per external tick. The samplers share
//! no state, so one sampler's failure never prevents the others from
//! updating.

use vstd::prelude::*;

use crate::cpu::{cores_of, init_cores, parsed_samples, refresh_all, stat_malformed, CPUInfo};
use crate::memory::{
    mem_counters, mem_malformed, total_ram_of, total_swap_of, used_ram_of, used_swap_of,
    MemoryInfo,
};

verus! {

/// The aggregator state: the CPU and memory samplers, each independently
/// optional in the sense that either may be unavailable while the other
/// keeps updating.
pub struct App {
    pub cpu: CPUInfo,
    pub memory: MemoryInfo,
}

impl App {
    /// Build both samplers from the first read of their counter sources;
    /// each read is `None` when its source could not be opened or read, and
    /// each sampler degrades independently.
    pub fn new(cpu_read: Option<&[u8]>, mem_read: Option<&[u8]>) -> (a: App)
        ensures
            a.cpu.wf(),
            match cpu_read {
                None => !a.cpu.available && a.cpu.cores@.len() == 0,
                Some(text) => {
                    if stat_malformed(text@) {
                        !a.cpu.available && a.cpu.cores@.len() == 0
                    } else {
                        a.cpu.available && cores_of(a.cpu.cores@) == init_cores(
                            parsed_samples(text@),
                        )
                    }
                },
            },
            match mem_read {
                None => a.memory.mem is None,
                Some(text) => {
                    if mem_malformed(text@) {
                        a.memory.mem is None
                    } else {
                        a.memory.mem matches Some(m) && m.total_ram as int == total_ram_of(
                            mem_counters(text@),
                        ) && m.used_ram as int == used_ram_of(mem_counters(text@))
                            && m.total_swap as int == total_swap_of(mem_counters(text@))
                            && m.used_swap as int == used_swap_of(mem_counters(text@))
                    }
                },
            },
    {
        App { cpu: CPUInfo::new(cpu_read), memory: MemoryInfo::new(mem_read) }
    }

    /// One tick: refresh both samplers independently from the latest reads
    /// of their sources. A failed read (`None`) or an unavailable sampler
    /// leaves that sampler's values untouched; the other still updates.
    pub fn on_tick(&mut self, cpu_read: Option<&[u8]>, mem_read: Option<&[u8]>)
        requires
            old(self).cpu.wf(),
        ensures
            final(self).cpu.wf(),
            final(self).cpu.available == old(self).cpu.available,
            !old(self).cpu.available ==> final(self).cpu.cores@ == old(self).cpu.cores@,
            old(self).cpu.available ==> match cpu_read {
                None => final(self).cpu.cores@ == old(self).cpu.cores@,
                Some(text) => cores_of(final(self).cpu.cores@) == refresh_all(
                    cores_of(old(self).cpu.cores@),
                    parsed_samples(text@),
                ),
            },
            old(self).memory.mem is None ==> final(self).memory.mem is None,
            old(self).memory.mem is Some ==> match mem_read {
                None => final(self).memory == old(self).memory,
                Some(text) => final(self).memory.mem matches Some(m) && m.total_ram as int
                    == total_ram_of(mem_counters(text@)) && m.used_ram as int == used_ram_of(
                    mem_counters(text@),
                ) && m.total_swap as int == total_swap_of(mem_counters(text@))
                    && m.used_swap as int == used_swap_of(mem_counters(text@)),
            },
    {
        self.cpu.refresh(cpu_read);
        self.memory.refresh(mem_read);
    }
}

} // verus!
