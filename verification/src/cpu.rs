//! CPU utilization sampler: parses per-core cumulative time counters and
//! computes, between two successive samples, the share of elapsed time the
//! core was busy.
//!
//! The counter text is line oriented. The first line is an aggregate summary
//! and is skipped; every further line whose identifier starts with the core
//! prefix carries an identifier and ten cumulative time counters (user, nice,
//! system, idle, iowait, irq, softirq, steal, guest, guest_nice), in jiffies.

use vstd::prelude::*;

use crate::text::{
    all_digits, bytes_eq, digits_val, parse_u64, spec_fields, spec_lines, split_fields,
    split_lines, views_of,
};
use crate::SampleError;

verus! {

/// Mathematical value of one parsed counter line.
pub struct SampleV {
    pub id: Seq<u8>,
    pub idle_time: u64,
    pub total_time: u64,
}

/// Mathematical value of one tracked core.
pub struct CoreV {
    pub id: Seq<u8>,
    pub idle_time: u64,
    pub total_time: u64,
    pub utilization: u64,
}

/// One parsed counter line: core identifier and the two derived cumulative
/// times.
pub struct CpuSample {
    pub id: Vec<u8>,
    pub idle_time: u64,
    pub total_time: u64,
}

impl View for CpuSample {
    type V = SampleV;

    open spec fn view(&self) -> SampleV {
        SampleV { id: self.id@, idle_time: self.idle_time, total_time: self.total_time }
    }
}

/// One tracked core: identifier, the counters of the latest accepted sample,
/// and the utilization computed from the last two samples, in tenths of a
/// percent (0 means idle or not yet sampled twice, 1000 means fully busy).
pub struct CPUCore {
    pub id: Vec<u8>,
    pub idle_time: u64,
    pub total_time: u64,
    pub utilization: u64,
}

impl View for CPUCore {
    type V = CoreV;

    open spec fn view(&self) -> CoreV {
        CoreV {
            id: self.id@,
            idle_time: self.idle_time,
            total_time: self.total_time,
            utilization: self.utilization,
        }
    }
}

/// The views of a sequence of parsed samples.
pub open spec fn sviews(v: Seq<CpuSample>) -> Seq<SampleV> {
    v.map_values(|s: CpuSample| s@)
}

/// The views of a sequence of tracked cores.
pub open spec fn cores_of(v: Seq<CPUCore>) -> Seq<CoreV> {
    v.map_values(|c: CPUCore| c@)
}

/// A counter line is a per-core line when its identifier starts with `cpu`.
pub open spec fn is_cpu_line(line: Seq<u8>) -> bool {
    line.len() >= 3 && line[0] == 99 && line[1] == 112 && line[2] == 117
}

/// Field `k` of a split line is a decimal counter that fits in 64 bits.
pub open spec fn field_ok(f: Seq<Seq<u8>>, k: int) -> bool {
    f[k].len() > 0 && all_digits(f[k]) && digits_val(f[k]) <= u64::MAX
}

/// All ten counter fields of a split line are well formed.
pub open spec fn fields_ok(f: Seq<Seq<u8>>) -> bool {
    forall|k: int| 1 <= k <= 10 ==> field_ok(f, k)
}

/// Value of counter field `k`.
pub open spec fn fval(f: Seq<Seq<u8>>, k: int) -> int {
    digits_val(f[k]) as int
}

/// Parse one per-core counter line: identifier then ten counters. Idle time
/// is idle plus iowait; total time is the sum of all ten counters. `None`
/// when a counter is missing, not a number, or a sum does not fit in 64 bits.
pub open spec fn line_sample(line: Seq<u8>) -> Option<SampleV> {
    let f = spec_fields(line);
    if f.len() >= 11 && fields_ok(f) {
        let idle_time = fval(f, 4) + fval(f, 5);
        let total_time = fval(f, 1) + fval(f, 2) + fval(f, 3) + fval(f, 6) + fval(f, 7) + idle_time
            + fval(f, 8) + fval(f, 9) + fval(f, 10);
        if total_time <= u64::MAX {
            Some(
                SampleV { id: f[0], idle_time: idle_time as u64, total_time: total_time as u64 },
            )
        } else {
            None
        }
    } else {
        None
    }
}

/// A per-core line that does not parse.
pub open spec fn bad_line(line: Seq<u8>) -> bool {
    is_cpu_line(line) && line_sample(line) is None
}

/// Some per-core line among lines `1 .. n` does not parse.
pub open spec fn has_bad(lv: Seq<Seq<u8>>, n: int) -> bool {
    exists|k: int| 1 <= k < n && bad_line(lv[k])
}

/// The samples of the per-core lines of `lv`, in line order; lines that do
/// not parse are skipped.
pub open spec fn samples_of_lines(lv: Seq<Seq<u8>>) -> Seq<SampleV>
    decreases lv.len(),
{
    if lv.len() == 0 {
        Seq::empty()
    } else {
        let rest = samples_of_lines(lv.skip(1));
        if is_cpu_line(lv[0]) {
            match line_sample(lv[0]) {
                Some(s) => seq![s] + rest,
                None => rest,
            }
        } else {
            rest
        }
    }
}

/// The samples a full counter text yields: its lines past the summary line,
/// parsed in order.
pub open spec fn parsed_samples(text: Seq<u8>) -> Seq<SampleV> {
    let lv = spec_lines(text);
    if lv.len() == 0 {
        Seq::empty()
    } else {
        samples_of_lines(lv.skip(1))
    }
}

/// Some per-core line of the text does not parse.
pub open spec fn stat_malformed(text: Seq<u8>) -> bool {
    let lv = spec_lines(text);
    has_bad(lv, lv.len() as int)
}

/// Parse one line as a per-core counter line, exactly as `line_sample`
/// describes.
fn parse_cpu_line(line: &[u8]) -> (r: Option<CpuSample>)
    ensures
        match r {
            Some(s) => line_sample(line@) == Some(s@),
            None => line_sample(line@) is None,
        },
{
    let ghost f = spec_fields(line@);
    let mut fields = split_fields(line);
    if fields.len() < 11 {
        return None;
    }
    let mut vals: [u64; 10] = [0; 10];
    let mut k: usize = 1;
    while k <= 10
        invariant
            1 <= k <= 11,
            f == spec_fields(line@),
            f == views_of(fields@),
            f.len() >= 11,
            fields@.len() == f.len(),
            forall|j: int| 1 <= j < k ==> field_ok(f, j),
            forall|j: int| 1 <= j < k ==> vals@[j - 1] == fval(f, j),
        decreases 11 - k,
    {
        proof {
            assert(views_of(fields@)[k as int] == fields@[k as int]@);
        }
        match parse_u64(fields[k].as_slice()) {
            Some(v) => {
                vals[k - 1] = v;
            },
            None => {
                proof {
                    assert(!field_ok(f, k as int));
                }
                return None;
            },
        }
        k = k + 1;
    }
    let user = vals[0] as u128;
    let nice = vals[1] as u128;
    let system = vals[2] as u128;
    let idle = vals[3] as u128;
    let iowait = vals[4] as u128;
    let irq = vals[5] as u128;
    let softirq = vals[6] as u128;
    let steal = vals[7] as u128;
    let guest = vals[8] as u128;
    let guest_nice = vals[9] as u128;

    let idle_time = idle + iowait;
    let total_time = user + nice + system + irq + softirq + idle_time + steal + guest + guest_nice;
    if total_time > u64::MAX as u128 {
        return None;
    }
    let ghost fields0 = fields@;
    let id = fields.remove(0);
    proof {
        assert(views_of(fields0)[0] == fields0[0]@);
        assert(id@ == f[0]);
    }
    Some(CpuSample { id, idle_time: idle_time as u64, total_time: total_time as u64 })
}

/// Parse a full counter text: every per-core line past the summary line, in
/// order. The flag reports whether some per-core line had to be skipped.
pub fn parse_stat(text: &[u8]) -> (r: (Vec<CpuSample>, bool))
    ensures
        sviews(r.0@) == parsed_samples(text@),
        r.1 == stat_malformed(text@),
{
    let ghost lv = spec_lines(text@);
    let lines = split_lines(text);
    let mut samples: Vec<CpuSample> = Vec::new();
    let mut malformed = false;
    if lines.len() == 0 {
        proof {
            assert(sviews(samples@) =~= parsed_samples(text@));
        }
        return (samples, false);
    }
    let mut i: usize = 1;
    proof {
        assert(sviews(samples@) =~= Seq::<SampleV>::empty());
        assert(sviews(samples@) + samples_of_lines(lv.skip(1)) =~= samples_of_lines(lv.skip(1)));
    }
    while i < lines.len()
        invariant
            1 <= i <= lv.len(),
            lv == views_of(lines@),
            lines@.len() == lv.len(),
            samples_of_lines(lv.skip(1)) == sviews(samples@) + samples_of_lines(
                lv.skip(i as int),
            ),
            malformed == has_bad(lv, i as int),
        decreases lv.len() - i,
    {
        let ghost prev_samples = samples@;
        proof {
            assert(views_of(lines@)[i as int] == lines@[i as int]@);
            assert(lv.skip(i as int)[0] == lv[i as int]);
            assert(lv.skip(i as int).skip(1) =~= lv.skip(i + 1));
        }
        let line = &lines[i];
        if line.len() >= 3 && line[0] == 99 && line[1] == 112 && line[2] == 117 {
            match parse_cpu_line(line.as_slice()) {
                Some(s) => {
                    let ghost sv = s@;
                    samples.push(s);
                    proof {
                        assert(sviews(samples@) =~= sviews(prev_samples).push(sv));
                        assert(sviews(prev_samples).push(sv) + samples_of_lines(lv.skip(i + 1))
                            =~= sviews(prev_samples) + (seq![sv] + samples_of_lines(
                            lv.skip(i + 1),
                        )));
                    }
                },
                None => {
                    malformed = true;
                    proof {
                        assert(bad_line(lv[i as int]));
                        assert(has_bad(lv, i + 1));
                    }
                },
            }
        }
        proof {
            if has_bad(lv, i as int) {
                let k = choose|k: int| 1 <= k < i && bad_line(lv[k]);
                assert(bad_line(lv[k]));
                assert(has_bad(lv, i + 1));
            }
            if malformed != has_bad(lv, i + 1) {
                if has_bad(lv, i + 1) {
                    let k = choose|k: int| 1 <= k < i + 1 && bad_line(lv[k]);
                    assert(k == i || has_bad(lv, i as int));
                }
            }
        }
        i = i + 1;
    }
    proof {
        assert(lv.skip(i as int) =~= Seq::<Seq<u8>>::empty());
        assert(sviews(samples@) + Seq::<SampleV>::empty() =~= sviews(samples@));
    }
    (samples, malformed)
}

/// Utilization, in tenths of a percent, after a new sample: the share of the
/// elapsed total time that was not idle. When the total counter has not
/// advanced (or went backwards), the previous value is kept rather than
/// dividing by a degenerate delta; an idle delta outside the total delta is
/// clamped.
pub open spec fn utilization_after(prev: u64, ot: u64, oi: u64, nt: u64, ni: u64) -> int {
    if nt <= ot {
        prev as int
    } else {
        let dt = nt - ot;
        let raw = dt - (ni - oi);
        let busy = if raw < 0 {
            0
        } else if raw > dt {
            dt
        } else {
            raw
        };
        1000 * busy / dt
    }
}

/// When the counters advance, the computed utilization lies in 0 ..= 1000;
/// with a bounded previous value it stays bounded in every case.
pub proof fn lemma_utilization_bounds(prev: u64, ot: u64, oi: u64, nt: u64, ni: u64)
    requires
        prev <= 1000,
    ensures
        0 <= utilization_after(prev, ot, oi, nt, ni) <= 1000,
{
    if nt > ot {
        let dt = (nt - ot) as int;
        let raw = dt - (ni - oi);
        let busy = if raw < 0 {
            0
        } else if raw > dt {
            dt
        } else {
            raw
        };
        assert(0 <= 1000 * busy / dt <= 1000) by (nonlinear_arith)
            requires
                0 <= busy <= dt,
                0 < dt,
        ;
    }
}

/// The tracked core after accepting a new sample: counters overwritten,
/// utilization recomputed from the old and new counters.
pub open spec fn core_after(c: CoreV, s: SampleV) -> CoreV {
    CoreV {
        id: c.id,
        idle_time: s.idle_time,
        total_time: s.total_time,
        utilization: utilization_after(
            c.utilization,
            c.total_time,
            c.idle_time,
            s.total_time,
            s.idle_time,
        ) as u64,
    }
}

/// Compute the new utilization exactly as `utilization_after` describes.
pub fn compute_utilization(prev: u64, ot: u64, oi: u64, nt: u64, ni: u64) -> (u: u64)
    ensures
        u as int == utilization_after(prev, ot, oi, nt, ni),
{
    if nt <= ot {
        return prev;
    }
    let dt = nt - ot;
    let busy: u64 = if ni >= oi {
        let di = ni - oi;
        if di <= dt {
            dt - di
        } else {
            0
        }
    } else {
        dt
    };
    let q = 1000u128 * (busy as u128) / (dt as u128);
    proof {
        assert(0 <= 1000 * (busy as int) / (dt as int) <= 1000) by (nonlinear_arith)
            requires
                0 <= busy as int <= dt as int,
                0 < dt as int,
        ;
    }
    q as u64
}

/// Whether some tracked core carries identifier `id`.
pub open spec fn has_id(cores: Seq<CoreV>, id: Seq<u8>) -> bool {
    exists|j: int| 0 <= j < cores.len() && cores[j].id == id
}

/// Index of the first tracked core with identifier `id`.
pub open spec fn first_index_with_id(cores: Seq<CoreV>, id: Seq<u8>) -> int
    decreases cores.len(),
{
    if cores.len() == 0 {
        0
    } else if cores[0].id == id {
        0
    } else {
        1 + first_index_with_id(cores.skip(1), id)
    }
}

/// When some core carries `id`, `first_index_with_id` really is the first
/// index that does.
pub proof fn lemma_first_index_props(cores: Seq<CoreV>, id: Seq<u8>)
    requires
        has_id(cores, id),
    ensures
        0 <= first_index_with_id(cores, id) < cores.len(),
        cores[first_index_with_id(cores, id)].id == id,
        forall|k: int| 0 <= k < first_index_with_id(cores, id) ==> cores[k].id != id,
    decreases cores.len(),
{
    if cores.len() > 0 && cores[0].id != id {
        let w = choose|j: int| 0 <= j < cores.len() && cores[j].id == id;
        assert(cores.skip(1)[w - 1] == cores[w]);
        lemma_first_index_props(cores.skip(1), id);
        let j = first_index_with_id(cores, id);
        assert(forall|k: int| 1 <= k < j ==> cores[k] == cores.skip(1)[k - 1]);
    }
}

/// A first match found by scanning from the front is `first_index_with_id`.
pub proof fn lemma_first_index_unique(cores: Seq<CoreV>, id: Seq<u8>, j: int)
    requires
        0 <= j < cores.len(),
        cores[j].id == id,
        forall|k: int| 0 <= k < j ==> cores[k].id != id,
    ensures
        first_index_with_id(cores, id) == j,
    decreases j,
{
    if j > 0 {
        assert(forall|k: int| 0 <= k < j - 1 ==> cores.skip(1)[k] == cores[k + 1]);
        assert(cores.skip(1)[j - 1] == cores[j]);
        lemma_first_index_unique(cores.skip(1), id, j - 1);
    }
}

/// One parsed line applied to the tracked cores: the first core with the
/// line's identifier accepts the sample; a line matching no core is dropped.
pub open spec fn apply_one(cores: Seq<CoreV>, s: SampleV) -> Seq<CoreV> {
    if has_id(cores, s.id) {
        let j = first_index_with_id(cores, s.id);
        cores.update(j, core_after(cores[j], s))
    } else {
        cores
    }
}

/// All parsed lines of one refresh applied in line order.
pub open spec fn refresh_all(cores: Seq<CoreV>, ss: Seq<SampleV>) -> Seq<CoreV>
    decreases ss.len(),
{
    if ss.len() == 0 {
        cores
    } else {
        refresh_all(apply_one(cores, ss[0]), ss.skip(1))
    }
}

/// A fresh core for a sample seen at initialization: utilization is 0 until
/// a second sample exists.
pub open spec fn init_cores(ss: Seq<SampleV>) -> Seq<CoreV> {
    ss.map_values(
        |s: SampleV|
            CoreV { id: s.id, idle_time: s.idle_time, total_time: s.total_time, utilization: 0 },
    )
}

/// The CPU sampler: one tracked core per counter line seen at
/// initialization. `available` records whether the counter source could be
/// opened and parsed then; an unavailable sampler keeps an empty core list.
pub struct CPUInfo {
    pub available: bool,
    pub cores: Vec<CPUCore>,
}

impl CPUInfo {
    /// Every tracked core's utilization is a valid tenth-of-a-percent value.
    pub open spec fn wf(self) -> bool {
        forall|i: int| 0 <= i < self.cores@.len() ==> (#[trigger] self.cores@[i]).utilization <= 1000
    }

    /// Build the sampler from the first read of the counter source. `read`
    /// is `None` when the source could not be opened or read. Fails exactly
    /// when the read failed or some per-core line did not parse.
    pub fn init(read: Option<&[u8]>) -> (r: Result<CPUInfo, SampleError>)
        ensures
            match read {
                None => r == Err::<CPUInfo, SampleError>(SampleError::SourceUnavailable),
                Some(text) => {
                    if stat_malformed(text@) {
                        r == Err::<CPUInfo, SampleError>(SampleError::Parse)
                    } else {
                        r matches Ok(c) && c.available && cores_of(c.cores@) == init_cores(
                            parsed_samples(text@),
                        ) && c.wf()
                    }
                },
            },
    {
        let text = match read {
            Some(t) => t,
            None => {
                return Err(SampleError::SourceUnavailable);
            },
        };
        let (mut samples, malformed) = parse_stat(text);
        if malformed {
            return Err(SampleError::Parse);
        }
        let ghost ss0 = sviews(samples@);
        let mut cores: Vec<CPUCore> = Vec::new();
        proof {
            assert(cores_of(cores@) =~= Seq::<CoreV>::empty());
            assert(cores_of(cores@) + init_cores(ss0) =~= init_cores(ss0));
        }
        while samples.len() > 0
            invariant
                init_cores(ss0) == cores_of(cores@) + init_cores(sviews(samples@)),
                forall|i: int| 0 <= i < cores@.len() ==> (#[trigger] cores@[i]).utilization == 0,
            decreases samples@.len(),
        {
            let ghost prev_samples = samples@;
            let ghost prev_cores = cores@;
            let s = samples.remove(0);
            let ghost sv = s@;
            proof {
                assert(sviews(prev_samples) =~= seq![sv] + sviews(samples@));
            }
            let core = CPUCore {
                id: s.id,
                idle_time: s.idle_time,
                total_time: s.total_time,
                utilization: 0,
            };
            let ghost cv = core@;
            cores.push(core);
            proof {
                assert(init_cores(seq![sv] + sviews(samples@)) =~= seq![cv] + init_cores(
                    sviews(samples@),
                ));
                assert(cores_of(cores@) =~= cores_of(prev_cores).push(cv));
                assert(cores_of(prev_cores).push(cv) + init_cores(sviews(samples@))
                    =~= cores_of(prev_cores) + (seq![cv] + init_cores(sviews(samples@))));
            }
        }
        proof {
            assert(sviews(samples@) =~= Seq::<SampleV>::empty());
            assert(init_cores(Seq::<SampleV>::empty()) =~= Seq::<CoreV>::empty());
            assert(cores_of(cores@) + Seq::<CoreV>::empty() =~= cores_of(cores@));
        }
        Ok(CPUInfo { available: true, cores })
    }

    /// Build the sampler, degrading to an empty, sourceless sampler when the
    /// source cannot be opened, read or parsed.
    pub fn new(read: Option<&[u8]>) -> (c: CPUInfo)
        ensures
            c.wf(),
            match read {
                None => !c.available && c.cores@.len() == 0,
                Some(text) => {
                    if stat_malformed(text@) {
                        !c.available && c.cores@.len() == 0
                    } else {
                        c.available && cores_of(c.cores@) == init_cores(parsed_samples(text@))
                    }
                },
            },
    {
        match CPUInfo::init(read) {
            Ok(c) => c,
            Err(_) => CPUInfo { available: false, cores: Vec::new() },
        }
    }

    /// Find the first tracked core carrying `id`.
    fn find_core(cores: &Vec<CPUCore>, id: &[u8]) -> (r: Option<usize>)
        ensures
            match r {
                Some(j) => j < cores@.len() && has_id(cores_of(cores@), id@)
                    && first_index_with_id(cores_of(cores@), id@) == j as int,
                None => !has_id(cores_of(cores@), id@),
            },
    {
        let mut j: usize = 0;
        while j < cores.len()
            invariant
                j <= cores@.len(),
                forall|k: int| 0 <= k < j ==> cores_of(cores@)[k].id != id@,
            decreases cores@.len() - j,
        {
            proof {
                assert(cores_of(cores@)[j as int] == cores@[j as int]@);
            }
            if bytes_eq(cores[j].id.as_slice(), id) {
                proof {
                    lemma_first_index_unique(cores_of(cores@), id@, j as int);
                }
                return Some(j);
            }
            j = j + 1;
        }
        proof {
            if has_id(cores_of(cores@), id@) {
                let w = choose|k: int|
                    0 <= k < cores_of(cores@).len() && cores_of(cores@)[k].id == id@;
                assert(cores_of(cores@)[w].id != id@);
            }
        }
        None
    }

    /// Re-read outcome applied to the tracked cores: each parsed line, in
    /// line order, updates the first core with a matching identifier; other
    /// lines are dropped and other cores keep their previous values. `read`
    /// is `None` when the re-read failed; the previous values are then kept.
    /// On a sampler without a source this is a no-op.
    pub fn refresh_utilization(&mut self, read: Option<&[u8]>) -> (r: Result<(), SampleError>)
        requires
            old(self).wf(),
        ensures
            final(self).wf(),
            final(self).available == old(self).available,
            !old(self).available ==> final(self).cores@ == old(self).cores@ && r
                == Ok::<(), SampleError>(()),
            old(self).available ==> match read {
                None => final(self).cores@ == old(self).cores@ && r == Err::<
                    (),
                    SampleError,
                >(SampleError::TransientRead),
                Some(text) => cores_of(final(self).cores@) == refresh_all(
                    cores_of(old(self).cores@),
                    parsed_samples(text@),
                ) && r == (if stat_malformed(text@) {
                    Err::<(), SampleError>(SampleError::Parse)
                } else {
                    Ok::<(), SampleError>(())
                }),
            },
    {
        if !self.available {
            return Ok(());
        }
        let text = match read {
            Some(t) => t,
            None => {
                return Err(SampleError::TransientRead);
            },
        };
        let ghost cores0 = cores_of(self.cores@);
        let ghost parsed = parsed_samples(text@);
        let (samples, malformed) = parse_stat(text);
        let mut k: usize = 0;
        proof {
            assert(sviews(samples@).skip(0) =~= sviews(samples@));
        }
        while k < samples.len()
            invariant
                k <= samples@.len(),
                sviews(samples@) == parsed,
                self.available == old(self).available,
                self.wf(),
                refresh_all(cores0, parsed) == refresh_all(
                    cores_of(self.cores@),
                    parsed.skip(k as int),
                ),
            decreases samples@.len() - k,
        {
            let ghost pre = cores_of(self.cores@);
            proof {
                assert(parsed.skip(k as int)[0] == parsed[k as int]);
                assert(parsed[k as int] == samples@[k as int]@);
                assert(parsed.skip(k as int).skip(1) =~= parsed.skip(k + 1));
            }
            let s = &samples[k];
            match CPUInfo::find_core(&self.cores, s.id.as_slice()) {
                Some(j) => {
                    let prev_util = self.cores[j].utilization;
                    let prev_total = self.cores[j].total_time;
                    let prev_idle = self.cores[j].idle_time;
                    let u = compute_utilization(
                        prev_util,
                        prev_total,
                        prev_idle,
                        s.total_time,
                        s.idle_time,
                    );
                    proof {
                        assert(pre[j as int] == self.cores@[j as int]@);
                        lemma_utilization_bounds(
                            prev_util,
                            prev_total,
                            prev_idle,
                            s.total_time,
                            s.idle_time,
                        );
                    }
                    let c = &mut self.cores[j];
                    c.utilization = u;
                    c.idle_time = s.idle_time;
                    c.total_time = s.total_time;
                    proof {
                        assert(cores_of(self.cores@) =~= pre.update(
                            j as int,
                            core_after(pre[j as int], parsed[k as int]),
                        ));
                        assert(cores_of(self.cores@) == apply_one(pre, parsed[k as int]));
                    }
                },
                None => {
                    proof {
                        assert(cores_of(self.cores@) == apply_one(pre, parsed[k as int]));
                    }
                },
            }
            k = k + 1;
        }
        proof {
            assert(parsed.skip(k as int) =~= Seq::<SampleV>::empty());
        }
        if malformed {
            Err(SampleError::Parse)
        } else {
            Ok(())
        }
    }

    /// Refresh, swallowing the error: the caller may log it, the sampler
    /// state is the same either way.
    pub fn refresh(&mut self, read: Option<&[u8]>)
        requires
            old(self).wf(),
        ensures
            final(self).wf(),
            final(self).available == old(self).available,
            !old(self).available ==> final(self).cores@ == old(self).cores@,
            old(self).available ==> match read {
                None => final(self).cores@ == old(self).cores@,
                Some(text) => cores_of(final(self).cores@) == refresh_all(
                    cores_of(old(self).cores@),
                    parsed_samples(text@),
                ),
            },
    {
        let _ = self.refresh_utilization(read);
    }
}

/// Feeding identical counters twice keeps the previous utilization: the
/// zero-delta guard fires instead of dividing by a zero elapsed time, so the
/// reported value is always a well-defined number. Right after
/// initialization the previous value is 0, so a zero-delta refresh reports 0.
pub proof fn lemma_zero_delta_keeps_previous(prev: u64, t: u64, i: u64)
    ensures
        utilization_after(prev, t, i, t, i) == prev,
{
}

/// For a valid two-sample sequence — counters non-decreasing, the idle delta
/// within the advancing total delta — the utilization is exactly the busy
/// share of the elapsed time, scaled to tenths of a percent, and lies in
/// 0 ..= 1000. When the whole delta was idle the guard is not needed and the
/// formula itself yields 0.
pub proof fn lemma_utilization_exact(prev: u64, ot: u64, oi: u64, nt: u64, ni: u64)
    requires
        ot < nt,
        oi <= ni,
        ni - oi <= nt - ot,
    ensures
        utilization_after(prev, ot, oi, nt, ni) == 1000 * ((nt - ot) - (ni - oi)) / (nt - ot),
        0 <= utilization_after(prev, ot, oi, nt, ni) <= 1000,
        ni - oi == nt - ot ==> utilization_after(prev, ot, oi, nt, ni) == 0,
{
    let dt = (nt - ot) as int;
    let busy = dt - (ni - oi);
    assert(0 <= 1000 * busy / dt <= 1000) by (nonlinear_arith)
        requires
            0 <= busy <= dt,
            0 < dt,
    ;
    if busy == 0 {
        assert(1000 * busy / dt == 0) by (nonlinear_arith)
            requires
                0 < dt,
                busy == 0,
        ;
    }
}

/// No two of the parsed lines carry the same identifier.
pub open spec fn unique_ids(ss: Seq<SampleV>) -> bool {
    forall|a: int, b: int| 0 <= a < b < ss.len() ==> ss[a].id != ss[b].id
}

/// The identifiers of the tracked cores.
pub open spec fn ids_of(cores: Seq<CoreV>) -> Seq<Seq<u8>> {
    cores.map_values(|c: CoreV| c.id)
}

/// No core before `i` carries core `i`'s identifier.
pub open spec fn first_with(cores: Seq<CoreV>, i: int) -> bool {
    forall|k: int| 0 <= k < i ==> cores[k].id != cores[i].id
}

/// Some parsed line carries identifier `id`.
pub open spec fn has_match(ss: Seq<SampleV>, id: Seq<u8>) -> bool {
    exists|m: int| 0 <= m < ss.len() && ss[m].id == id
}

/// The parsed line carrying identifier `id` (meaningful when identifiers
/// are unique and some line matches).
pub open spec fn match_for(ss: Seq<SampleV>, id: Seq<u8>) -> SampleV {
    ss[choose|m: int| 0 <= m < ss.len() && ss[m].id == id]
}

/// What a refresh leaves in core `i`: the matching sample applied, when the
/// core is the first with its identifier and some line matches it; the old
/// value otherwise.
pub open spec fn expected_core(cores: Seq<CoreV>, ss: Seq<SampleV>, i: int) -> CoreV {
    if first_with(cores, i) && has_match(ss, cores[i].id) {
        core_after(cores[i], match_for(ss, cores[i].id))
    } else {
        cores[i]
    }
}

/// With unique identifiers, two indices carrying the same identifier are
/// the same index.
proof fn lemma_unique_pair(ss: Seq<SampleV>, p: int, q: int)
    requires
        unique_ids(ss),
        0 <= p < ss.len(),
        0 <= q < ss.len(),
        ss[p].id == ss[q].id,
    ensures
        p == q,
{
    if p < q {
        assert(ss[p].id != ss[q].id);
    } else if q < p {
        assert(ss[q].id != ss[p].id);
    }
}

/// Applying one line does not change which identifiers the cores carry.
proof fn lemma_apply_one_ids(cores: Seq<CoreV>, s: SampleV)
    ensures
        apply_one(cores, s).len() == cores.len(),
        ids_of(apply_one(cores, s)) == ids_of(cores),
{
    if has_id(cores, s.id) {
        lemma_first_index_props(cores, s.id);
    }
    assert(ids_of(apply_one(cores, s)) =~= ids_of(cores));
}

/// Dropping a first line with a different identifier changes neither
/// whether `id` has a match nor which sample matches it.
proof fn lemma_match_shift(ss: Seq<SampleV>, id: Seq<u8>)
    requires
        unique_ids(ss),
        ss.len() > 0,
        ss[0].id != id,
    ensures
        has_match(ss.skip(1), id) == has_match(ss, id),
        has_match(ss, id) ==> match_for(ss.skip(1), id) == match_for(ss, id),
{
    let rest = ss.skip(1);
    assert(forall|m: int| 0 <= m < rest.len() ==> rest[m] == ss[m + 1]);
    if has_match(ss, id) {
        let m = choose|m: int| 0 <= m < ss.len() && ss[m].id == id;
        assert(m != 0);
        assert(rest[m - 1] == ss[m]);
        assert(has_match(rest, id));
        let mr = choose|m2: int| 0 <= m2 < rest.len() && rest[m2].id == id;
        assert(rest[mr] == ss[mr + 1]);
        lemma_unique_pair(ss, mr + 1, m);
        assert(match_for(rest, id) == match_for(ss, id));
    }
    if has_match(rest, id) {
        let m2 = choose|m2: int| 0 <= m2 < rest.len() && rest[m2].id == id;
        assert(ss[m2 + 1].id == id);
        assert(has_match(ss, id));
    }
}

/// What `refresh_all` leaves in each core: with unique line identifiers,
/// core `i` ends as `expected_core` says, independently of line order.
proof fn lemma_refresh_all_char(cores: Seq<CoreV>, ss: Seq<SampleV>)
    requires
        unique_ids(ss),
    ensures
        refresh_all(cores, ss).len() == cores.len(),
        forall|i: int|
            0 <= i < cores.len() ==> refresh_all(cores, ss)[i] == expected_core(cores, ss, i),
    decreases ss.len(),
{
    if ss.len() > 0 {
        let s0 = ss[0];
        let rest = ss.skip(1);
        assert(forall|m: int| 0 <= m < rest.len() ==> rest[m] == ss[m + 1]);
        assert(unique_ids(rest));
        let cores2 = apply_one(cores, s0);
        lemma_apply_one_ids(cores, s0);
        assert forall|k: int| 0 <= k < cores.len() implies cores2[k].id == cores[k].id by {
            assert(ids_of(cores2)[k] == cores2[k].id);
            assert(ids_of(cores)[k] == cores[k].id);
        }
        lemma_refresh_all_char(cores2, rest);
        assert(refresh_all(cores, ss) == refresh_all(cores2, rest));
        assert forall|i: int|
            0 <= i < cores.len() implies refresh_all(cores, ss)[i] == expected_core(
            cores,
            ss,
            i,
        ) by {
            let idi = cores[i].id;
            assert(cores2[i].id == idi);
            assert(refresh_all(cores2, rest)[i] == expected_core(cores2, rest, i));
            assert(first_with(cores2, i) == first_with(cores, i)) by {
                if first_with(cores2, i) {
                    assert forall|k: int| 0 <= k < i implies cores[k].id != cores[i].id by {
                        assert(cores2[k].id != cores2[i].id);
                    }
                }
                if first_with(cores, i) {
                    assert forall|k: int| 0 <= k < i implies cores2[k].id != cores2[i].id by {
                        assert(cores[k].id != cores[i].id);
                    }
                }
            }
            if has_id(cores, s0.id) {
                lemma_first_index_props(cores, s0.id);
                let j = first_index_with_id(cores, s0.id);
                if i == j {
                    assert(idi == s0.id);
                    if has_match(rest, idi) {
                        let m = choose|m: int| 0 <= m < rest.len() && rest[m].id == idi;
                        assert(ss[m + 1].id == ss[0].id);
                        lemma_unique_pair(ss, m + 1, 0);
                        assert(false);
                    }
                    assert(first_with(cores, i));
                    assert(ss[0].id == idi);
                    assert(has_match(ss, idi));
                    let m = choose|m: int| 0 <= m < ss.len() && ss[m].id == idi;
                    lemma_unique_pair(ss, m, 0);
                    assert(match_for(ss, idi) == s0);
                    assert(cores2[i] == core_after(cores[i], s0));
                } else {
                    assert(cores2[i] == cores[i]);
                    if idi == s0.id {
                        assert(j < i) by {
                            if i < j {
                                assert(cores[i].id != s0.id);
                            }
                        }
                        assert(!first_with(cores, i)) by {
                            if first_with(cores, i) {
                                assert(cores[j].id != cores[i].id);
                            }
                        }
                    } else {
                        lemma_match_shift(ss, idi);
                    }
                }
            } else {
                assert(cores2 == cores);
                assert(idi != s0.id) by {
                    if idi == s0.id {
                        assert(0 <= i < cores.len() && cores[i].id == s0.id);
                        assert(has_id(cores, s0.id));
                    }
                }
                lemma_match_shift(ss, idi);
            }
        }
    }
}

/// Core identity join: a refresh joins lines to cores by identifier, so
/// feeding the same per-core lines in a permuted order — unique identifiers,
/// identical values — leaves every tracked core identical.
pub proof fn lemma_refresh_order_irrelevant(
    cores: Seq<CoreV>,
    ss1: Seq<SampleV>,
    ss2: Seq<SampleV>,
)
    requires
        unique_ids(ss1),
        ss2.to_multiset() == ss1.to_multiset(),
    ensures
        refresh_all(cores, ss2) == refresh_all(cores, ss1),
{
    ss1.to_multiset_ensures();
    ss2.to_multiset_ensures();
    assert(ss1.no_duplicates()) by {
        assert forall|a: int, b: int|
            0 <= a < ss1.len() && 0 <= b < ss1.len() && a != b implies ss1[a] != ss1[b] by {
            if a < b {
                assert(ss1[a].id != ss1[b].id);
            } else {
                assert(ss1[b].id != ss1[a].id);
            }
        }
    }
    ss1.lemma_multiset_has_no_duplicates();
    ss2.lemma_multiset_has_no_duplicates_conv();
    assert forall|a: int, b: int| 0 <= a < b < ss2.len() implies ss2[a].id != ss2[b].id by {
        if ss2[a].id == ss2[b].id {
            assert(ss2[a] != ss2[b]);
            assert(ss2.contains(ss2[a]));
            assert(ss2.contains(ss2[b]));
            assert(ss2.to_multiset().count(ss2[a]) > 0);
            assert(ss2.to_multiset().count(ss2[b]) > 0);
            assert(ss1.to_multiset().count(ss2[a]) > 0);
            assert(ss1.to_multiset().count(ss2[b]) > 0);
            assert(ss1.contains(ss2[a]));
            assert(ss1.contains(ss2[b]));
            let p = choose|p: int| 0 <= p < ss1.len() && ss1[p] == ss2[a];
            let q = choose|q: int| 0 <= q < ss1.len() && ss1[q] == ss2[b];
            lemma_unique_pair(ss1, p, q);
            assert(false);
        }
    }
    assert(unique_ids(ss2));
    lemma_refresh_all_char(cores, ss1);
    lemma_refresh_all_char(cores, ss2);
    assert forall|i: int|
        0 <= i < cores.len() implies refresh_all(cores, ss2)[i] == refresh_all(cores, ss1)[i] by {
        let idi = cores[i].id;
        if has_match(ss1, idi) {
            let m = choose|m: int| 0 <= m < ss1.len() && ss1[m].id == idi;
            assert(ss1.contains(ss1[m]));
            assert(ss1.to_multiset().count(ss1[m]) > 0);
            assert(ss2.to_multiset().count(ss1[m]) > 0);
            assert(ss2.contains(ss1[m]));
            let n = choose|n: int| 0 <= n < ss2.len() && ss2[n] == ss1[m];
            assert(ss2[n].id == idi);
            assert(has_match(ss2, idi));
        }
        if has_match(ss2, idi) {
            let m = choose|m: int| 0 <= m < ss2.len() && ss2[m].id == idi;
            assert(ss2.contains(ss2[m]));
            assert(ss2.to_multiset().count(ss2[m]) > 0);
            assert(ss1.to_multiset().count(ss2[m]) > 0);
            assert(ss1.contains(ss2[m]));
            let n = choose|n: int| 0 <= n < ss1.len() && ss1[n] == ss2[m];
            assert(ss1[n].id == idi);
            assert(has_match(ss1, idi));
        }
        if has_match(ss1, idi) && has_match(ss2, idi) {
            let m1 = choose|m: int| 0 <= m < ss1.len() && ss1[m].id == idi;
            let m2 = choose|m: int| 0 <= m < ss2.len() && ss2[m].id == idi;
            assert(ss2.contains(ss2[m2]));
            assert(ss2.to_multiset().count(ss2[m2]) > 0);
            assert(ss1.to_multiset().count(ss2[m2]) > 0);
            assert(ss1.contains(ss2[m2]));
            let p = choose|p: int| 0 <= p < ss1.len() && ss1[p] == ss2[m2];
            assert(ss1[p].id == idi);
            lemma_unique_pair(ss1, m1, p);
            assert(match_for(ss2, idi) == match_for(ss1, idi));
        }
        assert(refresh_all(cores, ss1)[i] == expected_core(cores, ss1, i));
        assert(refresh_all(cores, ss2)[i] == expected_core(cores, ss2, i));
        assert(expected_core(cores, ss2, i) == expected_core(cores, ss1, i));
    }
    assert(refresh_all(cores, ss2) =~= refresh_all(cores, ss1));
}

} // verus!
