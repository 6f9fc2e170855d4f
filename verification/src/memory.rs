//! Memory utilization sampler: parses point-in-time memory and swap counters
//! (reported in kilobytes, one `Key: value` line each) and derives used and
//! total figures in whole megabytes. No history is kept: every refresh
//! recomputes the snapshot wholesale from the latest counters.

use vstd::prelude::*;

use crate::text::{all_digits, digits_val, parse_u64, spec_fields, spec_lines, split_fields,
    split_lines, views_of};
use crate::SampleError;

verus! {

/// The recognized counter keys. Lines with any other key are ignored, a
/// deliberate forward-compatible parse.
#[derive(Clone, Copy, Debug, PartialEq, Eq, Structural)]
pub enum MemKey {
    Total,
    Free,
    Buffers,
    Cached,
    Shmem,
    SReclaimable,
    SwapTotal,
    SwapFree,
}

/// The raw counter values of one read, in kilobytes. A key that does not
/// occur keeps 0, which degrades the derived figures but never fails.
#[derive(Clone, Copy, Debug, PartialEq, Eq, Structural)]
pub struct MemCounters {
    pub mem_total: u64,
    pub mem_free: u64,
    pub buffers: u64,
    pub cached: u64,
    pub shmem: u64,
    pub sreclaimable: u64,
    pub swap_total: u64,
    pub swap_free: u64,
}

/// All counters zero: the state before any recognized line.
pub open spec fn zero_counters() -> MemCounters {
    MemCounters {
        mem_total: 0,
        mem_free: 0,
        buffers: 0,
        cached: 0,
        shmem: 0,
        sreclaimable: 0,
        swap_total: 0,
        swap_free: 0,
    }
}

/// The identifying token of each recognized key, colon included.
pub open spec fn key_seq(k: MemKey) -> Seq<u8> {
    match k {
        MemKey::Total => seq![77u8, 101u8, 109u8, 84u8, 111u8, 116u8, 97u8, 108u8, 58u8],
        MemKey::Free => seq![77u8, 101u8, 109u8, 70u8, 114u8, 101u8, 101u8, 58u8],
        MemKey::Buffers => seq![66u8, 117u8, 102u8, 102u8, 101u8, 114u8, 115u8, 58u8],
        MemKey::Cached => seq![67u8, 97u8, 99u8, 104u8, 101u8, 100u8, 58u8],
        MemKey::Shmem => seq![83u8, 104u8, 109u8, 101u8, 109u8, 58u8],
        MemKey::SReclaimable => seq![
            83u8,
            82u8,
            101u8,
            99u8,
            108u8,
            97u8,
            105u8,
            109u8,
            97u8,
            98u8,
            108u8,
            101u8,
            58u8,
        ],
        MemKey::SwapTotal => seq![83u8, 119u8, 97u8, 112u8, 84u8, 111u8, 116u8, 97u8, 108u8, 58u8],
        MemKey::SwapFree => seq![83u8, 119u8, 97u8, 112u8, 70u8, 114u8, 101u8, 101u8, 58u8],
    }
}

/// Which recognized key a line's first token is, if any.
pub open spec fn spec_key_of(tok: Seq<u8>) -> Option<MemKey> {
    if tok == key_seq(MemKey::Total) {
        Some(MemKey::Total)
    } else if tok == key_seq(MemKey::Free) {
        Some(MemKey::Free)
    } else if tok == key_seq(MemKey::Buffers) {
        Some(MemKey::Buffers)
    } else if tok == key_seq(MemKey::Cached) {
        Some(MemKey::Cached)
    } else if tok == key_seq(MemKey::Shmem) {
        Some(MemKey::Shmem)
    } else if tok == key_seq(MemKey::SReclaimable) {
        Some(MemKey::SReclaimable)
    } else if tok == key_seq(MemKey::SwapTotal) {
        Some(MemKey::SwapTotal)
    } else if tok == key_seq(MemKey::SwapFree) {
        Some(MemKey::SwapFree)
    } else {
        None
    }
}

/// The counters with key `k` set to `v`.
pub open spec fn set_key(c: MemCounters, k: MemKey, v: u64) -> MemCounters {
    match k {
        MemKey::Total => MemCounters { mem_total: v, ..c },
        MemKey::Free => MemCounters { mem_free: v, ..c },
        MemKey::Buffers => MemCounters { buffers: v, ..c },
        MemKey::Cached => MemCounters { cached: v, ..c },
        MemKey::Shmem => MemCounters { shmem: v, ..c },
        MemKey::SReclaimable => MemCounters { sreclaimable: v, ..c },
        MemKey::SwapTotal => MemCounters { swap_total: v, ..c },
        MemKey::SwapFree => MemCounters { swap_free: v, ..c },
    }
}

/// One line applied to the counters: a recognized key with a well-formed
/// first numeric field overwrites that counter; every other line, a
/// malformed value included, changes nothing.
pub open spec fn apply_line(c: MemCounters, line: Seq<u8>) -> MemCounters {
    let f = spec_fields(line);
    if f.len() >= 2 {
        match spec_key_of(f[0]) {
            Some(k) => {
                if f[1].len() > 0 && all_digits(f[1]) && digits_val(f[1]) <= u64::MAX {
                    set_key(c, k, digits_val(f[1]) as u64)
                } else {
                    c
                }
            },
            None => c,
        }
    } else {
        c
    }
}

/// A line whose key is recognized but whose value is missing its numeric
/// shape or does not fit in 64 bits.
pub open spec fn mem_line_malformed(line: Seq<u8>) -> bool {
    let f = spec_fields(line);
    f.len() >= 2 && spec_key_of(f[0]) is Some && !(f[1].len() > 0 && all_digits(f[1])
        && digits_val(f[1]) <= u64::MAX)
}

/// The counters after all lines, in order; a later occurrence of a key wins.
pub open spec fn counters_of_lines(lv: Seq<Seq<u8>>) -> MemCounters
    decreases lv.len(),
{
    if lv.len() == 0 {
        zero_counters()
    } else {
        apply_line(counters_of_lines(lv.drop_last()), lv.last())
    }
}

/// The counters a full counter text yields.
pub open spec fn mem_counters(text: Seq<u8>) -> MemCounters {
    counters_of_lines(spec_lines(text))
}

/// Some line of the text has a recognized key and a malformed value.
pub open spec fn mem_malformed(text: Seq<u8>) -> bool {
    exists|k: int|
        0 <= k < spec_lines(text).len() && mem_line_malformed(spec_lines(text)[k])
}

/// Rounding division by 1024 (kilobytes to whole megabytes), halves rounded
/// away from zero.
pub open spec fn round_div_1024(n: int) -> int {
    if n >= 0 {
        (n + 512) / 1024
    } else {
        -((-n + 512) / 1024)
    }
}

/// Total RAM of the snapshot, in megabytes.
pub open spec fn total_ram_of(c: MemCounters) -> int {
    round_div_1024(c.mem_total as int)
}

/// Used RAM of the snapshot, in megabytes: total minus free, minus buffers
/// and cache (reclaimable cache counted in, shared memory counted out).
pub open spec fn used_ram_of(c: MemCounters) -> int {
    round_div_1024(
        c.mem_total - c.mem_free - (c.buffers + c.cached + c.sreclaimable - c.shmem),
    )
}

/// Total swap of the snapshot, in megabytes.
pub open spec fn total_swap_of(c: MemCounters) -> int {
    round_div_1024(c.swap_total as int)
}

/// Used swap of the snapshot, in megabytes.
pub open spec fn used_swap_of(c: MemCounters) -> int {
    round_div_1024(c.swap_total - c.swap_free)
}

/// Unrecognized keys are ignored: inserting a line whose first token is not
/// a recognized key — or that has fewer than two fields — anywhere in the
/// counter text leaves every recognized counter, and so every derived
/// figure, untouched.
pub proof fn lemma_unrecognized_line_ignored(lv: Seq<Seq<u8>>, i: int, line: Seq<u8>)
    requires
        0 <= i <= lv.len(),
        spec_fields(line).len() < 2 || spec_key_of(spec_fields(line)[0]) is None,
    ensures
        counters_of_lines(lv.insert(i, line)) == counters_of_lines(lv),
    decreases lv.len(),
{
    let lv2 = lv.insert(i, line);
    assert(lv2.len() == lv.len() + 1);
    if i == lv.len() {
        assert(lv2.drop_last() =~= lv);
        assert(lv2.last() == line);
        assert(apply_line(counters_of_lines(lv), line) == counters_of_lines(lv));
    } else {
        assert(lv2.drop_last() =~= lv.drop_last().insert(i, line));
        assert(lv2.last() == lv.last());
        lemma_unrecognized_line_ignored(lv.drop_last(), i, line);
    }
}

/// Classify a line's first token, exactly as `spec_key_of` describes.
fn key_of_tok(tok: &[u8]) -> (k: Option<MemKey>)
    ensures
        k == spec_key_of(tok@),
{
    if tok.len() == 9 && tok[0] == 77 && tok[1] == 101 && tok[2] == 109 && tok[3] == 84
        && tok[4] == 111 && tok[5] == 116 && tok[6] == 97 && tok[7] == 108 && tok[8] == 58 {
        proof {
            assert(tok@ =~= key_seq(MemKey::Total));
        }
        return Some(MemKey::Total);
    }
    if tok.len() == 8 && tok[0] == 77 && tok[1] == 101 && tok[2] == 109 && tok[3] == 70
        && tok[4] == 114 && tok[5] == 101 && tok[6] == 101 && tok[7] == 58 {
        proof {
            assert(tok@ =~= key_seq(MemKey::Free));
        }
        return Some(MemKey::Free);
    }
    if tok.len() == 8 && tok[0] == 66 && tok[1] == 117 && tok[2] == 102 && tok[3] == 102
        && tok[4] == 101 && tok[5] == 114 && tok[6] == 115 && tok[7] == 58 {
        proof {
            assert(tok@ =~= key_seq(MemKey::Buffers));
        }
        return Some(MemKey::Buffers);
    }
    if tok.len() == 7 && tok[0] == 67 && tok[1] == 97 && tok[2] == 99 && tok[3] == 104
        && tok[4] == 101 && tok[5] == 100 && tok[6] == 58 {
        proof {
            assert(tok@ =~= key_seq(MemKey::Cached));
        }
        return Some(MemKey::Cached);
    }
    if tok.len() == 6 && tok[0] == 83 && tok[1] == 104 && tok[2] == 109 && tok[3] == 101
        && tok[4] == 109 && tok[5] == 58 {
        proof {
            assert(tok@ =~= key_seq(MemKey::Shmem));
        }
        return Some(MemKey::Shmem);
    }
    if tok.len() == 13 && tok[0] == 83 && tok[1] == 82 && tok[2] == 101 && tok[3] == 99
        && tok[4] == 108 && tok[5] == 97 && tok[6] == 105 && tok[7] == 109 && tok[8] == 97
        && tok[9] == 98 && tok[10] == 108 && tok[11] == 101 && tok[12] == 58 {
        proof {
            assert(tok@ =~= key_seq(MemKey::SReclaimable));
        }
        return Some(MemKey::SReclaimable);
    }
    if tok.len() == 10 && tok[0] == 83 && tok[1] == 119 && tok[2] == 97 && tok[3] == 112
        && tok[4] == 84 && tok[5] == 111 && tok[6] == 116 && tok[7] == 97 && tok[8] == 108
        && tok[9] == 58 {
        proof {
            assert(tok@ =~= key_seq(MemKey::SwapTotal));
        }
        return Some(MemKey::SwapTotal);
    }
    if tok.len() == 9 && tok[0] == 83 && tok[1] == 119 && tok[2] == 97 && tok[3] == 112
        && tok[4] == 70 && tok[5] == 114 && tok[6] == 101 && tok[7] == 101 && tok[8] == 58 {
        proof {
            assert(tok@ =~= key_seq(MemKey::SwapFree));
        }
        return Some(MemKey::SwapFree);
    }
    None
}

/// Apply one line to the counters, exactly as `apply_line` describes; the
/// flag reports a recognized key whose value did not parse.
fn apply_line_exec(c: MemCounters, line: &[u8]) -> (r: (MemCounters, bool))
    ensures
        r.0 == apply_line(c, line@),
        r.1 == mem_line_malformed(line@),
{
    let ghost f = spec_fields(line@);
    let fields = split_fields(line);
    if fields.len() < 2 {
        return (c, false);
    }
    proof {
        assert(views_of(fields@)[0] == fields@[0]@);
        assert(views_of(fields@)[1] == fields@[1]@);
    }
    match key_of_tok(fields[0].as_slice()) {
        None => (c, false),
        Some(k) => {
            match parse_u64(fields[1].as_slice()) {
                Some(v) => {
                    let updated = match k {
                        MemKey::Total => MemCounters { mem_total: v, ..c },
                        MemKey::Free => MemCounters { mem_free: v, ..c },
                        MemKey::Buffers => MemCounters { buffers: v, ..c },
                        MemKey::Cached => MemCounters { cached: v, ..c },
                        MemKey::Shmem => MemCounters { shmem: v, ..c },
                        MemKey::SReclaimable => MemCounters { sreclaimable: v, ..c },
                        MemKey::SwapTotal => MemCounters { swap_total: v, ..c },
                        MemKey::SwapFree => MemCounters { swap_free: v, ..c },
                    };
                    (updated, false)
                },
                None => (c, true),
            }
        },
    }
}

/// Parse a full counter text, exactly as `mem_counters` describes; the flag
/// reports whether some recognized line had to be skipped.
pub fn read_counters(text: &[u8]) -> (r: (MemCounters, bool))
    ensures
        r.0 == mem_counters(text@),
        r.1 == mem_malformed(text@),
{
    let ghost lv = spec_lines(text@);
    let lines = split_lines(text);
    let mut c = MemCounters {
        mem_total: 0,
        mem_free: 0,
        buffers: 0,
        cached: 0,
        shmem: 0,
        sreclaimable: 0,
        swap_total: 0,
        swap_free: 0,
    };
    let mut malformed = false;
    let mut i: usize = 0;
    proof {
        assert(lv.take(0) =~= Seq::<Seq<u8>>::empty());
    }
    while i < lines.len()
        invariant
            i <= lv.len(),
            lv == views_of(lines@),
            lines@.len() == lv.len(),
            c == counters_of_lines(lv.take(i as int)),
            malformed == exists|k: int| 0 <= k < i && mem_line_malformed(lv[k]),
        decreases lv.len() - i,
    {
        proof {
            assert(views_of(lines@)[i as int] == lines@[i as int]@);
            assert(lv.take(i + 1).drop_last() =~= lv.take(i as int));
            assert(lv.take(i + 1).last() == lv[i as int]);
        }
        let (c2, bad) = apply_line_exec(c, lines[i].as_slice());
        c = c2;
        if bad {
            malformed = true;
            proof {
                assert(mem_line_malformed(lv[i as int]));
            }
        }
        proof {
            if malformed != (exists|k: int| 0 <= k < i + 1 && mem_line_malformed(lv[k])) {
                if exists|k: int| 0 <= k < i + 1 && mem_line_malformed(lv[k]) {
                    let k = choose|k: int| 0 <= k < i + 1 && mem_line_malformed(lv[k]);
                    assert(k == i || (exists|k2: int| 0 <= k2 < i && mem_line_malformed(lv[k2])));
                }
            }
        }
        i = i + 1;
    }
    proof {
        assert(lv.take(i as int) =~= lv);
    }
    (c, malformed)
}

/// Rounding division by 1024, exactly as `round_div_1024` describes, for the
/// range the derived figures can reach.
fn round_div_1024_i(n: i128) -> (r: i64)
    requires
        -110680464442257309696 <= n <= 110680464442257309696,
    ensures
        r as int == round_div_1024(n as int),
{
    if n >= 0 {
        let q = ((n as u128) + 512) / 1024;
        q as i64
    } else {
        let m = -n;
        let q = ((m as u128) + 512) / 1024;
        -(q as i64)
    }
}

/// The derived memory snapshot, all figures in whole megabytes. The sampler
/// keeps no history: every refresh replaces the whole snapshot.
#[derive(Clone, Copy, Debug, PartialEq, Eq, Structural)]
pub struct MemoryUtilization {
    pub total_ram: i64,
    pub used_ram: i64,
    pub total_swap: i64,
    pub used_swap: i64,
}

/// Derive the snapshot figures from raw counters, exactly as the formula
/// spec functions describe.
pub fn snapshot_of(c: MemCounters) -> (m: MemoryUtilization)
    ensures
        m.total_ram as int == total_ram_of(c),
        m.used_ram as int == used_ram_of(c),
        m.total_swap as int == total_swap_of(c),
        m.used_swap as int == used_swap_of(c),
{
    let used_n: i128 = c.mem_total as i128 - c.mem_free as i128 - (c.buffers as i128
        + c.cached as i128 + c.sreclaimable as i128 - c.shmem as i128);
    let swap_n: i128 = c.swap_total as i128 - c.swap_free as i128;
    MemoryUtilization {
        total_ram: round_div_1024_i(c.mem_total as i128),
        used_ram: round_div_1024_i(used_n),
        total_swap: round_div_1024_i(c.swap_total as i128),
        used_swap: round_div_1024_i(swap_n),
    }
}

impl MemoryUtilization {
    /// Build the snapshot from the first read of the counter source. `read`
    /// is `None` when the source could not be opened or read. Fails exactly
    /// when the read failed or some recognized line had a malformed value.
    pub fn new(read: Option<&[u8]>) -> (r: Result<MemoryUtilization, SampleError>)
        ensures
            match read {
                None => r == Err::<MemoryUtilization, SampleError>(SampleError::SourceUnavailable),
                Some(text) => {
                    if mem_malformed(text@) {
                        r == Err::<MemoryUtilization, SampleError>(SampleError::Parse)
                    } else {
                        r matches Ok(m) && m.total_ram as int == total_ram_of(mem_counters(text@))
                            && m.used_ram as int == used_ram_of(mem_counters(text@))
                            && m.total_swap as int == total_swap_of(mem_counters(text@))
                            && m.used_swap as int == used_swap_of(mem_counters(text@))
                    }
                },
            },
    {
        let text = match read {
            Some(t) => t,
            None => {
                return Err(SampleError::SourceUnavailable);
            },
        };
        let (c, malformed) = read_counters(text);
        if malformed {
            return Err(SampleError::Parse);
        }
        Ok(snapshot_of(c))
    }

    /// Recompute the snapshot from a re-read. A failed read keeps the
    /// previous figures; a malformed recognized line is skipped, every
    /// well-formed line still counts, and the parse error is reported.
    pub fn refresh(&mut self, read: Option<&[u8]>) -> (r: Result<(), SampleError>)
        ensures
            match read {
                None => *final(self) == *old(self) && r == Err::<(), SampleError>(
                    SampleError::TransientRead,
                ),
                Some(text) => final(self).total_ram as int == total_ram_of(mem_counters(text@))
                    && final(self).used_ram as int == used_ram_of(mem_counters(text@))
                    && final(self).total_swap as int == total_swap_of(mem_counters(text@))
                    && final(self).used_swap as int == used_swap_of(mem_counters(text@)) && r == (
                if mem_malformed(text@) {
                    Err::<(), SampleError>(SampleError::Parse)
                } else {
                    Ok::<(), SampleError>(())
                }),
            },
    {
        let text = match read {
            Some(t) => t,
            None => {
                return Err(SampleError::TransientRead);
            },
        };
        let (c, malformed) = read_counters(text);
        *self = snapshot_of(c);
        if malformed {
            Err(SampleError::Parse)
        } else {
            Ok(())
        }
    }
}

/// The memory sampler: `None` when the counter source was missing,
/// unreadable or unparsable at initialization, a valid steady state on which
/// refresh is a no-op.
pub struct MemoryInfo {
    pub mem: Option<MemoryUtilization>,
}

impl MemoryInfo {
    /// Build the sampler, degrading to an absent snapshot when the source
    /// cannot be opened, read or parsed.
    pub fn new(read: Option<&[u8]>) -> (r: MemoryInfo)
        ensures
            match read {
                None => r.mem is None,
                Some(text) => {
                    if mem_malformed(text@) {
                        r.mem is None
                    } else {
                        r.mem matches Some(m) && m.total_ram as int == total_ram_of(
                            mem_counters(text@),
                        ) && m.used_ram as int == used_ram_of(mem_counters(text@))
                            && m.total_swap as int == total_swap_of(mem_counters(text@))
                            && m.used_swap as int == used_swap_of(mem_counters(text@))
                    }
                },
            },
    {
        match MemoryUtilization::new(read) {
            Ok(m) => MemoryInfo { mem: Some(m) },
            Err(_) => MemoryInfo { mem: None },
        }
    }

    /// Refresh the snapshot, swallowing the error: an absent snapshot stays
    /// absent, a failed read keeps the previous figures.
    pub fn refresh(&mut self, read: Option<&[u8]>)
        ensures
            old(self).mem is None ==> final(self).mem is None,
            old(self).mem is Some ==> match read {
                None => *final(self) == *old(self),
                Some(text) => final(self).mem matches Some(m) && m.total_ram as int
                    == total_ram_of(mem_counters(text@)) && m.used_ram as int == used_ram_of(
                    mem_counters(text@),
                ) && m.total_swap as int == total_swap_of(mem_counters(text@))
                    && m.used_swap as int == used_swap_of(mem_counters(text@)),
            },
    {
        match &mut self.mem {
            Some(m) => {
                let _ = m.refresh(read);
            },
            None => {},
        }
    }
}

} // verus!
