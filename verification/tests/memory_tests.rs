use resmon::memory::{MemoryInfo, MemoryUtilization};
use resmon::SampleError;

fn full_text() -> Vec<u8> {
    b"MemTotal:       16777216 kB\n\
MemFree:        8388608 kB\n\
Buffers:        0 kB\n\
Cached:         0 kB\n\
Shmem:          0 kB\n\
SReclaimable:   0 kB\n\
SwapTotal:      2097152 kB\n\
SwapFree:       2097152 kB\n"
        .to_vec()
}

#[test]
fn ram_formula_round_trip() {
    let text = full_text();
    let m = MemoryUtilization::new(Some(&text)).expect("well-formed text");
    assert_eq!(m.total_ram, 16384);
    assert_eq!(m.used_ram, 8192);
}

#[test]
fn swap_formula() {
    let text = full_text();
    let m = MemoryUtilization::new(Some(&text)).expect("well-formed text");
    assert_eq!(m.total_swap, 2048);
    assert_eq!(m.used_swap, 0);
}

#[test]
fn unrecognized_keys_are_ignored() {
    let with_extras: Vec<u8> = b"Slab:           123456 kB\n\
MemTotal:       16777216 kB\n\
VmallocTotal:   34359738367 kB\n\
MemFree:        8388608 kB\n\
MemAvailable:   9999999 kB\n\
SwapTotal:      2097152 kB\n\
SwapFree:       2097152 kB\n\
HugePages_Total:     0\n"
        .to_vec();
    let plain: Vec<u8> = b"MemTotal:       16777216 kB\n\
MemFree:        8388608 kB\n\
SwapTotal:      2097152 kB\n\
SwapFree:       2097152 kB\n"
        .to_vec();
    let a = MemoryUtilization::new(Some(&with_extras)).expect("well-formed text");
    let b = MemoryUtilization::new(Some(&plain)).expect("well-formed text");
    assert_eq!(a, b);
    assert_eq!(a.total_ram, 16384);
    assert_eq!(a.used_ram, 8192);
}

#[test]
fn missing_keys_default_to_zero() {
    let text: Vec<u8> = b"MemTotal:       2048 kB\n".to_vec();
    let m = MemoryUtilization::new(Some(&text)).expect("well-formed text");
    assert_eq!(m.total_ram, 2);
    // MemFree missing: used = total - 0 -> the whole of it.
    assert_eq!(m.used_ram, 2);
    assert_eq!(m.total_swap, 0);
    assert_eq!(m.used_swap, 0);
}

#[test]
fn cached_and_reclaimable_reduce_used_shmem_adds_back() {
    let text: Vec<u8> = b"MemTotal:       10240 kB\n\
MemFree:        2048 kB\n\
Buffers:        1024 kB\n\
Cached:         2048 kB\n\
Shmem:          1024 kB\n\
SReclaimable:   1024 kB\n"
        .to_vec();
    let m = MemoryUtilization::new(Some(&text)).expect("well-formed text");
    // used = 10240 - 2048 - (1024 + 2048 + 1024 - 1024) = 5120 kB -> 5 MB.
    assert_eq!(m.used_ram, 5);
    assert_eq!(m.total_ram, 10);
}

#[test]
fn rounding_is_half_away_from_zero() {
    let up: Vec<u8> = b"MemTotal: 1536 kB\n".to_vec();
    let m = MemoryUtilization::new(Some(&up)).expect("well-formed text");
    assert_eq!(m.total_ram, 2);
    let down: Vec<u8> = b"MemTotal: 1535 kB\n".to_vec();
    let m = MemoryUtilization::new(Some(&down)).expect("well-formed text");
    assert_eq!(m.total_ram, 1);
    // A negative used figure rounds away from zero as well.
    let negative: Vec<u8> = b"Cached: 1536 kB\n".to_vec();
    let m = MemoryUtilization::new(Some(&negative)).expect("well-formed text");
    assert_eq!(m.used_ram, -2);
}

#[test]
fn later_occurrence_of_a_key_wins() {
    let text: Vec<u8> = b"MemTotal: 1024 kB\nMemTotal: 4096 kB\n".to_vec();
    let m = MemoryUtilization::new(Some(&text)).expect("well-formed text");
    assert_eq!(m.total_ram, 4);
}

#[test]
fn malformed_recognized_value_fails_init() {
    let bad: Vec<u8> = b"MemTotal: lots kB\n".to_vec();
    assert!(matches!(
        MemoryUtilization::new(Some(&bad)),
        Err(SampleError::Parse)
    ));
    // A recognized key with no value at all is not a malformed line: a line
    // only counts once it has a key and a value field.
    let keyless: Vec<u8> = b"MemTotal:\nSwapTotal: 2048 kB\n".to_vec();
    let m = MemoryUtilization::new(Some(&keyless)).expect("single token lines are ignored");
    assert_eq!(m.total_swap, 2);
    assert_eq!(m.total_ram, 0);
}

#[test]
fn mem_init_without_source_reports_unavailable() {
    assert!(matches!(
        MemoryUtilization::new(None),
        Err(SampleError::SourceUnavailable)
    ));
    let info = MemoryInfo::new(None);
    assert!(info.mem.is_none());
}

#[test]
fn mem_unavailable_sampler_never_panics_on_refresh() {
    let mut info = MemoryInfo::new(None);
    info.refresh(None);
    let text = full_text();
    info.refresh(Some(&text));
    assert!(info.mem.is_none());
}

#[test]
fn failed_reread_keeps_previous_figures() {
    let text = full_text();
    let mut m = MemoryUtilization::new(Some(&text)).expect("well-formed text");
    assert_eq!(m.refresh(None), Err(SampleError::TransientRead));
    assert_eq!(m.total_ram, 16384);
    assert_eq!(m.used_ram, 8192);
}

#[test]
fn refresh_replaces_snapshot_wholesale() {
    let first = full_text();
    let second: Vec<u8> = b"MemTotal:       8388608 kB\n\
MemFree:        8388608 kB\n\
SwapTotal:      1048576 kB\n\
SwapFree:       524288 kB\n"
        .to_vec();
    let mut m = MemoryUtilization::new(Some(&first)).expect("well-formed text");
    assert_eq!(m.refresh(Some(&second)), Ok(()));
    assert_eq!(m.total_ram, 8192);
    assert_eq!(m.used_ram, 0);
    assert_eq!(m.total_swap, 1024);
    assert_eq!(m.used_swap, 512);
}

#[test]
fn refresh_skips_malformed_line_but_counts_valid_ones() {
    let first = full_text();
    let second: Vec<u8> = b"MemTotal: oops kB\nSwapTotal: 1048576 kB\n".to_vec();
    let mut m = MemoryUtilization::new(Some(&first)).expect("well-formed text");
    assert_eq!(m.refresh(Some(&second)), Err(SampleError::Parse));
    // The malformed MemTotal contributed its default, the valid line counted.
    assert_eq!(m.total_ram, 0);
    assert_eq!(m.total_swap, 1024);
}

#[test]
fn empty_text_yields_all_zero_figures() {
    let empty: Vec<u8> = Vec::new();
    let m = MemoryUtilization::new(Some(&empty)).expect("empty text is well-formed");
    assert_eq!(m.total_ram, 0);
    assert_eq!(m.used_ram, 0);
    assert_eq!(m.total_swap, 0);
    assert_eq!(m.used_swap, 0);
}
