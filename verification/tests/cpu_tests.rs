use resmon::cpu::CPUInfo;
use resmon::SampleError;

fn two_core_text() -> Vec<u8> {
    b"cpu  250 0 50 300 0 0 0 0 0 0\n\
cpu0 100 0 0 100 0 0 0 0 0 0\n\
cpu1 150 0 50 200 0 0 0 0 0 0\n\
intr 12345\nctxt 67890\n"
        .to_vec()
}

#[test]
fn init_parses_cores_and_derived_times() {
    let text = two_core_text();
    let info = CPUInfo::init(Some(&text)).expect("well-formed text");
    assert!(info.available);
    assert_eq!(info.cores.len(), 2);
    assert_eq!(info.cores[0].id, b"cpu0".to_vec());
    assert_eq!(info.cores[1].id, b"cpu1".to_vec());
    // cpu0: idle = 100 + 0, total = 100 + 100
    assert_eq!(info.cores[0].idle_time, 100);
    assert_eq!(info.cores[0].total_time, 200);
    // cpu1: idle = 200 + 0, total = 150 + 50 + 200
    assert_eq!(info.cores[1].idle_time, 200);
    assert_eq!(info.cores[1].total_time, 400);
    // No second sample yet: utilization undefined, reported as 0.
    assert_eq!(info.cores[0].utilization, 0);
    assert_eq!(info.cores[1].utilization, 0);
}

#[test]
fn summary_line_is_skipped_and_other_lines_ignored() {
    // Only the first line carries the aggregate identifier; it must not
    // become a core even though it starts with the core prefix.
    let text = two_core_text();
    let info = CPUInfo::init(Some(&text)).expect("well-formed text");
    assert!(info.cores.iter().all(|c| c.id != b"cpu".to_vec()));
}

#[test]
fn refresh_computes_busy_share_in_tenths_of_percent() {
    let first = two_core_text();
    let second: Vec<u8> = b"cpu  999 0 99 999 0 0 0 0 0 0\n\
cpu0 250 0 50 200 0 0 0 0 0 0\n\
cpu1 150 0 50 300 0 0 0 0 0 0\n"
        .to_vec();
    let mut info = CPUInfo::new(Some(&first));
    let r = info.refresh_utilization(Some(&second));
    assert_eq!(r, Ok(()));
    // cpu0: total 200 -> 500, idle 100 -> 200: busy 300 of 300 elapsed... no:
    // delta total = 300, delta idle = 100, busy = 200 -> 1000*200/300 = 666.
    assert_eq!(info.cores[0].total_time, 500);
    assert_eq!(info.cores[0].idle_time, 200);
    assert_eq!(info.cores[0].utilization, 666);
    // cpu1: total 400 -> 500, idle 200 -> 300: all of the delta idle -> 0.
    assert_eq!(info.cores[1].utilization, 0);
}

#[test]
fn zero_delta_refresh_keeps_previous_value() {
    let first = two_core_text();
    let second: Vec<u8> = b"cpu  0 0 0 0 0 0 0 0 0 0\n\
cpu0 250 0 50 200 0 0 0 0 0 0\n\
cpu1 150 0 50 300 0 0 0 0 0 0\n"
        .to_vec();
    let mut info = CPUInfo::new(Some(&first));
    info.refresh(Some(&second));
    assert_eq!(info.cores[0].utilization, 666);
    // Same counters again: the zero-delta guard keeps the previous value.
    info.refresh(Some(&second));
    assert_eq!(info.cores[0].utilization, 666);
    assert_eq!(info.cores[1].utilization, 0);
}

#[test]
fn zero_delta_right_after_init_reports_zero() {
    let text = two_core_text();
    let mut info = CPUInfo::new(Some(&text));
    // Identical counters right after init: previous value is 0.
    info.refresh(Some(&text));
    assert_eq!(info.cores[0].utilization, 0);
    assert_eq!(info.cores[1].utilization, 0);
}

#[test]
fn utilization_stays_within_bounds() {
    let first = two_core_text();
    // Busy-only growth on cpu0, counter regression on cpu1.
    let second: Vec<u8> = b"header\n\
cpu0 1000 0 0 100 0 0 0 0 0 0\n\
cpu1 0 0 0 0 0 0 0 0 0 0\n"
        .to_vec();
    let mut info = CPUInfo::new(Some(&first));
    info.refresh(Some(&second));
    for core in &info.cores {
        assert!(core.utilization <= 1000);
    }
    // cpu0: delta total 900, delta idle 0 -> fully busy.
    assert_eq!(info.cores[0].utilization, 1000);
    // cpu1 went backwards: the guard keeps the previous utilization while
    // the stored counters take the new sample.
    assert_eq!(info.cores[1].utilization, 0);
    assert_eq!(info.cores[1].total_time, 0);
}

#[test]
fn permuted_line_order_gives_identical_utilization() {
    let first = two_core_text();
    let second_in_order: Vec<u8> = b"cpu  0 0 0 0 0 0 0 0 0 0\n\
cpu0 250 0 50 200 0 0 0 0 0 0\n\
cpu1 150 0 50 300 0 0 0 0 0 0\n"
        .to_vec();
    let second_permuted: Vec<u8> = b"cpu  0 0 0 0 0 0 0 0 0 0\n\
cpu1 150 0 50 300 0 0 0 0 0 0\n\
cpu0 250 0 50 200 0 0 0 0 0 0\n"
        .to_vec();
    let mut a = CPUInfo::new(Some(&first));
    let mut b = CPUInfo::new(Some(&first));
    a.refresh(Some(&second_in_order));
    b.refresh(Some(&second_permuted));
    assert_eq!(a.cores.len(), b.cores.len());
    for (x, y) in a.cores.iter().zip(b.cores.iter()) {
        assert_eq!(x.id, y.id);
        assert_eq!(x.utilization, y.utilization);
        assert_eq!(x.total_time, y.total_time);
        assert_eq!(x.idle_time, y.idle_time);
    }
}

#[test]
fn new_core_appearing_mid_run_is_dropped() {
    let first = two_core_text();
    let second: Vec<u8> = b"header\n\
cpu0 250 0 50 200 0 0 0 0 0 0\n\
cpu7 1 2 3 4 5 6 7 8 9 10\n"
        .to_vec();
    let mut info = CPUInfo::new(Some(&first));
    info.refresh(Some(&second));
    assert_eq!(info.cores.len(), 2);
    assert!(info.cores.iter().all(|c| c.id != b"cpu7".to_vec()));
}

#[test]
fn init_fails_on_malformed_line() {
    let bad: Vec<u8> = b"header\ncpu0 1 2 three 4 5 6 7 8 9 10\n".to_vec();
    assert!(matches!(CPUInfo::init(Some(&bad)), Err(SampleError::Parse)));
    let short: Vec<u8> = b"header\ncpu0 1 2 3\n".to_vec();
    assert!(matches!(CPUInfo::init(Some(&short)), Err(SampleError::Parse)));
}

#[test]
fn init_without_source_reports_unavailable() {
    assert!(matches!(CPUInfo::init(None), Err(SampleError::SourceUnavailable)));
}

#[test]
fn new_degrades_to_empty_sampler() {
    let info = CPUInfo::new(None);
    assert!(!info.available);
    assert!(info.cores.is_empty());
    let bad: Vec<u8> = b"header\ncpu0 1 2 three 4 5 6 7 8 9 10\n".to_vec();
    let info = CPUInfo::new(Some(&bad));
    assert!(!info.available);
    assert!(info.cores.is_empty());
}

#[test]
fn unavailable_sampler_never_panics_on_refresh() {
    let mut info = CPUInfo::new(None);
    info.refresh(None);
    let text = two_core_text();
    info.refresh(Some(&text));
    assert_eq!(info.refresh_utilization(Some(&text)), Ok(()));
    assert!(!info.available);
    assert!(info.cores.is_empty());
}

#[test]
fn failed_reread_keeps_previous_values_and_reports() {
    let text = two_core_text();
    let mut info = CPUInfo::new(Some(&text));
    assert_eq!(
        info.refresh_utilization(None),
        Err(SampleError::TransientRead)
    );
    assert_eq!(info.cores.len(), 2);
    assert_eq!(info.cores[0].total_time, 200);
}

#[test]
fn refresh_skips_malformed_line_but_updates_valid_ones() {
    let first = two_core_text();
    let second: Vec<u8> = b"header\n\
cpu0 250 0 50 200 0 0 0 0 0 0\n\
cpu1 nonsense\n"
        .to_vec();
    let mut info = CPUInfo::new(Some(&first));
    assert_eq!(
        info.refresh_utilization(Some(&second)),
        Err(SampleError::Parse)
    );
    // The valid line still updated cpu0.
    assert_eq!(info.cores[0].utilization, 666);
    // The malformed line left cpu1 untouched.
    assert_eq!(info.cores[1].total_time, 400);
    assert_eq!(info.cores[1].utilization, 0);
}

#[test]
fn empty_text_yields_empty_sampler() {
    let empty: Vec<u8> = Vec::new();
    let info = CPUInfo::init(Some(&empty)).expect("empty text is well-formed");
    assert!(info.available);
    assert!(info.cores.is_empty());
}

#[test]
fn counter_overflow_is_a_parse_error() {
    // 2^64 does not fit in a 64-bit counter.
    let bad: Vec<u8> = b"header\ncpu0 18446744073709551616 0 0 0 0 0 0 0 0 0\n".to_vec();
    assert!(matches!(CPUInfo::init(Some(&bad)), Err(SampleError::Parse)));
    // A sum of counters that does not fit is rejected the same way.
    let bad_sum: Vec<u8> =
        b"header\ncpu0 18446744073709551615 1 0 0 0 0 0 0 0 0\n".to_vec();
    assert!(matches!(CPUInfo::init(Some(&bad_sum)), Err(SampleError::Parse)));
}
