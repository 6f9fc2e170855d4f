use resmon::monitor::App;

fn cpu_text() -> Vec<u8> {
    b"cpu  100 0 0 100 0 0 0 0 0 0\ncpu0 100 0 0 100 0 0 0 0 0 0\n".to_vec()
}

fn mem_text() -> Vec<u8> {
    b"MemTotal: 16777216 kB\nMemFree: 8388608 kB\n".to_vec()
}

#[test]
fn new_builds_both_samplers() {
    let c = cpu_text();
    let m = mem_text();
    let app = App::new(Some(&c), Some(&m));
    assert!(app.cpu.available);
    assert_eq!(app.cpu.cores.len(), 1);
    assert!(app.memory.mem.is_some());
}

#[test]
fn samplers_degrade_independently_at_init() {
    let m = mem_text();
    let app = App::new(None, Some(&m));
    assert!(!app.cpu.available);
    assert!(app.memory.mem.is_some());
    let c = cpu_text();
    let app = App::new(Some(&c), None);
    assert!(app.cpu.available);
    assert!(app.memory.mem.is_none());
}

#[test]
fn one_samplers_failure_does_not_stop_the_other() {
    let c1 = cpu_text();
    let m1 = mem_text();
    let mut app = App::new(Some(&c1), Some(&m1));
    // CPU read fails on this tick; memory must still update.
    let m2: Vec<u8> = b"MemTotal: 16777216 kB\nMemFree: 4194304 kB\n".to_vec();
    app.on_tick(None, Some(&m2));
    assert_eq!(app.cpu.cores[0].total_time, 200);
    assert_eq!(app.memory.mem.unwrap().used_ram, 12288);
}

#[test]
fn tick_updates_both_samplers() {
    let c1 = cpu_text();
    let m1 = mem_text();
    let mut app = App::new(Some(&c1), Some(&m1));
    let c2: Vec<u8> = b"cpu  400 0 0 200 0 0 0 0 0 0\ncpu0 400 0 0 200 0 0 0 0 0 0\n".to_vec();
    let m2: Vec<u8> = b"MemTotal: 16777216 kB\nMemFree: 16777216 kB\n".to_vec();
    app.on_tick(Some(&c2), Some(&m2));
    // cpu0: total 200 -> 600, idle 100 -> 200: busy 300 of 400 -> 750.
    assert_eq!(app.cpu.cores[0].utilization, 750);
    assert_eq!(app.memory.mem.unwrap().used_ram, 0);
}

#[test]
fn fully_unavailable_app_ticks_without_panicking() {
    let mut app = App::new(None, None);
    app.on_tick(None, None);
    let c = cpu_text();
    let m = mem_text();
    app.on_tick(Some(&c), Some(&m));
    assert!(!app.cpu.available);
    assert!(app.cpu.cores.is_empty());
    assert!(app.memory.mem.is_none());
}
