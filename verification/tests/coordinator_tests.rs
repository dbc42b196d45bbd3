use loadtimer::cli::Cli;
use loadtimer::coordinator::{CycleInput, Sampler, TargetInput};
use loadtimer::errors::{SampleError, SamplerError};
use loadtimer::get_user_hz;

fn rec(utime: i64, stime: i64) -> Vec<u8> {
    format!("7 (cmd) S 1 7 7 0 -1 4194560 1000 0 0 0 {} {} 0 0 20 0 1 0", utime, stime)
        .into_bytes()
}

fn target(pid: usize, stat: Option<Vec<u8>>) -> TargetInput {
    TargetInput { pid, name: format!("p{}", pid), proc_stat: stat, threads: vec![] }
}

fn cycle(stat: Option<Vec<u8>>, elapsed_ns: u64) -> CycleInput {
    CycleInput { proc_stat: stat, threads: vec![], elapsed_ns }
}

#[test]
fn empty_target_list_is_rejected_before_sampling() {
    let r = Sampler::new(vec![], 3, false, 0);
    assert_eq!(r.unwrap_err(), SamplerError::NoTargets);
}

#[test]
fn creation_fails_fast_naming_the_bad_target() {
    let targets = vec![target(7, Some(rec(0, 0))), target(8, None)];
    let r = Sampler::new(targets, 3, false, 0);
    assert_eq!(
        r.unwrap_err(),
        SamplerError::Process { pid: 8, error: SampleError::SourceUnavailable },
    );
}

#[test]
fn one_target_three_cycles_keeps_all_three_deltas() {
    // one pid, capacity 3, no thread tracking; four reads: one seed plus
    // three samples
    let mut s = Sampler::new(vec![target(7, Some(rec(100, 50)))], 3, false, 0).unwrap();
    s.sample(vec![cycle(Some(rec(110, 60)), 1_000_000_000)], 1_000_000_000).unwrap();
    s.sample(vec![cycle(Some(rec(125, 60)), 1_000_000_000)], 2_000_000_000).unwrap();
    s.sample(vec![cycle(Some(rec(130, 75)), 1_000_000_000)], 3_000_000_000).unwrap();

    let bufs = s.buffers();
    assert_eq!(bufs.len(), 1);
    let b = bufs[0];
    assert_eq!(b.buf.len(), 3);
    let expect = [(10i64, 10i64), (15, 0), (5, 15)];
    for i in 0..3 {
        assert_eq!(b.buf[i].times.utime, expect[i].0);
        assert_eq!(b.buf[i].times.stime, expect[i].1);
    }
}

#[test]
fn anchor_is_reset_after_a_full_cycle_only() {
    let mut s = Sampler::new(vec![target(7, Some(rec(0, 0)))], 2, false, 100).unwrap();
    assert_eq!(s.start_ns, 100);
    s.sample(vec![cycle(Some(rec(1, 1)), 5)], 900).unwrap();
    assert_eq!(s.start_ns, 900);
    let r = s.sample(vec![cycle(None, 5)], 1700);
    assert!(r.is_err());
    assert_eq!(s.start_ns, 900);
}

#[test]
fn failed_cycle_names_the_pid_and_leaves_later_trackers_unsampled() {
    let targets = vec![target(7, Some(rec(0, 0))), target(8, Some(rec(0, 0)))];
    let mut s = Sampler::new(targets, 3, false, 0).unwrap();
    let inputs = vec![cycle(None, 1), cycle(Some(rec(1, 1)), 1)];
    let r = s.sample(inputs, 10);
    assert_eq!(
        r.unwrap_err(),
        SamplerError::Process { pid: 7, error: SampleError::SourceUnavailable },
    );
    // neither tracker gained a sample: the first failed, the cycle aborted
    // before the second
    let bufs = s.buffers();
    assert_eq!(bufs[0].buf.len(), 0);
    assert_eq!(bufs[1].buf.len(), 0);
}

#[test]
fn malformed_record_mid_run_is_surfaced_not_defaulted() {
    let mut s = Sampler::new(vec![target(7, Some(rec(0, 0)))], 3, false, 0).unwrap();
    let r = s.sample(vec![cycle(Some(b"1 2 3".to_vec()), 1)], 10);
    assert_eq!(
        r.unwrap_err(),
        SamplerError::Process { pid: 7, error: SampleError::MalformedSource },
    );
}

#[test]
fn sleep_keeps_the_cadence() {
    let s = Sampler::new(vec![target(7, Some(rec(0, 0)))], 2, false, 1_000).unwrap();
    // part of the interval already went to sampling work
    assert_eq!(s.sleep_ns(1_000_000_000, 300_001_000), 700_000_000);
    // the work ran over: no sleep, the cycle runs immediately
    assert_eq!(s.sleep_ns(1_000_000_000, 2_000_001_000), 0);
    assert_eq!(s.sleep_ns(1_000_000_000, 1_000_001_000), 0);
    // a clock reading from before the anchor sleeps the whole interval
    assert_eq!(s.sleep_ns(1_000_000_000, 500), 1_000_000_000);
}

#[test]
fn buffers_flatten_trackers_in_order() {
    let targets = vec![target(7, Some(rec(0, 0))), target(8, Some(rec(0, 0)))];
    let s = Sampler::new(targets, 2, false, 0).unwrap();
    let bufs = s.buffers();
    assert_eq!(bufs.len(), 2);
    assert_eq!(bufs[0].pid, 7);
    assert_eq!(bufs[1].pid, 8);
    assert_eq!(bufs[0].name, "p7");
    assert_eq!(bufs[1].name, "p8");
}

#[test]
fn user_hz_is_available_and_positive() {
    let hz = get_user_hz();
    assert!(matches!(hz, Some(v) if v > 0));
}

#[test]
fn cli_defaults_match_the_documented_surface() {
    let c = Cli::default();
    assert!(c.pids.is_empty());
    assert_eq!(c.sample_secs, 10);
    assert_eq!(c.num_samples, 2);
    assert!(!c.interactive);
    assert!(!c.with_threads);
}
