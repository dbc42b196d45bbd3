use loadtimer::sample::Buffer;
use loadtimer::tracker::{ProcSampler, ThreadRead};

fn rec(utime: i64, stime: i64) -> Vec<u8> {
    format!("7 (cmd) S 1 7 7 0 -1 4194560 1000 0 0 0 {} {} 0 0 20 0 1 0", utime, stime)
        .into_bytes()
}

fn tr(tid: usize, stat: Option<Vec<u8>>) -> ThreadRead {
    ThreadRead { tid, name: format!(" - t{}", tid), stat }
}

fn tids_of(p: &ProcSampler) -> Vec<usize> {
    p.thread_bufs.iter().map(|b| b.tid.unwrap()).collect()
}

#[test]
fn creation_tracks_only_readable_listed_threads() {
    let threads = vec![
        tr(43, Some(rec(1, 1))),
        tr(41, Some(rec(2, 2))),
        tr(44, None),
        tr(7, Some(rec(3, 3))),
    ];
    let p =
        ProcSampler::with_capacity(7, String::from("seven"), 3, true, Some(&rec(0, 0)), threads)
            .unwrap();
    // the unreadable thread and the process itself are dropped; the rest
    // are kept sorted by thread id
    assert_eq!(tids_of(&p), vec![41, 43]);
    assert_eq!(p.thread_bufs[0].last.utime, 2);
    assert_eq!(p.thread_bufs[1].last.utime, 1);
    assert!(p.thread_bufs[0].buf.is_empty());
}

#[test]
fn creation_without_thread_tracking_tracks_none() {
    let threads = vec![tr(41, Some(rec(1, 1)))];
    let p =
        ProcSampler::with_capacity(7, String::from("seven"), 3, false, Some(&rec(0, 0)), threads)
            .unwrap();
    assert!(p.thread_bufs.is_empty());
    assert!(!p.with_threads);
}

#[test]
fn creation_fails_when_process_record_fails() {
    let r = ProcSampler::with_capacity(7, String::from("x"), 3, true, None, vec![]);
    assert!(r.is_err());
}

#[test]
fn sample_steps_process_buffer() {
    let mut p =
        ProcSampler::with_capacity(7, String::from("seven"), 3, false, Some(&rec(100, 50)), vec![])
            .unwrap();
    p.sample(Some(&rec(110, 60)), vec![], 5).unwrap();
    assert_eq!(p.proc_buf.buf.len(), 1);
    assert_eq!(p.proc_buf.buf[0].times.utime, 10);
    assert_eq!(p.proc_buf.buf[0].times.stime, 10);
    assert_eq!(p.proc_buf.buf[0].duration_ns, 5);
}

#[test]
fn newly_visible_thread_is_discovered_once_with_zero_first_delta() {
    let mut p =
        ProcSampler::with_capacity(7, String::from("seven"), 3, true, Some(&rec(0, 0)), vec![])
            .unwrap();
    assert!(p.thread_bufs.is_empty());

    // thread 41 becomes visible during this cycle
    let reads = vec![tr(41, Some(rec(500, 300)))];
    p.sample(Some(&rec(1, 1)), reads, 777).unwrap();

    assert_eq!(tids_of(&p), vec![41]);
    let b: &Buffer = &p.thread_bufs[0];
    // exactly one retained sample, whose delta covers only the moment
    // since discovery and whose duration is this cycle's
    assert_eq!(b.buf.len(), 1);
    assert_eq!(b.buf[0].times.utime, 0);
    assert_eq!(b.buf[0].times.stime, 0);
    assert_eq!(b.buf[0].duration_ns, 777);
    assert_eq!(b.last.utime, 500);
    assert_eq!(b.last.stime, 300);
}

#[test]
fn known_thread_is_sampled_not_rediscovered() {
    let mut p = ProcSampler::with_capacity(
        7,
        String::from("seven"),
        3,
        true,
        Some(&rec(0, 0)),
        vec![tr(41, Some(rec(100, 50)))],
    )
    .unwrap();
    p.sample(Some(&rec(1, 1)), vec![tr(41, Some(rec(130, 51)))], 9).unwrap();
    assert_eq!(tids_of(&p), vec![41]);
    assert_eq!(p.thread_bufs[0].buf.len(), 1);
    assert_eq!(p.thread_bufs[0].buf[0].times.utime, 30);
    assert_eq!(p.thread_bufs[0].buf[0].times.stime, 1);
}

#[test]
fn unreadable_thread_is_retired_by_end_of_cycle() {
    let mut p = ProcSampler::with_capacity(
        7,
        String::from("seven"),
        3,
        true,
        Some(&rec(0, 0)),
        vec![tr(41, Some(rec(1, 1))), tr(43, Some(rec(2, 2)))],
    )
    .unwrap();
    assert_eq!(tids_of(&p), vec![41, 43]);

    // thread 41 exits: no read for it this cycle; 43 stays readable
    p.sample(Some(&rec(1, 1)), vec![tr(43, Some(rec(3, 3)))], 1).unwrap();
    assert_eq!(tids_of(&p), vec![43]);

    // it does not reappear on later cycles unless listed again
    p.sample(Some(&rec(2, 2)), vec![tr(43, Some(rec(4, 4)))], 1).unwrap();
    assert_eq!(tids_of(&p), vec![43]);

    // rediscovery after the id is listed, readable, again
    p.sample(Some(&rec(3, 3)), vec![tr(41, Some(rec(9, 9))), tr(43, Some(rec(5, 5)))], 1)
        .unwrap();
    assert_eq!(tids_of(&p), vec![41, 43]);
}

#[test]
fn thread_with_malformed_read_is_retired() {
    let mut p = ProcSampler::with_capacity(
        7,
        String::from("seven"),
        3,
        true,
        Some(&rec(0, 0)),
        vec![tr(41, Some(rec(1, 1)))],
    )
    .unwrap();
    p.sample(Some(&rec(1, 1)), vec![tr(41, Some(b"bad record".to_vec()))], 1).unwrap();
    assert!(p.thread_bufs.is_empty());
}

#[test]
fn process_failure_aborts_and_mutates_nothing() {
    let mut p = ProcSampler::with_capacity(
        7,
        String::from("seven"),
        3,
        true,
        Some(&rec(100, 50)),
        vec![tr(41, Some(rec(1, 1)))],
    )
    .unwrap();
    let r = p.sample(None, vec![tr(41, Some(rec(2, 2)))], 1);
    assert!(r.is_err());
    assert_eq!(tids_of(&p), vec![41]);
    assert!(p.proc_buf.buf.is_empty());
    assert_eq!(p.proc_buf.last.utime, 100);
    assert_eq!(p.thread_bufs[0].buf.len(), 0);
}

#[test]
fn buffers_lists_process_first_then_threads_by_id() {
    let p = ProcSampler::with_capacity(
        7,
        String::from("seven"),
        3,
        true,
        Some(&rec(0, 0)),
        vec![tr(43, Some(rec(1, 1))), tr(41, Some(rec(2, 2)))],
    )
    .unwrap();
    let bufs = p.buffers();
    assert_eq!(bufs.len(), 3);
    assert_eq!(bufs[0].tid, None);
    assert_eq!(bufs[1].tid, Some(41));
    assert_eq!(bufs[2].tid, Some(43));
}
