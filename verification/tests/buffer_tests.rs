use loadtimer::errors::SampleError;
use loadtimer::sample::Buffer;

fn rec(utime: i64, stime: i64) -> Vec<u8> {
    format!("7 (cmd) S 1 7 7 0 -1 4194560 1000 0 0 0 {} {} 0 0 20 0 1 0", utime, stime)
        .into_bytes()
}

fn buf_with(utime: i64, stime: i64, cap: usize) -> Buffer {
    Buffer::with_capacity(7, None, String::from("seven"), cap, Some(&rec(utime, stime))).unwrap()
}

#[test]
fn creation_seeds_last_and_identity() {
    let b = buf_with(100, 50, 3);
    assert_eq!(b.pid, 7);
    assert_eq!(b.tid, None);
    assert_eq!(b.name, "seven");
    assert_eq!(b.cap, 3);
    assert_eq!(b.last.utime, 100);
    assert_eq!(b.last.stime, 50);
    assert!(b.buf.is_empty());
}

#[test]
fn creation_fails_unavailable_without_record() {
    let r = Buffer::with_capacity(7, None, String::from("x"), 3, None);
    assert_eq!(r.unwrap_err(), SampleError::SourceUnavailable);
}

#[test]
fn creation_fails_malformed_and_keeps_no_state() {
    // a record with fewer than 15 whitespace-separated fields
    let short = b"1 2 3 4 5".to_vec();
    let r = Buffer::with_capacity(7, None, String::from("x"), 3, Some(&short));
    assert_eq!(r.unwrap_err(), SampleError::MalformedSource);
}

#[test]
fn from_pid_tid_sets_thread_identity() {
    let b = Buffer::from_pid_tid(7, 41, String::from(" - worker"), 2, Some(&rec(1, 2))).unwrap();
    assert_eq!(b.pid, 7);
    assert_eq!(b.tid, Some(41));
}

#[test]
fn deltas_are_pairwise_differences_in_order() {
    // feeding r0..r4: the i-th sample's delta is r[i] - r[i-1] field-wise
    let mut b = buf_with(100, 50, 10);
    let reads = [(110i64, 60i64), (125, 60), (130, 75), (200, 80)];
    for (i, (u, s)) in reads.iter().enumerate() {
        b.sample(Some(&rec(*u, *s)), (i as u64 + 1) * 1000).unwrap();
    }
    assert_eq!(b.buf.len(), 4);
    let expect = [(10i64, 10i64), (15, 0), (5, 15), (70, 5)];
    for i in 0..4 {
        assert_eq!(b.buf[i].times.utime, expect[i].0);
        assert_eq!(b.buf[i].times.stime, expect[i].1);
        assert_eq!(b.buf[i].duration_ns, (i as u64 + 1) * 1000);
    }
    assert_eq!(b.last.utime, 200);
    assert_eq!(b.last.stime, 80);
}

#[test]
fn ring_buffer_keeps_exactly_last_cap_samples() {
    // capacity 2, then 2 + 3 successful samples: exactly the last 2 deltas
    // remain, in arrival order
    let mut b = buf_with(0, 0, 2);
    for i in 1i64..=5 {
        b.sample(Some(&rec(10 * i, i)), i as u64).unwrap();
    }
    assert_eq!(b.buf.len(), 2);
    assert_eq!(b.buf[0].times.utime, 10);
    assert_eq!(b.buf[0].times.stime, 1);
    assert_eq!(b.buf[0].duration_ns, 4);
    assert_eq!(b.buf[1].times.utime, 10);
    assert_eq!(b.buf[1].times.stime, 1);
    assert_eq!(b.buf[1].duration_ns, 5);
}

#[test]
fn never_holds_more_than_capacity() {
    let mut b = buf_with(0, 0, 3);
    for i in 1i64..=20 {
        b.sample(Some(&rec(i, i)), 1).unwrap();
        assert!(b.buf.len() <= 3);
    }
    assert_eq!(b.buf.len(), 3);
}

#[test]
fn zero_capacity_stores_nothing_but_tracks_last() {
    let mut b = buf_with(5, 5, 0);
    b.sample(Some(&rec(9, 9)), 1).unwrap();
    assert!(b.buf.is_empty());
    assert_eq!(b.last.utime, 9);
}

#[test]
fn failed_sample_mutates_nothing() {
    let mut b = buf_with(100, 50, 3);
    b.sample(Some(&rec(110, 60)), 7).unwrap();

    let r = b.sample(None, 8);
    assert_eq!(r.unwrap_err(), SampleError::SourceUnavailable);
    let r = b.sample(Some(&b"too short".to_vec()), 9);
    assert_eq!(r.unwrap_err(), SampleError::MalformedSource);

    assert_eq!(b.buf.len(), 1);
    assert_eq!(b.last.utime, 110);
    // the next successful delta spans the failed cycles
    b.sample(Some(&rec(130, 80)), 10).unwrap();
    assert_eq!(b.buf[1].times.utime, 20);
    assert_eq!(b.buf[1].times.stime, 20);
}

#[test]
fn counter_regression_propagates_as_negative_delta() {
    // a counter that appears to decrease (source reset or id reuse) is
    // recorded as it is, not clamped
    let mut b = buf_with(100, 50, 3);
    b.sample(Some(&rec(90, 50)), 1).unwrap();
    assert_eq!(b.buf[0].times.utime, -10);
    assert_eq!(b.buf[0].times.stime, 0);
}

#[test]
fn constant_growth_gives_constant_deltas() {
    // synthetic constant growth of u user-ticks and s system-ticks per
    // cycle: every retained delta equals (u, s) exactly, so the mean total
    // delta is u + s and the spread of the samples is zero; the
    // floating-point reduction itself lives outside the library
    let (u, s) = (10i64, 5i64);
    let mut b = buf_with(0, 0, 4);
    for i in 1i64..=4 {
        b.sample(Some(&rec(u * i, s * i)), 1_000_000_000).unwrap();
    }
    let mut total = 0i64;
    for i in 0..4 {
        assert_eq!(b.buf[i].times.utime, u);
        assert_eq!(b.buf[i].times.stime, s);
        total += b.buf[i].times.utime + b.buf[i].times.stime;
    }
    assert_eq!(total, 4 * (u + s));
}
