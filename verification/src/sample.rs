//! Delta buffers: bounded rolling histories of per-interval samples.

use vstd::prelude::*;

use std::collections::VecDeque;

use crate::errors::SampleError;
use crate::stat::{stat_ok, stat_stime, stat_utime};
use crate::stat::read_user_sys_time;

verus! {

/// A pair of accumulated CPU-time counters, in platform ticks: user-mode
/// time and kernel-mode time.  Also the field-wise difference of two such
/// pairs, which may then be negative if a counter regressed.
#[derive(Clone, Copy, Debug, PartialEq, Eq, Structural)]
pub struct ProcessTimes {
    pub utime: i64,
    pub stime: i64,
}

impl ProcessTimes {
    /// Field-wise difference `self - rhs`.
    pub fn sub(&self, rhs: &ProcessTimes) -> (r: ProcessTimes)
        requires
            i64::MIN <= self.utime - rhs.utime <= i64::MAX,
            i64::MIN <= self.stime - rhs.stime <= i64::MAX,
        ensures
            r.utime == self.utime - rhs.utime,
            r.stime == self.stime - rhs.stime,
    {
        ProcessTimes { utime: self.utime - rhs.utime, stime: self.stime - rhs.stime }
    }
}

/// The difference `a - b`, truncated into the counter type; callers use it
/// only where both fields are known to fit.
pub open spec fn times_sub(a: ProcessTimes, b: ProcessTimes) -> ProcessTimes {
    ProcessTimes { utime: (a.utime - b.utime) as i64, stime: (a.stime - b.stime) as i64 }
}

/// The counters a well-formed record denotes.
pub open spec fn stat_counters(s: Seq<u8>) -> ProcessTimes {
    ProcessTimes { utime: stat_utime(s) as i64, stime: stat_stime(s) as i64 }
}

/// One interval sample: the counter delta between two consecutive readings,
/// and the wall-clock nanoseconds between the shared cycle start and the
/// later reading.
#[derive(Clone, Copy, Debug, PartialEq, Eq, Structural)]
pub struct SamplePoint {
    pub times: ProcessTimes,
    pub duration_ns: u64,
}

/// The history after one more sample: append `p`, evicting the oldest entry
/// first when the history is full.  A zero-capacity history stays empty.
pub open spec fn push_evict(h: Seq<SamplePoint>, cap: nat, p: SamplePoint) -> Seq<SamplePoint> {
    if h.len() < cap {
        h.push(p)
    } else if cap == 0 {
        h
    } else {
        h.subrange(1, h.len() as int).push(p)
    }
}

/// The history an initially empty buffer of capacity `cap` holds after the
/// samples `points` were appended in order.
pub open spec fn run_history(points: Seq<SamplePoint>, cap: nat) -> Seq<SamplePoint>
    decreases points.len(),
{
    if points.len() == 0 {
        Seq::empty()
    } else {
        push_evict(run_history(points.drop_last(), cap), cap, points.last())
    }
}

/// Appending one sample to a run steps its history exactly as one sample
/// operation does.
pub proof fn lemma_run_history_step(points: Seq<SamplePoint>, cap: nat, p: SamplePoint)
    ensures
        run_history(points.push(p), cap) == push_evict(run_history(points, cap), cap, p),
{
    assert(points.push(p).drop_last() =~= points);
    assert(points.push(p).last() == p);
}

/// Ring-buffer eviction law: a history never holds more than `cap` samples,
/// and after any number of appends it holds exactly the last `cap` of them
/// (all of them while they still fit), in arrival order.
pub proof fn lemma_ring_buffer_law(points: Seq<SamplePoint>, cap: nat)
    ensures
        run_history(points, cap).len() == if points.len() <= cap {
            points.len()
        } else {
            cap
        },
        run_history(points, cap) =~= points.skip(
            if points.len() <= cap {
                0
            } else {
                points.len() - cap
            },
        ),
    decreases points.len(),
{
    if points.len() > 0 {
        let pre = points.drop_last();
        lemma_ring_buffer_law(pre, cap);
        let h = run_history(pre, cap);
        if pre.len() < cap {
            assert(h =~= pre.skip(0));
            assert(run_history(points, cap) =~= points.skip(0));
        } else if cap == 0 {
            assert(run_history(points, cap) =~= points.skip(points.len() as int));
        } else {
            assert(h =~= pre.skip(pre.len() - cap));
            assert(run_history(points, cap) == h.subrange(1, h.len() as int).push(points.last()));
            assert forall|i: int|
                0 <= i < cap implies run_history(points, cap)[i] == points.skip(
                points.len() - cap,
            )[i] by {
                if i < cap - 1 {
                    assert(h.subrange(1, h.len() as int)[i] == h[i + 1]);
                    assert(h[i + 1] == pre[pre.len() - cap + i + 1]);
                }
            }
            assert(run_history(points, cap) =~= points.skip(points.len() - cap));
        }
    }
}

/// The interval samples that feeding the raw readings `reads` one by one
/// into a buffer produces: pairwise differences, paired with the cycle
/// durations `durs`.
pub open spec fn delta_points(reads: Seq<ProcessTimes>, durs: Seq<u64>) -> Seq<SamplePoint> {
    Seq::new(
        durs.len(),
        |i: int| SamplePoint { times: times_sub(reads[i + 1], reads[i]), duration_ns: durs[i] },
    )
}

/// One entity's rolling history of interval samples, together with the most
/// recent raw reading the next delta will be taken against.
#[derive(Debug)]
pub struct Buffer {
    /// Process the entity belongs to.
    pub pid: usize,
    /// Thread the buffer tracks, or `None` for the process aggregate.
    pub tid: Option<usize>,
    /// Display name of the entity.
    pub name: String,
    /// Most samples the history retains.
    pub cap: usize,
    /// Retained interval samples, oldest first.
    pub buf: VecDeque<SamplePoint>,
    /// Most recent raw reading.
    pub last: ProcessTimes,
}

impl Buffer {
    /// The history never exceeds the capacity and the last raw reading is a
    /// pair of genuine (non-negative) counters.
    pub open spec fn wf(&self) -> bool {
        &&& self.buf@.len() <= self.cap
        &&& 0 <= self.last.utime
        &&& 0 <= self.last.stime
    }

    /// Whether `new` is `old` after one successful sample that read the
    /// counters `cur` with `elapsed_ns` nanoseconds gone since cycle start.
    pub open spec fn is_sampled_from(
        new: Buffer,
        old: Buffer,
        cur: ProcessTimes,
        elapsed_ns: u64,
    ) -> bool {
        &&& new.pid == old.pid
        &&& new.tid == old.tid
        &&& new.name == old.name
        &&& new.cap == old.cap
        &&& new.last == cur
        &&& new.buf@ == push_evict(
            old.buf@,
            old.cap as nat,
            SamplePoint { times: times_sub(cur, old.last), duration_ns: elapsed_ns },
        )
    }

    /// Create a buffer for one entity, seeding `last` from the record
    /// `stat`, read synchronously by the caller just now.  Fails with
    /// `SourceUnavailable` when there was no record to read and with
    /// `MalformedSource` when the record does not parse; no buffer exists
    /// then.
    pub fn with_capacity(
        pid: usize,
        tid: Option<usize>,
        name: String,
        cap: usize,
        stat: Option<&[u8]>,
    ) -> (r: Result<Buffer, SampleError>)
        ensures
            r is Ok <==> (stat matches Some(s) && stat_ok(s@)),
            match r {
                Ok(b) => stat matches Some(s) && {
                    &&& b.wf()
                    &&& b.pid == pid
                    &&& b.tid == tid
                    &&& b.name == name
                    &&& b.cap == cap
                    &&& b.buf@ == Seq::<SamplePoint>::empty()
                    &&& b.last == stat_counters(s@)
                },
                Err(e) => {
                    &&& (e == SampleError::SourceUnavailable <==> stat is None)
                    &&& (e == SampleError::MalformedSource <==> (stat matches Some(s) && !stat_ok(
                        s@,
                    )))
                },
            },
    {
        let bytes = match stat {
            None => {
                return Err(SampleError::SourceUnavailable);
            },
            Some(s) => s,
        };
        let last = match read_user_sys_time(bytes) {
            Ok(t) => t,
            Err(e) => {
                return Err(e);
            },
        };
        Ok(Buffer { pid, tid, name, cap, buf: VecDeque::new(), last })
    }

    /// Create the process-aggregate buffer of `pid`.
    pub fn from_pid(pid: usize, name: String, cap: usize, stat: Option<&[u8]>) -> (r: Result<
        Buffer,
        SampleError,
    >)
        ensures
            r is Ok <==> (stat matches Some(s) && stat_ok(s@)),
            match r {
                Ok(b) => stat matches Some(s) && {
                    &&& b.wf()
                    &&& b.pid == pid
                    &&& b.tid is None
                    &&& b.name == name
                    &&& b.cap == cap
                    &&& b.buf@ == Seq::<SamplePoint>::empty()
                    &&& b.last == stat_counters(s@)
                },
                Err(e) => {
                    &&& (e == SampleError::SourceUnavailable <==> stat is None)
                    &&& (e == SampleError::MalformedSource <==> (stat matches Some(s) && !stat_ok(
                        s@,
                    )))
                },
            },
    {
        Buffer::with_capacity(pid, None, name, cap, stat)
    }

    /// Create the buffer of thread `tid` of process `pid`.
    pub fn from_pid_tid(
        pid: usize,
        tid: usize,
        name: String,
        cap: usize,
        stat: Option<&[u8]>,
    ) -> (r: Result<Buffer, SampleError>)
        ensures
            r is Ok <==> (stat matches Some(s) && stat_ok(s@)),
            match r {
                Ok(b) => stat matches Some(s) && {
                    &&& b.wf()
                    &&& b.pid == pid
                    &&& b.tid == Some(tid)
                    &&& b.name == name
                    &&& b.cap == cap
                    &&& b.buf@ == Seq::<SamplePoint>::empty()
                    &&& b.last == stat_counters(s@)
                },
                Err(e) => {
                    &&& (e == SampleError::SourceUnavailable <==> stat is None)
                    &&& (e == SampleError::MalformedSource <==> (stat matches Some(s) && !stat_ok(
                        s@,
                    )))
                },
            },
    {
        Buffer::with_capacity(pid, Some(tid), name, cap, stat)
    }

    /// Take one sample: parse the freshly read record `stat`, append the
    /// delta against the previous reading (evicting the oldest entry when
    /// full) and remember the new reading.  Fails without mutating any
    /// state when there was no record (`SourceUnavailable`) or it does not
    /// parse (`MalformedSource`).  A counter that regressed since the last
    /// reading yields a negative delta, propagated as it is.
    pub fn sample(&mut self, stat: Option<&[u8]>, elapsed_ns: u64) -> (r: Result<(), SampleError>)
        requires
            old(self).wf(),
        ensures
            final(self).wf(),
            r is Ok <==> (stat matches Some(s) && stat_ok(s@)),
            match r {
                Ok(_) => stat matches Some(s) && Buffer::is_sampled_from(
                    *final(self),
                    *old(self),
                    stat_counters(s@),
                    elapsed_ns,
                ),
                Err(e) => {
                    &&& *final(self) == *old(self)
                    &&& (e == SampleError::SourceUnavailable <==> stat is None)
                    &&& (e == SampleError::MalformedSource <==> (stat matches Some(s) && !stat_ok(
                        s@,
                    )))
                },
            },
    {
        let bytes = match stat {
            None => {
                return Err(SampleError::SourceUnavailable);
            },
            Some(s) => s,
        };
        let cur = match read_user_sys_time(bytes) {
            Ok(t) => t,
            Err(e) => {
                return Err(e);
            },
        };
        let delta = cur.sub(&self.last);
        if self.cap > 0 {
            if self.buf.len() >= self.cap {
                self.buf.pop_front();
            }
            self.buf.push_back(SamplePoint { times: delta, duration_ns: elapsed_ns });
        }
        self.last = cur;
        Ok(())
    }
}

/// Delta law: for raw readings `r0, r1, ...` fed to a buffer in order, the
/// retained history holds the last samples whose deltas are exactly
/// `r[i+1] - r[i]` field-wise, in arrival order, each with its cycle
/// duration.
pub proof fn lemma_delta_history(reads: Seq<ProcessTimes>, durs: Seq<u64>, cap: nat)
    requires
        reads.len() == durs.len() + 1,
        forall|i: int|
            0 <= i < reads.len() ==> 0 <= (#[trigger] reads[i]).utime && 0 <= reads[i].stime,
    ensures
        ({
            let n = durs.len() as int;
            let m = if n <= cap {
                n
            } else {
                cap as int
            };
            let off = n - m;
            let h = run_history(delta_points(reads, durs), cap);
            &&& h.len() == m
            &&& forall|i: int|
                0 <= i < m ==> #[trigger] h[i].times.utime == reads[off + i + 1].utime - reads[off
                    + i].utime
            &&& forall|i: int|
                0 <= i < m ==> #[trigger] h[i].times.stime == reads[off + i + 1].stime - reads[off
                    + i].stime
            &&& forall|i: int| 0 <= i < m ==> #[trigger] h[i].duration_ns == durs[off + i]
        }),
{
    let dp = delta_points(reads, durs);
    lemma_ring_buffer_law(dp, cap);
    let n = durs.len() as int;
    let m = if n <= cap {
        n
    } else {
        cap as int
    };
    let off = n - m;
    let h = run_history(dp, cap);
    assert forall|i: int| 0 <= i < m implies #[trigger] h[i] == dp[off + i] by {}
}

} // verus!
