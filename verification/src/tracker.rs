//! Per-process entity trackers: one delta buffer for the process aggregate
//! and, when thread tracking is on, one per live thread, discovered and
//! retired cycle by cycle.

use vstd::prelude::*;

use crate::errors::SampleError;
use crate::sample::{push_evict, stat_counters, times_sub, Buffer, ProcessTimes, SamplePoint};
use crate::stat::stat_ok;

verus! {

/// One freshly taken counter read for a thread: the thread id, its resolved
/// display name, and the raw record bytes (`None` when the source was gone).
#[derive(Debug)]
pub struct ThreadRead {
    pub tid: usize,
    pub name: String,
    pub stat: Option<Vec<u8>>,
}

/// The record bytes a read yielded, if any.
pub open spec fn read_view(stat: Option<Vec<u8>>) -> Option<Seq<u8>> {
    match stat {
        Some(v) => Some(v@),
        None => None,
    }
}

/// The record bytes behind a borrowed read, if any.
pub open spec fn slice_view(stat: Option<&[u8]>) -> Option<Seq<u8>> {
    match stat {
        Some(s) => Some(s@),
        None => None,
    }
}

/// Whether an optional record is present and well formed.
pub open spec fn view_ok(v: Option<Seq<u8>>) -> bool {
    v matches Some(s) && stat_ok(s)
}

/// The counters a present, well-formed record denotes.
pub open spec fn view_counters(v: Option<Seq<u8>>) -> ProcessTimes {
    stat_counters(v->0)
}

/// The error a failed read surfaces: no record at all means the entity is
/// gone, a record that does not parse is malformed.
pub open spec fn view_err(v: Option<Seq<u8>>) -> SampleError {
    if v is None {
        SampleError::SourceUnavailable
    } else {
        SampleError::MalformedSource
    }
}

/// Whether the read parses as a well-formed record.
pub open spec fn ok_read(r: ThreadRead) -> bool {
    view_ok(read_view(r.stat))
}

/// The counters a well-formed read denotes.
pub open spec fn read_counters(r: ThreadRead) -> ProcessTimes {
    view_counters(read_view(r.stat))
}

/// Whether the reads name pairwise distinct thread ids, as an enumeration
/// of a live thread listing does.
pub open spec fn unique_tids(reads: Seq<ThreadRead>) -> bool {
    forall|a: int, b: int|
        0 <= a < b < reads.len() ==> (#[trigger] reads[a]).tid != (#[trigger] reads[b]).tid
}

/// Whether some read is for thread `t` and parses.
pub open spec fn has_ok_read(reads: Seq<ThreadRead>, t: usize) -> bool {
    exists|k: int| 0 <= k < reads.len() && (#[trigger] reads[k]).tid == t && ok_read(reads[k])
}

/// Whether some buffer tracks thread `t`.
pub open spec fn has_tid(bufs: Seq<Buffer>, t: usize) -> bool {
    exists|i: int| 0 <= i < bufs.len() && (#[trigger] bufs[i]).tid == Some(t)
}

/// Whether the buffers are strictly ordered by thread id (so ids are also
/// pairwise distinct).
pub open spec fn sorted_by_tid(bufs: Seq<Buffer>) -> bool {
    forall|i: int, j: int|
        0 <= i < j < bufs.len() ==> (#[trigger] bufs[i]).tid->0 < (#[trigger] bufs[j]).tid->0
}

/// Well-formedness of one thread buffer within its tracker.
pub open spec fn thread_buf_wf(b: Buffer, pid: usize, cap: usize) -> bool {
    &&& b.wf()
    &&& b.pid == pid
    &&& b.tid is Some
    &&& b.tid->0 != pid
    &&& b.cap == cap
}

/// Whether `b` is a freshly created buffer for the thread `r` read, seeded
/// from that read and holding no samples yet.
pub open spec fn fresh_thread_buf(b: Buffer, pid: usize, cap: usize, r: ThreadRead) -> bool {
    &&& b.pid == pid
    &&& b.tid == Some(r.tid)
    &&& b.name == r.name
    &&& b.cap == cap
    &&& b.buf@ == Seq::<SamplePoint>::empty()
    &&& b.last == read_counters(r)
}

/// Whether `b` was freshly created from one of the reads (a thread other
/// than the process itself, with a read that parses).
pub open spec fn fresh_from_some_read(
    b: Buffer,
    pid: usize,
    cap: usize,
    reads: Seq<ThreadRead>,
) -> bool {
    exists|k: int|
        0 <= k < reads.len() && ok_read(#[trigger] reads[k]) && reads[k].tid != pid
            && fresh_thread_buf(b, pid, cap, reads[k])
}

/// Whether `b` is a thread buffer discovered this very cycle: created from
/// its read and sampled at once against that same read, so its first
/// interval sample has a zero delta and covers only the moment since its
/// discovery.
pub open spec fn fresh_sampled(
    b: Buffer,
    pid: usize,
    cap: usize,
    r: ThreadRead,
    elapsed_ns: u64,
) -> bool {
    &&& b.pid == pid
    &&& b.tid == Some(r.tid)
    &&& b.name == r.name
    &&& b.cap == cap
    &&& b.last == read_counters(r)
    &&& b.buf@ == push_evict(
        Seq::empty(),
        cap as nat,
        SamplePoint { times: ProcessTimes { utime: 0, stime: 0 }, duration_ns: elapsed_ns },
    )
}

/// The tracker of one monitored process: its own aggregate buffer and, when
/// enabled, one buffer per live thread, kept sorted by thread id.
#[derive(Debug)]
pub struct ProcSampler {
    /// The tracked process.
    pub pid: usize,
    /// The process-aggregate buffer.
    pub proc_buf: Buffer,
    /// One buffer per tracked thread, strictly sorted by thread id; never
    /// tracks the process itself.
    pub thread_bufs: Vec<Buffer>,
    /// Whether threads are discovered and tracked at all.
    pub with_threads: bool,
}

impl ProcSampler {
    /// Invariant: the aggregate buffer belongs to the process, the thread
    /// buffers are well formed, strictly sorted by id (so each id is
    /// tracked at most once), never include the process itself, and are
    /// absent when thread tracking is off.
    pub open spec fn wf(&self) -> bool {
        &&& self.proc_buf.wf()
        &&& self.proc_buf.pid == self.pid
        &&& self.proc_buf.tid is None
        &&& forall|i: int|
            0 <= i < self.thread_bufs@.len() ==> thread_buf_wf(
                #[trigger] self.thread_bufs@[i],
                self.pid,
                self.proc_buf.cap,
            )
        &&& sorted_by_tid(self.thread_bufs@)
        &&& !self.with_threads ==> self.thread_bufs@.len() == 0
    }

    /// Everything creating a tracker promises when it succeeds: a fresh
    /// aggregate buffer seeded from the process record, and (with thread
    /// tracking on) one fresh buffer for exactly every listed thread other
    /// than the process whose read parses; a thread whose read fails is
    /// silently dropped.
    pub open spec fn created_from(
        p: ProcSampler,
        pid: usize,
        name: String,
        cap: usize,
        with_threads: bool,
        proc_stat: Option<Seq<u8>>,
        reads: Seq<ThreadRead>,
    ) -> bool {
        &&& p.wf()
        &&& p.pid == pid
        &&& p.with_threads == with_threads
        &&& view_ok(proc_stat)
        &&& p.proc_buf.name == name
        &&& p.proc_buf.cap == cap
        &&& p.proc_buf.buf@ == Seq::<SamplePoint>::empty()
        &&& p.proc_buf.last == view_counters(proc_stat)
        &&& forall|t: usize|
            #![trigger has_tid(p.thread_bufs@, t)]
            #![trigger has_ok_read(reads, t)]
            has_tid(p.thread_bufs@, t) <==> (with_threads && t != pid && has_ok_read(reads, t))
        &&& forall|i: int|
            0 <= i < p.thread_bufs@.len() ==> fresh_from_some_read(
                #[trigger] p.thread_bufs@[i],
                pid,
                cap,
                reads,
            )
    }

    /// What one retained thread buffer is after a sampling cycle: there is
    /// a read for its id that parses, and the buffer is either the
    /// previously tracked one stepped by one sample, or — if its id was not
    /// yet tracked — a buffer discovered this cycle.
    pub open spec fn thread_outcome(
        b: Buffer,
        old_p: ProcSampler,
        reads: Seq<ThreadRead>,
        elapsed_ns: u64,
    ) -> bool {
        exists|k: int|
            0 <= k < reads.len() && (#[trigger] reads[k]).tid == b.tid->0 && ok_read(reads[k]) && (
            if has_tid(old_p.thread_bufs@, b.tid->0) {
                exists|j: int|
                    0 <= j < old_p.thread_bufs@.len() && (#[trigger] old_p.thread_bufs@[j]).tid
                        == b.tid && Buffer::is_sampled_from(
                        b,
                        old_p.thread_bufs@[j],
                        read_counters(reads[k]),
                        elapsed_ns,
                    )
            } else {
                fresh_sampled(b, old_p.pid, old_p.proc_buf.cap, reads[k], elapsed_ns)
            })
    }

    /// Everything one successful sampling cycle promises: the aggregate
    /// buffer stepped by one sample, every thread id with a read that
    /// parses (and no other) tracked afterwards — previously tracked ones
    /// stepped, new ones discovered — and every previously tracked id
    /// whose read is missing or malformed retired.
    pub open spec fn sampled_from(
        new_p: ProcSampler,
        old_p: ProcSampler,
        proc_stat: Option<Seq<u8>>,
        reads: Seq<ThreadRead>,
        elapsed_ns: u64,
    ) -> bool {
        &&& new_p.wf()
        &&& new_p.pid == old_p.pid
        &&& new_p.with_threads == old_p.with_threads
        &&& view_ok(proc_stat)
        &&& Buffer::is_sampled_from(
            new_p.proc_buf,
            old_p.proc_buf,
            view_counters(proc_stat),
            elapsed_ns,
        )
        &&& !old_p.with_threads ==> new_p.thread_bufs@ == old_p.thread_bufs@
        &&& old_p.with_threads ==> {
            &&& forall|t: usize|
                #![trigger has_tid(new_p.thread_bufs@, t)]
                #![trigger has_ok_read(reads, t)]
                has_tid(new_p.thread_bufs@, t) <==> (t != old_p.pid && has_ok_read(reads, t))
            &&& forall|i: int|
                0 <= i < new_p.thread_bufs@.len() ==> Self::thread_outcome(
                    #[trigger] new_p.thread_bufs@[i],
                    old_p,
                    reads,
                    elapsed_ns,
                )
        }
    }
}

/// Extending the prefix of reads under consideration by one read adds
/// exactly that read's thread id, when its record parses.
proof fn lemma_has_ok_read_take_step(reads: Seq<ThreadRead>, done: int, t: usize)
    requires
        0 <= done < reads.len(),
    ensures
        has_ok_read(reads.take(done + 1), t) <==> (has_ok_read(reads.take(done), t) || (
        reads[done].tid == t && ok_read(reads[done]))),
{
    let pre = reads.take(done);
    let ext = reads.take(done + 1);
    if has_ok_read(ext, t) {
        let k = choose|k: int| 0 <= k < ext.len() && ext[k].tid == t && ok_read(ext[k]);
        if k < done {
            assert(pre[k] == ext[k]);
            assert(has_ok_read(pre, t));
        } else {
            assert(ext[k] == reads[done]);
        }
    }
    if has_ok_read(pre, t) {
        let k = choose|k: int| 0 <= k < pre.len() && pre[k].tid == t && ok_read(pre[k]);
        assert(ext[k] == pre[k]);
        assert(has_ok_read(ext, t));
    }
    if reads[done].tid == t && ok_read(reads[done]) {
        assert(ext[done] == reads[done]);
        assert(has_ok_read(ext, t));
    }
}

/// Appending one buffer tracks exactly its thread id in addition.
proof fn lemma_has_tid_push(s: Seq<Buffer>, b: Buffer, t: usize)
    ensures
        has_tid(s.push(b), t) <==> (has_tid(s, t) || b.tid == Some(t)),
{
    let ext = s.push(b);
    if has_tid(ext, t) {
        let i = choose|i: int| 0 <= i < ext.len() && ext[i].tid == Some(t);
        if i < s.len() {
            assert(s[i] == ext[i]);
            assert(has_tid(s, t));
        } else {
            assert(ext[i] == b);
        }
    }
    if has_tid(s, t) {
        let i = choose|i: int| 0 <= i < s.len() && s[i].tid == Some(t);
        assert(ext[i] == s[i]);
        assert(has_tid(ext, t));
    }
    if b.tid == Some(t) {
        assert(ext[s.len() as int] == b);
        assert(has_tid(ext, t));
    }
}

/// Extending the prefix of buffers under consideration by one buffer
/// tracks exactly its thread id in addition.
proof fn lemma_has_tid_take_step(bufs: Seq<Buffer>, done: int, t: usize)
    requires
        0 <= done < bufs.len(),
    ensures
        has_tid(bufs.take(done + 1), t) <==> (has_tid(bufs.take(done), t) || bufs[done].tid
            == Some(t)),
{
    let pre = bufs.take(done);
    let ext = bufs.take(done + 1);
    assert(ext =~= pre.push(bufs[done]));
    lemma_has_tid_push(pre, bufs[done], t);
}

/// The thread id a thread buffer tracks.
fn thread_tid(b: &Buffer) -> (r: usize)
    requires
        b.tid is Some,
    ensures
        r == b.tid->0,
{
    b.tid.unwrap()
}

/// The record bytes as a borrowed slice.
pub(crate) fn opt_slice(stat: &Option<Vec<u8>>) -> (r: Option<&[u8]>)
    ensures
        slice_view(r) == read_view(*stat),
{
    match stat {
        Some(v) => Some(v.as_slice()),
        None => None,
    }
}

/// First read for thread `t`, if any.
fn find_read(reads: &Vec<ThreadRead>, t: usize) -> (r: Option<usize>)
    ensures
        match r {
            Some(k) => k < reads@.len() && reads@[k as int].tid == t,
            None => forall|k: int| 0 <= k < reads@.len() ==> (#[trigger] reads@[k]).tid != t,
        },
{
    let n = reads.len();
    let mut k: usize = 0;
    while k < n
        invariant
            k <= n,
            n == reads@.len(),
            forall|j: int| 0 <= j < k ==> (#[trigger] reads@[j]).tid != t,
        decreases n - k,
    {
        if reads[k].tid == t {
            return Some(k);
        }
        k = k + 1;
    }
    None
}

/// Whether some buffer tracks thread `t`.
fn tracked_tid(bufs: &Vec<Buffer>, t: usize) -> (r: bool)
    ensures
        r == has_tid(bufs@, t),
{
    let n = bufs.len();
    let mut i: usize = 0;
    while i < n
        invariant
            i <= n,
            n == bufs@.len(),
            forall|j: int| 0 <= j < i ==> (#[trigger] bufs@[j]).tid != Some(t),
        decreases n - i,
    {
        match bufs[i].tid {
            Some(x) => {
                if x == t {
                    return true;
                }
            },
            None => {},
        }
        i = i + 1;
    }
    false
}

/// Insert a thread buffer into a vector kept strictly sorted by thread id.
fn insert_sorted(bufs: &mut Vec<Buffer>, b: Buffer)
    requires
        b.tid is Some,
        forall|i: int| 0 <= i < old(bufs)@.len() ==> (#[trigger] old(bufs)@[i]).tid is Some,
        sorted_by_tid(old(bufs)@),
        !has_tid(old(bufs)@, b.tid->0),
    ensures
        final(bufs)@.len() == old(bufs)@.len() + 1,
        sorted_by_tid(final(bufs)@),
        forall|t: usize|
            #![trigger has_tid(final(bufs)@, t)]
            has_tid(final(bufs)@, t) <==> (has_tid(old(bufs)@, t) || t == b.tid->0),
        forall|i: int|
            0 <= i < final(bufs)@.len() ==> (#[trigger] final(bufs)@[i] == b || old(
                bufs,
            )@.contains(final(bufs)@[i])),
{
    let ghost old_s = bufs@;
    let bt = thread_tid(&b);
    let n = bufs.len();
    let mut pos: usize = 0;
    while pos < n && thread_tid(&bufs[pos]) < bt
        invariant
            pos <= n,
            n == bufs@.len(),
            bufs@ == old_s,
            forall|i: int| 0 <= i < n ==> (#[trigger] bufs@[i]).tid is Some,
            forall|i: int| 0 <= i < pos ==> (#[trigger] bufs@[i]).tid->0 < bt,
        decreases n - pos,
    {
        pos = pos + 1;
    }
    proof {
        assert forall|i: int| pos <= i < n implies (#[trigger] old_s[i]).tid->0 > bt by {
            if old_s[pos as int].tid->0 == bt {
                assert(old_s[pos as int].tid == Some(bt));
                assert(has_tid(old_s, bt));
            }
            if i > pos {
                assert(old_s[pos as int].tid->0 < old_s[i].tid->0);
            }
            if old_s[i].tid->0 == bt {
                assert(old_s[i].tid == Some(bt));
                assert(has_tid(old_s, bt));
            }
        }
    }
    bufs.insert(pos, b);
    proof {
        let new_s = bufs@;
        assert forall|i: int| 0 <= i < new_s.len() implies (new_s[i] == (
        if i < pos {
            old_s[i]
        } else if i == pos {
            b
        } else {
            old_s[i - 1]
        })) by {
            assert(new_s == old_s.insert(pos as int, b));
        }
        assert forall|t: usize| #![trigger has_tid(new_s, t)] has_tid(new_s, t) <==> (has_tid(
            old_s,
            t,
        ) || t == b.tid->0) by {
            if has_tid(new_s, t) {
                let i = choose|i: int| 0 <= i < new_s.len() && new_s[i].tid == Some(t);
                if i < pos {
                    assert(old_s[i].tid == Some(t));
                } else if i > pos {
                    assert(old_s[i - 1].tid == Some(t));
                }
            }
            if has_tid(old_s, t) {
                let i = choose|i: int| 0 <= i < old_s.len() && old_s[i].tid == Some(t);
                if i < pos {
                    assert(new_s[i].tid == Some(t));
                } else {
                    assert(new_s[i + 1].tid == Some(t));
                }
            }
            if t == b.tid->0 {
                assert(new_s[pos as int].tid == Some(t));
            }
        }
        assert forall|i: int| 0 <= i < new_s.len() implies (new_s[i] == b || old_s.contains(
            new_s[i],
        )) by {
            if i < pos {
                assert(old_s[i] == new_s[i]);
            } else if i > pos {
                assert(old_s[i - 1] == new_s[i]);
            }
        }
        assert(sorted_by_tid(new_s));
    }
}

impl ProcSampler {
    /// Create the tracker of `pid`.  The aggregate buffer is seeded from
    /// the freshly read `proc_stat`; its failure is the tracker's failure.
    /// With thread tracking on, one buffer is created per listed thread
    /// whose read parses (the process itself excluded); a thread whose
    /// read fails is silently dropped, since a thread exiting between
    /// enumeration and first read is no error for the tracker as a whole.
    pub fn with_capacity(
        pid: usize,
        name: String,
        cap: usize,
        with_threads: bool,
        proc_stat: Option<&[u8]>,
        threads: Vec<ThreadRead>,
    ) -> (r: Result<ProcSampler, SampleError>)
        requires
            unique_tids(threads@),
        ensures
            r is Ok <==> view_ok(slice_view(proc_stat)),
            match r {
                Ok(p) => Self::created_from(
                    p,
                    pid,
                    name,
                    cap,
                    with_threads,
                    slice_view(proc_stat),
                    threads@,
                ),
                Err(e) => e == view_err(slice_view(proc_stat)),
            },
    {
        let proc_buf = match Buffer::from_pid(pid, name, cap, proc_stat) {
            Ok(b) => b,
            Err(e) => {
                return Err(e);
            },
        };
        let ghost reads = threads@;
        let mut bufs: Vec<Buffer> = Vec::new();
        if with_threads {
            let mut pending = threads;
            let ghost total = reads.len() as int;
            while pending.len() > 0
                invariant
                    unique_tids(reads),
                    pending@ =~= reads.skip(total - pending@.len()),
                    pending@.len() <= total == reads.len(),
                    forall|i: int|
                        0 <= i < bufs@.len() ==> thread_buf_wf(#[trigger] bufs@[i], pid, cap),
                    sorted_by_tid(bufs@),
                    forall|t: usize|
                        #![trigger has_tid(bufs@, t)]
                        #![trigger has_ok_read(reads, t)]
                        has_tid(bufs@, t) <==> (t != pid && has_ok_read(
                            reads.take(total - pending@.len()),
                            t,
                        )),
                    forall|i: int|
                        0 <= i < bufs@.len() ==> fresh_from_some_read(
                            #[trigger] bufs@[i],
                            pid,
                            cap,
                            reads,
                        ),
                decreases pending@.len(),
            {
                let ghost done = total - pending@.len();
                let ghost bufs_before = bufs@;
                let rd = pending.remove(0);
                proof {
                    assert(rd == reads[done]);
                    assert(pending@ =~= reads.skip(done + 1));
                }
                if rd.tid != pid {
                    let ThreadRead { tid, name: tname, stat } = rd;
                    let st = opt_slice(&stat);
                    match Buffer::from_pid_tid(pid, tid, tname, cap, st) {
                        Ok(b) => {
                            proof {
                                assert(ok_read(reads[done]));
                                assert(fresh_thread_buf(b, pid, cap, reads[done]));
                                assert(fresh_from_some_read(b, pid, cap, reads));
                                if has_tid(bufs_before, tid) {
                                    let k = choose|k: int|
                                        0 <= k < done && reads.take(done)[k].tid == tid && ok_read(
                                            reads.take(done)[k],
                                        );
                                    assert(reads[k].tid == reads[done].tid);
                                }
                            }
                            insert_sorted(&mut bufs, b);
                        },
                        Err(_) => {
                            proof {
                                assert(!ok_read(reads[done]));
                            }
                        },
                    }
                }
                proof {
                    assert forall|t: usize|
                        #![trigger has_tid(bufs@, t)]
                        #![trigger has_ok_read(reads, t)]
                        has_tid(bufs@, t) <==> (t != pid && has_ok_read(
                            reads.take(done + 1),
                            t,
                        )) by {
                        lemma_has_ok_read_take_step(reads, done, t);
                    }
                    assert forall|i: int|
                        0 <= i < bufs@.len() implies fresh_from_some_read(
                        #[trigger] bufs@[i],
                        pid,
                        cap,
                        reads,
                    ) by {
                        if bufs_before.contains(bufs@[i]) {
                            let j = choose|j: int|
                                0 <= j < bufs_before.len() && bufs_before[j] == bufs@[i];
                            assert(fresh_from_some_read(bufs_before[j], pid, cap, reads));
                        }
                    }
                    assert forall|i: int|
                        0 <= i < bufs@.len() implies thread_buf_wf(
                        #[trigger] bufs@[i],
                        pid,
                        cap,
                    ) by {
                        if bufs_before.contains(bufs@[i]) {
                            let j = choose|j: int|
                                0 <= j < bufs_before.len() && bufs_before[j] == bufs@[i];
                            assert(thread_buf_wf(bufs_before[j], pid, cap));
                        }
                    }
                }
            }
            proof {
                assert(reads.take(total) =~= reads);
            }
        }
        Ok(ProcSampler { pid, proc_buf, thread_bufs: bufs, with_threads })
    }

    /// Take one sample of the whole tracker.
    ///
    /// The aggregate buffer is sampled from `proc_stat`; its failure is the
    /// tracker's failure and mutates nothing.  With thread tracking on, the
    /// freshly enumerated `threads` reads then drive the thread set:
    /// every tracked thread with a read that parses is sampled, every
    /// tracked thread whose read is missing or malformed is retired, and
    /// every listed, not yet tracked thread (other than the process) whose
    /// read parses is discovered — created and given its first, zero-delta
    /// sample in this same cycle.
    pub fn sample(
        &mut self,
        proc_stat: Option<&[u8]>,
        threads: Vec<ThreadRead>,
        elapsed_ns: u64,
    ) -> (r: Result<(), SampleError>)
        requires
            old(self).wf(),
            unique_tids(threads@),
        ensures
            final(self).wf(),
            r is Ok <==> view_ok(slice_view(proc_stat)),
            match r {
                Ok(_) => Self::sampled_from(
                    *final(self),
                    *old(self),
                    slice_view(proc_stat),
                    threads@,
                    elapsed_ns,
                ),
                Err(e) => *final(self) == *old(self) && e == view_err(slice_view(proc_stat)),
            },
    {
        match self.proc_buf.sample(proc_stat, elapsed_ns) {
            Ok(_) => {},
            Err(e) => {
                return Err(e);
            },
        }
        if !self.with_threads {
            return Ok(());
        }
        let ghost reads = threads@;
        let ghost old_bufs = old(self).thread_bufs@;
        let ghost pb = self.proc_buf;
        let ghost pid_g = self.pid;
        let ghost cap_g = old(self).proc_buf.cap;
        // first pass: sample every tracked thread, retiring those whose
        // read is missing or fails
        let mut pending: Vec<Buffer> = Vec::new();
        core::mem::swap(&mut self.thread_bufs, &mut pending);
        let ghost total = old_bufs.len() as int;
        while pending.len() > 0
            invariant
                unique_tids(reads),
                reads == threads@,
                old(self).wf(),
                old(self).with_threads,
                self.pid == old(self).pid,
                self.with_threads == old(self).with_threads,
                self.proc_buf == pb,
                pb.wf(),
                pb.cap == cap_g,
                pid_g == old(self).pid,
                cap_g == old(self).proc_buf.cap,
                old_bufs == old(self).thread_bufs@,
                pending@ =~= old_bufs.skip(total - pending@.len()),
                pending@.len() <= total == old_bufs.len(),
                forall|i: int|
                    0 <= i < self.thread_bufs@.len() ==> thread_buf_wf(
                        #[trigger] self.thread_bufs@[i],
                        pid_g,
                        cap_g,
                    ),
                sorted_by_tid(self.thread_bufs@),
                forall|i: int, j: int|
                    0 <= i < self.thread_bufs@.len() && 0 <= j < pending@.len() ==> (
                    #[trigger] self.thread_bufs@[i]).tid->0 < (#[trigger] pending@[j]).tid->0,
                forall|t: usize|
                    #![trigger has_tid(self.thread_bufs@, t)]
                    #![trigger has_ok_read(reads, t)]
                    has_tid(self.thread_bufs@, t) <==> (has_tid(
                        old_bufs.take(total - pending@.len()),
                        t,
                    ) && has_ok_read(reads, t)),
                forall|i: int|
                    0 <= i < self.thread_bufs@.len() ==> Self::thread_outcome(
                        #[trigger] self.thread_bufs@[i],
                        *old(self),
                        reads,
                        elapsed_ns,
                    ),
            decreases pending@.len(),
        {
            let ghost done = total - pending@.len();
            let ghost s_before = self.thread_bufs@;
            let mut b = pending.remove(0);
            proof {
                assert(b == old_bufs[done]);
                assert(pending@ =~= old_bufs.skip(done + 1));
                assert(thread_buf_wf(b, pid_g, cap_g));
            }
            let t = thread_tid(&b);
            let ghost kept = false;
            match find_read(&threads, t) {
                Some(ridx) => {
                    let st = opt_slice(&threads[ridx].stat);
                    let ghost rd = reads[ridx as int];
                    match b.sample(st, elapsed_ns) {
                        Ok(_) => {
                            proof {
                                kept = true;
                                assert(ok_read(rd));
                                assert(has_ok_read(reads, t));
                                assert(has_tid(old_bufs, t));
                                assert(Buffer::is_sampled_from(
                                    b,
                                    old_bufs[done],
                                    read_counters(rd),
                                    elapsed_ns,
                                ));
                                assert(Self::thread_outcome(b, *old(self), reads, elapsed_ns));
                            }
                            self.thread_bufs.push(b);
                            proof {
                                assert(self.thread_bufs@ == s_before.push(b));
                                assert forall|i: int, j: int|
                                    0 <= i < self.thread_bufs@.len() && 0 <= j
                                        < pending@.len() implies (
                                #[trigger] self.thread_bufs@[i]).tid->0 < (
                                #[trigger] pending@[j]).tid->0 by {
                                    assert(pending@[j] == old_bufs[done + 1 + j]);
                                    assert(old_bufs[done].tid->0 < old_bufs[done + 1 + j].tid->0);
                                    if i < s_before.len() {
                                        assert(self.thread_bufs@[i] == s_before[i]);
                                    } else {
                                        assert(self.thread_bufs@[i] == b);
                                    }
                                }
                                assert(sorted_by_tid(self.thread_bufs@));
                            }
                        },
                        Err(_) => {
                            proof {
                                assert(!ok_read(rd));
                                if has_ok_read(reads, t) {
                                    let k = choose|k: int|
                                        0 <= k < reads.len() && reads[k].tid == t && ok_read(
                                            reads[k],
                                        );
                                    assert(reads[k].tid == reads[ridx as int].tid);
                                    assert(k == ridx as int);
                                }
                                assert(!has_ok_read(reads, t));
                            }
                        },
                    }
                },
                None => {
                    proof {
                        if has_ok_read(reads, t) {
                            let k = choose|k: int|
                                0 <= k < reads.len() && reads[k].tid == t && ok_read(reads[k]);
                            assert(reads[k].tid == t);
                        }
                        assert(!has_ok_read(reads, t));
                    }
                },
            }
            proof {
                assert forall|t2: usize|
                    #![trigger has_tid(self.thread_bufs@, t2)]
                    #![trigger has_ok_read(reads, t2)]
                    has_tid(self.thread_bufs@, t2) <==> (has_tid(old_bufs.take(done + 1), t2)
                        && has_ok_read(reads, t2)) by {
                    lemma_has_tid_take_step(old_bufs, done, t2);
                    if kept {
                        lemma_has_tid_push(s_before, b, t2);
                        if b.tid == Some(t2) {
                            assert(old_bufs[done].tid == Some(t2));
                        }
                    } else {
                        if old_bufs[done].tid == Some(t2) {
                            assert(t2 == t);
                        }
                    }
                }
            }
        }
        proof {
            assert(old_bufs.take(total) =~= old_bufs);
        }
        // second pass: discover listed threads that are not yet tracked
        let mut remaining = threads;
        let ghost totr = reads.len() as int;
        let cap = self.proc_buf.cap;
        let pid = self.pid;
        while remaining.len() > 0
            invariant
                unique_tids(reads),
                old(self).wf(),
                old(self).with_threads,
                self.pid == old(self).pid,
                pid == self.pid,
                cap == cap_g,
                self.with_threads == old(self).with_threads,
                self.proc_buf == pb,
                pb.wf(),
                pb.cap == cap_g,
                pid_g == old(self).pid,
                cap_g == old(self).proc_buf.cap,
                old_bufs == old(self).thread_bufs@,
                remaining@ =~= reads.skip(totr - remaining@.len()),
                remaining@.len() <= totr == reads.len(),
                forall|i: int|
                    0 <= i < self.thread_bufs@.len() ==> thread_buf_wf(
                        #[trigger] self.thread_bufs@[i],
                        pid_g,
                        cap_g,
                    ),
                sorted_by_tid(self.thread_bufs@),
                forall|t: usize|
                    #![trigger has_tid(self.thread_bufs@, t)]
                    #![trigger has_ok_read(reads, t)]
                    has_tid(self.thread_bufs@, t) <==> ((has_tid(old_bufs, t) && has_ok_read(
                        reads,
                        t,
                    )) || (t != pid_g && has_ok_read(reads.take(totr - remaining@.len()), t))),
                forall|i: int|
                    0 <= i < self.thread_bufs@.len() ==> Self::thread_outcome(
                        #[trigger] self.thread_bufs@[i],
                        *old(self),
                        reads,
                        elapsed_ns,
                    ),
            decreases remaining@.len(),
        {
            let ghost done = totr - remaining@.len();
            let ghost s_before = self.thread_bufs@;
            let rd = remaining.remove(0);
            proof {
                assert(rd == reads[done]);
                assert(remaining@ =~= reads.skip(done + 1));
            }
            let t0 = rd.tid;
            if t0 != pid && !tracked_tid(&self.thread_bufs, t0) {
                let ThreadRead { tid, name: tname, stat } = rd;
                let st = opt_slice(&stat);
                match Buffer::from_pid_tid(pid, tid, tname, cap, st) {
                    Ok(mut nb) => {
                        proof {
                            assert(ok_read(reads[done]));
                            assert(has_ok_read(reads, t0));
                            if has_tid(old_bufs, t0) {
                                assert(has_tid(s_before, t0));
                            }
                            assert(!has_tid(old_bufs, t0));
                        }
                        let ghost nb_created = nb;
                        match nb.sample(st, elapsed_ns) {
                            Ok(_) => {
                                proof {
                                    assert(Buffer::is_sampled_from(
                                        nb,
                                        nb_created,
                                        read_counters(reads[done]),
                                        elapsed_ns,
                                    ));
                                    assert(times_sub(
                                        read_counters(reads[done]),
                                        read_counters(reads[done]),
                                    ) == ProcessTimes { utime: 0 as i64, stime: 0 as i64 });
                                    assert(fresh_sampled(
                                        nb,
                                        pid_g,
                                        cap_g,
                                        reads[done],
                                        elapsed_ns,
                                    ));
                                    assert(Self::thread_outcome(
                                        nb,
                                        *old(self),
                                        reads,
                                        elapsed_ns,
                                    ));
                                    assert(thread_buf_wf(nb, pid_g, cap_g));
                                }
                                insert_sorted(&mut self.thread_bufs, nb);
                                proof {
                                    assert forall|i: int|
                                        0 <= i < self.thread_bufs@.len() implies Self::thread_outcome(
                                        #[trigger] self.thread_bufs@[i],
                                        *old(self),
                                        reads,
                                        elapsed_ns,
                                    ) && thread_buf_wf(self.thread_bufs@[i], pid_g, cap_g) by {
                                        if s_before.contains(self.thread_bufs@[i]) {
                                            let j = choose|j: int|
                                                0 <= j < s_before.len() && s_before[j]
                                                    == self.thread_bufs@[i];
                                            assert(Self::thread_outcome(
                                                s_before[j],
                                                *old(self),
                                                reads,
                                                elapsed_ns,
                                            ));
                                            assert(thread_buf_wf(s_before[j], pid_g, cap_g));
                                        }
                                    }
                                }
                            },
                            Err(_) => {
                                proof {
                                    assert(false);
                                }
                            },
                        }
                    },
                    Err(_) => {
                        proof {
                            assert(!ok_read(reads[done]));
                        }
                    },
                }
            }
            proof {
                assert forall|t2: usize|
                    #![trigger has_tid(self.thread_bufs@, t2)]
                    #![trigger has_ok_read(reads, t2)]
                    has_tid(self.thread_bufs@, t2) <==> ((has_tid(old_bufs, t2) && has_ok_read(
                        reads,
                        t2,
                    )) || (t2 != pid_g && has_ok_read(reads.take(done + 1), t2))) by {
                    lemma_has_ok_read_take_step(reads, done, t2);
                    if reads[done].tid == t2 && ok_read(reads[done]) && t2 != pid_g && !has_tid(
                        s_before,
                        t2,
                    ) {
                        assert(has_tid(self.thread_bufs@, t2));
                    }
                    if has_tid(self.thread_bufs@, t2) && !has_tid(s_before, t2) {
                        assert(self.thread_bufs@ != s_before);
                        assert(reads[done].tid == t2 && ok_read(reads[done]));
                    }
                }
            }
        }
        proof {
            assert(reads.take(totr) =~= reads);
            assert forall|t2: usize|
                #![trigger has_tid(self.thread_bufs@, t2)]
                #![trigger has_ok_read(reads, t2)]
                has_tid(self.thread_bufs@, t2) <==> (t2 != pid_g && has_ok_read(reads, t2)) by {
                if has_tid(old_bufs, t2) {
                    let i = choose|i: int| 0 <= i < old_bufs.len() && old_bufs[i].tid == Some(t2);
                    assert(thread_buf_wf(old_bufs[i], pid_g, cap_g));
                }
            }
        }
        Ok(())
    }

    /// The tracker's buffers for downstream consumption: the process
    /// aggregate first, then the thread buffers in ascending thread id.
    pub open spec fn buffers_view(&self) -> Seq<Buffer> {
        seq![self.proc_buf] + self.thread_bufs@
    }

    /// Read-only view of all buffers, aggregate first, threads sorted by id.
    pub fn buffers(&self) -> (r: Vec<&Buffer>)
        ensures
            r@.len() == 1 + self.thread_bufs@.len(),
            forall|i: int| 0 <= i < r@.len() ==> *(#[trigger] r@[i]) == self.buffers_view()[i],
    {
        let mut r: Vec<&Buffer> = Vec::new();
        r.push(&self.proc_buf);
        let n = self.thread_bufs.len();
        let mut i: usize = 0;
        while i < n
            invariant
                i <= n,
                n == self.thread_bufs@.len(),
                r@.len() == 1 + i,
                forall|j: int| 0 <= j < r@.len() ==> *(#[trigger] r@[j]) == self.buffers_view()[j],
            decreases n - i,
        {
            r.push(&self.thread_bufs[i]);
            i = i + 1;
        }
        r
    }
}

/// Thread discovery law: a cycle during which a previously untracked
/// thread id is listed with a read that parses leaves exactly one buffer
/// for that id, discovered this cycle: seeded from that read, its only
/// retained sample a zero delta covering the cycle since its discovery.
pub proof fn lemma_thread_discovery(
    new_p: ProcSampler,
    old_p: ProcSampler,
    proc_stat: Option<Seq<u8>>,
    reads: Seq<ThreadRead>,
    elapsed_ns: u64,
    k: int,
)
    requires
        old_p.with_threads,
        unique_tids(reads),
        ProcSampler::sampled_from(new_p, old_p, proc_stat, reads, elapsed_ns),
        0 <= k < reads.len(),
        ok_read(reads[k]),
        reads[k].tid != old_p.pid,
        !has_tid(old_p.thread_bufs@, reads[k].tid),
    ensures
        has_tid(new_p.thread_bufs@, reads[k].tid),
        forall|i: int|
            0 <= i < new_p.thread_bufs@.len() && (#[trigger] new_p.thread_bufs@[i]).tid == Some(
                reads[k].tid,
            ) ==> fresh_sampled(
                new_p.thread_bufs@[i],
                old_p.pid,
                old_p.proc_buf.cap,
                reads[k],
                elapsed_ns,
            ),
        forall|i: int, j: int|
            0 <= i < j < new_p.thread_bufs@.len() ==> !((#[trigger] new_p.thread_bufs@[i]).tid
                == Some(reads[k].tid) && (#[trigger] new_p.thread_bufs@[j]).tid == Some(
                reads[k].tid,
            )),
{
    let t = reads[k].tid;
    assert(has_ok_read(reads, t));
    assert(has_tid(new_p.thread_bufs@, t));
    assert forall|i: int|
        0 <= i < new_p.thread_bufs@.len() && (#[trigger] new_p.thread_bufs@[i]).tid == Some(
            t,
        ) implies fresh_sampled(
        new_p.thread_bufs@[i],
        old_p.pid,
        old_p.proc_buf.cap,
        reads[k],
        elapsed_ns,
    ) by {
        let b = new_p.thread_bufs@[i];
        assert(ProcSampler::thread_outcome(b, old_p, reads, elapsed_ns));
        let k2 = choose|k2: int|
            0 <= k2 < reads.len() && (#[trigger] reads[k2]).tid == b.tid->0 && ok_read(reads[k2])
                && (if has_tid(old_p.thread_bufs@, b.tid->0) {
                exists|j: int|
                    0 <= j < old_p.thread_bufs@.len() && (#[trigger] old_p.thread_bufs@[j]).tid
                        == b.tid && Buffer::is_sampled_from(
                        b,
                        old_p.thread_bufs@[j],
                        read_counters(reads[k2]),
                        elapsed_ns,
                    )
            } else {
                fresh_sampled(b, old_p.pid, old_p.proc_buf.cap, reads[k2], elapsed_ns)
            });
        if k2 != k {
            assert(reads[k2].tid != reads[k].tid);
        }
        assert(k2 == k);
    }
}

/// Thread retirement law: a tracked thread id whose reads this cycle are
/// all missing or malformed is absent from the tracker by the end of the
/// cycle; it can only reappear by being listed, readable, again.
pub proof fn lemma_thread_retirement(
    new_p: ProcSampler,
    old_p: ProcSampler,
    proc_stat: Option<Seq<u8>>,
    reads: Seq<ThreadRead>,
    elapsed_ns: u64,
    t: usize,
)
    requires
        old_p.with_threads,
        ProcSampler::sampled_from(new_p, old_p, proc_stat, reads, elapsed_ns),
        forall|k: int| 0 <= k < reads.len() && (#[trigger] reads[k]).tid == t ==> !ok_read(reads[k]),
    ensures
        !has_tid(new_p.thread_bufs@, t),
{
    if has_tid(new_p.thread_bufs@, t) {
        assert(has_ok_read(reads, t));
        let k = choose|k: int|
            0 <= k < reads.len() && (#[trigger] reads[k]).tid == t && ok_read(reads[k]);
        assert(!ok_read(reads[k]));
    }
}

} // verus!
