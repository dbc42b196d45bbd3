//! The sampling coordinator: one tracker per target process, driven at a
//! shared cadence.
//!
//! The embedding program owns the clock and the counter source; it reads
//! the records, measures the times and hands both in as plain values.  The
//! coordinator decides: how long to sleep to keep the cadence, what every
//! tracker becomes, and which failure aborts a cycle.

use vstd::prelude::*;

use crate::errors::{SampleError, SamplerError};
use crate::sample::Buffer;
use crate::tracker::{
    opt_slice, read_view, unique_tids, view_err, view_ok, ProcSampler, ThreadRead,
};

verus! {

/// Everything needed to create the tracker of one target process: the
/// process id, its resolved display name, the freshly read counter record
/// (`None` when there was none) and one read per listed thread.
#[derive(Debug)]
pub struct TargetInput {
    pub pid: usize,
    pub name: String,
    pub proc_stat: Option<Vec<u8>>,
    pub threads: Vec<ThreadRead>,
}

/// Everything one cycle hands one tracker: the process record read this
/// cycle, one read per currently listed thread, and the nanoseconds
/// between the cycle start and the reads.
#[derive(Debug)]
pub struct CycleInput {
    pub proc_stat: Option<Vec<u8>>,
    pub threads: Vec<ThreadRead>,
    pub elapsed_ns: u64,
}

/// Whether the target's process record parses.
pub open spec fn target_ok(t: TargetInput) -> bool {
    view_ok(read_view(t.proc_stat))
}

/// Whether the cycle input's process record parses.
pub open spec fn input_ok(c: CycleInput) -> bool {
    view_ok(read_view(c.proc_stat))
}

/// Whether creating the coordinator failed at target `kb` with error `e`:
/// every earlier target's record parses, this one's does not, and the
/// error names this target's process.
pub open spec fn creation_failed_at(ts: Seq<TargetInput>, kb: int, e: SamplerError) -> bool {
    &&& 0 <= kb < ts.len()
    &&& forall|j: int| 0 <= j < kb ==> target_ok(#[trigger] ts[j])
    &&& !target_ok(ts[kb])
    &&& e == (SamplerError::Process {
        pid: ts[kb].pid,
        error: view_err(read_view(ts[kb].proc_stat)),
    })
}

/// The coordinator: the trackers of all targets, in input order, and the
/// cadence anchor, the instant (in nanoseconds of the embedding program's
/// monotonic clock) the current cycle is measured from.
#[derive(Debug)]
pub struct Sampler {
    /// Cadence anchor: reset once per cycle, after every tracker sampled.
    pub start_ns: u64,
    /// One tracker per target process, in input order.
    pub proc_samplers: Vec<ProcSampler>,
}

impl Sampler {
    pub open spec fn wf(&self) -> bool {
        forall|i: int|
            0 <= i < self.proc_samplers@.len() ==> (#[trigger] self.proc_samplers@[i]).wf()
    }

    /// Whether one cycle failed at tracker `kb` with error `e`: every
    /// earlier tracker was sampled, this tracker's process record does not
    /// parse, the error names its process, and this tracker, all later
    /// ones and the cadence anchor are unchanged.
    pub open spec fn cycle_failed_at(
        new_s: Sampler,
        old_s: Sampler,
        inputs: Seq<CycleInput>,
        kb: int,
        e: SamplerError,
    ) -> bool {
        &&& 0 <= kb < inputs.len()
        &&& forall|j: int| 0 <= j < kb ==> input_ok(#[trigger] inputs[j])
        &&& !input_ok(inputs[kb])
        &&& e == (SamplerError::Process {
            pid: old_s.proc_samplers@[kb].pid,
            error: view_err(read_view(inputs[kb].proc_stat)),
        })
        &&& forall|j: int|
            0 <= j < kb ==> ProcSampler::sampled_from(
                #[trigger] new_s.proc_samplers@[j],
                old_s.proc_samplers@[j],
                read_view(inputs[j].proc_stat),
                inputs[j].threads@,
                inputs[j].elapsed_ns,
            )
        &&& forall|j: int|
            kb <= j < inputs.len() ==> #[trigger] new_s.proc_samplers@[j]
                == old_s.proc_samplers@[j]
        &&& new_s.start_ns == old_s.start_ns
    }

    /// Create one tracker per target, in order, anchoring the cadence at
    /// `now_ns`.  An empty target list is rejected before any sampling
    /// begins.  Failure to create any single tracker (that target's record
    /// missing or malformed) is fatal for the whole run and names the
    /// offending process.
    pub fn new(
        targets: Vec<TargetInput>,
        num_samples: usize,
        with_threads: bool,
        now_ns: u64,
    ) -> (r: Result<Sampler, SamplerError>)
        requires
            forall|k: int|
                0 <= k < targets@.len() ==> unique_tids((#[trigger] targets@[k]).threads@),
        ensures
            targets@.len() == 0 ==> r == Err::<Sampler, SamplerError>(SamplerError::NoTargets),
            targets@.len() > 0 ==> {
                &&& (r is Ok <==> (forall|k: int|
                    0 <= k < targets@.len() ==> target_ok(#[trigger] targets@[k])))
                &&& (r matches Ok(s) ==> {
                    &&& s.wf()
                    &&& s.start_ns == now_ns
                    &&& s.proc_samplers@.len() == targets@.len()
                    &&& forall|k: int|
                        0 <= k < targets@.len() ==> ProcSampler::created_from(
                            #[trigger] s.proc_samplers@[k],
                            targets@[k].pid,
                            targets@[k].name,
                            num_samples,
                            with_threads,
                            read_view(targets@[k].proc_stat),
                            targets@[k].threads@,
                        )
                })
                &&& (r matches Err(e) ==> exists|kb: int|
                    #[trigger] creation_failed_at(targets@, kb, e))
            },
    {
        if targets.len() == 0 {
            return Err(SamplerError::NoTargets);
        }
        let ghost ts = targets@;
        let ghost total = ts.len() as int;
        let mut samplers: Vec<ProcSampler> = Vec::new();
        let mut pending = targets;
        while pending.len() > 0
            invariant
                ts == targets@,
                0 < total,
                pending@ =~= ts.skip(total - pending@.len()),
                pending@.len() <= total == ts.len(),
                samplers@.len() == total - pending@.len(),
                forall|k: int|
                    0 <= k < ts.len() ==> unique_tids((#[trigger] ts[k]).threads@),
                forall|k: int|
                    0 <= k < samplers@.len() ==> ProcSampler::created_from(
                        #[trigger] samplers@[k],
                        ts[k].pid,
                        ts[k].name,
                        num_samples,
                        with_threads,
                        read_view(ts[k].proc_stat),
                        ts[k].threads@,
                    ),
            decreases pending@.len(),
        {
            let ghost done = total - pending@.len();
            let tg = pending.remove(0);
            proof {
                assert(tg == ts[done]);
                assert(pending@ =~= ts.skip(done + 1));
            }
            let TargetInput { pid, name, proc_stat, threads } = tg;
            match ProcSampler::with_capacity(
                pid,
                name,
                num_samples,
                with_threads,
                opt_slice(&proc_stat),
                threads,
            ) {
                Ok(p) => {
                    samplers.push(p);
                },
                Err(e) => {
                    proof {
                        assert forall|j: int| 0 <= j < done implies target_ok(
                            #[trigger] ts[j],
                        ) by {
                            assert(ProcSampler::created_from(
                                samplers@[j],
                                ts[j].pid,
                                ts[j].name,
                                num_samples,
                                with_threads,
                                read_view(ts[j].proc_stat),
                                ts[j].threads@,
                            ));
                        }
                        assert(!target_ok(ts[done]));
                        assert(creation_failed_at(
                            ts,
                            done,
                            SamplerError::Process { pid: ts[done].pid, error: e },
                        ));
                    }
                    return Err(SamplerError::Process { pid, error: e });
                },
            }
        }
        proof {
            assert forall|k: int| 0 <= k < ts.len() implies target_ok(#[trigger] ts[k]) by {
                assert(ProcSampler::created_from(
                    samplers@[k],
                    ts[k].pid,
                    ts[k].name,
                    num_samples,
                    with_threads,
                    read_view(ts[k].proc_stat),
                    ts[k].threads@,
                ));
            }
        }
        Ok(Sampler { start_ns: now_ns, proc_samplers: samplers })
    }

    /// Nanoseconds to sleep before the next cycle so the run keeps a
    /// constant cadence of `target_ns` per cycle: the remainder of the
    /// target interval after the time already gone since the cycle anchor,
    /// and zero when the sampling work itself already ran over (the cycle
    /// then runs immediately rather than drifting further).
    pub fn sleep_ns(&self, target_ns: u64, now_ns: u64) -> (r: u64)
        ensures
            r == if now_ns < self.start_ns {
                target_ns as int
            } else if now_ns - self.start_ns >= target_ns {
                0
            } else {
                target_ns - (now_ns - self.start_ns)
            },
    {
        let elapsed = if now_ns >= self.start_ns {
            now_ns - self.start_ns
        } else {
            0
        };
        if elapsed >= target_ns {
            0
        } else {
            target_ns - elapsed
        }
    }

    /// Sample every tracker, in order, against its cycle input, then reset
    /// the cadence anchor to `now_after_ns`, the instant after all
    /// trackers were sampled.  A tracker whose process record is missing
    /// or malformed aborts the cycle: the failure names its process id,
    /// earlier trackers keep their new sample, this and later trackers and
    /// the anchor stay unchanged.
    pub fn sample(&mut self, inputs: Vec<CycleInput>, now_after_ns: u64) -> (r: Result<
        (),
        SamplerError,
    >)
        requires
            old(self).wf(),
            inputs@.len() == old(self).proc_samplers@.len(),
            forall|k: int|
                0 <= k < inputs@.len() ==> unique_tids((#[trigger] inputs@[k]).threads@),
        ensures
            final(self).wf(),
            final(self).proc_samplers@.len() == old(self).proc_samplers@.len(),
            r is Ok <==> (forall|k: int|
                0 <= k < inputs@.len() ==> input_ok(#[trigger] inputs@[k])),
            r is Ok ==> {
                &&& final(self).start_ns == now_after_ns
                &&& forall|j: int|
                    0 <= j < inputs@.len() ==> ProcSampler::sampled_from(
                        #[trigger] final(self).proc_samplers@[j],
                        old(self).proc_samplers@[j],
                        read_view(inputs@[j].proc_stat),
                        inputs@[j].threads@,
                        inputs@[j].elapsed_ns,
                    )
            },
            r matches Err(e) ==> exists|kb: int|
                #[trigger] Self::cycle_failed_at(*final(self), *old(self), inputs@, kb, e),
    {
        let ghost ins = inputs@;
        let ghost old_trk = old(self).proc_samplers@;
        let ghost total = ins.len() as int;
        let mut todo: Vec<ProcSampler> = Vec::new();
        core::mem::swap(&mut self.proc_samplers, &mut todo);
        let mut pending = inputs;
        while todo.len() > 0
            invariant
                ins == inputs@,
                old_trk == old(self).proc_samplers@,
                ins.len() == total == old_trk.len(),
                old(self).wf(),
                forall|k: int| 0 <= k < ins.len() ==> unique_tids((#[trigger] ins[k]).threads@),
                todo@ =~= old_trk.skip(total - todo@.len()),
                todo@.len() <= total,
                pending@ =~= ins.skip(total - todo@.len()),
                self.start_ns == old(self).start_ns,
                self.proc_samplers@.len() == total - todo@.len(),
                forall|j: int|
                    0 <= j < self.proc_samplers@.len() ==> ProcSampler::sampled_from(
                        #[trigger] self.proc_samplers@[j],
                        old_trk[j],
                        read_view(ins[j].proc_stat),
                        ins[j].threads@,
                        ins[j].elapsed_ns,
                    ),
            decreases todo@.len(),
        {
            let ghost done = total - todo@.len();
            let mut p = todo.remove(0);
            let inp = pending.remove(0);
            proof {
                assert(p == old_trk[done]);
                assert(inp == ins[done]);
                assert(todo@ =~= old_trk.skip(done + 1));
                assert(pending@ =~= ins.skip(done + 1));
            }
            proof {
                assert((old(self).proc_samplers@[done]).wf());
                assert(unique_tids(ins[done].threads@));
            }
            let CycleInput { proc_stat, threads, elapsed_ns } = inp;
            match p.sample(opt_slice(&proc_stat), threads, elapsed_ns) {
                Ok(_) => {
                    self.proc_samplers.push(p);
                },
                Err(e) => {
                    let pid = p.pid;
                    let ghost kb = done;
                    let ghost sp0 = self.proc_samplers@;
                    self.proc_samplers.push(p);
                    proof {
                        assert(self.proc_samplers@ == sp0.push(p));
                        assert(p == old_trk[kb]);
                        assert(self.proc_samplers@[kb as int] == p);
                        assert(forall|j: int|
                            0 <= j < kb ==> #[trigger] self.proc_samplers@[j] == sp0[j]);
                        assert(!view_ok(read_view(ins[kb].proc_stat)));
                        assert(e == view_err(read_view(ins[kb].proc_stat)));
                    }
                    while todo.len() > 0
                        invariant
                            0 <= kb < total,
                            ins.len() == total,
                            self.start_ns == old(self).start_ns,
                            todo@.len() <= total - kb - 1,
                            old_trk.len() == total,
                            self.proc_samplers@.len() == total - todo@.len(),
                            todo@ =~= old_trk.skip(total - todo@.len()),
                            forall|j: int|
                                kb <= j < self.proc_samplers@.len()
                                    ==> #[trigger] self.proc_samplers@[j] == old_trk[j],
                            forall|j: int|
                                0 <= j < kb ==> ProcSampler::sampled_from(
                                    #[trigger] self.proc_samplers@[j],
                                    old_trk[j],
                                    read_view(ins[j].proc_stat),
                                    ins[j].threads@,
                                    ins[j].elapsed_ns,
                                ),
                        decreases todo@.len(),
                    {
                        let ghost m = total - todo@.len();
                        let ghost sp_before = self.proc_samplers@;
                        let q = todo.remove(0);
                        proof {
                            assert(q == old_trk[m]);
                            assert(todo@ =~= old_trk.skip(m + 1));
                        }
                        self.proc_samplers.push(q);
                        proof {
                            assert(sp_before.len() == m);
                            assert(self.proc_samplers@ == sp_before.push(q));
                            assert(self.proc_samplers@[m] == q);
                            assert(forall|j: int|
                                0 <= j < m ==> #[trigger] self.proc_samplers@[j] == sp_before[j]);
                            assert forall|j: int|
                                kb <= j < self.proc_samplers@.len() implies #[trigger] self.proc_samplers@[j]
                                == old_trk[j] by {
                                assert(self.proc_samplers@ == sp_before.push(q));
                                if j < m {
                                    assert(sp_before.push(q)[j] == sp_before[j]);
                                    assert(sp_before[j] == old_trk[j]);
                                } else {
                                    assert(self.proc_samplers@[j] == q);
                                }
                            }
                            assert forall|j: int|
                                0 <= j < kb implies ProcSampler::sampled_from(
                                #[trigger] self.proc_samplers@[j],
                                old_trk[j],
                                read_view(ins[j].proc_stat),
                                ins[j].threads@,
                                ins[j].elapsed_ns,
                            ) by {
                                assert(self.proc_samplers@[j] == sp_before[j]);
                            }
                        }
                    }
                    proof {
                        assert forall|j: int| 0 <= j < kb implies input_ok(#[trigger] ins[j]) by {
                            assert(ProcSampler::sampled_from(
                                self.proc_samplers@[j],
                                old_trk[j],
                                read_view(ins[j].proc_stat),
                                ins[j].threads@,
                                ins[j].elapsed_ns,
                            ));
                        }
                        assert(Self::cycle_failed_at(
                            *self,
                            *old(self),
                            ins,
                            kb,
                            SamplerError::Process {
                                pid: old_trk[kb].pid,
                                error: view_err(read_view(ins[kb].proc_stat)),
                            },
                        ));
                        assert forall|i: int|
                            0 <= i < self.proc_samplers@.len() implies (
                        #[trigger] self.proc_samplers@[i]).wf() by {
                            if i >= kb {
                                assert(self.proc_samplers@[i] == old_trk[i]);
                                assert(old(self).proc_samplers@[i].wf());
                            }
                        }
                    }
                    return Err(SamplerError::Process { pid, error: e });
                },
            }
        }
        self.start_ns = now_after_ns;
        proof {
            assert forall|i: int|
                0 <= i < self.proc_samplers@.len() implies (
            #[trigger] self.proc_samplers@[i]).wf() by {
                assert(ProcSampler::sampled_from(
                    self.proc_samplers@[i],
                    old_trk[i],
                    read_view(ins[i].proc_stat),
                    ins[i].threads@,
                    ins[i].elapsed_ns,
                ));
            }
            assert forall|k: int| 0 <= k < ins.len() implies input_ok(#[trigger] ins[k]) by {
                assert(ProcSampler::sampled_from(
                    self.proc_samplers@[k],
                    old_trk[k],
                    read_view(ins[k].proc_stat),
                    ins[k].threads@,
                    ins[k].elapsed_ns,
                ));
            }
        }
        Ok(())
    }

    /// Every tracker's buffers, flattened in tracker order.
    pub open spec fn all_buffers_view(trackers: Seq<ProcSampler>) -> Seq<Buffer>
        decreases trackers.len(),
    {
        if trackers.len() == 0 {
            Seq::empty()
        } else {
            Self::all_buffers_view(trackers.drop_last()) + trackers.last().buffers_view()
        }
    }

    /// Read-only view of every buffer of every tracker, in tracker order,
    /// each tracker's process aggregate first.
    pub fn buffers(&self) -> (r: Vec<&Buffer>)
        ensures
            r@.len() == Self::all_buffers_view(self.proc_samplers@).len(),
            forall|i: int|
                0 <= i < r@.len() ==> *(#[trigger] r@[i]) == Self::all_buffers_view(
                    self.proc_samplers@,
                )[i],
    {
        let ghost trk = self.proc_samplers@;
        let mut r: Vec<&Buffer> = Vec::new();
        let n = self.proc_samplers.len();
        let mut k: usize = 0;
        proof {
            assert(trk.take(0) =~= Seq::<ProcSampler>::empty());
        }
        while k < n
            invariant
                k <= n,
                n == trk.len(),
                trk == self.proc_samplers@,
                r@.len() == Self::all_buffers_view(trk.take(k as int)).len(),
                forall|i: int|
                    0 <= i < r@.len() ==> *(#[trigger] r@[i]) == Self::all_buffers_view(
                        trk.take(k as int),
                    )[i],
            decreases n - k,
        {
            let sub = self.proc_samplers[k].buffers();
            let ghost base = r@.len() as int;
            let m = sub.len();
            let mut i: usize = 0;
            while i < m
                invariant
                    i <= m,
                    base == Self::all_buffers_view(trk.take(k as int)).len(),
                    m == sub@.len(),
                    k < n == trk.len(),
                    trk == self.proc_samplers@,
                    sub@.len() == trk[k as int].buffers_view().len(),
                    forall|j: int|
                        0 <= j < sub@.len() ==> *(#[trigger] sub@[j]) == trk[
                            k as int
                        ].buffers_view()[j],
                    r@.len() == base + i,
                    forall|j: int|
                        0 <= j < base ==> *(#[trigger] r@[j]) == Self::all_buffers_view(
                            trk.take(k as int),
                        )[j],
                    forall|j: int|
                        base <= j < r@.len() ==> *(#[trigger] r@[j]) == trk[
                            k as int
                        ].buffers_view()[j - base],
                decreases m - i,
            {
                r.push(sub[i]);
                i = i + 1;
            }
            proof {
                assert(trk.take(k + 1).drop_last() =~= trk.take(k as int));
                assert(trk.take(k + 1).last() == trk[k as int]);
                assert(Self::all_buffers_view(trk.take(k + 1)) == Self::all_buffers_view(
                    trk.take(k as int),
                ) + trk[k as int].buffers_view());
            }
            k = k + 1;
        }
        proof {
            assert(trk.take(n as int) =~= trk);
        }
        r
    }
}

} // verus!
