//! The plan of a brute-force search.
//!
//! Every sample of user states, every initial poster and every message
//! sequence make one job. The jobs come in nested order: samples outermost,
//! then posters, then sequence indices; each (sample, poster) pair is one
//! diffusion model, numbered in that order.

use vstd::prelude::*;

verus! {

/// One job of the search.
#[derive(Clone, Copy, Debug)]
pub struct JobSpec {
    /// The number of the (sample, poster) model.
    pub id: usize,
    /// The sample of user states.
    pub us_id: usize,
    /// The initial poster.
    pub ip: usize,
    /// The index of the message sequence.
    pub seq_index: u64,
}

/// The jobs of model `id` (sample `us_id`, poster `ip`) for the sequence
/// indices `q..num_seqs`.
pub open spec fn seq_jobs_from(id: int, us_id: int, ip: usize, q: nat, num_seqs: nat) -> Seq<JobSpec> {
    Seq::new(
        (num_seqs - q) as nat,
        |t: int| JobSpec { id: id as usize, us_id: us_id as usize, ip, seq_index: (q + t) as u64 },
    )
}

/// The jobs of sample `us_id` for the posters `ips[p..]`.
pub open spec fn sample_jobs_from(us_id: int, ips: Seq<usize>, num_seqs: nat, p: int) -> Seq<JobSpec>
    decreases ips.len() - p,
{
    if p < 0 || p >= ips.len() {
        seq![]
    } else {
        seq_jobs_from(us_id * ips.len() + p, us_id, ips[p], 0, num_seqs) + sample_jobs_from(
            us_id,
            ips,
            num_seqs,
            p + 1,
        )
    }
}

/// The jobs of the samples `us_id..num_samples`.
pub open spec fn jobs_from(num_samples: nat, ips: Seq<usize>, num_seqs: nat, us_id: int) -> Seq<JobSpec>
    decreases num_samples - us_id,
{
    if us_id < 0 || us_id >= num_samples {
        seq![]
    } else {
        sample_jobs_from(us_id, ips, num_seqs, 0) + jobs_from(num_samples, ips, num_seqs, us_id + 1)
    }
}

/// All jobs of a search, in order.
pub open spec fn job_order(num_samples: nat, ips: Seq<usize>, num_seqs: nat) -> Seq<JobSpec> {
    jobs_from(num_samples, ips, num_seqs, 0)
}

proof fn lemma_sample_jobs_empty(us_id: int, ips: Seq<usize>, num_seqs: nat, p: int)
    requires
        num_seqs == 0,
    ensures
        sample_jobs_from(us_id, ips, num_seqs, p) == Seq::<JobSpec>::empty(),
    decreases ips.len() - p,
{
    if 0 <= p < ips.len() {
        lemma_sample_jobs_empty(us_id, ips, num_seqs, p + 1);
        assert(seq_jobs_from(us_id * ips.len() + p, us_id, ips[p], 0, num_seqs) =~= Seq::<JobSpec>::empty());
        assert(sample_jobs_from(us_id, ips, num_seqs, p) =~= Seq::<JobSpec>::empty());
    }
}

proof fn lemma_jobs_empty(num_samples: nat, ips: Seq<usize>, num_seqs: nat, us_id: int)
    requires
        num_seqs == 0 || ips.len() == 0,
    ensures
        jobs_from(num_samples, ips, num_seqs, us_id) == Seq::<JobSpec>::empty(),
    decreases num_samples - us_id,
{
    if 0 <= us_id < num_samples {
        lemma_jobs_empty(num_samples, ips, num_seqs, us_id + 1);
        if num_seqs == 0 {
            lemma_sample_jobs_empty(us_id, ips, num_seqs, 0);
        }
        assert(jobs_from(num_samples, ips, num_seqs, us_id) =~= Seq::<JobSpec>::empty());
    }
}

/// The jobs of a search still to be run.
pub struct JobPlan {
    num_samples: usize,
    ips: Vec<usize>,
    num_seqs: u64,
    us_id: usize,
    p: usize,
    seq_index: u64,
    model_id: usize,
}

impl JobPlan {
    /// The jobs still to be run, in order.
    pub closed spec fn remaining(&self) -> Seq<JobSpec> {
        if self.us_id >= self.num_samples {
            seq![]
        } else {
            seq_jobs_from(
                self.model_id as int,
                self.us_id as int,
                self.ips@[self.p as int],
                self.seq_index as nat,
                self.num_seqs as nat,
            ) + sample_jobs_from(self.us_id as int, self.ips@, self.num_seqs as nat, self.p + 1) + jobs_from(
                self.num_samples as nat,
                self.ips@,
                self.num_seqs as nat,
                self.us_id + 1,
            )
        }
    }

    /// The plan's internal consistency.
    pub closed spec fn wf(&self) -> bool {
        &&& self.num_samples * self.ips@.len() <= usize::MAX
        &&& self.us_id <= self.num_samples
        &&& self.us_id < self.num_samples ==> {
            &&& self.p < self.ips@.len()
            &&& self.seq_index < self.num_seqs
            &&& self.model_id == self.us_id * self.ips@.len() + self.p
        }
    }

    /// The plan of all jobs for `num_samples` samples of user states, the
    /// posters `ips` and `num_seqs` message sequences.
    pub fn new(num_samples: usize, ips: Vec<usize>, num_seqs: u64) -> (plan: JobPlan)
        requires
            num_samples * ips@.len() <= usize::MAX,
        ensures
            plan.wf(),
            plan.remaining() == job_order(num_samples as nat, ips@, num_seqs as nat),
    {
        if ips.len() == 0 || num_seqs == 0 {
            proof {
                lemma_jobs_empty(num_samples as nat, ips@, num_seqs as nat, 0);
            }
            JobPlan { num_samples, ips, num_seqs, us_id: num_samples, p: 0, seq_index: 0, model_id: 0 }
        } else {
            let plan = JobPlan { num_samples, ips, num_seqs, us_id: 0, p: 0, seq_index: 0, model_id: 0 };
            proof {
                if num_samples > 0 {
                    assert(0 * plan.ips@.len() + 0 == 0) by (nonlinear_arith);
                    assert(plan.remaining() =~= jobs_from(num_samples as nat, plan.ips@, num_seqs as nat, 0));
                }
            }
            plan
        }
    }

    /// The next job, which is dropped from the plan; `None` when no job remains.
    pub fn next(&mut self) -> (j: Option<JobSpec>)
        requires
            old(self).wf(),
        ensures
            final(self).wf(),
            old(self).remaining().len() == 0 ==> j is None && final(self).remaining() == old(self).remaining(),
            old(self).remaining().len() > 0 ==> j == Some(old(self).remaining()[0])
                && final(self).remaining() == old(self).remaining().drop_first(),
    {
        if self.us_id >= self.num_samples {
            return None;
        }
        let ghost old_rem = self.remaining();
        let ghost len = self.ips@.len();
        let job = JobSpec { id: self.model_id, us_id: self.us_id, ip: self.ips[self.p], seq_index: self.seq_index };
        proof {
            assert(old_rem[0] == job);
            assert(self.us_id * len + self.p < self.num_samples * len) by (nonlinear_arith)
                requires
                    self.us_id < self.num_samples,
                    self.p < len;
        }
        if self.seq_index + 1 < self.num_seqs {
            self.seq_index = self.seq_index + 1;
            proof {
                assert(self.remaining() =~= old_rem.drop_first());
            }
        } else {
            self.seq_index = 0;
            self.model_id = self.model_id + 1;
            if self.p + 1 < self.ips.len() {
                self.p = self.p + 1;
                proof {
                    assert(self.remaining() =~= old_rem.drop_first());
                }
            } else {
                self.p = 0;
                self.us_id = self.us_id + 1;
                proof {
                    assert(sample_jobs_from(self.us_id - 1, self.ips@, self.num_seqs as nat, len as int) =~= Seq::<
                        JobSpec,
                    >::empty());
                    assert(self.model_id == self.us_id * len) by (nonlinear_arith)
                        requires
                            self.model_id == (self.us_id - 1) * len + (len - 1) + 1;
                    if self.us_id < self.num_samples {
                        assert(self.us_id * len + 0 == self.model_id);
                    }
                    assert(self.remaining() =~= old_rem.drop_first());
                }
            }
        }
        Some(job)
    }
}

/// Whether every poster in `ips` is a node of a graph of `num_nodes` nodes.
pub fn ips_in_range(ips: &Vec<usize>, num_nodes: usize) -> (ok: bool)
    ensures
        ok <==> forall|k: int| 0 <= k < ips@.len() ==> ips@[k] < num_nodes,
{
    let mut k: usize = 0;
    while k < ips.len()
        invariant
            k <= ips@.len(),
            forall|t: int| 0 <= t < k ==> ips@[t] < num_nodes,
        decreases ips@.len() - k,
    {
        if ips[k] >= num_nodes {
            return false;
        }
        k = k + 1;
    }
    true
}

/// Counts the job results buffered since the last write of a batch.
pub struct BatchCounter {
    count: usize,
    batch_size: usize,
}

impl BatchCounter {
    /// The number of results buffered since the last batch.
    pub closed spec fn count(&self) -> nat {
        self.count as nat
    }

    /// The number of results after which a batch is written.
    pub closed spec fn batch_size(&self) -> nat {
        self.batch_size as nat
    }

    /// The counter's internal consistency.
    pub closed spec fn wf(&self) -> bool {
        self.count == 0 || self.count < self.batch_size
    }

    /// A counter with nothing buffered, for batches of `batch_size` results.
    pub fn new(batch_size: usize) -> (c: BatchCounter)
        ensures
            c.wf(),
            c.count() == 0,
            c.batch_size() == batch_size,
    {
        BatchCounter { count: 0, batch_size }
    }

    /// Counts one more result; returns whether the count has reached the batch
    /// size, in which case the batch is to be written and the count starts
    /// again from zero.
    pub fn push(&mut self) -> (flush: bool)
        requires
            old(self).wf(),
        ensures
            final(self).wf(),
            final(self).batch_size() == old(self).batch_size(),
            flush == (old(self).count() + 1 >= old(self).batch_size()),
            final(self).count() == if flush { 0 } else { old(self).count() + 1 },
    {
        self.count = self.count + 1;
        if self.count >= self.batch_size {
            self.count = 0;
            true
        } else {
            false
        }
    }
}

} // verus!
