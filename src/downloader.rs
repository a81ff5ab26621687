use vstd::prelude::*;

use crate::types::ENTRY_SIZE;

verus! {

/// Most fetch tasks in flight at once.
pub const MAX_DOWNLOAD_TASK: usize = 5;

/// Failed attempts of one task that are retried; the next failure is final.
pub const MAX_RETRY: usize = 5;

/// Entries that a whole segment holds.
pub const ENTRIES_PER_SEGMENT: usize = 1024;

/// Pause before asking the next endpoint, in milliseconds.
pub const RETRY_WAIT_MS: u64 = 1000;

/// Whether a segment returned by an endpoint may be used: its length is a
/// whole number of entries, it belongs to the requested data root, and it
/// passed its own structural check (`structure_ok`).
pub fn segment_valid(data_len: usize, root: &[u8; 32], data_root: &[u8; 32], structure_ok: bool) -> (r: bool)
    ensures
        r == (data_len % (ENTRY_SIZE as usize) == 0 && root@ == data_root@ && structure_ok),
{
    if data_len % (ENTRY_SIZE as usize) != 0 || !structure_ok {
        return false;
    }
    let mut k: usize = 0;
    while k < 32
        invariant
            k <= 32,
            root@.len() == 32,
            data_root@.len() == 32,
            forall|m: int| 0 <= m < k ==> root@[m] == data_root@[m],
        decreases 32 - k,
    {
        if root[k] != data_root[k] {
            return false;
        }
        k += 1;
    }
    assert(root@ =~= data_root@);
    true
}

/// What an endpoint answered to one fetch of a segment.
#[derive(Debug, Clone, Copy, PartialEq, Eq)]
pub enum EndpointReply {
    /// A segment that passed `segment_valid`.
    Valid,
    /// A segment that failed `segment_valid`.
    Invalid,
    /// The endpoint does not hold the segment.
    NotFound,
    /// The request failed.
    TransportError,
}

/// What a fetch task does after a reply.
#[derive(Debug, Clone, Copy, PartialEq, Eq)]
pub enum TaskStep {
    /// Hand the segment to the coordinator.
    Deliver,
    /// Wait `RETRY_WAIT_MS`, then ask endpoint `next`.
    TryNext { next: usize },
    /// Wait `RETRY_WAIT_MS`, then report this attempt as failed: every
    /// endpoint has been asked.
    GiveUp,
}

/// The decision of a fetch task after endpoint `endpoint` (of `n_endpoints`,
/// asked in order) gave `reply`.
pub fn task_step(endpoint: usize, n_endpoints: usize, reply: EndpointReply) -> (r: TaskStep)
    requires
        endpoint < n_endpoints,
    ensures
        reply == EndpointReply::Valid ==> r == TaskStep::Deliver,
        reply != EndpointReply::Valid && endpoint + 1 < n_endpoints ==> r == (TaskStep::TryNext {
            next: (endpoint + 1) as usize,
        }),
        reply != EndpointReply::Valid && endpoint + 1 >= n_endpoints ==> r == TaskStep::GiveUp,
{
    match reply {
        EndpointReply::Valid => TaskStep::Deliver,
        _ => {
            if endpoint + 1 < n_endpoints {
                TaskStep::TryNext { next: endpoint + 1 }
            } else {
                TaskStep::GiveUp
            }
        },
    }
}

/// Number of `true` entries among the first `k`.
pub open spec fn count_true(s: Seq<bool>, k: int) -> int
    decreases k,
{
    if k <= 0 {
        0
    } else {
        count_true(s, k - 1) + if s[k - 1] {
            1int
        } else {
            0
        }
    }
}

proof fn lemma_count_update(s: Seq<bool>, k: int, t: int, v: bool)
    requires
        0 <= k <= s.len(),
        0 <= t < s.len(),
    ensures
        count_true(s.update(t, v), k) == count_true(s, k) + if t < k {
            (if v {
                1int
            } else {
                0
            }) - (if s[t] {
                1int
            } else {
                0
            })
        } else {
            0
        },
    decreases k,
{
    if k > 0 {
        lemma_count_update(s, k - 1, t, v);
    }
}

proof fn lemma_count_bounds(s: Seq<bool>, k: int)
    requires
        0 <= k <= s.len(),
    ensures
        0 <= count_true(s, k) <= k,
        count_true(s, k) == 0 ==> forall|m: int| 0 <= m < k ==> !s[m],
    decreases k,
{
    if k > 0 {
        lemma_count_bounds(s, k - 1);
    }
}

proof fn lemma_count_all_false(s: Seq<bool>, k: int)
    requires
        0 <= k <= s.len(),
        forall|m: int| 0 <= m < k ==> !s[m],
    ensures
        count_true(s, k) == 0,
    decreases k,
{
    if k > 0 {
        lemma_count_all_false(s, k - 1);
    }
}

proof fn lemma_count_prefix(s: Seq<bool>, k: int)
    requires
        0 <= k <= s.len(),
        forall|m: int| k <= m < s.len() ==> !s[m],
    ensures
        count_true(s, s.len() as int) == count_true(s, k),
    decreases s.len() - k,
{
    if k < s.len() {
        lemma_count_prefix(s, k + 1);
    }
}

/// What the coordinator does after a task reported.
#[derive(Debug, Clone, Copy, PartialEq, Eq)]
pub enum DownloadStep {
    /// Start (again) the fetch task of this number, for the segment requested
    /// at that position.
    Launch(usize),
    /// Start nothing; wait for the next report.
    Wait,
    /// Stop: task `task`, for segment `segment_index`, failed once more
    /// after `MAX_RETRY` retries.
    Failed { task: usize, segment_index: usize },
}

/// The coordinator of a download: one task per requested segment, at most
/// `MAX_DOWNLOAD_TASK` in flight, each retried up to `MAX_RETRY` times.
pub struct Downloader {
    /// Requested segments; task `t` fetches `segment_indexes[t]`.
    pub segment_indexes: Vec<usize>,
    /// Tasks below this one have been started.
    pub next_task: usize,
    /// Which tasks are in flight.
    pub in_flight: Vec<bool>,
    /// Number of tasks in flight.
    pub running: usize,
    /// Failed attempts of each task so far.
    pub failures: Vec<usize>,
    /// Delivered segments, by task.
    pub results: Vec<Option<Vec<u8>>>,
}

impl Downloader {
    pub open spec fn wf(&self) -> bool {
        let k = self.segment_indexes@.len();
        &&& self.in_flight@.len() == k
        &&& self.failures@.len() == k
        &&& self.results@.len() == k
        &&& self.next_task <= k
        &&& self.running as int == count_true(self.in_flight@, k as int)
        &&& self.running <= MAX_DOWNLOAD_TASK
        &&& forall|t: int| self.next_task <= t < k ==> !(#[trigger] self.in_flight@[t]) && self.results@[t].is_none()
        &&& forall|t: int| 0 <= t < self.next_task ==> #[trigger] self.in_flight@[t] || self.results@[t].is_some()
        &&& forall|t: int| 0 <= t < k && #[trigger] self.in_flight@[t] ==> self.results@[t].is_none()
        &&& forall|t: int| 0 <= t < k ==> #[trigger] self.failures@[t] <= MAX_RETRY
    }

    /// Every task has delivered its segment.
    pub open spec fn done_spec(&self) -> bool {
        self.next_task == self.segment_indexes@.len() && self.running == 0
    }

    /// A coordinator for `segment_indexes`, with the tasks to start at once:
    /// the first `MAX_DOWNLOAD_TASK` ones (all, if there are fewer).
    pub fn new(segment_indexes: Vec<usize>) -> (r: (Downloader, Vec<usize>))
        ensures
            r.0.wf(),
            r.0.segment_indexes@ == segment_indexes@,
            r.0.failures@ == Seq::new(segment_indexes@.len(), |t: int| 0usize),
            r.0.results@ == Seq::new(segment_indexes@.len(), |t: int| None::<Vec<u8>>),
            r.1@.len() == if segment_indexes@.len() < MAX_DOWNLOAD_TASK {
                segment_indexes@.len() as int
            } else {
                MAX_DOWNLOAD_TASK as int
            },
            forall|t: int| 0 <= t < r.1@.len() ==> r.1@[t] == t,
            r.0.next_task == r.1@.len(),
    {
        let k = segment_indexes.len();
        let mut in_flight: Vec<bool> = Vec::new();
        let mut failures: Vec<usize> = Vec::new();
        let mut results: Vec<Option<Vec<u8>>> = Vec::new();
        let mut launch: Vec<usize> = Vec::new();
        let mut t: usize = 0;
        while t < k
            invariant
                t <= k,
                k == segment_indexes@.len(),
                in_flight@.len() == t,
                failures@.len() == t,
                results@.len() == t,
                launch@.len() == if t < MAX_DOWNLOAD_TASK {
                    t as int
                } else {
                    MAX_DOWNLOAD_TASK as int
                },
                forall|m: int| 0 <= m < launch@.len() ==> launch@[m] == m,
                forall|m: int| 0 <= m < t ==> (#[trigger] in_flight@[m]) == (m < MAX_DOWNLOAD_TASK),
                forall|m: int| 0 <= m < t ==> #[trigger] failures@[m] == 0,
                forall|m: int| 0 <= m < t ==> #[trigger] results@[m] == None::<Vec<u8>>,
                count_true(in_flight@, t as int) == launch@.len(),
            decreases k - t,
        {
            let starts = t < MAX_DOWNLOAD_TASK;
            let ghost before = in_flight@;
            in_flight.push(starts);
            proof {
                assert(in_flight@.subrange(0, t as int) =~= before);
                assert(before.subrange(0, t as int) =~= before);
                lemma_count_prefix_eq(before, in_flight@, t as int);
            }
            failures.push(0);
            results.push(None);
            if starts {
                launch.push(t);
            }
            t += 1;
        }
        let next_task = launch.len();
        let running = launch.len();
        let d = Downloader { segment_indexes, next_task, in_flight, running, failures, results };
        proof {
            assert(d.failures@ =~= Seq::new(k as nat, |t: int| 0usize));
            assert(d.results@ =~= Seq::new(k as nat, |t: int| None::<Vec<u8>>));
        }
        (d, launch)
    }

    /// Whether every task has delivered its segment.
    pub fn is_done(&self) -> (r: bool)
        requires
            self.wf(),
        ensures
            r == self.done_spec(),
    {
        self.next_task == self.segment_indexes.len() && self.running == 0
    }

    /// Handles the report of task `task`: `Some(data)` when it delivered
    /// `data`, `None` when an attempt failed. A report of a task that is not
    /// in flight is ignored.
    pub fn on_outcome(&mut self, task: usize, outcome: Option<Vec<u8>>) -> (r: DownloadStep)
        requires
            old(self).wf(),
        ensures
            final(self).wf(),
            final(self).segment_indexes@ == old(self).segment_indexes@,
            !(task < old(self).segment_indexes@.len() && old(self).in_flight@[task as int]) ==> r == DownloadStep::Wait
                && final(self).results@ == old(self).results@ && final(self).failures@ == old(self).failures@,
            task < old(self).segment_indexes@.len() && old(self).in_flight@[task as int] ==> match outcome {
                Some(data) => {
                    &&& final(self).results@ == old(self).results@.update(task as int, Some(data))
                    &&& final(self).failures@ == old(self).failures@
                    &&& old(self).next_task < old(self).segment_indexes@.len() ==> r == DownloadStep::Launch(
                        old(self).next_task,
                    ) && final(self).next_task == old(self).next_task + 1
                    &&& old(self).next_task == old(self).segment_indexes@.len() ==> r == DownloadStep::Wait
                },
                None => {
                    &&& final(self).results@ == old(self).results@
                    &&& old(self).failures@[task as int] == MAX_RETRY ==> r == (DownloadStep::Failed {
                        task,
                        segment_index: old(self).segment_indexes@[task as int],
                    })
                    &&& old(self).failures@[task as int] < MAX_RETRY ==> r == DownloadStep::Launch(task)
                        && final(self).failures@ == old(self).failures@.update(
                        task as int,
                        (old(self).failures@[task as int] + 1) as usize,
                    )
                },
            },
    {
        let k = self.segment_indexes.len();
        if task >= k || !self.in_flight[task] {
            return DownloadStep::Wait;
        }
        proof {
            lemma_count_bounds(self.in_flight@, k as int);
        }
        match outcome {
            Some(data) => {
                assert(task < self.next_task);
                self.results.set(task, Some(data));
                if self.next_task < k {
                    let t = self.next_task;
                    assert(!self.in_flight@[t as int] && t != task);
                    proof {
                        lemma_count_update(self.in_flight@, k as int, task as int, false);
                    }
                    self.in_flight.set(task, false);
                    proof {
                        lemma_count_update(self.in_flight@, k as int, t as int, true);
                    }
                    self.in_flight.set(t, true);
                    self.next_task = t + 1;
                    DownloadStep::Launch(t)
                } else {
                    proof {
                        lemma_count_update(self.in_flight@, k as int, task as int, false);
                    }
                    self.in_flight.set(task, false);
                    self.running = self.running - 1;
                    DownloadStep::Wait
                }
            },
            None => {
                let f = self.failures[task];
                if f == MAX_RETRY {
                    DownloadStep::Failed { task, segment_index: self.segment_indexes[task] }
                } else {
                    self.failures.set(task, f + 1);
                    DownloadStep::Launch(task)
                }
            },
        }
    }

    /// The delivered segments, in the order in which they were requested.
    pub fn into_results(self) -> (r: Vec<Vec<u8>>)
        requires
            self.wf(),
            self.done_spec(),
        ensures
            r@.len() == self.segment_indexes@.len(),
            forall|t: int| 0 <= t < r@.len() ==> Some(#[trigger] r@[t]) == self.results@[t],
    {
        let k = self.segment_indexes.len();
        proof {
            lemma_count_bounds(self.in_flight@, k as int);
        }
        let ghost all = self.results@;
        assert forall|t: int| 0 <= t < k implies (#[trigger] all[t]).is_some() by {
            assert(!self.in_flight@[t]);
        }
        let mut results = self.results;
        let mut out: Vec<Vec<u8>> = Vec::new();
        // Taken from the back, then reversed into request order.
        while results.len() > 0
            invariant
                results@.len() <= k,
                all.len() == k,
                results@ == all.subrange(0, results@.len() as int),
                forall|t: int| 0 <= t < k ==> (#[trigger] all[t]).is_some(),
                out@.len() == k - results@.len(),
                forall|m: int| 0 <= m < out@.len() ==> Some(#[trigger] out@[m]) == all[k - 1 - m],
            decreases results@.len(),
        {
            let last = results.pop();
            assert(all[results@.len() as int].is_some());
            match last {
                Some(Some(data)) => {
                    out.push(data);
                },
                _ => {
                    assert(false);
                },
            }
            assert(results@ =~= all.subrange(0, results@.len() as int));
        }
        let mut r: Vec<Vec<u8>> = Vec::new();
        while out.len() > 0
            invariant
                out@.len() <= k,
                all.len() == k,
                r@.len() == k - out@.len(),
                forall|m: int| 0 <= m < out@.len() ==> Some(#[trigger] out@[m]) == all[k - 1 - m],
                forall|m: int| 0 <= m < r@.len() ==> Some(#[trigger] r@[m]) == all[m],
            decreases out@.len(),
        {
            let x = out.pop();
            match x {
                Some(data) => {
                    r.push(data);
                },
                None => {},
            }
        }
        r
    }
}

proof fn lemma_count_prefix_eq(a: Seq<bool>, b: Seq<bool>, k: int)
    requires
        0 <= k <= a.len(),
        k <= b.len(),
        b.subrange(0, k) == a.subrange(0, k),
    ensures
        count_true(a, k) == count_true(b, k),
    decreases k,
{
    if k > 0 {
        assert(a[k - 1] == a.subrange(0, k)[k - 1]);
        assert(b[k - 1] == b.subrange(0, k)[k - 1]);
        assert(b.subrange(0, k - 1) =~= b.subrange(0, k).subrange(0, k - 1));
        assert(a.subrange(0, k - 1) =~= a.subrange(0, k).subrange(0, k - 1));
        lemma_count_prefix_eq(a, b, k - 1);
    }
}

} // verus!
