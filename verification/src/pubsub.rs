//! The multi-queue scheduler: a pub/sub matcher from opcode queues to
//! workers. A worker owns an optional capacity and a list of queue names; a
//! job sits in exactly one queue or is assigned to exactly one worker.

use vstd::prelude::*;

use crate::obj::{StepId, ThreadId, WorkerId};
use crate::table::{Table, TableKey};

verus! {

/// A job key: one invocation of a worker on behalf of a thread.
#[derive(Debug, PartialEq, Eq, PartialOrd, Ord)]
pub struct Job {
    pub tid: ThreadId,
    pub step: StepId,
}

/// Spec model of `Job`.
pub struct JobV {
    pub tid: Seq<char>,
    pub step: StepId,
}

impl DeepView for Job {
    type V = JobV;

    open spec fn deep_view(&self) -> JobV {
        JobV { tid: self.tid@, step: self.step }
    }
}

impl Clone for Job {
    fn clone(&self) -> (r: Self)
        ensures
            r.deep_view() == self.deep_view(),
    {
        Job { tid: self.tid.clone(), step: self.step }
    }
}

impl TableKey for Job {
    fn key_eq(&self, other: &Self) -> (r: bool)
        ensures
            r == (self.deep_view() == other.deep_view()),
    {
        self.tid.eq(&other.tid) && self.step == other.step
    }
}

impl Job {
    pub fn new(tid: ThreadId, step: StepId) -> (r: Self)
        ensures
            r.deep_view() == (JobV { tid: tid@, step }),
    {
        Job { tid, step }
    }
}

/// What happened to an assignment: offered to a worker, finished by it, or
/// cancelled because its worker went away.
#[derive(Debug, Clone, PartialEq, Eq)]
pub enum Action {
    Started,
    Done,
    Cancelled,
}

/// A scheduling decision: `action` on job `job_key` of queue `queue_key` for
/// worker `worker_key`.
#[derive(Debug, PartialEq, Eq)]
pub struct Assignment {
    pub action: Action,
    pub worker_key: WorkerId,
    pub queue_key: String,
    pub job_key: Job,
}

/// Spec model of `Assignment`.
pub struct AssignmentV {
    pub action: Action,
    pub worker_key: Seq<char>,
    pub queue_key: Seq<char>,
    pub job_key: JobV,
}

impl DeepView for Assignment {
    type V = AssignmentV;

    open spec fn deep_view(&self) -> AssignmentV {
        AssignmentV {
            action: self.action,
            worker_key: self.worker_key@,
            queue_key: self.queue_key@,
            job_key: self.job_key.deep_view(),
        }
    }
}

impl Assignment {
    pub fn new(action: Action, worker_key: WorkerId, queue_key: String, job_key: Job) -> (r: Self)
        ensures
            r.deep_view() == (AssignmentV {
                action,
                worker_key: worker_key@,
                queue_key: queue_key@,
                job_key: job_key.deep_view(),
            }),
    {
        Assignment { action, worker_key, queue_key, job_key }
    }
}

/// One entry of a worker's set of held jobs: the queue it came from and the
/// job key.
#[derive(Debug, PartialEq, Eq)]
pub struct PubSubJob {
    pub qk: String,
    pub jk: Job,
}

impl DeepView for PubSubJob {
    type V = (Seq<char>, JobV);

    open spec fn deep_view(&self) -> (Seq<char>, JobV) {
        (self.qk@, self.jk.deep_view())
    }
}

impl Clone for PubSubJob {
    fn clone(&self) -> (r: Self)
        ensures
            r.deep_view() == self.deep_view(),
    {
        PubSubJob { qk: self.qk.clone(), jk: self.jk.clone() }
    }
}

impl PubSubJob {
    pub fn inst(qk: String, jk: Job) -> (r: Self)
        ensures
            r.deep_view() == (qk@, jk.deep_view()),
    {
        PubSubJob { qk, jk }
    }
}

/// A registered worker: its key, the jobs it currently holds, its capacity
/// (`None` is unbounded) and the queues it serves, in declared order.
#[derive(Debug)]
pub struct PubSubWorkerInfo {
    pub key: WorkerId,
    pub current: Vec<PubSubJob>,
    pub capacity: Option<usize>,
    pub queues: Vec<String>,
}

/// Spec model of `PubSubWorkerInfo`.
#[verifier::ext_equal]
pub struct PsWorkerV {
    pub key: Seq<char>,
    pub current: Seq<(Seq<char>, JobV)>,
    pub capacity: Option<usize>,
    pub queues: Seq<Seq<char>>,
}

impl DeepView for PubSubWorkerInfo {
    type V = PsWorkerV;

    open spec fn deep_view(&self) -> PsWorkerV {
        PsWorkerV {
            key: self.key@,
            current: self.current.deep_view(),
            capacity: self.capacity,
            queues: self.queues.deep_view(),
        }
    }
}

/// A worker is ready when it sits below its capacity.
pub open spec fn wk_ready(w: PsWorkerV) -> bool {
    match w.capacity {
        Some(c) => w.current.len() < c,
        None => true,
    }
}

/// The worker holds job `j` (under some queue).
pub open spec fn wk_holds(w: PsWorkerV, j: JobV) -> bool {
    exists|i: int| 0 <= i < w.current.len() && w.current[i].1 == j
}

impl PubSubWorkerInfo {
    /// Whether this worker can take one more job.
    pub fn ready(&self) -> (r: bool)
        ensures
            r == wk_ready(self.deep_view()),
    {
        match self.capacity {
            Some(capacity) => self.current.len() < capacity,
            None => true,
        }
    }
}

/// Spec model of `PubSub`.
#[verifier::ext_equal]
pub struct PubSubV {
    pub workers: Map<Seq<char>, PsWorkerV>,
    pub queues_workers: Map<Seq<char>, Seq<Seq<char>>>,
    pub jobs_workers: Map<JobV, Seq<char>>,
}

/// Structural soundness of the matcher state: every held job is recorded in
/// the assignment map and vice versa, capacities are respected, and the
/// queue-worker sets list exactly the ready workers of each queue.
pub open spec fn ps_inv(ps: PubSubV) -> bool {
    &&& forall|k: Seq<char>| #[trigger]
        ps.workers.contains_key(k) ==> {
            let w = ps.workers[k];
            &&& w.key == k
            &&& (forall|i: int, j: int|
                0 <= i < j < w.current.len() ==> w.current[i].1 != w.current[j].1)
            &&& (match w.capacity {
                Some(c) => w.current.len() <= c,
                None => true,
            })
            &&& (forall|i: int|
                0 <= i < w.current.len() ==> ps.jobs_workers.contains_key(#[trigger] w.current[i].1)
                    && ps.jobs_workers[w.current[i].1] == k)
        }
    &&& forall|j: JobV| #[trigger]
        ps.jobs_workers.contains_key(j) ==> ps.workers.contains_key(ps.jobs_workers[j])
            && wk_holds(ps.workers[ps.jobs_workers[j]], j)
    &&& forall|q: Seq<char>| #[trigger]
        ps.queues_workers.contains_key(q) ==> {
            let ws = ps.queues_workers[q];
            &&& ws.len() > 0
            &&& (forall|i: int, j: int| 0 <= i < j < ws.len() ==> ws[i] != ws[j])
            &&& (forall|i: int|
                0 <= i < ws.len() ==> ps.workers.contains_key(#[trigger] ws[i])
                    && ps.workers[ws[i]].queues.contains(q) && wk_ready(ps.workers[ws[i]]))
        }
    &&& forall|k: Seq<char>| #[trigger]
        ps.workers.contains_key(k) && wk_ready(ps.workers[k]) ==> (forall|qi: int|
            0 <= qi < ps.workers[k].queues.len() ==> {
                let q = #[trigger] ps.workers[k].queues[qi];
                ps.queues_workers.contains_key(q) && ps.queues_workers[q].contains(k)
            })
}

/// The pub/sub matcher: worker registry, per-queue ready-worker lists, and
/// the live job-to-worker assignment map.
#[derive(Debug)]
pub struct PubSub {
    pub workers: Table<WorkerId, PubSubWorkerInfo>,
    pub queues_workers: Table<String, Vec<WorkerId>>,
    pub jobs_workers: Table<Job, WorkerId>,
}

impl View for PubSub {
    type V = PubSubV;

    open spec fn view(&self) -> PubSubV {
        PubSubV {
            workers: self.workers@,
            queues_workers: self.queues_workers@,
            jobs_workers: self.jobs_workers@,
        }
    }
}

impl PubSub {
    /// Tables well formed and the abstract state sound.
    pub open spec fn inv(&self) -> bool {
        &&& self.workers.wf()
        &&& self.queues_workers.wf()
        &&& self.jobs_workers.wf()
        &&& ps_inv(self@)
    }

    pub fn default() -> (r: Self)
        ensures
            r.inv(),
            r@.workers == Map::<Seq<char>, PsWorkerV>::empty(),
            r@.queues_workers == Map::<Seq<char>, Seq<Seq<char>>>::empty(),
            r@.jobs_workers == Map::<JobV, Seq<char>>::empty(),
    {
        PubSub { workers: Table::new(), queues_workers: Table::new(), jobs_workers: Table::new() }
    }
}

/// Clone a vector of strings, keeping its abstract value.
pub(crate) fn clone_str_vec(v: &Vec<String>) -> (r: Vec<String>)
    ensures
        r.deep_view() == v.deep_view(),
{
    let mut r: Vec<String> = Vec::new();
    let mut i: usize = 0;
    while i < v.len()
        invariant
            i <= v@.len(),
            r@.len() == i,
            forall|j: int| 0 <= j < i ==> r@[j]@ == v@[j]@,
        decreases v@.len() - i,
    {
        r.push(v[i].clone());
        i = i + 1;
    }
    proof {
        assert(r.deep_view() =~= v.deep_view());
    }
    r
}

/// Index of a string in a vector, by abstract value.
fn find_str(v: &Vec<String>, k: &String) -> (r: Option<usize>)
    ensures
        match r {
            Some(i) => 0 <= i < v@.len() && v@[i as int]@ == k@,
            None => forall|j: int| 0 <= j < v@.len() ==> v@[j]@ != k@,
        },
{
    let mut i: usize = 0;
    while i < v.len()
        invariant
            i <= v@.len(),
            forall|j: int| 0 <= j < i ==> v@[j]@ != k@,
        decreases v@.len() - i,
    {
        if v[i].eq(k) {
            return Some(i);
        }
        i = i + 1;
    }
    None
}

/// The sequence with the (unique) occurrence of `x` removed, if present.
pub open spec fn seq_drop_one<T>(s: Seq<T>, x: T) -> Seq<T> {
    if s.contains(x) {
        s.remove(s.index_of(x))
    } else {
        s
    }
}

/// Dropping an element of a duplicate-free sequence keeps it duplicate-free
/// and removes every occurrence.
pub proof fn lemma_seq_drop_one_nodup<T>(s: Seq<T>, x: T)
    requires
        forall|i: int, j: int| 0 <= i < j < s.len() ==> s[i] != s[j],
    ensures
        forall|i: int, j: int|
            0 <= i < j < seq_drop_one(s, x).len() ==> seq_drop_one(s, x)[i] != seq_drop_one(
                s,
                x,
            )[j],
        !seq_drop_one(s, x).contains(x),
{
    if s.contains(x) {
        let k = s.index_of(x);
        assert(s[k] == x);
        let r = s.remove(k);
        assert forall|i: int| 0 <= i < r.len() implies r[i] != x by {
            if i < k {
                assert(r[i] == s[i]);
            } else {
                assert(r[i] == s[i + 1]);
            }
        }
        if r.contains(x) {
            let i = choose|i: int| 0 <= i < r.len() && r[i] == x;
        }
    }
}

/// Membership of other elements is unchanged by `seq_drop_one`.
pub proof fn lemma_seq_drop_one_others<T>(s: Seq<T>, x: T, y: T)
    requires
        y != x,
    ensures
        seq_drop_one(s, x).contains(y) <==> s.contains(y),
{
    if s.contains(x) {
        let k = s.index_of(x);
        let r = s.remove(k);
        if r.contains(y) {
            let i = choose|i: int| 0 <= i < r.len() && r[i] == y;
            if i < k {
                assert(s[i] == y);
            } else {
                assert(s[i + 1] == y);
            }
        }
        if s.contains(y) {
            let i = choose|i: int| 0 <= i < s.len() && s[i] == y;
            if i < k {
                assert(r[i] == y);
            } else {
                assert(i != k);
                assert(r[i - 1] == y);
            }
        }
    }
}

/// Removing one index keeps every other element present, and introduces
/// nothing new.
pub proof fn lemma_remove_index_membership<T>(s: Seq<T>, i: int)
    requires
        0 <= i < s.len(),
    ensures
        forall|y: T| #[trigger] s.remove(i).contains(y) ==> s.contains(y),
        forall|j: int| 0 <= j < s.len() && j != i ==> s.remove(i).contains(#[trigger] s[j]),
{
    let r = s.remove(i);
    assert forall|y: T| #[trigger] r.contains(y) implies s.contains(y) by {
        let a = choose|a: int| 0 <= a < r.len() && r[a] == y;
        if a < i {
            assert(s[a] == y);
        } else {
            assert(s[a + 1] == y);
        }
    }
    assert forall|j: int| 0 <= j < s.len() && j != i implies r.contains(#[trigger] s[j]) by {
        if j < i {
            assert(r[j] == s[j]);
        } else {
            assert(r[j - 1] == s[j]);
        }
    }
}

/// Index of the entry holding job `j` in a worker's held list.
pub open spec fn cur_index_of(cur: Seq<(Seq<char>, JobV)>, j: JobV) -> int {
    choose|i: int| 0 <= i < cur.len() && cur[i].1 == j
}

/// A worker's held list with the entry of job `j` dropped.
pub open spec fn cur_drop_job(cur: Seq<(Seq<char>, JobV)>, j: JobV) -> Seq<(Seq<char>, JobV)> {
    if exists|i: int| 0 <= i < cur.len() && cur[i].1 == j {
        cur.remove(cur_index_of(cur, j))
    } else {
        cur
    }
}

/// The set of jobs a worker currently holds.
pub open spec fn cur_jobs(cur: Seq<(Seq<char>, JobV)>) -> Set<JobV> {
    Set::new(|j: JobV| exists|i: int| 0 <= i < cur.len() && cur[i].1 == j)
}

/// Index of the entry with job key `j` in a vector of held jobs.
fn find_job(v: &Vec<PubSubJob>, j: &Job) -> (r: Option<usize>)
    ensures
        match r {
            Some(i) => 0 <= i < v.deep_view().len() && v.deep_view()[i as int].1 == j.deep_view(),
            None => forall|i: int|
                0 <= i < v.deep_view().len() ==> v.deep_view()[i].1 != j.deep_view(),
        },
{
    let mut i: usize = 0;
    while i < v.len()
        invariant
            i <= v@.len(),
            forall|k: int| 0 <= k < i ==> v.deep_view()[k].1 != j.deep_view(),
        decreases v@.len() - i,
    {
        if v[i].jk.key_eq(j) {
            return Some(i);
        }
        i = i + 1;
    }
    None
}

/// Effect of enabling worker `k` on the queues `qs`: `k` is appended to each
/// named queue's worker list unless already present.
pub open spec fn qw_enabled(
    qw: Map<Seq<char>, Seq<Seq<char>>>,
    qs: Seq<Seq<char>>,
    k: Seq<char>,
) -> Map<Seq<char>, Seq<Seq<char>>> {
    Map::new(
        |q: Seq<char>| qw.contains_key(q) || qs.contains(q),
        |q: Seq<char>|
            if qs.contains(q) {
                if qw.contains_key(q) {
                    if qw[q].contains(k) {
                        qw[q]
                    } else {
                        qw[q].push(k)
                    }
                } else {
                    seq![k]
                }
            } else {
                qw[q]
            },
    )
}

/// Effect of disabling worker `k` on the queues `qs`: `k` leaves each named
/// queue's worker list, and lists that become empty disappear.
pub open spec fn qw_disabled(
    qw: Map<Seq<char>, Seq<Seq<char>>>,
    qs: Seq<Seq<char>>,
    k: Seq<char>,
) -> Map<Seq<char>, Seq<Seq<char>>> {
    Map::new(
        |q: Seq<char>|
            qw.contains_key(q) && (qs.contains(q) ==> seq_drop_one(qw[q], k).len() > 0),
        |q: Seq<char>|
            if qs.contains(q) {
                seq_drop_one(qw[q], k)
            } else {
                qw[q]
            },
    )
}

impl PubSub {
    /// Register a worker; if it is ready it becomes enabled on every queue it
    /// declared.
    pub fn add(&mut self, key: WorkerId, capacity: Option<usize>, queues: &Vec<String>)
        requires
            old(self).inv(),
            !old(self)@.workers.contains_key(key@),
        ensures
            final(self).inv(),
            final(self)@.workers == old(self)@.workers.insert(
                key@,
                PsWorkerV {
                    key: key@,
                    current: Seq::empty(),
                    capacity,
                    queues: queues.deep_view(),
                },
            ),
            final(self)@.jobs_workers == old(self)@.jobs_workers,
            final(self)@.queues_workers == (if (match capacity {
                Some(c) => c > 0,
                None => true,
            }) {
                qw_enabled(old(self)@.queues_workers, queues.deep_view(), key@)
            } else {
                old(self)@.queues_workers
            }),
    {
        let ghost old_qw = self@.queues_workers;
        let is_ready = match capacity {
            Some(c) => c > 0,
            None => true,
        };
        let worker = PubSubWorkerInfo {
            key: key.clone(),
            current: Vec::new(),
            capacity,
            queues: clone_str_vec(queues),
        };
        proof {
            assert(worker.deep_view().current =~= Seq::<(Seq<char>, JobV)>::empty());
        }
        self.workers.insert(key.clone(), worker);
        if is_ready {
            self.enable_on(queues, &key);
        }
        proof {
            self.lemma_add_inv(old(self)@, key@, capacity, queues.deep_view(), is_ready);
        }
    }

    /// Append `key` to the worker list of each queue in `qs` where it is not
    /// yet present.
    fn enable_on(&mut self, qs: &Vec<String>, key: &WorkerId)
        requires
            old(self).queues_workers.wf(),
        ensures
            final(self).queues_workers.wf(),
            final(self).workers == old(self).workers,
            final(self).jobs_workers == old(self).jobs_workers,
            final(self)@.queues_workers == qw_enabled(
                old(self)@.queues_workers,
                qs.deep_view(),
                key@,
            ),
    {
        let ghost qsv = qs.deep_view();
        let ghost old_qw = self@.queues_workers;
        let mut qi: usize = 0;
        while qi < qs.len()
            invariant
                qi <= qs@.len(),
                qsv == qs.deep_view(),
                old_qw == old(self)@.queues_workers,
                self.queues_workers.wf(),
                self.workers == old(self).workers,
                self.jobs_workers == old(self).jobs_workers,
                self@.queues_workers == qw_enabled(old_qw, qsv.take(qi as int), key@),
            decreases qs@.len() - qi,
        {
            let ghost n = qi as int;
            let ghost qv = qsv[n];
            let ghost pre = self@.queues_workers;
            let q = &qs[qi];
            match self.queues_workers.remove(q) {
                Some(ws) => {
                    let mut ws = ws;
                    match find_str(&ws, key) {
                        None => {
                            proof {
                                assert(!pre[qv].contains(key@)) by {
                                    if pre[qv].contains(key@) {
                                        let j = choose|j: int|
                                            0 <= j < pre[qv].len() && pre[qv][j] == key@;
                                        assert(ws.deep_view()[j] == key@);
                                    }
                                }
                            }
                            ws.push(key.clone());
                            proof {
                                assert(ws.deep_view() =~= pre[qv].push(key@));
                            }
                        },
                        Some(j) => {
                            proof {
                                assert(pre[qv][j as int] == key@);
                                assert(pre[qv].contains(key@));
                                assert(ws.deep_view() =~= pre[qv]);
                            }
                        },
                    }
                    let ghost wsv = ws.deep_view();
                    self.queues_workers.insert(q.clone(), ws);
                    proof {
                        assert(self@.queues_workers =~= pre.insert(qv, wsv));
                    }
                },
                None => {
                    let mut ws: Vec<WorkerId> = Vec::new();
                    ws.push(key.clone());
                    proof {
                        assert(ws.deep_view() =~= seq![key@]);
                    }
                    let ghost wsv = ws.deep_view();
                    self.queues_workers.insert(q.clone(), ws);
                    proof {
                        assert(self@.queues_workers =~= pre.insert(qv, wsv));
                    }
                },
            }
            proof {
                let post = self@.queues_workers;
                let tn = qsv.take(n);
                let tn1 = qsv.take(n + 1);
                assert(tn1 =~= tn.push(qv));
                assert forall|q2: Seq<char>| #[trigger] tn1.contains(q2) implies (tn.contains(q2)
                    || q2 == qv) by {
                    let i = choose|i: int| 0 <= i < tn1.len() && tn1[i] == q2;
                    if i < n {
                        assert(tn[i] == q2);
                    }
                }
                assert forall|q2: Seq<char>| #[trigger]
                    tn.contains(q2) implies tn1.contains(q2) by {
                    let i = choose|i: int| 0 <= i < tn.len() && tn[i] == q2;
                    assert(tn1[i] == q2);
                }
                assert(tn1[n] == qv);
                assert(tn1.contains(qv));
                // the entry just written matches the pointwise formula
                if pre.contains_key(qv) {
                    if tn.contains(qv) {
                        // processed before: the formula value already holds the key
                        assert(pre[qv] == qw_enabled(old_qw, tn, key@)[qv]);
                        if old_qw.contains_key(qv) && !old_qw[qv].contains(key@) {
                            let w = old_qw[qv].push(key@);
                            assert(w[w.len() - 1] == key@);
                            assert(w.contains(key@));
                        }
                        if !old_qw.contains_key(qv) {
                            assert(seq![key@][0] == key@);
                            assert(seq![key@].contains(key@));
                        }
                        assert(pre[qv].contains(key@));
                    }
                } else {
                    assert(!old_qw.contains_key(qv) && !tn.contains(qv));
                }
                assert(post =~= qw_enabled(old_qw, tn1, key@));
            }
            qi = qi + 1;
        }
        proof {
            assert(qsv.take(qsv.len() as int) =~= qsv);
        }
    }

    /// Take `key` out of the worker list of each queue in `qs`; lists that
    /// become empty disappear.
    fn disable_on(&mut self, qs: &Vec<String>, key: &WorkerId)
        requires
            old(self).queues_workers.wf(),
            forall|q: Seq<char>| #[trigger]
                old(self)@.queues_workers.contains_key(q) ==> (forall|i: int, j: int|
                    0 <= i < j < old(self)@.queues_workers[q].len() ==> old(self)@.queues_workers[q][i] != old(self)@.queues_workers[q][j]),
        ensures
            final(self).queues_workers.wf(),
            final(self).workers == old(self).workers,
            final(self).jobs_workers == old(self).jobs_workers,
            final(self)@.queues_workers == qw_disabled(
                old(self)@.queues_workers,
                qs.deep_view(),
                key@,
            ),
    {
        let ghost qsv = qs.deep_view();
        let ghost old_qw = self@.queues_workers;
        let mut qi: usize = 0;
        while qi < qs.len()
            invariant
                qi <= qs@.len(),
                qsv == qs.deep_view(),
                old_qw == old(self)@.queues_workers,
                forall|q: Seq<char>| #[trigger]
                    old_qw.contains_key(q) ==> (forall|i: int, j: int|
                        0 <= i < j < old_qw[q].len() ==> old_qw[q][i] != old_qw[q][j]),
                self.queues_workers.wf(),
                self.workers == old(self).workers,
                self.jobs_workers == old(self).jobs_workers,
                self@.queues_workers == qw_disabled(old_qw, qsv.take(qi as int), key@),
            decreases qs@.len() - qi,
        {
            let ghost n = qi as int;
            let ghost qv = qsv[n];
            let ghost pre = self@.queues_workers;
            let q = &qs[qi];
            match self.queues_workers.remove(q) {
                Some(ws) => {
                    let mut ws = ws;
                    match find_str(&ws, key) {
                        Some(i) => {
                            proof {
                                // the entry has no duplicate workers, so the
                                // found index is the unique occurrence
                                let dv = pre[qv];
                                if qsv.take(n).contains(qv) {
                                    assert(dv == seq_drop_one(old_qw[qv], key@));
                                    lemma_seq_drop_one_nodup(old_qw[qv], key@);
                                } else {
                                    assert(dv == old_qw[qv]);
                                }
                                assert(forall|a: int, b: int|
                                    0 <= a < b < dv.len() ==> dv[a] != dv[b]);
                                assert(dv[i as int] == key@);
                                assert(dv.contains(key@));
                                let j = dv.index_of(key@);
                                assert(dv[j] == key@);
                                assert(j == i as int);
                            }
                            let _ = ws.remove(i);
                            proof {
                                let dv = pre[qv];
                                assert(ws.deep_view() =~= dv.remove(i as int));
                                assert(ws.deep_view() =~= seq_drop_one(dv, key@));
                            }
                        },
                        None => {
                            proof {
                                assert(!pre[qv].contains(key@)) by {
                                    if pre[qv].contains(key@) {
                                        let j = choose|j: int|
                                            0 <= j < pre[qv].len() && pre[qv][j] == key@;
                                        assert(ws.deep_view()[j] == key@);
                                    }
                                }
                                assert(ws.deep_view() =~= seq_drop_one(pre[qv], key@));
                            }
                        },
                    }
                    let ghost wsv = ws.deep_view();
                    if ws.len() > 0 {
                        self.queues_workers.insert(q.clone(), ws);
                        proof {
                            assert(self@.queues_workers =~= pre.insert(qv, wsv));
                        }
                    } else {
                        proof {
                            assert(self@.queues_workers =~= pre.remove(qv));
                        }
                    }
                },
                None => {
                    proof {
                        assert(self@.queues_workers =~= pre.remove(qv));
                        assert(self@.queues_workers =~= pre);
                    }
                },
            }
            proof {
                let post = self@.queues_workers;
                let tn = qsv.take(n);
                let tn1 = qsv.take(n + 1);
                assert(tn1 =~= tn.push(qv));
                assert forall|q2: Seq<char>| #[trigger] tn1.contains(q2) implies (tn.contains(q2)
                    || q2 == qv) by {
                    let i = choose|i: int| 0 <= i < tn1.len() && tn1[i] == q2;
                    if i < n {
                        assert(tn[i] == q2);
                    }
                }
                assert forall|q2: Seq<char>| #[trigger]
                    tn.contains(q2) implies tn1.contains(q2) by {
                    let i = choose|i: int| 0 <= i < tn.len() && tn[i] == q2;
                    assert(tn1[i] == q2);
                }
                assert(tn1[n] == qv);
                assert(tn1.contains(qv));
                if tn.contains(qv) && old_qw.contains_key(qv) {
                    // a second pass over the same queue finds the key gone
                    lemma_seq_drop_one_nodup(old_qw[qv], key@);
                    assert(!seq_drop_one(old_qw[qv], key@).contains(key@));
                    assert(seq_drop_one(seq_drop_one(old_qw[qv], key@), key@) == seq_drop_one(
                        old_qw[qv],
                        key@,
                    ));
                }
                assert(post =~= qw_disabled(old_qw, tn1, key@));
            }
            qi = qi + 1;
        }
        proof {
            assert(qsv.take(qsv.len() as int) =~= qsv);
        }
    }

    proof fn lemma_add_inv(
        &self,
        old_ps: PubSubV,
        key: Seq<char>,
        capacity: Option<usize>,
        qs: Seq<Seq<char>>,
        is_ready: bool,
    )
        requires
            ps_inv(old_ps),
            !old_ps.workers.contains_key(key),
            is_ready == (match capacity {
                Some(c) => c > 0,
                None => true,
            }),
            self@.workers == old_ps.workers.insert(
                key,
                PsWorkerV { key, current: Seq::empty(), capacity, queues: qs },
            ),
            self@.jobs_workers == old_ps.jobs_workers,
            self@.queues_workers == (if is_ready {
                qw_enabled(old_ps.queues_workers, qs, key)
            } else {
                old_ps.queues_workers
            }),
        ensures
            ps_inv(self@),
    {
        let ps = self@;
        let w = PsWorkerV { key, current: Seq::empty(), capacity, queues: qs };
        assert forall|j: JobV| #[trigger] ps.jobs_workers.contains_key(j) implies
            ps.workers.contains_key(ps.jobs_workers[j]) && wk_holds(
            ps.workers[ps.jobs_workers[j]],
            j,
        ) by {
            assert(old_ps.workers.contains_key(old_ps.jobs_workers[j]));
            assert(ps.jobs_workers[j] == old_ps.jobs_workers[j]);
            assert(ps.jobs_workers[j] != key);
        }
        if is_ready {
            assert forall|q: Seq<char>| #[trigger] ps.queues_workers.contains_key(q) implies {
                let ws = ps.queues_workers[q];
                &&& ws.len() > 0
                &&& (forall|i: int, j: int| 0 <= i < j < ws.len() ==> ws[i] != ws[j])
                &&& (forall|i: int|
                    0 <= i < ws.len() ==> ps.workers.contains_key(#[trigger] ws[i])
                        && ps.workers[ws[i]].queues.contains(q) && wk_ready(ps.workers[ws[i]]))
            } by {
                if qs.contains(q) {
                    if old_ps.queues_workers.contains_key(q) {
                        let ows = old_ps.queues_workers[q];
                        assert(forall|i: int|
                            0 <= i < ows.len() ==> old_ps.workers.contains_key(#[trigger] ows[i]));
                        assert(forall|i: int| 0 <= i < ows.len() ==> ows[i] != key);
                    }
                }
            }
            assert forall|k2: Seq<char>| #[trigger]
                ps.workers.contains_key(k2) && wk_ready(ps.workers[k2]) implies (forall|qi: int|
                0 <= qi < ps.workers[k2].queues.len() ==> {
                    let q = #[trigger] ps.workers[k2].queues[qi];
                    ps.queues_workers.contains_key(q) && ps.queues_workers[q].contains(k2)
                }) by {
                assert forall|qi: int| 0 <= qi < ps.workers[k2].queues.len() implies {
                    let q = #[trigger] ps.workers[k2].queues[qi];
                    ps.queues_workers.contains_key(q) && ps.queues_workers[q].contains(k2)
                } by {
                    let q = ps.workers[k2].queues[qi];
                    if k2 == key {
                        assert(qs.contains(q));
                        if old_ps.queues_workers.contains_key(q) {
                            if old_ps.queues_workers[q].contains(key) {
                                assert(ps.queues_workers[q].contains(key));
                            } else {
                                let ws = old_ps.queues_workers[q].push(key);
                                assert(ws[ws.len() - 1] == key);
                                assert(ps.queues_workers[q].contains(key));
                            }
                        } else {
                            assert(ps.queues_workers[q] == seq![key]);
                            assert(ps.queues_workers[q][0] == key);
                        }
                    } else {
                        assert(old_ps.workers.contains_key(k2) && wk_ready(old_ps.workers[k2]));
                        assert(old_ps.queues_workers.contains_key(q)
                            && old_ps.queues_workers[q].contains(k2));
                        let i = choose|i: int|
                            0 <= i < old_ps.queues_workers[q].len() && old_ps.queues_workers[q][i]
                                == k2;
                        if qs.contains(q) && !old_ps.queues_workers[q].contains(key) {
                            assert(ps.queues_workers[q] == old_ps.queues_workers[q].push(key));
                            assert(ps.queues_workers[q][i] == k2);
                        } else {
                            assert(ps.queues_workers[q] == old_ps.queues_workers[q]);
                        }
                    }
                }
            }
        } else {
            assert forall|k2: Seq<char>| #[trigger]
                ps.workers.contains_key(k2) && wk_ready(ps.workers[k2]) implies (forall|qi: int|
                0 <= qi < ps.workers[k2].queues.len() ==> {
                    let q = #[trigger] ps.workers[k2].queues[qi];
                    ps.queues_workers.contains_key(q) && ps.queues_workers[q].contains(k2)
                }) by {
                assert(k2 != key);
                assert(old_ps.workers.contains_key(k2) && wk_ready(old_ps.workers[k2]));
            }
        }
    }
}

impl PubSub {
    /// Offer job `job_key` of queue `key` to the first ready worker of that
    /// queue, if any: record the assignment, and disable the worker on all
    /// its queues when it thereby reaches its capacity.
    pub fn assign(&mut self, key: &String, job_key: &Job) -> (r: Option<WorkerId>)
        requires
            old(self).inv(),
            !old(self)@.jobs_workers.contains_key(job_key.deep_view()),
        ensures
            final(self).inv(),
            !old(self)@.queues_workers.contains_key(key@) ==> r is None && final(self)@ == old(self)@,
            old(self)@.queues_workers.contains_key(key@) ==> {
                let w = old(self)@.queues_workers[key@][0];
                let w1 = old(self)@.workers[w];
                let w2 = PsWorkerV {
                    key: w1.key,
                    current: w1.current.push((key@, job_key.deep_view())),
                    capacity: w1.capacity,
                    queues: w1.queues,
                };
                &&& r.deep_view() == Some::<Seq<char>>(w)
                &&& final(self)@.workers == old(self)@.workers.insert(w, w2)
                &&& final(self)@.jobs_workers == old(self)@.jobs_workers.insert(
                    job_key.deep_view(),
                    w,
                )
                &&& final(self)@.queues_workers == (if wk_ready(w2) {
                    old(self)@.queues_workers
                } else {
                    qw_disabled(old(self)@.queues_workers, w1.queues, w)
                })
            },
    {
        let ghost ps0 = self@;
        let ghost j = job_key.deep_view();
        let wid_opt: Option<WorkerId> = match self.queues_workers.get(key) {
            Some(ws) => {
                proof {
                    assert(ps0.queues_workers[key@].len() > 0);
                    assert(ws.deep_view() == ps0.queues_workers[key@]);
                }
                Some(ws[0].clone())
            },
            None => None,
        };
        match wid_opt {
            None => {
                proof {
                    assert(final(self)@ == ps0);
                }
                None
            },
            Some(wid) => {
                let ghost wk = wid@;
                proof {
                    assert(ps0.queues_workers.contains_key(key@));
                    assert(wk == ps0.queues_workers[key@][0]);
                    assert(ps0.workers.contains_key(wk) && wk_ready(ps0.workers[wk]));
                }
                let ghost w1 = ps0.workers[wk];
                let ghost w2 = PsWorkerV {
                    key: w1.key,
                    current: w1.current.push((key@, j)),
                    capacity: w1.capacity,
                    queues: w1.queues,
                };
                let mut w = match self.workers.remove(&wid) {
                    Some(w) => w,
                    None => {
                        proof {
                            assert(false);
                        }
                        return None;
                    },
                };
                proof {
                    assert(w.deep_view() == w1);
                }
                w.current.push(PubSubJob::inst(key.clone(), job_key.clone()));
                proof {
                    assert(w.deep_view().current =~= w2.current);
                    assert(w.deep_view() == w2);
                }
                let now_ready = w.ready();
                let wqueues = clone_str_vec(&w.queues);
                self.jobs_workers.insert(job_key.clone(), wid.clone());
                self.workers.insert(wid.clone(), w);
                proof {
                    assert(self@.workers =~= ps0.workers.remove(wk).insert(wk, w2));
                    assert(self@.workers =~= ps0.workers.insert(wk, w2));
                    assert(forall|q2: Seq<char>| #[trigger]
                        self@.queues_workers.contains_key(q2) ==> (forall|a: int, b: int|
                            0 <= a < b < self@.queues_workers[q2].len()
                                ==> self@.queues_workers[q2][a] != self@.queues_workers[q2][b]));
                }
                if !now_ready {
                    self.disable_on(&wqueues, &wid);
                }
                proof {
                    self.lemma_assign_inv(ps0, key@, j, wk);
                }
                Some(wid)
            },
        }
    }

    proof fn lemma_assign_inv(&self, ps0: PubSubV, q: Seq<char>, j: JobV, wk: Seq<char>)
        requires
            ps_inv(ps0),
            !ps0.jobs_workers.contains_key(j),
            ps0.queues_workers.contains_key(q),
            wk == ps0.queues_workers[q][0],
            self@.workers == ps0.workers.insert(
                wk,
                PsWorkerV {
                    key: ps0.workers[wk].key,
                    current: ps0.workers[wk].current.push((q, j)),
                    capacity: ps0.workers[wk].capacity,
                    queues: ps0.workers[wk].queues,
                },
            ),
            self@.jobs_workers == ps0.jobs_workers.insert(j, wk),
            self@.queues_workers == (if wk_ready(
                PsWorkerV {
                    key: ps0.workers[wk].key,
                    current: ps0.workers[wk].current.push((q, j)),
                    capacity: ps0.workers[wk].capacity,
                    queues: ps0.workers[wk].queues,
                },
            ) {
                ps0.queues_workers
            } else {
                qw_disabled(ps0.queues_workers, ps0.workers[wk].queues, wk)
            }),
        ensures
            ps_inv(self@),
    {
        let ps1 = self@;
        let w1 = ps0.workers[wk];
        let w2 = PsWorkerV {
            key: w1.key,
            current: w1.current.push((q, j)),
            capacity: w1.capacity,
            queues: w1.queues,
        };
        assert(ps0.workers.contains_key(wk) && wk_ready(w1));
        assert forall|k: Seq<char>| #[trigger] ps1.workers.contains_key(k) implies {
            let w = ps1.workers[k];
            &&& w.key == k
            &&& (forall|a: int, b: int| 0 <= a < b < w.current.len() ==> w.current[a].1 != w.current[b].1)
            &&& (match w.capacity {
                Some(c) => w.current.len() <= c,
                None => true,
            })
            &&& (forall|i: int|
                0 <= i < w.current.len() ==> ps1.jobs_workers.contains_key(#[trigger] w.current[i].1)
                    && ps1.jobs_workers[w.current[i].1] == k)
        } by {
            if k == wk {
                assert forall|a: int, b: int|
                    0 <= a < b < w2.current.len() implies w2.current[a].1 != w2.current[b].1 by {
                    if b == w2.current.len() - 1 {
                        assert(w2.current[a] == w1.current[a]);
                        assert(ps0.jobs_workers.contains_key(w1.current[a].1));
                    } else {
                        assert(w2.current[a] == w1.current[a]);
                        assert(w2.current[b] == w1.current[b]);
                    }
                }
                assert forall|i: int| 0 <= i < w2.current.len() implies ps1.jobs_workers.contains_key(
                    #[trigger] w2.current[i].1,
                ) && ps1.jobs_workers[w2.current[i].1] == wk by {
                    if i < w2.current.len() - 1 {
                        assert(w2.current[i] == w1.current[i]);
                        assert(ps0.jobs_workers.contains_key(w1.current[i].1));
                        assert(w1.current[i].1 != j);
                    } else {
                        assert(w2.current[i].1 == j);
                    }
                }
            } else {
                assert(ps0.workers.contains_key(k));
                let w = ps0.workers[k];
                assert forall|i: int| 0 <= i < w.current.len() implies ps1.jobs_workers.contains_key(
                    #[trigger] w.current[i].1,
                ) && ps1.jobs_workers[w.current[i].1] == k by {
                    assert(ps0.jobs_workers.contains_key(w.current[i].1));
                    assert(w.current[i].1 != j);
                }
            }
        }
        assert forall|j2: JobV| #[trigger]
            ps1.jobs_workers.contains_key(j2) implies ps1.workers.contains_key(
            ps1.jobs_workers[j2],
        ) && wk_holds(ps1.workers[ps1.jobs_workers[j2]], j2) by {
            if j2 == j {
                assert(ps1.workers[wk] == w2);
                assert(w2.current[w2.current.len() - 1].1 == j);
                assert(wk_holds(w2, j));
            } else {
                let k2 = ps0.jobs_workers[j2];
                assert(ps0.workers.contains_key(k2) && wk_holds(ps0.workers[k2], j2));
                if k2 == wk {
                    let i = choose|i: int| 0 <= i < w1.current.len() && w1.current[i].1 == j2;
                    assert(w2.current[i].1 == j2);
                    assert(wk_holds(w2, j2));
                }
            }
        }
        if wk_ready(w2) {
            assert(ps1.queues_workers == ps0.queues_workers);
            assert forall|q2: Seq<char>| #[trigger] ps1.queues_workers.contains_key(q2) implies {
                let ws = ps1.queues_workers[q2];
                &&& ws.len() > 0
                &&& (forall|a: int, b: int| 0 <= a < b < ws.len() ==> ws[a] != ws[b])
                &&& (forall|i: int|
                    0 <= i < ws.len() ==> ps1.workers.contains_key(#[trigger] ws[i])
                        && ps1.workers[ws[i]].queues.contains(q2) && wk_ready(ps1.workers[ws[i]]))
            } by {
                let ws = ps0.queues_workers[q2];
                assert forall|i: int| 0 <= i < ws.len() implies ps1.workers.contains_key(
                    #[trigger] ws[i],
                ) && ps1.workers[ws[i]].queues.contains(q2) && wk_ready(ps1.workers[ws[i]]) by {
                    assert(ps0.workers.contains_key(ws[i]));
                    if ws[i] == wk {
                        assert(ps1.workers[wk] == w2);
                    }
                }
            }
            assert forall|k: Seq<char>| #[trigger]
                ps1.workers.contains_key(k) && wk_ready(ps1.workers[k]) implies (forall|qi: int|
                0 <= qi < ps1.workers[k].queues.len() ==> {
                    let q2 = #[trigger] ps1.workers[k].queues[qi];
                    ps1.queues_workers.contains_key(q2) && ps1.queues_workers[q2].contains(k)
                }) by {
                if k == wk {
                    assert(ps0.workers.contains_key(wk) && wk_ready(w1));
                    assert(w2.queues == w1.queues);
                } else {
                    assert(ps0.workers.contains_key(k) && wk_ready(ps0.workers[k]));
                }
            }
        } else {
            let qw1 = qw_disabled(ps0.queues_workers, w1.queues, wk);
            assert(ps1.queues_workers == qw1);
            assert forall|q2: Seq<char>| #[trigger] ps1.queues_workers.contains_key(q2) implies {
                let ws = ps1.queues_workers[q2];
                &&& ws.len() > 0
                &&& (forall|a: int, b: int| 0 <= a < b < ws.len() ==> ws[a] != ws[b])
                &&& (forall|i: int|
                    0 <= i < ws.len() ==> ps1.workers.contains_key(#[trigger] ws[i])
                        && ps1.workers[ws[i]].queues.contains(q2) && wk_ready(ps1.workers[ws[i]]))
            } by {
                assert(ps0.queues_workers.contains_key(q2));
                let ws0 = ps0.queues_workers[q2];
                let ws = ps1.queues_workers[q2];
                if w1.queues.contains(q2) {
                    assert(ws == seq_drop_one(ws0, wk));
                    lemma_seq_drop_one_nodup(ws0, wk);
                } else {
                    assert(ws == ws0);
                }
                assert forall|i: int| 0 <= i < ws.len() implies ps1.workers.contains_key(
                    #[trigger] ws[i],
                ) && ps1.workers[ws[i]].queues.contains(q2) && wk_ready(ps1.workers[ws[i]]) by {
                    assert(ws.contains(ws[i]));
                    if w1.queues.contains(q2) {
                        lemma_seq_drop_one_nodup(ws0, wk);
                        assert(ws[i] != wk);
                        lemma_seq_drop_one_others(ws0, wk, ws[i]);
                        assert(ws0.contains(ws[i]));
                    } else {
                        assert(ws0.contains(ws[i]));
                        if ws[i] == wk {
                            assert(ps0.workers[wk].queues.contains(q2));
                        }
                        assert(ws[i] != wk);
                    }
                    let i0 = choose|a: int| 0 <= a < ws0.len() && ws0[a] == ws[i];
                    assert(ps0.workers.contains_key(ws0[i0]));
                }
            }
            assert forall|k: Seq<char>| #[trigger]
                ps1.workers.contains_key(k) && wk_ready(ps1.workers[k]) implies (forall|qi: int|
                0 <= qi < ps1.workers[k].queues.len() ==> {
                    let q2 = #[trigger] ps1.workers[k].queues[qi];
                    ps1.queues_workers.contains_key(q2) && ps1.queues_workers[q2].contains(k)
                }) by {
                assert(k != wk);
                assert(ps0.workers.contains_key(k) && wk_ready(ps0.workers[k]));
                assert(ps1.workers[k] == ps0.workers[k]);
                assert forall|qi: int| 0 <= qi < ps1.workers[k].queues.len() implies {
                    let q2 = #[trigger] ps1.workers[k].queues[qi];
                    ps1.queues_workers.contains_key(q2) && ps1.queues_workers[q2].contains(k)
                } by {
                    let q2 = ps1.workers[k].queues[qi];
                    assert(ps0.queues_workers.contains_key(q2) && ps0.queues_workers[q2].contains(
                        k,
                    ));
                    if w1.queues.contains(q2) {
                        lemma_seq_drop_one_others(ps0.queues_workers[q2], wk, k);
                        assert(seq_drop_one(ps0.queues_workers[q2], wk).contains(k));
                        let a = choose|a: int|
                            0 <= a < seq_drop_one(ps0.queues_workers[q2], wk).len()
                                && seq_drop_one(ps0.queues_workers[q2], wk)[a] == k;
                        assert(seq_drop_one(ps0.queues_workers[q2], wk).len() > 0);
                    }
                }
            }
        }
    }
}

impl PubSub {
    /// Give back job `job_key`: drop the assignment, and re-enable the
    /// worker on its queues if the freed slot brings it back below capacity.
    pub fn resign(&mut self, key: &String, job_key: &Job) -> (r: Option<WorkerId>)
        requires
            old(self).inv(),
        ensures
            final(self).inv(),
            !old(self)@.jobs_workers.contains_key(job_key.deep_view()) ==> r is None
                && final(self)@ == old(self)@,
            old(self)@.jobs_workers.contains_key(job_key.deep_view()) ==> {
                let wk = old(self)@.jobs_workers[job_key.deep_view()];
                let w1 = old(self)@.workers[wk];
                let w2 = PsWorkerV {
                    key: w1.key,
                    current: cur_drop_job(w1.current, job_key.deep_view()),
                    capacity: w1.capacity,
                    queues: w1.queues,
                };
                &&& r.deep_view() == Some::<Seq<char>>(wk)
                &&& final(self)@.workers == old(self)@.workers.insert(wk, w2)
                &&& final(self)@.jobs_workers == old(self)@.jobs_workers.remove(
                    job_key.deep_view(),
                )
                &&& final(self)@.queues_workers == (if !wk_ready(w1) {
                    qw_enabled(old(self)@.queues_workers, w1.queues, wk)
                } else {
                    old(self)@.queues_workers
                })
            },
    {
        let ghost ps0 = self@;
        let ghost j = job_key.deep_view();
        match self.jobs_workers.remove(job_key) {
            None => {
                proof {
                    assert(self@.jobs_workers =~= ps0.jobs_workers);
                    assert(self@ =~= ps0);
                }
                None
            },
            Some(wid) => {
                let ghost wk = wid@;
                proof {
                    assert(ps0.workers.contains_key(wk) && wk_holds(ps0.workers[wk], j));
                }
                let ghost w1 = ps0.workers[wk];
                let mut w = match self.workers.remove(&wid) {
                    Some(w) => w,
                    None => {
                        proof {
                            assert(false);
                        }
                        return None;
                    },
                };
                proof {
                    assert(w.deep_view() == w1);
                }
                let was_full = !w.ready();
                match find_job(&w.current, job_key) {
                    Some(i) => {
                        proof {
                            let c = w1.current;
                            let i0 = cur_index_of(c, j);
                            assert(c[i0].1 == j);
                            assert(c[i as int].1 == j);
                            assert(i0 == i as int);
                        }
                        let _ = w.current.remove(i);
                        proof {
                            assert(w.deep_view().current =~= cur_drop_job(w1.current, j));
                        }
                    },
                    None => {
                        proof {
                            let i0 = choose|i0: int|
                                0 <= i0 < w1.current.len() && w1.current[i0].1 == j;
                            assert(w.deep_view().current[i0].1 == j);
                            assert(false);
                        }
                    },
                }
                let ghost w2 = w.deep_view();
                let wqueues = clone_str_vec(&w.queues);
                self.workers.insert(wid.clone(), w);
                proof {
                    assert(self@.workers =~= ps0.workers.insert(wk, w2));
                    assert(self@.jobs_workers =~= ps0.jobs_workers.remove(j));
                    assert(forall|q2: Seq<char>| #[trigger]
                        self@.queues_workers.contains_key(q2) ==> (forall|a: int, b: int|
                            0 <= a < b < self@.queues_workers[q2].len()
                                ==> self@.queues_workers[q2][a] != self@.queues_workers[q2][b]));
                }
                if was_full {
                    self.enable_on(&wqueues, &wid);
                }
                proof {
                    self.lemma_resign_inv(ps0, j, wk);
                }
                Some(wid)
            },
        }
    }

    proof fn lemma_resign_inv(&self, ps0: PubSubV, j: JobV, wk: Seq<char>)
        requires
            ps_inv(ps0),
            ps0.jobs_workers.contains_key(j),
            wk == ps0.jobs_workers[j],
            self@.workers == ps0.workers.insert(
                wk,
                PsWorkerV {
                    key: ps0.workers[wk].key,
                    current: cur_drop_job(ps0.workers[wk].current, j),
                    capacity: ps0.workers[wk].capacity,
                    queues: ps0.workers[wk].queues,
                },
            ),
            self@.jobs_workers == ps0.jobs_workers.remove(j),
            self@.queues_workers == (if !wk_ready(ps0.workers[wk]) {
                qw_enabled(ps0.queues_workers, ps0.workers[wk].queues, wk)
            } else {
                ps0.queues_workers
            }),
        ensures
            ps_inv(self@),
    {
        let ps1 = self@;
        let w1 = ps0.workers[wk];
        let w2 = PsWorkerV {
            key: w1.key,
            current: cur_drop_job(w1.current, j),
            capacity: w1.capacity,
            queues: w1.queues,
        };
        assert(ps0.workers.contains_key(wk) && wk_holds(w1, j));
        let di = cur_index_of(w1.current, j);
        assert(0 <= di < w1.current.len() && w1.current[di].1 == j);
        assert(w2.current == w1.current.remove(di));
        lemma_remove_index_membership(w1.current, di);
        // the freed slot makes the worker ready
        assert(wk_ready(w2));
        assert forall|k: Seq<char>| #[trigger] ps1.workers.contains_key(k) implies {
            let w = ps1.workers[k];
            &&& w.key == k
            &&& (forall|a: int, b: int| 0 <= a < b < w.current.len() ==> w.current[a].1 != w.current[b].1)
            &&& (match w.capacity {
                Some(c) => w.current.len() <= c,
                None => true,
            })
            &&& (forall|i: int|
                0 <= i < w.current.len() ==> ps1.jobs_workers.contains_key(#[trigger] w.current[i].1)
                    && ps1.jobs_workers[w.current[i].1] == k)
        } by {
            if k == wk {
                assert forall|a: int, b: int|
                    0 <= a < b < w2.current.len() implies w2.current[a].1 != w2.current[b].1 by {
                    let a0: int = if a < di {
                        a
                    } else {
                        a + 1
                    };
                    let b0: int = if b < di {
                        b
                    } else {
                        b + 1
                    };
                    assert(w2.current[a] == w1.current[a0]);
                    assert(w2.current[b] == w1.current[b0]);
                }
                assert forall|i: int| 0 <= i < w2.current.len() implies ps1.jobs_workers.contains_key(
                    #[trigger] w2.current[i].1,
                ) && ps1.jobs_workers[w2.current[i].1] == wk by {
                    let i0: int = if i < di {
                        i
                    } else {
                        i + 1
                    };
                    assert(w2.current[i] == w1.current[i0]);
                    assert(ps0.jobs_workers.contains_key(w1.current[i0].1));
                    assert(w1.current[i0].1 != j);
                }
            } else {
                assert(ps0.workers.contains_key(k));
                let w = ps0.workers[k];
                assert forall|i: int| 0 <= i < w.current.len() implies ps1.jobs_workers.contains_key(
                    #[trigger] w.current[i].1,
                ) && ps1.jobs_workers[w.current[i].1] == k by {
                    assert(ps0.jobs_workers.contains_key(w.current[i].1));
                    assert(ps0.jobs_workers[w.current[i].1] == k);
                    assert(w.current[i].1 != j);
                }
            }
        }
        assert forall|j2: JobV| #[trigger]
            ps1.jobs_workers.contains_key(j2) implies ps1.workers.contains_key(
            ps1.jobs_workers[j2],
        ) && wk_holds(ps1.workers[ps1.jobs_workers[j2]], j2) by {
            let k2 = ps0.jobs_workers[j2];
            assert(ps0.workers.contains_key(k2) && wk_holds(ps0.workers[k2], j2));
            if k2 == wk {
                let i = choose|i: int| 0 <= i < w1.current.len() && w1.current[i].1 == j2;
                assert(j2 != j);
                assert(i != di);
                let i2: int = if i < di {
                    i
                } else {
                    i - 1
                };
                assert(w2.current[i2] == w1.current[i]);
                assert(wk_holds(w2, j2));
            }
        }
        if !wk_ready(w1) {
            let qw1 = qw_enabled(ps0.queues_workers, w1.queues, wk);
            assert(ps1.queues_workers == qw1);
            assert forall|q2: Seq<char>| #[trigger] ps1.queues_workers.contains_key(q2) implies {
                let ws = ps1.queues_workers[q2];
                &&& ws.len() > 0
                &&& (forall|a: int, b: int| 0 <= a < b < ws.len() ==> ws[a] != ws[b])
                &&& (forall|i: int|
                    0 <= i < ws.len() ==> ps1.workers.contains_key(#[trigger] ws[i])
                        && ps1.workers[ws[i]].queues.contains(q2) && wk_ready(ps1.workers[ws[i]]))
            } by {
                let ws = ps1.queues_workers[q2];
                if w1.queues.contains(q2) {
                    if ps0.queues_workers.contains_key(q2) {
                        let ws0 = ps0.queues_workers[q2];
                        // the disabled worker is not listed while full
                        assert(!ws0.contains(wk)) by {
                            if ws0.contains(wk) {
                                let a = choose|a: int| 0 <= a < ws0.len() && ws0[a] == wk;
                                assert(wk_ready(ps0.workers[ws0[a]]));
                            }
                        }
                        assert(ws == ws0.push(wk));
                        assert forall|a: int, b: int|
                            0 <= a < b < ws.len() implies ws[a] != ws[b] by {
                            if b == ws.len() - 1 {
                                assert(ws[a] == ws0[a]);
                                assert(!ws0.contains(wk) && ws0.contains(ws0[a]));
                            }
                        }
                        assert forall|i: int| 0 <= i < ws.len() implies ps1.workers.contains_key(
                            #[trigger] ws[i],
                        ) && ps1.workers[ws[i]].queues.contains(q2) && wk_ready(
                            ps1.workers[ws[i]],
                        ) by {
                            if i < ws.len() - 1 {
                                assert(ws[i] == ws0[i]);
                                assert(ps0.workers.contains_key(ws0[i]) && wk_ready(
                                    ps0.workers[ws0[i]],
                                ));
                                assert(ws0[i] != wk);
                            } else {
                                assert(ws[i] == wk);
                                assert(ps1.workers[wk] == w2);
                            }
                        }
                    } else {
                        assert(ws == seq![wk]);
                        assert(ws[0] == wk);
                        assert(ps1.workers[wk] == w2);
                    }
                } else {
                    assert(ps0.queues_workers.contains_key(q2));
                    let ws0 = ps0.queues_workers[q2];
                    assert(ws == ws0);
                    assert forall|i: int| 0 <= i < ws.len() implies ps1.workers.contains_key(
                        #[trigger] ws[i],
                    ) && ps1.workers[ws[i]].queues.contains(q2) && wk_ready(ps1.workers[ws[i]]) by {
                        assert(ps0.workers.contains_key(ws0[i]) && wk_ready(ps0.workers[ws0[i]]));
                        if ws[i] == wk {
                            assert(ps0.workers[wk].queues.contains(q2));
                        }
                        assert(ws[i] != wk);
                    }
                }
            }
            assert forall|k: Seq<char>| #[trigger]
                ps1.workers.contains_key(k) && wk_ready(ps1.workers[k]) implies (forall|qi: int|
                0 <= qi < ps1.workers[k].queues.len() ==> {
                    let q2 = #[trigger] ps1.workers[k].queues[qi];
                    ps1.queues_workers.contains_key(q2) && ps1.queues_workers[q2].contains(k)
                }) by {
                assert forall|qi: int| 0 <= qi < ps1.workers[k].queues.len() implies {
                    let q2 = #[trigger] ps1.workers[k].queues[qi];
                    ps1.queues_workers.contains_key(q2) && ps1.queues_workers[q2].contains(k)
                } by {
                    let q2 = ps1.workers[k].queues[qi];
                    if k == wk {
                        assert(w2.queues == w1.queues);
                        assert(w1.queues.contains(q2)) by {
                            assert(w1.queues[qi] == q2);
                        }
                        if ps0.queues_workers.contains_key(q2) {
                            if ps0.queues_workers[q2].contains(wk) {
                                assert(ps1.queues_workers[q2].contains(wk));
                            } else {
                                let ws = ps0.queues_workers[q2].push(wk);
                                assert(ws[ws.len() - 1] == wk);
                                assert(ps1.queues_workers[q2].contains(wk));
                            }
                        } else {
                            assert(ps1.queues_workers[q2] == seq![wk]);
                            assert(ps1.queues_workers[q2][0] == wk);
                        }
                    } else {
                        assert(ps0.workers.contains_key(k) && wk_ready(ps0.workers[k]));
                        assert(ps0.queues_workers.contains_key(q2)
                            && ps0.queues_workers[q2].contains(k));
                        let a = choose|a: int|
                            0 <= a < ps0.queues_workers[q2].len() && ps0.queues_workers[q2][a]
                                == k;
                        if w1.queues.contains(q2) && !ps0.queues_workers[q2].contains(wk) {
                            assert(ps1.queues_workers[q2] == ps0.queues_workers[q2].push(wk));
                            assert(ps1.queues_workers[q2][a] == k);
                        } else {
                            assert(ps1.queues_workers[q2] == ps0.queues_workers[q2]);
                        }
                    }
                }
            }
        } else {
            assert(ps1.queues_workers == ps0.queues_workers);
            assert forall|q2: Seq<char>| #[trigger] ps1.queues_workers.contains_key(q2) implies {
                let ws = ps1.queues_workers[q2];
                &&& ws.len() > 0
                &&& (forall|a: int, b: int| 0 <= a < b < ws.len() ==> ws[a] != ws[b])
                &&& (forall|i: int|
                    0 <= i < ws.len() ==> ps1.workers.contains_key(#[trigger] ws[i])
                        && ps1.workers[ws[i]].queues.contains(q2) && wk_ready(ps1.workers[ws[i]]))
            } by {
                let ws = ps0.queues_workers[q2];
                assert forall|i: int| 0 <= i < ws.len() implies ps1.workers.contains_key(
                    #[trigger] ws[i],
                ) && ps1.workers[ws[i]].queues.contains(q2) && wk_ready(ps1.workers[ws[i]]) by {
                    assert(ps0.workers.contains_key(ws[i]));
                    if ws[i] == wk {
                        assert(ps1.workers[wk] == w2);
                    }
                }
            }
            assert forall|k: Seq<char>| #[trigger]
                ps1.workers.contains_key(k) && wk_ready(ps1.workers[k]) implies (forall|qi: int|
                0 <= qi < ps1.workers[k].queues.len() ==> {
                    let q2 = #[trigger] ps1.workers[k].queues[qi];
                    ps1.queues_workers.contains_key(q2) && ps1.queues_workers[q2].contains(k)
                }) by {
                if k == wk {
                    assert(wk_ready(w1));
                    assert(w2.queues == w1.queues);
                } else {
                    assert(ps0.workers.contains_key(k) && wk_ready(ps0.workers[k]));
                }
            }
        }
    }
}

impl PubSub {
    /// Unregister a worker: it leaves every queue-worker list, its held jobs
    /// leave the assignment map, and they are returned as `(queue, job)`
    /// pairs in the order the worker received them.
    pub fn remove(&mut self, key: &WorkerId) -> (r: Option<Vec<(String, Job)>>)
        requires
            old(self).inv(),
        ensures
            final(self).inv(),
            !old(self)@.workers.contains_key(key@) ==> r is None && final(self)@ == old(self)@,
            old(self)@.workers.contains_key(key@) ==> {
                let w1 = old(self)@.workers[key@];
                &&& r matches Some(out) && out.deep_view() == w1.current
                &&& final(self)@.workers == old(self)@.workers.remove(key@)
                &&& final(self)@.queues_workers == qw_disabled(
                    old(self)@.queues_workers,
                    w1.queues,
                    key@,
                )
                &&& final(self)@.jobs_workers == old(self)@.jobs_workers.remove_keys(
                    cur_jobs(w1.current),
                )
            },
    {
        let ghost ps0 = self@;
        match self.workers.remove(key) {
            None => {
                proof {
                    assert(self@.workers =~= ps0.workers);
                    assert(self@ =~= ps0);
                }
                None
            },
            Some(w) => {
                let ghost wk = key@;
                let ghost w1 = ps0.workers[wk];
                proof {
                    assert(w.deep_view() == w1);
                    assert(forall|q2: Seq<char>| #[trigger]
                        self@.queues_workers.contains_key(q2) ==> (forall|a: int, b: int|
                            0 <= a < b < self@.queues_workers[q2].len()
                                ==> self@.queues_workers[q2][a] != self@.queues_workers[q2][b]));
                }
                let wqueues = clone_str_vec(&w.queues);
                self.disable_on(&wqueues, key);
                let ghost jobs0 = ps0.jobs_workers;
                let ghost wkrs_mid = self.workers;
                let ghost qws_mid = self.queues_workers;
                let mut out: Vec<(String, Job)> = Vec::new();
                let mut i: usize = 0;
                while i < w.current.len()
                    invariant
                        i <= w.current@.len(),
                        w.deep_view() == w1,
                        self.workers == wkrs_mid,
                        self.queues_workers == qws_mid,
                        self.jobs_workers.wf(),
                        self@.jobs_workers == jobs0.remove_keys(
                            cur_jobs(w1.current.take(i as int)),
                        ),
                        out.deep_view() == w1.current.take(i as int),
                    decreases w.current@.len() - i,
                {
                    let ghost pre = self@.jobs_workers;
                    let e = &w.current[i];
                    let _ = self.jobs_workers.remove(&e.jk);
                    out.push((e.qk.clone(), e.jk.clone()));
                    i = i + 1;
                    proof {
                        let tn = w1.current.take(i - 1);
                        let tn1 = w1.current.take(i as int);
                        assert(tn1 =~= tn.push(w1.current[i - 1]));
                        assert forall|j2: JobV| #[trigger]
                            cur_jobs(tn1).contains(j2) implies (cur_jobs(tn).contains(j2) || j2
                            == w1.current[i - 1].1) by {
                            let a = choose|a: int| 0 <= a < tn1.len() && tn1[a].1 == j2;
                            if a < i - 1 {
                                assert(tn[a].1 == j2);
                            }
                        }
                        assert forall|j2: JobV| #[trigger]
                            cur_jobs(tn).contains(j2) implies cur_jobs(tn1).contains(j2) by {
                            let a = choose|a: int| 0 <= a < tn.len() && tn[a].1 == j2;
                            assert(tn1[a].1 == j2);
                        }
                        assert(tn1[i - 1].1 == w1.current[i - 1].1);
                        assert(cur_jobs(tn1).contains(w1.current[i - 1].1));
                        assert(self@.jobs_workers =~= jobs0.remove_keys(cur_jobs(tn1)));
                        assert(out.deep_view() =~= tn1);
                    }
                }
                proof {
                    assert(w1.current.take(w1.current.len() as int) =~= w1.current);
                    self.lemma_ps_remove_inv(ps0, wk);
                }
                Some(out)
            },
        }
    }

    proof fn lemma_ps_remove_inv(&self, ps0: PubSubV, wk: Seq<char>)
        requires
            ps_inv(ps0),
            ps0.workers.contains_key(wk),
            self@.workers == ps0.workers.remove(wk),
            self@.queues_workers == qw_disabled(
                ps0.queues_workers,
                ps0.workers[wk].queues,
                wk,
            ),
            self@.jobs_workers == ps0.jobs_workers.remove_keys(cur_jobs(ps0.workers[wk].current)),
        ensures
            ps_inv(self@),
    {
        let ps1 = self@;
        let w1 = ps0.workers[wk];
        assert forall|k: Seq<char>| #[trigger] ps1.workers.contains_key(k) implies {
            let w = ps1.workers[k];
            &&& w.key == k
            &&& (forall|a: int, b: int| 0 <= a < b < w.current.len() ==> w.current[a].1 != w.current[b].1)
            &&& (match w.capacity {
                Some(c) => w.current.len() <= c,
                None => true,
            })
            &&& (forall|i: int|
                0 <= i < w.current.len() ==> ps1.jobs_workers.contains_key(#[trigger] w.current[i].1)
                    && ps1.jobs_workers[w.current[i].1] == k)
        } by {
            assert(k != wk);
            assert(ps0.workers.contains_key(k));
            let w = ps0.workers[k];
            assert forall|i: int| 0 <= i < w.current.len() implies ps1.jobs_workers.contains_key(
                #[trigger] w.current[i].1,
            ) && ps1.jobs_workers[w.current[i].1] == k by {
                assert(ps0.jobs_workers.contains_key(w.current[i].1));
                assert(ps0.jobs_workers[w.current[i].1] == k);
                assert(!cur_jobs(w1.current).contains(w.current[i].1)) by {
                    if cur_jobs(w1.current).contains(w.current[i].1) {
                        let a = choose|a: int|
                            0 <= a < w1.current.len() && w1.current[a].1 == w.current[i].1;
                        assert(ps0.jobs_workers[w1.current[a].1] == wk);
                    }
                }
            }
        }
        assert forall|j2: JobV| #[trigger]
            ps1.jobs_workers.contains_key(j2) implies ps1.workers.contains_key(
            ps1.jobs_workers[j2],
        ) && wk_holds(ps1.workers[ps1.jobs_workers[j2]], j2) by {
            assert(ps0.jobs_workers.contains_key(j2));
            let k2 = ps0.jobs_workers[j2];
            assert(ps0.workers.contains_key(k2) && wk_holds(ps0.workers[k2], j2));
            assert(k2 != wk) by {
                if k2 == wk {
                    let a = choose|a: int| 0 <= a < w1.current.len() && w1.current[a].1 == j2;
                    assert(cur_jobs(w1.current).contains(j2));
                }
            }
        }
        assert forall|q2: Seq<char>| #[trigger] ps1.queues_workers.contains_key(q2) implies {
            let ws = ps1.queues_workers[q2];
            &&& ws.len() > 0
            &&& (forall|a: int, b: int| 0 <= a < b < ws.len() ==> ws[a] != ws[b])
            &&& (forall|i: int|
                0 <= i < ws.len() ==> ps1.workers.contains_key(#[trigger] ws[i])
                    && ps1.workers[ws[i]].queues.contains(q2) && wk_ready(ps1.workers[ws[i]]))
        } by {
            assert(ps0.queues_workers.contains_key(q2));
            let ws0 = ps0.queues_workers[q2];
            let ws = ps1.queues_workers[q2];
            if w1.queues.contains(q2) {
                assert(ws == seq_drop_one(ws0, wk));
                lemma_seq_drop_one_nodup(ws0, wk);
            } else {
                assert(ws == ws0);
            }
            assert forall|i: int| 0 <= i < ws.len() implies ps1.workers.contains_key(
                #[trigger] ws[i],
            ) && ps1.workers[ws[i]].queues.contains(q2) && wk_ready(ps1.workers[ws[i]]) by {
                assert(ws.contains(ws[i]));
                if w1.queues.contains(q2) {
                    lemma_seq_drop_one_nodup(ws0, wk);
                    assert(ws[i] != wk);
                    lemma_seq_drop_one_others(ws0, wk, ws[i]);
                    assert(ws0.contains(ws[i]));
                } else {
                    assert(ws0.contains(ws[i]));
                    if ws[i] == wk {
                        assert(ps0.workers[wk].queues.contains(q2));
                    }
                    assert(ws[i] != wk);
                }
                let a = choose|a: int| 0 <= a < ws0.len() && ws0[a] == ws[i];
                assert(ps0.workers.contains_key(ws0[a]));
            }
        }
        assert forall|k: Seq<char>| #[trigger]
            ps1.workers.contains_key(k) && wk_ready(ps1.workers[k]) implies (forall|qi: int|
            0 <= qi < ps1.workers[k].queues.len() ==> {
                let q2 = #[trigger] ps1.workers[k].queues[qi];
                ps1.queues_workers.contains_key(q2) && ps1.queues_workers[q2].contains(k)
            }) by {
            assert(k != wk);
            assert(ps0.workers.contains_key(k) && wk_ready(ps0.workers[k]));
            assert forall|qi: int| 0 <= qi < ps1.workers[k].queues.len() implies {
                let q2 = #[trigger] ps1.workers[k].queues[qi];
                ps1.queues_workers.contains_key(q2) && ps1.queues_workers[q2].contains(k)
            } by {
                let q2 = ps1.workers[k].queues[qi];
                assert(ps0.queues_workers.contains_key(q2) && ps0.queues_workers[q2].contains(k));
                if w1.queues.contains(q2) {
                    lemma_seq_drop_one_others(ps0.queues_workers[q2], wk, k);
                    assert(seq_drop_one(ps0.queues_workers[q2], wk).contains(k));
                    let a = choose|a: int|
                        0 <= a < seq_drop_one(ps0.queues_workers[q2], wk).len() && seq_drop_one(
                            ps0.queues_workers[q2],
                            wk,
                        )[a] == k;
                    assert(seq_drop_one(ps0.queues_workers[q2], wk).len() > 0);
                }
            }
        }
    }
}

/// Spec model of `MultiQueue`.
#[verifier::ext_equal]
pub struct MultiQueueV {
    pub queues: Map<Seq<char>, Seq<JobV>>,
    pub pending: Map<JobV, Seq<char>>,
    pub pubsub: PubSubV,
    pub worker_queues: Map<Seq<char>, Seq<Seq<char>>>,
}

/// A job is known to the scheduler: waiting in a queue or assigned.
pub open spec fn mq_has_job(m: MultiQueueV, j: JobV) -> bool {
    m.pending.contains_key(j) || m.pubsub.jobs_workers.contains_key(j)
}

/// Structural soundness of the whole scheduler: the matcher is sound, the
/// declared-queue table mirrors the registry, every queued job is recorded as
/// pending exactly once, and no job is both pending and assigned.
pub open spec fn mq_inv(m: MultiQueueV) -> bool {
    &&& ps_inv(m.pubsub)
    &&& m.worker_queues.dom() == m.pubsub.workers.dom()
    &&& forall|k: Seq<char>| #[trigger]
        m.pubsub.workers.contains_key(k) ==> m.worker_queues[k] == m.pubsub.workers[k].queues
    &&& forall|q: Seq<char>| #[trigger]
        m.queues.contains_key(q) ==> {
            let js = m.queues[q];
            &&& (forall|a: int, b: int| 0 <= a < b < js.len() ==> js[a] != js[b])
            &&& (forall|i: int|
                0 <= i < js.len() ==> m.pending.contains_key(#[trigger] js[i]) && m.pending[js[i]]
                    == q)
        }
    &&& forall|j: JobV| #[trigger]
        m.pending.contains_key(j) ==> m.queues.contains_key(m.pending[j])
            && m.queues[m.pending[j]].contains(j)
    &&& forall|j: JobV| #[trigger]
        m.pending.contains_key(j) ==> !m.pubsub.jobs_workers.contains_key(j)
}

/// The multi-queue scheduler: per-opcode FIFO queues of pending jobs over the
/// pub/sub matcher.
#[derive(Debug)]
pub struct MultiQueue {
    pub queues: Table<String, Vec<Job>>,
    pub pending: Table<Job, String>,
    pub pubsub: PubSub,
    pub worker_queues: Table<WorkerId, Vec<String>>,
}

impl View for MultiQueue {
    type V = MultiQueueV;

    open spec fn view(&self) -> MultiQueueV {
        MultiQueueV {
            queues: self.queues@,
            pending: self.pending@,
            pubsub: self.pubsub@,
            worker_queues: self.worker_queues@,
        }
    }
}

impl MultiQueue {
    pub open spec fn inv(&self) -> bool {
        &&& self.queues.wf()
        &&& self.pending.wf()
        &&& self.pubsub.inv()
        &&& self.worker_queues.wf()
        &&& mq_inv(self@)
    }

    pub fn default() -> (r: Self)
        ensures
            r.inv(),
            r@.queues == Map::<Seq<char>, Seq<JobV>>::empty(),
            r@.pending == Map::<JobV, Seq<char>>::empty(),
            r@.worker_queues == Map::<Seq<char>, Seq<Seq<char>>>::empty(),
            r@.pubsub.workers == Map::<Seq<char>, PsWorkerV>::empty(),
            r@.pubsub.queues_workers == Map::<Seq<char>, Seq<Seq<char>>>::empty(),
            r@.pubsub.jobs_workers == Map::<JobV, Seq<char>>::empty(),
    {
        MultiQueue {
            queues: Table::new(),
            pending: Table::new(),
            pubsub: PubSub::default(),
            worker_queues: Table::new(),
        }
    }

    /// Whether the scheduler already tracks this job key.
    pub fn has_job(&self, job_key: &Job) -> (r: bool)
        requires
            self.inv(),
        ensures
            r == mq_has_job(self@, job_key.deep_view()),
    {
        self.pending.contains_key(job_key) || self.pubsub.jobs_workers.contains_key(job_key)
    }

    /// Park a job at the tail of its queue.
    fn job_pending(&mut self, queue_key: &String, job_key: &Job)
        requires
            old(self).inv(),
            !mq_has_job(old(self)@, job_key.deep_view()),
        ensures
            final(self).inv(),
            final(self)@.queues == old(self)@.queues.insert(
                queue_key@,
                (if old(self)@.queues.contains_key(queue_key@) {
                    old(self)@.queues[queue_key@]
                } else {
                    Seq::empty()
                }).push(job_key.deep_view()),
            ),
            final(self)@.pending == old(self)@.pending.insert(job_key.deep_view(), queue_key@),
            final(self)@.pubsub == old(self)@.pubsub,
            final(self)@.worker_queues == old(self)@.worker_queues,
    {
        let ghost m0 = self@;
        let ghost q = queue_key@;
        let ghost j = job_key.deep_view();
        let entry = match self.queues.remove(queue_key) {
            Some(mut v) => {
                v.push(job_key.clone());
                proof {
                    assert(v.deep_view() =~= m0.queues[q].push(j));
                }
                v
            },
            None => {
                let mut v: Vec<Job> = Vec::new();
                v.push(job_key.clone());
                proof {
                    assert(v.deep_view() =~= Seq::<JobV>::empty().push(j));
                }
                v
            },
        };
        self.queues.insert(queue_key.clone(), entry);
        self.pending.insert(job_key.clone(), queue_key.clone());
        proof {
            let m1 = self@;
            let oldq: Seq<JobV> = if m0.queues.contains_key(q) {
                m0.queues[q]
            } else {
                Seq::empty()
            };
            assert(m1.queues =~= m0.queues.insert(q, oldq.push(j)));
            assert(m1.pending =~= m0.pending.insert(j, q));
            // the parked job was unknown, so queue entries stay distinct and
            // still point into the pending map
            assert forall|q2: Seq<char>| #[trigger] m1.queues.contains_key(q2) implies {
                let js = m1.queues[q2];
                &&& (forall|a: int, b: int| 0 <= a < b < js.len() ==> js[a] != js[b])
                &&& (forall|i: int|
                    0 <= i < js.len() ==> m1.pending.contains_key(#[trigger] js[i])
                        && m1.pending[js[i]] == q2)
            } by {
                if q2 == q {
                    let js = oldq.push(j);
                    assert forall|a: int, b: int| 0 <= a < b < js.len() implies js[a] != js[b] by {
                        if b == js.len() - 1 {
                            assert(js[a] == oldq[a]);
                            assert(m0.pending.contains_key(oldq[a]));
                        } else {
                            assert(js[a] == oldq[a] && js[b] == oldq[b]);
                        }
                    }
                    assert forall|i: int| 0 <= i < js.len() implies m1.pending.contains_key(
                        #[trigger] js[i],
                    ) && m1.pending[js[i]] == q2 by {
                        if i < js.len() - 1 {
                            assert(js[i] == oldq[i]);
                            assert(m0.pending.contains_key(oldq[i]) && m0.pending[oldq[i]] == q);
                            assert(oldq[i] != j);
                        }
                    }
                } else {
                    let js = m0.queues[q2];
                    assert forall|i: int| 0 <= i < js.len() implies m1.pending.contains_key(
                        #[trigger] js[i],
                    ) && m1.pending[js[i]] == q2 by {
                        assert(m0.pending.contains_key(js[i]) && m0.pending[js[i]] == q2);
                        assert(js[i] != j);
                    }
                }
            }
            assert forall|j2: JobV| #[trigger] m1.pending.contains_key(j2) implies
                m1.queues.contains_key(m1.pending[j2]) && m1.queues[m1.pending[j2]].contains(
                j2,
            ) by {
                if j2 == j {
                    let js = oldq.push(j);
                    assert(js[js.len() - 1] == j);
                    assert(js.contains(j));
                } else {
                    assert(m0.pending.contains_key(j2));
                    let q2 = m0.pending[j2];
                    assert(m0.queues[q2].contains(j2));
                    if q2 == q {
                        let a = choose|a: int| 0 <= a < oldq.len() && oldq[a] == j2;
                        assert(oldq.push(j)[a] == j2);
                        assert(m1.queues[q2].contains(j2));
                    }
                }
            }
        }
    }

    /// Hand a new job to a ready worker of its queue, or park it at the tail
    /// of the queue. A job key the scheduler already tracks is left alone: a
    /// key names one invocation, and may be live only once.
    pub fn job_create(&mut self, queue_key: &String, job_key: &Job) -> (r: Vec<Assignment>)
        requires
            old(self).inv(),
        ensures
            final(self).inv(),
            mq_has_job(old(self)@, job_key.deep_view()) ==> final(self)@ == old(self)@
                && r.deep_view() == Seq::<AssignmentV>::empty(),
            !mq_has_job(old(self)@, job_key.deep_view())
                && !old(self)@.pubsub.queues_workers.contains_key(queue_key@) ==> {
                &&& r.deep_view() == Seq::<AssignmentV>::empty()
                &&& final(self)@.queues == old(self)@.queues.insert(
                    queue_key@,
                    (if old(self)@.queues.contains_key(queue_key@) {
                        old(self)@.queues[queue_key@]
                    } else {
                        Seq::empty()
                    }).push(job_key.deep_view()),
                )
                &&& final(self)@.pending == old(self)@.pending.insert(
                    job_key.deep_view(),
                    queue_key@,
                )
                &&& final(self)@.pubsub == old(self)@.pubsub
                &&& final(self)@.worker_queues == old(self)@.worker_queues
            },
            !mq_has_job(old(self)@, job_key.deep_view())
                && old(self)@.pubsub.queues_workers.contains_key(queue_key@) ==> {
                let wk = old(self)@.pubsub.queues_workers[queue_key@][0];
                let w1 = old(self)@.pubsub.workers[wk];
                let w2 = PsWorkerV {
                    key: w1.key,
                    current: w1.current.push((queue_key@, job_key.deep_view())),
                    capacity: w1.capacity,
                    queues: w1.queues,
                };
                &&& r.deep_view() == seq![
                    AssignmentV {
                        action: Action::Started,
                        worker_key: wk,
                        queue_key: queue_key@,
                        job_key: job_key.deep_view(),
                    },
                ]
                &&& final(self)@.pubsub.workers == old(self)@.pubsub.workers.insert(wk, w2)
                &&& final(self)@.pubsub.jobs_workers == old(self)@.pubsub.jobs_workers.insert(
                    job_key.deep_view(),
                    wk,
                )
                &&& final(self)@.queues == old(self)@.queues
                &&& final(self)@.pending == old(self)@.pending
                &&& final(self)@.worker_queues == old(self)@.worker_queues
            },
    {
        if self.has_job(job_key) {
            let r: Vec<Assignment> = Vec::new();
            proof {
                assert(r.deep_view() =~= Seq::<AssignmentV>::empty());
            }
            return r;
        }
        let ghost m0 = self@;
        match self.pubsub.assign(queue_key, job_key) {
            Some(worker_key) => {
                let mut r: Vec<Assignment> = Vec::new();
                r.push(
                    Assignment::new(
                        Action::Started,
                        worker_key,
                        queue_key.clone(),
                        job_key.clone(),
                    ),
                );
                proof {
                    let wk = m0.pubsub.queues_workers[queue_key@][0];
                    assert(r.deep_view() =~= seq![
                        AssignmentV {
                            action: Action::Started,
                            worker_key: wk,
                            queue_key: queue_key@,
                            job_key: job_key.deep_view(),
                        },
                    ]);
                    assert forall|j2: JobV| #[trigger] self@.pending.contains_key(j2) implies
                        !self@.pubsub.jobs_workers.contains_key(j2) by {
                        assert(m0.pending.contains_key(j2));
                        assert(j2 != job_key.deep_view());
                    }
                    assert(self@.queues == m0.queues);
                    assert(self@.pending == m0.pending);
                    assert forall|q2: Seq<char>| #[trigger] self@.queues.contains_key(q2) implies {
                        let js = self@.queues[q2];
                        &&& (forall|a: int, b: int| 0 <= a < b < js.len() ==> js[a] != js[b])
                        &&& (forall|i: int|
                            0 <= i < js.len() ==> self@.pending.contains_key(#[trigger] js[i])
                                && self@.pending[js[i]] == q2)
                    } by {
                        assert(m0.queues.contains_key(q2));
                        assert(self@.queues[q2] == m0.queues[q2]);
                    }
                    assert(self@.pubsub.workers.dom() =~= m0.pubsub.workers.dom());
                    assert forall|k: Seq<char>| #[trigger]
                        self@.pubsub.workers.contains_key(k) implies self@.worker_queues[k]
                        == self@.pubsub.workers[k].queues by {
                        if k == wk {
                            assert(self@.pubsub.workers[wk].queues
                                == m0.pubsub.workers[wk].queues);
                        } else {
                            assert(self@.pubsub.workers[k] == m0.pubsub.workers[k]);
                        }
                    }
                }
                r
            },
            None => {
                self.job_pending(queue_key, job_key);
                let r: Vec<Assignment> = Vec::new();
                proof {
                    assert(r.deep_view() =~= Seq::<AssignmentV>::empty());
                }
                r
            },
        }
    }
}

impl MultiQueue {
    /// Pop jobs from the front of one queue and offer each to a ready worker
    /// of that queue, while capacity remains and a worker is available.
    /// Returns the assignments made and the capacity left.
    fn drain_queue(&mut self, queue_key: &String, capacity: Option<usize>) -> (r: (
        Vec<Assignment>,
        Option<usize>,
    ))
        requires
            old(self).inv(),
        ensures
            final(self).inv(),
            final(self)@.pubsub.workers.dom() == old(self)@.pubsub.workers.dom(),
            forall|k: Seq<char>| #[trigger]
                final(self)@.pubsub.workers.contains_key(k) ==> {
                    let w0 = old(self)@.pubsub.workers[k];
                    let w1 = final(self)@.pubsub.workers[k];
                    &&& w1.key == w0.key
                    &&& w1.capacity == w0.capacity
                    &&& w1.queues == w0.queues
                    &&& w0.current.len() <= w1.current.len()
                    &&& (forall|i: int| 0 <= i < w0.current.len() ==> w1.current[i] == #[trigger] w0.current[i])
                },
            final(self)@.worker_queues == old(self)@.worker_queues,
            forall|q: Seq<char>| #[trigger]
                final(self)@.pubsub.queues_workers.contains_key(q) ==> old(self)@.pubsub.queues_workers.contains_key(q),
            final(self)@.queues.dom() == old(self)@.queues.dom(),
            forall|q: Seq<char>|
                q != queue_key@ && #[trigger] old(self)@.queues.contains_key(q) ==> final(self)@.queues[q] == old(self)@.queues[q],
            old(self)@.queues.contains_key(queue_key@) ==> {
                let n = r.0.deep_view().len() as int;
                &&& n <= old(self)@.queues[queue_key@].len()
                &&& final(self)@.queues[queue_key@] == old(self)@.queues[queue_key@].skip(n)
                &&& (forall|ix: int|
                    0 <= ix < n ==> (#[trigger] r.0.deep_view()[ix]).job_key == old(self)@.queues[queue_key@][ix])
            },
            !old(self)@.queues.contains_key(queue_key@) ==> r.0.deep_view().len() == 0,
            r.0.deep_view().len() == 0 ==> final(self)@ == old(self)@,
            r.0.deep_view().len() >= 1 ==> old(self)@.pubsub.queues_workers.contains_key(
                queue_key@,
            ),
            forall|j: JobV|
                old(self)@.pending.contains_key(j) && !(#[trigger] final(self)@.pending.contains_key(
                    j,
                )) ==> exists|ix: int|
                    0 <= ix < r.0.deep_view().len() && (#[trigger] r.0.deep_view()[ix]).job_key
                        == j,
            forall|j: JobV| #[trigger]
                final(self)@.pending.contains_key(j) ==> old(self)@.pending.contains_key(j)
                    && final(self)@.pending[j] == old(self)@.pending[j],
            forall|j: JobV|
                old(self)@.pending.contains_key(j) && !final(self)@.pending.contains_key(j)
                    ==> #[trigger] final(self)@.pubsub.jobs_workers.contains_key(j),
            forall|j: JobV| #[trigger]
                old(self)@.pubsub.jobs_workers.contains_key(j) ==> final(self)@.pubsub.jobs_workers.contains_key(j) && final(self)@.pubsub.jobs_workers[j]
                    == old(self)@.pubsub.jobs_workers[j],
            forall|j: JobV| #[trigger]
                final(self)@.pubsub.jobs_workers.contains_key(j) ==> old(self)@.pubsub.jobs_workers.contains_key(j) || old(self)@.pending.contains_key(j),
            forall|i: int|
                0 <= i < r.0.deep_view().len() ==> {
                    let a = #[trigger] r.0.deep_view()[i];
                    &&& a.action == Action::Started
                    &&& a.queue_key == queue_key@
                    &&& old(self)@.pending.contains_key(a.job_key)
                    &&& old(self)@.pending[a.job_key] == a.queue_key
                    &&& !final(self)@.pending.contains_key(a.job_key)
                    &&& final(self)@.pubsub.jobs_workers.contains_key(a.job_key)
                    &&& final(self)@.pubsub.jobs_workers[a.job_key] == a.worker_key
                    &&& final(self)@.pubsub.workers.contains_key(a.worker_key)
                },
            match (capacity, r.1) {
                (Some(c0), Some(c1)) => c1 <= c0 && r.0.deep_view().len() == c0 - c1,
                (None, None) => true,
                _ => false,
            },
            (match r.1 {
                Some(c1) => c1 > 0,
                None => true,
            }) && old(self)@.queues.contains_key(queue_key@) ==> (final(self)@.queues[queue_key@].len() == 0 || !final(self)@.pubsub.queues_workers.contains_key(
                queue_key@,
            )),
    {
        let ghost s0 = self@;
        let ghost qv = queue_key@;
        let mut capacity = capacity;
        let ghost cap0 = capacity;
        let mut out: Vec<Assignment> = Vec::new();
        let mut stop = false;
        proof {
            if s0.queues.contains_key(qv) {
                assert(s0.queues[qv].skip(0) =~= s0.queues[qv]);
                assert(self@.queues[qv] == s0.queues[qv].skip(0));
            }
            assert(out.deep_view() =~= Seq::<AssignmentV>::empty());
        }
        while !stop
            invariant
                qv == queue_key@,
                self.inv(),
                self@.pubsub.workers.dom() == s0.pubsub.workers.dom(),
                forall|k: Seq<char>| #[trigger]
                    self@.pubsub.workers.contains_key(k) ==> {
                        let w0 = s0.pubsub.workers[k];
                        let w1 = self@.pubsub.workers[k];
                        &&& w1.key == w0.key
                        &&& w1.capacity == w0.capacity
                        &&& w1.queues == w0.queues
                        &&& w0.current.len() <= w1.current.len()
                        &&& (forall|i: int|
                            0 <= i < w0.current.len() ==> w1.current[i] == #[trigger] w0.current[i])
                    },
                self@.worker_queues == s0.worker_queues,
                forall|q: Seq<char>| #[trigger]
                    self@.pubsub.queues_workers.contains_key(q)
                        ==> s0.pubsub.queues_workers.contains_key(q),
                self@.queues.dom() == s0.queues.dom(),
                forall|q: Seq<char>|
                    q != qv && #[trigger] s0.queues.contains_key(q) ==> self@.queues[q]
                        == s0.queues[q],
                s0.queues.contains_key(qv) ==> {
                    let n = out.deep_view().len() as int;
                    &&& n <= s0.queues[qv].len()
                    &&& self@.queues[qv] == s0.queues[qv].skip(n)
                    &&& (forall|ix: int|
                        0 <= ix < n ==> (#[trigger] out.deep_view()[ix]).job_key
                            == s0.queues[qv][ix])
                },
                !s0.queues.contains_key(qv) ==> out.deep_view().len() == 0,
                out.deep_view().len() == 0 ==> self@ == s0,
                out.deep_view().len() >= 1 ==> s0.pubsub.queues_workers.contains_key(qv),
                forall|j: JobV|
                    s0.pending.contains_key(j) && !(#[trigger] self@.pending.contains_key(j))
                        ==> exists|ix: int|
                        0 <= ix < out.deep_view().len() && (#[trigger] out.deep_view()[ix]).job_key
                            == j,
                forall|j: JobV| #[trigger]
                    self@.pending.contains_key(j) ==> s0.pending.contains_key(j)
                        && self@.pending[j] == s0.pending[j],
                forall|j: JobV|
                    s0.pending.contains_key(j) && !self@.pending.contains_key(j) ==> #[trigger]
                        self@.pubsub.jobs_workers.contains_key(j),
                forall|j: JobV| #[trigger]
                    s0.pubsub.jobs_workers.contains_key(j)
                        ==> self@.pubsub.jobs_workers.contains_key(j)
                        && self@.pubsub.jobs_workers[j] == s0.pubsub.jobs_workers[j],
                forall|j: JobV| #[trigger]
                    self@.pubsub.jobs_workers.contains_key(j)
                        ==> s0.pubsub.jobs_workers.contains_key(j) || s0.pending.contains_key(j),
                forall|i: int|
                    0 <= i < out.deep_view().len() ==> {
                        let a = #[trigger] out.deep_view()[i];
                        &&& a.action == Action::Started
                        &&& a.queue_key == qv
                        &&& s0.pending.contains_key(a.job_key)
                        &&& s0.pending[a.job_key] == a.queue_key
                        &&& !self@.pending.contains_key(a.job_key)
                        &&& self@.pubsub.jobs_workers.contains_key(a.job_key)
                        &&& self@.pubsub.jobs_workers[a.job_key] == a.worker_key
                        &&& self@.pubsub.workers.contains_key(a.worker_key)
                    },
                match (cap0, capacity) {
                    (Some(c0), Some(c1)) => c1 <= c0 && out.deep_view().len() == c0 - c1,
                    (None, None) => true,
                    _ => false,
                },
                stop && (match capacity {
                    Some(c1) => c1 > 0,
                    None => true,
                }) && s0.queues.contains_key(qv) ==> (self@.queues[qv].len() == 0
                    || !self@.pubsub.queues_workers.contains_key(qv)),
            decreases (if self@.queues.contains_key(qv) {
                self@.queues[qv].len()
            } else {
                0
            }), (if stop {
                0int
            } else {
                1int
            }),
        {
            let cap_left = match capacity {
                Some(x) => x > 0,
                None => true,
            };
            if !cap_left {
                stop = true;
            } else if !self.pubsub.queues_workers.contains_key(queue_key) {
                stop = true;
            } else {
                let ghost m0 = self@;
                match self.queues.remove(queue_key) {
                    None => {
                        proof {
                            assert(self@.queues =~= m0.queues);
                            assert(self@ =~= m0);
                        }
                        stop = true;
                    },
                    Some(v) => {
                        let mut v = v;
                        let ghost vdv0 = v.deep_view();
                        proof {
                            assert(m0.queues.contains_key(qv));
                            assert(vdv0 == m0.queues[qv]);
                        }
                        if v.len() == 0 {
                            self.queues.insert(queue_key.clone(), v);
                            proof {
                                assert(vdv0.len() == 0);
                                assert(self@.queues =~= m0.queues);
                                assert(self@ =~= m0);
                            }
                            stop = true;
                        } else {
                            let jk = v.remove(0);
                            let ghost j = jk.deep_view();
                            proof {
                                assert(j == vdv0[0]);
                                assert(v.deep_view() =~= vdv0.skip(1));
                            }
                            self.queues.insert(queue_key.clone(), v);
                            let _ = self.pending.remove(&jk);
                            proof {
                                assert(m0.queues[qv][0] == j);
                                assert(m0.queues[qv].contains(j)) by {
                                    assert(m0.queues[qv][0] == j);
                                }
                                assert(m0.pending.contains_key(j) && m0.pending[j] == qv);
                                assert(!m0.pubsub.jobs_workers.contains_key(j));
                                let m1 = self@;
                                assert(m1.queues =~= m0.queues.insert(qv, m0.queues[qv].skip(1)))
                                    by {
                                    assert(m0.queues[qv].remove(0) =~= m0.queues[qv].skip(1));
                                    assert(m1.queues =~= m0.queues.insert(
                                        qv,
                                        m0.queues[qv].remove(0),
                                    ));
                                }
                                assert(m1.pending =~= m0.pending.remove(j));
                                // the scheduler is sound again once the job is
                                // out of both the queue and the pending map
                                assert forall|q2: Seq<char>| #[trigger]
                                    m1.queues.contains_key(q2) implies {
                                    let js = m1.queues[q2];
                                    &&& (forall|a: int, b: int|
                                        0 <= a < b < js.len() ==> js[a] != js[b])
                                    &&& (forall|i: int|
                                        0 <= i < js.len() ==> m1.pending.contains_key(
                                            #[trigger] js[i],
                                        ) && m1.pending[js[i]] == q2)
                                } by {
                                    assert(m0.queues.contains_key(q2));
                                    if q2 == qv {
                                        let js0 = m0.queues[qv];
                                        let js = js0.skip(1);
                                        assert forall|i: int|
                                            0 <= i < js.len() implies m1.pending.contains_key(
                                            #[trigger] js[i],
                                        ) && m1.pending[js[i]] == q2 by {
                                            assert(js[i] == js0[i + 1]);
                                            assert(m0.pending.contains_key(js0[i + 1]));
                                            assert(js0[i + 1] != j);
                                        }
                                        assert forall|a: int, b: int|
                                            0 <= a < b < js.len() implies js[a] != js[b] by {
                                            assert(js[a] == js0[a + 1] && js[b] == js0[b + 1]);
                                        }
                                    } else {
                                        let js = m0.queues[q2];
                                        assert forall|i: int|
                                            0 <= i < js.len() implies m1.pending.contains_key(
                                            #[trigger] js[i],
                                        ) && m1.pending[js[i]] == q2 by {
                                            assert(m0.pending.contains_key(js[i])
                                                && m0.pending[js[i]] == q2);
                                            assert(js[i] != j);
                                        }
                                    }
                                }
                                assert forall|j2: JobV| #[trigger]
                                    m1.pending.contains_key(j2) implies m1.queues.contains_key(
                                    m1.pending[j2],
                                ) && m1.queues[m1.pending[j2]].contains(j2) by {
                                    assert(m0.pending.contains_key(j2) && j2 != j);
                                    let q2 = m0.pending[j2];
                                    assert(m0.queues[q2].contains(j2));
                                    if q2 == qv {
                                        let js0 = m0.queues[qv];
                                        let a = choose|a: int|
                                            0 <= a < js0.len() && js0[a] == j2;
                                        assert(a != 0);
                                        assert(js0.skip(1)[a - 1] == j2);
                                        assert(m1.queues[q2].contains(j2));
                                    }
                                }
                            }
                            let ghost m1 = self@;
                            match self.pubsub.assign(queue_key, &jk) {
                                Some(worker_key) => {
                                    proof {
                                        let wk = m1.pubsub.queues_workers[qv][0];
                                        assert(worker_key@ == wk);
                                        // the scheduler stays sound under the
                                        // new assignment
                                        assert(self@.queues == m1.queues);
                                        assert(self@.pending == m1.pending);
                                        assert forall|q2: Seq<char>| #[trigger]
                                            self@.queues.contains_key(q2) implies {
                                            let js = self@.queues[q2];
                                            &&& (forall|a: int, b: int|
                                                0 <= a < b < js.len() ==> js[a] != js[b])
                                            &&& (forall|i: int|
                                                0 <= i < js.len() ==> self@.pending.contains_key(
                                                    #[trigger] js[i],
                                                ) && self@.pending[js[i]] == q2)
                                        } by {
                                            assert(m1.queues.contains_key(q2));
                                            assert(self@.queues[q2] == m1.queues[q2]);
                                        }
                                        assert forall|j2: JobV| #[trigger]
                                            self@.pending.contains_key(j2) implies
                                            !self@.pubsub.jobs_workers.contains_key(j2) by {
                                            assert(m1.pending.contains_key(j2));
                                            assert(j2 != j);
                                        }
                                        assert(self@.pubsub.workers.dom()
                                            =~= m1.pubsub.workers.dom());
                                        assert forall|k: Seq<char>| #[trigger]
                                            self@.pubsub.workers.contains_key(k) implies
                                            self@.worker_queues[k]
                                            == self@.pubsub.workers[k].queues by {
                                            if k == wk {
                                                assert(self@.pubsub.workers[wk].queues
                                                    == m1.pubsub.workers[wk].queues);
                                            } else {
                                                assert(self@.pubsub.workers[k]
                                                    == m1.pubsub.workers[k]);
                                            }
                                        }
                                        // frame facts compose with the steps
                                        // taken so far
                                        assert forall|k: Seq<char>| #[trigger]
                                            self@.pubsub.workers.contains_key(k) implies {
                                            let w0 = s0.pubsub.workers[k];
                                            let w1 = self@.pubsub.workers[k];
                                            &&& w1.key == w0.key
                                            &&& w1.capacity == w0.capacity
                                            &&& w1.queues == w0.queues
                                            &&& w0.current.len() <= w1.current.len()
                                            &&& (forall|i: int|
                                                0 <= i < w0.current.len() ==> w1.current[i]
                                                    == #[trigger] w0.current[i])
                                        } by {
                                            assert(m1.pubsub.workers.contains_key(k));
                                            if k == wk {
                                                let wm = m1.pubsub.workers[wk];
                                                let w1 = self@.pubsub.workers[wk];
                                                assert(w1.current == wm.current.push((qv, j)));
                                                assert forall|i: int|
                                                    0 <= i < s0.pubsub.workers[k].current.len()
                                                        implies w1.current[i] == #[trigger] s0.pubsub.workers[k].current[i] by {
                                                    assert(wm.current[i]
                                                        == s0.pubsub.workers[k].current[i]);
                                                }
                                            }
                                        }
                                    }
                                    let ghost out0 = out.deep_view();
                                    out.push(
                                        Assignment::new(
                                            Action::Started,
                                            worker_key,
                                            queue_key.clone(),
                                            jk,
                                        ),
                                    );
                                    capacity = match capacity {
                                        Some(x) => Some(x - 1),
                                        None => None,
                                    };
                                    proof {
                                        assert forall|j2: JobV|
                                            s0.pending.contains_key(j2) && !(
                                            #[trigger] self@.pending.contains_key(j2)) implies
                                            exists|ix: int|
                                            0 <= ix < out.deep_view().len() && (
                                            #[trigger] out.deep_view()[ix]).job_key == j2 by {
                                            if j2 == j {
                                                assert(out.deep_view()[out0.len() as int].job_key
                                                    == j);
                                            } else {
                                                assert(m0.pending.contains_key(j2)
                                                    == s0.pending.contains_key(j2) || true);
                                                if !m1.pending.contains_key(j2) {
                                                    let ix = choose|ix: int|
                                                        0 <= ix < out0.len() && out0[ix].job_key
                                                            == j2;
                                                    assert(out.deep_view()[ix].job_key == j2);
                                                } else {
                                                    assert(self@.pending.contains_key(j2));
                                                }
                                            }
                                        }
                                        if s0.queues.contains_key(qv) {
                                            let n = out0.len() as int;
                                            assert(m0.queues[qv] == s0.queues[qv].skip(n));
                                            assert(m0.queues[qv].len() > 0);
                                            assert(s0.queues[qv].skip(n + 1) =~= s0.queues[qv].skip(
                                                n,
                                            ).skip(1));
                                            assert(self@.queues[qv] == m0.queues[qv].skip(1));
                                            assert(self@.queues[qv] == s0.queues[qv].skip(n + 1));
                                            assert(j == s0.queues[qv][n]);
                                            assert(out.deep_view().len() == n + 1);
                                            assert forall|ix: int|
                                                0 <= ix < n + 1 implies (#[trigger] out.deep_view()[ix]).job_key
                                                == s0.queues[qv][ix] by {
                                                if ix < n {
                                                    assert(out.deep_view()[ix] == out0[ix]);
                                                }
                                            }
                                        }
                                        assert forall|i: int|
                                            0 <= i < out.deep_view().len() implies {
                                            let a = #[trigger] out.deep_view()[i];
                                            &&& a.action == Action::Started
                                            &&& a.queue_key == qv
                                            &&& s0.pending.contains_key(a.job_key)
                                            &&& s0.pending[a.job_key] == a.queue_key
                                            &&& !self@.pending.contains_key(a.job_key)
                                            &&& self@.pubsub.jobs_workers.contains_key(a.job_key)
                                            &&& self@.pubsub.jobs_workers[a.job_key]
                                                == a.worker_key
                                            &&& self@.pubsub.workers.contains_key(a.worker_key)
                                        } by {
                                            if i < out.deep_view().len() - 1 {
                                                assert(out.deep_view()[i] == out0[i]);
                                            }
                                        }
                                    }
                                },
                                None => {
                                    proof {
                                        assert(m1.pubsub.queues_workers.contains_key(qv));
                                        assert(false);
                                    }
                                },
                            }
                        }
                    },
                }
            }
        }
        (out, capacity)
    }
}

/// The job keys of the entries of `r` that belong to queue `q`, in order.
pub open spec fn started_jobs_for(r: Seq<AssignmentV>, q: Seq<char>) -> Seq<JobV>
    decreases r.len(),
{
    if r.len() == 0 {
        Seq::empty()
    } else {
        let rest = started_jobs_for(r.drop_last(), q);
        if r.last().queue_key == q {
            rest.push(r.last().job_key)
        } else {
            rest
        }
    }
}

/// Per-queue job extraction distributes over concatenation.
pub proof fn lemma_jobs_for_add(a: Seq<AssignmentV>, b: Seq<AssignmentV>, q: Seq<char>)
    ensures
        started_jobs_for(a + b, q) == started_jobs_for(a, q) + started_jobs_for(b, q),
    decreases b.len(),
{
    if b.len() == 0 {
        assert(a + b =~= a);
        assert(started_jobs_for(a, q) + started_jobs_for(b, q) =~= started_jobs_for(a, q));
    } else {
        lemma_jobs_for_add(a, b.drop_last(), q);
        assert((a + b).drop_last() =~= a + b.drop_last());
        assert((a + b).last() == b.last());
        if b.last().queue_key == q {
            assert(started_jobs_for(a, q) + started_jobs_for(b.drop_last(), q).push(
                b.last().job_key,
            ) =~= (started_jobs_for(a, q) + started_jobs_for(b.drop_last(), q)).push(
                b.last().job_key,
            ));
        }
    }
}

/// When every entry belongs to `q`, extraction keeps every job in order.
pub proof fn lemma_jobs_for_all(b: Seq<AssignmentV>, q: Seq<char>)
    requires
        forall|i: int| 0 <= i < b.len() ==> (#[trigger] b[i]).queue_key == q,
    ensures
        started_jobs_for(b, q).len() == b.len(),
        forall|i: int| 0 <= i < b.len() ==> #[trigger] started_jobs_for(b, q)[i] == b[i].job_key,
    decreases b.len(),
{
    if b.len() > 0 {
        lemma_jobs_for_all(b.drop_last(), q);
        assert(b[b.len() - 1].queue_key == q);
    }
}

/// When no entry belongs to `q`, extraction gives nothing.
pub proof fn lemma_jobs_for_none(b: Seq<AssignmentV>, q: Seq<char>)
    requires
        forall|i: int| 0 <= i < b.len() ==> (#[trigger] b[i]).queue_key != q,
    ensures
        started_jobs_for(b, q) == Seq::<JobV>::empty(),
    decreases b.len(),
{
    if b.len() > 0 {
        lemma_jobs_for_none(b.drop_last(), q);
        assert(b[b.len() - 1].queue_key != q);
        assert(started_jobs_for(b, q) =~= Seq::<JobV>::empty());
    }
}

/// The jobs among a worker's held entries that came from queue `q`, in the
/// order the worker received them.
pub open spec fn held_jobs_for(cur: Seq<(Seq<char>, JobV)>, q: Seq<char>) -> Seq<JobV>
    decreases cur.len(),
{
    if cur.len() == 0 {
        Seq::empty()
    } else {
        let rest = held_jobs_for(cur.drop_last(), q);
        if cur.last().0 == q {
            rest.push(cur.last().1)
        } else {
            rest
        }
    }
}

/// A queue that can be drained right now: it exists, holds a job, and has a
/// ready worker.
pub open spec fn servable(m: MultiQueueV, q: Seq<char>) -> bool {
    m.queues.contains_key(q) && m.queues[q].len() > 0 && m.pubsub.queues_workers.contains_key(q)
}

/// Index of the first drainable queue in a declared list, from position `k`.
pub open spec fn first_servable(m: MultiQueueV, qs: Seq<Seq<char>>, k: int) -> Option<int>
    decreases qs.len() - k,
{
    if k < 0 || k >= qs.len() {
        None
    } else if servable(m, qs[k]) {
        Some(k)
    } else {
        first_servable(m, qs, k + 1)
    }
}

/// Index of the first queue in a declared list that exists and holds a job,
/// from position `k`.
pub open spec fn first_nonempty(
    queues: Map<Seq<char>, Seq<JobV>>,
    qs: Seq<Seq<char>>,
    k: int,
) -> Option<int>
    decreases qs.len() - k,
{
    if k < 0 || k >= qs.len() {
        None
    } else if queues.contains_key(qs[k]) && queues[qs[k]].len() > 0 {
        Some(k)
    } else {
        first_nonempty(queues, qs, k + 1)
    }
}

/// For queues that all have a ready worker, drainable means non-empty.
pub proof fn lemma_first_servable_nonempty(m: MultiQueueV, qs: Seq<Seq<char>>, k: int)
    requires
        0 <= k,
        forall|a: int|
            k <= a < qs.len() ==> m.pubsub.queues_workers.contains_key(#[trigger] qs[a]),
    ensures
        first_servable(m, qs, k) == first_nonempty(m.queues, qs, k),
    decreases qs.len() - k,
{
    if k < qs.len() {
        lemma_first_servable_nonempty(m, qs, k + 1);
    }
}

/// A drainable queue after a run of undrainable ones is the first one.
pub proof fn lemma_first_servable_at(m: MultiQueueV, qs: Seq<Seq<char>>, k: int, qi: int)
    requires
        0 <= k <= qi < qs.len(),
        forall|a: int| k <= a < qi ==> !servable(m, #[trigger] qs[a]),
        servable(m, qs[qi]),
    ensures
        first_servable(m, qs, k) == Some(qi),
    decreases qi - k,
{
    if k < qi {
        lemma_first_servable_at(m, qs, k + 1, qi);
    }
}

/// With no drainable queue in the list, there is no first one.
pub proof fn lemma_first_servable_none(m: MultiQueueV, qs: Seq<Seq<char>>, k: int)
    requires
        0 <= k,
        forall|a: int| k <= a < qs.len() ==> !servable(m, #[trigger] qs[a]),
    ensures
        first_servable(m, qs, k) is None,
    decreases qs.len() - k,
{
    if k < qs.len() {
        lemma_first_servable_none(m, qs, k + 1);
    }
}

impl MultiQueue {
    /// Drain pending jobs from the named queues, in declared order and FIFO
    /// within each queue, assigning each drained job to a ready worker of its
    /// queue, while `capacity` assignments have not yet been made.
    fn assign_queues(&mut self, queues: &Vec<String>, capacity: Option<usize>) -> (r: Vec<
        Assignment,
    >)
        requires
            old(self).inv(),
        ensures
            final(self).inv(),
            final(self)@.pubsub.workers.dom() == old(self)@.pubsub.workers.dom(),
            forall|k: Seq<char>| #[trigger]
                final(self)@.pubsub.workers.contains_key(k) ==> {
                    let w0 = old(self)@.pubsub.workers[k];
                    let w1 = final(self)@.pubsub.workers[k];
                    &&& w1.key == w0.key
                    &&& w1.capacity == w0.capacity
                    &&& w1.queues == w0.queues
                    &&& w0.current.len() <= w1.current.len()
                    &&& (forall|i: int| 0 <= i < w0.current.len() ==> w1.current[i] == #[trigger] w0.current[i])
                },
            final(self)@.worker_queues == old(self)@.worker_queues,
            forall|q: Seq<char>| #[trigger]
                final(self)@.pubsub.queues_workers.contains_key(q) ==> old(self)@.pubsub.queues_workers.contains_key(q),
            final(self)@.queues.dom() == old(self)@.queues.dom(),
            forall|q: Seq<char>|
                !queues.deep_view().contains(q) && #[trigger] old(self)@.queues.contains_key(q)
                    ==> final(self)@.queues[q] == old(self)@.queues[q],
            forall|q: Seq<char>|
                queues.deep_view().contains(q) && #[trigger] old(self)@.queues.contains_key(q)
                    ==> exists|n: int|
                    0 <= n <= old(self)@.queues[q].len() && final(self)@.queues[q] == old(self)@.queues[q].skip(n),
            forall|j: JobV| #[trigger]
                final(self)@.pending.contains_key(j) ==> old(self)@.pending.contains_key(j)
                    && final(self)@.pending[j] == old(self)@.pending[j],
            forall|j: JobV|
                old(self)@.pending.contains_key(j) && !final(self)@.pending.contains_key(j)
                    ==> #[trigger] final(self)@.pubsub.jobs_workers.contains_key(j),
            forall|j: JobV| #[trigger]
                old(self)@.pubsub.jobs_workers.contains_key(j) ==> final(self)@.pubsub.jobs_workers.contains_key(j) && final(self)@.pubsub.jobs_workers[j]
                    == old(self)@.pubsub.jobs_workers[j],
            forall|j: JobV| #[trigger]
                final(self)@.pubsub.jobs_workers.contains_key(j) ==> old(self)@.pubsub.jobs_workers.contains_key(j) || old(self)@.pending.contains_key(j),
            forall|i: int|
                0 <= i < r.deep_view().len() ==> {
                    let a = #[trigger] r.deep_view()[i];
                    &&& a.action == Action::Started
                    &&& queues.deep_view().contains(a.queue_key)
                    &&& old(self)@.pending.contains_key(a.job_key)
                    &&& old(self)@.pending[a.job_key] == a.queue_key
                    &&& !final(self)@.pending.contains_key(a.job_key)
                    &&& final(self)@.pubsub.jobs_workers.contains_key(a.job_key)
                    &&& final(self)@.pubsub.jobs_workers[a.job_key] == a.worker_key
                    &&& final(self)@.pubsub.workers.contains_key(a.worker_key)
                },
            match capacity {
                Some(c) => r.deep_view().len() <= c,
                None => true,
            },
            forall|j: JobV|
                old(self)@.pending.contains_key(j) && !(#[trigger] final(self)@.pending.contains_key(
                    j,
                )) ==> exists|ix: int|
                    0 <= ix < r.deep_view().len() && (#[trigger] r.deep_view()[ix]).job_key == j,
            forall|q: Seq<char>| #[trigger]
                old(self)@.queues.contains_key(q) ==> started_jobs_for(r.deep_view(), q) == old(self)@.queues[q].take(old(self)@.queues[q].len() - final(self)@.queues[q].len()),
            r.deep_view().len() == 0 ==> final(self)@ == old(self)@,
            (match capacity {
                Some(c) => r.deep_view().len() == c,
                None => false,
            }) || (forall|qi: int|
                0 <= qi < queues.deep_view().len() ==> {
                    let q = #[trigger] queues.deep_view()[qi];
                    old(self)@.queues.contains_key(q) ==> (final(self)@.queues[q].len() == 0
                        || !final(self)@.pubsub.queues_workers.contains_key(q))
                }),
            (match capacity {
                Some(c) => c > 0,
                None => true,
            }) ==> (match first_servable(old(self)@, queues.deep_view(), 0) {
                Some(fqi) => r.deep_view().len() >= 1 && r.deep_view()[0].queue_key
                    == queues.deep_view()[fqi] && r.deep_view()[0].job_key == old(self)@.queues[queues.deep_view()[fqi]][0],
                None => r.deep_view().len() == 0,
            }),
    {
        let ghost s0 = self@;
        let ghost qsv = queues.deep_view();
        let ghost cap0 = capacity;
        let mut capacity = capacity;
        let mut out: Vec<Assignment> = Vec::new();
        let mut qi: usize = 0;
        proof {
            assert forall|q: Seq<char>|
                qsv.contains(q) && #[trigger] s0.queues.contains_key(q) implies exists|n: int|
                    0 <= n <= s0.queues[q].len() && self@.queues[q] == s0.queues[q].skip(n) by {
                assert(s0.queues[q].skip(0) =~= s0.queues[q]);
                assert(self@.queues[q] == s0.queues[q].skip(0));
            }
            assert(out.deep_view() =~= Seq::<AssignmentV>::empty());
            assert forall|q: Seq<char>| #[trigger] s0.queues.contains_key(q) implies
                started_jobs_for(out.deep_view(), q) == s0.queues[q].take(
                s0.queues[q].len() - self@.queues[q].len(),
            ) by {
                assert(started_jobs_for(out.deep_view(), q) =~= Seq::<JobV>::empty());
                assert(s0.queues[q].take(0) =~= Seq::<JobV>::empty());
            }
        }
        while qi < queues.len()
            invariant
                qi <= queues@.len(),
                qsv == queues.deep_view(),
                self.inv(),
                self@.pubsub.workers.dom() == s0.pubsub.workers.dom(),
                forall|k: Seq<char>| #[trigger]
                    self@.pubsub.workers.contains_key(k) ==> {
                        let w0 = s0.pubsub.workers[k];
                        let w1 = self@.pubsub.workers[k];
                        &&& w1.key == w0.key
                        &&& w1.capacity == w0.capacity
                        &&& w1.queues == w0.queues
                        &&& w0.current.len() <= w1.current.len()
                        &&& (forall|i: int|
                            0 <= i < w0.current.len() ==> w1.current[i] == #[trigger] w0.current[i])
                    },
                self@.worker_queues == s0.worker_queues,
                forall|q: Seq<char>| #[trigger]
                    self@.pubsub.queues_workers.contains_key(q)
                        ==> s0.pubsub.queues_workers.contains_key(q),
                self@.queues.dom() == s0.queues.dom(),
                forall|q: Seq<char>|
                    !qsv.contains(q) && #[trigger] s0.queues.contains_key(q) ==> self@.queues[q]
                        == s0.queues[q],
                forall|q: Seq<char>|
                    qsv.contains(q) && #[trigger] s0.queues.contains_key(q) ==> exists|n: int|
                        0 <= n <= s0.queues[q].len() && self@.queues[q] == s0.queues[q].skip(n),
                forall|j: JobV| #[trigger]
                    self@.pending.contains_key(j) ==> s0.pending.contains_key(j)
                        && self@.pending[j] == s0.pending[j],
                forall|j: JobV|
                    s0.pending.contains_key(j) && !self@.pending.contains_key(j) ==> #[trigger]
                        self@.pubsub.jobs_workers.contains_key(j),
                forall|j: JobV| #[trigger]
                    s0.pubsub.jobs_workers.contains_key(j)
                        ==> self@.pubsub.jobs_workers.contains_key(j)
                        && self@.pubsub.jobs_workers[j] == s0.pubsub.jobs_workers[j],
                forall|j: JobV| #[trigger]
                    self@.pubsub.jobs_workers.contains_key(j)
                        ==> s0.pubsub.jobs_workers.contains_key(j) || s0.pending.contains_key(j),
                forall|i: int|
                    0 <= i < out.deep_view().len() ==> {
                        let a = #[trigger] out.deep_view()[i];
                        &&& a.action == Action::Started
                        &&& qsv.contains(a.queue_key)
                        &&& s0.pending.contains_key(a.job_key)
                        &&& s0.pending[a.job_key] == a.queue_key
                        &&& !self@.pending.contains_key(a.job_key)
                        &&& self@.pubsub.jobs_workers.contains_key(a.job_key)
                        &&& self@.pubsub.jobs_workers[a.job_key] == a.worker_key
                        &&& self@.pubsub.workers.contains_key(a.worker_key)
                    },
                match (cap0, capacity) {
                    (Some(c0), Some(c1)) => c1 <= c0 && out.deep_view().len() == c0 - c1,
                    (None, None) => true,
                    _ => false,
                },
                (match capacity {
                    Some(c1) => c1 > 0,
                    None => true,
                }) ==> (forall|a: int|
                    0 <= a < qi ==> {
                        let q = #[trigger] qsv[a];
                        s0.queues.contains_key(q) ==> (self@.queues[q].len() == 0
                            || !self@.pubsub.queues_workers.contains_key(q))
                    }),
                forall|j: JobV|
                    s0.pending.contains_key(j) && !(#[trigger] self@.pending.contains_key(j))
                        ==> exists|ix: int|
                        0 <= ix < out.deep_view().len() && (#[trigger] out.deep_view()[ix]).job_key
                            == j,
                forall|q: Seq<char>| #[trigger]
                    s0.queues.contains_key(q) ==> started_jobs_for(out.deep_view(), q)
                        == s0.queues[q].take(s0.queues[q].len() - self@.queues[q].len()),
                out.deep_view().len() == 0 ==> self@ == s0,
                (match cap0 {
                    Some(c) => c > 0,
                    None => true,
                }) && out.deep_view().len() == 0 ==> (forall|a: int|
                    0 <= a < qi ==> !servable(s0, #[trigger] qsv[a])),
                out.deep_view().len() >= 1 ==> (match first_servable(s0, qsv, 0) {
                    Some(fqi) => out.deep_view()[0].queue_key == qsv[fqi]
                        && out.deep_view()[0].job_key == s0.queues[qsv[fqi]][0],
                    None => false,
                }),
            decreases queues@.len() - qi,
        {
            let ghost mid = self@;
            let ghost out_pre = out.deep_view();
            let ghost qv = qsv[qi as int];
            let queue_key = &queues[qi];
            let (mut delta, cap_new) = self.drain_queue(queue_key, capacity);
            let ghost deltav = delta.deep_view();
            let ghost cap_mid = capacity;
            capacity = cap_new;
            out.append(&mut delta);
            proof {
                assert(out.deep_view() =~= out_pre + deltav);
                let new = self@;
                // compose the per-queue drain with the steps already taken
                assert forall|k: Seq<char>| #[trigger] new.pubsub.workers.contains_key(k) implies {
                    let w0 = s0.pubsub.workers[k];
                    let w1 = new.pubsub.workers[k];
                    &&& w1.key == w0.key
                    &&& w1.capacity == w0.capacity
                    &&& w1.queues == w0.queues
                    &&& w0.current.len() <= w1.current.len()
                    &&& (forall|i: int|
                        0 <= i < w0.current.len() ==> w1.current[i] == #[trigger] w0.current[i])
                } by {
                    assert(mid.pubsub.workers.contains_key(k));
                    let w0 = s0.pubsub.workers[k];
                    let wm = mid.pubsub.workers[k];
                    let w1 = new.pubsub.workers[k];
                    assert forall|i: int|
                        0 <= i < w0.current.len() implies w1.current[i] == #[trigger] w0.current[i]
                    by {
                        assert(wm.current[i] == w0.current[i]);
                    }
                }
                assert forall|q: Seq<char>|
                    qsv.contains(q) && #[trigger] s0.queues.contains_key(q) implies exists|n: int|
                        0 <= n <= s0.queues[q].len() && new.queues[q] == s0.queues[q].skip(n) by {
                    let n1 = choose|n1: int|
                        0 <= n1 <= s0.queues[q].len() && mid.queues[q] == s0.queues[q].skip(n1);
                    if q == qv {
                        assert(mid.queues.contains_key(q));
                        let n2 = choose|n2: int|
                            0 <= n2 <= mid.queues[q].len() && new.queues[q] == mid.queues[q].skip(
                                n2,
                            );
                        assert(s0.queues[q].skip(n1).skip(n2) =~= s0.queues[q].skip(n1 + n2));
                        assert(new.queues[q] == s0.queues[q].skip(n1 + n2));
                        assert(0 <= n1 + n2 <= s0.queues[q].len());
                    } else {
                        assert(new.queues[q] == mid.queues[q]);
                        assert(new.queues[q] == s0.queues[q].skip(n1));
                    }
                }
                assert forall|j: JobV|
                    s0.pending.contains_key(j) && !new.pending.contains_key(j) implies #[trigger]
                        new.pubsub.jobs_workers.contains_key(j) by {
                    if mid.pending.contains_key(j) {
                        // drained in this round
                        assert(new.pubsub.jobs_workers.contains_key(j));
                    } else {
                        assert(mid.pubsub.jobs_workers.contains_key(j));
                    }
                }
                assert forall|i: int|
                    0 <= i < out.deep_view().len() implies {
                    let a = #[trigger] out.deep_view()[i];
                    &&& a.action == Action::Started
                    &&& qsv.contains(a.queue_key)
                    &&& s0.pending.contains_key(a.job_key)
                    &&& s0.pending[a.job_key] == a.queue_key
                    &&& !new.pending.contains_key(a.job_key)
                    &&& new.pubsub.jobs_workers.contains_key(a.job_key)
                    &&& new.pubsub.jobs_workers[a.job_key] == a.worker_key
                    &&& new.pubsub.workers.contains_key(a.worker_key)
                } by {
                    if i < out_pre.len() {
                        let a = out_pre[i];
                        assert(out.deep_view()[i] == a);
                        assert(mid.pubsub.jobs_workers.contains_key(a.job_key));
                        assert(new.pubsub.jobs_workers[a.job_key] == a.worker_key);
                    } else {
                        let a = deltav[i - out_pre.len()];
                        assert(out.deep_view()[i] == a);
                        assert(a.queue_key == qv);
                        assert(qsv[qi as int] == qv);
                        assert(qsv.contains(a.queue_key));
                        assert(mid.pending.contains_key(a.job_key) && mid.pending[a.job_key]
                            == a.queue_key);
                        assert(s0.pending.contains_key(a.job_key));
                    }
                }
                if (match capacity {
                    Some(c1) => c1 > 0,
                    None => true,
                }) {
                    // capacity left: the same holds of the freshly drained
                    // queue, and the earlier claims survive since queues and
                    // worker lists only shrink
                    assert forall|a: int| 0 <= a < qi + 1 implies {
                        let q = #[trigger] qsv[a];
                        s0.queues.contains_key(q) ==> (new.queues[q].len() == 0
                            || !new.pubsub.queues_workers.contains_key(q))
                    } by {
                        let q = qsv[a];
                        if s0.queues.contains_key(q) {
                            if a < qi {
                                if q == qv {
                                    assert(mid.queues.contains_key(q));
                                } else {
                                    assert(new.queues[q] == mid.queues[q]);
                                    if mid.queues[q].len() != 0 {
                                        assert(!mid.pubsub.queues_workers.contains_key(q));
                                        assert(!new.pubsub.queues_workers.contains_key(q));
                                    }
                                }
                            } else {
                                assert(q == qv);
                                assert(mid.queues.contains_key(qv));
                            }
                        }
                    }
                }
                // completeness: a job that left the pending set is in the
                // result, at its old index or inside the new block
                assert forall|j: JobV|
                    s0.pending.contains_key(j) && !(#[trigger] new.pending.contains_key(j))
                        implies exists|ix: int|
                        0 <= ix < out.deep_view().len() && (#[trigger] out.deep_view()[ix]).job_key
                        == j by {
                    if mid.pending.contains_key(j) {
                        let ix = choose|ix: int|
                            0 <= ix < deltav.len() && (#[trigger] deltav[ix]).job_key == j;
                        assert(out.deep_view()[out_pre.len() + ix].job_key == j);
                    } else {
                        let ix = choose|ix: int|
                            0 <= ix < out_pre.len() && (#[trigger] out_pre[ix]).job_key == j;
                        assert(out.deep_view()[ix].job_key == j);
                    }
                }
                // exactness: per queue, the result's jobs stay the drained
                // FIFO prefix
                assert forall|q: Seq<char>| #[trigger] s0.queues.contains_key(q) implies
                    started_jobs_for(out.deep_view(), q) == s0.queues[q].take(
                    s0.queues[q].len() - new.queues[q].len(),
                ) by {
                    lemma_jobs_for_add(out_pre, deltav, q);
                    if q == qv {
                        assert(forall|ix: int|
                            0 <= ix < deltav.len() ==> (#[trigger] deltav[ix]).queue_key == qv);
                        lemma_jobs_for_all(deltav, qv);
                        if mid.queues.contains_key(qv) {
                            let n1 = s0.queues[qv].len() - mid.queues[qv].len();
                            let k2 = deltav.len() as int;
                            assert(mid.queues[qv] == s0.queues[qv].skip(n1)) by {
                                assert(started_jobs_for(out_pre, qv) == s0.queues[qv].take(n1));
                                assert(mid.queues[qv].len() == s0.queues[qv].len() - n1);
                                assert forall|p: int|
                                    0 <= p < mid.queues[qv].len() implies #[trigger] mid.queues[qv][p]
                                    == s0.queues[qv].skip(n1)[p] by {
                                    assert(qsv.contains(qv)) by {
                                        assert(qsv[qi as int] == qv);
                                    }
                                    let nx = choose|nx: int|
                                        0 <= nx <= s0.queues[qv].len() && mid.queues[qv]
                                            == s0.queues[qv].skip(nx);
                                    assert(nx == n1);
                                }
                                assert(mid.queues[qv] =~= s0.queues[qv].skip(n1));
                            }
                            assert forall|ix: int| 0 <= ix < k2 implies #[trigger] deltav[ix].job_key
                                == s0.queues[qv][n1 + ix] by {
                                assert(deltav[ix].job_key == mid.queues[qv][ix]);
                            }
                            assert(started_jobs_for(out.deep_view(), qv) =~= s0.queues[qv].take(
                                s0.queues[qv].len() - new.queues[qv].len(),
                            )) by {
                                assert(new.queues[qv] == mid.queues[qv].skip(k2));
                                assert(new.queues[qv].len() == s0.queues[qv].len() - n1 - k2);
                                assert(started_jobs_for(out_pre, qv).len() == n1);
                                assert(started_jobs_for(deltav, qv).len() == k2);
                            }
                        } else {
                            assert(deltav.len() == 0);
                            assert(deltav =~= Seq::<AssignmentV>::empty());
                            assert(started_jobs_for(deltav, qv) =~= Seq::<JobV>::empty());
                            assert(started_jobs_for(out_pre, qv) + started_jobs_for(deltav, qv)
                                =~= started_jobs_for(out_pre, qv));
                            assert(new.queues[qv] == mid.queues[qv]);
                        }
                    } else {
                        assert(forall|ix: int|
                            0 <= ix < deltav.len() ==> (#[trigger] deltav[ix]).queue_key != q);
                        lemma_jobs_for_none(deltav, q);
                        assert(started_jobs_for(out_pre, q) + started_jobs_for(deltav, q)
                            =~= started_jobs_for(out_pre, q));
                        assert(new.queues[q] == mid.queues[q]);
                    }
                }
                // nothing returned means nothing changed
                if out.deep_view().len() == 0 {
                    assert(out_pre.len() == 0 && deltav.len() == 0);
                    assert(mid == s0);
                    assert(new == mid);
                }
                // the head of the result drains the first drainable queue
                if out.deep_view().len() >= 1 {
                    if out_pre.len() >= 1 {
                        assert(out.deep_view()[0] == out_pre[0]);
                    } else {
                        assert(deltav.len() >= 1);
                        assert(mid == s0);
                        assert(out.deep_view()[0] == deltav[0]);
                        assert(deltav[0].queue_key == qv);
                        assert(mid.queues.contains_key(qv) && deltav[0].job_key
                            == mid.queues[qv][0]) by {
                            if !mid.queues.contains_key(qv) {
                                assert(deltav.len() == 0);
                            }
                        }
                        assert(servable(s0, qv)) by {
                            assert(mid.pubsub.queues_workers.contains_key(qv));
                            assert(mid.queues[qv].len() >= 1) by {
                                assert(deltav[0].job_key == mid.queues[qv][0]);
                                assert(deltav.len() <= mid.queues[qv].len());
                            }
                        }
                        if (match cap0 {
                            Some(c) => c > 0,
                            None => true,
                        }) {
                            assert(forall|a: int| 0 <= a < qi ==> !servable(s0, #[trigger] qsv[a]));
                            lemma_first_servable_at(s0, qsv, 0, qi as int);
                            assert(first_servable(s0, qsv, 0) == Some(qi as int));
                        } else {
                            assert(cap0 == Some(0usize));
                            assert(out_pre.len() == 0 && cap_mid == cap0);
                            assert(deltav.len() == 0);
                        }
                    }
                }
            }
            qi = qi + 1;
        }
        proof {
            if (match cap0 {
                Some(c) => c > 0,
                None => true,
            }) && out.deep_view().len() == 0 {
                assert(forall|a: int| 0 <= a < qsv.len() ==> !servable(s0, #[trigger] qsv[a]));
                lemma_first_servable_none(s0, qsv, 0);
            }
        }
        out
    }
}

/// Index of a job in a queue's pending vector.
fn find_jobkey(v: &Vec<Job>, j: &Job) -> (r: Option<usize>)
    ensures
        match r {
            Some(i) => 0 <= i < v.deep_view().len() && v.deep_view()[i as int] == j.deep_view(),
            None => forall|i: int|
                0 <= i < v.deep_view().len() ==> v.deep_view()[i] != j.deep_view(),
        },
{
    let mut i: usize = 0;
    while i < v.len()
        invariant
            i <= v@.len(),
            forall|k: int| 0 <= k < i ==> v.deep_view()[k] != j.deep_view(),
        decreases v@.len() - i,
    {
        if v[i].key_eq(j) {
            return Some(i);
        }
        i = i + 1;
    }
    None
}

impl MultiQueue {
    /// Register a worker and immediately offer it pending work from its
    /// declared queues, in declared order, first-in-first-out inside each
    /// queue, up to its capacity. Registering a key twice is a programmer
    /// error and is excluded by precondition.
    pub fn worker_add(&mut self, key: WorkerId, capacity: Option<usize>, queues: &Vec<String>) -> (r:
        Vec<Assignment>)
        requires
            old(self).inv(),
            !old(self)@.worker_queues.contains_key(key@),
        ensures
            final(self).inv(),
            final(self)@.pubsub.workers.contains_key(key@),
            final(self)@.pubsub.workers[key@].capacity == capacity,
            final(self)@.pubsub.workers[key@].queues == queues.deep_view(),
            final(self)@.worker_queues == old(self)@.worker_queues.insert(
                key@,
                queues.deep_view(),
            ),
            final(self)@.queues.dom() == old(self)@.queues.dom(),
            forall|q: Seq<char>|
                !queues.deep_view().contains(q) && #[trigger] old(self)@.queues.contains_key(q)
                    ==> final(self)@.queues[q] == old(self)@.queues[q],
            forall|q: Seq<char>|
                queues.deep_view().contains(q) && #[trigger] old(self)@.queues.contains_key(q)
                    ==> exists|n: int|
                    0 <= n <= old(self)@.queues[q].len() && final(self)@.queues[q] == old(self)@.queues[q].skip(n),
            forall|j: JobV| #[trigger]
                final(self)@.pending.contains_key(j) ==> old(self)@.pending.contains_key(j)
                    && final(self)@.pending[j] == old(self)@.pending[j],
            forall|j: JobV|
                old(self)@.pending.contains_key(j) && !final(self)@.pending.contains_key(j)
                    ==> #[trigger] final(self)@.pubsub.jobs_workers.contains_key(j),
            forall|j: JobV| #[trigger]
                old(self)@.pubsub.jobs_workers.contains_key(j) ==> final(self)@.pubsub.jobs_workers.contains_key(j) && final(self)@.pubsub.jobs_workers[j]
                    == old(self)@.pubsub.jobs_workers[j],
            forall|i: int|
                0 <= i < r.deep_view().len() ==> {
                    let a = #[trigger] r.deep_view()[i];
                    &&& a.action == Action::Started
                    &&& queues.deep_view().contains(a.queue_key)
                    &&& old(self)@.pending.contains_key(a.job_key)
                    &&& old(self)@.pending[a.job_key] == a.queue_key
                    &&& !final(self)@.pending.contains_key(a.job_key)
                    &&& final(self)@.pubsub.jobs_workers.contains_key(a.job_key)
                    &&& final(self)@.pubsub.jobs_workers[a.job_key] == a.worker_key
                    &&& final(self)@.pubsub.workers.contains_key(a.worker_key)
                },
            match capacity {
                Some(c) => r.deep_view().len() <= c,
                None => true,
            },
            capacity is None ==> forall|qi: int|
                0 <= qi < queues.deep_view().len() ==> {
                    let q = #[trigger] queues.deep_view()[qi];
                    old(self)@.queues.contains_key(q) ==> final(self)@.queues[q].len() == 0
                },
            forall|j: JobV|
                old(self)@.pending.contains_key(j) && !(#[trigger] final(self)@.pending.contains_key(
                    j,
                )) ==> exists|ix: int|
                    0 <= ix < r.deep_view().len() && (#[trigger] r.deep_view()[ix]).job_key == j,
            forall|q: Seq<char>| #[trigger]
                old(self)@.queues.contains_key(q) ==> started_jobs_for(r.deep_view(), q) == old(self)@.queues[q].take(old(self)@.queues[q].len() - final(self)@.queues[q].len()),
            forall|j: JobV| #[trigger]
                final(self)@.pubsub.jobs_workers.contains_key(j) ==> old(self)@.pubsub.jobs_workers.contains_key(j) || old(self)@.pending.contains_key(j),
            (match capacity {
                Some(c) => r.deep_view().len() == c,
                None => false,
            }) || (forall|qi: int|
                0 <= qi < queues.deep_view().len() ==> {
                    let q = #[trigger] queues.deep_view()[qi];
                    old(self)@.queues.contains_key(q) ==> (final(self)@.queues[q].len() == 0
                        || !final(self)@.pubsub.queues_workers.contains_key(q))
                }),
            r.deep_view().len() == 0 ==> final(self)@.queues == old(self)@.queues && final(self)@.pending == old(self)@.pending && final(self)@.pubsub.jobs_workers == old(self)@.pubsub.jobs_workers,
    {
        let ghost s0 = self@;
        proof {
            assert(!s0.pubsub.workers.contains_key(key@));
        }
        self.pubsub.add(key.clone(), capacity, queues);
        self.worker_queues.insert(key.clone(), clone_str_vec(queues));
        let ghost s1 = self@;
        proof {
            // the registry and its mirror were extended together
            assert(s1.worker_queues =~= s0.worker_queues.insert(key@, queues.deep_view()));
            assert(s1.pubsub.workers.dom() =~= s0.pubsub.workers.dom().insert(key@));
            assert(s1.worker_queues.dom() =~= s1.pubsub.workers.dom());
            assert forall|k: Seq<char>| #[trigger]
                s1.pubsub.workers.contains_key(k) implies s1.worker_queues[k]
                == s1.pubsub.workers[k].queues by {
                if k != key@ {
                    assert(s1.pubsub.workers[k] == s0.pubsub.workers[k]);
                }
            }
            assert forall|j2: JobV| #[trigger] s1.pending.contains_key(j2) implies
                !s1.pubsub.jobs_workers.contains_key(j2) by {
                assert(s0.pending.contains_key(j2));
            }
            assert forall|q2: Seq<char>| #[trigger] s1.queues.contains_key(q2) implies {
                let js = s1.queues[q2];
                &&& (forall|a: int, b: int| 0 <= a < b < js.len() ==> js[a] != js[b])
                &&& (forall|i: int|
                    0 <= i < js.len() ==> s1.pending.contains_key(#[trigger] js[i])
                        && s1.pending[js[i]] == q2)
            } by {
                assert(s0.queues.contains_key(q2));
                assert(s1.queues[q2] == s0.queues[q2]);
            }
            assert forall|j2: JobV| #[trigger] s1.pending.contains_key(j2) implies
                s1.queues.contains_key(s1.pending[j2]) && s1.queues[s1.pending[j2]].contains(
                j2,
            ) by {
                assert(s0.pending.contains_key(j2));
                assert(s0.queues[s0.pending[j2]].contains(j2));
            }
            assert(self.inv());
        }
        let r = self.assign_queues(queues, capacity);
        proof {
            let s2 = self@;
            assert(s2.pubsub.workers.contains_key(key@));
            assert(s2.pubsub.workers[key@].capacity == s1.pubsub.workers[key@].capacity);
            assert(s2.pubsub.workers[key@].queues == s1.pubsub.workers[key@].queues);
            if capacity is None {
                assert forall|qi: int| 0 <= qi < queues.deep_view().len() implies {
                    let q = #[trigger] queues.deep_view()[qi];
                    s0.queues.contains_key(q) ==> s2.queues[q].len() == 0
                } by {
                    let q = queues.deep_view()[qi];
                    if s0.queues.contains_key(q) {
                        // a worker of unbounded capacity is always ready, so
                        // it stays enabled on all its queues
                        assert(wk_ready(s2.pubsub.workers[key@]));
                        assert(s2.pubsub.workers[key@].queues[qi] == q);
                        assert(s2.pubsub.queues_workers.contains_key(q));
                        assert(s1.queues.contains_key(q));
                    }
                }
            }
        }
        r
    }

    /// Unregister a worker. Every job it held is re-queued at the tail of
    /// its queue, and a `Cancelled` assignment is returned for each, in the
    /// order the worker received them. Removing an unknown key is a
    /// programmer error and is excluded by precondition.
    pub fn worker_remove(&mut self, key: &WorkerId) -> (r: Vec<Assignment>)
        requires
            old(self).inv(),
            old(self)@.pubsub.workers.contains_key(key@),
        ensures
            final(self).inv(),
            final(self)@.pubsub.workers == old(self)@.pubsub.workers.remove(key@),
            final(self)@.worker_queues == old(self)@.worker_queues.remove(key@),
            final(self)@.pubsub.jobs_workers == old(self)@.pubsub.jobs_workers.remove_keys(
                cur_jobs(old(self)@.pubsub.workers[key@].current),
            ),
            final(self)@.pubsub.queues_workers == qw_disabled(
                old(self)@.pubsub.queues_workers,
                old(self)@.pubsub.workers[key@].queues,
                key@,
            ),
            r.deep_view() == Seq::new(
                old(self)@.pubsub.workers[key@].current.len(),
                |i: int|
                    AssignmentV {
                        action: Action::Cancelled,
                        worker_key: key@,
                        queue_key: old(self)@.pubsub.workers[key@].current[i].0,
                        job_key: old(self)@.pubsub.workers[key@].current[i].1,
                    },
            ),
            forall|i: int|
                0 <= i < old(self)@.pubsub.workers[key@].current.len() ==> {
                    let e = #[trigger] old(self)@.pubsub.workers[key@].current[i];
                    final(self)@.pending.contains_key(e.1) && final(self)@.pending[e.1] == e.0
                },
            forall|j: JobV| #[trigger]
                old(self)@.pending.contains_key(j) ==> final(self)@.pending.contains_key(j)
                    && final(self)@.pending[j] == old(self)@.pending[j],
            forall|j: JobV| #[trigger]
                final(self)@.pending.contains_key(j) ==> old(self)@.pending.contains_key(j)
                    || cur_jobs(old(self)@.pubsub.workers[key@].current).contains(j),
            forall|q: Seq<char>|
                (#[trigger] final(self)@.queues.contains_key(q)) == (old(
                    self,
                )@.queues.contains_key(q) || held_jobs_for(
                    old(self)@.pubsub.workers[key@].current,
                    q,
                ).len() > 0),
            forall|q: Seq<char>| #[trigger]
                final(self)@.queues.contains_key(q) ==> final(self)@.queues[q] == (if old(
                    self,
                )@.queues.contains_key(q) {
                    old(self)@.queues[q]
                } else {
                    Seq::empty()
                }) + held_jobs_for(old(self)@.pubsub.workers[key@].current, q),
    {
        let ghost s0 = self@;
        let ghost wk = key@;
        let ghost cur = s0.pubsub.workers[wk].current;
        let reassigned = match self.pubsub.remove(key) {
            Some(r) => r,
            None => {
                proof {
                    assert(false);
                }
                Vec::new()
            },
        };
        let _ = self.worker_queues.remove(key);
        let ghost s1 = self@;
        proof {
            assert(reassigned.deep_view() == cur);
            assert(s1.worker_queues =~= s0.worker_queues.remove(wk));
            assert(s1.pubsub.workers.dom() =~= s0.pubsub.workers.dom().remove(wk));
            assert(s1.worker_queues.dom() =~= s1.pubsub.workers.dom());
            assert forall|k: Seq<char>| #[trigger]
                s1.pubsub.workers.contains_key(k) implies s1.worker_queues[k]
                == s1.pubsub.workers[k].queues by {
                assert(s1.pubsub.workers[k] == s0.pubsub.workers[k]);
            }
            assert forall|j2: JobV| #[trigger] s1.pending.contains_key(j2) implies
                !s1.pubsub.jobs_workers.contains_key(j2) by {
                assert(s0.pending.contains_key(j2));
            }
            assert forall|q2: Seq<char>| #[trigger] s1.queues.contains_key(q2) implies {
                let js = s1.queues[q2];
                &&& (forall|a: int, b: int| 0 <= a < b < js.len() ==> js[a] != js[b])
                &&& (forall|i: int|
                    0 <= i < js.len() ==> s1.pending.contains_key(#[trigger] js[i])
                        && s1.pending[js[i]] == q2)
            } by {
                assert(s0.queues.contains_key(q2));
                assert(s1.queues[q2] == s0.queues[q2]);
            }
            assert forall|j2: JobV| #[trigger] s1.pending.contains_key(j2) implies
                s1.queues.contains_key(s1.pending[j2]) && s1.queues[s1.pending[j2]].contains(
                j2,
            ) by {
                assert(s0.pending.contains_key(j2));
                assert(s0.queues[s0.pending[j2]].contains(j2));
            }
            assert(self.inv());
            // jobs the worker held are distinct and no longer known anywhere
            assert forall|a: int, b: int| 0 <= a < b < cur.len() implies cur[a].1 != cur[b].1 by {
                assert(ps_inv(s0.pubsub));
            }
            assert forall|i: int| 0 <= i < cur.len() implies !s1.pending.contains_key(
                #[trigger] cur[i].1,
            ) && !s1.pubsub.jobs_workers.contains_key(cur[i].1) by {
                assert(cur_jobs(cur).contains(cur[i].1));
                assert(s0.pubsub.jobs_workers.contains_key(cur[i].1));
                if s1.pending.contains_key(cur[i].1) {
                    assert(s0.pending.contains_key(cur[i].1));
                }
            }
        }
        let mut out: Vec<Assignment> = Vec::new();
        let mut i: usize = 0;
        proof {
            assert(cur.take(0) =~= Seq::<(Seq<char>, JobV)>::empty());
            assert forall|q: Seq<char>| #[trigger] self@.queues.contains_key(q) implies
                self@.queues[q] == (if s1.queues.contains_key(q) {
                s1.queues[q]
            } else {
                Seq::empty()
            }) + held_jobs_for(cur.take(0), q) by {
                assert(held_jobs_for(cur.take(0), q) =~= Seq::<JobV>::empty());
                assert(s1.queues[q] + Seq::<JobV>::empty() =~= s1.queues[q]);
            }
        }
        while i < reassigned.len()
            invariant
                i <= reassigned@.len(),
                wk == key@,
                reassigned.deep_view() == cur,
                forall|a: int, b: int| 0 <= a < b < cur.len() ==> cur[a].1 != cur[b].1,
                forall|a: int|
                    0 <= a < cur.len() ==> !s1.pending.contains_key(#[trigger] cur[a].1)
                        && !s1.pubsub.jobs_workers.contains_key(cur[a].1),
                self.inv(),
                self@.pubsub == s1.pubsub,
                self@.worker_queues == s1.worker_queues,
                forall|j: JobV| #[trigger]
                    s1.pending.contains_key(j) ==> self@.pending.contains_key(j)
                        && self@.pending[j] == s1.pending[j],
                forall|j: JobV| #[trigger]
                    self@.pending.contains_key(j) ==> s1.pending.contains_key(j) || exists|a: int|
                        0 <= a < i && cur[a].1 == j,
                forall|a: int|
                    0 <= a < i ==> self@.pending.contains_key(#[trigger] cur[a].1)
                        && self@.pending[cur[a].1] == cur[a].0,
                forall|q: Seq<char>|
                    (#[trigger] self@.queues.contains_key(q)) == (s1.queues.contains_key(q)
                        || held_jobs_for(cur.take(i as int), q).len() > 0),
                forall|q: Seq<char>| #[trigger]
                    self@.queues.contains_key(q) ==> self@.queues[q] == (if s1.queues.contains_key(
                        q,
                    ) {
                        s1.queues[q]
                    } else {
                        Seq::empty()
                    }) + held_jobs_for(cur.take(i as int), q),
                out.deep_view() == Seq::new(
                    i as nat,
                    |a: int|
                        AssignmentV {
                            action: Action::Cancelled,
                            worker_key: wk,
                            queue_key: cur[a].0,
                            job_key: cur[a].1,
                        },
                ),
            decreases reassigned@.len() - i,
        {
            let e = &reassigned[i];
            proof {
                assert((*e).deep_view() == cur[i as int]);
                assert(!mq_has_job(self@, e.1.deep_view())) by {
                    if self@.pending.contains_key(cur[i as int].1) {
                        if s1.pending.contains_key(cur[i as int].1) {
                        } else {
                            let a = choose|a: int| 0 <= a < i && cur[a].1 == cur[i as int].1;
                        }
                    }
                }
            }
            let ghost qpre = self@.queues;
            self.job_pending(&e.0, &e.1);
            proof {
                let ev = cur[i as int];
                assert(cur.take(i + 1) =~= cur.take(i as int).push(ev));
                assert(cur.take(i + 1).drop_last() =~= cur.take(i as int));
                assert(cur.take(i + 1).last() == ev);
                assert forall|q: Seq<char>|
                    (#[trigger] self@.queues.contains_key(q)) == (s1.queues.contains_key(q)
                        || held_jobs_for(cur.take(i + 1), q).len() > 0) by {
                    if q == ev.0 {
                        assert(held_jobs_for(cur.take(i + 1), q).len() > 0);
                        assert(self@.queues.contains_key(q));
                    } else {
                        assert(held_jobs_for(cur.take(i + 1), q) == held_jobs_for(
                            cur.take(i as int),
                            q,
                        ));
                        assert(self@.queues.contains_key(q) == qpre.contains_key(q));
                    }
                }
                assert forall|q: Seq<char>| #[trigger]
                    self@.queues.contains_key(q) implies self@.queues[q] == (if s1.queues.contains_key(
                    q,
                ) {
                    s1.queues[q]
                } else {
                    Seq::<JobV>::empty()
                }) + held_jobs_for(cur.take(i + 1), q) by {
                    let base: Seq<JobV> = if s1.queues.contains_key(q) {
                        s1.queues[q]
                    } else {
                        Seq::empty()
                    };
                    if q == ev.0 {
                        let prior: Seq<JobV> = if qpre.contains_key(q) {
                            qpre[q]
                        } else {
                            Seq::empty()
                        };
                        assert(self@.queues[q] == prior.push(ev.1));
                        if qpre.contains_key(q) {
                            assert(prior == base + held_jobs_for(cur.take(i as int), q));
                        } else {
                            assert(held_jobs_for(cur.take(i as int), q).len() == 0);
                            assert(held_jobs_for(cur.take(i as int), q)
                                =~= Seq::<JobV>::empty());
                            assert(base =~= Seq::<JobV>::empty());
                            assert(prior =~= base + held_jobs_for(cur.take(i as int), q));
                        }
                        assert((base + held_jobs_for(cur.take(i as int), q)).push(ev.1)
                            =~= base + held_jobs_for(cur.take(i as int), q).push(ev.1));
                    } else {
                        assert(held_jobs_for(cur.take(i + 1), q) == held_jobs_for(
                            cur.take(i as int),
                            q,
                        ));
                        assert(self@.queues[q] == qpre[q]);
                    }
                }
            }
            let ghost outpre = out.deep_view();
            let ghost outvecpre = out@;
            let ass = Assignment::new(Action::Cancelled, key.clone(), e.0.clone(), e.1.clone());
            let ghost assv = ass.deep_view();
            proof {
                assert(assv == (AssignmentV {
                    action: Action::Cancelled,
                    worker_key: wk,
                    queue_key: cur[i as int].0,
                    job_key: cur[i as int].1,
                }));
            }
            out.push(ass);
            i = i + 1;
            proof {
                assert(out@.len() == outvecpre.len() + 1);
                assert(outvecpre.len() == outpre.len());
                assert(outpre.len() == i - 1);
                assert(out.deep_view()[i - 1] == assv);
                assert forall|a: int| 0 <= a < i as int implies out.deep_view()[a]
                    == (AssignmentV {
                    action: Action::Cancelled,
                    worker_key: wk,
                    queue_key: cur[a].0,
                    job_key: cur[a].1,
                }) by {
                    if a < i - 1 {
                        assert(out@[a] == outvecpre[a]);
                        assert(out.deep_view()[a] == outpre[a]);
                    } else {
                        assert(out.deep_view()[a] == assv);
                    }
                }
                assert(out.deep_view() =~= Seq::new(
                    i as nat,
                    |a: int|
                        AssignmentV {
                            action: Action::Cancelled,
                            worker_key: wk,
                            queue_key: cur[a].0,
                            job_key: cur[a].1,
                        },
                ));
                assert forall|j: JobV| #[trigger]
                    self@.pending.contains_key(j) implies s1.pending.contains_key(j) || exists|
                    a: int,
                |
                    0 <= a < i && cur[a].1 == j by {
                    if j == cur[i - 1].1 {
                        assert(cur[i - 1].1 == j);
                    }
                }
            }
        }
        proof {
            assert(cur.take(cur.len() as int) =~= cur);
            assert forall|j: JobV| #[trigger]
                s0.pending.contains_key(j) implies self@.pending.contains_key(j)
                && self@.pending[j] == s0.pending[j] by {
                assert(s1.pending.contains_key(j));
            }
            assert forall|j: JobV| #[trigger]
                self@.pending.contains_key(j) implies s1.pending.contains_key(j) || cur_jobs(
                cur,
            ).contains(j) by {
                if !s1.pending.contains_key(j) {
                    let a = choose|a: int| 0 <= a < reassigned@.len() && cur[a].1 == j;
                    assert(cur_jobs(cur).contains(j));
                }
            }
        }
        out
    }

    /// Finish a job. If it was assigned, the worker resigns it, a `Done`
    /// assignment is returned, and the freed slot immediately absorbs up to
    /// one pending job from the worker's queues, in declared order. If it
    /// was still waiting in the named queue it is simply removed.
    pub fn job_finish(&mut self, queue_key: &String, job_key: &Job) -> (r: Vec<Assignment>)
        requires
            old(self).inv(),
        ensures
            final(self).inv(),
            final(self)@.worker_queues == old(self)@.worker_queues,
            !final(self)@.pubsub.jobs_workers.contains_key(job_key.deep_view()),
            old(self)@.pubsub.jobs_workers.contains_key(job_key.deep_view()) ==> {
                let wk = old(self)@.pubsub.jobs_workers[job_key.deep_view()];
                &&& 1 <= r.deep_view().len() <= 2
                &&& r.deep_view()[0] == (AssignmentV {
                    action: Action::Done,
                    worker_key: wk,
                    queue_key: queue_key@,
                    job_key: job_key.deep_view(),
                })
                &&& (forall|i: int|
                    1 <= i < r.deep_view().len() ==> {
                        let a = #[trigger] r.deep_view()[i];
                        &&& a.action == Action::Started
                        &&& old(self)@.pubsub.workers[wk].queues.contains(a.queue_key)
                        &&& old(self)@.pending.contains_key(a.job_key)
                        &&& old(self)@.pending[a.job_key] == a.queue_key
                        &&& final(self)@.pubsub.jobs_workers.contains_key(a.job_key)
                        &&& final(self)@.pubsub.jobs_workers[a.job_key] == a.worker_key
                    })
                &&& (match first_nonempty(old(self)@.queues, old(self)@.pubsub.workers[wk].queues, 0) {
                    Some(fqi) => r.deep_view().len() == 2 && r.deep_view()[1].action
                        == Action::Started && r.deep_view()[1].queue_key
                        == old(self)@.pubsub.workers[wk].queues[fqi] && r.deep_view()[1].job_key
                        == old(self)@.queues[old(self)@.pubsub.workers[wk].queues[fqi]][0],
                    None => r.deep_view().len() == 1,
                })
            },
            !old(self)@.pubsub.jobs_workers.contains_key(job_key.deep_view()) ==> {
                &&& r.deep_view() == Seq::<AssignmentV>::empty()
                &&& final(self)@.pubsub == old(self)@.pubsub
                &&& final(self)@.worker_queues == old(self)@.worker_queues
                &&& (old(self)@.pending.contains_key(job_key.deep_view()) && old(self)@.pending[job_key.deep_view()] == queue_key@ ==> {
                    &&& final(self)@.pending == old(self)@.pending.remove(job_key.deep_view())
                    &&& final(self)@.queues == old(self)@.queues.insert(
                        queue_key@,
                        seq_drop_one(old(self)@.queues[queue_key@], job_key.deep_view()),
                    )
                })
                &&& (!(old(self)@.pending.contains_key(job_key.deep_view()) && old(self)@.pending[job_key.deep_view()] == queue_key@) ==> final(self)@ == old(self)@)
            },
    {
        let ghost s0 = self@;
        let ghost j = job_key.deep_view();
        let ghost qv = queue_key@;
        match self.pubsub.resign(queue_key, job_key) {
            Some(worker_key) => {
                let ghost wk = worker_key@;
                let ghost s1 = self@;
                proof {
                    assert(wk == s0.pubsub.jobs_workers[j]);
                    assert(s1.pubsub.workers.dom() =~= s0.pubsub.workers.dom());
                    assert(s1.worker_queues.dom() =~= s1.pubsub.workers.dom());
                    assert forall|k: Seq<char>| #[trigger]
                        s1.pubsub.workers.contains_key(k) implies s1.worker_queues[k]
                        == s1.pubsub.workers[k].queues by {
                        if k == wk {
                            assert(s1.pubsub.workers[wk].queues == s0.pubsub.workers[wk].queues);
                        } else {
                            assert(s1.pubsub.workers[k] == s0.pubsub.workers[k]);
                        }
                    }
                    assert forall|j2: JobV| #[trigger] s1.pending.contains_key(j2) implies
                        !s1.pubsub.jobs_workers.contains_key(j2) by {
                        assert(s0.pending.contains_key(j2));
                    }
                    assert forall|q2: Seq<char>| #[trigger] s1.queues.contains_key(q2) implies {
                        let js = s1.queues[q2];
                        &&& (forall|a: int, b: int| 0 <= a < b < js.len() ==> js[a] != js[b])
                        &&& (forall|i: int|
                            0 <= i < js.len() ==> s1.pending.contains_key(#[trigger] js[i])
                                && s1.pending[js[i]] == q2)
                    } by {
                        assert(s0.queues.contains_key(q2));
                        assert(s1.queues[q2] == s0.queues[q2]);
                    }
                    assert forall|j2: JobV| #[trigger] s1.pending.contains_key(j2) implies
                        s1.queues.contains_key(s1.pending[j2])
                        && s1.queues[s1.pending[j2]].contains(j2) by {
                        assert(s0.pending.contains_key(j2));
                        assert(s0.queues[s0.pending[j2]].contains(j2));
                    }
                    assert(self.inv());
                    // the finished job is known nowhere after the resignation
                    assert(!s1.pending.contains_key(j)) by {
                        if s1.pending.contains_key(j) {
                            assert(s0.pending.contains_key(j));
                        }
                    }
                }
                let mut out: Vec<Assignment> = Vec::new();
                out.push(
                    Assignment::new(
                        Action::Done,
                        worker_key.clone(),
                        queue_key.clone(),
                        job_key.clone(),
                    ),
                );
                let wqs = match self.worker_queues.get(&worker_key) {
                    Some(v) => clone_str_vec(v),
                    None => {
                        proof {
                            assert(s1.pubsub.workers.contains_key(wk));
                            assert(false);
                        }
                        Vec::new()
                    },
                };
                proof {
                    assert(wqs.deep_view() == s0.pubsub.workers[wk].queues);
                    // the freed slot makes the worker ready, so it is listed
                    // on every queue it declared: drainable means non-empty
                    let s1v = self@;
                    assert forall|a: int|
                        0 <= a < wqs.deep_view().len() implies s1v.pubsub.queues_workers.contains_key(
                        #[trigger] wqs.deep_view()[a],
                    ) by {
                        assert(s1v.pubsub.workers.contains_key(wk));
                        assert(s1v.pubsub.workers[wk].queues == s0.pubsub.workers[wk].queues);
                        assert(wk_ready(s1v.pubsub.workers[wk]));
                        assert(s1v.pubsub.workers[wk].queues[a] == wqs.deep_view()[a]);
                    }
                    lemma_first_servable_nonempty(s1v, wqs.deep_view(), 0);
                    assert(first_servable(s1v, wqs.deep_view(), 0) == first_nonempty(
                        s0.queues,
                        s0.pubsub.workers[wk].queues,
                        0,
                    ));
                }
                let ghost out0 = out.deep_view();
                let mut more = self.assign_queues(&wqs, Some(1));
                let ghost morev = more.deep_view();
                out.append(&mut more);
                proof {
                    assert(out.deep_view() =~= out0 + morev);
                    assert(morev.len() <= 1);
                    match first_nonempty(s0.queues, s0.pubsub.workers[wk].queues, 0) {
                        Some(fqi) => {
                            assert(morev.len() >= 1);
                            assert(out.deep_view()[1] == morev[0]);
                        },
                        None => {
                            assert(morev.len() == 0);
                        },
                    }
                    assert(!self@.pubsub.jobs_workers.contains_key(j)) by {
                        if self@.pubsub.jobs_workers.contains_key(j) {
                            assert(s1.pubsub.jobs_workers.contains_key(j)
                                || s1.pending.contains_key(j));
                        }
                    }
                    assert forall|i: int| 1 <= i < out.deep_view().len() implies {
                        let a = #[trigger] out.deep_view()[i];
                        &&& a.action == Action::Started
                        &&& s0.pubsub.workers[wk].queues.contains(a.queue_key)
                        &&& s0.pending.contains_key(a.job_key)
                        &&& s0.pending[a.job_key] == a.queue_key
                        &&& self@.pubsub.jobs_workers.contains_key(a.job_key)
                        &&& self@.pubsub.jobs_workers[a.job_key] == a.worker_key
                    } by {
                        let a = morev[i - 1];
                        assert(out.deep_view()[i] == a);
                        assert(s1.pending.contains_key(a.job_key) && s1.pending[a.job_key]
                            == a.queue_key);
                    }
                }
                out
            },
            None => {
                let ghost s1 = self@;
                proof {
                    assert(s1 =~= s0);
                }
                let r: Vec<Assignment> = Vec::new();
                proof {
                    assert(r.deep_view() =~= Seq::<AssignmentV>::empty());
                }
                match self.queues.remove(queue_key) {
                    Some(v) => {
                        let mut v = v;
                        let ghost vdv0 = v.deep_view();
                        match find_jobkey(&v, job_key) {
                            Some(i) => {
                                proof {
                                    assert(vdv0[i as int] == j);
                                    assert(vdv0.contains(j));
                                    assert(s0.pending.contains_key(j) && s0.pending[j] == qv);
                                    let ix = vdv0.index_of(j);
                                    assert(vdv0[ix] == j);
                                    assert(ix == i as int);
                                }
                                let _ = v.remove(i);
                                proof {
                                    assert(v.deep_view() =~= vdv0.remove(i as int));
                                    assert(v.deep_view() == seq_drop_one(vdv0, j));
                                }
                                self.queues.insert(queue_key.clone(), v);
                                let _ = self.pending.remove(job_key);
                                proof {
                                    let m1 = self@;
                                    assert(m1.queues =~= s0.queues.insert(
                                        qv,
                                        seq_drop_one(vdv0, j),
                                    ));
                                    assert(m1.pending =~= s0.pending.remove(j));
                                    let dropped = seq_drop_one(vdv0, j);
                                    lemma_seq_drop_one_nodup(vdv0, j);
                                    assert forall|q2: Seq<char>| #[trigger]
                                        m1.queues.contains_key(q2) implies {
                                        let js = m1.queues[q2];
                                        &&& (forall|a: int, b: int|
                                            0 <= a < b < js.len() ==> js[a] != js[b])
                                        &&& (forall|ii: int|
                                            0 <= ii < js.len() ==> m1.pending.contains_key(
                                                #[trigger] js[ii],
                                            ) && m1.pending[js[ii]] == q2)
                                    } by {
                                        assert(s0.queues.contains_key(q2));
                                        if q2 == qv {
                                            assert forall|ii: int|
                                                0 <= ii < dropped.len() implies
                                                m1.pending.contains_key(#[trigger] dropped[ii])
                                                && m1.pending[dropped[ii]] == q2 by {
                                                lemma_remove_index_membership(vdv0, i as int);
                                                assert(vdv0.contains(dropped[ii]));
                                                let a = choose|a: int|
                                                    0 <= a < vdv0.len() && vdv0[a] == dropped[ii];
                                                assert(s0.pending.contains_key(vdv0[a]));
                                                assert(dropped[ii] != j);
                                            }
                                            assert forall|a: int, b: int|
                                                0 <= a < b < dropped.len() implies dropped[a]
                                                != dropped[b] by {
                                                assert(forall|p: int, q: int|
                                                    0 <= p < q < vdv0.len() ==> vdv0[p]
                                                        != vdv0[q]);
                                            }
                                        } else {
                                            let js = s0.queues[q2];
                                            assert forall|ii: int|
                                                0 <= ii < js.len() implies m1.pending.contains_key(
                                                #[trigger] js[ii],
                                            ) && m1.pending[js[ii]] == q2 by {
                                                assert(s0.pending.contains_key(js[ii])
                                                    && s0.pending[js[ii]] == q2);
                                                assert(js[ii] != j);
                                            }
                                        }
                                    }
                                    assert forall|j2: JobV| #[trigger]
                                        m1.pending.contains_key(j2) implies m1.queues.contains_key(
                                        m1.pending[j2],
                                    ) && m1.queues[m1.pending[j2]].contains(j2) by {
                                        assert(s0.pending.contains_key(j2) && j2 != j);
                                        let q2 = s0.pending[j2];
                                        assert(s0.queues[q2].contains(j2));
                                        if q2 == qv {
                                            lemma_seq_drop_one_others(vdv0, j, j2);
                                            assert(m1.queues[q2].contains(j2));
                                        }
                                    }
                                }
                            },
                            None => {
                                proof {
                                    // the job is not waiting here: put the
                                    // entry back unchanged
                                    if s0.pending.contains_key(j) && s0.pending[j] == qv {
                                        assert(s0.queues[qv].contains(j));
                                        let a = choose|a: int|
                                            0 <= a < vdv0.len() && vdv0[a] == j;
                                        assert(false);
                                    }
                                }
                                self.queues.insert(queue_key.clone(), v);
                                proof {
                                    assert(self@.queues =~= s0.queues);
                                    assert(self@ =~= s0);
                                }
                            },
                        }
                    },
                    None => {
                        proof {
                            if s0.pending.contains_key(j) && s0.pending[j] == qv {
                                assert(s0.queues.contains_key(qv));
                            }
                            assert(self@.queues =~= s0.queues);
                            assert(self@ =~= s0);
                        }
                    },
                }
                r
            },
        }
    }
}

/// A live job key is tracked exactly once. An assigned job sits in no
/// queue, and a pending job sits in exactly one queue at one position.
pub proof fn lemma_job_tracked_once(m: MultiQueueV, j: JobV)
    requires
        mq_inv(m),
    ensures
        m.pubsub.jobs_workers.contains_key(j) ==> forall|q: Seq<char>| #[trigger]
            m.queues.contains_key(q) ==> !m.queues[q].contains(j),
        forall|q1: Seq<char>, q2: Seq<char>, i1: int, i2: int|
            m.queues.contains_key(q1) && m.queues.contains_key(q2) && 0 <= i1
                < m.queues[q1].len() && 0 <= i2 < m.queues[q2].len() && #[trigger] m.queues[q1][i1]
                == j && #[trigger] m.queues[q2][i2] == j ==> q1 == q2 && i1 == i2,
{
    if m.pubsub.jobs_workers.contains_key(j) {
        assert forall|q: Seq<char>| #[trigger] m.queues.contains_key(q) implies !m.queues[q].contains(
            j,
        ) by {
            if m.queues[q].contains(j) {
                let i = choose|i: int| 0 <= i < m.queues[q].len() && m.queues[q][i] == j;
                assert(m.pending.contains_key(m.queues[q][i]));
            }
        }
    }
    assert forall|q1: Seq<char>, q2: Seq<char>, i1: int, i2: int|
        m.queues.contains_key(q1) && m.queues.contains_key(q2) && 0 <= i1 < m.queues[q1].len() && 0
            <= i2 < m.queues[q2].len() && #[trigger] m.queues[q1][i1] == j
            && #[trigger] m.queues[q2][i2] == j implies q1 == q2 && i1 == i2 by {
        assert(m.pending.contains_key(m.queues[q1][i1]) && m.pending[m.queues[q1][i1]] == q1);
        assert(m.pending.contains_key(m.queues[q2][i2]) && m.pending[m.queues[q2][i2]] == q2);
    }
}

/// Every held assignment is sound: the job is recorded for a registered
/// worker that really holds it, the worker sits within its capacity, and the
/// job waits in no queue.
pub proof fn lemma_assignment_sound(m: MultiQueueV, j: JobV)
    requires
        mq_inv(m),
        m.pubsub.jobs_workers.contains_key(j),
    ensures
        m.pubsub.workers.contains_key(m.pubsub.jobs_workers[j]),
        wk_holds(m.pubsub.workers[m.pubsub.jobs_workers[j]], j),
        match m.pubsub.workers[m.pubsub.jobs_workers[j]].capacity {
            Some(c) => m.pubsub.workers[m.pubsub.jobs_workers[j]].current.len() <= c,
            None => true,
        },
        forall|q: Seq<char>| #[trigger] m.queues.contains_key(q) ==> !m.queues[q].contains(j),
{
    lemma_job_tracked_once(m, j);
}

/// Work of a removed worker is re-offered and absorbed: a job that waits in
/// a queue (for instance because `worker_remove` re-queued it there) is
/// assigned again, and appears in the returned `Started` list, once a worker
/// of unbounded capacity declaring that queue has been added. The
/// hypotheses on `s2` and `out` are the contract of `worker_add`;
/// `worker_remove` ensures that every job the removed worker held becomes
/// pending on its queue.
pub proof fn lemma_removed_work_reassigned(
    s1: MultiQueueV,
    s2: MultiQueueV,
    qs: Seq<Seq<char>>,
    wk2: Seq<char>,
    out: Seq<AssignmentV>,
    j: JobV,
)
    requires
        mq_inv(s1),
        mq_inv(s2),
        s1.pending.contains_key(j),
        qs.contains(s1.pending[j]),
        s2.pubsub.workers.contains_key(wk2),
        s2.pubsub.workers[wk2].capacity is None,
        s2.pubsub.workers[wk2].queues == qs,
        forall|jx: JobV| #[trigger]
            s2.pending.contains_key(jx) ==> s1.pending.contains_key(jx) && s2.pending[jx]
                == s1.pending[jx],
        forall|jx: JobV|
            s1.pending.contains_key(jx) && !s2.pending.contains_key(jx) ==> #[trigger]
                s2.pubsub.jobs_workers.contains_key(jx),
        forall|jx: JobV|
            s1.pending.contains_key(jx) && !(#[trigger] s2.pending.contains_key(jx))
                ==> exists|ix: int|
                0 <= ix < out.len() && (#[trigger] out[ix]).job_key == jx,
        forall|ix: int| 0 <= ix < out.len() ==> (#[trigger] out[ix]).action == Action::Started,
        forall|qi: int|
            0 <= qi < qs.len() ==> (s1.queues.contains_key(#[trigger] qs[qi])
                ==> s2.queues[qs[qi]].len() == 0),
    ensures
        s2.pubsub.jobs_workers.contains_key(j),
        exists|ix: int|
            0 <= ix < out.len() && (#[trigger] out[ix]).job_key == j && out[ix].action
                == Action::Started,
{
    if s2.pending.contains_key(j) {
        let q = s1.pending[j];
        assert(s2.queues.contains_key(s2.pending[j]) && s2.queues[s2.pending[j]].contains(j));
        assert(s1.queues.contains_key(q));
        let qi = choose|qi: int| 0 <= qi < qs.len() && qs[qi] == q;
        assert(s2.queues[q].len() == 0);
    }
    let ix = choose|ix: int| 0 <= ix < out.len() && (#[trigger] out[ix]).job_key == j;
    assert(out[ix].action == Action::Started);
}

} // verus!
