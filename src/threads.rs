use std::collections::VecDeque;
use vstd::prelude::*;

verus! {

/// A unit of work handed to the pool: either the signal that ends a worker,
/// or an update to run on some target.
pub enum Job<T> {
    Terminate,
    Invoke(T),
}

/// What a worker is doing, as the pool's bookkeeping sees it.
#[derive(PartialEq, Eq, Structural, Clone, Copy, Debug)]
pub enum WorkerState {
    /// Waiting for the next job.
    Idle,
    /// Executing a job; `closing` is set when that job is `Terminate`.
    Running { closing: bool },
    /// Took a `Terminate` job and left its loop.
    Exited,
}

/// A worker's stable identity and its current state.
#[derive(PartialEq, Eq, Structural, Clone, Copy, Debug)]
pub struct Worker {
    pub id: usize,
    pub state: WorkerState,
}

/// The control state of a frame-synchronised worker pool: the job queue,
/// the outstanding-job counter and the state of each worker.
///
/// Every job gets a ticket when it is submitted, in order. Ghost state
/// records which tickets are queued, which worker runs which ticket and which
/// tickets have finished.
pub struct Threads<T> {
    workers: Vec<Worker>,
    queue: VecDeque<Job<T>>,
    jobs_running: usize,
    issued: Ghost<nat>,
    running: Ghost<Map<int, nat>>,
    done: Ghost<Set<nat>>,
    terminates: Ghost<nat>,
    terminates_seen: usize,
    stopped: Ghost<Set<int>>,
}

/// Whether `c` is a copy of `j`: `Terminate` for `Terminate`, and for
/// `Invoke(t)` an `Invoke` of a clone of `t`.
pub open spec fn copy_of<T: Clone>(c: Job<T>, j: Job<T>) -> bool {
    match c {
        Job::Terminate => j is Terminate,
        Job::Invoke(u) => match j {
            Job::Invoke(t) => vstd::pervasive::cloned(t, u),
            Job::Terminate => false,
        },
    }
}

/// The number of `Terminate` jobs in `s`.
pub open spec fn terminate_count<T>(s: Seq<Job<T>>) -> nat
    decreases s.len(),
{
    if s.len() == 0 {
        0
    } else {
        terminate_count(s.drop_last()) + if s.last() is Terminate { 1nat } else { 0nat }
    }
}

proof fn lemma_terminate_count_concat<T>(a: Seq<Job<T>>, b: Seq<Job<T>>)
    ensures
        terminate_count(a + b) == terminate_count(a) + terminate_count(b),
    decreases b.len(),
{
    if b.len() == 0 {
        assert(a + b == a);
    } else {
        lemma_terminate_count_concat(a, b.drop_last());
        assert((a + b).drop_last() == a + b.drop_last());
    }
}

proof fn lemma_terminate_count_front<T>(s: Seq<Job<T>>)
    requires
        s.len() > 0,
    ensures
        terminate_count(s) == terminate_count(s.drop_first()) + if s[0] is Terminate { 1nat } else { 0nat },
{
    let head = seq![s[0]];
    assert(s == head + s.drop_first());
    lemma_terminate_count_concat(head, s.drop_first());
    assert(head.drop_last() == Seq::<Job<T>>::empty());
    assert(terminate_count(head.drop_last()) == 0);
    assert(head.last() == s[0]);
    assert(terminate_count(head) == if s[0] is Terminate { 1nat } else { 0nat });
}

impl<T> Threads<T> {
    /// The jobs waiting in the queue, front first.
    pub closed spec fn pending(&self) -> Seq<Job<T>> {
        self.queue@
    }

    /// The outstanding-job counter.
    pub closed spec fn outstanding(&self) -> nat {
        self.jobs_running as nat
    }

    /// The workers, indexed by identity.
    pub closed spec fn workers(&self) -> Seq<Worker> {
        self.workers@
    }

    /// How many tickets have been handed out.
    pub closed spec fn issued(&self) -> nat {
        self.issued@
    }

    /// The ticket held by each running worker.
    pub closed spec fn running(&self) -> Map<int, nat> {
        self.running@
    }

    /// The tickets whose jobs have finished executing.
    pub closed spec fn done(&self) -> Set<nat> {
        self.done@
    }

    /// How many `Terminate` jobs have been submitted.
    pub closed spec fn terminates(&self) -> nat {
        self.terminates@
    }

    /// The workers that have taken a `Terminate` job.
    pub closed spec fn stopped(&self) -> Set<int> {
        self.stopped@
    }

    /// The first ticket still in the queue: every ticket below it has been
    /// delivered to a worker.
    pub open spec fn head(&self) -> int {
        self.issued() - self.pending().len()
    }

    /// Whether the worker at index `w` is waiting for a job.
    pub open spec fn is_idle(&self, w: int) -> bool {
        self.workers()[w].state == WorkerState::Idle
    }

    /// Whether the worker at index `w` is executing a job.
    pub open spec fn is_running(&self, w: int) -> bool {
        self.workers()[w].state is Running
    }

    /// Whether the worker at index `w` has left its loop.
    pub open spec fn is_exited(&self, w: int) -> bool {
        self.workers()[w].state == WorkerState::Exited
    }

    /// The pool's invariant: the counter equals the queued jobs plus the
    /// running workers; every ticket below the queue's head is held by exactly
    /// one running worker or has finished; and the workers that took a
    /// `Terminate` account, with the queue, for every `Terminate` submitted.
    pub closed spec fn wf(&self) -> bool {
        &&& self.workers@.len() >= 1
        &&& forall|i: int| 0 <= i < self.workers@.len() ==> (#[trigger] self.workers@[i]).id == i
        &&& self.running@.dom().finite()
        &&& self.jobs_running == self.queue@.len() + self.running@.dom().len()
        &&& self.queue@.len() <= self.issued@
        &&& forall|i: int| #[trigger] self.running@.dom().contains(i) ==> 0 <= i < self.workers@.len()
        &&& forall|i: int| 0 <= i < self.workers@.len() ==>
                ((#[trigger] self.workers@[i]).state is Running <==> self.running@.dom().contains(i))
        &&& forall|i: int| #[trigger] self.running@.dom().contains(i) ==> self.running@[i] < self.head()
        &&& forall|i: int| #[trigger] self.running@.dom().contains(i) ==> !self.done@.contains(self.running@[i])
        &&& forall|i: int, j: int|
                #[trigger] self.running@.dom().contains(i) && #[trigger] self.running@.dom().contains(j) && i != j
                ==> self.running@[i] != self.running@[j]
        &&& forall|t: nat| #[trigger] self.done@.contains(t) ==> t < self.head()
        &&& self.terminates_seen as nat == if self.terminates@ < self.workers@.len() {
                self.terminates@
            } else {
                self.workers@.len() as nat
            }
        &&& self.stopped@.finite()
        &&& self.stopped@.len() + terminate_count(self.queue@) == self.terminates@
        &&& forall|i: int| #[trigger] self.stopped@.contains(i) ==> 0 <= i < self.workers@.len()
        &&& forall|i: int| 0 <= i < self.workers@.len() ==>
                (#[trigger] self.stopped@.contains(i) <==>
                    (self.workers@[i].state == WorkerState::Exited
                     || self.workers@[i].state == (WorkerState::Running { closing: true })))
        &&& forall|t: nat| t < self.head() ==>
                #[trigger] self.done@.contains(t) || exists|i: int| #[trigger] self.running@.dom().contains(i) && self.running@[i] == t
    }

    /// A pool of `worker_count` idle workers, an empty queue and a zero counter.
    pub fn with_workers(worker_count: usize) -> (r: Self)
        requires
            worker_count >= 1,
        ensures
            r.wf(),
            r.workers().len() == worker_count,
            forall|i: int| 0 <= i < worker_count ==> #[trigger] r.workers()[i] == (Worker { id: i as usize, state: WorkerState::Idle }),
            r.pending() == Seq::<Job<T>>::empty(),
            r.outstanding() == 0,
            r.issued() == 0,
            r.done() == Set::<nat>::empty(),
            r.running() == Map::<int, nat>::empty(),
            r.terminates() == 0,
            r.stopped() == Set::<int>::empty(),
    {
        let mut workers: Vec<Worker> = Vec::new();
        let mut id: usize = 0;
        while id < worker_count
            invariant
                id <= worker_count,
                workers@.len() == id,
                forall|i: int| 0 <= i < id ==> #[trigger] workers@[i] == (Worker { id: i as usize, state: WorkerState::Idle }),
            decreases worker_count - id,
        {
            workers.push(Worker { id, state: WorkerState::Idle });
            id = id + 1;
        }
        Threads {
            workers,
            queue: VecDeque::new(),
            jobs_running: 0,
            issued: Ghost(0),
            running: Ghost(Map::empty()),
            done: Ghost(Set::empty()),
            terminates: Ghost(0),
            terminates_seen: 0,
            stopped: Ghost(Set::empty()),
        }
    }

    /// Submits one job: the counter goes up by one before the job is queued.
    pub fn send(&mut self, job: Job<T>)
        requires
            old(self).wf(),
            old(self).outstanding() < usize::MAX,
            old(self).terminates() < old(self).workers().len(),
        ensures
            final(self).wf(),
            final(self).pending() == old(self).pending().push(job),
            final(self).outstanding() == old(self).outstanding() + 1,
            final(self).issued() == old(self).issued() + 1,
            final(self).workers() == old(self).workers(),
            final(self).running() == old(self).running(),
            final(self).done() == old(self).done(),
            final(self).terminates() == old(self).terminates() + if job is Terminate { 1nat } else { 0nat },
            final(self).stopped() == old(self).stopped(),
    {
        let closing = match &job {
            Job::Terminate => true,
            Job::Invoke(_) => false,
        };
        if closing && self.terminates_seen < self.workers.len() {
            self.terminates_seen = self.terminates_seen + 1;
        }
        self.jobs_running = self.jobs_running + 1;
        self.queue.push_back(job);
        proof {
            assert(self.queue@.drop_last() == old(self).queue@);
            self.terminates@ = self.terminates@ + if closing { 1nat } else { 0nat };
        }
        self.issued = Ghost((self.issued@ + 1) as nat);
    }

    /// Submits a batch: the counter goes up by the batch's length once, then
    /// every job of the batch is queued in order.
    pub fn send_jobs(&mut self, jobs: Vec<Job<T>>)
        requires
            old(self).wf(),
            old(self).outstanding() + jobs@.len() <= usize::MAX,
            old(self).terminates() < old(self).workers().len(),
        ensures
            final(self).wf(),
            final(self).pending() == old(self).pending() + jobs@,
            final(self).outstanding() == old(self).outstanding() + jobs@.len(),
            final(self).issued() == old(self).issued() + jobs@.len(),
            final(self).workers() == old(self).workers(),
            final(self).running() == old(self).running(),
            final(self).done() == old(self).done(),
            final(self).terminates() == old(self).terminates() + terminate_count(jobs@),
            final(self).stopped() == old(self).stopped(),
    {
        let n = jobs.len();
        self.jobs_running = self.jobs_running + n;
        self.issued = Ghost((self.issued@ + n) as nat);
        let ghost start = self.queue@;
        let mut rest = jobs;
        let mut k: usize = 0;
        while k < n
            invariant
                k <= n,
                n == jobs@.len(),
                rest@ == jobs@.subrange(k as int, n as int),
                self.queue@ == start + jobs@.subrange(0, k as int),
                start == old(self).queue@,
                self.jobs_running == old(self).jobs_running + n,
                self.issued@ == old(self).issued@ + n,
                self.workers@ == old(self).workers@,
                self.running@ == old(self).running@,
                self.done@ == old(self).done@,
                self.terminates@ == old(self).terminates@,
                self.stopped@ == old(self).stopped@,
                self.terminates_seen as nat == if old(self).terminates@ + terminate_count(jobs@.subrange(0, k as int)) < self.workers@.len() {
                    old(self).terminates@ + terminate_count(jobs@.subrange(0, k as int))
                } else {
                    self.workers@.len() as nat
                },
            decreases n - k,
        {
            let job = rest.remove(0);
            assert(jobs@.subrange(0, k as int + 1) == jobs@.subrange(0, k as int).push(job));
            assert(jobs@.subrange(0, k as int + 1).drop_last() == jobs@.subrange(0, k as int));
            let closing = match &job {
                Job::Terminate => true,
                Job::Invoke(_) => false,
            };
            if closing && self.terminates_seen < self.workers.len() {
                self.terminates_seen = self.terminates_seen + 1;
            }
            self.queue.push_back(job);
            assert(rest@ == jobs@.subrange(k as int + 1, n as int));
            k = k + 1;
        }
        assert(jobs@.subrange(0, n as int) == jobs@);
        proof {
            lemma_terminate_count_concat(start, jobs@);
            self.terminates@ = self.terminates@ + terminate_count(jobs@);
        }
    }

    /// Decides the barrier: whether a caller of `wait` must block on the
    /// completion signal. It must exactly when some job is outstanding.
    pub fn wait(&self) -> (blocks: bool)
        ensures
            blocks == (self.outstanding() > 0),
    {
        self.jobs_running > 0
    }

    /// The number of workers.
    pub fn worker_count(&self) -> (r: usize)
        ensures
            r == self.workers().len(),
    {
        self.workers.len()
    }

    /// The worker with identity `w`.
    pub fn worker(&self, w: usize) -> (r: Worker)
        requires
            w < self.workers().len(),
        ensures
            r == self.workers()[w as int],
    {
        self.workers[w]
    }

    /// Whether the pool has been shut down: at least one `Terminate` has
    /// been submitted per worker, so no further job may be submitted.
    pub fn is_shut_down(&self) -> (r: bool)
        requires
            self.wf(),
        ensures
            r == (self.terminates() >= self.workers().len()),
    {
        self.terminates_seen >= self.workers.len()
    }

    /// The outstanding-job counter.
    pub fn jobs_outstanding(&self) -> (r: usize)
        ensures
            r == self.outstanding(),
    {
        self.jobs_running
    }

    /// The idle worker `w` asks for work. With an empty queue nothing changes
    /// and `None` comes back; otherwise the front job is delivered to `w`,
    /// which is then running it under the front ticket.
    pub fn take(&mut self, w: usize) -> (r: Option<Job<T>>)
        requires
            old(self).wf(),
            w < old(self).workers().len(),
            old(self).is_idle(w as int),
        ensures
            final(self).wf(),
            final(self).outstanding() == old(self).outstanding(),
            final(self).issued() == old(self).issued(),
            final(self).done() == old(self).done(),
            old(self).pending().len() == 0 ==> r is None && *final(self) == *old(self),
            old(self).pending().len() > 0 ==> {
                &&& r == Some(old(self).pending()[0])
                &&& final(self).pending() == old(self).pending().drop_first()
                &&& final(self).workers() == old(self).workers().update(w as int,
                        Worker { id: w, state: WorkerState::Running { closing: old(self).pending()[0] is Terminate } })
                &&& final(self).running() == old(self).running().insert(w as int, old(self).head() as nat)
                &&& final(self).stopped() == if old(self).pending()[0] is Terminate {
                        old(self).stopped().insert(w as int)
                    } else {
                        old(self).stopped()
                    }
            },
            final(self).terminates() == old(self).terminates(),
    {
        if self.queue.len() == 0 {
            return None;
        }
        let ghost old_head = self.head();
        proof {
            lemma_terminate_count_front(self.queue@);
        }
        let job = self.queue.pop_front().unwrap();
        let closing = match &job {
            Job::Terminate => true,
            Job::Invoke(_) => false,
        };
        self.workers.set(w, Worker { id: w, state: WorkerState::Running { closing } });
        proof {
            assert(!self.running@.dom().contains(w as int));
            let old_running = self.running@;
            self.running@ = self.running@.insert(w as int, old_head as nat);
            assert(!self.stopped@.contains(w as int));
            if closing {
                self.stopped@ = self.stopped@.insert(w as int);
            }
            assert forall|t: nat| t < self.head() implies
                #[trigger] self.done@.contains(t) || exists|i: int| #[trigger] self.running@.dom().contains(i) && self.running@[i] == t
            by {
                if t == old_head {
                    assert(self.running@.dom().contains(w as int) && self.running@[w as int] == t);
                } else if !self.done@.contains(t) {
                    let i = choose|i: int| #[trigger] old_running.dom().contains(i) && old_running[i] == t;
                    assert(i != w);
                    assert(self.running@.dom().contains(i) && self.running@[i] == t);
                }
            }
        }
        Some(job)
    }

    /// The running worker `w` has finished its job. The counter goes down by
    /// one and the job's ticket counts as done. After a `Terminate` job the
    /// worker has exited and nothing is signalled; after any other job it is
    /// idle again, and the completion signal fires exactly when the counter,
    /// as this decrement left it, reads zero.
    pub fn finish(&mut self, w: usize) -> (signal: bool)
        requires
            old(self).wf(),
            w < old(self).workers().len(),
            old(self).is_running(w as int),
        ensures
            final(self).wf(),
            final(self).outstanding() + 1 == old(self).outstanding(),
            final(self).pending() == old(self).pending(),
            final(self).issued() == old(self).issued(),
            !old(self).done().contains(old(self).running()[w as int]),
            final(self).done() == old(self).done().insert(old(self).running()[w as int]),
            final(self).running() == old(self).running().remove(w as int),
            final(self).terminates() == old(self).terminates(),
            final(self).stopped() == old(self).stopped(),
            old(self).workers()[w as int].state == (WorkerState::Running { closing: true }) ==> {
                &&& !signal
                &&& final(self).workers() == old(self).workers().update(w as int, Worker { id: w, state: WorkerState::Exited })
            },
            old(self).workers()[w as int].state == (WorkerState::Running { closing: false }) ==> {
                &&& signal == (final(self).outstanding() == 0)
                &&& final(self).workers() == old(self).workers().update(w as int, Worker { id: w, state: WorkerState::Idle })
            },
    {
        assert(self.running@.dom().contains(w as int));
        let ghost t = self.running@[w as int];
        let closing = match self.workers[w].state {
            WorkerState::Running { closing } => closing,
            _ => false,
        };
        proof {
            assert(self.running@.dom().remove(w as int).len() + 1 == self.running@.dom().len());
        }
        self.jobs_running = self.jobs_running - 1;
        let next = if closing { WorkerState::Exited } else { WorkerState::Idle };
        self.workers.set(w, Worker { id: w, state: next });
        proof {
            let old_running = self.running@;
            self.running@ = self.running@.remove(w as int);
            self.done@ = self.done@.insert(t);
            assert(self.running@.dom() == old_running.dom().remove(w as int));
            assert forall|u: nat| u < self.head() implies
                #[trigger] self.done@.contains(u) || exists|i: int| #[trigger] self.running@.dom().contains(i) && self.running@[i] == u
            by {
                if u != t && !self.done@.contains(u) {
                    let i = choose|i: int| #[trigger] old_running.dom().contains(i) && old_running[i] == u;
                    assert(i != w);
                    assert(self.running@.dom().contains(i));
                }
            }
        }
        !closing && self.jobs_running == 0
    }
}

/// Relies on num_cpus::get: the number of logical CPUs, which is at least one.
#[verifier::external_body]
fn logical_cores() -> (r: usize)
    ensures
        r >= 1,
{
    num_cpus::get()
}

impl<T> Threads<T> {
    /// A pool with one idle worker per logical CPU of the machine.
    pub fn new() -> (r: Self)
        ensures
            r.wf(),
            r.workers().len() >= 1,
            forall|i: int| 0 <= i < r.workers().len() ==> #[trigger] r.workers()[i] == (Worker { id: i as usize, state: WorkerState::Idle }),
            r.pending() == Seq::<Job<T>>::empty(),
            r.outstanding() == 0,
            r.issued() == 0,
            r.done() == Set::<nat>::empty(),
            r.running() == Map::<int, nat>::empty(),
            r.terminates() == 0,
            r.stopped() == Set::<int>::empty(),
    {
        Self::with_workers(logical_cores())
    }
}

impl<T: Clone> Threads<T> {
    /// Sends one copy of `job` to each worker, as a single batch. A copy of
    /// `Terminate` is `Terminate`; a copy of `Invoke(t)` is `Invoke` of a
    /// clone of `t`.
    pub fn send_to_all(&mut self, job: Job<T>)
        requires
            old(self).wf(),
            old(self).outstanding() + old(self).workers().len() <= usize::MAX,
            old(self).terminates() < old(self).workers().len(),
        ensures
            final(self).wf(),
            final(self).pending().len() == old(self).pending().len() + old(self).workers().len(),
            final(self).pending().subrange(0, old(self).pending().len() as int) == old(self).pending(),
            forall|k: int| old(self).pending().len() <= k < final(self).pending().len() ==>
                copy_of(#[trigger] final(self).pending()[k], job),
            final(self).outstanding() == old(self).outstanding() + old(self).workers().len(),
            final(self).issued() == old(self).issued() + old(self).workers().len(),
            final(self).workers() == old(self).workers(),
            final(self).running() == old(self).running(),
            final(self).done() == old(self).done(),
            final(self).stopped() == old(self).stopped(),
            final(self).terminates() == old(self).terminates() + if job is Terminate { old(self).workers().len() } else { 0 },
    {
        let n = self.workers.len();
        let closing = match &job {
            Job::Terminate => true,
            Job::Invoke(_) => false,
        };
        let mut batch: Vec<Job<T>> = Vec::new();
        let mut k: usize = 0;
        while k < n
            invariant
                k <= n,
                batch@.len() == k,
                closing == job is Terminate,
                forall|m: int| 0 <= m < k ==> ((#[trigger] batch@[m]) is Terminate <==> closing),
                forall|m: int| 0 <= m < k ==> copy_of(#[trigger] batch@[m], job),
                terminate_count(batch@) == if closing { k as nat } else { 0nat },
            decreases n - k,
        {
            let ghost prev = batch@;
            let copy = match &job {
                Job::Terminate => Job::Terminate,
                Job::Invoke(t) => Job::Invoke(t.clone()),
            };
            batch.push(copy);
            assert(batch@.drop_last() == prev);
            k = k + 1;
        }
        let ghost old_pending = self.queue@;
        self.send_jobs(batch);
        assert((old_pending + batch@).subrange(0, old_pending.len() as int) == old_pending);
    }
}

/// Once every worker has been sent one `Terminate` and the counter reads
/// zero, every worker has exited its loop.
pub proof fn lemma_clean_shutdown<T>(p: &Threads<T>)
    requires
        p.wf(),
        p.terminates() == p.workers().len(),
        p.outstanding() == 0,
    ensures
        forall|i: int| 0 <= i < p.workers().len() ==> #[trigger] p.is_exited(i),
{
    lemma_drained_means_all_done(p);
    assert(p.queue@ == Seq::<Job<T>>::empty());
    assert(terminate_count(p.queue@) == 0);
    let n = p.workers@.len() as int;
    assert forall|i: int| 0 <= i < n implies #[trigger] p.is_exited(i) by {
        if !p.stopped@.contains(i) {
            let range = vstd::set_lib::set_int_range(0, n);
            vstd::set_lib::lemma_int_range(0, n);
            assert(range.contains(i));
            assert(p.stopped@.subset_of(range.remove(i)));
            vstd::set_lib::lemma_len_subset(p.stopped@, range.remove(i));
        }
        assert(!p.is_running(i));
    }
}

/// While fewer `Terminate` jobs than workers have been submitted, some worker
/// has not exited, so a queued job is never left without a worker to take it.
pub proof fn lemma_live_worker_exists<T>(p: &Threads<T>)
    requires
        p.wf(),
        p.terminates() < p.workers().len(),
    ensures
        exists|i: int| 0 <= i < p.workers().len() && !#[trigger] p.is_exited(i),
{
    let n = p.workers@.len() as int;
    let range = vstd::set_lib::set_int_range(0, n);
    vstd::set_lib::lemma_int_range(0, n);
    if forall|i: int| 0 <= i < n ==> #[trigger] p.is_exited(i) {
        assert forall|i: int| #[trigger] range.contains(i) implies p.stopped@.contains(i) by {
            assert(p.is_exited(i));
        }
        assert(range.subset_of(p.stopped@));
        vstd::set_lib::lemma_len_subset(range, p.stopped@);
    }
}

/// Once the counter reads zero, the queue is empty, no worker holds a job,
/// and the job of every ticket ever handed out has finished.
pub proof fn lemma_drained_means_all_done<T>(p: &Threads<T>)
    requires
        p.wf(),
        p.outstanding() == 0,
    ensures
        p.pending().len() == 0,
        p.running().dom() == Set::<int>::empty(),
        forall|i: int| 0 <= i < p.workers().len() ==> !p.is_running(i),
        forall|t: nat| t < p.issued() ==> #[trigger] p.done().contains(t),
{
    p.running@.dom().lemma_len0_is_empty();
    assert forall|i: int| 0 <= i < p.workers().len() implies !p.is_running(i) by {
        assert(p.workers@[i].state is Running <==> p.running@.dom().contains(i));
    }
    assert forall|t: nat| t < p.issued() implies #[trigger] p.done().contains(t) by {
        assert(t < p.head());
        if !p.done@.contains(t) {
            let i = choose|i: int| #[trigger] p.running@.dom().contains(i) && p.running@[i] == t;
            assert(p.running@.dom().contains(i));
        }
    }
}

/// Every ticket handed out is in exactly one place: still in the queue, held
/// by exactly one worker, or finished.
pub proof fn lemma_single_owner<T>(p: &Threads<T>, t: nat)
    requires
        p.wf(),
        t < p.issued(),
    ensures
        t >= p.head() ==> !p.done().contains(t),
        t >= p.head() ==> forall|i: int| #[trigger] p.running().dom().contains(i) ==> p.running()[i] != t,
        t < p.head() ==> (p.done().contains(t) <==> !exists|i: int| #[trigger] p.running().dom().contains(i) && p.running()[i] == t),
        forall|i: int, j: int|
            #[trigger] p.running().dom().contains(i) && #[trigger] p.running().dom().contains(j)
            && p.running()[i] == t && p.running()[j] == t ==> i == j,
{
    if t < p.head() && p.done@.contains(t) {
        assert forall|i: int| #[trigger] p.running@.dom().contains(i) implies p.running@[i] != t by {
            assert(!p.done@.contains(p.running@[i]));
        }
    }
    if t < p.head() && !p.done@.contains(t) {
        assert(exists|i: int| #[trigger] p.running@.dom().contains(i) && p.running@[i] == t);
        let i = choose|i: int| #[trigger] p.running@.dom().contains(i) && p.running@[i] == t;
        assert(p.running().dom().contains(i) && p.running()[i] == t);
    }
}

/// The counter is the number of queued jobs plus the number of workers that
/// are running one; so it is at least one while any worker runs a job, and a
/// finishing worker never takes it below zero.
pub proof fn lemma_counter_accounts<T>(p: &Threads<T>, w: int)
    requires
        p.wf(),
    ensures
        p.outstanding() == p.pending().len() + p.running().dom().len(),
        0 <= w < p.workers().len() && p.is_running(w) ==> p.outstanding() >= 1,
{
    if 0 <= w < p.workers().len() && p.is_running(w) {
        assert(p.running@.dom().contains(w));
        vstd::set_lib::lemma_set_empty_equivalency_len(p.running@.dom());
    }
}

} // verus!
