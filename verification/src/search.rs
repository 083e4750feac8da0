//! The optimiser's main loop: which circuit is rewritten next, which rewritten circuits are
//! kept, and when the search ends.

use crate::queue::{queue_is_empty, queue_items, queue_len, queue_new, queue_pop, queue_push};
use priority_queue::PriorityQueue;
use std::collections::{HashMap, HashSet};
use vstd::prelude::*;

verus! {

broadcast use vstd::std_specs::hash::group_hash_axioms;

/// Whether a worker has circuits waiting for it.
#[derive(Clone, Copy, PartialEq, Eq, Debug, Structural)]
pub enum ChannelStatus {
    NonEmpty,
    Empty,
}

/// What goes over the channels between the main loop and its workers.
pub enum ChannelMsg<M> {
    /// A piece of work, or a result.
    Item(M),
    /// To a worker: there is no more work. From a worker, with its number: it has run dry.
    Empty(usize),
    /// A worker has met an invalid rewrite.
    Panic,
}

/// A worker has reported that it panicked.
#[derive(Clone, Copy, PartialEq, Eq, Debug, Structural)]
pub struct ThreadPanicked;

/// The priority of a circuit of the given cost: the cheaper the circuit, the greater it is.
pub open spec fn spec_rev_cost(cost: usize) -> usize {
    (usize::MAX - cost) as usize
}

/// Turns a cost into a priority, and a priority back into its cost.
pub fn rev_cost(cost: usize) -> (priority: usize)
    ensures
        priority == spec_rev_cost(cost),
        priority == usize::MAX - cost,
{
    usize::MAX - cost
}

/// What is known of a circuit that a worker has sent back: its cost, and whether its priority
/// is close enough to the best one for the circuit to be worth rewriting in turn.
#[derive(Clone, Copy, PartialEq, Eq, Debug, Structural)]
pub struct Appraisal {
    pub cost: usize,
    pub in_range: bool,
}

/// The circuit to rewrite next.
pub struct Popped<C> {
    /// The hash of the circuit.
    pub hash: usize,
    pub circ: C,
    /// Whether the circuit is better than all that came before it.
    pub new_best: bool,
}

/// A try to hand a circuit to a worker without waiting.
#[derive(Clone, Copy, PartialEq, Eq, Debug, Structural)]
pub struct SendAttempt {
    /// The worker.
    pub target: usize,
    /// How many workers were tried for this circuit, this one included.
    pub tries: usize,
}

/// What to do once a worker had no room for a circuit.
#[derive(Clone, Copy, PartialEq, Eq, Debug, Structural)]
pub enum SendStep {
    /// Try the next worker.
    Try(SendAttempt),
    /// All workers were tried: wait until this one has room.
    Block(usize),
}

/// How the search stands.
#[derive(Clone, Copy, PartialEq, Eq, Debug, Structural)]
pub enum Progress {
    /// There is work left.
    Running,
    /// No circuit waits, neither here nor at a worker.
    Exhausted,
    /// There is work left, but no time.
    TimedOut,
}

/// The state of a search, as the contracts of `Search` speak of it.
#[verifier::ext_equal]
pub struct SearchState<C> {
    /// The priority of each waiting circuit, by hash.
    pub queue: Map<usize, usize>,
    /// The waiting circuits, by hash.
    pub circs: Map<usize, C>,
    /// The hashes of all circuits that ever waited.
    pub seen: Set<usize>,
    /// The best circuit so far.
    pub best: C,
    /// The priority of the best circuit.
    pub best_cost: usize,
    /// What is known of each worker.
    pub status: Seq<ChannelStatus>,
    /// The worker whose turn it is.
    pub turn: nat,
    /// The number of circuits that were looked at.
    pub count: nat,
    /// The circuits that workers sent back and that were not looked at yet, each with its hash.
    pub pending: Seq<(usize, C)>,
}

impl<C> SearchState<C> {
    /// What every step keeps: the waiting circuits are those of the queue, each of them has
    /// been seen, the workers can be counted, and the turn is some worker's.
    pub open spec fn wf(self) -> bool {
        &&& self.status.len() <= usize::MAX
        &&& self.queue.dom() == self.circs.dom()
        &&& self.queue.dom().subset_of(self.seen)
        &&& self.turn < self.status.len() || self.turn == 0
    }
}

/// The state after a look at one circuit that a worker has sent back. A circuit that was seen
/// before is dropped; another one joins the queue if it is in range.
pub open spec fn considered_one<C>(
    s: SearchState<C>,
    hash: usize,
    circ: C,
    appraisal: Appraisal,
) -> SearchState<C> {
    if s.seen.contains(hash) || !appraisal.in_range {
        SearchState { count: s.count + 1, ..s }
    } else {
        SearchState {
            queue: s.queue.insert(hash, spec_rev_cost(appraisal.cost)),
            circs: s.circs.insert(hash, circ),
            seen: s.seen.insert(hash),
            count: s.count + 1,
            ..s
        }
    }
}

/// The state after a look at the first `n` of the given circuits, in order.
pub open spec fn considered<C>(
    s: SearchState<C>,
    items: Seq<(usize, C)>,
    appraisals: Seq<Appraisal>,
    n: nat,
) -> SearchState<C>
    decreases n,
{
    if n == 0 {
        s
    } else {
        considered_one(
            considered(s, items, appraisals, (n - 1) as nat),
            items[n - 1].0,
            items[n - 1].1,
            appraisals[n - 1],
        )
    }
}

/// The state after a look at all circuits that workers have sent back.
pub open spec fn drained<C>(s: SearchState<C>, appraisals: Seq<Appraisal>) -> SearchState<C> {
    considered(
        SearchState { pending: Seq::empty(), ..s },
        s.pending,
        appraisals,
        s.pending.len(),
    )
}

/// `t` is `s` with the circuit of that hash taken out, which is one of the best that wait. If
/// it beats the best circuit so far, a clone of it becomes the best.
pub open spec fn popped<C: Clone>(s: SearchState<C>, t: SearchState<C>, hash: usize) -> bool {
    &&& s.queue.contains_key(hash)
    &&& forall|other: usize| #[trigger]
        s.queue.contains_key(other) ==> s.queue[other] <= s.queue[hash]
    &&& t.queue == s.queue.remove(hash)
    &&& t.circs == s.circs.remove(hash)
    &&& if s.queue[hash] > s.best_cost {
        &&& t.best_cost == s.queue[hash]
        &&& cloned(s.circs[hash], t.best)
    } else {
        &&& t.best_cost == s.best_cost
        &&& t.best == s.best
    }
    &&& t.seen == s.seen
    &&& t.status == s.status
    &&& t.turn == s.turn
    &&& t.count == s.count
    &&& t.pending == s.pending
}

/// The state after a message from a worker.
pub open spec fn received<C>(s: SearchState<C>, msg: ChannelMsg<(usize, C)>) -> SearchState<C> {
    match msg {
        ChannelMsg::Item(item) => SearchState { pending: s.pending.push(item), ..s },
        ChannelMsg::Empty(worker) => SearchState {
            status: s.status.update(worker as int, ChannelStatus::Empty),
            ..s
        },
        ChannelMsg::Panic => s,
    }
}

/// The state once the next worker in turn was picked.
pub open spec fn turn_taken<C>(s: SearchState<C>) -> SearchState<C> {
    SearchState { turn: (s.turn + 1) % s.status.len(), ..s }
}

/// The state once a circuit was handed to a worker.
pub open spec fn handed_over<C>(s: SearchState<C>, target: usize) -> SearchState<C> {
    SearchState { status: s.status.update(target as int, ChannelStatus::NonEmpty), ..s }
}

/// No circuit waits, and no worker has any.
pub open spec fn exhausted<C>(s: SearchState<C>) -> bool {
    &&& s.queue == Map::<usize, usize>::empty()
    &&& forall|i: int| 0 <= i < s.status.len() ==> #[trigger] s.status[i] == ChannelStatus::Empty
}

/// How a search gets on, told while it looks at circuits.
#[derive(Clone, Copy, PartialEq, Eq, Debug, Structural)]
pub struct Report {
    /// The number of circuits that were looked at.
    pub circ_cnt: usize,
    /// The number of circuits that workers have sent back this time.
    pub received: usize,
    /// The number of waiting circuits.
    pub queue_size: usize,
    /// The number of circuits that ever waited.
    pub seen_size: usize,
}

/// The report on a state in which one of `received` circuits is about to be looked at.
pub open spec fn is_report<C>(report: Report, s: SearchState<C>, received: nat) -> bool {
    &&& report.circ_cnt == s.count + 1
    &&& report.received == received
    &&& report.queue_size == s.queue.len()
    &&& report.seen_size == s.seen.len()
}

/// Which of the first `n` circuits are reported on, where `count` circuits came before them:
/// every thousandth one.
pub open spec fn reported(count: nat, n: nat) -> Seq<nat>
    decreases n,
{
    if n == 0 {
        Seq::empty()
    } else if (count + n) % 1000 == 0 {
        reported(count, (n - 1) as nat).push((n - 1) as nat)
    } else {
        reported(count, (n - 1) as nat)
    }
}

/// A search for cheap circuits. Circuits are known by their hashes; circuits that were
/// rewritten are not kept.
pub struct Search<C> {
    pq: PriorityQueue<usize, usize>,
    dseen: HashSet<usize>,
    circs_in_pq: HashMap<usize, C>,
    cbest: C,
    cbest_cost: usize,
    thread_status: Vec<ChannelStatus>,
    next_ind: usize,
    circ_cnt: usize,
    circ_q: Vec<(usize, C)>,
}

impl<C> View for Search<C> {
    type V = SearchState<C>;

    closed spec fn view(&self) -> SearchState<C> {
        SearchState {
            queue: queue_items(self.pq),
            circs: self.circs_in_pq@,
            seen: self.dseen@,
            best: self.cbest,
            best_cost: self.cbest_cost,
            status: self.thread_status@,
            turn: self.next_ind as nat,
            count: self.circ_cnt as nat,
            pending: self.circ_q@,
        }
    }
}

impl<C: Clone> Search<C> {
    /// A search that starts from one circuit, of the given hash and cost.
    pub fn new(circ: C, chash: usize, cost: usize, n_threads: usize) -> (search: Self)
        ensures
            search@.wf(),
            search@.queue == Map::<usize, usize>::empty().insert(chash, spec_rev_cost(cost)),
            search@.circs == Map::<usize, C>::empty().insert(chash, circ),
            search@.seen == Set::<usize>::empty().insert(chash),
            cloned(circ, search@.best),
            search@.best_cost == spec_rev_cost(cost),
            search@.best_cost == usize::MAX - cost,
            search@.queue.contains_key(chash) && search@.queue[chash] == usize::MAX - cost,
            search@.status == Seq::new(n_threads as nat, |i: int| ChannelStatus::Empty),
            search@.turn == 0,
            search@.count == 0,
            search@.pending == Seq::<(usize, C)>::empty(),
    {
        let cbest: C = circ.clone();
        let cin_cost: usize = rev_cost(cost);
        let mut dseen: HashSet<usize> = HashSet::new();
        dseen.insert(chash);
        let mut pq = queue_new();
        queue_push(&mut pq, chash, cin_cost);
        let mut circs_in_pq: HashMap<usize, C> = HashMap::new();
        circs_in_pq.insert(chash, circ);
        let mut thread_status: Vec<ChannelStatus> = Vec::new();
        for i in 0..n_threads
            invariant
                thread_status@ == Seq::new(i as nat, |j: int| ChannelStatus::Empty),
        {
            thread_status.push(ChannelStatus::Empty);
        }
        Search {
            pq,
            dseen,
            circs_in_pq,
            cbest,
            cbest_cost: cin_cost,
            thread_status,
            next_ind: 0,
            circ_cnt: 0,
            circ_q: Vec::new(),
        }
    }

    /// Takes in a message from a worker. A circuit is put aside; a worker that has run dry is
    /// noted; a worker's panic is an error.
    pub fn receive(&mut self, msg: ChannelMsg<(usize, C)>) -> (res: Result<(), ThreadPanicked>)
        requires
            old(self)@.wf(),
            msg matches ChannelMsg::Empty(worker) ==> worker < old(self)@.status.len(),
        ensures
            final(self)@.wf(),
            final(self)@ == received(old(self)@, msg),
            match msg {
                ChannelMsg::Item(item) => final(self)@ == (SearchState {
                    pending: old(self)@.pending.push(item),
                    ..old(self)@
                }),
                ChannelMsg::Empty(worker) => final(self)@ == (SearchState {
                    status: old(self)@.status.update(worker as int, ChannelStatus::Empty),
                    ..old(self)@
                }),
                ChannelMsg::Panic => final(self)@ == old(self)@,
            },
            res == (if msg is Panic {
                Err(ThreadPanicked)
            } else {
                Ok(())
            }),
    {
        match msg {
            ChannelMsg::Item(newc) => {
                self.circ_q.push(newc);
                Ok(())
            },
            ChannelMsg::Empty(worker) => {
                self.thread_status.set(worker, ChannelStatus::Empty);
                Ok(())
            },
            ChannelMsg::Panic => Err(ThreadPanicked),
        }
    }

    /// Takes out the best circuit that waits, and remembers it if it is the best so far.
    pub fn pop(&mut self) -> (next: Option<Popped<C>>)
        requires
            old(self)@.wf(),
        ensures
            final(self)@.wf(),
            match next {
                Some(next) => {
                    &&& popped(old(self)@, final(self)@, next.hash)
                    &&& next.circ == old(self)@.circs[next.hash]
                    &&& next.new_best == (old(self)@.queue[next.hash] > old(self)@.best_cost)
                    &&& old(self)@.queue.contains_key(next.hash)
                    &&& forall|other: usize| #[trigger]
                        old(self)@.queue.contains_key(other) ==> old(self)@.queue[other] <= old(
                            self,
                        )@.queue[next.hash]
                    &&& final(self)@ == (SearchState {
                        queue: old(self)@.queue.remove(next.hash),
                        circs: old(self)@.circs.remove(next.hash),
                        best: final(self)@.best,
                        best_cost: if next.new_best {
                            old(self)@.queue[next.hash]
                        } else {
                            old(self)@.best_cost
                        },
                        ..old(self)@
                    })
                    &&& if next.new_best {
                        cloned(next.circ, final(self)@.best)
                    } else {
                        final(self)@.best == old(self)@.best
                    }
                },
                None => {
                    &&& old(self)@.queue == Map::<usize, usize>::empty()
                    &&& final(self)@ == old(self)@
                },
            },
    {
        match queue_pop(&mut self.pq) {
            Some((hash, priority)) => {
                let seen_circ: C = self.circs_in_pq.remove(&hash).unwrap();
                let new_best: bool = priority > self.cbest_cost;
                if new_best {
                    self.cbest = seen_circ.clone();
                    self.cbest_cost = priority;
                }
                Some(Popped { hash, circ: seen_circ, new_best })
            },
            None => None,
        }
    }

    /// Looks at all circuits that workers have sent back, each with its appraisal: those that
    /// were never seen and that are in range join the queue. Every thousandth circuit of the
    /// search is reported on.
    pub fn drain(&mut self, appraisals: &Vec<Appraisal>) -> (reports: Vec<Report>)
        requires
            old(self)@.wf(),
            appraisals.len() == old(self)@.pending.len(),
            old(self)@.count + old(self)@.pending.len() <= usize::MAX,
        ensures
            final(self)@.wf(),
            final(self)@ == drained(old(self)@, appraisals@),
            forall|k: int|
                0 <= k < reports@.len() ==> (#[trigger] reports@[k]).received == appraisals@.len(),
            ({
                let points = reported(old(self)@.count, appraisals@.len());
                &&& reports@.len() == points.len()
                &&& forall|k: int|
                    0 <= k < points.len() ==> is_report(
                        #[trigger] reports@[k],
                        considered(
                            SearchState { pending: Seq::empty(), ..old(self)@ },
                            old(self)@.pending,
                            appraisals@,
                            points[k],
                        ),
                        appraisals@.len(),
                    )
            }),
    {
        let ghost before = self@;
        let ghost start = SearchState { pending: Seq::<(usize, C)>::empty(), ..before };
        let mut circ_q: Vec<(usize, C)> = Vec::new();
        std::mem::swap(&mut circ_q, &mut self.circ_q);
        let received: usize = circ_q.len();
        let mut reports: Vec<Report> = Vec::new();
        let mut i: usize = 0;
        for item in iter: circ_q
            invariant
                received == appraisals@.len(),
                reports@.len() == reported(before.count, i as nat).len(),
                forall|k: int|
                    0 <= k < reports@.len() ==> is_report(
                        #[trigger] reports@[k],
                        considered(
                            start,
                            before.pending,
                            appraisals@,
                            reported(before.count, i as nat)[k],
                        ),
                        appraisals@.len(),
                    ),
                i == iter.index(),
                iter.seq() == before.pending,
                before == old(self)@,
                start == (SearchState { pending: Seq::<(usize, C)>::empty(), ..before }),
                appraisals.len() == before.pending.len(),
                before.count + before.pending.len() <= usize::MAX,
                self@ == considered(start, before.pending, appraisals@, i as nat),
                self@.wf(),
                self@.count == before.count + i,
        {
            let (newchash, newc) = item;
            let ghost here = self@;
            self.circ_cnt = self.circ_cnt + 1;
            if self.circ_cnt % 1000 == 0 {
                let report = Report {
                    circ_cnt: self.circ_cnt,
                    received,
                    queue_size: queue_len(&self.pq),
                    seen_size: self.dseen.len(),
                };
                assert(is_report(report, here, appraisals@.len()));
                reports.push(report);
            }
            assert(self@ == (SearchState { count: here.count + 1, ..here }));
            if !self.dseen.contains(&newchash) {
                let newcost: usize = rev_cost(appraisals[i].cost);
                if appraisals[i].in_range {
                    queue_push(&mut self.pq, newchash, newcost);
                    self.dseen.insert(newchash);
                    self.circs_in_pq.insert(newchash, newc);
                }
            }
            i = i + 1;
            assert(self@ == considered(start, before.pending, appraisals@, i as nat));
        }
        reports
    }

    /// Picks the first worker that a circuit is offered to.
    pub fn begin_send(&mut self) -> (attempt: SendAttempt)
        requires
            old(self)@.wf(),
            old(self)@.status.len() > 0,
        ensures
            final(self)@.wf(),
            final(self)@ == turn_taken(old(self)@),
            final(self)@ == (SearchState {
                turn: (old(self)@.turn + 1) % old(self)@.status.len(),
                ..old(self)@
            }),
            attempt.target == old(self)@.turn,
            attempt.target < old(self)@.status.len(),
            attempt.tries == 1,
    {
        let target: usize = self.next_ind;
        let n_threads: usize = self.thread_status.len();
        assert(target < n_threads);
        self.next_ind = (target + 1) % n_threads;
        SendAttempt { target, tries: 1 }
    }

    /// What to do after a worker had no room for the circuit: the next worker is tried, and
    /// once all were, the last one is waited for.
    pub fn send_refused(&mut self, attempt: SendAttempt) -> (step: SendStep)
        requires
            old(self)@.wf(),
            1 <= attempt.tries <= old(self)@.status.len(),
        ensures
            final(self)@.wf(),
            if attempt.tries == old(self)@.status.len() {
                &&& step == SendStep::Block(attempt.target)
                &&& final(self)@ == old(self)@
            } else {
                &&& step matches SendStep::Try(next)
                &&& next.target == old(self)@.turn
                &&& next.target < old(self)@.status.len()
                &&& next.tries == attempt.tries + 1
                &&& final(self)@ == turn_taken(old(self)@)
                &&& final(self)@ == (SearchState {
                    turn: (old(self)@.turn + 1) % old(self)@.status.len(),
                    ..old(self)@
                })
            },
    {
        if attempt.tries == self.thread_status.len() {
            SendStep::Block(attempt.target)
        } else {
            let next: SendAttempt = self.begin_send();
            SendStep::Try(SendAttempt { target: next.target, tries: attempt.tries + 1 })
        }
    }

    /// Notes that a circuit was handed to a worker.
    pub fn sent(&mut self, target: usize)
        requires
            old(self)@.wf(),
            target < old(self)@.status.len(),
        ensures
            final(self)@.wf(),
            final(self)@ == handed_over(old(self)@, target),
            final(self)@ == (SearchState {
                status: old(self)@.status.update(target as int, ChannelStatus::NonEmpty),
                ..old(self)@
            }),
    {
        self.thread_status.set(target, ChannelStatus::NonEmpty);
    }

    /// Tells whether to go on. An exhausted search has ended even when its time is up too.
    pub fn progress(&self, timeout: Option<u64>, elapsed: u64) -> (progress: Progress)
        ensures
            progress == (if exhausted(self@) {
                Progress::Exhausted
            } else if timeout is Some && elapsed > timeout->0 {
                Progress::TimedOut
            } else {
                Progress::Running
            }),
            progress == Progress::Exhausted <==> {
                &&& forall|h: usize| !#[trigger] self@.queue.contains_key(h)
                &&& forall|i: int|
                    0 <= i < self@.status.len() ==> #[trigger] self@.status[i]
                        == ChannelStatus::Empty
            },
            progress == Progress::TimedOut <==> {
                &&& progress != Progress::Exhausted
                &&& timeout matches Some(limit) && elapsed > limit
            },
    {
        proof {
            if forall|h: usize| !#[trigger] self@.queue.contains_key(h) {
                assert(self@.queue =~= Map::<usize, usize>::empty());
            }
        }
        if queue_is_empty(&self.pq) && self.all_workers_empty() {
            return Progress::Exhausted;
        }
        match timeout {
            Some(timeout) if elapsed > timeout => Progress::TimedOut,
            _ => Progress::Running,
        }
    }

    /// Whether every worker has run dry.
    fn all_workers_empty(&self) -> (empty: bool)
        ensures
            empty == forall|i: int|
                0 <= i < self@.status.len() ==> #[trigger] self@.status[i] == ChannelStatus::Empty,
    {
        for i in 0..self.thread_status.len()
            invariant
                forall|j: int|
                    0 <= j < i ==> #[trigger] self@.status[j] == ChannelStatus::Empty,
        {
            if self.thread_status[i] != ChannelStatus::Empty {
                assert(self@.status[i as int] != ChannelStatus::Empty);
                return false;
            }
        }
        true
    }

    /// The circuits that workers have sent back and that were not looked at yet.
    pub fn pending(&self) -> (pending: &Vec<(usize, C)>)
        ensures
            pending@ == self@.pending,
    {
        &self.circ_q
    }

    /// The priority of the best circuit so far.
    pub fn best_priority(&self) -> (priority: usize)
        ensures
            priority == self@.best_cost,
    {
        self.cbest_cost
    }

    /// The best circuit so far.
    pub fn best(&self) -> (best: &C)
        ensures
            *best == self@.best,
    {
        &self.cbest
    }

    /// Ends the search with the best circuit that it found.
    pub fn into_best(self) -> (best: C)
        ensures
            best == self@.best,
    {
        self.cbest
    }

    /// How many circuits were looked at.
    pub fn circ_cnt(&self) -> (count: usize)
        ensures
            count == self@.count,
    {
        self.circ_cnt
    }

    /// How many circuits wait.
    pub fn queue_size(&self) -> (len: usize)
        ensures
            len == self@.queue.len(),
    {
        queue_len(&self.pq)
    }

    /// How many circuits were ever queued.
    pub fn seen_size(&self) -> (len: usize)
        ensures
            len == self@.seen.len(),
    {
        self.dseen.len()
    }
}

/// One step of the main loop that looks at no circuits: a message is taken in, a circuit is
/// taken out, a turn goes to the next worker, or a circuit is handed to a worker.
pub open spec fn other_step<C: Clone>(s: SearchState<C>, t: SearchState<C>) -> bool {
    ||| exists|msg: ChannelMsg<(usize, C)>|
        {
            &&& t == #[trigger] received(s, msg)
            &&& msg matches ChannelMsg::Empty(worker) ==> worker < s.status.len()
        }
    ||| exists|hash: usize| #[trigger] popped(s, t, hash)
    ||| t == turn_taken(s)
    ||| exists|target: usize| target < s.status.len() && t == #[trigger] handed_over(s, target)
}

/// One step of the main loop: what came back is looked at, or some other step.
pub open spec fn search_step<C: Clone>(s: SearchState<C>, t: SearchState<C>) -> bool {
    ||| other_step(s, t)
    ||| exists|appraisals: Seq<Appraisal>|
        appraisals.len() == s.pending.len() && t == #[trigger] drained(s, appraisals)
}

/// The states that a search goes through, from any one of them on.
pub open spec fn search_run<C: Clone>(run: Seq<SearchState<C>>) -> bool {
    forall|i: int, j: int|
        0 <= i && j == i + 1 && j < run.len() ==> #[trigger] search_step(run[i], run[j])
}

/// What a look at circuits does to the queue: it leaves those that are there as they are, and
/// adds only circuits that were never seen.
pub(crate) proof fn lemma_considered<C>(
    s: SearchState<C>,
    items: Seq<(usize, C)>,
    appraisals: Seq<Appraisal>,
    n: nat,
)
    ensures
        ({
            let t = considered(s, items, appraisals, n);
            &&& s.wf() ==> t.wf()
            &&& t.status == s.status
            &&& t.best_cost == s.best_cost
            &&& t.best == s.best
            &&& t.pending == s.pending
            &&& s.seen.subset_of(t.seen)
            &&& forall|h: usize| #[trigger]
                t.queue.contains_key(h) && s.seen.contains(h) && s.wf() ==> s.queue.contains_key(h)
                    && t.queue[h] == s.queue[h]
            &&& forall|h: usize| #[trigger]
                s.queue.contains_key(h) && s.wf() ==> t.queue.contains_key(h) && t.queue[h]
                    == s.queue[h]
        }),
    decreases n,
{
    if n > 0 {
        lemma_considered(s, items, appraisals, (n - 1) as nat);
    }
}

/// What holds of two states of a search, the second of which comes after the first: the best
/// circuit did not get worse, no circuit that was seen has joined the queue again or changed
/// its priority, and none that has left the queue was better than the best.
pub open spec fn follows<C>(s: SearchState<C>, t: SearchState<C>) -> bool {
    &&& t.wf()
    &&& t.status.len() == s.status.len()
    &&& s.best_cost <= t.best_cost
    &&& s.seen.subset_of(t.seen)
    &&& forall|h: usize| #[trigger]
        t.queue.contains_key(h) && s.seen.contains(h) ==> s.queue.contains_key(h) && t.queue[h]
            == s.queue[h]
    &&& forall|h: usize| #[trigger]
        s.queue.contains_key(h) && !t.queue.contains_key(h) ==> s.queue[h] <= t.best_cost
}

/// A state after a later one is a later one.
pub(crate) proof fn lemma_follows<C>(s: SearchState<C>, t: SearchState<C>, u: SearchState<C>)
    requires
        s.wf(),
        follows(s, t),
        follows(t, u),
    ensures
        follows(s, u),
{
    assert forall|h: usize| #[trigger] u.queue.contains_key(h) && s.seen.contains(h) implies
        s.queue.contains_key(h) && u.queue[h] == s.queue[h] by {
        assert(t.queue.contains_key(h));
    }
    assert forall|h: usize| #[trigger]
        s.queue.contains_key(h) && !u.queue.contains_key(h) implies s.queue[h] <= u.best_cost by {
        if t.queue.contains_key(h) {
            assert(s.seen.contains(h));
        }
    }
}

/// A step leads to a later state.
pub(crate) proof fn lemma_step<C: Clone>(s: SearchState<C>, t: SearchState<C>)
    requires
        s.wf(),
        s.status.len() > 0,
        search_step(s, t),
    ensures
        follows(s, t),
{
    if exists|appraisals: Seq<Appraisal>|
        appraisals.len() == s.pending.len() && t == #[trigger] drained(s, appraisals) {
        let appraisals = choose|appraisals: Seq<Appraisal>|
            appraisals.len() == s.pending.len() && t == #[trigger] drained(s, appraisals);
        let start = SearchState { pending: Seq::empty(), ..s };
        assert(start.wf());
        lemma_considered(start, s.pending, appraisals, s.pending.len());
    } else if exists|hash: usize| #[trigger] popped(s, t, hash) {
        let hash = choose|hash: usize| #[trigger] popped(s, t, hash);
        assert(t.wf());
    }
}

/// Every step keeps the state well formed.
pub proof fn steps_keep_states_well_formed<C: Clone>(s: SearchState<C>, t: SearchState<C>)
    requires
        s.wf(),
        s.status.len() > 0,
        search_step(s, t),
    ensures
        t.wf(),
        t.status.len() == s.status.len(),
{
    lemma_step(s, t);
}

/// What holds between two states of a run.
proof fn lemma_run<C: Clone>(run: Seq<SearchState<C>>, i: int, j: int)
    requires
        search_run(run),
        0 <= i <= j < run.len(),
        run[0].wf(),
        run[0].status.len() > 0,
    ensures
        run[i].wf(),
        run[i].status.len() > 0,
        follows(run[i], run[j]),
    decreases j, i,
{
    if i < j {
        lemma_run(run, i, j - 1);
        assert(search_step(run[j - 1], run[j]));
        lemma_step(run[j - 1], run[j]);
        lemma_follows(run[i], run[j - 1], run[j]);
    } else if 0 < i {
        lemma_run(run, 0, i);
    }
}

/// The best circuit never gets worse in the course of a search.
pub proof fn best_never_gets_worse<C: Clone>(run: Seq<SearchState<C>>, i: int, j: int)
    requires
        search_run(run),
        run.len() > 0,
        run[0].wf(),
        run[0].status.len() > 0,
        0 <= i <= j < run.len(),
    ensures
        run[i].best_cost <= run[j].best_cost,
{
    lemma_run(run, i, j);
}

/// A circuit that has left the queue never gets back into it, and no circuit's priority ever
/// changes while it waits.
pub proof fn no_circuit_is_queued_twice<C: Clone>(
    run: Seq<SearchState<C>>,
    i: int,
    j: int,
    hash: usize,
)
    requires
        search_run(run),
        run.len() > 0,
        run[0].wf(),
        run[0].status.len() > 0,
        0 <= i <= j < run.len(),
        run[i].seen.contains(hash),
    ensures
        !run[i].queue.contains_key(hash) ==> !run[j].queue.contains_key(hash),
        run[j].queue.contains_key(hash) ==> run[j].queue[hash] == run[i].queue[hash],
{
    lemma_run(run, i, j);
}

/// A search that is exhausted has found the cheapest of all circuits that ever waited.
pub proof fn exhausted_search_has_found_the_cheapest<C: Clone>(
    run: Seq<SearchState<C>>,
    i: int,
    hash: usize,
)
    requires
        search_run(run),
        run.len() > 0,
        run[0].wf(),
        run[0].status.len() > 0,
        exhausted(run.last()),
        0 <= i < run.len(),
        run[i].queue.contains_key(hash),
    ensures
        run[i].queue[hash] <= run.last().best_cost,
{
    lemma_run(run, i, run.len() - 1);
}

/// Every priority is that of the cost of its circuit.
pub open spec fn is_priced<C>(s: SearchState<C>, cost: spec_fn(C) -> usize) -> bool {
    &&& s.best_cost == spec_rev_cost(cost(s.best))
    &&& forall|h: usize| #[trigger]
        s.queue.contains_key(h) ==> s.queue[h] == spec_rev_cost(cost(s.circs[h]))
}

/// The appraisals give the costs of the circuits.
pub open spec fn are_honest<C>(
    items: Seq<(usize, C)>,
    appraisals: Seq<Appraisal>,
    cost: spec_fn(C) -> usize,
) -> bool {
    forall|i: int| 0 <= i < items.len() ==> (#[trigger] appraisals[i]).cost == cost(items[i].1)
}

/// One step of the main loop in which every appraisal is honest.
pub open spec fn honest_step<C: Clone>(
    s: SearchState<C>,
    t: SearchState<C>,
    cost: spec_fn(C) -> usize,
) -> bool {
    ||| other_step(s, t)
    ||| exists|appraisals: Seq<Appraisal>|
        appraisals.len() == s.pending.len() && are_honest(s.pending, appraisals, cost) && t
            == #[trigger] drained(s, appraisals)
}

/// The states that a search goes through when every appraisal is honest.
pub open spec fn honest_run<C: Clone>(
    run: Seq<SearchState<C>>,
    cost: spec_fn(C) -> usize,
) -> bool {
    forall|i: int, j: int|
        0 <= i && j == i + 1 && j < run.len() ==> #[trigger] honest_step(run[i], run[j], cost)
}

/// Circuits that are looked at with honest appraisals get the right priorities.
proof fn lemma_considered_priced<C>(
    s: SearchState<C>,
    items: Seq<(usize, C)>,
    appraisals: Seq<Appraisal>,
    n: nat,
    cost: spec_fn(C) -> usize,
)
    requires
        is_priced(s, cost),
        are_honest(items, appraisals, cost),
        n <= items.len(),
    ensures
        is_priced(considered(s, items, appraisals, n), cost),
    decreases n,
{
    if n > 0 {
        lemma_considered_priced(s, items, appraisals, (n - 1) as nat, cost);
        let before = considered(s, items, appraisals, (n - 1) as nat);
        let after = considered(s, items, appraisals, n);
        assert(appraisals[n - 1].cost == cost(items[n - 1].1));
        assert forall|h: usize| #[trigger] after.queue.contains_key(h) implies after.queue[h]
            == spec_rev_cost(cost(after.circs[h])) by {
            if h != items[n - 1].0 {
                assert(before.queue.contains_key(h));
            }
        }
    }
}

/// A step with honest appraisals keeps the priorities right.
pub(crate) proof fn lemma_honest_step<C: Clone>(
    s: SearchState<C>,
    t: SearchState<C>,
    cost: spec_fn(C) -> usize,
)
    requires
        s.wf(),
        is_priced(s, cost),
        honest_step(s, t, cost),
        forall|a: C, b: C| #[trigger] cloned(a, b) ==> cost(a) == cost(b),
    ensures
        is_priced(t, cost),
{
    if exists|appraisals: Seq<Appraisal>|
        appraisals.len() == s.pending.len() && are_honest(s.pending, appraisals, cost) && t
            == #[trigger] drained(s, appraisals) {
        let appraisals = choose|appraisals: Seq<Appraisal>|
            appraisals.len() == s.pending.len() && are_honest(s.pending, appraisals, cost) && t
                == #[trigger] drained(s, appraisals);
        let start = SearchState { pending: Seq::empty(), ..s };
        assert(is_priced(start, cost));
        lemma_considered_priced(start, s.pending, appraisals, s.pending.len(), cost);
    } else if exists|hash: usize| #[trigger] popped(s, t, hash) {
        let hash = choose|hash: usize| #[trigger] popped(s, t, hash);
        assert forall|h: usize| #[trigger] t.queue.contains_key(h) implies t.queue[h]
            == spec_rev_cost(cost(t.circs[h])) by {
            assert(s.queue.contains_key(h));
        }
    }
}

/// With honest appraisals every priority is always that of the cost of its circuit, and the
/// priority of the best circuit is that of its own cost. Clones cost what they are clones of.
pub proof fn priorities_are_costs<C: Clone>(
    run: Seq<SearchState<C>>,
    i: int,
    cost: spec_fn(C) -> usize,
)
    requires
        honest_run(run, cost),
        0 <= i < run.len(),
        is_priced(run[0], cost),
        run[0].wf(),
        run[0].status.len() > 0,
        forall|a: C, b: C| #[trigger] cloned(a, b) ==> cost(a) == cost(b),
    ensures
        is_priced(run[i], cost),
    decreases i,
{
    lemma_honest_run(run, cost);
    if i > 0 {
        priorities_are_costs(run, i - 1, cost);
        lemma_run(run, i - 1, i);
        assert(honest_step(run[i - 1], run[i], cost));
        lemma_honest_step(run[i - 1], run[i], cost);
    }
}

/// Honest steps are steps.
proof fn lemma_honest_run<C: Clone>(run: Seq<SearchState<C>>, cost: spec_fn(C) -> usize)
    requires
        honest_run(run, cost),
    ensures
        search_run(run),
{
    assert forall|i: int, j: int| 0 <= i && j == i + 1 && j < run.len() implies #[trigger] search_step(
        run[i],
        run[j],
    ) by {
        assert(honest_step(run[i], run[j], cost));
    }
}

/// With honest appraisals, the circuit that an exhausted search returns costs no more than any
/// circuit that ever waited, and so no more than the one that the search started from.
pub proof fn exhausted_search_returns_the_cheapest<C: Clone>(
    run: Seq<SearchState<C>>,
    i: int,
    hash: usize,
    cost: spec_fn(C) -> usize,
)
    requires
        honest_run(run, cost),
        0 <= i < run.len(),
        is_priced(run[0], cost),
        run[0].wf(),
        run[0].status.len() > 0,
        forall|a: C, b: C| #[trigger] cloned(a, b) ==> cost(a) == cost(b),
        exhausted(run.last()),
        run[i].queue.contains_key(hash),
    ensures
        cost(run.last().best) <= cost(run[i].circs[hash]),
{
    lemma_honest_run(run, cost);
    priorities_are_costs(run, i, cost);
    priorities_are_costs(run, run.len() - 1, cost);
    exhausted_search_has_found_the_cheapest(run, i, hash);
}

/// Of two circuits the cheaper one has the greater priority, and the priority of a priority
/// is the cost.
pub proof fn cheaper_circuits_come_first(a: usize, b: usize)
    ensures
        a < b <==> spec_rev_cost(a) > spec_rev_cost(b),
        spec_rev_cost(spec_rev_cost(a)) == a,
{
}

/// The state of a search after the given number of workers had no room for a circuit, for
/// fewer than all of them, and the attempt that comes next.
pub open spec fn after_refusals<C>(s: SearchState<C>, refusals: nat) -> (
    SearchState<C>,
    SendAttempt,
)
    decreases refusals,
{
    if refusals == 0 {
        (turn_taken(s), SendAttempt { target: s.turn as usize, tries: 1 })
    } else {
        let (t, last) = after_refusals(s, (refusals - 1) as nat);
        (turn_taken(t), SendAttempt { target: t.turn as usize, tries: (last.tries + 1) as usize })
    }
}

/// A circuit is offered to the workers in turn, and to none of them twice.
pub proof fn circuits_are_offered_in_turn<C>(s: SearchState<C>, i: nat, j: nat)
    requires
        s.wf(),
        i < j < s.status.len(),
    ensures
        after_refusals(s, i).1.target == (s.turn + i) % s.status.len(),
        after_refusals(s, i).1.tries == i + 1,
        after_refusals(s, i).1.target != after_refusals(s, j).1.target,
{
    lemma_after_refusals(s, i);
    lemma_after_refusals(s, j);
    let n = s.status.len() as int;
    let t = s.turn as int;
    if t + j < n {
        vstd::arithmetic::div_mod::lemma_small_mod((t + i) as nat, n as nat);
        vstd::arithmetic::div_mod::lemma_small_mod((t + j) as nat, n as nat);
    } else {
        vstd::arithmetic::div_mod::lemma_small_mod((t + j - n) as nat, n as nat);
        vstd::arithmetic::div_mod::lemma_mod_add_multiples_vanish(t + j - n, n);
        if t + i < n {
            vstd::arithmetic::div_mod::lemma_small_mod((t + i) as nat, n as nat);
        } else {
            vstd::arithmetic::div_mod::lemma_small_mod((t + i - n) as nat, n as nat);
            vstd::arithmetic::div_mod::lemma_mod_add_multiples_vanish(t + i - n, n);
        }
    }
}

proof fn lemma_after_refusals<C>(s: SearchState<C>, k: nat)
    requires
        s.wf(),
        k < s.status.len(),
    ensures
        after_refusals(s, k).1.target == (s.turn + k) % s.status.len(),
        after_refusals(s, k).1.tries == k + 1,
        after_refusals(s, k).0 == (SearchState {
            turn: (s.turn + k + 1) % s.status.len(),
            ..s
        }),
    decreases k,
{
    let n = s.status.len() as int;
    if k == 0 {
        vstd::arithmetic::div_mod::lemma_small_mod(s.turn, n as nat);
    } else {
        lemma_after_refusals(s, (k - 1) as nat);
        vstd::arithmetic::div_mod::lemma_add_mod_noop((s.turn + k) as int, 1, n);
        vstd::arithmetic::div_mod::lemma_add_mod_noop_right(1, (s.turn + k) as int, n);
    }
}

/// The circuit at `i` is the first one of its hash that joins the queue: the hash was not seen
/// before, the circuit is in range, and none of that hash before it was.
spec fn joins<C>(
    seen: Set<usize>,
    items: Seq<(usize, C)>,
    appraisals: Seq<Appraisal>,
    i: int,
) -> bool {
    &&& !seen.contains(items[i].0)
    &&& appraisals[i].in_range
    &&& forall|j: int|
        0 <= j < i && (#[trigger] items[j]).0 == items[i].0 ==> !appraisals[j].in_range
}

/// What has joined the queue after a look at the first `n` circuits.
proof fn lemma_joined<C>(
    s: SearchState<C>,
    items: Seq<(usize, C)>,
    appraisals: Seq<Appraisal>,
    n: nat,
)
    requires
        n <= items.len(),
        s.queue.dom() == s.circs.dom(),
        s.queue.dom().subset_of(s.seen),
    ensures
        ({
            let t = considered(s, items, appraisals, n);
            &&& t.count == s.count + n
            &&& t == (SearchState {
                queue: t.queue,
                circs: t.circs,
                seen: t.seen,
                count: t.count,
                ..s
            })
            &&& t.queue.dom() == t.circs.dom()
            &&& t.queue.dom().subset_of(t.seen)
            &&& forall|h: usize| #[trigger]
                t.seen.contains(h) <==> s.seen.contains(h) || exists|i: int|
                    0 <= i < n && (#[trigger] items[i]).0 == h && appraisals[i].in_range
            &&& forall|h: usize| #[trigger]
                s.seen.contains(h) ==> t.queue.contains_key(h) == s.queue.contains_key(h) && (
                s.queue.contains_key(h) ==> t.queue[h] == s.queue[h] && t.circs[h] == s.circs[h])
            &&& forall|i: int|
                #![trigger items[i]]
                0 <= i < n && joins(s.seen, items, appraisals, i) ==> {
                    &&& t.queue.contains_key(items[i].0)
                    &&& t.queue[items[i].0] == usize::MAX - appraisals[i].cost
                    &&& t.circs[items[i].0] == items[i].1
                }
        }),
    decreases n,
{
    if n > 0 {
        let m = n - 1;
        lemma_joined(s, items, appraisals, m as nat);
        let t = considered(s, items, appraisals, m as nat);
        let u = considered(s, items, appraisals, n);
        let hash = items[m].0;
        assert(u.queue.dom() =~= u.circs.dom());
        assert forall|h: usize| #[trigger] u.seen.contains(h) <==> s.seen.contains(h)
            || exists|i: int| 0 <= i < n && (#[trigger] items[i]).0 == h && appraisals[i].in_range by {
            if t.seen.contains(h) && !s.seen.contains(h) {
                let i = choose|i: int|
                    0 <= i < m && (#[trigger] items[i]).0 == h && appraisals[i].in_range;
                assert(items[i].0 == h);
            }
            if u.seen.contains(h) && !t.seen.contains(h) {
                assert(items[m].0 == h);
            }
        }
        assert forall|i: int|
            #![trigger items[i]]
            0 <= i < n && joins(s.seen, items, appraisals, i) implies {
            &&& u.queue.contains_key(items[i].0)
            &&& u.queue[items[i].0] == usize::MAX - appraisals[i].cost
            &&& u.circs[items[i].0] == items[i].1
        } by {
            if i < m {
                assert(t.seen.contains(items[i].0));
            } else {
                assert(!t.seen.contains(hash)) by {
                    if t.seen.contains(hash) {
                        let j = choose|j: int|
                            0 <= j < m && (#[trigger] items[j]).0 == hash && appraisals[j].in_range;
                        assert(items[j].0 == items[i].0);
                    }
                }
            }
        }
    }
}

/// Of the circuits that came back, each one that is in range and whose hash was not seen
/// joins the queue, whatever it costs, with the priority of its cost; of several of the same
/// hash, the first one in range does. No other one joins, and none that waited changes.
pub proof fn unseen_circuits_in_range_join_the_queue<C>(
    s: SearchState<C>,
    appraisals: Seq<Appraisal>,
)
    requires
        s.wf(),
        appraisals.len() == s.pending.len(),
    ensures
        forall|i: int|
            #![trigger s.pending[i]]
            0 <= i < s.pending.len() && !s.seen.contains(s.pending[i].0) && appraisals[i].in_range
                && (forall|j: int|
                0 <= j < i && (#[trigger] s.pending[j]).0 == s.pending[i].0
                    ==> !appraisals[j].in_range) ==> {
                &&& drained(s, appraisals).seen.contains(s.pending[i].0)
                &&& drained(s, appraisals).queue.contains_key(s.pending[i].0)
                &&& drained(s, appraisals).queue[s.pending[i].0] == usize::MAX - appraisals[i].cost
                &&& drained(s, appraisals).circs[s.pending[i].0] == s.pending[i].1
            },
        forall|h: usize| #[trigger]
            drained(s, appraisals).seen.contains(h) <==> s.seen.contains(h) || exists|i: int|
                0 <= i < s.pending.len() && (#[trigger] s.pending[i]).0 == h
                    && appraisals[i].in_range,
        forall|h: usize| #[trigger]
            drained(s, appraisals).queue.contains_key(h) <==> s.queue.contains_key(h)
                || !s.seen.contains(h) && exists|i: int|
                0 <= i < s.pending.len() && (#[trigger] s.pending[i]).0 == h
                    && appraisals[i].in_range,
        forall|h: usize| #[trigger]
            s.queue.contains_key(h) ==> drained(s, appraisals).queue[h] == s.queue[h] && drained(
                s,
                appraisals,
            ).circs[h] == s.circs[h],
        drained(s, appraisals) == (SearchState {
            queue: drained(s, appraisals).queue,
            circs: drained(s, appraisals).circs,
            seen: drained(s, appraisals).seen,
            count: s.count + s.pending.len(),
            pending: Seq::empty(),
            ..s
        }),
{
    let start = SearchState { pending: Seq::<(usize, C)>::empty(), ..s };
    lemma_joined(start, s.pending, appraisals, s.pending.len());
    let t = drained(s, appraisals);
    assert forall|i: int|
        #![trigger s.pending[i]]
        0 <= i < s.pending.len() && !s.seen.contains(s.pending[i].0) && appraisals[i].in_range && (
        forall|j: int|
            0 <= j < i && (#[trigger] s.pending[j]).0 == s.pending[i].0
                ==> !appraisals[j].in_range) implies joins(s.seen, s.pending, appraisals, i) by {}
    assert forall|h: usize| #[trigger] t.queue.contains_key(h) <==> s.queue.contains_key(h)
        || !s.seen.contains(h) && exists|i: int|
        0 <= i < s.pending.len() && (#[trigger] s.pending[i]).0 == h && appraisals[i].in_range by {
        if !s.seen.contains(h) && exists|i: int|
            0 <= i < s.pending.len() && (#[trigger] s.pending[i]).0 == h && appraisals[i].in_range {
            let i = choose|i: int|
                0 <= i < s.pending.len() && (#[trigger] s.pending[i]).0 == h
                    && appraisals[i].in_range;
            let f = lemma_first_in_range(s.pending, appraisals, i);
            assert(joins(s.seen, s.pending, appraisals, f));
        }
    }
}

/// Of the circuits of one hash that are in range, one comes first.
proof fn lemma_first_in_range<C>(
    items: Seq<(usize, C)>,
    appraisals: Seq<Appraisal>,
    i: int,
) -> (f: int)
    requires
        0 <= i < items.len(),
        appraisals[i].in_range,
    ensures
        0 <= f <= i,
        items[f].0 == items[i].0,
        appraisals[f].in_range,
        forall|j: int|
            0 <= j < f && (#[trigger] items[j]).0 == items[f].0 ==> !appraisals[j].in_range,
    decreases i,
{
    if exists|j: int| 0 <= j < i && (#[trigger] items[j]).0 == items[i].0 && appraisals[j].in_range {
        let j = choose|j: int|
            0 <= j < i && (#[trigger] items[j]).0 == items[i].0 && appraisals[j].in_range;
        lemma_first_in_range(items, appraisals, j)
    } else {
        i
    }
}

/// Circuits that are looked at are counted, and exactly those whose number is a multiple of a
/// thousand are reported on, in order.
pub proof fn every_thousandth_circuit_is_reported_on(count: nat, n: nat)
    ensures
        forall|k: int|
            0 <= k < reported(count, n).len() ==> {
                &&& (#[trigger] reported(count, n)[k]) < n
                &&& (count + reported(count, n)[k] + 1) % 1000 == 0
            },
        forall|p: nat|
            p < n && (count + p + 1) % 1000 == 0 ==> #[trigger] reported(count, n).contains(p),
        forall|k: int, l: int|
            0 <= k < l < reported(count, n).len() ==> reported(count, n)[k] < reported(count, n)[l],
    decreases n,
{
    if n > 0 {
        every_thousandth_circuit_is_reported_on(count, (n - 1) as nat);
        let before = reported(count, (n - 1) as nat);
        let after = reported(count, n);
        assert forall|p: nat| p < n && (count + p + 1) % 1000 == 0 implies #[trigger] after.contains(
            p,
        ) by {
            if p < n - 1 {
                assert(before.contains(p));
                let k = before.index_of(p);
                assert(after[k] == p);
            } else {
                assert(after[after.len() - 1] == p);
            }
        }
    }
}

/// A report tells the number of the circuit that is looked at, how many came back, and how many
/// wait and were ever seen before it is looked at.
pub proof fn reports_tell_how_a_search_stands<C>(report: Report, s: SearchState<C>, received: nat)
    ensures
        is_report(report, s, received) <==> {
            &&& report.circ_cnt == s.count + 1
            &&& report.received == received
            &&& report.queue_size == s.queue.len()
            &&& report.seen_size == s.seen.len()
        },
{
}

/// A search is exhausted if and only if no circuit waits and every single worker has run dry.
pub proof fn exhausted_searches_have_no_work_anywhere<C>(s: SearchState<C>)
    ensures
        exhausted(s) <==> {
            &&& forall|h: usize| !#[trigger] s.queue.contains_key(h)
            &&& forall|i: int| 0 <= i < s.status.len() ==> !(#[trigger] s.status[i] is NonEmpty)
        },
{
    if forall|h: usize| !#[trigger] s.queue.contains_key(h) {
        assert(s.queue =~= Map::<usize, usize>::empty());
    }
    if exhausted(s) {
        assert forall|i: int| 0 <= i < s.status.len() implies !(#[trigger] s.status[i] is NonEmpty) by {
            assert(s.status[i] == ChannelStatus::Empty);
        }
    }
    if forall|i: int| 0 <= i < s.status.len() ==> !(#[trigger] s.status[i] is NonEmpty) {
        assert forall|i: int| 0 <= i < s.status.len() implies #[trigger] s.status[i]
            == ChannelStatus::Empty by {
            assert(!(s.status[i] is NonEmpty));
        }
    }
}

/// To look at the first circuits that came back is to look at a search to which no others came
/// back: what a report tells does not depend on what is looked at later.
pub proof fn circuits_are_looked_at_in_order<C>(
    s: SearchState<C>,
    appraisals: Seq<Appraisal>,
    n: nat,
)
    requires
        n <= s.pending.len() == appraisals.len(),
    ensures
        considered(SearchState { pending: Seq::empty(), ..s }, s.pending, appraisals, n)
            == drained(
            SearchState { pending: s.pending.take(n as int), ..s },
            appraisals.take(n as int),
        ),
{
    let start = SearchState { pending: Seq::<(usize, C)>::empty(), ..s };
    lemma_considered_prefix(
        start,
        s.pending,
        appraisals,
        s.pending.take(n as int),
        appraisals.take(n as int),
        n,
    );
}

proof fn lemma_considered_prefix<C>(
    s: SearchState<C>,
    items: Seq<(usize, C)>,
    appraisals: Seq<Appraisal>,
    first_items: Seq<(usize, C)>,
    first_appraisals: Seq<Appraisal>,
    n: nat,
)
    requires
        n <= first_items.len() <= items.len(),
        first_items.len() == first_appraisals.len(),
        items.len() == appraisals.len(),
        first_items == items.take(first_items.len() as int),
        first_appraisals == appraisals.take(first_items.len() as int),
    ensures
        considered(s, items, appraisals, n) == considered(s, first_items, first_appraisals, n),
    decreases n,
{
    if n > 0 {
        lemma_considered_prefix(
            s,
            items,
            appraisals,
            first_items,
            first_appraisals,
            (n - 1) as nat,
        );
        assert(first_items[n - 1] == items[n - 1]);
        assert(first_appraisals[n - 1] == appraisals[n - 1]);
    }
}

} // verus!
