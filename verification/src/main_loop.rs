//! The order of events in the main loop: messages are taken in, waiting circuits are sent out,
//! new circuits are looked at, and then the loop starts over or ends.

use crate::search::{
    are_honest, considered, drained, exhausted, follows, handed_over, honest_step, is_priced,
    is_report, lemma_considered, lemma_follows, lemma_honest_step, lemma_step, other_step, popped,
    received, reported, search_step, spec_rev_cost, turn_taken,
    unseen_circuits_in_range_join_the_queue, Appraisal, ChannelMsg, ChannelStatus, Popped, Progress,
    Report, Search, SearchState, SendAttempt, SendStep, ThreadPanicked,
};
use vstd::prelude::*;

verus! {

/// What the loop is waiting for.
pub enum Phase<C> {
    /// A message from a worker, or that there is none.
    Receiving,
    /// That the best circuit is logged. This circuit, a copy of it, is sent out next.
    Logging(C),
    /// That a worker has taken or refused this circuit.
    Offering(C, SendAttempt),
    /// That this worker has taken the circuit that all workers had refused.
    Handing(usize),
    /// What the circuits that came back are worth.
    Appraising,
    /// The time.
    Timing,
    /// Nothing: the loop has ended.
    Over,
}

/// What the loop is told.
pub enum Event<C> {
    /// A worker has sent this.
    Message(ChannelMsg<(usize, C)>),
    /// No worker has sent anything.
    NoMessage,
    /// The best circuit is logged.
    Logged,
    /// The worker has taken the circuit.
    Accepted,
    /// The worker has no room for the circuit.
    Refused,
    /// What the circuits that came back are worth, in order.
    Appraised(Vec<Appraisal>),
    /// The time that has passed, in seconds.
    Elapsed(u64),
}

/// What is to be done.
pub enum Action<C> {
    /// Look for a message from a worker, without waiting.
    Receive,
    /// Log the best circuit.
    LogBest,
    /// Offer a circuit to a worker, without waiting.
    Offer(usize, C),
    /// Hand a circuit to a worker, and wait until it has room.
    Hand(usize, C),
    /// Find out what the circuits that came back are worth.
    Appraise,
    /// Tell how the search gets on, and find out the time.
    CheckTime(Vec<Report>),
    /// End.
    Stop(Progress),
    /// Panic: a worker has.
    Fail(ThreadPanicked),
}

/// The state of the loop, as the contracts of `MainLoop` speak of it.
pub struct LoopState<C> {
    pub search: SearchState<C>,
    pub phase: Phase<C>,
    /// How many seconds the search may take.
    pub timeout: Option<u64>,
}

impl<C> LoopState<C> {
    /// What every event keeps: the state of the search is well formed, there are workers, a
    /// circuit that is being sent is on its way to one of them, and all circuits that came back
    /// were looked at before the time is.
    pub open spec fn wf(self) -> bool {
        &&& self.search.wf()
        &&& self.search.status.len() > 0
        &&& match self.phase {
            Phase::Offering(_, attempt) => attempt.target < self.search.status.len() && 1
                <= attempt.tries <= self.search.status.len(),
            Phase::Handing(target) => target < self.search.status.len(),
            Phase::Timing => self.search.pending.len() == 0,
            _ => true,
        }
    }
}

/// The loop is waiting for such an event.
pub open spec fn is_awaited<C>(s: LoopState<C>, event: Event<C>) -> bool {
    match event {
        Event::Message(msg) => s.phase is Receiving && (msg matches ChannelMsg::Empty(worker)
            ==> worker < s.search.status.len()),
        Event::NoMessage => s.phase is Receiving,
        Event::Logged => s.phase is Logging,
        Event::Accepted => s.phase is Offering || s.phase is Handing,
        Event::Refused => s.phase is Offering,
        Event::Appraised(appraisals) => s.phase is Appraising && appraisals@.len()
            == s.search.pending.len() && s.search.count + appraisals@.len() <= usize::MAX,
        Event::Elapsed(_) => s.phase is Timing,
    }
}

/// The circuit is offered to the worker whose turn it is.
pub open spec fn offers<C: Clone>(
    s: SearchState<C>,
    circ: C,
    tries: usize,
    t: LoopState<C>,
    action: Action<C>,
) -> bool {
    &&& t.search == turn_taken(s)
    &&& t.phase == Phase::Offering(circ, SendAttempt { target: s.turn as usize, tries })
    &&& action matches Action::Offer(target, copy)
    &&& target == s.turn
    &&& cloned(circ, copy)
}

/// One of the best waiting circuits is sent out, after it was logged if it is better than all
/// that came before it. If none waits, the circuits that came back are looked at.
pub open spec fn sends_next<C: Clone>(
    s: SearchState<C>,
    t: LoopState<C>,
    action: Action<C>,
) -> bool {
    if s.queue == Map::<usize, usize>::empty() {
        t.search == s && t.phase is Appraising && action is Appraise
    } else {
        exists|hash: usize, mid: SearchState<C>| #[trigger]
            popped(s, mid, hash) && if s.queue[hash] > s.best_cost {
                t.search == mid && t.phase == Phase::Logging(s.circs[hash]) && action is LogBest
            } else {
                offers(mid, s.circs[hash], 1, t, action)
            }
    }
}

/// What the loop does upon an event that it was waiting for.
pub open spec fn loop_step<C: Clone>(
    s: LoopState<C>,
    event: Event<C>,
    t: LoopState<C>,
    action: Action<C>,
) -> bool {
    &&& t.timeout == s.timeout
    &&& match (s.phase, event) {
        (Phase::Receiving, Event::Message(msg)) => {
            &&& t.search == received(s.search, msg)
            &&& if msg is Panic {
                t.phase is Over && action == Action::<C>::Fail(ThreadPanicked)
            } else {
                t.phase is Receiving && action is Receive
            }
        },
        (Phase::Receiving, Event::NoMessage) => sends_next(s.search, t, action),
        (Phase::Logging(circ), Event::Logged) => offers(s.search, circ, 1, t, action),
        (Phase::Offering(_, attempt), Event::Accepted) => sends_next(
            handed_over(s.search, attempt.target),
            t,
            action,
        ),
        (Phase::Offering(circ, attempt), Event::Refused) => if attempt.tries
            == s.search.status.len() {
            &&& t.search == s.search
            &&& t.phase == Phase::<C>::Handing(attempt.target)
            &&& action == Action::Hand(attempt.target, circ)
        } else {
            offers(s.search, circ, (attempt.tries + 1) as usize, t, action)
        },
        (Phase::Handing(target), Event::Accepted) => sends_next(
            handed_over(s.search, target),
            t,
            action,
        ),
        (Phase::Appraising, Event::Appraised(appraisals)) => {
            &&& t.search == drained(s.search, appraisals@)
            &&& t.phase is Timing
            &&& action matches Action::CheckTime(reports)
            &&& are_reports(reports@, s.search, appraisals@)
        },
        (Phase::Timing, Event::Elapsed(elapsed)) => {
            &&& t.search == s.search
            &&& if exhausted(s.search) {
                t.phase is Over && action == Action::<C>::Stop(Progress::Exhausted)
            } else if s.timeout is Some && elapsed > s.timeout->0 {
                t.phase is Over && action == Action::<C>::Stop(Progress::TimedOut)
            } else {
                t.phase is Receiving && action is Receive
            }
        },
        _ => false,
    }
}

/// The reports on a look at all circuits that came back.
pub open spec fn are_reports<C>(
    reports: Seq<Report>,
    s: SearchState<C>,
    appraisals: Seq<Appraisal>,
) -> bool {
    let points = reported(s.count, appraisals.len());
    &&& reports.len() == points.len()
    &&& forall|k: int|
        0 <= k < points.len() ==> is_report(
            #[trigger] reports[k],
            considered(
                SearchState { pending: Seq::empty(), ..s },
                s.pending,
                appraisals,
                points[k],
            ),
            appraisals.len(),
        )
}

/// The main loop of a search. It is told what happens, and tells what to do.
pub struct MainLoop<C> {
    search: Search<C>,
    phase: Phase<C>,
    timeout: Option<u64>,
}

impl<C> View for MainLoop<C> {
    type V = LoopState<C>;

    closed spec fn view(&self) -> LoopState<C> {
        LoopState { search: self.search@, phase: self.phase, timeout: self.timeout }
    }
}

impl<C: Clone> MainLoop<C> {
    /// Starts a loop with a search. The first thing to do is to look for a message.
    pub fn new(search: Search<C>, timeout: Option<u64>) -> (main_loop: Self)
        requires
            search@.wf(),
            search@.status.len() > 0,
        ensures
            main_loop@.wf(),
            main_loop@.search == search@,
            main_loop@.phase is Receiving,
            main_loop@.timeout == timeout,
    {
        MainLoop { search, phase: Phase::Receiving, timeout }
    }

    /// What to do after an event.
    pub fn next(&mut self, event: Event<C>) -> (action: Action<C>)
        requires
            old(self)@.wf(),
            is_awaited(old(self)@, event),
        ensures
            final(self)@.wf(),
            loop_step(old(self)@, event, final(self)@, action),
    {
        let mut phase: Phase<C> = Phase::Over;
        std::mem::swap(&mut phase, &mut self.phase);
        match (phase, event) {
            (Phase::Receiving, Event::Message(msg)) => match self.search.receive(msg) {
                Ok(()) => {
                    self.phase = Phase::Receiving;
                    Action::Receive
                },
                Err(e) => Action::Fail(e),
            },
            (Phase::Receiving, Event::NoMessage) => self.send_next(),
            (Phase::Logging(circ), Event::Logged) => self.offer(circ),
            (Phase::Offering(_, attempt), Event::Accepted) => {
                self.search.sent(attempt.target);
                self.send_next()
            },
            (Phase::Offering(circ, attempt), Event::Refused) => {
                match self.search.send_refused(attempt) {
                    SendStep::Try(next) => {
                        let copy: C = circ.clone();
                        self.phase = Phase::Offering(circ, next);
                        Action::Offer(next.target, copy)
                    },
                    SendStep::Block(target) => {
                        self.phase = Phase::Handing(target);
                        Action::Hand(target, circ)
                    },
                }
            },
            (Phase::Handing(target), Event::Accepted) => {
                self.search.sent(target);
                self.send_next()
            },
            (Phase::Appraising, Event::Appraised(appraisals)) => {
                let ghost before = self.search@;
                let reports: Vec<Report> = self.search.drain(&appraisals);
                proof {
                    assert(search_step(before, drained(before, appraisals@)));
                    lemma_step(before, self.search@);
                    lemma_drained(before, appraisals@);
                }
                self.phase = Phase::Timing;
                Action::CheckTime(reports)
            },
            (_, event) => {
                let elapsed: u64 = match event {
                    Event::Elapsed(elapsed) => elapsed,
                    _ => 0,
                };
                match self.search.progress(self.timeout, elapsed) {
                    Progress::Running => {
                        self.phase = Phase::Receiving;
                        Action::Receive
                    },
                    progress => Action::Stop(progress),
                }
            },
        }
    }

    /// Sends out the next waiting circuit, or goes on to those that came back.
    fn send_next(&mut self) -> (action: Action<C>)
        requires
            old(self)@.search.wf(),
            old(self)@.search.status.len() > 0,
        ensures
            final(self)@.wf(),
            final(self)@.timeout == old(self)@.timeout,
            sends_next(old(self)@.search, final(self)@, action),
    {
        let ghost before = self@.search;
        let next: Option<Popped<C>> = self.search.pop();
        match next {
            Some(next) => {
                assert(popped(before, self@.search, next.hash));
                if next.new_best {
                    self.phase = Phase::Logging(next.circ);
                    Action::LogBest
                } else {
                    self.offer(next.circ)
                }
            },
            None => {
                self.phase = Phase::Appraising;
                Action::Appraise
            },
        }
    }

    /// Offers the circuit to the worker whose turn it is.
    fn offer(&mut self, circ: C) -> (action: Action<C>)
        requires
            old(self)@.search.wf(),
            old(self)@.search.status.len() > 0,
        ensures
            final(self)@.wf(),
            final(self)@.timeout == old(self)@.timeout,
            offers(old(self)@.search, circ, 1, final(self)@, action),
    {
        let attempt: SendAttempt = self.search.begin_send();
        let copy: C = circ.clone();
        self.phase = Phase::Offering(circ, attempt);
        Action::Offer(attempt.target, copy)
    }

    /// The search.
    pub fn search(&self) -> (search: &Search<C>)
        ensures
            search@ == self@.search,
    {
        &self.search
    }

    /// Ends the loop with the best circuit that was found.
    pub fn into_best(self) -> (best: C)
        ensures
            best == self@.search.best,
    {
        self.search.into_best()
    }
}

/// The states that a loop goes through, upon the given events and with the given actions.
pub open spec fn loop_run<C: Clone>(
    run: Seq<LoopState<C>>,
    events: Seq<Event<C>>,
    actions: Seq<Action<C>>,
) -> bool {
    forall|i: int, j: int|
        #![trigger run[i], run[j]]
        0 <= i && j == i + 1 && j < run.len() ==> is_awaited(run[i], events[i]) && loop_step(
            run[i],
            events[i],
            run[j],
            actions[i],
        )
}

/// After a look at all circuits that came back none is left, and the best one is the same.
proof fn lemma_drained<C>(s: SearchState<C>, appraisals: Seq<Appraisal>)
    ensures
        drained(s, appraisals).pending.len() == 0,
        drained(s, appraisals).best == s.best,
{
    let start = SearchState { pending: Seq::<(usize, C)>::empty(), ..s };
    lemma_considered(start, s.pending, appraisals, s.pending.len());
}

/// To send out the next circuit leads to a later state.
proof fn lemma_sends_next<C: Clone>(s: SearchState<C>, t: LoopState<C>, action: Action<C>)
    requires
        s.wf(),
        s.status.len() > 0,
        sends_next(s, t, action),
    ensures
        follows(s, t.search),
        t.wf(),
{
    if s.queue != Map::<usize, usize>::empty() {
        let (hash, mid) = choose|hash: usize, mid: SearchState<C>| #[trigger]
            popped(s, mid, hash) && if s.queue[hash] > s.best_cost {
                t.search == mid && t.phase == Phase::Logging(s.circs[hash]) && action is LogBest
            } else {
                offers(mid, s.circs[hash], 1, t, action)
            };
        assert(search_step(s, mid));
        lemma_step(s, mid);
        if t.search != mid {
            assert(search_step(mid, t.search));
            lemma_step(mid, t.search);
            lemma_follows(s, mid, t.search);
        }
    }
}

/// An event leads to a later state of the search.
proof fn lemma_loop_step<C: Clone>(
    s: LoopState<C>,
    event: Event<C>,
    t: LoopState<C>,
    action: Action<C>,
)
    requires
        s.wf(),
        is_awaited(s, event),
        loop_step(s, event, t, action),
    ensures
        t.wf(),
        follows(s.search, t.search),
{
    match (s.phase, event) {
        (Phase::Receiving, Event::Message(msg)) => {
            assert(t.search == received(s.search, msg));
            assert(search_step(s.search, t.search));
            lemma_step(s.search, t.search);
        },
        (Phase::Receiving, Event::NoMessage) => {
            lemma_sends_next(s.search, t, action);
        },
        (Phase::Offering(_, SendAttempt { target, .. }), Event::Accepted)
        | (Phase::Handing(target), Event::Accepted) => {
            let mid = handed_over(s.search, target);
            assert(search_step(s.search, mid));
            lemma_step(s.search, mid);
            lemma_sends_next(mid, t, action);
            lemma_follows(s.search, mid, t.search);
        },
        (Phase::Appraising, Event::Appraised(appraisals)) => {
            assert(t.search == drained(s.search, appraisals@));
            assert(search_step(s.search, t.search));
            lemma_step(s.search, t.search);
            lemma_drained(s.search, appraisals@);
        },
        _ => {
            if t.search != s.search {
                assert(search_step(s.search, t.search));
                lemma_step(s.search, t.search);
            }
        },
    }
}

/// In the course of the loop the best circuit never gets worse, and no circuit that has left
/// the queue gets back into it.
pub proof fn the_main_loop_goes_forward<C: Clone>(
    run: Seq<LoopState<C>>,
    events: Seq<Event<C>>,
    actions: Seq<Action<C>>,
    i: int,
    j: int,
)
    requires
        loop_run(run, events, actions),
        0 <= i <= j < run.len(),
        run[0].wf(),
    ensures
        run[i].wf(),
        run[j].wf(),
        follows(run[i].search, run[j].search),
    decreases j, i,
{
    if i < j {
        the_main_loop_goes_forward(run, events, actions, i, j - 1);
        lemma_loop_step(run[j - 1], events[j - 1], run[j], actions[j - 1]);
        lemma_follows(run[i].search, run[j - 1].search, run[j].search);
    } else if 0 < i {
        the_main_loop_goes_forward(run, events, actions, 0, i);
    }
}

/// When the loop ends because nothing is left to do, the best circuit is as good as any one
/// that ever waited.
pub proof fn a_loop_without_work_has_found_the_best<C: Clone>(
    run: Seq<LoopState<C>>,
    events: Seq<Event<C>>,
    actions: Seq<Action<C>>,
    i: int,
    hash: usize,
)
    requires
        loop_run(run, events, actions),
        0 <= i < run.len() - 1,
        run[0].wf(),
        actions[run.len() - 2] == Action::<C>::Stop(Progress::Exhausted),
        run[i].search.queue.contains_key(hash),
    ensures
        run[i].search.queue[hash] <= run.last().search.best_cost,
{
    let last = run.len() - 1;
    the_main_loop_goes_forward(run, events, actions, i, last);
    assert(loop_step(run[last - 1], events[last - 1], run[last], actions[last - 1]));
    assert(exhausted(run[last].search));
    assert(!run[last].search.queue.contains_key(hash));
}

/// The loop ends by itself only when nothing is left to do or when the time is up, and never
/// while a circuit is on its way to a worker or waits to be looked at.
pub proof fn the_loop_ends_for_a_reason<C: Clone>(
    s: LoopState<C>,
    event: Event<C>,
    t: LoopState<C>,
    progress: Progress,
)
    requires
        s.wf(),
        is_awaited(s, event),
        loop_step(s, event, t, Action::Stop(progress)),
    ensures
        s.phase is Timing,
        t.search.pending.len() == 0,
        progress == Progress::Exhausted <==> exhausted(t.search),
        progress == Progress::TimedOut ==> s.timeout is Some && (event matches Event::Elapsed(
            elapsed,
        ) && elapsed > s.timeout->0),
        progress != Progress::Running,
{
}

/// To send out the next circuit keeps the priorities right.
proof fn lemma_sends_next_priced<C: Clone>(
    s: SearchState<C>,
    t: LoopState<C>,
    action: Action<C>,
    cost: spec_fn(C) -> usize,
)
    requires
        s.wf(),
        s.status.len() > 0,
        sends_next(s, t, action),
        is_priced(s, cost),
        forall|a: C, b: C| #[trigger] cloned(a, b) ==> cost(a) == cost(b),
    ensures
        is_priced(t.search, cost),
{
    if s.queue != Map::<usize, usize>::empty() {
        let (hash, mid) = choose|hash: usize, mid: SearchState<C>| #[trigger]
            popped(s, mid, hash) && if s.queue[hash] > s.best_cost {
                t.search == mid && t.phase == Phase::Logging(s.circs[hash]) && action is LogBest
            } else {
                offers(mid, s.circs[hash], 1, t, action)
            };
        assert(other_step(s, mid));
        lemma_honest_step(s, mid, cost);
    }
}

/// With honest appraisals, the priorities stay those of the costs throughout the loop.
pub proof fn the_main_loop_keeps_priorities_right<C: Clone>(
    run: Seq<LoopState<C>>,
    events: Seq<Event<C>>,
    actions: Seq<Action<C>>,
    i: int,
    cost: spec_fn(C) -> usize,
)
    requires
        loop_run(run, events, actions),
        is_told_the_truth(run, events, cost),
        0 <= i < run.len(),
        run[0].wf(),
        is_priced(run[0].search, cost),
        forall|a: C, b: C| #[trigger] cloned(a, b) ==> cost(a) == cost(b),
    ensures
        is_priced(run[i].search, cost),
    decreases i,
{
    if i > 0 {
        the_main_loop_keeps_priorities_right(run, events, actions, i - 1, cost);
        the_main_loop_goes_forward(run, events, actions, i - 1, i);
        let s = run[i - 1];
        let t = run[i];
        let event = events[i - 1];
        let action = actions[i - 1];
        assert(loop_step(s, event, t, action));
        match (s.phase, event) {
            (Phase::Receiving, Event::NoMessage) => {
                lemma_sends_next_priced(s.search, t, action, cost);
            },
            (Phase::Offering(_, SendAttempt { target, .. }), Event::Accepted)
            | (Phase::Handing(target), Event::Accepted) => {
                lemma_sends_next_priced(handed_over(s.search, target), t, action, cost);
            },
            (Phase::Appraising, Event::Appraised(appraisals)) => {
                assert(t.search == drained(s.search, appraisals@));
                assert(honest_step(s.search, t.search, cost));
                lemma_honest_step(s.search, t.search, cost);
            },
            _ => {},
        }
    }
}

/// Whatever the loop is told about the worth of circuits are their costs.
pub open spec fn is_told_the_truth<C>(
    run: Seq<LoopState<C>>,
    events: Seq<Event<C>>,
    cost: spec_fn(C) -> usize,
) -> bool {
    forall|i: int|
        0 <= i < run.len() - 1 ==> (#[trigger] events[i] matches Event::Appraised(appraisals)
            ==> are_honest(run[i].search.pending, appraisals@, cost))
}

/// With honest appraisals, a loop that ends because nothing is left to do returns a circuit
/// that costs no more than any one that ever waited.
pub proof fn a_loop_without_work_returns_the_cheapest<C: Clone>(
    run: Seq<LoopState<C>>,
    events: Seq<Event<C>>,
    actions: Seq<Action<C>>,
    i: int,
    hash: usize,
    cost: spec_fn(C) -> usize,
)
    requires
        loop_run(run, events, actions),
        is_told_the_truth(run, events, cost),
        0 <= i < run.len() - 1,
        run[0].wf(),
        is_priced(run[0].search, cost),
        forall|a: C, b: C| #[trigger] cloned(a, b) ==> cost(a) == cost(b),
        actions[run.len() - 2] == Action::<C>::Stop(Progress::Exhausted),
        run[i].search.queue.contains_key(hash),
    ensures
        cost(run.last().search.best) <= cost(run[i].search.circs[hash]),
{
    the_main_loop_keeps_priorities_right(run, events, actions, i, cost);
    the_main_loop_keeps_priorities_right(run, events, actions, run.len() - 1, cost);
    a_loop_without_work_has_found_the_best(run, events, actions, i, hash);
    assert(run[i].search.queue[hash] == spec_rev_cost(cost(run[i].search.circs[hash])));
}

/// What is logged in the first `n` steps of a loop: the cost of the circuit that it starts
/// from, and that of the best circuit whenever it is to be logged.
pub open spec fn logged<C>(
    run: Seq<LoopState<C>>,
    actions: Seq<Action<C>>,
    n: nat,
    cost: spec_fn(C) -> usize,
) -> Seq<usize>
    decreases n,
{
    if n == 0 {
        seq![cost(run[0].search.best)]
    } else {
        let before = logged(run, actions, (n - 1) as nat, cost);
        if actions[n - 1] is LogBest {
            before.push(cost(run[n as int].search.best))
        } else {
            before
        }
    }
}

/// To send out the next circuit makes for a better one if it is logged, and leaves the best one
/// as it is if not.
proof fn lemma_sends_next_logged<C: Clone>(s: SearchState<C>, t: LoopState<C>, action: Action<C>)
    requires
        sends_next(s, t, action),
    ensures
        if action is LogBest {
            t.search.best_cost > s.best_cost
        } else {
            t.search.best == s.best
        },
{
}

/// With honest appraisals, the costs that a loop logs fall from one to the next, and the last
/// one is the cost of the best circuit, which the loop returns.
pub proof fn the_log_falls_to_the_result<C: Clone>(
    run: Seq<LoopState<C>>,
    events: Seq<Event<C>>,
    actions: Seq<Action<C>>,
    n: nat,
    cost: spec_fn(C) -> usize,
)
    requires
        loop_run(run, events, actions),
        is_told_the_truth(run, events, cost),
        n < run.len(),
        run[0].wf(),
        is_priced(run[0].search, cost),
        forall|a: C, b: C| #[trigger] cloned(a, b) ==> cost(a) == cost(b),
    ensures
        logged(run, actions, n, cost).len() > 0,
        logged(run, actions, n, cost).last() == cost(run[n as int].search.best),
        forall|i: int, j: int|
            0 <= i < j < logged(run, actions, n, cost).len() ==> #[trigger] logged(
                run,
                actions,
                n,
                cost,
            )[i] > #[trigger] logged(run, actions, n, cost)[j],
    decreases n,
{
    if n > 0 {
        let m = n - 1;
        the_log_falls_to_the_result(run, events, actions, m as nat, cost);
        the_main_loop_keeps_priorities_right(run, events, actions, m, cost);
        the_main_loop_keeps_priorities_right(run, events, actions, n as int, cost);
        let s = run[m];
        let t = run[n as int];
        let action = actions[m];
        assert(loop_step(s, events[m], t, action));
        match (s.phase, events[m]) {
            (Phase::Receiving, Event::NoMessage) => {
                lemma_sends_next_logged(s.search, t, action);
            },
            (Phase::Offering(_, SendAttempt { target, .. }), Event::Accepted)
            | (Phase::Handing(target), Event::Accepted) => {
                lemma_sends_next_logged(handed_over(s.search, target), t, action);
            },
            (Phase::Appraising, Event::Appraised(appraisals)) => {
                lemma_drained(s.search, appraisals@);
            },
            _ => {},
        }
        let before = logged(run, actions, m as nat, cost);
        let after = logged(run, actions, n, cost);
        if action is LogBest {
            assert(cost(t.search.best) < before.last());
        }
        assert forall|i: int, j: int| 0 <= i < j < after.len() implies #[trigger] after[i]
            > #[trigger] after[j] by {
            assert(after[i] == before[i]);
            if j < before.len() {
                assert(after[j] == before[j]);
            } else if i < before.len() - 1 {
                assert(before[i] > before[before.len() - 1]);
            }
        }
    }
}

/// All circuits of the state are good: those that wait, those that came back, the one that is
/// on its way, and the best one.
pub open spec fn are_good<C>(s: LoopState<C>, good: spec_fn(C) -> bool) -> bool {
    &&& are_good_circuits(s.search, good)
    &&& match s.phase {
        Phase::Logging(circ) => good(circ),
        Phase::Offering(circ, _) => good(circ),
        _ => true,
    }
}

/// The circuits that wait, those that came back and the best one are good.
pub open spec fn are_good_circuits<C>(s: SearchState<C>, good: spec_fn(C) -> bool) -> bool {
    &&& good(s.best)
    &&& forall|h: usize| #[trigger] s.circs.contains_key(h) ==> good(s.circs[h])
    &&& forall|i: int| 0 <= i < s.pending.len() ==> good((#[trigger] s.pending[i]).1)
}

/// A look at circuits that are good adds good ones.
proof fn lemma_considered_good<C>(
    s: SearchState<C>,
    items: Seq<(usize, C)>,
    appraisals: Seq<Appraisal>,
    n: nat,
    good: spec_fn(C) -> bool,
)
    requires
        n <= items.len(),
        are_good_circuits(s, good),
        forall|i: int| 0 <= i < items.len() ==> good((#[trigger] items[i]).1),
    ensures
        are_good_circuits(considered(s, items, appraisals, n), good),
    decreases n,
{
    if n > 0 {
        lemma_considered_good(s, items, appraisals, (n - 1) as nat, good);
        let before = considered(s, items, appraisals, (n - 1) as nat);
        let after = considered(s, items, appraisals, n);
        assert(good(items[n - 1].1));
        assert forall|h: usize| #[trigger] after.circs.contains_key(h) implies good(
            after.circs[h],
        ) by {
            if h != items[n - 1].0 {
                assert(before.circs.contains_key(h));
            }
        }
    }
}

/// To send out the next circuit keeps all circuits good.
proof fn lemma_sends_next_good<C: Clone>(
    s: SearchState<C>,
    t: LoopState<C>,
    action: Action<C>,
    good: spec_fn(C) -> bool,
)
    requires
        s.wf(),
        sends_next(s, t, action),
        are_good_circuits(s, good),
        forall|a: C, b: C| #[trigger] cloned(a, b) && good(a) ==> good(b),
    ensures
        are_good(t, good),
{
    if s.queue != Map::<usize, usize>::empty() {
        let (hash, mid) = choose|hash: usize, mid: SearchState<C>| #[trigger]
            popped(s, mid, hash) && if s.queue[hash] > s.best_cost {
                t.search == mid && t.phase == Phase::Logging(s.circs[hash]) && action is LogBest
            } else {
                offers(mid, s.circs[hash], 1, t, action)
            };
        assert(s.queue.dom().contains(hash));
        assert(s.circs.contains_key(hash));
        assert forall|h: usize| #[trigger] mid.circs.contains_key(h) implies good(mid.circs[h]) by {
            assert(s.circs.contains_key(h));
        }
    }
}

/// The loop only ever deals with the circuit that it started from and with those that workers
/// have sent, and so does what it returns: whatever holds of all of these, and of the clones
/// of circuits of which it holds, holds of all circuits in the loop and of the best one.
pub proof fn the_best_comes_from_the_start_or_a_worker<C: Clone>(
    run: Seq<LoopState<C>>,
    events: Seq<Event<C>>,
    actions: Seq<Action<C>>,
    i: int,
    good: spec_fn(C) -> bool,
)
    requires
        loop_run(run, events, actions),
        0 <= i < run.len(),
        run[0].wf(),
        are_good(run[0], good),
        forall|a: C, b: C| #[trigger] cloned(a, b) && good(a) ==> good(b),
        forall|j: int|
            0 <= j < run.len() - 1 ==> (#[trigger] events[j] matches Event::Message(
                ChannelMsg::Item(item),
            ) ==> good(item.1)),
    ensures
        are_good(run[i], good),
        good(run[i].search.best),
    decreases i,
{
    if i > 0 {
        the_best_comes_from_the_start_or_a_worker(run, events, actions, i - 1, good);
        the_main_loop_goes_forward(run, events, actions, i - 1, i);
        let s = run[i - 1];
        let t = run[i];
        let event = events[i - 1];
        let action = actions[i - 1];
        assert(loop_step(s, event, t, action));
        match (s.phase, event) {
            (Phase::Receiving, Event::NoMessage) => {
                lemma_sends_next_good(s.search, t, action, good);
            },
            (Phase::Offering(_, SendAttempt { target, .. }), Event::Accepted)
            | (Phase::Handing(target), Event::Accepted) => {
                lemma_sends_next_good(handed_over(s.search, target), t, action, good);
            },
            (Phase::Appraising, Event::Appraised(appraisals)) => {
                let start = SearchState { pending: Seq::<(usize, C)>::empty(), ..s.search };
                lemma_considered_good(
                    start,
                    s.search.pending,
                    appraisals@,
                    s.search.pending.len(),
                    good,
                );
            },
            _ => {},
        }
    }
}

/// What the loop does upon each event: messages are taken in; circuits are sent out, the best
/// ones first, until none waits; each circuit that leaves the queue is offered to the workers
/// in turn, after it was logged if it is the best so far, and handed to the last one if all
/// refuse it; what came back is looked at; and the loop ends as soon as no circuit waits and
/// no worker has any, or else when its time is up.
pub proof fn events_have_their_effects<C: Clone>(
    s: LoopState<C>,
    event: Event<C>,
    t: LoopState<C>,
    action: Action<C>,
)
    requires
        s.wf(),
        is_awaited(s, event),
        loop_step(s, event, t, action),
    ensures
        t.timeout == s.timeout,
        match event {
            Event::Message(ChannelMsg::Item(item)) => {
                &&& t.search == (SearchState { pending: s.search.pending.push(item), ..s.search })
                &&& t.phase is Receiving
                &&& action is Receive
            },
            Event::Message(ChannelMsg::Empty(worker)) => {
                &&& t.search == (SearchState {
                    status: s.search.status.update(worker as int, ChannelStatus::Empty),
                    ..s.search
                })
                &&& t.phase is Receiving
                &&& action is Receive
            },
            Event::Message(ChannelMsg::Panic) => {
                &&& t.search == s.search
                &&& t.phase is Over
                &&& action is Fail
            },
            Event::NoMessage => has_sent_next(s.search, t, action),
            Event::Logged => {
                &&& s.phase matches Phase::Logging(circ)
                &&& action matches Action::Offer(worker, copy)
                &&& worker == s.search.turn
                &&& cloned(circ, copy)
                &&& t.phase == Phase::Offering(circ, SendAttempt { target: worker, tries: 1 })
                &&& t.search == (SearchState {
                    turn: (s.search.turn + 1) % s.search.status.len(),
                    ..s.search
                })
            },
            Event::Accepted => match s.phase {
                Phase::Offering(_, SendAttempt { target, .. }) | Phase::Handing(target) => {
                    has_sent_next(
                        SearchState {
                            status: s.search.status.update(
                                target as int,
                                ChannelStatus::NonEmpty,
                            ),
                            ..s.search
                        },
                        t,
                        action,
                    )
                },
                _ => false,
            },
            Event::Refused => s.phase matches Phase::Offering(circ, attempt) && if attempt.tries
                == s.search.status.len() {
                &&& action == Action::Hand(attempt.target, circ)
                &&& t.phase == Phase::<C>::Handing(attempt.target)
                &&& t.search == s.search
            } else {
                &&& action matches Action::Offer(worker, copy)
                &&& worker == s.search.turn
                &&& cloned(circ, copy)
                &&& t.phase matches Phase::Offering(kept, next)
                &&& kept == circ
                &&& next.target == worker
                &&& next.tries == attempt.tries + 1
                &&& t.search == (SearchState {
                    turn: (s.search.turn + 1) % s.search.status.len(),
                    ..s.search
                })
            },
            Event::Appraised(appraisals) => {
                &&& t.search == drained(s.search, appraisals@)
                &&& t.phase is Timing
                &&& action matches Action::CheckTime(reports)
                &&& reports@.len() == reported(s.search.count, appraisals@.len()).len()
                &&& forall|k: int|
                    #![trigger reports@[k]]
                    0 <= k < reports@.len() ==> {
                        let point = reported(s.search.count, appraisals@.len())[k];
                        let so_far = considered(
                            SearchState { pending: Seq::empty(), ..s.search },
                            s.search.pending,
                            appraisals@,
                            point,
                        );
                        &&& reports@[k].circ_cnt == so_far.count + 1
                        &&& reports@[k].received == s.search.pending.len()
                        &&& reports@[k].queue_size == so_far.queue.len()
                        &&& reports@[k].seen_size == so_far.seen.len()
                    }
            },
            Event::Elapsed(elapsed) => {
                let idle = (forall|h: usize| !#[trigger] s.search.queue.contains_key(h)) && (
                forall|i: int|
                    0 <= i < s.search.status.len() ==> #[trigger] s.search.status[i]
                        == ChannelStatus::Empty);
                &&& t.search == s.search
                &&& if idle {
                    t.phase is Over && action == Action::<C>::Stop(Progress::Exhausted)
                } else if s.timeout matches Some(limit) && elapsed > limit {
                    t.phase is Over && action == Action::<C>::Stop(Progress::TimedOut)
                } else {
                    t.phase is Receiving && action is Receive
                }
            },
        },
{
    if let Event::Elapsed(_) = event {
        if forall|h: usize| !#[trigger] s.search.queue.contains_key(h) {
            assert(s.search.queue =~= Map::<usize, usize>::empty());
        }
    }
    match (s.phase, event) {
        (Phase::Receiving, Event::NoMessage) => {
            lemma_has_sent_next(s.search, t, action);
        },
        (Phase::Offering(_, SendAttempt { target, .. }), Event::Accepted)
        | (Phase::Handing(target), Event::Accepted) => {
            lemma_has_sent_next(handed_over(s.search, target), t, action);
        },
        _ => {},
    }
}

/// A circuit has left the queue that no waiting one is better than, and is logged or offered;
/// or none waited.
pub open spec fn has_sent_next<C: Clone>(
    s: SearchState<C>,
    t: LoopState<C>,
    action: Action<C>,
) -> bool {
    if forall|h: usize| !#[trigger] s.queue.contains_key(h) {
        t.search == s && t.phase is Appraising && action is Appraise
    } else {
        exists|hash: usize| #[trigger]
            s.queue.contains_key(hash) && (forall|other: usize| #[trigger]
                s.queue.contains_key(other) ==> s.queue[other] <= s.queue[hash]) && if s.queue[hash]
                > s.best_cost {
                &&& t.search == (SearchState {
                    queue: s.queue.remove(hash),
                    circs: s.circs.remove(hash),
                    best: t.search.best,
                    best_cost: s.queue[hash],
                    ..s
                })
                &&& cloned(s.circs[hash], t.search.best)
                &&& t.phase == Phase::Logging(s.circs[hash])
                &&& action is LogBest
            } else {
                &&& t.search == (SearchState {
                    queue: s.queue.remove(hash),
                    circs: s.circs.remove(hash),
                    turn: (s.turn + 1) % s.status.len(),
                    ..s
                })
                &&& action matches Action::Offer(worker, copy)
                &&& worker == s.turn
                &&& cloned(s.circs[hash], copy)
                &&& t.phase == Phase::Offering(
                    s.circs[hash],
                    SendAttempt { target: worker, tries: 1 },
                )
            }
    }
}

proof fn lemma_has_sent_next<C: Clone>(s: SearchState<C>, t: LoopState<C>, action: Action<C>)
    requires
        s.wf(),
        s.status.len() > 0,
        sends_next(s, t, action),
    ensures
        has_sent_next(s, t, action),
{
    if forall|h: usize| !#[trigger] s.queue.contains_key(h) {
        assert(s.queue =~= Map::<usize, usize>::empty());
    } else {
        let (hash, mid) = choose|hash: usize, mid: SearchState<C>| #[trigger]
            popped(s, mid, hash) && if s.queue[hash] > s.best_cost {
                t.search == mid && t.phase == Phase::Logging(s.circs[hash]) && action is LogBest
            } else {
                offers(mid, s.circs[hash], 1, t, action)
            };
        assert(s.queue.contains_key(hash));
    }
}

/// A worker that has taken a circuit has work until it reports that it has run dry, and as long
/// as a worker has work the loop does not end because nothing is left to do.
pub proof fn the_loop_waits_for_every_worker<C: Clone>(
    run: Seq<LoopState<C>>,
    events: Seq<Event<C>>,
    actions: Seq<Action<C>>,
    worker: usize,
    taken: int,
    now: int,
)
    requires
        loop_run(run, events, actions),
        run[0].wf(),
        0 < taken < now < run.len(),
        match actions[taken - 1] {
            Action::Offer(target, _) => target == worker,
            Action::Hand(target, _) => target == worker,
            _ => false,
        },
        events[taken] is Accepted,
        forall|k: int|
            taken < k < now - 1 ==> #[trigger] events[k] != Event::<C>::Message(
                ChannelMsg::Empty(worker),
            ),
    ensures
        actions[now - 1] != Action::<C>::Stop(Progress::Exhausted),
        events[now - 1] != Event::<C>::Message(ChannelMsg::Empty(worker))
            ==> run[now].search.status[worker as int] is NonEmpty,
    decreases now,
{
    let s = run[now - 1];
    let t = run[now];
    let event = events[now - 1];
    let action = actions[now - 1];
    the_main_loop_goes_forward(run, events, actions, now - 1, now);
    assert(loop_step(s, event, t, action));
    events_have_their_effects(s, event, t, action);
    if let Event::Appraised(appraisals) = event {
        unseen_circuits_in_range_join_the_queue(s.search, appraisals@);
    }
    if now - 1 == taken {
        let before = run[taken - 1];
        the_main_loop_goes_forward(run, events, actions, taken - 1, taken);
        assert(loop_step(before, events[taken - 1], s, actions[taken - 1]));
        events_have_their_effects(before, events[taken - 1], s, actions[taken - 1]);
    } else {
        the_loop_waits_for_every_worker(run, events, actions, worker, taken, now - 1);
        the_main_loop_goes_forward(run, events, actions, taken, now);
        the_main_loop_goes_forward(run, events, actions, now - 2, now);
        assert(s.search.status[worker as int] is NonEmpty);
    }
}

} // verus!
