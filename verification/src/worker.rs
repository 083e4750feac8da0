//! A worker: when it waits for work, what it does with each message, and what it sends back.

use crate::search::ChannelMsg;
use vstd::prelude::*;

verus! {

/// What a worker does next.
pub enum WorkerAction<C> {
    /// Rewrite this circuit in all possible ways.
    Rewrite(C),
    /// Tell the main loop, by the worker's number, that there is no work left here.
    ReportEmpty(usize),
    /// End.
    Stop,
    /// Panic, as told.
    Panic,
}

/// A worker, by its number.
#[derive(Clone, Copy, PartialEq, Eq, Debug, Structural)]
pub struct Worker {
    pub thread_id: usize,
    /// Whether the worker has run dry and waits until the main loop sends something.
    pub await_main: bool,
}

/// What a worker does with what it received, and how it stands afterwards.
pub open spec fn worker_step<C>(worker: Worker, received: Option<ChannelMsg<C>>) -> (
    Worker,
    WorkerAction<C>,
) {
    match received {
        Some(msg) => (
            Worker { await_main: false, ..worker },
            match msg {
                ChannelMsg::Item(circ) => WorkerAction::Rewrite(circ),
                ChannelMsg::Empty(_) => WorkerAction::Stop,
                ChannelMsg::Panic => WorkerAction::Panic,
            },
        ),
        None => if worker.await_main {
            (worker, WorkerAction::Stop)
        } else {
            (Worker { await_main: true, ..worker }, WorkerAction::ReportEmpty(worker.thread_id))
        },
    }
}

impl Worker {
    /// A worker that has not looked for work yet.
    pub fn new(thread_id: usize) -> (worker: Self)
        ensures
            worker.thread_id == thread_id,
            !worker.await_main,
    {
        Worker { thread_id, await_main: false }
    }

    /// What to do, given what was received: nothing came if no message was there, or, for a
    /// worker that waits, if the main loop is gone.
    pub fn step<C>(&mut self, received: Option<ChannelMsg<C>>) -> (action: WorkerAction<C>)
        ensures
            (*final(self), action) == worker_step(*old(self), received),
            final(self).thread_id == old(self).thread_id,
            final(self).await_main == (received is None),
            match received {
                Some(ChannelMsg::Item(circ)) => action == WorkerAction::Rewrite(circ),
                Some(ChannelMsg::Empty(_)) => action is Stop,
                Some(ChannelMsg::Panic) => action is Panic,
                None => if old(self).await_main {
                    action is Stop
                } else {
                    action == WorkerAction::<C>::ReportEmpty(old(self).thread_id)
                },
            },
    {
        match received {
            Some(msg) => {
                self.await_main = false;
                match msg {
                    ChannelMsg::Item(circ) => WorkerAction::Rewrite(circ),
                    ChannelMsg::Empty(_) => WorkerAction::Stop,
                    ChannelMsg::Panic => WorkerAction::Panic,
                }
            },
            None => {
                if self.await_main {
                    return WorkerAction::Stop;
                }
                self.await_main = true;
                WorkerAction::ReportEmpty(self.thread_id)
            },
        }
    }
}

/// What came of a try to replace a match, before the new circuit is looked at.
pub enum Replaced<C> {
    /// The circuit found for it does not fit there.
    NoReplacement,
    /// The replaced part has a path through the rest of the circuit.
    NotConvex,
    /// The new circuit.
    Done(C),
}

/// What came of a try to replace a match.
pub enum Outcome<C> {
    /// The circuit found for it does not fit there.
    NoReplacement,
    /// The replaced part has a path through the rest of the circuit.
    NotConvex,
    /// The replacement made the circuit invalid.
    Invalid,
    /// The new circuit, with its hash.
    Rewritten(usize, C),
}

/// The new circuit was judged by what `is_valid` says of it, and goes with the hash that
/// `hash` gives it.
pub open spec fn is_judged<C, V: Fn(&C) -> bool, K: Fn(&C) -> usize>(
    replaced: Replaced<C>,
    is_valid: V,
    hash: K,
    outcome: Outcome<C>,
) -> bool {
    match replaced {
        Replaced::NoReplacement => outcome is NoReplacement,
        Replaced::NotConvex => outcome is NotConvex,
        Replaced::Done(circ) => match outcome {
            Outcome::Invalid => call_ensures(is_valid, (&circ,), false),
            Outcome::Rewritten(h, newc) => newc == circ && call_ensures(is_valid, (&circ,), true)
                && call_ensures(hash, (&circ,), h),
            _ => false,
        },
    }
}

/// Looks at a new circuit: it is invalid, or it goes with its hash.
pub fn judge<C, V: Fn(&C) -> bool, K: Fn(&C) -> usize>(
    replaced: Replaced<C>,
    is_valid: V,
    hash: K,
) -> (outcome: Outcome<C>)
    requires
        forall|circ: &C| #[trigger] call_requires(is_valid, (circ,)),
        forall|circ: &C| #[trigger] call_requires(hash, (circ,)),
    ensures
        is_judged(replaced, is_valid, hash, outcome),
        outcome is NoReplacement <==> replaced is NoReplacement,
        outcome is NotConvex <==> replaced is NotConvex,
        outcome is Invalid ==> replaced is Done && call_ensures(
            is_valid,
            (&replaced->Done_0,),
            false,
        ),
        outcome matches Outcome::Rewritten(h, circ) ==> {
            &&& replaced == Replaced::Done(circ)
            &&& call_ensures(is_valid, (&circ,), true)
            &&& call_ensures(hash, (&circ,), h)
        },
{
    match replaced {
        Replaced::NoReplacement => Outcome::NoReplacement,
        Replaced::NotConvex => Outcome::NotConvex,
        Replaced::Done(circ) => {
            if !is_valid(&circ) {
                return Outcome::Invalid;
            }
            let h: usize = hash(&circ);
            Outcome::Rewritten(h, circ)
        },
    }
}

/// What a worker does about a try to replace a match.
pub struct Reply<C> {
    /// What it sends to the main loop, if anything.
    pub msg: Option<ChannelMsg<(usize, C)>>,
    /// Whether it panics then.
    pub panics: bool,
}

/// What a worker does about a try to replace a match.
pub open spec fn reply<C>(outcome: Outcome<C>) -> Reply<C> {
    match outcome {
        Outcome::NoReplacement | Outcome::NotConvex => Reply { msg: None, panics: false },
        Outcome::Invalid => Reply { msg: Some(ChannelMsg::Panic), panics: true },
        Outcome::Rewritten(hash, circ) => Reply {
            msg: Some(ChannelMsg::Item((hash, circ))),
            panics: false,
        },
    }
}

/// What to do about a try to replace a match: the new circuit is sent, or that it is invalid,
/// upon which the worker panics.
pub fn report<C>(outcome: Outcome<C>) -> (res: Reply<C>)
    ensures
        res == reply(outcome),
        match outcome {
            Outcome::NoReplacement | Outcome::NotConvex => res.msg is None && !res.panics,
            Outcome::Invalid => res.msg matches Some(ChannelMsg::Panic) && res.panics,
            Outcome::Rewritten(hash, circ) => res.msg == Some(ChannelMsg::Item((hash, circ)))
                && !res.panics,
        },
{
    match outcome {
        Outcome::NoReplacement | Outcome::NotConvex => Reply { msg: None, panics: false },
        Outcome::Invalid => Reply { msg: Some(ChannelMsg::Panic), panics: true },
        Outcome::Rewritten(hash, circ) => Reply {
            msg: Some(ChannelMsg::Item((hash, circ))),
            panics: false,
        },
    }
}

/// The worker panics over one of the first `n` tries.
pub open spec fn panics_within<C>(outcomes: Seq<Outcome<C>>, n: nat) -> bool {
    exists|k: int| 0 <= k < n && reply(#[trigger] outcomes[k]).panics
}

/// What a worker sends about the first `n` tries. Once it has panicked it sends no more.
pub open spec fn messages<C>(outcomes: Seq<Outcome<C>>, n: nat) -> Seq<ChannelMsg<(usize, C)>>
    decreases n,
{
    if n == 0 {
        Seq::empty()
    } else {
        let before = messages(outcomes, (n - 1) as nat);
        match reply(outcomes[n - 1]).msg {
            Some(msg) if !panics_within(outcomes, (n - 1) as nat) => before.push(msg),
            _ => before,
        }
    }
}

/// Every circuit that a worker sends is valid, and goes with its own hash. An invalid one is
/// never sent: the worker sends `Panic` in its place, once and as the last thing.
pub proof fn only_valid_circuits_are_sent<C, V: Fn(&C) -> bool, K: Fn(&C) -> usize>(
    replaced: Seq<Replaced<C>>,
    is_valid: V,
    hash: K,
    outcomes: Seq<Outcome<C>>,
    n: nat,
)
    requires
        n <= outcomes.len() == replaced.len(),
        forall|k: int|
            0 <= k < n ==> is_judged(replaced[k], is_valid, hash, #[trigger] outcomes[k]),
    ensures
        forall|i: int|
            0 <= i < messages(outcomes, n).len() ==> match #[trigger] messages(outcomes, n)[i] {
                ChannelMsg::Item((h, circ)) => call_ensures(is_valid, (&circ,), true)
                    && call_ensures(hash, (&circ,), h),
                ChannelMsg::Panic => panics_within(outcomes, n) && i == messages(
                    outcomes,
                    n,
                ).len() - 1,
                ChannelMsg::Empty(_) => false,
            },
        panics_within(outcomes, n) ==> messages(outcomes, n).len() > 0 && messages(
            outcomes,
            n,
        ).last() is Panic,
    decreases n,
{
    if n > 0 {
        let m = (n - 1) as nat;
        only_valid_circuits_are_sent(replaced, is_valid, hash, outcomes, m);
        let before = messages(outcomes, m);
        let after = messages(outcomes, n);
        let last = outcomes[n - 1];
        assert(is_judged(replaced[n - 1], is_valid, hash, last));
        assert(panics_within(outcomes, n) == (panics_within(outcomes, m) || reply(last).panics)) by {
            if reply(last).panics {
                assert(reply(outcomes[n - 1]).panics);
            }
        }
        assert forall|i: int| 0 <= i < after.len() implies match #[trigger] after[i] {
            ChannelMsg::Item((h, circ)) => call_ensures(is_valid, (&circ,), true) && call_ensures(
                hash,
                (&circ,),
                h,
            ),
            ChannelMsg::Panic => panics_within(outcomes, n) && i == after.len() - 1,
            ChannelMsg::Empty(_) => false,
        } by {
            if i < before.len() {
                assert(after[i] == before[i]);
            }
        }
    }
}

/// How a worker stands after the first `n` of the given receipts.
pub open spec fn worker_after<C>(
    worker: Worker,
    received: Seq<Option<ChannelMsg<C>>>,
    n: nat,
) -> Worker
    decreases n,
{
    if n == 0 {
        worker
    } else {
        worker_step(worker_after(worker, received, (n - 1) as nat), received[n - 1]).0
    }
}

/// What a worker does upon the receipt at `i`.
pub open spec fn worker_action<C>(
    worker: Worker,
    received: Seq<Option<ChannelMsg<C>>>,
    i: nat,
) -> WorkerAction<C> {
    worker_step(worker_after(worker, received, i), received[i as int]).1
}

/// Between two reports that it has run dry, a worker that has not ended has received a circuit:
/// it never reports twice in a row. All its reports give its own number.
pub proof fn workers_report_once_when_they_run_dry<C>(
    worker: Worker,
    received: Seq<Option<ChannelMsg<C>>>,
    i: nat,
    j: nat,
)
    requires
        i < j < received.len(),
        worker_action(worker, received, i) is ReportEmpty,
        worker_action(worker, received, j) is ReportEmpty,
        forall|k: nat|
            i < k < j ==> (#[trigger] worker_action(worker, received, k) is Rewrite
                || worker_action(worker, received, k) is ReportEmpty),
    ensures
        exists|k: int| i < k < j && #[trigger] received[k] matches Some(ChannelMsg::Item(_)),
        worker_action(worker, received, i) == WorkerAction::<C>::ReportEmpty(worker.thread_id),
        worker_action(worker, received, j) == WorkerAction::<C>::ReportEmpty(worker.thread_id),
{
    lemma_thread_id(worker, received, i);
    lemma_thread_id(worker, received, j);
    if forall|k: int| i < k < j ==> #[trigger] received[k] is None {
        lemma_still_waiting(worker, received, (i + 1) as nat, j);
    } else {
        let k = choose|k: int| i < k < j && #[trigger] received[k] is Some;
        assert(worker_action(worker, received, k as nat) is Rewrite || worker_action(
            worker,
            received,
            k as nat,
        ) is ReportEmpty);
    }
}

/// A worker keeps its number.
proof fn lemma_thread_id<C>(worker: Worker, received: Seq<Option<ChannelMsg<C>>>, n: nat)
    ensures
        worker_after(worker, received, n).thread_id == worker.thread_id,
    decreases n,
{
    if n > 0 {
        lemma_thread_id(worker, received, (n - 1) as nat);
    }
}

/// A worker that waits goes on waiting as long as nothing comes.
proof fn lemma_still_waiting<C>(
    worker: Worker,
    received: Seq<Option<ChannelMsg<C>>>,
    i: nat,
    j: nat,
)
    requires
        i <= j <= received.len(),
        worker_after(worker, received, i).await_main,
        forall|k: int| i <= k < j ==> #[trigger] received[k] is None,
    ensures
        worker_after(worker, received, j).await_main,
    decreases j,
{
    if i < j {
        lemma_still_waiting(worker, received, i, (j - 1) as nat);
        assert(received[j - 1] is None);
    }
}

/// What a worker does with what it receives: it rewrites a circuit, ends or panics when it is
/// told to, and reports its own number when nothing came, unless it has waited for it. It
/// waits next time if and only if nothing came.
pub proof fn workers_do_what_they_are_told<C>(worker: Worker, received: Option<ChannelMsg<C>>)
    ensures
        worker_step(worker, received).0.thread_id == worker.thread_id,
        worker_step(worker, received).0.await_main <==> received is None,
        worker_step(worker, received).1 is Rewrite <==> received matches Some(ChannelMsg::Item(_)),
        received matches Some(ChannelMsg::Item(circ)) ==> worker_step(worker, received).1
            == WorkerAction::Rewrite(circ),
        worker_step(worker, received).1 is Panic <==> received matches Some(ChannelMsg::Panic),
        worker_step(worker, received).1 is ReportEmpty <==> received is None && !worker.await_main,
        worker_step(worker, received).1 matches WorkerAction::ReportEmpty(id) ==> id
            == worker.thread_id,
        worker_step(worker, received).1 is Stop <==> received matches Some(ChannelMsg::Empty(_))
            || received is None && worker.await_main,
{
}

/// Every new circuit that is valid is sent with its hash as long as the worker has not
/// panicked, in the order of the tries: what is sent about more tries begins with what is sent
/// about fewer.
pub proof fn all_new_circuits_are_sent_in_order<C>(outcomes: Seq<Outcome<C>>, m: nat, n: nat)
    requires
        m <= n <= outcomes.len(),
    ensures
        messages(outcomes, m).len() <= messages(outcomes, n).len(),
        messages(outcomes, n).take(messages(outcomes, m).len() as int) == messages(outcomes, m),
        forall|k: int|
            #![trigger outcomes[k]]
            0 <= k < n && (forall|j: int| 0 <= j < k ==> !(#[trigger] outcomes[j] is Invalid)) ==> (
            outcomes[k] matches Outcome::Rewritten(hash, circ) ==> messages(outcomes, n).contains(
                ChannelMsg::Item((hash, circ)),
            )),
        (forall|k: int| 0 <= k < n ==> !(#[trigger] outcomes[k] is Rewritten)
            && !(outcomes[k] is Invalid)) ==> messages(outcomes, n).len() == 0,
    decreases n,
{
    lemma_sent(outcomes, n);
    if m < n {
        let p = (n - 1) as nat;
        all_new_circuits_are_sent_in_order(outcomes, m, p);
        let before = messages(outcomes, p);
        let after = messages(outcomes, n);
        assert(after.take(messages(outcomes, m).len() as int) =~= messages(outcomes, m)) by {
            assert(before.take(messages(outcomes, m).len() as int) == messages(outcomes, m));
            assert(after.take(before.len() as int) =~= before);
        }
    } else {
        assert(messages(outcomes, n).take(messages(outcomes, n).len() as int) =~= messages(
            outcomes,
            n,
        ));
    }
}

/// What is sent about the first `n` tries.
proof fn lemma_sent<C>(outcomes: Seq<Outcome<C>>, n: nat)
    requires
        n <= outcomes.len(),
    ensures
        forall|k: int|
            #![trigger outcomes[k]]
            0 <= k < n && (forall|j: int| 0 <= j < k ==> !(#[trigger] outcomes[j] is Invalid)) ==> (
            outcomes[k] matches Outcome::Rewritten(hash, circ) ==> messages(outcomes, n).contains(
                ChannelMsg::Item((hash, circ)),
            )),
        (forall|k: int| 0 <= k < n ==> !(#[trigger] outcomes[k] is Rewritten)
            && !(outcomes[k] is Invalid)) ==> messages(outcomes, n).len() == 0,
    decreases n,
{
    if n > 0 {
        let p = (n - 1) as nat;
        lemma_sent(outcomes, p);
        let before = messages(outcomes, p);
        let after = messages(outcomes, n);
        assert forall|k: int|
            #![trigger outcomes[k]]
            0 <= k < n && (forall|j: int| 0 <= j < k ==> !(#[trigger] outcomes[j] is Invalid)) implies (
        outcomes[k] matches Outcome::Rewritten(hash, circ) ==> after.contains(
            ChannelMsg::Item((hash, circ)),
        )) by {
            if let Outcome::Rewritten(hash, circ) = outcomes[k] {
                let msg = ChannelMsg::Item((hash, circ));
                if k < p {
                    assert(before.contains(msg));
                    assert(after[before.index_of(msg)] == msg);
                } else {
                    assert(!panics_within(outcomes, p)) by {
                        if panics_within(outcomes, p) {
                            let j = choose|j: int| 0 <= j < p && reply(#[trigger] outcomes[j]).panics;
                            assert(!(outcomes[j] is Invalid));
                        }
                    }
                    assert(after[after.len() - 1] == msg);
                }
            }
        }
    }
}

} // verus!
