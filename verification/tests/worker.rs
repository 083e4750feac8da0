use hugr_taso::search::ChannelMsg;
use hugr_taso::worker::{judge, report, Outcome, Replaced, Worker, WorkerAction};

#[test]
fn a_worker_rewrites_what_it_receives() {
    let mut worker = Worker::new(3);
    assert!(!worker.await_main);
    let action = worker.step(Some(ChannelMsg::Item("circuit")));
    assert!(matches!(action, WorkerAction::Rewrite("circuit")));
    assert!(!worker.await_main);
}

#[test]
fn a_worker_reports_once_when_it_runs_dry() {
    let mut worker = Worker::new(3);
    assert!(matches!(worker.step::<u8>(None), WorkerAction::ReportEmpty(3)));
    assert!(worker.await_main);
    assert!(matches!(worker.step(Some(ChannelMsg::Item(1u8))), WorkerAction::Rewrite(1)));
    assert!(!worker.await_main);
    // The number stays the same from one report to the next.
    assert!(matches!(worker.step::<u8>(None), WorkerAction::ReportEmpty(3)));
    // Nothing came although the worker waited: the main loop is gone.
    assert!(matches!(worker.step::<u8>(None), WorkerAction::Stop));
}

#[test]
fn a_worker_stops_and_panics_when_told() {
    let mut worker = Worker::new(0);
    assert!(matches!(worker.step::<u8>(Some(ChannelMsg::Empty(0))), WorkerAction::Stop));
    let mut worker = Worker { thread_id: 0, await_main: true };
    assert!(matches!(worker.step::<u8>(Some(ChannelMsg::Panic)), WorkerAction::Panic));
    assert!(!worker.await_main);
}

#[test]
fn a_worker_sends_back_new_circuits_only() {
    for idle in [report::<u8>(Outcome::NoReplacement), report(Outcome::NotConvex)] {
        assert!(idle.msg.is_none() && !idle.panics);
    }
    let invalid = report::<u8>(Outcome::Invalid);
    assert!(matches!(invalid.msg, Some(ChannelMsg::Panic)) && invalid.panics);
    let new = report(Outcome::Rewritten(5, "new"));
    assert!(matches!(new.msg, Some(ChannelMsg::Item((5, "new")))) && !new.panics);
}

#[test]
fn a_new_circuit_is_valid_and_goes_with_its_hash() {
    let judged = |replaced| judge(replaced, |circ: &usize| *circ < 10, |circ: &usize| circ * 7);
    assert!(matches!(judged(Replaced::NoReplacement), Outcome::NoReplacement));
    assert!(matches!(judged(Replaced::NotConvex), Outcome::NotConvex));
    assert!(matches!(judged(Replaced::Done(3)), Outcome::Rewritten(21, 3)));
    assert!(matches!(judged(Replaced::Done(10)), Outcome::Invalid));
}
