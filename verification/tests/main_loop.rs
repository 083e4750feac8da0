use hugr_taso::main_loop::{Action, Event, MainLoop};
use hugr_taso::search::{Appraisal, ChannelMsg, Progress, Search};

fn start(n_threads: usize, timeout: Option<u64>) -> MainLoop<&'static str> {
    MainLoop::new(Search::new("start", 0, 10, n_threads), timeout)
}

fn in_range(cost: usize) -> Appraisal {
    Appraisal { cost, in_range: true }
}

#[test]
fn the_loop_goes_round_until_nothing_is_left() {
    let mut main_loop = start(2, None);
    // The first circuit goes to the first worker.
    assert!(matches!(main_loop.next(Event::NoMessage), Action::Offer(0, "start")));
    assert!(matches!(main_loop.next(Event::Accepted), Action::Appraise));
    let action = main_loop.next(Event::Appraised(vec![]));
    assert!(matches!(action, Action::CheckTime(reports) if reports.is_empty()));
    // The worker has not run dry yet.
    assert!(matches!(main_loop.next(Event::Elapsed(0)), Action::Receive));
    // It sends two circuits, one of which is better.
    for item in [(1, "worse"), (2, "better")] {
        let action = main_loop.next(Event::Message(ChannelMsg::Item(item)));
        assert!(matches!(action, Action::Receive));
    }
    assert!(matches!(main_loop.next(Event::NoMessage), Action::Appraise));
    let action = main_loop.next(Event::Appraised(vec![in_range(11), in_range(9)]));
    assert!(matches!(action, Action::CheckTime(_)));
    assert!(matches!(main_loop.next(Event::Elapsed(1)), Action::Receive));
    let action = main_loop.next(Event::Message(ChannelMsg::Empty(0)));
    assert!(matches!(action, Action::Receive));
    // The better one is logged and sent out, and then the worse one, each in turn.
    assert!(matches!(main_loop.next(Event::NoMessage), Action::LogBest));
    assert_eq!(*main_loop.search().best(), "better");
    assert!(matches!(main_loop.next(Event::Logged), Action::Offer(1, "better")));
    assert!(matches!(main_loop.next(Event::Accepted), Action::Offer(0, "worse")));
    assert!(matches!(main_loop.next(Event::Accepted), Action::Appraise));
    assert!(matches!(main_loop.next(Event::Appraised(vec![])), Action::CheckTime(_)));
    assert!(matches!(main_loop.next(Event::Elapsed(2)), Action::Receive));
    // Both workers run dry.
    for worker in [1, 0] {
        let action = main_loop.next(Event::Message(ChannelMsg::Empty(worker)));
        assert!(matches!(action, Action::Receive));
    }
    assert!(matches!(main_loop.next(Event::NoMessage), Action::Appraise));
    assert!(matches!(main_loop.next(Event::Appraised(vec![])), Action::CheckTime(_)));
    let action = main_loop.next(Event::Elapsed(3));
    assert!(matches!(action, Action::Stop(Progress::Exhausted)));
    assert_eq!(main_loop.into_best(), "better");
}

#[test]
fn a_circuit_that_all_workers_refuse_waits_for_the_last_one() {
    let mut main_loop = start(3, None);
    assert!(matches!(main_loop.next(Event::NoMessage), Action::Offer(0, "start")));
    assert!(matches!(main_loop.next(Event::Refused), Action::Offer(1, "start")));
    assert!(matches!(main_loop.next(Event::Refused), Action::Offer(2, "start")));
    assert!(matches!(main_loop.next(Event::Refused), Action::Hand(2, "start")));
    assert!(matches!(main_loop.next(Event::Accepted), Action::Appraise));
    assert!(matches!(main_loop.next(Event::Appraised(vec![])), Action::CheckTime(_)));
    // The last worker has work now.
    assert!(matches!(main_loop.next(Event::Elapsed(0)), Action::Receive));
    assert!(matches!(
        main_loop.next(Event::Message(ChannelMsg::Empty(2))),
        Action::Receive
    ));
    assert!(matches!(main_loop.next(Event::NoMessage), Action::Appraise));
    assert!(matches!(main_loop.next(Event::Appraised(vec![])), Action::CheckTime(_)));
    assert!(matches!(
        main_loop.next(Event::Elapsed(0)),
        Action::Stop(Progress::Exhausted)
    ));
}

#[test]
fn the_loop_ends_when_its_time_is_up() {
    let mut main_loop = start(1, Some(5));
    assert!(matches!(main_loop.next(Event::NoMessage), Action::Offer(0, "start")));
    assert!(matches!(main_loop.next(Event::Accepted), Action::Appraise));
    assert!(matches!(main_loop.next(Event::Appraised(vec![])), Action::CheckTime(_)));
    assert!(matches!(main_loop.next(Event::Elapsed(5)), Action::Receive));
    assert!(matches!(main_loop.next(Event::NoMessage), Action::Appraise));
    assert!(matches!(main_loop.next(Event::Appraised(vec![])), Action::CheckTime(_)));
    assert!(matches!(
        main_loop.next(Event::Elapsed(6)),
        Action::Stop(Progress::TimedOut)
    ));
    assert_eq!(main_loop.into_best(), "start");
}

#[test]
fn the_loop_fails_when_a_worker_panics() {
    let mut main_loop = start(1, None);
    let action = main_loop.next(Event::Message(ChannelMsg::Panic));
    assert!(matches!(action, Action::Fail(_)));
}

#[test]
fn the_loop_reports_on_every_thousandth_circuit() {
    let mut main_loop = MainLoop::new(Search::new(0, 0, 10, 1), None);
    assert!(matches!(main_loop.next(Event::NoMessage), Action::Offer(0, 0)));
    assert!(matches!(main_loop.next(Event::Accepted), Action::Appraise));
    assert!(matches!(main_loop.next(Event::Appraised(vec![])), Action::CheckTime(_)));
    assert!(matches!(main_loop.next(Event::Elapsed(0)), Action::Receive));
    for hash in 1..1501 {
        main_loop.next(Event::Message(ChannelMsg::Item((hash, hash))));
    }
    assert!(matches!(main_loop.next(Event::NoMessage), Action::Appraise));
    assert_eq!(main_loop.search().pending().len(), 1500);
    let out = Appraisal { cost: 50, in_range: false };
    match main_loop.next(Event::Appraised(vec![out; 1500])) {
        Action::CheckTime(reports) => {
            assert_eq!(reports.len(), 1);
            assert_eq!(reports[0].circ_cnt, 1000);
            assert_eq!(reports[0].received, 1500);
            assert_eq!(reports[0].queue_size, 0);
            assert_eq!(reports[0].seen_size, 1);
        }
        _ => panic!("no reports"),
    }
}

#[test]
fn a_finished_loop_has_the_cheapest_circuit() {
    // Circuits are their own costs and hashes; the worker takes one or seven away.
    let mut main_loop = MainLoop::new(Search::new(60, 60, 60, 1), None);
    let mut inbox: Vec<usize> = Vec::new();
    let mut outbox: Vec<ChannelMsg<(usize, usize)>> = Vec::new();
    let mut offered = Vec::new();
    let mut best = main_loop.search().best_priority();
    let mut logged = vec![*main_loop.search().best()];
    let mut action = Action::Receive;
    loop {
        let event = match action {
            Action::Receive => match outbox.pop() {
                Some(msg) => Event::Message(msg),
                None => Event::NoMessage,
            },
            Action::LogBest => {
                logged.push(*main_loop.search().best());
                Event::Logged
            }
            Action::Offer(_, circ) => {
                offered.push(circ);
                inbox.push(circ);
                Event::Accepted
            }
            Action::Hand(..) => panic!("the worker has room"),
            Action::Appraise => Event::Appraised(
                main_loop
                    .search()
                    .pending()
                    .iter()
                    .map(|(_, circ)| Appraisal { cost: *circ, in_range: *circ >= 20 })
                    .collect(),
            ),
            Action::CheckTime(_) => {
                outbox.push(ChannelMsg::Empty(0));
                for circ in inbox.drain(..) {
                    outbox.push(ChannelMsg::Item((circ - 1, circ - 1)));
                    outbox.push(ChannelMsg::Item((circ - 7, circ - 7)));
                }
                Event::Elapsed(0)
            }
            Action::Stop(progress) => {
                assert_eq!(progress, Progress::Exhausted);
                break;
            }
            Action::Fail(_) => panic!("no worker panics"),
        };
        action = main_loop.next(event);
        assert!(main_loop.search().best_priority() >= best);
        best = main_loop.search().best_priority();
    }
    let mut sorted = offered.clone();
    sorted.sort();
    sorted.dedup();
    assert_eq!(sorted.len(), offered.len());
    assert_eq!(sorted[0], 20);
    // What was logged falls from the start to the result.
    assert!(logged.len() > 2 && logged.windows(2).all(|pair| pair[0] > pair[1]));
    assert_eq!(logged[0], 60);
    assert_eq!(logged.last(), Some(&20));
    assert_eq!(main_loop.into_best(), 20);
}

#[test]
fn every_circuit_of_the_loop_was_there_at_the_start_or_was_sent() {
    // All circuits that go in are even, and so are all that come out.
    let mut main_loop = MainLoop::new(Search::new(40, 40, 40, 1), None);
    let mut sent: Vec<usize> = vec![30, 50, 20, 30];
    let mut action = Action::Receive;
    for _ in 0..30 {
        let event = match action {
            Action::Receive => match sent.pop() {
                Some(circ) => Event::Message(ChannelMsg::Item((circ, circ))),
                None => Event::NoMessage,
            },
            Action::LogBest => Event::Logged,
            Action::Offer(_, circ) | Action::Hand(_, circ) => {
                assert_eq!(circ % 2, 0);
                Event::Accepted
            }
            Action::Appraise => {
                let pending = main_loop.search().pending();
                Event::Appraised(pending.iter().map(|(_, circ)| in_range(*circ)).collect())
            }
            Action::CheckTime(_) => Event::Elapsed(0),
            Action::Stop(_) | Action::Fail(_) => panic!("the worker has not run dry"),
        };
        action = main_loop.next(event);
        assert_eq!(*main_loop.search().best() % 2, 0);
    }
    assert_eq!(main_loop.into_best(), 20);
}
