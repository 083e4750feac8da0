use hugr_taso::best_log::BestCircSer;
use hugr_taso::search::{
    rev_cost, ChannelMsg, Progress, Search, SendAttempt, SendStep, ThreadPanicked, Appraisal,
};

fn in_range(cost: usize) -> Appraisal {
    Appraisal { cost, in_range: true }
}

/// Takes in the circuits and looks at them with the given appraisals.
fn feed(search: &mut Search<&'static str>, items: &[(usize, &'static str)], appraisals: &Vec<Appraisal>) {
    for item in items {
        assert_eq!(search.receive(ChannelMsg::Item(*item)), Ok(()));
    }
    assert!(search.drain(appraisals).is_empty());
}

#[test]
fn priorities_reverse_costs() {
    assert_eq!(rev_cost(0), usize::MAX);
    assert_eq!(rev_cost(7), usize::MAX - 7);
    assert_eq!(rev_cost(usize::MAX), 0);
    assert_eq!(rev_cost(rev_cost(42)), 42);
    assert!(rev_cost(3) > rev_cost(4));
}

#[test]
fn a_search_starts_with_its_circuit() {
    let mut search = Search::new("start", 11, 10, 2);
    assert_eq!(*search.best(), "start");
    assert_eq!(search.best_priority(), usize::MAX - 10);
    assert_eq!(search.queue_size(), 1);
    assert_eq!(search.seen_size(), 1);
    assert_eq!(search.circ_cnt(), 0);
    assert_eq!(search.progress(None, 0), Progress::Running);
    let next = search.pop().unwrap();
    assert_eq!(next.hash, 11);
    assert_eq!(next.circ, "start");
    assert!(!next.new_best);
    assert!(search.pop().is_none());
    assert_eq!(search.queue_size(), 0);
    assert_eq!(search.into_best(), "start");
}

#[test]
fn the_cheapest_circuit_is_popped_first() {
    let mut search = Search::new("start", 0, 10, 1);
    search.pop();
    let appraisals = vec![in_range(8), in_range(3), in_range(9)];
    feed(&mut search, &[(1, "a"), (2, "b"), (3, "c")], &appraisals);
    assert_eq!(search.queue_size(), 3);
    let first = search.pop().unwrap();
    assert_eq!((first.hash, first.circ, first.new_best), (2, "b", true));
    assert_eq!(*search.best(), "b");
    assert_eq!(search.best_priority(), usize::MAX - 3);
    let second = search.pop().unwrap();
    assert_eq!((second.hash, second.circ, second.new_best), (1, "a", false));
    let third = search.pop().unwrap();
    assert_eq!((third.hash, third.circ, third.new_best), (3, "c", false));
    assert!(search.pop().is_none());
    assert_eq!(search.into_best(), "b");
}

#[test]
fn seen_circuits_are_not_queued_again() {
    let mut search = Search::new("start", 5, 10, 1);
    search.pop();
    let appraisals = vec![in_range(1), in_range(4), in_range(2)];
    feed(&mut search, &[(5, "again"), (6, "new"), (6, "twice")], &appraisals);
    assert_eq!(search.circ_cnt(), 3);
    assert_eq!(search.queue_size(), 1);
    assert_eq!(search.seen_size(), 2);
    let next = search.pop().unwrap();
    assert_eq!((next.hash, next.circ), (6, "new"));
    assert_eq!(search.best_priority(), usize::MAX - 4);
    feed(&mut search, &[(6, "new")], &vec![in_range(4)]);
    assert!(search.pop().is_none());
}

#[test]
fn circuits_out_of_range_are_dropped_unseen() {
    let mut search = Search::new("start", 0, 10, 1);
    search.pop();
    feed(&mut search, &[(1, "far")], &vec![Appraisal { cost: 50, in_range: false }]);
    assert_eq!(search.queue_size(), 0);
    assert_eq!(search.seen_size(), 1);
    assert_eq!(search.circ_cnt(), 1);
    feed(&mut search, &[(1, "far")], &vec![in_range(50)]);
    assert_eq!(search.queue_size(), 1);
    assert_eq!(search.seen_size(), 2);
}

#[test]
fn pending_circuits_wait_for_their_appraisals() {
    let mut search = Search::new("start", 0, 10, 1);
    assert_eq!(search.receive(ChannelMsg::Item((3, "x"))), Ok(()));
    assert_eq!(search.receive(ChannelMsg::Item((4, "y"))), Ok(()));
    assert_eq!(search.pending(), &vec![(3, "x"), (4, "y")]);
    search.drain(&vec![in_range(1), in_range(2)]);
    assert!(search.pending().is_empty());
    assert_eq!(search.queue_size(), 3);
}

#[test]
fn every_thousandth_circuit_is_reported_on() {
    let mut search = Search::new(0, 0, 10, 1);
    let mut appraisals = Vec::new();
    for hash in 1..2002 {
        assert_eq!(search.receive(ChannelMsg::Item((hash, hash))), Ok(()));
        appraisals.push(in_range(20));
    }
    let reports = search.drain(&appraisals);
    assert_eq!(reports.len(), 2);
    assert_eq!(reports[0].circ_cnt, 1000);
    assert_eq!(reports[0].received, 2001);
    assert_eq!(reports[0].queue_size, 1000);
    assert_eq!(reports[0].seen_size, 1000);
    assert_eq!(reports[1].circ_cnt, 2000);
    assert_eq!(reports[1].queue_size, 2000);
    assert_eq!(search.circ_cnt(), 2001);
}

#[test]
fn a_panic_of_a_worker_is_an_error() {
    let mut search = Search::new("start", 0, 10, 1);
    assert_eq!(search.receive(ChannelMsg::Panic), Err(ThreadPanicked));
    assert_eq!(search.queue_size(), 1);
}

#[test]
fn a_circuit_is_offered_to_each_worker_once() {
    let mut search = Search::new("start", 0, 10, 3);
    let first = search.begin_send();
    assert_eq!(first, SendAttempt { target: 0, tries: 1 });
    let step = search.send_refused(first);
    assert_eq!(step, SendStep::Try(SendAttempt { target: 1, tries: 2 }));
    let step = search.send_refused(SendAttempt { target: 1, tries: 2 });
    assert_eq!(step, SendStep::Try(SendAttempt { target: 2, tries: 3 }));
    let step = search.send_refused(SendAttempt { target: 2, tries: 3 });
    assert_eq!(step, SendStep::Block(2));
    // The next circuit goes to the worker after that one.
    assert_eq!(search.begin_send(), SendAttempt { target: 0, tries: 1 });
    assert_eq!(search.begin_send(), SendAttempt { target: 1, tries: 1 });
}

#[test]
fn a_search_ends_when_queue_and_workers_are_empty() {
    let mut search = Search::new("start", 0, 10, 2);
    assert_eq!(search.progress(None, 1_000_000), Progress::Running);
    search.pop();
    assert_eq!(search.progress(None, 0), Progress::Exhausted);
    search.sent(1);
    assert_eq!(search.progress(None, 0), Progress::Running);
    assert_eq!(search.receive(ChannelMsg::Empty(0)), Ok(()));
    assert_eq!(search.progress(None, 0), Progress::Running);
    assert_eq!(search.receive(ChannelMsg::Empty(1)), Ok(()));
    assert_eq!(search.progress(None, 0), Progress::Exhausted);
}

#[test]
fn a_search_times_out_after_its_timeout() {
    let mut search = Search::new("start", 0, 10, 1);
    assert_eq!(search.progress(Some(60), 60), Progress::Running);
    assert_eq!(search.progress(Some(60), 61), Progress::TimedOut);
    assert_eq!(search.progress(Some(0), 0), Progress::Running);
    search.pop();
    assert_eq!(search.progress(Some(60), 61), Progress::Exhausted);
}

#[test]
fn an_exhausted_search_has_the_cheapest_circuit() {
    // Circuits are their own costs and hashes; a worker halves them and takes one away.
    let mut search: Search<usize> = Search::new(100, 100, 100, 1);
    let mut queued = vec![100];
    while search.progress(None, 0) == Progress::Running {
        let before = search.best_priority();
        while let Some(next) = search.pop() {
            for circ in [next.circ / 2 + 1, next.circ - 1] {
                assert_eq!(search.receive(ChannelMsg::Item((circ, circ))), Ok(()));
            }
        }
        assert!(search.best_priority() >= before);
        let appraisals: Vec<Appraisal> = search
            .pending()
            .iter()
            .map(|(_, circ)| Appraisal { cost: *circ, in_range: *circ > 40 })
            .collect();
        for (circ, _) in search.pending() {
            if *circ > 40 {
                queued.push(*circ);
            }
        }
        search.drain(&appraisals);
    }
    let cheapest = *queued.iter().min().unwrap();
    assert_eq!(cheapest, 41);
    assert_eq!(search.into_best(), cheapest);
}

#[test]
fn log_entries_hold_size_and_time() {
    let entry = BestCircSer::at(17, "2023-05-01T10:00:00+00:00".to_string());
    assert_eq!(entry.circ_len, 17);
    assert_eq!(entry.time, "2023-05-01T10:00:00+00:00");
}

#[test]
fn log_entries_are_stamped_with_the_time_of_day() {
    let before = chrono::Utc::now();
    let entry = BestCircSer::new(9);
    let after = chrono::Utc::now();
    assert_eq!(entry.circ_len, 9);
    let time = chrono::DateTime::parse_from_rfc3339(&entry.time).unwrap();
    assert!(before <= time && time <= after);
}
