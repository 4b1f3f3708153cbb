use yci::pubsub::{Action, Assignment, Job, MultiQueue, PubSub};

fn j(tid: &str) -> Job {
    Job::new(tid.to_string(), 0)
}

fn qs(names: &[&str]) -> Vec<String> {
    names.iter().map(|x| x.to_string()).collect()
}

#[test]
fn test_worker_first() {
    let mut a = PubSub::default();

    a.add("1000".to_string(), Some(5), &qs(&["100", "200", "300"]));

    assert_eq!(a.assign(&"400".to_string(), &j("50")), None);

    assert_eq!(a.assign(&"300".to_string(), &j("60")), Some("1000".to_string()));
}

#[test]
fn test_job_first() {
    let mut a = PubSub::default();
    assert_eq!(a.assign(&"400".to_string(), &j("50")), None);

    a.add("1000".to_string(), Some(0), &qs(&["100", "200", "300"]));

    assert_eq!(a.assign(&"400".to_string(), &j("50")), None);
}

#[test]
fn test_multi_queue_a() {
    let mut a = MultiQueue::default();

    let ops = a.job_create(&"1".to_string(), &j("A"));

    assert_eq!(ops, vec![]);

    let ops2 = a.worker_add("a".to_string(), Some(2), &qs(&["1", "2", "3"]));

    assert_eq!(
        ops2,
        vec![Assignment {
            action: Action::Started,
            worker_key: "a".to_string(),
            queue_key: "1".to_string(),
            job_key: j("A")
        }],
    );
}

#[test]
fn test_multi_queue_b() {
    let mut a = MultiQueue::default();

    let ops = a.job_create(&"1".to_string(), &j("A"));

    assert_eq!(ops, vec![]);

    let ops = a.job_create(&"2".to_string(), &j("B"));

    assert_eq!(ops, vec![]);

    let ops2 = a.worker_add("a".to_string(), Some(2), &qs(&["1", "2", "3"]));

    assert_eq!(
        ops2,
        vec![
            Assignment {
                action: Action::Started,
                worker_key: "a".to_string(),
                queue_key: "1".to_string(),
                job_key: j("A")
            },
            Assignment {
                action: Action::Started,
                worker_key: "a".to_string(),
                queue_key: "2".to_string(),
                job_key: j("B")
            },
        ],
    );
}

#[test]
fn test_multi_queue_c() {
    let mut a = MultiQueue::default();

    let ops = a.job_create(&"1".to_string(), &j("A"));

    assert_eq!(ops, vec![]);

    let ops = a.job_create(&"2".to_string(), &j("B"));

    assert_eq!(ops, vec![]);

    let ops = a.job_create(&"2".to_string(), &j("C"));

    assert_eq!(ops, vec![]);

    let ops2 = a.worker_add("a".to_string(), Some(2), &qs(&["1", "2", "3"]));

    assert_eq!(
        ops2,
        vec![
            Assignment {
                action: Action::Started,
                worker_key: "a".to_string(),
                queue_key: "1".to_string(),
                job_key: j("A")
            },
            Assignment {
                action: Action::Started,
                worker_key: "a".to_string(),
                queue_key: "2".to_string(),
                job_key: j("B")
            },
        ],
    );
}

#[test]
fn test_multi_queue_d() {
    let mut a = MultiQueue::default();

    let ops = a.job_create(&"1".to_string(), &j("A"));

    assert_eq!(ops, vec![]);

    let ops = a.job_create(&"2".to_string(), &j("B"));

    assert_eq!(ops, vec![]);

    let ops = a.job_create(&"2".to_string(), &j("C"));

    assert_eq!(ops, vec![]);

    let ops2 = a.worker_add("a".to_string(), Some(2), &qs(&["1", "2", "3"]));

    assert_eq!(
        ops2,
        vec![
            Assignment {
                action: Action::Started,
                worker_key: "a".to_string(),
                queue_key: "1".to_string(),
                job_key: j("A")
            },
            Assignment {
                action: Action::Started,
                worker_key: "a".to_string(),
                queue_key: "2".to_string(),
                job_key: j("B")
            },
        ],
    );

    let ops = a.job_finish(&"1".to_string(), &j("A"));

    assert_eq!(
        ops,
        vec![
            Assignment {
                action: Action::Done,
                worker_key: "a".to_string(),
                queue_key: "1".to_string(),
                job_key: j("A")
            },
            Assignment {
                action: Action::Started,
                worker_key: "a".to_string(),
                queue_key: "2".to_string(),
                job_key: j("C")
            },
        ],
    );
}

#[test]
fn test_multi_queue_e() {
    let mut a = MultiQueue::default();

    let ops = a.job_create(&"1".to_string(), &j("A"));

    assert_eq!(ops, vec![]);

    let ops = a.job_create(&"2".to_string(), &j("B"));

    assert_eq!(ops, vec![]);

    let ops = a.job_create(&"2".to_string(), &j("C"));

    assert_eq!(ops, vec![]);

    let ops = a.job_create(&"2".to_string(), &j("D"));

    assert_eq!(ops, vec![]);

    let ops2 = a.worker_add("a".to_string(), Some(2), &qs(&["1", "2", "3"]));

    assert_eq!(
        ops2,
        vec![
            Assignment {
                action: Action::Started,
                worker_key: "a".to_string(),
                queue_key: "1".to_string(),
                job_key: j("A")
            },
            Assignment {
                action: Action::Started,
                worker_key: "a".to_string(),
                queue_key: "2".to_string(),
                job_key: j("B")
            },
        ],
    );

    let ops3 = a.worker_add("b".to_string(), Some(1), &qs(&["1", "2", "3"]));

    assert_eq!(
        ops3,
        vec![Assignment {
            action: Action::Started,
            worker_key: "b".to_string(),
            queue_key: "2".to_string(),
            job_key: j("C")
        }],
    );

    let ops = a.job_finish(&"1".to_string(), &j("A"));

    assert_eq!(
        ops,
        vec![
            Assignment {
                action: Action::Done,
                worker_key: "a".to_string(),
                queue_key: "1".to_string(),
                job_key: j("A")
            },
            Assignment {
                action: Action::Started,
                worker_key: "a".to_string(),
                queue_key: "2".to_string(),
                job_key: j("D")
            },
        ],
    );
}

#[test]
fn test_multi_queue_cancel_job() {
    let mut a = MultiQueue::default();

    let ops = a.job_create(&"1".to_string(), &j("A"));

    assert_eq!(ops, vec![]);

    let ops = a.job_finish(&"1".to_string(), &j("A"));

    assert_eq!(ops, vec![]);
}

#[test]
fn test_multi_queue_cancel() {
    let mut a = MultiQueue::default();
    let _ops2 = a.worker_add("a".to_string(), None, &qs(&["1", "2", "3"]));

    let ops = a.job_create(&"1".to_string(), &j("A"));

    assert_eq!(
        ops,
        vec![Assignment::new(Action::Started, "a".to_string(), "1".to_string(), j("A"))],
    );

    let ops = a.job_create(&"1".to_string(), &j("B"));

    assert_eq!(
        ops,
        vec![Assignment::new(Action::Started, "a".to_string(), "1".to_string(), j("B"))],
    );

    let mut ops = a.worker_remove(&"a".to_string());

    ops.sort_by_key(|x| (x.queue_key.clone(), x.job_key.clone()));

    assert_eq!(
        ops,
        vec![
            Assignment::new(Action::Cancelled, "a".to_string(), "1".to_string(), j("A")),
            Assignment::new(Action::Cancelled, "a".to_string(), "1".to_string(), j("B")),
        ],
    );

    let mut ops = a.worker_add("b".to_string(), None, &qs(&["1", "2", "3"]));

    ops.sort_by_key(|x| (x.queue_key.clone(), x.job_key.clone()));

    assert_eq!(
        ops,
        vec![
            Assignment::new(Action::Started, "b".to_string(), "1".to_string(), j("A")),
            Assignment::new(Action::Started, "b".to_string(), "1".to_string(), j("B")),
        ],
    );
}

#[test]
fn scheduler_fairness_capacity_two() {
    let mut a = MultiQueue::default();
    assert_eq!(a.job_create(&"q".to_string(), &j("A")), vec![]);
    assert_eq!(a.job_create(&"q".to_string(), &j("B")), vec![]);
    assert_eq!(a.job_create(&"q".to_string(), &j("C")), vec![]);

    let started = a.worker_add("w".to_string(), Some(2), &qs(&["q"]));
    assert_eq!(
        started,
        vec![
            Assignment::new(Action::Started, "w".to_string(), "q".to_string(), j("A")),
            Assignment::new(Action::Started, "w".to_string(), "q".to_string(), j("B")),
        ],
    );

    let ops = a.job_finish(&"q".to_string(), &j("A"));
    assert_eq!(
        ops,
        vec![
            Assignment::new(Action::Done, "w".to_string(), "q".to_string(), j("A")),
            Assignment::new(Action::Started, "w".to_string(), "q".to_string(), j("C")),
        ],
    );
}

#[test]
fn worker_remove_requeues_in_held_order() {
    let mut a = MultiQueue::default();
    let _ = a.worker_add("a".to_string(), None, &qs(&["q"]));
    assert_eq!(a.job_create(&"q".to_string(), &j("A")).len(), 1);
    assert_eq!(a.job_create(&"q".to_string(), &j("B")).len(), 1);

    let cancelled = a.worker_remove(&"a".to_string());
    assert_eq!(
        cancelled,
        vec![
            Assignment::new(Action::Cancelled, "a".to_string(), "q".to_string(), j("A")),
            Assignment::new(Action::Cancelled, "a".to_string(), "q".to_string(), j("B")),
        ],
    );

    let started = a.worker_add("b".to_string(), None, &qs(&["q"]));
    assert_eq!(
        started,
        vec![
            Assignment::new(Action::Started, "b".to_string(), "q".to_string(), j("A")),
            Assignment::new(Action::Started, "b".to_string(), "q".to_string(), j("B")),
        ],
    );
}

#[test]
fn duplicate_job_key_is_ignored() {
    let mut a = MultiQueue::default();
    assert_eq!(a.job_create(&"q".to_string(), &j("A")), vec![]);
    assert_eq!(a.job_create(&"q".to_string(), &j("A")), vec![]);
    let started = a.worker_add("w".to_string(), None, &qs(&["q"]));
    assert_eq!(started.len(), 1);
}
