use csv_to_duckdb::pool::{parallel_jobs, JobPool, PoolAction};

fn actions(total: usize, limit: usize) -> Vec<PoolAction> {
    let mut pool = JobPool::new(total, limit);
    let mut list = Vec::new();
    loop {
        let action = pool.next();
        list.push(action);
        if action == PoolAction::Finished {
            assert_eq!(pool.next(), PoolAction::Finished);
            return list;
        }
    }
}

#[test]
fn one_job_after_the_other() {
    assert_eq!(
        actions(2, 1),
        vec![
            PoolAction::Start(0), PoolAction::Join(0), PoolAction::Start(1), PoolAction::Join(1),
            PoolAction::Finished,
        ]
    );
}

#[test]
fn the_job_that_was_started_last_is_waited_for() {
    assert_eq!(
        actions(4, 2),
        vec![
            PoolAction::Start(0), PoolAction::Start(1), PoolAction::Join(1), PoolAction::Start(2),
            PoolAction::Join(2), PoolAction::Start(3), PoolAction::Join(3), PoolAction::Join(0),
            PoolAction::Finished,
        ]
    );
}

#[test]
fn every_job_runs_once_and_never_too_many() {
    for total in 0..8usize {
        for limit in 1..10usize {
            let list = actions(total, limit);
            assert_eq!(list.len(), 2 * total + 1);
            let mut running: Vec<usize> = Vec::new();
            let mut started = 0;
            let mut joined = vec![false; total];
            for action in list {
                match action {
                    PoolAction::Start(job) => {
                        assert_eq!(job, started);
                        started += 1;
                        running.push(job);
                    }
                    PoolAction::Join(job) => {
                        assert_eq!(running.pop(), Some(job));
                        assert!(!joined[job]);
                        joined[job] = true;
                    }
                    PoolAction::Finished => assert!(running.is_empty()),
                }
                assert!(running.len() <= limit);
            }
            assert_eq!(started, total);
        }
    }
}

#[test]
fn number_of_parallel_jobs() {
    assert_eq!(parallel_jobs(4, 2), 2);
    assert_eq!(parallel_jobs(2, 4), 2);
    assert_eq!(actions(3, 0), vec![PoolAction::Finished]);
}
