use keyed_loader::group::group_rows_by_key;
use keyed_loader::loader::{
    DispatchJob, FetchError, KeyedLoader, LoadReply, DEFAULT_MAX_BATCH_SIZE, DEFAULT_YIELD_BUDGET,
};
use keyed_loader::record::Question;
use keyed_loader::value_map::ValueMap;

fn mk_question(id: u128, band_id: u128) -> Question {
    Question {
        id,
        content: format!("question {}", id),
        correct_answer_id: id + 1000,
        band_id,
        created_at: 1_600_000_000_000_000,
        updated_at: 1_600_000_000_000_000,
    }
}

fn ticket_of(r: &LoadReply) -> u64 {
    match r {
        LoadReply::Pending(t) => *t,
        LoadReply::PendingDispatch(t, _) => *t,
        LoadReply::Ready(_) => panic!("expected a suspended load"),
    }
}

fn job_of(r: LoadReply) -> DispatchJob {
    match r {
        LoadReply::PendingDispatch(_, job) => job,
        _ => panic!("expected the batch to close"),
    }
}

fn yield_until_dispatch(l: &mut KeyedLoader, max_yields: usize) -> DispatchJob {
    for _ in 0..max_yields {
        if let Some(job) = l.note_yield() {
            return job;
        }
    }
    panic!("batch never dispatched within {} yields", max_yields);
}

#[test]
fn full_batch_dispatches_with_exactly_its_keys() {
    // max_batch_size = 2: load(A), load(B), load(C) before any resolution.
    // The first batch must dispatch with exactly {A, B}; C opens a second
    // batch that dispatches alone; the fetch runs exactly twice in total.
    let mut l = KeyedLoader::new(2, 100);
    let r1 = l.load(1);
    assert!(matches!(r1, LoadReply::Pending(_)));
    let r2 = l.load(2);
    let job1 = job_of(r2);
    assert_eq!(job1.keys, vec![1u128, 2u128]);
    let r3 = l.load(3);
    assert!(matches!(r3, LoadReply::Pending(_)));

    let job2 = yield_until_dispatch(&mut l, 200);
    assert_eq!(job2.keys, vec![3u128]);
    assert_ne!(job1.batch_id, job2.batch_id);

    // nothing further to dispatch: both batches are out, no third fetch
    for _ in 0..200 {
        assert!(l.note_yield().is_none());
    }
}

#[test]
fn duplicate_loads_share_one_key() {
    // Two concurrent loads of the same key before the batch closes: the
    // dispatched job carries the key once, with both waiters attached.
    let mut l = KeyedLoader::new(3, 100);
    let r1 = l.load(7);
    let r2 = l.load(7);
    let t1 = ticket_of(&r1);
    let t2 = ticket_of(&r2);
    assert_ne!(t1, t2);

    let job = yield_until_dispatch(&mut l, 200);
    assert_eq!(job.keys, vec![7u128]);

    let rows = vec![mk_question(70, 7)];
    let m = group_rows_by_key(&rows);
    let res = l.complete_dispatch(job.batch_id, Ok(&m));
    assert_eq!(res.len(), 2);
    assert_eq!(res[0].ticket, t1);
    assert_eq!(res[1].ticket, t2);
    for r in &res {
        match &r.outcome {
            Ok(v) => {
                assert_eq!(v.len(), 1);
                assert_eq!(v[0].id, 70);
            }
            Err(_) => panic!("fetch succeeded, no waiter may see an error"),
        }
    }
}

#[test]
fn absent_key_resolves_empty_and_is_cached() {
    // Fetch for {A, B} returns rows only for A: A gets its rows, B gets an
    // empty list — not an error — and both outcomes are cached.
    let mut l = KeyedLoader::new(2, 100);
    let r1 = l.load(1);
    let t1 = ticket_of(&r1);
    let job = job_of(l.load(2));

    let rows = vec![mk_question(10, 1), mk_question(11, 1)];
    let m = group_rows_by_key(&rows);
    let res = l.complete_dispatch(job.batch_id, Ok(&m));
    assert_eq!(res.len(), 2);
    assert_eq!(res[0].ticket, t1);
    match &res[0].outcome {
        Ok(v) => {
            assert_eq!(v.len(), 2);
            assert_eq!(v[0].id, 10);
            assert_eq!(v[1].id, 11);
        }
        Err(_) => panic!("key with rows must resolve to them"),
    }
    match &res[1].outcome {
        Ok(v) => assert!(v.is_empty()),
        Err(_) => panic!("a key without rows is not an error"),
    }

    // both keys are cached now: loads answer at once, no batch forms
    match l.load(1) {
        LoadReply::Ready(v) => assert_eq!(v.len(), 2),
        _ => panic!("cached key must be answered immediately"),
    }
    match l.load(2) {
        LoadReply::Ready(v) => assert!(v.is_empty()),
        _ => panic!("cached empty result must be answered immediately"),
    }
    // and no new fetch ever starts for them
    for _ in 0..200 {
        assert!(l.note_yield().is_none());
    }
}

#[test]
fn failed_fetch_reaches_every_waiter_and_caches_nothing() {
    let mut l = KeyedLoader::new(2, 100);
    let r1 = l.load(1);
    let r2 = l.load(2);
    let t1 = ticket_of(&r1);
    let job = job_of(r2);

    let res = l.complete_dispatch(job.batch_id, Err(FetchError::Query));
    assert_eq!(res.len(), 2);
    assert_eq!(res[0].ticket, t1);
    for r in &res {
        match &r.outcome {
            Err(e) => assert_eq!(*e, FetchError::Query),
            Ok(_) => panic!("a failed batch resolves no waiter with a value"),
        }
    }

    // nothing was cached: the same keys suspend again (retryable)
    assert!(matches!(l.load(1), LoadReply::Pending(_)));
    let job2 = job_of(l.load(2));
    assert_eq!(job2.keys, vec![1u128, 2u128]);
}

#[test]
fn cache_hits_return_identical_values_without_fetching() {
    let mut l = KeyedLoader::new(1, 100);
    let job = job_of(l.load(5));
    let rows = vec![mk_question(50, 5), mk_question(51, 5)];
    let m = group_rows_by_key(&rows);
    l.complete_dispatch(job.batch_id, Ok(&m));

    let first = match l.load(5) {
        LoadReply::Ready(v) => v,
        _ => panic!("cached key must be answered immediately"),
    };
    let second = match l.load(5) {
        LoadReply::Ready(v) => v,
        _ => panic!("cached key must be answered immediately"),
    };
    assert_eq!(first.len(), second.len());
    for (a, b) in first.iter().zip(second.iter()) {
        assert_eq!(a.id, b.id);
        assert_eq!(a.content, b.content);
        assert_eq!(a.correct_answer_id, b.correct_answer_id);
        assert_eq!(a.band_id, b.band_id);
        assert_eq!(a.created_at, b.created_at);
        assert_eq!(a.updated_at, b.updated_at);
    }
    // even with max_batch_size 1, the cached loads opened no batch
    for _ in 0..200 {
        assert!(l.note_yield().is_none());
    }
}

#[test]
fn load_many_returns_values_in_input_order() {
    let mut l = KeyedLoader::new(10, 1);
    let keys = vec![5u128, 3u128, 9u128];
    let rs = l.load_many(&keys);
    assert_eq!(rs.len(), 3);
    for r in &rs {
        assert!(!matches!(r, LoadReply::Ready(_)));
    }

    let job = yield_until_dispatch(&mut l, 10);
    assert_eq!(job.keys, vec![5u128, 3u128, 9u128]);

    // the store holds rows for bands 3 and 5 only, in this arrival order
    let rows = vec![mk_question(1, 3), mk_question(2, 5), mk_question(3, 3)];
    let m = group_rows_by_key(&rows);
    l.complete_dispatch(job.batch_id, Ok(&m));

    let vals = match l.collect_cached(&keys) {
        Some(vs) => vs,
        None => panic!("every key of the batch must be cached"),
    };
    assert_eq!(vals.len(), 3);
    // position 0 answers key 5, position 1 key 3, position 2 key 9
    assert_eq!(vals[0].len(), 1);
    assert_eq!(vals[0][0].id, 2);
    assert_eq!(vals[1].len(), 2);
    assert_eq!(vals[1][0].id, 1);
    assert_eq!(vals[1][1].id, 3);
    assert!(vals[2].is_empty());
}

#[test]
fn load_many_answers_cached_keys_immediately() {
    let mut l = KeyedLoader::new(1, 100);
    let job = job_of(l.load(4));
    let rows = vec![mk_question(40, 4)];
    let m = group_rows_by_key(&rows);
    l.complete_dispatch(job.batch_id, Ok(&m));

    let keys = vec![4u128, 6u128];
    let rs = l.load_many(&keys);
    match &rs[0] {
        LoadReply::Ready(v) => assert_eq!(v[0].id, 40),
        _ => panic!("cached key must be answered immediately"),
    }
    assert!(!matches!(rs[1], LoadReply::Ready(_)));
}

#[test]
fn yield_budget_bounds_how_long_a_batch_stays_open() {
    let mut l = KeyedLoader::new(100, 3);
    assert!(l.note_yield().is_none());
    let r = l.load(1);
    assert!(matches!(r, LoadReply::Pending(_)));
    assert!(l.note_yield().is_none());
    assert!(l.note_yield().is_none());
    let job = match l.note_yield() {
        Some(job) => job,
        None => panic!("the third yield must close the batch"),
    };
    assert_eq!(job.keys, vec![1u128]);
}

#[test]
fn waiter_attaches_to_a_batch_already_fetching_its_key() {
    // A key that is already out being fetched is not fetched again: a new
    // load of it waits on the in-flight batch.
    let mut l = KeyedLoader::new(1, 100);
    let job = job_of(l.load(8));
    assert_eq!(job.keys, vec![8u128]);
    let r2 = l.load(8);
    let t2 = ticket_of(&r2);

    // no second dispatch pending anywhere
    for _ in 0..200 {
        assert!(l.note_yield().is_none());
    }

    let rows = vec![mk_question(80, 8)];
    let m = group_rows_by_key(&rows);
    let res = l.complete_dispatch(job.batch_id, Ok(&m));
    assert_eq!(res.len(), 2);
    assert_eq!(res[1].ticket, t2);
    match &res[1].outcome {
        Ok(v) => assert_eq!(v[0].id, 80),
        Err(_) => panic!("fetch succeeded"),
    }
}

#[test]
fn interleaved_batches_resolve_independently() {
    let mut l = KeyedLoader::new(2, 100);
    let ja = job_of({
        l.load(1);
        l.load(2)
    });
    let jb = job_of({
        l.load(3);
        l.load(4)
    });

    // complete the second batch first: out-of-order completion is fine
    let rows_b = vec![mk_question(30, 3)];
    let mb = group_rows_by_key(&rows_b);
    let res_b = l.complete_dispatch(jb.batch_id, Ok(&mb));
    assert_eq!(res_b.len(), 2);

    let rows_a = vec![mk_question(20, 2)];
    let ma = group_rows_by_key(&rows_a);
    let res_a = l.complete_dispatch(ja.batch_id, Ok(&ma));
    assert_eq!(res_a.len(), 2);

    match l.load(3) {
        LoadReply::Ready(v) => assert_eq!(v[0].id, 30),
        _ => panic!("key 3 was cached by its batch"),
    }
    match l.load(1) {
        LoadReply::Ready(v) => assert!(v.is_empty()),
        _ => panic!("key 1 was cached as empty by its batch"),
    }
}

#[test]
fn default_configuration_is_one_hundred_each() {
    let l = KeyedLoader::new_default();
    assert_eq!(DEFAULT_MAX_BATCH_SIZE, 100);
    assert_eq!(DEFAULT_YIELD_BUDGET, 100);
    // a fresh loader holds nothing: any key suspends
    let mut l = l;
    assert!(matches!(l.load(1), LoadReply::Pending(_)));
}

#[test]
fn error_then_retry_succeeds() {
    let mut l = KeyedLoader::new(1, 100);
    let job = job_of(l.load(9));
    let res = l.complete_dispatch(job.batch_id, Err(FetchError::Connection));
    assert!(matches!(res[0].outcome, Err(FetchError::Connection)));

    // the key was not cached, so a retry opens a fresh batch
    let job2 = job_of(l.load(9));
    let rows = vec![mk_question(90, 9)];
    let m = group_rows_by_key(&rows);
    let res2 = l.complete_dispatch(job2.batch_id, Ok(&m));
    match &res2[0].outcome {
        Ok(v) => assert_eq!(v[0].id, 90),
        Err(_) => panic!("retry after a failed batch must succeed"),
    }
}

#[test]
fn empty_value_map_resolves_all_keys_empty() {
    let mut l = KeyedLoader::new(2, 100);
    l.load(1);
    let job = job_of(l.load(2));
    let m = ValueMap::new();
    let res = l.complete_dispatch(job.batch_id, Ok(&m));
    for r in &res {
        match &r.outcome {
            Ok(v) => assert!(v.is_empty()),
            Err(_) => panic!("an empty result set is not an error"),
        }
    }
}
