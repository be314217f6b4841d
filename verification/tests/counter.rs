use batcher::batcher::{Batched, Batcher, Resolution, WrappedOp};
use batcher::counter::{Counter, CounterOp};

fn results(resolutions: Vec<Resolution<CounterOp, usize>>) -> Vec<(usize, Option<i32>)> {
    resolutions.into_iter().map(|r| (r.callback, r.result)).collect()
}

#[test]
fn initial_counter_shows_zero() {
    let counter = Counter::init();
    assert_eq!(counter.value(), 0);
}

#[test]
fn reads_of_a_batch_see_the_count_before_the_batch() {
    let mut counter = Counter::init();
    let batch = vec![
        WrappedOp(CounterOp::Incr, 0usize),
        WrappedOp(CounterOp::Get, 1),
        WrappedOp(CounterOp::Incr, 2),
        WrappedOp(CounterOp::Incr, 3),
        WrappedOp(CounterOp::Get, 4),
    ];
    let out = counter.run_batch(batch);
    assert_eq!(
        results(out),
        vec![(0, None), (1, Some(0)), (2, None), (3, None), (4, Some(0))]
    );
    assert_eq!(counter.value(), 3);

    let batch = vec![
        WrappedOp(CounterOp::Get, 5usize),
        WrappedOp(CounterOp::Incr, 6),
        WrappedOp(CounterOp::Get, 7),
    ];
    let out = counter.run_batch(batch);
    assert_eq!(results(out), vec![(5, Some(3)), (6, None), (7, Some(3))]);
    assert_eq!(counter.value(), 4);
}

#[test]
fn empty_batch_changes_nothing() {
    let mut counter = Counter::init();
    let out = counter.run_batch(Vec::<WrappedOp<CounterOp, usize>>::new());
    assert!(out.is_empty());
    assert_eq!(counter.value(), 0);
}

#[test]
fn batch_of_reads_changes_nothing() {
    let mut counter = Counter::init();
    counter.run_batch(vec![WrappedOp(CounterOp::Incr, 0usize)]);
    let out = counter.run_batch(vec![WrappedOp(CounterOp::Get, 1usize), WrappedOp(CounterOp::Get, 2)]);
    assert_eq!(results(out), vec![(1, Some(1)), (2, Some(1))]);
    assert_eq!(counter.value(), 1);
}

#[test]
fn increments_then_read_give_prior_count_plus_their_number() {
    for k in [0usize, 1, 2, 7, 64, 1000] {
        let mut counter: Batcher<Counter, usize> = Batcher::new();
        for i in 0..5 {
            counter.apply(CounterOp::Incr, i);
        }
        let prior = counter.apply(CounterOp::Get, 0).pop().unwrap().result.unwrap();
        assert_eq!(prior, 5);
        for i in 0..k {
            counter.apply(CounterOp::Incr, i);
        }
        let read = counter.apply(CounterOp::Get, 0);
        assert_eq!(results(read), vec![(0, Some(prior + k as i32))]);
    }
}

#[test]
fn batch_boundaries_do_not_change_the_final_count() {
    for width in [1usize, 2, 3, 10, 50, 333, 1000] {
        let mut counter = Counter::init();
        let mut tag = 0usize;
        let mut left = 640usize;
        while left > 0 {
            let n = width.min(left);
            let mut batch = Vec::new();
            for _ in 0..n {
                batch.push(WrappedOp(CounterOp::Incr, tag));
                tag += 1;
            }
            let out = counter.run_batch(batch);
            assert_eq!(out.len(), n);
            left -= n;
        }
        assert_eq!(counter.value(), 640);
    }
}

#[test]
fn count_wraps_round_at_the_end_of_i32() {
    let mut counter = Counter::starting_at(i32::MAX - 1);
    let out = counter.run_batch(vec![
        WrappedOp(CounterOp::Incr, 0usize),
        WrappedOp(CounterOp::Get, 1),
        WrappedOp(CounterOp::Incr, 2),
        WrappedOp(CounterOp::Incr, 3),
    ]);
    assert_eq!(
        results(out),
        vec![(0, None), (1, Some(i32::MAX - 1)), (2, None), (3, None)]
    );
    assert_eq!(counter.value(), i32::MIN + 1);
}

#[test]
fn counter_starts_where_it_is_told() {
    let mut counter = Counter::starting_at(-7);
    assert_eq!(counter.value(), -7);
    let out = counter.run_batch(vec![WrappedOp(CounterOp::Incr, 0usize), WrappedOp(CounterOp::Get, 1)]);
    assert_eq!(results(out), vec![(0, None), (1, Some(-7))]);
    assert_eq!(counter.value(), -6);
}

// Zero-initialised counter, 999 submissions of which every tenth is a read:
// the submissions arrive while batches are out, so that batches of many sizes
// form; every read sees at most the final count, and the final count is the
// number of increments.
#[test]
fn test_counter() {
    let mut counter: Batcher<Counter, i32> = Batcher::new();
    let mut flying = None;
    let mut gets: Vec<(i32, Option<i32>)> = Vec::new();
    let mut resolved = vec![0usize; 1000];
    let mut seed = 12345u64;

    for i in 1..1000 {
        let op = if i % 10 == 0 { CounterOp::Get } else { CounterOp::Incr };
        if let Some(batch) = counter.submit(op, i) {
            assert!(flying.is_none());
            flying = Some(batch);
        }
        seed = seed.wrapping_mul(6364136223846793005).wrapping_add(1);
        // now and then the batch that is out comes back
        if (seed >> 33) % 4 == 0 {
            while let Some(batch) = flying.take() {
                let (done, out) = batch.run();
                for Resolution { callback, result } in out {
                    resolved[callback as usize] += 1;
                    if callback % 10 == 0 {
                        gets.push((callback, result));
                    } else {
                        assert_eq!(result, None);
                    }
                }
                flying = counter.finish(done).ok().unwrap();
                if (seed >> 40) % 2 == 0 {
                    break;
                }
            }
        }
    }
    while let Some(batch) = flying.take() {
        let (done, out) = batch.run();
        for Resolution { callback, result } in out {
            resolved[callback as usize] += 1;
            if callback % 10 == 0 {
                gets.push((callback, result));
            } else {
                assert_eq!(result, None);
            }
        }
        flying = counter.finish(done).ok().unwrap();
    }
    assert!(!counter.is_running());
    assert_eq!(counter.pending(), 0);

    let last = counter.apply(CounterOp::Get, 0);
    let final_count = last[0].result.unwrap();
    println!("final counter value: {:?}", final_count);
    assert_eq!(final_count, 900);
    assert_eq!(gets.len(), 99);
    for (i, seen) in gets {
        println!("[task {}]: result of getting counter was {:?}", i, seen);
        assert!(seen.unwrap() <= final_count);
    }
    for i in 1..1000 {
        assert_eq!(resolved[i], 1);
    }
}
