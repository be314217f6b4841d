use batcher::batcher::{Batched, BatchedOp, Batcher, Resolution, WrappedOp};
use batcher::counter::{Counter, CounterOp};

// A state that records the batches it is given.
struct Journal {
    batches: Vec<Vec<u32>>,
}

struct Note(u32);

impl BatchedOp for Note {
    // how many batches had been consumed before the one that holds the note
    type Res = usize;
}

impl Batched for Journal {
    type Op = Note;
    type Model = ();

    fn init() -> Self {
        Journal { batches: Vec::new() }
    }

    fn run_batch<C>(&mut self, ops: Vec<WrappedOp<Note, C>>) -> Vec<Resolution<Note, C>> {
        let before = self.batches.len();
        let mut batch = Vec::new();
        let mut out = Vec::new();
        for WrappedOp(note, callback) in ops {
            batch.push(note.0);
            out.push(Resolution { callback, result: before });
        }
        self.batches.push(batch);
        out
    }
}

fn delivered(resolutions: Vec<Resolution<Note, char>>) -> Vec<(char, usize)> {
    resolutions.into_iter().map(|r| (r.callback, r.result)).collect()
}

#[test]
fn new_coordinator_is_idle_with_an_empty_queue() {
    let coordinator: Batcher<Journal, char> = Batcher::new();
    assert!(!coordinator.is_running());
    assert_eq!(coordinator.pending(), 0);
}

#[test]
fn submission_to_an_idle_coordinator_starts_a_batch() {
    let mut coordinator: Batcher<Journal, char> = Batcher::new();
    let batch = coordinator.submit(Note(1), 'a').unwrap();
    assert_eq!(batch.len(), 1);
    assert!(coordinator.is_running());
    assert_eq!(coordinator.pending(), 0);
}

#[test]
fn submissions_during_a_batch_only_queue() {
    let mut coordinator: Batcher<Journal, char> = Batcher::new();
    let first = coordinator.submit(Note(1), 'a').unwrap();
    assert!(coordinator.submit(Note(2), 'b').is_none());
    assert!(coordinator.submit(Note(3), 'c').is_none());
    assert!(coordinator.is_running());
    assert_eq!(coordinator.pending(), 2);
    assert_eq!(first.len(), 1);
}

#[test]
fn finished_batch_is_followed_at_once_by_what_was_queued() {
    let mut coordinator: Batcher<Journal, char> = Batcher::new();
    let first = coordinator.submit(Note(1), 'a').unwrap();
    assert!(coordinator.submit(Note(2), 'b').is_none());
    assert!(coordinator.submit(Note(3), 'c').is_none());

    let (done, out) = first.run();
    assert_eq!(delivered(out), vec![('a', 0)]);

    let second = coordinator.finish(done).ok().unwrap().unwrap();
    assert_eq!(second.len(), 2);
    assert!(coordinator.is_running());
    assert_eq!(coordinator.pending(), 0);

    // a submission after the batch was drawn joins the next one
    assert!(coordinator.submit(Note(4), 'd').is_none());
    assert_eq!(second.len(), 2);

    let (done, out) = second.run();
    assert_eq!(delivered(out), vec![('b', 1), ('c', 1)]);

    let third = coordinator.finish(done).ok().unwrap().unwrap();
    assert_eq!(third.len(), 1);
    let (done, out) = third.run();
    assert_eq!(delivered(out), vec![('d', 2)]);

    assert!(coordinator.finish(done).ok().unwrap().is_none());
    assert!(!coordinator.is_running());
    assert_eq!(coordinator.pending(), 0);
}

#[test]
fn idle_coordinator_refuses_a_state_it_did_not_hand_out() {
    let mut one: Batcher<Journal, char> = Batcher::new();
    let mut other: Batcher<Journal, char> = Batcher::new();
    let batch = one.submit(Note(1), 'a').unwrap();
    let (done, _) = batch.run();
    let refused = other.finish(done);
    assert!(refused.is_err());
    assert!(!other.is_running());
    assert_eq!(other.pending(), 0);
    // the state goes back where it came from
    let back = refused.err().unwrap();
    assert!(one.finish(back).ok().unwrap().is_none());
    assert!(!one.is_running());
}

#[test]
fn apply_on_an_idle_coordinator_resolves_the_operation() {
    let mut coordinator: Batcher<Journal, char> = Batcher::new();
    assert_eq!(delivered(coordinator.apply(Note(1), 'a')), vec![('a', 0)]);
    assert_eq!(delivered(coordinator.apply(Note(2), 'b')), vec![('b', 1)]);
    assert!(!coordinator.is_running());
    assert_eq!(coordinator.pending(), 0);
}

#[test]
fn apply_during_a_batch_only_queues() {
    let mut coordinator: Batcher<Journal, char> = Batcher::new();
    let first = coordinator.submit(Note(1), 'a').unwrap();
    assert!(coordinator.apply(Note(2), 'b').is_empty());
    assert!(coordinator.is_running());
    assert_eq!(coordinator.pending(), 1);
    let (done, _) = first.run();
    let second = coordinator.finish(done).ok().unwrap().unwrap();
    let (done, out) = second.run();
    assert_eq!(delivered(out), vec![('b', 1)]);
    assert!(coordinator.finish(done).ok().unwrap().is_none());
}

#[test]
fn every_submission_is_resolved_once_wherever_the_batches_end() {
    for stride in 1..12usize {
        let mut coordinator: Batcher<Counter, usize> = Batcher::new();
        let mut flying = None;
        let mut resolved = vec![0usize; 200];
        let mut started = 0usize;
        let mut returned = 0usize;
        for i in 0..200usize {
            if let Some(batch) = coordinator.submit(CounterOp::Incr, i) {
                assert!(flying.is_none());
                started += 1;
                flying = Some(batch);
            }
            assert!(started - returned <= 1);
            if i % stride == stride - 1 {
                let batch = flying.take().unwrap();
                assert!(batch.len() > 0);
                let (done, out) = batch.run();
                for r in out {
                    resolved[r.callback] += 1;
                }
                returned += 1;
                flying = coordinator.finish(done).ok().unwrap();
                if flying.is_some() {
                    started += 1;
                }
            }
        }
        while let Some(batch) = flying.take() {
            assert!(batch.len() > 0);
            let (done, out) = batch.run();
            for r in out {
                resolved[r.callback] += 1;
            }
            returned += 1;
            flying = coordinator.finish(done).ok().unwrap();
            if flying.is_some() {
                started += 1;
            }
        }
        assert_eq!(started, returned);
        assert!(!coordinator.is_running());
        assert_eq!(coordinator.pending(), 0);
        assert!(resolved.iter().all(|n| *n == 1));
        let read = coordinator.apply(CounterOp::Get, 0);
        assert_eq!(read[0].result, Some(200));
    }
}
