//! A counter as batched state.
//!
//! A batch of reads and increments is consumed in one go: every read is
//! answered with the count as the batch found it, every increment contributes
//! one, and the contributions are added to the count once, at the end.  The
//! count wraps round at the ends of `i32`.

use crate::batcher::{ops_of, resolutions_of, Batched, BatchedOp, Resolution, WrappedOp};
use crate::utils::{
    associative, computes, fold, law_pairing_gives_the_fold, pairs_up, parallel_reduce,
    projects_to, reduces_to,
};
use vstd::prelude::*;
use vstd::wrapping::i32_specs::wrapping_add;

verus! {

/// A count.
#[derive(Debug)]
pub struct Counter {
    value: i32,
}

/// What can be asked of a counter.
#[derive(Debug, Clone, Copy, PartialEq, Eq)]
pub enum CounterOp {
    /// Read the count.
    Get,
    /// Add one to the count.
    Incr,
}

impl BatchedOp for CounterOp {
    /// A read is answered with the count; an increment with nothing.
    type Res = Option<i32>;
}

/// What an operation contributes to the count.
pub open spec fn delta(op: CounterOp) -> i32 {
    match op {
        CounterOp::Get => 0,
        CounterOp::Incr => 1,
    }
}

/// How many of `ops` are increments.
pub open spec fn increments(ops: Seq<CounterOp>) -> nat
    decreases ops.len(),
{
    if ops.len() == 0 {
        0
    } else {
        increments(ops.drop_last()) + if ops.last() is Incr {
            1nat
        } else {
            0nat
        }
    }
}

/// `value` after `n` increments, each wrapping round.
pub open spec fn bumped(value: i32, n: nat) -> i32
    decreases n,
{
    if n == 0 {
        value
    } else {
        wrapping_add(bumped(value, (n - 1) as nat), 1)
    }
}

/// The count after one batch after the other, starting from `start`.
pub open spec fn after_each(start: i32, batches: Seq<Seq<CounterOp>>) -> i32
    decreases batches.len(),
{
    if batches.len() == 0 {
        start
    } else {
        Counter::after(after_each(start, batches.drop_last()), batches.last())
    }
}

/// How many increments `batches` hold between them.
pub open spec fn increments_in_all(batches: Seq<Seq<CounterOp>>) -> nat
    decreases batches.len(),
{
    if batches.len() == 0 {
        0
    } else {
        increments_in_all(batches.drop_last()) + increments(batches.last())
    }
}

impl Counter {
    /// A counter that shows `value`.
    pub fn starting_at(value: i32) -> (c: Counter)
        ensures
            c.model() == value,
    {
        Counter { value }
    }

    /// The count.
    pub fn value(&self) -> (v: i32)
        ensures
            v == self.model(),
    {
        self.value
    }
}

/// Addition of contributions, wrapping round at the ends of `i32`.
pub open spec fn wrapping_sum() -> spec_fn(i32, i32) -> i32 {
    |a: i32, b: i32| wrapping_add(a, b)
}

proof fn lemma_wrapping_sum_associative()
    ensures
        associative(wrapping_sum()),
{
    let g = wrapping_sum();
    assert forall|a: i32, b: i32, c: i32| #[trigger] g(g(a, b), c) == g(a, g(b, c)) by {}
}

proof fn lemma_bumped_by_contributions(value: i32, ops: Seq<CounterOp>, parts: Seq<i32>)
    requires
        parts.len() == ops.len(),
        ops.len() > 0,
        forall|i: int| 0 <= i < ops.len() ==> #[trigger] parts[i] == delta(ops[i]),
    ensures
        wrapping_add(value, fold(wrapping_sum(), parts)) == bumped(
            value,
            increments(ops),
        ),
    decreases ops.len(),
{
    let g = wrapping_sum();
    if ops.len() == 1 {
        assert(ops.drop_last().len() == 0);
        assert(increments(ops.drop_last()) == 0);
        assert(parts[0] == delta(ops[0]));
        assert(bumped(value, 1) == wrapping_add(bumped(value, 0), 1));
    } else {
        lemma_bumped_by_contributions(value, ops.drop_last(), parts.drop_last());
        let sofar = fold(g, parts.drop_last());
        assert(fold(g, parts) == wrapping_add(sofar, parts.last()));
        assert(parts.last() == delta(ops.last()));
        assert(wrapping_add(value, wrapping_add(sofar, parts.last())) == wrapping_add(
            wrapping_add(value, sofar),
            parts.last(),
        ));
    }
}

impl Batched for Counter {
    type Op = CounterOp;

    /// A counter stands for its count.
    type Model = i32;

    closed spec fn model(&self) -> i32 {
        self.value
    }

    /// A new counter shows zero.
    open spec fn initial() -> i32 {
        0
    }

    /// A read sees the count as the batch found it, whatever else the batch
    /// holds; an increment is told nothing.
    open spec fn answer(snapshot: i32, op: CounterOp) -> Option<i32> {
        match op {
            CounterOp::Get => Some(snapshot),
            CounterOp::Incr => None,
        }
    }

    /// A batch leaves the count higher by the number of its increments.
    open spec fn after(snapshot: i32, ops: Seq<CounterOp>) -> i32 {
        bumped(snapshot, increments(ops))
    }

    fn init() -> (s: Counter) {
        Counter { value: 0 }
    }

    fn run_batch<C>(&mut self, ops: Vec<WrappedOp<CounterOp, C>>) -> (out: Vec<
        Resolution<CounterOp, C>,
    >) {
        let seen = self.value;
        let ghost batch = ops@;
        let project = |op: CounterOp| -> (r: (Option<i32>, i32))
            ensures
                r.0 == Counter::answer(seen, op),
                r.1 == delta(op),
            {
                match op {
                    CounterOp::Get => (Some(seen), 0i32),
                    CounterOp::Incr => (None, 1i32),
                }
            };
        let combine = |l: i32, r: i32| -> (s: i32)
            ensures
                s == wrapping_add(l, r),
            { l.wrapping_add(r) };
        let (total, out) = parallel_reduce(ops, combine, project);
        proof {
            let g = wrapping_sum();
            assert(reduces_to(combine, project, batch, (total, out@)));
            let parts = choose|parts: Seq<i32>|
                {
                    &&& #[trigger] projects_to(project, batch, out@, parts)
                    &&& total is Some ==> pairs_up(combine, parts, total.unwrap())
                };
            assert(ops_of(batch).len() == batch.len());
            assert forall|i: int| 0 <= i < batch.len() implies #[trigger] parts[i] == delta(
                ops_of(batch)[i],
            ) by {
                assert(out@[i].callback == batch[i].1);
            }
            assert forall|i: int| 0 <= i < batch.len() implies #[trigger] out@[i] == (Resolution::<
                CounterOp,
                C,
            > { callback: batch[i].1, result: Counter::answer(seen, batch[i].0) }) by {
                assert(out@[i].callback == batch[i].1);
            }
            if total is Some {
                assert(computes(combine, g));
                lemma_wrapping_sum_associative();
                law_pairing_gives_the_fold(combine, g, parts, total.unwrap());
                lemma_bumped_by_contributions(seen, ops_of(batch), parts);
            } else {
                assert(increments(ops_of(batch)) == 0);
            }
        }
        match total {
            Some(sum) => {
                self.value = seen.wrapping_add(sum);
            },
            None => {},
        }
        out
    }
}

/// Reads are consistent within a batch: every read of a batch is answered with
/// the count that the batch found, however many increments the same batch
/// holds and wherever they stand in it.
pub proof fn law_reads_see_the_snapshot<C>(
    snapshot: i32,
    batch: Seq<WrappedOp<CounterOp, C>>,
    i: int,
)
    requires
        0 <= i < batch.len(),
        batch[i].0 is Get,
    ensures
        resolutions_of::<Counter, C>(snapshot, batch)[i].result == Some(snapshot),
{
}

/// At the upper end of `i32` the count goes on from the lower end.
pub proof fn law_count_wraps_round()
    ensures
        Counter::after(i32::MAX, seq![CounterOp::Incr]) == i32::MIN,
{
    let ops = seq![CounterOp::Incr];
    assert(ops.drop_last().len() == 0);
    assert(increments(ops.drop_last()) == 0);
    assert(increments(ops) == 1);
    assert(bumped(i32::MAX, 1) == wrapping_add(bumped(i32::MAX, 0), 1));
}

/// Increments count the same in any order: two runs of operations hold as
/// many increments one way round as the other.
pub proof fn law_increments_in_any_order(a: Seq<CounterOp>, b: Seq<CounterOp>)
    ensures
        increments(a + b) == increments(a) + increments(b),
        increments(a + b) == increments(b + a),
{
    lemma_increments_add(a, b);
    lemma_increments_add(b, a);
}

proof fn lemma_increments_add(a: Seq<CounterOp>, b: Seq<CounterOp>)
    ensures
        increments(a + b) == increments(a) + increments(b),
    decreases b.len(),
{
    if b.len() == 0 {
        assert(a + b =~= a);
    } else {
        lemma_increments_add(a, b.drop_last());
        assert((a + b).drop_last() =~= a + b.drop_last());
        assert((a + b).last() == b.last());
    }
}

/// A batch adds its increments to the count: where the sum fits an `i32` the
/// new count is the old one plus the number of increments in the batch, in
/// whatever order the batch holds them.
pub proof fn law_batch_adds_its_increments(snapshot: i32, ops: Seq<CounterOp>)
    requires
        snapshot + increments(ops) <= i32::MAX,
    ensures
        Counter::after(snapshot, ops) == snapshot + increments(ops),
{
    lemma_bumped_adds(snapshot, increments(ops));
}

/// Where the batch boundaries fall does not matter: after any run of batches
/// that hold `k` increments between them, a read finds the count that was
/// there before plus `k`, as long as that fits an `i32`.
pub proof fn law_read_after_increments(start: i32, batches: Seq<Seq<CounterOp>>)
    requires
        start + increments_in_all(batches) <= i32::MAX,
    ensures
        after_each(start, batches) == start + increments_in_all(batches),
        Counter::answer(after_each(start, batches), CounterOp::Get) == Some(
            (start + increments_in_all(batches)) as i32,
        ),
    decreases batches.len(),
{
    if batches.len() > 0 {
        law_read_after_increments(start, batches.drop_last());
        law_batch_adds_its_increments(after_each(start, batches.drop_last()), batches.last());
    }
}

proof fn lemma_bumped_adds(value: i32, n: nat)
    requires
        value + n <= i32::MAX,
    ensures
        bumped(value, n) == value + n,
    decreases n,
{
    if n > 0 {
        lemma_bumped_adds(value, (n - 1) as nat);
    }
}

} // verus!
