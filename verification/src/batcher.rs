//! The batching coordinator.
//!
//! Callers submit operations against one piece of state.  Whoever submits
//! while nothing runs receives the state together with everything queued so
//! far, as a [`Batch`]; whoever submits while a batch is out only joins the
//! queue.  A batch is run away from the coordinator, so the queue stays free
//! for further submissions, and the state comes back through
//! [`Batcher::finish`], which at once hands it out again if operations have
//! been queued meanwhile.
//!
//! The state is a value that is never copied: it rests in the coordinator or
//! travels in the one batch that is out.  Two batches can therefore never work
//! on it at the same time.
//!
//! A submission carries a callback of the submitter's choosing.  The
//! coordinator and the state never call it; running a batch pairs every
//! callback with the result of its operation, once, and whoever ran the batch
//! delivers them.

use vstd::prelude::*;

verus! {

/// An operation that can be batched: it names the type of its result.
pub trait BatchedOp {
    type Res;
}

/// An operation together with the callback that is owed its result.
pub struct WrappedOp<Op: BatchedOp, C>(pub Op, pub C);

/// A callback together with the result that it is owed.
pub struct Resolution<Op: BatchedOp, C> {
    pub callback: C,
    pub result: Op::Res,
}

/// The operations of a batch, without their callbacks.
pub open spec fn ops_of<Op: BatchedOp, C>(batch: Seq<WrappedOp<Op, C>>) -> Seq<Op> {
    Seq::new(batch.len(), |i: int| batch[i].0)
}

/// What running `batch` from `snapshot` owes to the callbacks: each one, in
/// the order of the batch, paired with the answer that its own operation gets
/// from the state as the batch found it.
pub open spec fn resolutions_of<S: Batched, C>(
    snapshot: S::Model,
    batch: Seq<WrappedOp<S::Op, C>>,
) -> Seq<Resolution<S::Op, C>> {
    Seq::new(
        batch.len(),
        |i: int| Resolution { callback: batch[i].1, result: S::answer(snapshot, batch[i].0) },
    )
}

/// A state that consumes operations batch by batch.
///
/// What the state does is said over its model: the value that it stands for,
/// whatever it is made of.  The four functions that say it are for an
/// implementation to define; nothing is known of one that leaves them as they
/// are.
pub trait Batched: Sized {
    type Op: BatchedOp;

    /// What the state stands for.
    type Model;

    /// What this state stands for.
    open spec fn model(&self) -> Self::Model {
        arbitrary()
    }

    /// What the state of a new coordinator stands for.
    open spec fn initial() -> Self::Model {
        arbitrary()
    }

    /// The result of `op` in a batch that found the state to be `snapshot`.
    /// It does not depend on the other operations of the batch.
    open spec fn answer(snapshot: Self::Model, op: Self::Op) -> <Self::Op as BatchedOp>::Res {
        arbitrary()
    }

    /// The state that a batch of `ops` leaves behind when it found `snapshot`.
    open spec fn after(snapshot: Self::Model, ops: Seq<Self::Op>) -> Self::Model {
        arbitrary()
    }

    fn init() -> (s: Self)
        ensures
            s.model() == Self::initial(),
    ;

    /// Consumes one batch: changes the state once, and pairs every callback
    /// with its operation's result.
    fn run_batch<C>(&mut self, ops: Vec<WrappedOp<Self::Op, C>>) -> (out: Vec<
        Resolution<Self::Op, C>,
    >)
        ensures
            out@.len() == ops@.len(),
            forall|i: int|
                0 <= i < ops@.len() ==> #[trigger] out@[i] == (Resolution::<Self::Op, C> {
                    callback: ops@[i].1,
                    result: Self::answer(old(self).model(), ops@[i].0),
                }),
            final(self).model() == Self::after(old(self).model(), ops_of(ops@)),
    ;
}

/// A coordinator as contracts see it: what the state stands for, unless a
/// batch has the state, and the submissions that wait for the next batch.
pub struct Coordinator<S, W> {
    pub state: Option<S>,
    pub queue: Seq<W>,
}

impl<S, W> Coordinator<S, W> {
    /// A batch is out.
    pub open spec fn running(self) -> bool {
        self.state is None
    }
}

/// The coordinator after `w` was submitted, and the batch that the submitter
/// has to run, if it found the coordinator idle.
pub open spec fn submit_step<S, W>(c: Coordinator<S, W>, w: W) -> (
    Coordinator<S, W>,
    Option<(S, Seq<W>)>,
) {
    match c.state {
        Some(s) => (
            Coordinator { state: None, queue: Seq::empty() },
            Some((s, c.queue.push(w))),
        ),
        None => (Coordinator { state: None, queue: c.queue.push(w) }, None),
    }
}

/// The coordinator after a batch came back with the state `s`, and what the
/// one who brought it is told: the next batch to run, or that nothing waits,
/// or, for a coordinator that had no batch out, the state again.
pub open spec fn finish_step<S, W>(c: Coordinator<S, W>, s: S) -> (
    Coordinator<S, W>,
    Result<Option<(S, Seq<W>)>, S>,
) {
    if c.state is Some {
        (c, Err(s))
    } else if c.queue.len() > 0 {
        (Coordinator { state: None, queue: Seq::empty() }, Ok(Some((s, c.queue))))
    } else {
        (Coordinator { state: Some(s), queue: Seq::empty() }, Ok(None))
    }
}

/// The state on its way out, with the operations that it is to consume.
pub struct Batch<S: Batched, C> {
    state: S,
    ops: Vec<WrappedOp<S::Op, C>>,
}

/// The state on its way back, after a batch.
pub struct Finished<S: Batched> {
    state: S,
}

/// The coordinator: the state while no batch has it, and the queue.
pub struct Batcher<S: Batched, C> {
    state: Option<S>,
    queue: Vec<WrappedOp<S::Op, C>>,
}

impl<S: Batched, C> View for Batch<S, C> {
    type V = (S::Model, Seq<WrappedOp<S::Op, C>>);

    closed spec fn view(&self) -> (S::Model, Seq<WrappedOp<S::Op, C>>) {
        (self.state.model(), self.ops@)
    }
}

impl<S: Batched> View for Finished<S> {
    type V = S::Model;

    closed spec fn view(&self) -> S::Model {
        self.state.model()
    }
}

impl<S: Batched, C> View for Batcher<S, C> {
    type V = Coordinator<S::Model, WrappedOp<S::Op, C>>;

    closed spec fn view(&self) -> Coordinator<S::Model, WrappedOp<S::Op, C>> {
        Coordinator {
            state: match self.state {
                Some(state) => Some(state.model()),
                None => None,
            },
            queue: self.queue@,
        }
    }
}

/// A batch, if there is one, as contracts see it.
pub open spec fn batch_view<S: Batched, C>(b: Option<Batch<S, C>>) -> Option<
    (S::Model, Seq<WrappedOp<S::Op, C>>),
> {
    match b {
        Some(batch) => Some(batch@),
        None => None,
    }
}

impl<S: Batched, C> Batch<S, C> {
    /// How many operations the batch holds.
    pub fn len(&self) -> (n: usize)
        ensures
            n == self@.1.len(),
    {
        self.ops.len()
    }

    /// Lets the state consume the batch.  Returns the state, ready to go back
    /// to its coordinator, and one resolution for each operation.
    pub fn run(self) -> (r: (Finished<S>, Vec<Resolution<S::Op, C>>))
        ensures
            r.0@ == S::after(self@.0, ops_of(self@.1)),
            r.1@ == resolutions_of::<S, C>(self@.0, self@.1),
    {
        let Batch { state, ops } = self;
        let mut state = state;
        let out = state.run_batch(ops);
        proof {
            assert(out@ =~= resolutions_of::<S, C>(self@.0, self@.1));
        }
        (Finished { state }, out)
    }
}

impl<S: Batched, C> Batcher<S, C> {
    /// A coordinator over the initial state, with nothing queued and nothing
    /// running.
    pub fn new() -> (b: Self)
        ensures
            b@ == (Coordinator::<S::Model, WrappedOp<S::Op, C>> {
                state: Some(S::initial()),
                queue: Seq::empty(),
            }),
    {
        Batcher { state: Some(S::init()), queue: Vec::new() }
    }

    /// Whether a batch is out.
    pub fn is_running(&self) -> (r: bool)
        ensures
            r == self@.running(),
    {
        self.state.is_none()
    }

    /// How many submissions wait for the next batch.
    pub fn pending(&self) -> (n: usize)
        ensures
            n == self@.queue.len(),
    {
        self.queue.len()
    }

    /// Queues `op`.  If no batch is out, the whole queue leaves at once as a
    /// batch that the caller has to run and bring back; otherwise the caller
    /// has nothing more to do.
    pub fn submit(&mut self, op: S::Op, callback: C) -> (r: Option<Batch<S, C>>)
        ensures
            final(self)@ == submit_step(old(self)@, WrappedOp(op, callback)).0,
            batch_view(r) == submit_step(old(self)@, WrappedOp(op, callback)).1,
    {
        self.queue.push(WrappedOp(op, callback));
        match self.state.take() {
            Some(state) => {
                let mut ops = Vec::new();
                core::mem::swap(&mut self.queue, &mut ops);
                Some(Batch { state, ops })
            },
            None => None,
        }
    }

    /// Takes the state back after a batch.  If submissions have been queued
    /// meanwhile they leave at once as the next batch, with the state as the
    /// last batch left it; if none have, the coordinator is idle again.  A
    /// coordinator that has no batch out refuses, and returns what it was
    /// given.
    pub fn finish(&mut self, done: Finished<S>) -> (r: Result<Option<Batch<S, C>>, Finished<S>>)
        ensures
            final(self)@ == finish_step(old(self)@, done@).0,
            match finish_step(old(self)@, done@).1 {
                Ok(next) => r is Ok && batch_view(r->Ok_0) == next,
                Err(s) => r is Err && r->Err_0@ == s,
            },
    {
        if self.state.is_some() {
            Err(done)
        } else if self.queue.len() > 0 {
            let mut ops = Vec::new();
            core::mem::swap(&mut self.queue, &mut ops);
            Ok(Some(Batch { state: done.state, ops }))
        } else {
            self.state = Some(done.state);
            proof {
                assert(self.queue@ =~= Seq::empty());
            }
            Ok(None)
        }
    }

    /// Submits `op` and, if that starts a batch, runs it and brings the state
    /// back.  On an idle coordinator this resolves the operation, together
    /// with anything that was queued before it, and leaves the coordinator
    /// idle; while a batch is out it only queues the operation.
    pub fn apply(&mut self, op: S::Op, callback: C) -> (out: Vec<Resolution<S::Op, C>>)
        ensures
            match old(self)@.state {
                Some(s) => {
                    &&& out@ == resolutions_of::<S, C>(s, old(self)@.queue.push(WrappedOp(op, callback)))
                    &&& final(self)@ == (Coordinator::<S::Model, WrappedOp<S::Op, C>> {
                        state: Some(
                            S::after(
                                s,
                                ops_of(old(self)@.queue.push(WrappedOp(op, callback))),
                            ),
                        ),
                        queue: Seq::empty(),
                    })
                },
                None => {
                    &&& out@.len() == 0
                    &&& final(self)@ == (Coordinator::<S::Model, WrappedOp<S::Op, C>> {
                        state: None,
                        queue: old(self)@.queue.push(WrappedOp(op, callback)),
                    })
                },
            },
    {
        match self.submit(op, callback) {
            Some(batch) => {
                let (done, out) = batch.run();
                let next = self.finish(done);
                out
            },
            None => Vec::new(),
        }
    }
}

/// Every operation of a batch is resolved once, with its own callback, and
/// what it is told depends on the state as the batch found it and on the
/// operation alone: not on its place in the batch, and not on what else the
/// batch holds.
pub proof fn law_siblings_do_not_matter<S: Batched, C>(
    snapshot: S::Model,
    one: Seq<WrappedOp<S::Op, C>>,
    other: Seq<WrappedOp<S::Op, C>>,
    i: int,
    j: int,
)
    requires
        0 <= i < one.len(),
        0 <= j < other.len(),
        one[i].0 == other[j].0,
    ensures
        resolutions_of::<S, C>(snapshot, one).len() == one.len(),
        resolutions_of::<S, C>(snapshot, one)[i].callback == one[i].1,
        resolutions_of::<S, C>(snapshot, one)[i].result == S::answer(snapshot, one[i].0),
        resolutions_of::<S, C>(snapshot, one)[i].result == resolutions_of::<S, C>(snapshot, other)[j].result,
{
}

/// One call on a coordinator: a submission, or a state brought back.
pub enum Move<S, W> {
    Submit(W),
    Finish(S),
}

/// The coordinator after `m`.
pub open spec fn advance<S, W>(c: Coordinator<S, W>, m: Move<S, W>) -> Coordinator<S, W> {
    match m {
        Move::Submit(w) => submit_step(c, w).0,
        Move::Finish(s) => finish_step(c, s).0,
    }
}

/// The batch that `m` sends out of the coordinator, if it sends one.
pub open spec fn started<S, W>(c: Coordinator<S, W>, m: Move<S, W>) -> Option<(S, Seq<W>)> {
    match m {
        Move::Submit(w) => submit_step(c, w).1,
        Move::Finish(s) => match finish_step(c, s).1 {
            Ok(next) => next,
            Err(_) => None,
        },
    }
}

/// `m` brings a state back to a coordinator that has a batch out.
pub open spec fn returns_state<S, W>(c: Coordinator<S, W>, m: Move<S, W>) -> bool {
    m is Finish && c.running()
}

/// The coordinator after the calls of `moves`, in order.
pub open spec fn advance_all<S, W>(c: Coordinator<S, W>, moves: Seq<Move<S, W>>) -> Coordinator<
    S,
    W,
>
    decreases moves.len(),
{
    if moves.len() == 0 {
        c
    } else {
        advance_all(advance(c, moves.first()), moves.drop_first())
    }
}

/// Everything that `moves` submit, in order.
pub open spec fn submitted<S, W>(moves: Seq<Move<S, W>>) -> Seq<W>
    decreases moves.len(),
{
    if moves.len() == 0 {
        Seq::empty()
    } else {
        match moves.first() {
            Move::Submit(w) => seq![w] + submitted(moves.drop_first()),
            Move::Finish(_) => submitted(moves.drop_first()),
        }
    }
}

/// Everything that leaves the coordinator in a batch during `moves`: the
/// batches one after the other, each in its own order.
pub open spec fn handed_out<S, W>(c: Coordinator<S, W>, moves: Seq<Move<S, W>>) -> Seq<W>
    decreases moves.len(),
{
    if moves.len() == 0 {
        Seq::empty()
    } else {
        let rest = handed_out(advance(c, moves.first()), moves.drop_first());
        match started(c, moves.first()) {
            Some(batch) => batch.1 + rest,
            None => rest,
        }
    }
}

/// How many batches leave the coordinator during `moves`.
pub open spec fn batches_started<S, W>(c: Coordinator<S, W>, moves: Seq<Move<S, W>>) -> nat
    decreases moves.len(),
{
    if moves.len() == 0 {
        0
    } else {
        let rest = batches_started(advance(c, moves.first()), moves.drop_first());
        if started(c, moves.first()) is Some {
            rest + 1
        } else {
            rest
        }
    }
}

/// How many times a state comes back from a batch during `moves`.
pub open spec fn batches_returned<S, W>(c: Coordinator<S, W>, moves: Seq<Move<S, W>>) -> nat
    decreases moves.len(),
{
    if moves.len() == 0 {
        0
    } else {
        let rest = batches_returned(advance(c, moves.first()), moves.drop_first());
        if returns_state(c, moves.first()) {
            rest + 1
        } else {
            rest
        }
    }
}

/// How many batches a coordinator has out: one while it runs, else none.
pub open spec fn in_flight<S, W>(c: Coordinator<S, W>) -> nat {
    if c.running() {
        1
    } else {
        0
    }
}

/// A coordinator that rests holds no submission back.
pub open spec fn settled<S, W>(c: Coordinator<S, W>) -> bool {
    !c.running() ==> c.queue.len() == 0
}

/// No batch is empty: whoever is handed a batch is handed at least one
/// operation.
pub proof fn law_batches_hold_work<S, W>(c: Coordinator<S, W>, m: Move<S, W>)
    ensures
        started(c, m) is Some ==> started(c, m).unwrap().1.len() > 0,
{
}

/// A batch leaves a coordinator only while none is out, and it takes the
/// state as the batch before it left it.
pub proof fn law_batch_needs_the_state<S, W>(c: Coordinator<S, W>, m: Move<S, W>)
    ensures
        c.running() && m is Submit ==> started(c, m) is None && advance(c, m).running(),
        started(c, m) is Some ==> advance(c, m).running(),
        started(c, m) is Some ==> match m {
            Move::Submit(_) => c.state == Some(started(c, m).unwrap().0),
            Move::Finish(s) => c.running() && started(c, m).unwrap().0 == s,
        },
{
}

/// At most one batch is out at any time, whatever the calls and their order:
/// the batches that left and the states that came back always differ by the
/// one batch that is out, if one is.
pub proof fn law_one_batch_at_a_time<S, W>(c: Coordinator<S, W>, moves: Seq<Move<S, W>>)
    ensures
        in_flight(c) + batches_started(c, moves) == batches_returned(c, moves) + in_flight(
            advance_all(c, moves),
        ),
        in_flight(advance_all(c, moves)) <= 1,
    decreases moves.len(),
{
    if moves.len() > 0 {
        law_one_batch_at_a_time(advance(c, moves.first()), moves.drop_first());
    }
}

/// A coordinator that rests has an empty queue, from its creation on.
pub proof fn law_rest_means_empty_queue<S, W>(c: Coordinator<S, W>, moves: Seq<Move<S, W>>)
    requires
        settled(c),
    ensures
        settled(advance_all(c, moves)),
    decreases moves.len(),
{
    if moves.len() > 0 {
        law_rest_means_empty_queue(advance(c, moves.first()), moves.drop_first());
    }
}

/// No submission is lost and none is served twice, wherever the batch
/// boundaries fall: what has left in batches, followed by what still waits,
/// is exactly what waited at first followed by what was submitted since.
pub proof fn law_no_lost_submission<S, W>(c: Coordinator<S, W>, moves: Seq<Move<S, W>>)
    ensures
        handed_out(c, moves) + advance_all(c, moves).queue == c.queue + submitted(moves),
        settled(c) && !advance_all(c, moves).running() ==> handed_out(c, moves) == c.queue
            + submitted(moves),
    decreases moves.len(),
{
    if moves.len() == 0 {
        assert(handed_out(c, moves) + c.queue =~= c.queue + submitted(moves));
    } else {
        let m = moves.first();
        let next = advance(c, m);
        let rest = moves.drop_first();
        law_no_lost_submission(next, rest);
        let left = match started(c, m) {
            Some(batch) => batch.1,
            None => Seq::empty(),
        };
        let came = match m {
            Move::Submit(w) => seq![w],
            Move::Finish(_) => Seq::empty(),
        };
        assert(left + next.queue =~= c.queue + came);
        assert(submitted(moves) == came + submitted(rest)) by {
            assert(Seq::<W>::empty() + submitted(rest) =~= submitted(rest));
        }
        assert(handed_out(c, moves) == left + handed_out(next, rest)) by {
            assert(Seq::<W>::empty() + handed_out(next, rest) =~= handed_out(next, rest));
        }
        assert(handed_out(c, moves) + advance_all(c, moves).queue =~= left + (handed_out(
            next,
            rest,
        ) + advance_all(next, rest).queue));
        assert(c.queue + submitted(moves) =~= (c.queue + came) + submitted(rest));
        assert(left + (next.queue + submitted(rest)) =~= (left + next.queue) + submitted(rest));
    }
    lemma_rest_if_settled(c, moves);
    if settled(c) && !advance_all(c, moves).running() {
        assert(handed_out(c, moves) + advance_all(c, moves).queue =~= handed_out(c, moves));
    }
}

proof fn lemma_rest_if_settled<S, W>(c: Coordinator<S, W>, moves: Seq<Move<S, W>>)
    ensures
        settled(c) ==> settled(advance_all(c, moves)),
{
    if settled(c) {
        law_rest_means_empty_queue(c, moves);
    }
}

/// A coordinator together with the batch that is out, if one is: the state
/// as that batch found it, and the operations the batch holds.
pub struct Engine<S: Batched, C> {
    pub coordinator: Coordinator<S::Model, WrappedOp<S::Op, C>>,
    pub flying: Option<(S::Model, Seq<WrappedOp<S::Op, C>>)>,
}

/// What can happen to an engine: an operation is submitted, or the batch that
/// is out is run to its end and the state brought back.
pub enum Happening<Op: BatchedOp, C> {
    Submit(WrappedOp<Op, C>),
    Complete,
}

impl<S: Batched, C> Engine<S, C> {
    /// A batch is out exactly while the coordinator counts one as out, and
    /// nothing waits while none is out.
    pub open spec fn consistent(self) -> bool {
        &&& self.flying is Some <==> self.coordinator.running()
        &&& settled(self.coordinator)
    }

    /// Nothing is out and nothing waits.
    pub open spec fn at_rest(self) -> bool {
        !self.coordinator.running() && self.flying is None && self.coordinator.queue.len() == 0
    }

    /// The operations that have been submitted and not resolved: those of the
    /// batch that is out, then those in the queue.
    pub open spec fn unresolved(self) -> Seq<WrappedOp<S::Op, C>> {
        match self.flying {
            Some(batch) => batch.1 + self.coordinator.queue,
            None => self.coordinator.queue,
        }
    }

    /// The engine after `h`.
    pub open spec fn after(self, h: Happening<S::Op, C>) -> Engine<S, C> {
        match h {
            Happening::Submit(w) => {
                let (coordinator, started) = submit_step(self.coordinator, w);
                Engine {
                    coordinator,
                    flying: if started is Some {
                        started
                    } else {
                        self.flying
                    },
                }
            },
            Happening::Complete => match self.flying {
                Some(batch) => {
                    let (coordinator, next) = finish_step(
                        self.coordinator,
                        S::after(batch.0, ops_of(batch.1)),
                    );
                    Engine {
                        coordinator,
                        flying: match next {
                            Ok(started) => started,
                            Err(_) => None,
                        },
                    }
                },
                None => self,
            },
        }
    }

    /// The resolutions that `h` brings: those of the batch that is out, when
    /// it is run to its end.
    pub open spec fn resolves(self, h: Happening<S::Op, C>) -> Seq<Resolution<S::Op, C>> {
        match (h, self.flying) {
            (Happening::Complete, Some(batch)) => resolutions_of::<S, C>(batch.0, batch.1),
            _ => Seq::empty(),
        }
    }

    /// The engine after `hs`, in order.
    pub open spec fn after_all(self, hs: Seq<Happening<S::Op, C>>) -> Engine<S, C>
        decreases hs.len(),
    {
        if hs.len() == 0 {
            self
        } else {
            self.after(hs.first()).after_all(hs.drop_first())
        }
    }

    /// All resolutions that `hs` bring, in order.
    pub open spec fn resolves_all(self, hs: Seq<Happening<S::Op, C>>) -> Seq<
        Resolution<S::Op, C>,
    >
        decreases hs.len(),
    {
        if hs.len() == 0 {
            Seq::empty()
        } else {
            self.resolves(hs.first()) + self.after(hs.first()).resolves_all(hs.drop_first())
        }
    }
}

/// The operations that `hs` submit, in order.
pub open spec fn submissions<Op: BatchedOp, C>(hs: Seq<Happening<Op, C>>) -> Seq<WrappedOp<Op, C>>
    decreases hs.len(),
{
    if hs.len() == 0 {
        Seq::empty()
    } else {
        match hs.first() {
            Happening::Submit(w) => seq![w] + submissions(hs.drop_first()),
            Happening::Complete => submissions(hs.drop_first()),
        }
    }
}

/// The callbacks that came with `batch`.
pub open spec fn callbacks_of<Op: BatchedOp, C>(batch: Seq<WrappedOp<Op, C>>) -> Seq<C> {
    Seq::new(batch.len(), |i: int| batch[i].1)
}

/// The callbacks that `resolutions` serve.
pub open spec fn callbacks_served<Op: BatchedOp, C>(resolutions: Seq<Resolution<Op, C>>) -> Seq<
    C,
> {
    Seq::new(resolutions.len(), |i: int| resolutions[i].callback)
}

/// Every callback is served exactly once: at any moment the callbacks served
/// so far, followed by those of the operations still unresolved, are the
/// callbacks that were unresolved at first followed by those submitted since,
/// one for one and in order, however submissions and batches interleave.  An
/// engine that started at rest and is at rest again has served exactly the
/// callbacks that were submitted.
pub proof fn law_every_callback_is_served_once<S: Batched, C>(
    e: Engine<S, C>,
    hs: Seq<Happening<S::Op, C>>,
)
    requires
        e.consistent(),
    ensures
        e.after_all(hs).consistent(),
        callbacks_served(e.resolves_all(hs)) + callbacks_of(e.after_all(hs).unresolved())
            == callbacks_of(e.unresolved()) + callbacks_of(submissions(hs)),
        e.at_rest() && e.after_all(hs).at_rest() ==> callbacks_served(e.resolves_all(hs))
            == callbacks_of(submissions(hs)),
    decreases hs.len(),
{
    let served = callbacks_served(e.resolves_all(hs));
    let open_after = callbacks_of(e.after_all(hs).unresolved());
    let open_before = callbacks_of(e.unresolved());
    let came = callbacks_of(submissions(hs));
    if hs.len() == 0 {
        assert(served + open_after =~= open_before + came);
    } else {
        let h = hs.first();
        let next = e.after(h);
        let rest = hs.drop_first();
        law_every_callback_is_served_once(next, rest);
        let now = callbacks_served(e.resolves(h));
        let new = match h {
            Happening::Submit(w) => seq![w.1],
            Happening::Complete => Seq::empty(),
        };
        assert(now + callbacks_of(next.unresolved()) =~= open_before + new);
        assert(came =~= new + callbacks_of(submissions(rest)));
        assert(served =~= now + callbacks_served(next.resolves_all(rest)));
        assert(served + open_after =~= now + (callbacks_served(next.resolves_all(rest))
            + open_after));
        assert(now + (callbacks_of(next.unresolved()) + callbacks_of(submissions(rest))) =~= (now
            + callbacks_of(next.unresolved())) + callbacks_of(submissions(rest)));
        assert((open_before + new) + callbacks_of(submissions(rest)) =~= open_before + came);
    }
    if e.at_rest() && e.after_all(hs).at_rest() {
        assert(served + open_after =~= served);
        assert(open_before + came =~= came);
    }
}

/// Whoever runs batches gets done: once submissions pause, bringing back the
/// batch that is out, and then the one that follows it, leaves the engine at
/// rest, with every operation resolved.
pub proof fn law_two_batches_drain_the_engine<S: Batched, C>(e: Engine<S, C>)
    requires
        e.consistent(),
    ensures
        e.after(Happening::Complete).after(Happening::Complete).at_rest(),
        e.after(Happening::Complete).after(Happening::Complete).unresolved().len() == 0,
{
}

/// What a callback is served is the answer of its own operation from the
/// state as its batch found it.
pub proof fn law_served_from_the_snapshot<S: Batched, C>(e: Engine<S, C>, i: int)
    requires
        e.flying is Some,
        0 <= i < e.flying.unwrap().1.len(),
    ensures
        e.resolves(Happening::Complete).len() == e.flying.unwrap().1.len(),
        e.resolves(Happening::Complete)[i].callback == e.flying.unwrap().1[i].1,
        e.resolves(Happening::Complete)[i].result == S::answer(
            e.flying.unwrap().0,
            e.flying.unwrap().1[i].0,
        ),
{
}

} // verus!
