//! A one-shot completion slot.
//!
//! A producer resolves the slot once with a value; a consumer polls it and,
//! while the value is missing, leaves a wake token behind.  Both sides act on
//! the slot through a single transition each, so whoever guards the slot with
//! one lock gets "look for the value" and "register interest" as one atomic
//! step: a resolution can never slip between the two and leave a registered
//! token unwoken.
//!
//! Every poll that is told to wait leaves its token in the slot, also one
//! that comes after the value has been collected.
//!
//! The slot never wakes anybody itself.  `resolve` hands the registered token
//! back to its caller, who owes the wake-up.

use vstd::prelude::*;

verus! {

/// What a poll of the slot hands back.
#[derive(Debug, PartialEq, Eq)]
pub enum Poll<A> {
    Ready(A),
    Pending,
}

/// Why a resolution was turned down.
#[derive(Debug, Clone, Copy, PartialEq, Eq)]
pub enum ResolveError {
    /// The slot had been resolved before.
    AlreadyResolved,
    /// The consumer gave the slot up before any value arrived.
    Abandoned,
}

/// The life of a slot.
pub enum Slot<A, W> {
    /// No value yet, nobody waiting.
    Empty,
    /// No value yet; the token of the latest poller is kept for the wake-up.
    Waiting(W),
    /// The value has arrived and has not been collected.
    Filled(A),
    /// The value has arrived and is gone: collected, or given up by the
    /// consumer.  The token of the latest poller since then is kept, though
    /// no resolution will ever hand it out.
    Taken(Option<W>),
    /// The consumer walked away before a value arrived.
    Abandoned,
}

/// One thing that can happen to a slot.
pub enum Event<A, W> {
    Poll(W),
    Resolve(A),
    Abandon,
}

/// The slot after a poll with `token`, and what the poller is told: the
/// value, if one waits to be collected; else to wait, and then the slot keeps
/// `token` in place of any token left earlier.  Only a slot that its consumer
/// has given up keeps none.
pub open spec fn poll_step<A, W>(s: Slot<A, W>, token: W) -> (Slot<A, W>, Poll<A>) {
    match s {
        Slot::Empty => (Slot::Waiting(token), Poll::Pending),
        Slot::Waiting(_) => (Slot::Waiting(token), Poll::Pending),
        Slot::Filled(value) => (Slot::Taken(None), Poll::Ready(value)),
        Slot::Taken(_) => (Slot::Taken(Some(token)), Poll::Pending),
        Slot::Abandoned => (Slot::Abandoned, Poll::Pending),
    }
}

/// The slot after an attempt to resolve it with `value`, and what the resolver
/// is told: on success, the token it has to wake, if one was registered.
pub open spec fn resolve_step<A, W>(s: Slot<A, W>, value: A) -> (
    Slot<A, W>,
    Result<Option<W>, ResolveError>,
) {
    match s {
        Slot::Empty => (Slot::Filled(value), Ok(None)),
        Slot::Waiting(token) => (Slot::Filled(value), Ok(Some(token))),
        Slot::Filled(_) => (s, Err(ResolveError::AlreadyResolved)),
        Slot::Taken(_) => (s, Err(ResolveError::AlreadyResolved)),
        Slot::Abandoned => (s, Err(ResolveError::Abandoned)),
    }
}

/// The slot after its consumer has given it up: a value that waits is
/// dropped, and so is a token.
pub open spec fn abandon_step<A, W>(s: Slot<A, W>) -> Slot<A, W> {
    match s {
        Slot::Empty => Slot::Abandoned,
        Slot::Waiting(_) => Slot::Abandoned,
        Slot::Filled(_) => Slot::Taken(None),
        Slot::Taken(_) => Slot::Taken(None),
        Slot::Abandoned => Slot::Abandoned,
    }
}

/// The token that the slot keeps, if it keeps one.
pub open spec fn token_kept<A, W>(s: Slot<A, W>) -> Option<W> {
    match s {
        Slot::Waiting(token) => Some(token),
        Slot::Taken(token) => token,
        _ => None,
    }
}

/// The slot after `e`.
pub open spec fn step<A, W>(s: Slot<A, W>, e: Event<A, W>) -> Slot<A, W> {
    match e {
        Event::Poll(token) => poll_step(s, token).0,
        Event::Resolve(value) => resolve_step(s, value).0,
        Event::Abandon => abandon_step(s),
    }
}

/// `e` is a resolution that the slot accepts in state `s`.
pub open spec fn accepts<A, W>(s: Slot<A, W>, e: Event<A, W>) -> bool {
    match e {
        Event::Resolve(value) => resolve_step(s, value).1 is Ok,
        _ => false,
    }
}

/// `e` is a poll that collects a value in state `s`.
pub open spec fn delivers<A, W>(s: Slot<A, W>, e: Event<A, W>) -> bool {
    match e {
        Event::Poll(token) => poll_step(s, token).1 is Ready,
        _ => false,
    }
}

/// The slot after the events of `trace`, in order.
pub open spec fn replay<A, W>(s: Slot<A, W>, trace: Seq<Event<A, W>>) -> Slot<A, W>
    decreases trace.len(),
{
    if trace.len() == 0 {
        s
    } else {
        replay(step(s, trace.first()), trace.drop_first())
    }
}

/// How many resolutions of `trace` the slot accepts, starting from `s`.
pub open spec fn accepted<A, W>(s: Slot<A, W>, trace: Seq<Event<A, W>>) -> nat
    decreases trace.len(),
{
    if trace.len() == 0 {
        0
    } else {
        let rest = accepted(step(s, trace.first()), trace.drop_first());
        if accepts(s, trace.first()) {
            rest + 1
        } else {
            rest
        }
    }
}

/// How many polls of `trace` collect a value, starting from `s`.
pub open spec fn delivered<A, W>(s: Slot<A, W>, trace: Seq<Event<A, W>>) -> nat
    decreases trace.len(),
{
    if trace.len() == 0 {
        0
    } else {
        let rest = delivered(step(s, trace.first()), trace.drop_first());
        if delivers(s, trace.first()) {
            rest + 1
        } else {
            rest
        }
    }
}

/// A value has arrived in the slot at some point.
pub open spec fn resolved<A, W>(s: Slot<A, W>) -> bool {
    s is Filled || s is Taken
}

/// A one-shot slot for a value of type `A`, with wake tokens of type `W`.
pub struct Promise<A, W> {
    slot: Slot<A, W>,
}

impl<A, W> View for Promise<A, W> {
    type V = Slot<A, W>;

    closed spec fn view(&self) -> Slot<A, W> {
        self.slot
    }
}

impl<A, W> Promise<A, W> {
    /// A fresh slot: no value, nobody waiting.
    pub fn new() -> (p: Self)
        ensures
            p@ == Slot::<A, W>::Empty,
    {
        Promise { slot: Slot::Empty }
    }

    /// Looks for the value and, if there is none to collect, leaves `token`
    /// behind in place of any token left earlier: before the value has
    /// arrived, and also after it has been collected.  Both happen in this
    /// one step.
    pub fn poll(&mut self, token: W) -> (r: Poll<A>)
        ensures
            final(self)@ == poll_step(old(self)@, token).0,
            r == poll_step(old(self)@, token).1,
    {
        let mut prev = Slot::Taken(None);
        core::mem::swap(&mut self.slot, &mut prev);
        match prev {
            Slot::Empty => {
                self.slot = Slot::Waiting(token);
                Poll::Pending
            },
            Slot::Waiting(_) => {
                self.slot = Slot::Waiting(token);
                Poll::Pending
            },
            Slot::Filled(value) => Poll::Ready(value),
            Slot::Taken(_) => {
                self.slot = Slot::Taken(Some(token));
                Poll::Pending
            },
            Slot::Abandoned => {
                self.slot = Slot::Abandoned;
                Poll::Pending
            },
        }
    }

    /// Delivers `value`.  The first resolution of a live slot succeeds and
    /// returns the token that its caller must wake, if a poller left one; any
    /// other resolution is refused and leaves the slot as it was.
    pub fn resolve(&mut self, value: A) -> (r: Result<Option<W>, ResolveError>)
        ensures
            final(self)@ == resolve_step(old(self)@, value).0,
            r == resolve_step(old(self)@, value).1,
    {
        let mut prev = Slot::Taken(None);
        core::mem::swap(&mut self.slot, &mut prev);
        match prev {
            Slot::Empty => {
                self.slot = Slot::Filled(value);
                Ok(None)
            },
            Slot::Waiting(token) => {
                self.slot = Slot::Filled(value);
                Ok(Some(token))
            },
            Slot::Filled(kept) => {
                self.slot = Slot::Filled(kept);
                Err(ResolveError::AlreadyResolved)
            },
            Slot::Taken(kept) => {
                self.slot = Slot::Taken(kept);
                Err(ResolveError::AlreadyResolved)
            },
            Slot::Abandoned => {
                self.slot = Slot::Abandoned;
                Err(ResolveError::Abandoned)
            },
        }
    }

    /// The consumer gives the slot up: a value that has not arrived yet will
    /// be refused, one that waits uncollected is dropped, and so is the token
    /// that the slot keeps.
    pub fn abandon(&mut self)
        ensures
            final(self)@ == abandon_step(old(self)@),
    {
        let mut prev = Slot::Taken(None);
        core::mem::swap(&mut self.slot, &mut prev);
        match prev {
            Slot::Empty => {
                self.slot = Slot::Abandoned;
            },
            Slot::Waiting(_) => {
                self.slot = Slot::Abandoned;
            },
            Slot::Filled(_) => {},
            Slot::Taken(_) => {},
            Slot::Abandoned => {
                self.slot = Slot::Abandoned;
            },
        }
    }

    /// Whether a value has arrived, collected or not.
    pub fn is_resolved(&self) -> (b: bool)
        ensures
            b == resolved(self@),
    {
        match &self.slot {
            Slot::Filled(_) => true,
            Slot::Taken(_) => true,
            _ => false,
        }
    }
}

/// A slot is resolved at most once: of two resolutions in a row the second is
/// always refused, and a refused resolution changes nothing.
pub proof fn law_second_resolution_refused<A, W>(s: Slot<A, W>, first: A, second: A)
    ensures
        resolve_step(resolve_step(s, first).0, second).1 is Err,
        resolve_step(s, first).1 is Err ==> resolve_step(s, first).0 == s,
        resolve_step(s, first).1 is Ok ==> resolve_step(resolve_step(s, first).0, second).1 == Err::<
            Option<W>,
            ResolveError,
        >(ResolveError::AlreadyResolved),
{
}

/// No wake-up is lost: a poller that was told to wait on a live slot is the
/// one whose token the next resolution hands out for waking, and the poll that
/// follows collects exactly the resolved value.
pub proof fn law_no_lost_wakeup<A, W>(s: Slot<A, W>, token: W, value: A, again: W)
    requires
        s is Empty || s is Waiting,
    ensures
        poll_step(s, token).1 is Pending,
        resolve_step(poll_step(s, token).0, value).1 == Ok::<Option<W>, ResolveError>(Some(token)),
        poll_step(resolve_step(poll_step(s, token).0, value).0, again).1 == Poll::Ready(value),
{
}

/// A poll that is told to wait leaves its token: whenever a poll of a slot
/// that has not been given up returns `Pending`, the slot keeps the token of
/// that poll afterwards, before the value has arrived and after it has been
/// collected alike.  A poll that is not told to wait collects the value and
/// leaves no token.
pub proof fn law_pending_poll_keeps_its_token<A, W>(s: Slot<A, W>, token: W)
    ensures
        !(s is Abandoned) && poll_step(s, token).1 is Pending ==> token_kept(
            poll_step(s, token).0,
        ) == Some(token),
        poll_step(s, token).1 is Ready <==> s is Filled,
        s is Filled ==> poll_step(s, token).1 == Poll::Ready(s->Filled_0) && token_kept(
            poll_step(s, token).0,
        ) is None,
{
}

/// A token left after the value was collected changes nothing for the
/// producer: a resolution is refused as before, and the slot keeps the token.
pub proof fn law_late_token_is_never_handed_out<A, W>(s: Slot<A, W>, token: W, value: A)
    requires
        s is Taken,
    ensures
        resolve_step(poll_step(s, token).0, value).1 == Err::<Option<W>, ResolveError>(
            ResolveError::AlreadyResolved,
        ),
        token_kept(resolve_step(poll_step(s, token).0, value).0) == Some(token),
{
}

/// A value that arrives before anybody polls is found by the first poll.
pub proof fn law_value_before_poll<A, W>(value: A, token: W)
    ensures
        resolve_step(Slot::<A, W>::Empty, value).1 == Ok::<Option<W>, ResolveError>(None),
        poll_step(resolve_step(Slot::<A, W>::Empty, value).0, token).1 == Poll::Ready(value),
{
}

/// Whatever happens to a slot, in whatever order, it accepts at most one
/// resolution, and none once a value has arrived; and a slot in which a value
/// has arrived, at first or through an accepted resolution, stays so.
pub proof fn law_at_most_one_resolution<A, W>(s: Slot<A, W>, trace: Seq<Event<A, W>>)
    ensures
        accepted(s, trace) <= 1,
        resolved(s) ==> accepted(s, trace) == 0,
        resolved(s) || accepted(s, trace) == 1 ==> resolved(replay(s, trace)),
    decreases trace.len(),
{
    if trace.len() > 0 {
        law_at_most_one_resolution(step(s, trace.first()), trace.drop_first());
    }
}

/// Whatever happens to a slot, in whatever order, at most one poll collects a
/// value, and polls collect no more values than resolutions were accepted.
pub proof fn law_at_most_one_delivery<A, W>(s: Slot<A, W>, trace: Seq<Event<A, W>>)
    ensures
        delivered(s, trace) <= 1,
        s is Taken ==> delivered(s, trace) == 0,
        s is Empty || s is Waiting || s is Abandoned ==> delivered(s, trace) <= accepted(s, trace),
    decreases trace.len(),
{
    if trace.len() > 0 {
        law_at_most_one_delivery(step(s, trace.first()), trace.drop_first());
        law_at_most_one_resolution(step(s, trace.first()), trace.drop_first());
    }
}

} // verus!
