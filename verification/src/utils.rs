//! Reducing a batch.
//!
//! Inside a batch every operation is projected on its own: the projection
//! yields the result owed to the operation's callback and a partial
//! contribution to what the batch does to the state.  The contributions are
//! then combined two by two, halves first, the way workers splitting the batch
//! between them would combine theirs.  For an associative combinator any other
//! pairing gives the same aggregate; that is proved here once and for all.

use crate::batcher::{BatchedOp, Resolution, WrappedOp};
use vstd::prelude::*;

verus! {

/// `resolutions` and `parts` are what `project` makes of `batch`: position by
/// position, the callback of the operation with a result, and a contribution,
/// that one call of `project` on that operation can return together.
pub open spec fn projects_to<Op: BatchedOp, C, P, FP: Fn(Op) -> (Op::Res, P)>(
    project: FP,
    batch: Seq<WrappedOp<Op, C>>,
    resolutions: Seq<Resolution<Op, C>>,
    parts: Seq<P>,
) -> bool {
    &&& resolutions.len() == batch.len()
    &&& parts.len() == batch.len()
    &&& forall|i: int|
        0 <= i < batch.len() ==> {
            &&& (#[trigger] resolutions[i]).callback == batch[i].1
            &&& call_ensures(project, (batch[i].0,), (resolutions[i].result, parts[i]))
        }
}

/// `total` is a value that `combine` can give for `parts` when they are paired
/// up by halves: a single part stands for itself, and a longer run is cut in
/// the middle, each half paired up in the same way, and the two halves
/// combined.
pub open spec fn pairs_up<P, FC: Fn(P, P) -> P>(combine: FC, parts: Seq<P>, total: P) -> bool
    decreases parts.len(),
{
    if parts.len() == 0 {
        false
    } else if parts.len() == 1 {
        total == parts[0]
    } else {
        let mid = (parts.len() / 2) as int;
        exists|left: P, right: P|
            {
                &&& pairs_up(combine, parts.subrange(0, mid), left)
                &&& pairs_up(combine, parts.subrange(mid, parts.len() as int), right)
                &&& #[trigger] call_ensures(combine, (left, right), total)
            }
    }
}

/// `out` is something that reducing `batch` can come to: one resolution for
/// each operation, as `project` makes them, and the aggregate of the
/// contributions that `project` gave along with them, paired up by halves;
/// no aggregate for a batch without operations.
pub open spec fn reduces_to<Op: BatchedOp, C, P, FC: Fn(P, P) -> P, FP: Fn(Op) -> (Op::Res, P)>(
    combine: FC,
    project: FP,
    batch: Seq<WrappedOp<Op, C>>,
    out: (Option<P>, Seq<Resolution<Op, C>>),
) -> bool {
    &&& out.0 is None <==> batch.len() == 0
    &&& exists|parts: Seq<P>|
        {
            &&& #[trigger] projects_to(project, batch, out.1, parts)
            &&& out.0 is Some ==> pairs_up(combine, parts, out.0.unwrap())
        }
}

/// The parts combined one after the other, from the left.
pub open spec fn fold<P>(g: spec_fn(P, P) -> P, parts: Seq<P>) -> P
    recommends
        parts.len() > 0,
    decreases parts.len(),
{
    if parts.len() <= 1 {
        parts[0]
    } else {
        g(fold(g, parts.drop_last()), parts.last())
    }
}

/// `g` is associative.
pub open spec fn associative<P>(g: spec_fn(P, P) -> P) -> bool {
    forall|a: P, b: P, c: P| #[trigger] g(g(a, b), c) == g(a, g(b, c))
}

/// Whatever `combine` returns is what `g` says.
pub open spec fn computes<P, FC: Fn(P, P) -> P>(combine: FC, g: spec_fn(P, P) -> P) -> bool {
    forall|a: P, b: P, r: P| call_ensures(combine, (a, b), r) ==> r == g(a, b)
}

/// Reduces a batch that holds at least one operation, and says which
/// contributions the aggregate was made of.
fn reduce_half<Op: BatchedOp, C, P, FC: Fn(P, P) -> P, FP: Fn(Op) -> (Op::Res, P)>(
    batch: Vec<WrappedOp<Op, C>>,
    combine: &FC,
    project: &FP,
) -> (out: (P, Vec<Resolution<Op, C>>, Ghost<Seq<P>>))
    requires
        batch@.len() > 0,
        forall|i: int| 0 <= i < batch@.len() ==> call_requires(*project, (#[trigger] batch@[i].0,)),
        forall|a: P, b: P| call_requires(*combine, (a, b)),
    ensures
        projects_to(*project, batch@, out.1@, out.2@),
        pairs_up(*combine, out.2@, out.0),
    decreases batch@.len(),
{
    let ghost whole = batch@;
    if batch.len() == 1 {
        let mut batch = batch;
        let wrapped = batch.pop().unwrap();
        let WrappedOp(op, callback) = wrapped;
        let (result, part) = project(op);
        let mut resolutions = Vec::new();
        resolutions.push(Resolution { callback, result });
        let parts: Ghost<Seq<P>> = Ghost(Seq::empty().push(part));
        (part, resolutions, parts)
    } else {
        let ghost mid = batch@.len() / 2;
        let (lower, upper) = halve(batch);
        let (left, mut resolutions, Ghost(left_parts)) = reduce_half(lower, combine, project);
        let (right, mut upper_resolutions, Ghost(right_parts)) = reduce_half(
            upper,
            combine,
            project,
        );
        let ghost lower_done = resolutions@;
        let ghost upper_done = upper_resolutions@;
        resolutions.append(&mut upper_resolutions);
        let total = combine(left, right);
        let parts: Ghost<Seq<P>> = Ghost(left_parts + right_parts);
        proof {
            let parts = parts@;
            assert(parts.subrange(0, mid as int) =~= left_parts);
            assert(parts.subrange(mid as int, parts.len() as int) =~= right_parts);
            assert forall|i: int| 0 <= i < whole.len() implies {
                &&& (#[trigger] resolutions@[i]).callback == whole[i].1
                &&& call_ensures(*project, (whole[i].0,), (resolutions@[i].result, parts[i]))
            } by {
                if i < mid {
                    assert(whole[i] == whole.subrange(0, mid as int)[i]);
                    assert(resolutions@[i] == lower_done[i]);
                } else {
                    assert(whole[i] == whole.subrange(mid as int, whole.len() as int)[i - mid]);
                    assert(resolutions@[i] == upper_done[i - mid]);
                }
            }
            assert(pairs_up(*combine, parts, total));
        }
        (total, resolutions, parts)
    }
}

/// Projects every operation of `batch` and combines the contributions.
///
/// Returns one resolution for each operation, in the order of the batch, each
/// holding that operation's own callback and the result that `project` gave
/// for it; and the aggregate of the contributions, paired up by halves, or
/// `None` for a batch without operations.
///
/// `project` runs once on each operation and sees nothing of the others;
/// `combine` has to take any two contributions.
pub fn parallel_reduce<Op: BatchedOp, C, P, FC: Fn(P, P) -> P, FP: Fn(Op) -> (Op::Res, P)>(
    batch: Vec<WrappedOp<Op, C>>,
    combine: FC,
    project: FP,
) -> (out: (Option<P>, Vec<Resolution<Op, C>>))
    requires
        forall|i: int| 0 <= i < batch@.len() ==> call_requires(project, (#[trigger] batch@[i].0,)),
        forall|a: P, b: P| call_requires(combine, (a, b)),
    ensures
        reduces_to(combine, project, batch@, (out.0, out.1@)),
{
    if batch.len() == 0 {
        let out = (None, Vec::new());
        proof {
            let nothing = Seq::<P>::empty();
            let told = (out.0, out.1@);
            assert(told.0 is None);
            assert(projects_to(project, batch@, told.1, nothing));
            assert(told.0 is Some ==> pairs_up(combine, nothing, told.0.unwrap()));
            assert(reduces_to(combine, project, batch@, told));
        }
        out
    } else {
        let (total, resolutions, Ghost(parts)) = reduce_half(batch, &combine, &project);
        let out = (Some(total), resolutions);
        proof {
            let told = (out.0, out.1@);
            assert(projects_to(project, batch@, told.1, parts));
            assert(told.0 is Some ==> pairs_up(combine, parts, told.0.unwrap()));
            assert(reduces_to(combine, project, batch@, told));
        }
        out
    }
}

/// Cuts a batch in the middle, where the pairing of [`parallel_reduce`] cuts
/// it: the lower half is the shorter one when the length is odd.
pub fn halve<T>(batch: Vec<T>) -> (halves: (Vec<T>, Vec<T>))
    ensures
        halves.0@ == batch@.subrange(0, (batch@.len() / 2) as int),
        halves.1@ == batch@.subrange((batch@.len() / 2) as int, batch@.len() as int),
{
    let mut lower = batch;
    let mid = lower.len() / 2;
    let upper = lower.split_off(mid);
    (lower, upper)
}

/// Joins what two halves of a batch have come to: the resolutions of the
/// lower half followed by those of the upper half, and the two aggregates
/// combined, lower first.  A half without operations has no aggregate and
/// leaves the other's as it is.
pub fn merge_halves<Op: BatchedOp, C, P, FC: Fn(P, P) -> P>(
    lower: (Option<P>, Vec<Resolution<Op, C>>),
    upper: (Option<P>, Vec<Resolution<Op, C>>),
    combine: FC,
) -> (out: (Option<P>, Vec<Resolution<Op, C>>))
    requires
        forall|a: P, b: P| call_requires(combine, (a, b)),
    ensures
        out.1@ == lower.1@ + upper.1@,
        match (lower.0, upper.0) {
            (Some(l), Some(u)) => out.0 is Some && call_ensures(combine, (l, u), out.0.unwrap()),
            (Some(l), None) => out.0 == Some(l),
            (None, Some(u)) => out.0 == Some(u),
            (None, None) => out.0 is None,
        },
{
    let (lower_total, mut resolutions) = lower;
    let (upper_total, mut upper_resolutions) = upper;
    resolutions.append(&mut upper_resolutions);
    let total = match (lower_total, upper_total) {
        (Some(l), Some(u)) => Some(combine(l, u)),
        (Some(l), None) => Some(l),
        (None, Some(u)) => Some(u),
        (None, None) => None,
    };
    (total, resolutions)
}

/// Halves may be reduced apart: where `lower` and `upper` are what
/// [`parallel_reduce`] can return for the two halves of a batch, as [`halve`]
/// cuts it, `merged`, joined from them as [`merge_halves`] joins, is what
/// [`parallel_reduce`] can return for the whole batch.
pub proof fn law_halves_make_the_whole<
    Op: BatchedOp,
    C,
    P,
    FC: Fn(P, P) -> P,
    FP: Fn(Op) -> (Op::Res, P),
>(
    batch: Seq<WrappedOp<Op, C>>,
    combine: FC,
    project: FP,
    lower: (Option<P>, Seq<Resolution<Op, C>>),
    upper: (Option<P>, Seq<Resolution<Op, C>>),
    merged: (Option<P>, Seq<Resolution<Op, C>>),
)
    requires
        reduces_to(combine, project, batch.subrange(0, (batch.len() / 2) as int), lower),
        reduces_to(
            combine,
            project,
            batch.subrange((batch.len() / 2) as int, batch.len() as int),
            upper,
        ),
        merged.1 == lower.1 + upper.1,
        match (lower.0, upper.0) {
            (Some(l), Some(u)) => merged.0 is Some && call_ensures(
                combine,
                (l, u),
                merged.0.unwrap(),
            ),
            (Some(l), None) => merged.0 == Some(l),
            (None, Some(u)) => merged.0 == Some(u),
            (None, None) => merged.0 is None,
        },
    ensures
        reduces_to(combine, project, batch, merged),
{
    let mid = (batch.len() / 2) as int;
    let low = batch.subrange(0, mid);
    let high = batch.subrange(mid, batch.len() as int);
    let low_parts = choose|parts: Seq<P>|
        {
            &&& #[trigger] projects_to(project, low, lower.1, parts)
            &&& lower.0 is Some ==> pairs_up(combine, parts, lower.0.unwrap())
        };
    let high_parts = choose|parts: Seq<P>|
        {
            &&& #[trigger] projects_to(project, high, upper.1, parts)
            &&& upper.0 is Some ==> pairs_up(combine, parts, upper.0.unwrap())
        };
    let parts = low_parts + high_parts;
    assert forall|i: int| 0 <= i < batch.len() implies {
        &&& (#[trigger] merged.1[i]).callback == batch[i].1
        &&& call_ensures(project, (batch[i].0,), (merged.1[i].result, parts[i]))
    } by {
        if i < mid {
            assert(batch[i] == low[i]);
            assert(merged.1[i] == lower.1[i]);
        } else {
            assert(batch[i] == high[i - mid]);
            assert(merged.1[i] == upper.1[i - mid]);
        }
    }
    assert(projects_to(project, batch, merged.1, parts));
    if batch.len() >= 2 {
        assert(parts.subrange(0, mid) =~= low_parts);
        assert(parts.subrange(mid, parts.len() as int) =~= high_parts);
        assert(pairs_up(combine, parts, merged.0.unwrap()));
    } else if batch.len() == 1 {
        assert(parts =~= high_parts);
    }
}

/// For an associative combinator the place of the cut does not matter:
/// combining what lies before any cut with what lies after it gives the same
/// as combining everything from the left.
pub proof fn law_any_cut_gives_the_fold<P>(g: spec_fn(P, P) -> P, parts: Seq<P>, cut: int)
    requires
        associative(g),
        0 < cut < parts.len(),
    ensures
        fold(g, parts) == g(
            fold(g, parts.subrange(0, cut)),
            fold(g, parts.subrange(cut, parts.len() as int)),
        ),
    decreases parts.len(),
{
    let before = parts.subrange(0, cut);
    let behind = parts.subrange(cut, parts.len() as int);
    if cut == parts.len() - 1 {
        assert(before =~= parts.drop_last());
        assert(behind.len() == 1);
        assert(behind[0] == parts.last());
    } else {
        let shorter = parts.drop_last();
        law_any_cut_gives_the_fold(g, shorter, cut);
        assert(shorter.subrange(0, cut) =~= before);
        assert(shorter.subrange(cut, shorter.len() as int) =~= behind.drop_last());
        assert(behind.last() == parts.last());
        assert(g(g(fold(g, before), fold(g, behind.drop_last())), parts.last()) == g(
            fold(g, before),
            g(fold(g, behind.drop_last()), parts.last()),
        ));
    }
}

/// Pairing up by halves gives the fold: where `combine` computes an
/// associative `g`, the aggregate of a batch is the contributions combined
/// from the left, and so, by the law above, combined along any other cut.
pub proof fn law_pairing_gives_the_fold<P, FC: Fn(P, P) -> P>(
    combine: FC,
    g: spec_fn(P, P) -> P,
    parts: Seq<P>,
    total: P,
)
    requires
        pairs_up(combine, parts, total),
        computes(combine, g),
        associative(g),
    ensures
        parts.len() > 0,
        total == fold(g, parts),
    decreases parts.len(),
{
    if parts.len() > 1 {
        let mid = (parts.len() / 2) as int;
        let lower = parts.subrange(0, mid);
        let upper = parts.subrange(mid, parts.len() as int);
        let (left, right): (P, P) = choose|left: P, right: P|
            {
                &&& pairs_up(combine, lower, left)
                &&& pairs_up(combine, upper, right)
                &&& #[trigger] call_ensures(combine, (left, right), total)
            };
        law_pairing_gives_the_fold(combine, g, lower, left);
        law_pairing_gives_the_fold(combine, g, upper, right);
        law_any_cut_gives_the_fold(g, parts, mid);
    }
}

} // verus!
