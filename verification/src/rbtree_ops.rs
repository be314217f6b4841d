//! The map as batched state.
//!
//! Insertions, reads and removals arrive in batches.  Every operation of a
//! batch is answered from the map as the batch found it: it is told what the
//! map held for its key at that moment, whatever else the batch does to that
//! key.  The batch then changes the map once: its insertions and removals are
//! gathered, in the order of the batch, and take effect in that order, so that
//! of two operations on one key the later one decides.
//!
//! The gathered edits are the partial contributions of the reduction.  Joining
//! two runs of edits end to end is associative and keeps the order of the
//! batch; it does not commute, and nothing here asks it to.

use crate::batcher::{ops_of, Batched, BatchedOp, Resolution, WrappedOp};
use crate::rbtree::{
    lemma_lawful_keys_are_strictly_ordered, lookup, strictly_ordered, RBTreeMap,
};
use crate::utils::{pairs_up, parallel_reduce, projects_to, reduces_to};
use vstd::prelude::*;

verus! {

/// What can be asked of a map.
#[derive(Debug)]
pub enum RBTreeMapOp<K, V> {
    Insert(K, V),
    Get(K),
    Remove(K),
}

impl<K, V> BatchedOp for RBTreeMapOp<K, V> {
    /// What the map held for the operation's key when the batch began.
    type Res = Option<V>;
}

/// A change to a map.
pub enum Edit<K, V> {
    Put(K, V),
    Drop(K),
}

/// A key type whose comparisons are proved to put its values in one line.
/// The integer types are such keys.  An implementation that Verus has not
/// seen proves nothing, and the map promises nothing for its keys.
pub trait OrderedKey: PartialOrd + Copy {
    proof fn keys_are_ordered()
        ensures
            strictly_ordered::<Self>(),
    ;
}

/// The key that `op` is about.
pub open spec fn key_of<K, V>(op: RBTreeMapOp<K, V>) -> K {
    match op {
        RBTreeMapOp::Insert(key, _) => key,
        RBTreeMapOp::Get(key) => key,
        RBTreeMapOp::Remove(key) => key,
    }
}

/// The map after `op` took effect.
pub open spec fn applied<K, V>(m: Map<K, V>, op: RBTreeMapOp<K, V>) -> Map<K, V> {
    match op {
        RBTreeMapOp::Insert(key, value) => m.insert(key, value),
        RBTreeMapOp::Get(_) => m,
        RBTreeMapOp::Remove(key) => m.remove(key),
    }
}

/// The map after `ops` took effect, one after the other.
pub open spec fn applied_all<K, V>(m: Map<K, V>, ops: Seq<RBTreeMapOp<K, V>>) -> Map<K, V>
    decreases ops.len(),
{
    if ops.len() == 0 {
        m
    } else {
        applied(applied_all(m, ops.drop_last()), ops.last())
    }
}

/// The edits that `op` asks for: one for an insertion or a removal, none
/// for a read.
pub open spec fn edits_of<K, V>(op: RBTreeMapOp<K, V>) -> Seq<Edit<K, V>> {
    match op {
        RBTreeMapOp::Insert(key, value) => seq![Edit::Put(key, value)],
        RBTreeMapOp::Get(_) => Seq::empty(),
        RBTreeMapOp::Remove(key) => seq![Edit::Drop(key)],
    }
}

/// The edits that `ops` ask for, in the order of `ops`.
pub open spec fn edits_of_all<K, V>(ops: Seq<RBTreeMapOp<K, V>>) -> Seq<Edit<K, V>>
    decreases ops.len(),
{
    if ops.len() == 0 {
        Seq::empty()
    } else {
        edits_of_all(ops.drop_last()) + edits_of(ops.last())
    }
}

/// The map after `edit`.
pub open spec fn edited<K, V>(m: Map<K, V>, edit: Edit<K, V>) -> Map<K, V> {
    match edit {
        Edit::Put(key, value) => m.insert(key, value),
        Edit::Drop(key) => m.remove(key),
    }
}

/// The map after `edits`, one after the other.
pub open spec fn edited_all<K, V>(m: Map<K, V>, edits: Seq<Edit<K, V>>) -> Map<K, V>
    decreases edits.len(),
{
    if edits.len() == 0 {
        m
    } else {
        edited(edited_all(m, edits.drop_last()), edits.last())
    }
}

/// Joins two runs of edits end to end.
pub fn join_edits<K, V>(first: Vec<Edit<K, V>>, second: Vec<Edit<K, V>>) -> (joined: Vec<
    Edit<K, V>,
>)
    ensures
        joined@ == first@ + second@,
{
    let mut joined = first;
    let mut second = second;
    joined.append(&mut second);
    joined
}

fn copied<V: Copy>(found: Option<&V>) -> (r: Option<V>)
    ensures
        r == match found {
            Some(value) => Some(*value),
            None => None,
        },
{
    match found {
        Some(value) => Some(*value),
        None => None,
    }
}

proof fn lemma_edits_of_all_joined<K, V>(a: Seq<RBTreeMapOp<K, V>>, b: Seq<RBTreeMapOp<K, V>>)
    ensures
        edits_of_all(a + b) == edits_of_all(a) + edits_of_all(b),
    decreases b.len(),
{
    if b.len() == 0 {
        assert(a + b =~= a);
        assert(edits_of_all(a) + edits_of_all(b) =~= edits_of_all(a));
    } else {
        lemma_edits_of_all_joined(a, b.drop_last());
        assert((a + b).drop_last() =~= a + b.drop_last());
        assert((a + b).last() == b.last());
        assert((edits_of_all(a) + edits_of_all(b.drop_last())) + edits_of(b.last())
            =~= edits_of_all(a) + (edits_of_all(b.drop_last()) + edits_of(b.last())));
    }
}

proof fn lemma_edited_all_joined<K, V>(m: Map<K, V>, a: Seq<Edit<K, V>>, b: Seq<Edit<K, V>>)
    ensures
        edited_all(m, a + b) == edited_all(edited_all(m, a), b),
    decreases b.len(),
{
    if b.len() == 0 {
        assert(a + b =~= a);
    } else {
        lemma_edited_all_joined(m, a, b.drop_last());
        assert((a + b).drop_last() =~= a + b.drop_last());
        assert((a + b).last() == b.last());
    }
}

/// Gathering the edits of a batch and carrying them out in order does to the
/// map what the operations of the batch do to it one after the other.
pub proof fn law_edits_carry_the_batch<K, V>(m: Map<K, V>, ops: Seq<RBTreeMapOp<K, V>>)
    ensures
        edited_all(m, edits_of_all(ops)) == applied_all(m, ops),
    decreases ops.len(),
{
    if ops.len() > 0 {
        law_edits_carry_the_batch(m, ops.drop_last());
        lemma_edited_all_joined(m, edits_of_all(ops.drop_last()), edits_of(ops.last()));
        let before = applied_all(m, ops.drop_last());
        let last = edits_of(ops.last());
        if last.len() == 1 {
            assert(last.drop_last().len() == 0);
            assert(edited_all(before, last) == edited(edited_all(before, last.drop_last()), last[0]));
        }
    }
}

proof fn lemma_joined_by_halves<K, V, FC: Fn(Vec<Edit<K, V>>, Vec<Edit<K, V>>) -> Vec<Edit<K, V>>>(
    join: FC,
    ops: Seq<RBTreeMapOp<K, V>>,
    parts: Seq<Vec<Edit<K, V>>>,
    total: Vec<Edit<K, V>>,
)
    requires
        parts.len() == ops.len(),
        forall|i: int| 0 <= i < ops.len() ==> (#[trigger] parts[i])@ == edits_of(ops[i]),
        forall|a: Vec<Edit<K, V>>, b: Vec<Edit<K, V>>, r: Vec<Edit<K, V>>|
            call_ensures(join, (a, b), r) ==> r@ == a@ + b@,
        pairs_up(join, parts, total),
    ensures
        total@ == edits_of_all(ops),
    decreases ops.len(),
{
    if parts.len() <= 1 {
        assert(parts.len() == 1);
        assert(total == parts[0]);
        assert(edits_of_all(ops.drop_last()) =~= Seq::<Edit<K, V>>::empty());
        assert(edits_of_all(ops) =~= edits_of(ops[0]));
    } else {
        let mid = (parts.len() / 2) as int;
        let low = parts.subrange(0, mid);
        let high = parts.subrange(mid, parts.len() as int);
        let (left, right): (Vec<Edit<K, V>>, Vec<Edit<K, V>>) = choose|
            left: Vec<Edit<K, V>>,
            right: Vec<Edit<K, V>>,
        |
            {
                &&& pairs_up(join, low, left)
                &&& pairs_up(join, high, right)
                &&& #[trigger] call_ensures(join, (left, right), total)
            };
        let low_ops = ops.subrange(0, mid);
        let high_ops = ops.subrange(mid, ops.len() as int);
        assert forall|i: int| 0 <= i < low_ops.len() implies (#[trigger] low[i])@ == edits_of(
            low_ops[i],
        ) by {
            assert(low[i] == parts[i]);
        }
        assert forall|i: int| 0 <= i < high_ops.len() implies (#[trigger] high[i])@ == edits_of(
            high_ops[i],
        ) by {
            assert(high[i] == parts[i + mid]);
        }
        lemma_joined_by_halves(join, low_ops, low, left);
        lemma_joined_by_halves(join, high_ops, high, right);
        lemma_edits_of_all_joined(low_ops, high_ops);
        assert(low_ops + high_ops =~= ops);
    }
}

impl<K: OrderedKey, V: Copy> RBTreeMap<K, V> {
    /// Carries out `edits` in order.
    fn carry_out(&mut self, edits: &Vec<Edit<K, V>>)
        ensures
            final(self)@ == edited_all(old(self)@, edits@),
    {
        proof {
            K::keys_are_ordered();
        }
        let ghost start = self@;
        let mut i: usize = 0;
        while i < edits.len()
            invariant
                strictly_ordered::<K>(),
                i <= edits.len(),
                self@ == edited_all(start, edits@.subrange(0, i as int)),
            decreases edits.len() - i,
        {
            proof {
                assert(edits@.subrange(0, i + 1).drop_last() =~= edits@.subrange(0, i as int));
            }
            match &edits[i] {
                Edit::Put(key, value) => {
                    self.insert(*key, *value);
                },
                Edit::Drop(key) => {
                    let _ = self.remove(key);
                },
            }
            i += 1;
        }
        proof {
            assert(edits@.subrange(0, i as int) =~= edits@);
        }
    }
}

impl<K: OrderedKey, V: Copy> Batched for RBTreeMap<K, V> {
    type Op = RBTreeMapOp<K, V>;

    /// The map stands for its keys and their values.
    type Model = Map<K, V>;

    open spec fn model(&self) -> Map<K, V> {
        self@
    }

    /// A new map is empty.
    open spec fn initial() -> Map<K, V> {
        Map::empty()
    }

    /// Every operation is told what the map held for its key when the batch
    /// began.
    open spec fn answer(snapshot: Map<K, V>, op: RBTreeMapOp<K, V>) -> Option<V> {
        lookup(snapshot, key_of(op))
    }

    /// The operations of a batch take effect in the order of the batch.
    open spec fn after(snapshot: Map<K, V>, ops: Seq<RBTreeMapOp<K, V>>) -> Map<K, V> {
        applied_all(snapshot, ops)
    }

    fn init() -> (s: Self) {
        RBTreeMap::new()
    }

    fn run_batch<C>(&mut self, ops: Vec<WrappedOp<RBTreeMapOp<K, V>, C>>) -> (out: Vec<
        Resolution<RBTreeMapOp<K, V>, C>,
    >) {
        proof {
            K::keys_are_ordered();
        }
        let ghost batch = ops@;
        let ghost found = self@;
        let snapshot: &RBTreeMap<K, V> = &*self;
        let project = |op: RBTreeMapOp<K, V>| -> (r: (Option<V>, Vec<Edit<K, V>>))
            ensures
                r.0 == lookup(snapshot@, key_of(op)),
                r.1@ == edits_of(op),
            {
                match op {
                    RBTreeMapOp::Insert(key, value) => {
                        let seen = copied(snapshot.get(&key));
                        let mut edits = Vec::new();
                        edits.push(Edit::Put(key, value));
                        (seen, edits)
                    },
                    RBTreeMapOp::Get(key) => (copied(snapshot.get(&key)), Vec::new()),
                    RBTreeMapOp::Remove(key) => {
                        let seen = copied(snapshot.get(&key));
                        let mut edits = Vec::new();
                        edits.push(Edit::Drop(key));
                        (seen, edits)
                    },
                }
            };
        let (total, out) = parallel_reduce(ops, join_edits::<K, V>, project);
        proof {
            assert(reduces_to(join_edits::<K, V>, project, batch, (total, out@)));
            let parts = choose|parts: Seq<Vec<Edit<K, V>>>|
                {
                    &&& #[trigger] projects_to(project, batch, out@, parts)
                    &&& total is Some ==> pairs_up(join_edits::<K, V>, parts, total.unwrap())
                };
            assert(ops_of(batch).len() == batch.len());
            assert forall|i: int| 0 <= i < batch.len() implies (#[trigger] parts[i])@ == edits_of(
                ops_of(batch)[i],
            ) by {
                assert(out@[i].callback == batch[i].1);
            }
            assert forall|i: int| 0 <= i < batch.len() implies #[trigger] out@[i] == (Resolution::<
                RBTreeMapOp<K, V>,
                C,
            > { callback: batch[i].1, result: lookup(found, key_of(batch[i].0)) }) by {
                assert(out@[i].callback == batch[i].1);
            }
            if total is Some {
                lemma_joined_by_halves(join_edits::<K, V>, ops_of(batch), parts, total.unwrap());
            }
            law_edits_carry_the_batch(found, ops_of(batch));
        }
        match total {
            Some(edits) => {
                self.carry_out(&edits);
            },
            None => {},
        }
        out
    }
}

impl OrderedKey for u8 {
    proof fn keys_are_ordered() {
        broadcast use vstd::laws_cmp::group_laws_cmp, vstd::laws_eq::group_laws_eq;

        lemma_lawful_keys_are_strictly_ordered::<u8>();
    }
}

impl OrderedKey for u16 {
    proof fn keys_are_ordered() {
        broadcast use vstd::laws_cmp::group_laws_cmp, vstd::laws_eq::group_laws_eq;

        lemma_lawful_keys_are_strictly_ordered::<u16>();
    }
}

impl OrderedKey for u32 {
    proof fn keys_are_ordered() {
        broadcast use vstd::laws_cmp::group_laws_cmp, vstd::laws_eq::group_laws_eq;

        lemma_lawful_keys_are_strictly_ordered::<u32>();
    }
}

impl OrderedKey for u64 {
    proof fn keys_are_ordered() {
        broadcast use vstd::laws_cmp::group_laws_cmp, vstd::laws_eq::group_laws_eq;

        lemma_lawful_keys_are_strictly_ordered::<u64>();
    }
}

impl OrderedKey for u128 {
    proof fn keys_are_ordered() {
        broadcast use vstd::laws_cmp::group_laws_cmp, vstd::laws_eq::group_laws_eq;

        lemma_lawful_keys_are_strictly_ordered::<u128>();
    }
}

impl OrderedKey for usize {
    proof fn keys_are_ordered() {
        broadcast use vstd::laws_cmp::group_laws_cmp, vstd::laws_eq::group_laws_eq;

        lemma_lawful_keys_are_strictly_ordered::<usize>();
    }
}

impl OrderedKey for i8 {
    proof fn keys_are_ordered() {
        broadcast use vstd::laws_cmp::group_laws_cmp, vstd::laws_eq::group_laws_eq;

        lemma_lawful_keys_are_strictly_ordered::<i8>();
    }
}

impl OrderedKey for i16 {
    proof fn keys_are_ordered() {
        broadcast use vstd::laws_cmp::group_laws_cmp, vstd::laws_eq::group_laws_eq;

        lemma_lawful_keys_are_strictly_ordered::<i16>();
    }
}

impl OrderedKey for i32 {
    proof fn keys_are_ordered() {
        broadcast use vstd::laws_cmp::group_laws_cmp, vstd::laws_eq::group_laws_eq;

        lemma_lawful_keys_are_strictly_ordered::<i32>();
    }
}

impl OrderedKey for i64 {
    proof fn keys_are_ordered() {
        broadcast use vstd::laws_cmp::group_laws_cmp, vstd::laws_eq::group_laws_eq;

        lemma_lawful_keys_are_strictly_ordered::<i64>();
    }
}

impl OrderedKey for i128 {
    proof fn keys_are_ordered() {
        broadcast use vstd::laws_cmp::group_laws_cmp, vstd::laws_eq::group_laws_eq;

        lemma_lawful_keys_are_strictly_ordered::<i128>();
    }
}

impl OrderedKey for isize {
    proof fn keys_are_ordered() {
        broadcast use vstd::laws_cmp::group_laws_cmp, vstd::laws_eq::group_laws_eq;

        lemma_lawful_keys_are_strictly_ordered::<isize>();
    }
}

} // verus!
