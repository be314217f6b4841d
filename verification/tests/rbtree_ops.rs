use batcher::batcher::{Batched, Batcher, Resolution, WrappedOp};
use batcher::rbtree::RBTreeMap;
use batcher::rbtree_ops::{join_edits, Edit, RBTreeMapOp};

type Op = RBTreeMapOp<u32, &'static str>;

fn told(resolutions: Vec<Resolution<Op, usize>>) -> Vec<(usize, Option<&'static str>)> {
    resolutions.into_iter().map(|r| (r.callback, r.result)).collect()
}

fn batch(ops: Vec<Op>) -> Vec<WrappedOp<Op, usize>> {
    ops.into_iter().enumerate().map(|(i, op)| WrappedOp(op, i)).collect()
}

#[test]
fn new_map_state_is_empty() {
    let map: RBTreeMap<u32, &'static str> = <RBTreeMap<u32, &'static str> as Batched>::init();
    assert_eq!(map.get(&1), None);
}

#[test]
fn every_operation_is_answered_from_the_map_before_the_batch() {
    let mut map: RBTreeMap<u32, &'static str> = RBTreeMap::new();
    map.insert(1, "one");
    map.insert(2, "two");
    let out = map.run_batch(batch(vec![
        RBTreeMapOp::Insert(1, "uno"),
        RBTreeMapOp::Get(1),
        RBTreeMapOp::Remove(2),
        RBTreeMapOp::Get(2),
        RBTreeMapOp::Insert(3, "tres"),
        RBTreeMapOp::Get(3),
        RBTreeMapOp::Remove(4),
    ]));
    assert_eq!(
        told(out),
        vec![
            (0, Some("one")),
            (1, Some("one")),
            (2, Some("two")),
            (3, Some("two")),
            (4, None),
            (5, None),
            (6, None),
        ]
    );
    assert_eq!(map.get(&1), Some(&"uno"));
    assert_eq!(map.get(&2), None);
    assert_eq!(map.get(&3), Some(&"tres"));
    assert_eq!(map.get(&4), None);
}

#[test]
fn of_two_operations_on_one_key_the_later_decides() {
    let mut map: RBTreeMap<u32, &'static str> = RBTreeMap::new();
    map.run_batch(batch(vec![RBTreeMapOp::Insert(7, "a"), RBTreeMapOp::Remove(7)]));
    assert_eq!(map.get(&7), None);

    map.run_batch(batch(vec![RBTreeMapOp::Remove(7), RBTreeMapOp::Insert(7, "b")]));
    assert_eq!(map.get(&7), Some(&"b"));

    map.run_batch(batch(vec![
        RBTreeMapOp::Insert(7, "c"),
        RBTreeMapOp::Get(7),
        RBTreeMapOp::Insert(7, "d"),
    ]));
    assert_eq!(map.get(&7), Some(&"d"));

    map.run_batch(batch(vec![
        RBTreeMapOp::Insert(7, "e"),
        RBTreeMapOp::Remove(7),
        RBTreeMapOp::Insert(7, "f"),
        RBTreeMapOp::Remove(7),
    ]));
    assert_eq!(map.get(&7), None);
}

#[test]
fn long_batch_takes_effect_in_its_own_order() {
    let names = ["n0", "n1", "n2", "n3", "n4", "n5", "n6", "n7", "n8", "n9", "n10", "n11", "n12"];
    for n in 1..=names.len() {
        let mut map: RBTreeMap<u32, &'static str> = RBTreeMap::new();
        let ops: Vec<Op> = (0..n).map(|i| RBTreeMapOp::Insert(5, names[i])).collect();
        let out = map.run_batch(batch(ops));
        assert_eq!(out.len(), n);
        assert!(out.iter().all(|r| r.result.is_none()));
        assert_eq!(map.get(&5), Some(&names[n - 1]));
    }
}

#[test]
fn batch_of_reads_leaves_the_map_alone() {
    let mut map: RBTreeMap<u32, &'static str> = RBTreeMap::new();
    map.insert(1, "one");
    let out = map.run_batch(batch(vec![RBTreeMapOp::Get(1), RBTreeMapOp::Get(2)]));
    assert_eq!(told(out), vec![(0, Some("one")), (1, None)]);
    assert_eq!(map.get(&1), Some(&"one"));
    assert_eq!(map.get(&2), None);
}

#[test]
fn empty_batch_leaves_the_map_alone() {
    let mut map: RBTreeMap<u32, &'static str> = RBTreeMap::new();
    map.insert(1, "one");
    let out = map.run_batch(Vec::<WrappedOp<Op, usize>>::new());
    assert!(out.is_empty());
    assert_eq!(map.get(&1), Some(&"one"));
}

#[test]
fn a_later_batch_sees_what_an_earlier_one_did() {
    let mut coordinator: Batcher<RBTreeMap<u32, &'static str>, usize> = Batcher::new();
    assert_eq!(told(coordinator.apply(RBTreeMapOp::Insert(1, "one"), 0)), vec![(0, None)]);
    assert_eq!(told(coordinator.apply(RBTreeMapOp::Get(1), 1)), vec![(1, Some("one"))]);

    let first = coordinator.submit(RBTreeMapOp::Insert(2, "two"), 2).unwrap();
    assert!(coordinator.submit(RBTreeMapOp::Get(2), 3).is_none());
    assert!(coordinator.submit(RBTreeMapOp::Remove(1), 4).is_none());
    assert!(coordinator.submit(RBTreeMapOp::Get(1), 5).is_none());
    let (done, out) = first.run();
    assert_eq!(told(out), vec![(2, None)]);
    let second = coordinator.finish(done).ok().unwrap().unwrap();
    let (done, out) = second.run();
    assert_eq!(told(out), vec![(3, Some("two")), (4, Some("one")), (5, Some("one"))]);
    assert!(coordinator.finish(done).ok().unwrap().is_none());
    assert_eq!(told(coordinator.apply(RBTreeMapOp::Get(1), 6)), vec![(6, None)]);
    assert_eq!(told(coordinator.apply(RBTreeMapOp::Get(2), 7)), vec![(7, Some("two"))]);
}

#[test]
fn edits_are_joined_end_to_end() {
    let first = vec![Edit::Put(1u8, 'a'), Edit::Drop(2)];
    let second = vec![Edit::Drop(1), Edit::Put(3, 'c')];
    let joined = join_edits(first, second);
    let shown: Vec<(u8, Option<char>)> = joined
        .into_iter()
        .map(|edit| match edit {
            Edit::Put(key, value) => (key, Some(value)),
            Edit::Drop(key) => (key, None),
        })
        .collect();
    assert_eq!(shown, vec![(1, Some('a')), (2, None), (1, None), (3, Some('c'))]);
}
