//! Regions of joins, by one runtime and by shards.
use std::collections::HashMap;
use std::marker::PhantomData;

use hyphae::diff::MapDiff;
use hyphae::foreign_key::RequiredRightKey;
use hyphae::join_lifecycle::PublishChanges;
use hyphae::join_region::declaration::{DirectProject, JCons, JNil};
use hyphae::join_region::router::{RegionRouter, DEFAULT_PROMOTION_WORK};
use hyphae::join_region::stage_runtime::{Here, StageConfig, There};
use hyphae::left_join::LeftJoinExt;
use hyphae::parallel::WorkerPool;
use hyphae::query::{ByMapKey, ExactlyOne, MapQuery, PlanProperties};
use hyphae::value::{CellValue, MapKey};

/// A source of rows: says how its rows change.
struct Table<K, V> {
    rows: HashMap<K, V>,
}

/// The plan of a source of rows.
struct Root<K, V>(PhantomData<(K, V)>);

impl<K, V> PlanProperties for Root<K, V> {
    type Cardinality = ExactlyOne;
    type InputPartition = ByMapKey<K>;
    type OutputPartition = ByMapKey<K>;
}

impl<K: MapKey, V: CellValue> MapQuery for Root<K, V> {
    type Key = K;
    type Value = V;

    fn raw_source(&self) -> bool {
        true
    }

    fn is_raw_source(&self) -> bool {
        true
    }
}

#[allow(dead_code)]
impl<K: MapKey, V: CellValue> Table<K, V> {
    fn new() -> Self {
        Table { rows: HashMap::new() }
    }

    fn query(&self) -> Root<K, V> {
        Root(PhantomData)
    }

    fn insert(&mut self, key: K, value: V) -> MapDiff<K, V> {
        match self.rows.insert(key.clone_value(), value.clone_value()) {
            Some(old_value) => MapDiff::Update { key, old_value, new_value: value },
            None => MapDiff::Insert { key, value },
        }
    }

    fn insert_many(&mut self, entries: Vec<(K, V)>) -> MapDiff<K, V> {
        let changes = entries.into_iter().map(|(key, value)| self.insert(key, value)).collect();
        MapDiff::Batch { changes }
    }

    fn remove(&mut self, key: &K) -> Option<MapDiff<K, V>> {
        self.rows
            .remove(key)
            .map(|old_value| MapDiff::Remove { key: key.clone_value(), old_value })
    }

    fn initial(&self) -> MapDiff<K, V> {
        let entries = self
            .rows
            .iter()
            .map(|(key, value)| (key.clone_value(), value.clone_value()))
            .collect();
        MapDiff::Initial { entries }
    }
}

/// The rows that diffs lead to, and the diffs.
struct View<K, V> {
    rows: HashMap<K, V>,
    seen: Vec<MapDiff<K, V>>,
}

#[allow(dead_code)]
impl<K: MapKey, V: CellValue> View<K, V> {
    fn new() -> Self {
        View { rows: HashMap::new(), seen: Vec::new() }
    }

    /// Forgets the diffs seen so far, and sees the rows that are there.
    fn subscribe(&mut self) {
        let entries = self
            .rows
            .iter()
            .map(|(key, value)| (key.clone_value(), value.clone_value()))
            .collect();
        self.seen = vec![MapDiff::Initial { entries }];
    }

    fn take<D: IntoIterator<Item = MapDiff<K, V>>>(&mut self, diffs: D) {
        for diff in diffs {
            self.follow(&diff);
            self.seen.push(diff);
        }
    }

    fn follow(&mut self, diff: &MapDiff<K, V>) {
        match diff {
            MapDiff::Initial { entries } => {
                self.rows.clear();
                for (key, value) in entries {
                    self.rows.insert(key.clone_value(), value.clone_value());
                }
            }
            MapDiff::Insert { key, value } => {
                assert!(self.rows.insert(key.clone_value(), value.clone_value()).is_none());
            }
            MapDiff::Remove { key, old_value } => {
                assert!(self.rows.remove(key).is_some_and(|row| row.equals(old_value)));
            }
            MapDiff::Update { key, old_value, new_value } => {
                let row = self.rows.insert(key.clone_value(), new_value.clone_value());
                assert!(row.is_some_and(|row| row.equals(old_value)));
            }
            MapDiff::Batch { changes } => {
                for change in changes {
                    self.follow(change);
                }
            }
        }
    }

    fn get_value(&self, key: &K) -> Option<V> {
        self.rows.get(key).map(|value| value.clone_value())
    }

    fn contains_key(&self, key: &K) -> bool {
        self.rows.contains_key(key)
    }

    fn len(&self) -> usize {
        self.rows.len()
    }
}

fn total(matches: &[(u64, (u64, u64))]) -> u64 {
    matches.iter().map(|(_, row)| row.1).sum::<u64>()
}

#[test]
fn shards_tell_what_one_runtime_tells() {
    let pool = rayon::ThreadPoolBuilder::new().num_threads(4).build().expect("pool");
    let pool = WorkerPool::new(pool);
    let mut left = Table::<u64, (u64, u64)>::new();
    let mut rights = Table::<u64, (u64, u64)>::new();
    let mut one = left
        .query()
        .left_join_by(rights.query(), |_, row| row.0, |_, row| row.0)
        .map_joined_values(|_, row, matches| (row.0 % 3, row.1 + total(matches)))
        .left_join_by(rights.query(), |_, row| row.0, |_, row| row.0)
        .map_values(|_, row: &((u64, u64), Vec<(u64, u64)>)| {
            (row.0.0 + 1, row.0.1 + row.1.len() as u64)
        })
        .left_join_by(rights.query(), |_, row| row.0, |_, row| row.0)
        .map_joined_values(|_, row: &(u64, u64), matches: &[(u64, (u64, u64))]| {
            row.1 + 1000 * total(matches)
        })
        .build_into(None).router;
    let mut many = left
        .query()
        .left_join_by(rights.query(), |_, row| row.0, |_, row| row.0)
        .map_joined_values(|_, row, matches| (row.0 % 3, row.1 + total(matches)))
        .left_join_by(rights.query(), |_, row| row.0, |_, row| row.0)
        .map_values(|_, row: &((u64, u64), Vec<(u64, u64)>)| {
            (row.0.0 + 1, row.0.1 + row.1.len() as u64)
        })
        .left_join_by(rights.query(), |_, row| row.0, |_, row| row.0)
        .map_joined_values(|_, row: &(u64, u64), matches: &[(u64, (u64, u64))]| {
            row.1 + 1000 * total(matches)
        })
        .build_into(Some(&pool)).router;
    let mut output = View::<u64, u64>::new();

    let count = DEFAULT_PROMOTION_WORK as u64 + 10;
    let mut batches = Vec::new();
    batches.push(left.insert_many((0..count).map(|key| (count - key, (key % 7, key))).collect()));
    batches.push(left.insert(3, (5, 1)));
    batches.push(left.insert_many(vec![(3, (1, 1)), (4, (2, 2)), (3, (6, 2))]));
    batches.extend(left.remove(&9));
    batches.push(left.insert(9, (0, 0)));
    let changes = vec![
        rights.insert_many((0..20).map(|key| (key, (key % 7, key))).collect()),
        rights.insert(4, (3, 100)),
        rights.insert(5, (4, 7)),
    ];
    for batch in &batches {
        let told = one.apply_left(batch, None);
        assert_eq!(told, many.apply_left(batch, Some(&pool)));
        output.take(told);
    }
    for change in &changes {
        let told = one.apply_right::<Here, u64, (u64, u64)>(change);
        assert_eq!(told, many.apply_right::<Here, u64, (u64, u64)>(change));
        output.take(told);
        let told = one.apply_right::<There<Here>, u64, (u64, u64)>(change);
        assert_eq!(told, many.apply_right::<There<Here>, u64, (u64, u64)>(change));
        output.take(told);
        let told = one.apply_right::<There<There<Here>>, u64, (u64, u64)>(change);
        assert_eq!(told, many.apply_right::<There<There<Here>>, u64, (u64, u64)>(change));
        output.take(told);
    }
    for (key, row) in &left.rows {
        let first: u64 = rights.rows.values().filter(|r| r.0 == row.0).map(|r| r.1).sum();
        let (relation, value) = (row.0 % 3, row.1 + first);
        let second = rights.rows.values().filter(|r| r.0 == relation).count() as u64;
        let third: u64 =
            rights.rows.values().filter(|r| r.0 == relation + 1).map(|r| r.1).sum();
        assert_eq!(output.get_value(key), Some(value + second + 1000 * third));
    }
    assert_eq!(output.len(), left.rows.len());
}

#[test]
fn two_joins_in_shards_come_to_the_same_rows() {
    let pool = rayon::ThreadPoolBuilder::new().num_threads(3).build().expect("pool");
    let pool = WorkerPool::new(pool);
    let mut left = Table::<u64, (u64, u64)>::new();
    let mut rights = Table::<u64, (u64, u64)>::new();
    let plan = || {
        let source = Table::<u64, (u64, u64)>::new();
        source
            .query()
            .left_join_by(source.query(), |_, row| row.0, |_, row| row.0)
            .map_joined_values(|_, row, matches| (row.1 % 5, row.0 + total(matches)))
            .left_join_by(source.query(), |_, row| row.0, |_, row| row.0)
            .map_values(|_, row: &((u64, u64), Vec<(u64, u64)>)| row.0.1 + row.1.len() as u64)
    };
    let (_, _, _, mut one, _) = plan().build_into(None);
    let (_, _, _, mut many, _) = plan().build_into(Some(&pool));
    let mut serial = View::<u64, u64>::new();
    let mut sharded = View::<u64, u64>::new();

    let first = left.insert_many((0..9_000).map(|key| (key, (key % 11, key % 13))).collect());
    let second = rights.insert_many((0..40).map(|key| (key, (key % 11, key))).collect());
    let third = rights.insert_many((0..10).map(|key| (key, (key % 3, key + 1))).collect());
    serial.take(one.apply_left_diff(&first, None).publish());
    sharded.take(many.apply_left_diff(&first, Some(&pool)).publish());
    for diff in [&second, &third] {
        serial.take(one.apply_first_right_diff(diff, None).publish());
        sharded.take(many.apply_first_right_diff(diff, Some(&pool)).publish());
        assert_eq!(serial.rows, sharded.rows);
        serial.take(one.apply_second_right_diff(diff, None).publish());
        sharded.take(many.apply_second_right_diff(diff, Some(&pool)).publish());
        assert_eq!(serial.rows, sharded.rows);
    }
    for key in [5, 700, 8_999] {
        for diff in left.remove(&key) {
            serial.take(one.apply_left_diff(&diff, None).publish());
            sharded.take(many.apply_left_diff(&diff, Some(&pool)).publish());
        }
        assert_eq!(sharded.get_value(&key), None);
    }
    assert_eq!(serial.rows, sharded.rows);
    assert_eq!(many.get(&6).copied(), serial.get_value(&6));
    let expected = {
        let row = left.rows[&6];
        let first: u64 = rights.rows.values().filter(|r| r.0 == row.0).map(|r| r.1).sum();
        let second = rights.rows.values().filter(|r| r.0 == row.1 % 5).count() as u64;
        row.0 + first + second
    };
    assert_eq!(serial.get_value(&6), Some(expected));
}

#[test]
fn a_region_follows_rows_in_the_order_of_their_arrival() {
    let mut left = Table::<u64, (u64, u64)>::new();
    let mut rights = Table::<u64, (u64, u64)>::new();
    let mut router = left
        .query()
        .left_join_by(rights.query(), |_, row| row.0, |_, row| row.0)
        .map_joined_values(|_, row, matches| (row.0 % 3, row.1 + total(matches)))
        .left_join_by(rights.query(), |_, row| row.0, |_, row| row.0)
        .map_values(|_, row: &((u64, u64), Vec<(u64, u64)>)| {
            (row.0.0 + 1, row.0.1 + row.1.len() as u64)
        })
        .left_join_by(rights.query(), |_, row| row.0, |_, row| row.0)
        .map_joined_values(|_, row: &(u64, u64), matches: &[(u64, (u64, u64))]| {
            row.1 + 1000 * total(matches)
        })
        .build_into(None).router;
    let mut output = View::<u64, u64>::new();
    for key in [8, 3, 5] {
        output.take(router.apply_left(&left.insert(key, (1, key)), None));
    }
    for diff in left.remove(&8) {
        output.take(router.apply_left(&diff, None));
    }
    output.take(router.apply_left(&left.insert(8, (1, 0)), None));
    let told = router.apply_right::<Here, u64, (u64, u64)>(&rights.insert(1, (1, 50)));
    let keys: Vec<u64> = told
        .iter()
        .filter_map(|diff| match diff {
            MapDiff::Update { key, .. } => Some(*key),
            _ => None,
        })
        .collect();
    assert_eq!(keys, vec![3, 5, 8]);
}

#[test]
fn a_new_region_tells_each_event_of_a_row() {
    let stages = JCons {
        head: StageConfig {
            left_key: |_: &u64, value: &u64| *value,
            right_key: RequiredRightKey(|_: &u64, value: &u64| *value),
            project: DirectProject(|_: &u64, value: &u64, matches: &[(u64, u64)]| {
                value + matches.len() as u64
            }),
            types: PhantomData,
        },
        tail: JNil,
    };
    let mut router = RegionRouter::new(stages, 1);
    let events = || MapDiff::Batch {
        changes: vec![
            MapDiff::Insert { key: 1_u64, value: 5_u64 },
            MapDiff::Update { key: 1, old_value: 5, new_value: 6 },
            MapDiff::Remove { key: 1, old_value: 6 },
        ],
    };
    assert!(router.has_room(&events()));
    let told: Vec<MapDiff<u64, u64>> = router.apply_left(&events(), None);
    assert_eq!(told, vec![events()]);
    let none: Vec<MapDiff<u64, u64>> =
        router.apply_right::<Here, u64, u64>(&MapDiff::Insert { key: 4, value: 7 });
    assert_eq!(none, Vec::new());
    let seen: Vec<MapDiff<u64, u64>> =
        router.apply_left(&MapDiff::Insert { key: 2, value: 7 }, None);
    assert_eq!(seen, vec![MapDiff::Insert { key: 2, value: 8 }]);
}
