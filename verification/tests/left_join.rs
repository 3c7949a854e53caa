//! Left joins, driven through their plans.
use std::collections::HashMap;
use std::marker::PhantomData;

use hyphae::diff::MapDiff;
use hyphae::foreign_key::{ForeignKeyRelation, IdFor, IdType};
use hyphae::join_lifecycle::{PublishChanges, RootRegistrationOrder};
use hyphae::join_region::router::DEFAULT_PROMOTION_WORK;
use hyphae::join_region::stage_runtime::{Here, There};
use hyphae::join_runtime::keyed::KeyedJoinInstall;
use hyphae::join_runtime::state::RelationIndex;
use hyphae::left_join::LeftJoinExt;
use hyphae::map_values::MapValuesExt;
use hyphae::parallel::WorkerPool;
use hyphae::query::{ByMapKey, ExactlyOne, MapQuery, PlanProperties};
use hyphae::value::{CellValue, MapKey};

/// A source of rows: says how its rows change.
struct Table<K, V> {
    rows: HashMap<K, V>,
}

/// The plan of a source of rows.
struct Root<K, V>(PhantomData<(K, V)>);

impl<K, V> PlanProperties for Root<K, V> {
    type Cardinality = ExactlyOne;
    type InputPartition = ByMapKey<K>;
    type OutputPartition = ByMapKey<K>;
}

impl<K: MapKey, V: CellValue> MapQuery for Root<K, V> {
    type Key = K;
    type Value = V;

    fn raw_source(&self) -> bool {
        true
    }

    fn is_raw_source(&self) -> bool {
        true
    }
}

#[allow(dead_code)]
impl<K: MapKey, V: CellValue> Table<K, V> {
    fn new() -> Self {
        Table { rows: HashMap::new() }
    }

    fn query(&self) -> Root<K, V> {
        Root(PhantomData)
    }

    fn insert(&mut self, key: K, value: V) -> MapDiff<K, V> {
        match self.rows.insert(key.clone_value(), value.clone_value()) {
            Some(old_value) => MapDiff::Update { key, old_value, new_value: value },
            None => MapDiff::Insert { key, value },
        }
    }

    fn insert_many(&mut self, entries: Vec<(K, V)>) -> MapDiff<K, V> {
        let changes = entries.into_iter().map(|(key, value)| self.insert(key, value)).collect();
        MapDiff::Batch { changes }
    }

    fn remove(&mut self, key: &K) -> Option<MapDiff<K, V>> {
        self.rows
            .remove(key)
            .map(|old_value| MapDiff::Remove { key: key.clone_value(), old_value })
    }

    fn initial(&self) -> MapDiff<K, V> {
        let entries = self
            .rows
            .iter()
            .map(|(key, value)| (key.clone_value(), value.clone_value()))
            .collect();
        MapDiff::Initial { entries }
    }
}

/// The rows that diffs lead to, and the diffs.
struct View<K, V> {
    rows: HashMap<K, V>,
    seen: Vec<MapDiff<K, V>>,
}

#[allow(dead_code)]
impl<K: MapKey, V: CellValue> View<K, V> {
    fn new() -> Self {
        View { rows: HashMap::new(), seen: Vec::new() }
    }

    /// Forgets the diffs seen so far, and sees the rows that are there.
    fn subscribe(&mut self) {
        let entries = self
            .rows
            .iter()
            .map(|(key, value)| (key.clone_value(), value.clone_value()))
            .collect();
        self.seen = vec![MapDiff::Initial { entries }];
    }

    fn take<D: IntoIterator<Item = MapDiff<K, V>>>(&mut self, diffs: D) {
        for diff in diffs {
            self.follow(&diff);
            self.seen.push(diff);
        }
    }

    fn follow(&mut self, diff: &MapDiff<K, V>) {
        match diff {
            MapDiff::Initial { entries } => {
                self.rows.clear();
                for (key, value) in entries {
                    self.rows.insert(key.clone_value(), value.clone_value());
                }
            }
            MapDiff::Insert { key, value } => {
                assert!(self.rows.insert(key.clone_value(), value.clone_value()).is_none());
            }
            MapDiff::Remove { key, old_value } => {
                assert!(self.rows.remove(key).is_some_and(|row| row.equals(old_value)));
            }
            MapDiff::Update { key, old_value, new_value } => {
                let row = self.rows.insert(key.clone_value(), new_value.clone_value());
                assert!(row.is_some_and(|row| row.equals(old_value)));
            }
            MapDiff::Batch { changes } => {
                for change in changes {
                    self.follow(change);
                }
            }
        }
    }

    fn get_value(&self, key: &K) -> Option<V> {
        self.rows.get(key).map(|value| value.clone_value())
    }

    fn contains_key(&self, key: &K) -> bool {
        self.rows.contains_key(key)
    }

    fn len(&self) -> usize {
        self.rows.len()
    }
}

#[derive(Debug, Clone, PartialEq, Eq, Hash)]
struct UserId(String);

impl CellValue for UserId {
    type Model = UserId;

    fn model(&self) -> UserId {
        self.clone()
    }

    fn clone_value(&self) -> UserId {
        self.clone()
    }

    fn equals(&self, other: &UserId) -> bool {
        self == other
    }
}

#[derive(Debug, Clone, PartialEq)]
struct User {
    name: String,
}

impl CellValue for User {
    type Model = User;

    fn model(&self) -> User {
        self.clone()
    }

    fn clone_value(&self) -> User {
        self.clone()
    }

    fn equals(&self, other: &User) -> bool {
        self == other
    }
}

impl IdFor<User> for UserId {
    type MapKey = String;

    fn key_for(_: UserId) -> <String as CellValue>::Model {
        unreachable!()
    }

    fn map_key(&self) -> String {
        self.0.clone()
    }
}

impl IdType for UserId {
    type Parent = User;
}

#[derive(Debug, Clone, PartialEq)]
struct Post {
    user_id: UserId,
    title: String,
}

impl CellValue for Post {
    type Model = Post;

    fn model(&self) -> Post {
        self.clone()
    }

    fn clone_value(&self) -> Post {
        self.clone()
    }

    fn equals(&self, other: &Post) -> bool {
        self == other
    }
}

struct UserPosts;

impl ForeignKeyRelation for UserPosts {
    type Parent = User;
    type Child = Post;
    type ForeignKey = UserId;

    fn key_of(post: Post) -> Option<UserId> {
        UserPosts::foreign_key(&post)
    }

    fn foreign_key(post: &Post) -> Option<UserId> {
        if post.user_id.0.is_empty() {
            None
        } else {
            Some(post.user_id.clone())
        }
    }
}

fn user(name: &str) -> User {
    User { name: name.to_string() }
}

fn post(user_id: &str, title: &str) -> Post {
    Post { user_id: UserId(user_id.to_string()), title: title.to_string() }
}

#[derive(Debug, Clone, PartialEq)]
struct OptionalPost {
    user_id: Option<UserId>,
    sequence: usize,
}

impl CellValue for OptionalPost {
    type Model = OptionalPost;

    fn model(&self) -> OptionalPost {
        self.clone()
    }

    fn clone_value(&self) -> OptionalPost {
        self.clone()
    }

    fn equals(&self, other: &OptionalPost) -> bool {
        self == other
    }
}

struct OptionalUserPosts;

impl ForeignKeyRelation for OptionalUserPosts {
    type Parent = User;
    type Child = OptionalPost;
    type ForeignKey = UserId;

    fn key_of(post: OptionalPost) -> Option<UserId> {
        post.user_id
    }

    fn foreign_key(post: &OptionalPost) -> Option<UserId> {
        post.user_id.clone()
    }
}

#[test]
fn left_join_keeps_unmatched_left_rows() {
    let mut left = Table::<String, i32>::new();
    let right = Table::<String, i32>::new();
    let (_, _, mut node) = left.query().left_join(right.query()).build_into();
    let mut joined = View::new();

    joined.take(node.apply_left(&left.insert("a".to_string(), 1), None));
    assert_eq!(joined.get_value(&"a".to_string()), Some((1, vec![])));
}

#[test]
fn left_join_pairs_matched_rows() {
    let mut left = Table::<String, i32>::new();
    let mut right = Table::<String, i32>::new();
    let (_, _, mut node) = left.query().left_join(right.query()).build_into();
    let mut joined = View::new();

    joined.take(node.apply_left(&left.insert("a".to_string(), 1), None));
    joined.take(node.apply_right(&right.insert("a".to_string(), 10), None));
    assert_eq!(joined.get_value(&"a".to_string()), Some((1, vec![10])));
}

#[test]
fn left_join_reacts_to_right_addition() {
    let mut left = Table::<String, i32>::new();
    let mut right = Table::<String, i32>::new();
    let (_, _, mut node) = left.query().left_join(right.query()).build_into();
    let mut joined = View::new();

    joined.take(node.apply_left(&left.insert("a".to_string(), 1), None));
    assert_eq!(joined.get_value(&"a".to_string()), Some((1, vec![])));

    joined.take(node.apply_right(&right.insert("a".to_string(), 10), None));
    assert_eq!(joined.get_value(&"a".to_string()), Some((1, vec![10])));
}

#[test]
fn left_join_reacts_to_right_removal() {
    let mut left = Table::<String, i32>::new();
    let mut right = Table::<String, i32>::new();
    let (_, _, mut node) = left.query().left_join(right.query()).build_into();
    let mut joined = View::new();

    joined.take(node.apply_left(&left.insert("a".to_string(), 1), None));
    joined.take(node.apply_right(&right.insert("a".to_string(), 10), None));
    assert_eq!(joined.get_value(&"a".to_string()), Some((1, vec![10])));

    for diff in right.remove(&"a".to_string()) {
        joined.take(node.apply_right(&diff, None));
    }
    assert_eq!(joined.get_value(&"a".to_string()), Some((1, vec![])));
}

#[test]
fn left_join_reacts_to_left_removal() {
    let mut left = Table::<String, i32>::new();
    let mut right = Table::<String, i32>::new();
    let (_, _, mut node) = left.query().left_join(right.query()).build_into();
    let mut joined = View::new();

    joined.take(node.apply_left(&left.insert("a".to_string(), 1), None));
    joined.take(node.apply_right(&right.insert("a".to_string(), 10), None));
    assert_eq!(joined.len(), 1);

    for diff in left.remove(&"a".to_string()) {
        joined.take(node.apply_left(&diff, None));
    }
    assert_eq!(joined.len(), 0);
}

#[test]
fn left_join_by_collects_multiple_right_matches() {
    let mut left = Table::<String, (String, i32)>::new();
    let mut right = Table::<String, (String, i32)>::new();
    let (_, _, mut node) = left
        .query()
        .left_join_by(right.query(), |_, lv| lv.0.clone(), |_, rv| rv.0.clone())
        .build_into();
    let mut joined = View::new();

    joined.take(node.apply_left(&left.insert("l1".to_string(), ("g1".to_string(), 10)), None));
    joined.take(node.apply_right(&right.insert("r1".to_string(), ("g1".to_string(), 5)), None));
    joined.take(node.apply_right(&right.insert("r2".to_string(), ("g1".to_string(), 7)), None));

    let val = joined.get_value(&"l1".to_string());
    assert!(matches!(
        val,
        Some((left_val, right_vals))
            if left_val == ("g1".to_string(), 10) && right_vals.len() == 2
    ));
}

#[test]
fn left_join_by_keeps_unmatched_with_empty_vec() {
    let mut left = Table::<String, (String, i32)>::new();
    let right = Table::<String, (String, i32)>::new();
    let (_, _, mut node) = left
        .query()
        .left_join_by(right.query(), |_, lv| lv.0.clone(), |_, rv| rv.0.clone())
        .build_into();
    let mut joined = View::new();

    joined.take(node.apply_left(&left.insert("l1".to_string(), ("g1".to_string(), 10)), None));

    let val = joined.get_value(&"l1".to_string());
    assert!(matches!(
        val,
        Some((left_val, right_vals))
            if left_val == ("g1".to_string(), 10) && right_vals.is_empty()
    ));
}

#[test]
fn left_join_by_preserves_right_batch() {
    let mut left = Table::<String, (String, i32)>::new();
    let mut right = Table::<String, (String, i32)>::new();
    let (_, _, mut node) = left
        .query()
        .left_join_by(right.query(), |_, lv| lv.0.clone(), |_, rv| rv.0.clone())
        .build_into();
    let mut joined = View::new();
    left.insert("l1".to_string(), ("g1".to_string(), 10));
    joined.take(node.apply_left(&left.initial(), None));
    joined.subscribe();

    let batch = right.insert_many(vec![
        ("r1".to_string(), ("g1".to_string(), 5)),
        ("r2".to_string(), ("g1".to_string(), 7)),
    ]);
    joined.take(node.apply_right(&batch, None));

    assert_eq!(joined.seen.len(), 2);
    assert!(matches!(
        joined.seen.last(),
        Some(MapDiff::Batch { changes }) if !changes.is_empty()
    ));
}

#[test]
fn coordinated_two_join_region_tracks_every_root() {
    let mut left = Table::<u64, (u64, i32)>::new();
    let mut right1 = Table::<u64, (u64, i32)>::new();
    let mut right2 = Table::<u64, (u64, i32)>::new();
    let (_, _, _, mut kernel, order) = left
        .query()
        .left_join_by(right1.query(), |_, row| row.0, |_, row| row.0)
        .map_joined_values(|_, left, matches| {
            (left.0, left.1 + matches.iter().map(|(_, row)| row.1).sum::<i32>())
        })
        .left_join_by(right2.query(), |_, row| row.0, |_, row| row.0)
        .map_joined_values(|_, middle, matches| {
            middle.1 + matches.iter().map(|(_, row)| row.1).sum::<i32>()
        })
        .build_into(None);
    let mut output = View::new();
    assert_eq!(order, RootRegistrationOrder::LeftThenRights);

    output.take(kernel.apply_left_diff(&left.insert(1, (7, 10)), None).publish());
    assert_eq!(output.get_value(&1), Some(10));

    output.take(kernel.apply_first_right_diff(&right1.insert(11, (7, 3)), None).publish());
    assert_eq!(output.get_value(&1), Some(13));

    output.take(kernel.apply_second_right_diff(&right2.insert(21, (7, 5)), None).publish());
    assert_eq!(output.get_value(&1), Some(18));

    for diff in right1.remove(&11) {
        output.take(kernel.apply_first_right_diff(&diff, None).publish());
    }
    assert_eq!(output.get_value(&1), Some(15));

    for diff in right2.remove(&21) {
        output.take(kernel.apply_second_right_diff(&diff, None).publish());
    }
    assert_eq!(output.get_value(&1), Some(10));

    for diff in left.remove(&1) {
        output.take(kernel.apply_left_diff(&diff, None).publish());
    }
    assert_eq!(output.get_value(&1), None);
}

#[test]
fn coordinated_two_join_region_preserves_batched_updates() {
    let mut left = Table::<u64, (u64, i32)>::new();
    let mut right1 = Table::<u64, (u64, i32)>::new();
    let mut right2 = Table::<u64, (u64, i32)>::new();
    let (_, _, _, mut kernel, order) = left
        .query()
        .left_join_by(right1.query(), |_, row| row.0, |_, row| row.0)
        .map_joined_values(|_, left, matches| {
            (left.0, left.1 + matches.iter().map(|(_, row)| row.1).sum::<i32>())
        })
        .left_join_by(right2.query(), |_, row| row.0, |_, row| row.0)
        .map_joined_values(|_, middle, matches| {
            middle.1 + matches.iter().map(|(_, row)| row.1).sum::<i32>()
        })
        .build_into(None);
    let mut output = View::new();
    assert_eq!(order, RootRegistrationOrder::LeftThenRights);

    let batch = left.insert_many(vec![(1, (7, 10)), (2, (8, 20))]);
    output.take(kernel.apply_left_diff(&batch, None).publish());
    let batch = right1.insert_many(vec![(11, (7, 3)), (12, (8, 4))]);
    output.take(kernel.apply_first_right_diff(&batch, None).publish());
    let batch = right2.insert_many(vec![(21, (7, 5)), (22, (8, 6))]);
    output.take(kernel.apply_second_right_diff(&batch, None).publish());

    assert_eq!(output.get_value(&1), Some(18));
    assert_eq!(output.get_value(&2), Some(30));
    assert!(output.seen.iter().all(|diff| matches!(diff, MapDiff::Batch { .. })));
}

#[test]
fn coordinated_two_join_region_repartitions_updates_between_joins() {
    let mut left = Table::<u64, (u64, i32)>::new();
    let mut right1 = Table::<u64, (u64, u64, i32)>::new();
    let mut right2 = Table::<u64, (u64, i32)>::new();
    let (_, _, _, mut kernel, _) = left
        .query()
        .left_join_by(right1.query(), |_, row| row.0, |_, row| row.0)
        .map_joined_values(|_, left, matches| {
            let next_relation = matches.first().map_or(0, |(_, row)| row.1);
            let subtotal = left.1 + matches.iter().map(|(_, row)| row.2).sum::<i32>();
            (next_relation, subtotal)
        })
        .left_join_by(right2.query(), |_, row| row.0, |_, row| row.0)
        .map_joined_values(|_, middle, matches| {
            middle.1 + matches.iter().map(|(_, row)| row.1).sum::<i32>()
        })
        .build_into(None);
    let mut output = View::new();

    let batch = right2.insert_many(vec![(21, (20, 5)), (31, (30, 7))]);
    output.take(kernel.apply_second_right_diff(&batch, None).publish());
    output.take(kernel.apply_first_right_diff(&right1.insert(11, (10, 20, 3)), None).publish());
    output.take(kernel.apply_left_diff(&left.insert(1, (10, 100)), None).publish());
    assert_eq!(output.get_value(&1), Some(108));

    // The join key of the second join changes with the row of the first.
    output.take(kernel.apply_first_right_diff(&right1.insert(11, (10, 30, 4)), None).publish());
    assert_eq!(output.get_value(&1), Some(111));

    // Both sides of the first join move, and the key of the output stays.
    output.take(kernel.apply_first_right_diff(&right1.insert(11, (40, 20, 9)), None).publish());
    assert_eq!(output.get_value(&1), Some(100));
    output.take(kernel.apply_left_diff(&left.insert(1, (40, 100)), None).publish());
    assert_eq!(output.get_value(&1), Some(114));
}

#[test]
fn coordinated_two_join_matches_reference_across_mixed_root_updates() {
    let mut left = Table::<u64, (u64, i64)>::new();
    let mut right1 = Table::<u64, (u64, i64)>::new();
    let mut right2 = Table::<u64, (u64, i64)>::new();
    let (_, _, _, mut kernel, _) = left
        .query()
        .left_join_by(right1.query(), |_, row| row.0, |_, row| row.0)
        .map_joined_values(|_, left, matches| {
            let subtotal = left.1 + matches.iter().map(|(_, row)| row.1).sum::<i64>();
            (u64::try_from(subtotal.rem_euclid(8)).unwrap_or(0), subtotal)
        })
        .left_join_by(right2.query(), |_, row| row.0, |_, row| row.0)
        .map_joined_values(|_, middle, matches| {
            middle.1 + matches.iter().map(|(_, row)| row.1).sum::<i64>()
        })
        .build_into(None);
    let mut output = View::new();

    let mut random = 0x9e37_79b9_7f4a_7c15_u64;

    for _ in 0..512 {
        random = random
            .wrapping_mul(6_364_136_223_846_793_005)
            .wrapping_add(1_442_695_040_888_963_407);
        let key = (random >> 16) % 16;
        let relation = (random >> 32) % 8;
        let value = i64::try_from((random >> 48) % 31).unwrap_or(0) - 15;
        match random % 6 {
            0 => {
                let diff = left.insert(key, (relation, value));
                output.take(kernel.apply_left_diff(&diff, None).publish());
            }
            1 => {
                let diff = right1.insert(key, (relation, value));
                output.take(kernel.apply_first_right_diff(&diff, None).publish());
            }
            2 => {
                let diff = right2.insert(key, (relation, value));
                output.take(kernel.apply_second_right_diff(&diff, None).publish());
            }
            3 => {
                for diff in left.remove(&key) {
                    output.take(kernel.apply_left_diff(&diff, None).publish());
                }
            }
            4 => {
                for diff in right1.remove(&key) {
                    output.take(kernel.apply_first_right_diff(&diff, None).publish());
                }
            }
            _ => {
                for diff in right2.remove(&key) {
                    output.take(kernel.apply_second_right_diff(&diff, None).publish());
                }
            }
        }

        for candidate in 0..16 {
            let expected = left.rows.get(&candidate).map(|left_row| {
                let subtotal = left_row.1
                    + right1
                        .rows
                        .values()
                        .filter(|row| row.0 == left_row.0)
                        .map(|row| row.1)
                        .sum::<i64>();
                let second_relation = u64::try_from(subtotal.rem_euclid(8)).unwrap_or(0);
                subtotal
                    + right2
                        .rows
                        .values()
                        .filter(|row| row.0 == second_relation)
                        .map(|row| row.1)
                        .sum::<i64>()
            });
            assert_eq!(output.get_value(&candidate), expected);
            assert_eq!(kernel.get(&candidate).copied(), expected);
        }
    }
}

#[test]
fn joined_projection_preserves_right_insertion_order() {
    let mut left = Table::<u64, u64>::new();
    let mut right = Table::<u64, u64>::new();
    let (_, _, mut node) = left
        .query()
        .left_join_by(right.query(), |_, group| *group, |_, group| *group)
        .map_joined_values(|_, _, matches| matches.iter().map(|(key, _)| *key).collect::<Vec<_>>())
        .build_into();
    let mut output = View::new();

    output.take(node.apply_left(&left.insert(1, 7), None));
    let batch = right.insert_many(vec![(30, 7), (10, 7), (20, 7)]);
    output.take(node.apply_right(&batch, None));
    assert_eq!(output.get_value(&1), Some(vec![30, 10, 20]));

    output.take(node.apply_right(&right.insert(10, 7), None));
    assert_eq!(output.get_value(&1), Some(vec![30, 10, 20]));

    for diff in right.remove(&10) {
        output.take(node.apply_right(&diff, None));
    }
    output.take(node.apply_right(&right.insert(10, 7), None));
    assert_eq!(output.get_value(&1), Some(vec![30, 20, 10]));
}

#[test]
fn right_changes_publish_impacted_left_rows_in_insertion_order() {
    let mut left = Table::<u64, u64>::new();
    let mut right = Table::<u64, u64>::new();
    let (_, _, mut node) = left
        .query()
        .left_join_by(right.query(), |_, group| *group, |_, group| *group)
        .map_joined_values(|_, _, matches| matches.len())
        .build_into();
    let mut output = View::new();

    let batch = left.insert_many(vec![(9, 7), (3, 7), (7, 7)]);
    output.take(node.apply_left(&batch, None));

    output.take(node.apply_right(&right.insert(1, 7), None));

    let keys: Vec<u64> = match output.seen.last() {
        Some(MapDiff::Batch { changes }) => changes
            .iter()
            .filter_map(|change| match change {
                MapDiff::Update { key, .. } => Some(*key),
                _ => None,
            })
            .collect(),
        _ => Vec::new(),
    };
    assert_eq!(keys, vec![9, 3, 7]);
}

#[test]
fn large_parallel_join_batch_settles_synchronously_in_input_order() {
    let rows: u64 = 10_000;
    let pool = rayon::ThreadPoolBuilder::new().num_threads(4).build().expect("pool");
    let pool = WorkerPool::new(pool);

    let mut left = Table::<u64, (u64, u64)>::new();
    let mut right1 = Table::<u64, (u64, u64)>::new();
    let mut right2 = Table::<u64, (u64, u64)>::new();
    let (_, _, _, mut kernel, _) = left
        .query()
        .left_join_by(right1.query(), |_, row| row.0, |_, row| row.0)
        .map_joined_values(|_, row, matches| {
            (row.0, row.1 + u64::try_from(matches.len()).unwrap_or(u64::MAX))
        })
        .left_join_by(right2.query(), |_, row| row.0, |_, row| row.0)
        .map_joined_values(|_, row, matches| {
            row.1 + u64::try_from(matches.len()).unwrap_or(u64::MAX)
        })
        .build_into(Some(&pool));
    let mut output = View::new();
    let batch = right1.insert_many((0..8).map(|key| (key, (1, key))).collect());
    output.take(kernel.apply_first_right_diff(&batch, Some(&pool)).publish());
    let batch = right2.insert_many((0..8).map(|key| (key, (1, key))).collect());
    output.take(kernel.apply_second_right_diff(&batch, Some(&pool)).publish());
    output.subscribe();

    let batch = left.insert_many((0..rows).map(|key| (key, (1, key))).collect());
    output.take(kernel.apply_left_diff(&batch, Some(&pool)).publish());

    assert_eq!(output.get_value(&(rows - 1)), Some(rows - 1 + 16));
    assert_eq!(output.seen.len(), 2);
    let keys: Vec<u64> = match output.seen.last() {
        Some(MapDiff::Batch { changes }) => changes
            .iter()
            .filter_map(|change| match change {
                MapDiff::Insert { key, .. } => Some(*key),
                _ => None,
            })
            .collect(),
        _ => Vec::new(),
    };
    assert_eq!(keys, (0..rows).collect::<Vec<_>>());
}

#[test]
fn left_join_fk_keeps_unmatched_with_empty_vec() {
    let mut users = Table::<String, User>::new();
    let posts = Table::<String, Post>::new();
    let built = users.query().left_join_fk::<UserPosts, _>(posts.query()).build_into();
    let mut join = match built.install {
        KeyedJoinInstall::Shared(join) => join,
        KeyedJoinInstall::Owned(_) => panic!("a source of rows shares them"),
    };
    let index = RelationIndex::<String, Post, String>::new();
    let mut joined = View::new();

    joined.take(join.apply_left(&index, &users.insert("u1".to_string(), user("Alice")), None));

    let val = joined.get_value(&"u1".to_string());
    assert!(matches!(
        val,
        Some((user, posts)) if user.name == "Alice" && posts.is_empty()
    ));
}

#[test]
fn left_join_fk_ignores_absent_foreign_keys() {
    let mut users = Table::<String, User>::new();
    let mut posts = Table::<String, Post>::new();
    let built = users.query().left_join_fk::<UserPosts, _>(posts.query()).build_into();
    let mut join = match built.install {
        KeyedJoinInstall::Shared(join) => join,
        KeyedJoinInstall::Owned(_) => panic!("a source of rows shares them"),
    };
    let mut index = RelationIndex::new();
    let mut joined = View::new();

    joined.take(join.apply_left(&index, &users.insert("u1".to_string(), user("Alice")), None));
    let diff = posts.insert("p1".to_string(), post("", "Orphan"));
    joined.take(join.apply_right(&mut index, &diff, true, None));
    assert!(matches!(joined.get_value(&"u1".to_string()), Some((_, rows)) if rows.is_empty()));
    let diff = posts.insert("p1".to_string(), post("u1", "Attached"));
    joined.take(join.apply_right(&mut index, &diff, true, None));
    assert!(matches!(joined.get_value(&"u1".to_string()), Some((_, rows)) if rows.len() == 1));
    let diff = posts.insert("p1".to_string(), post("", "Detached"));
    joined.take(join.apply_right(&mut index, &diff, true, None));
    assert!(matches!(joined.get_value(&"u1".to_string()), Some((_, rows)) if rows.is_empty()));
}

#[test]
fn left_join_fk_collects_matching_posts() {
    let mut users = Table::<String, User>::new();
    let mut posts = Table::<String, Post>::new();
    let built = users.query().left_join_fk::<UserPosts, _>(posts.query()).build_into();
    let mut join = match built.install {
        KeyedJoinInstall::Shared(join) => join,
        KeyedJoinInstall::Owned(_) => panic!("a source of rows shares them"),
    };
    let mut index = RelationIndex::new();
    let mut joined = View::new();

    joined.take(join.apply_left(&index, &users.insert("u1".to_string(), user("Alice")), None));
    let diff = posts.insert("p1".to_string(), post("u1", "Hello"));
    joined.take(join.apply_right(&mut index, &diff, true, None));
    let diff = posts.insert("p2".to_string(), post("u1", "World"));
    joined.take(join.apply_right(&mut index, &diff, true, None));

    let val = joined.get_value(&"u1".to_string());
    assert!(matches!(
        val,
        Some((_, matched_posts)) if matched_posts.len() == 2
    ));
}

#[test]
fn fk_join_survives_key_preserving_parent_projection() {
    let mut users = Table::<String, User>::new();
    let mut posts = Table::<String, Post>::new();
    let built = users
        .query()
        .map_values(|_key, user: &User| user.name.to_uppercase())
        .left_join_fk::<UserPosts, _>(posts.query())
        .build_into();
    let (_, names) = built.left.build_into();
    let mut join = match built.install {
        KeyedJoinInstall::Shared(join) => join,
        KeyedJoinInstall::Owned(_) => panic!("a source of rows shares them"),
    };
    let mut index = RelationIndex::new();
    let mut joined = View::new();

    for diff in names.apply(&users.insert("u1".to_string(), user("Alice"))) {
        joined.take(join.apply_left(&index, &diff, None));
    }
    let diff = posts.insert("p1".to_string(), post("u1", "Hello"));
    joined.take(join.apply_right(&mut index, &diff, true, None));

    assert!(matches!(
        joined.get_value(&"u1".to_string()),
        Some((name, matches)) if name == "ALICE" && matches.len() == 1
    ));
}

#[test]
fn repeated_fk_relationship_keeps_distinct_projected_right_inputs() {
    let mut users = Table::<String, User>::new();
    let mut posts = Table::<String, Post>::new();
    let projected_a = posts.query().map_values(|_, post: &Post| Post {
        user_id: post.user_id.clone(),
        title: format!("{}-a", post.title),
    });
    let projected_b = posts.query().map_values(|_, post: &Post| Post {
        user_id: post.user_id.clone(),
        title: format!("{}-b", post.title),
    });
    let second = users
        .query()
        .left_join_fk::<UserPosts, _>(projected_a)
        .map_joined_values(|_, user, first_posts| {
            (user.clone(), first_posts.first().map(|(_, post)| post.title.clone()))
        })
        .left_join_fk::<UserPosts, _>(projected_b)
        .map_joined_values(|_, first, second_posts| {
            (first.1.clone(), second_posts.first().map(|(_, post)| post.title.clone()))
        })
        .build_into();
    let (_, titles_b) = second.right.build_into();
    let first = second.left.build_into();
    let (_, titles_a) = first.right.build_into();
    let (mut first_join, mut second_join) = match (first.install, second.install) {
        (KeyedJoinInstall::Owned(first), KeyedJoinInstall::Owned(second)) => (first, second),
        _ => panic!("computed rows are not shared"),
    };
    let mut joined = View::new();

    for diff in first_join.apply_left(&users.insert("u1".to_string(), user("Alice")), None) {
        joined.take(second_join.apply_left(&diff, None));
    }
    for (title, expected) in [("First", "First"), ("Updated", "Updated")] {
        let change = posts.insert("p1".to_string(), post("u1", title));
        for right in titles_a.apply(&change) {
            for diff in first_join.apply_right(&right, None) {
                joined.take(second_join.apply_left(&diff, None));
            }
        }
        for right in titles_b.apply(&change) {
            joined.take(second_join.apply_right(&right, None));
        }
        assert_eq!(
            joined.get_value(&"u1".to_string()),
            Some((Some(format!("{expected}-a")), Some(format!("{expected}-b"))))
        );
    }
}

#[test]
fn repeated_fk_relationship_reuses_index_and_updates_every_join() {
    let mut users = Table::<String, User>::new();
    let mut posts = Table::<String, Post>::new();
    let second = users
        .query()
        .left_join_fk::<UserPosts, _>(posts.query())
        .map_joined_values(|_, user, first_posts| (user.clone(), first_posts.len()))
        .left_join_fk::<UserPosts, _>(posts.query())
        .map_joined_values(|_, first, second_posts| (first.1, second_posts.len()))
        .build_into();
    let first = second.left.build_into();
    let (mut first_join, mut second_join) = match (first.install, second.install) {
        (KeyedJoinInstall::Shared(first), KeyedJoinInstall::Shared(second)) => (first, second),
        _ => panic!("a source of rows shares them"),
    };
    let mut index = RelationIndex::new();
    let mut joined = View::new();

    for diff in first_join.apply_left(&index, &users.insert("u1".to_string(), user("Alice")), None) {
        joined.take(second_join.apply_left(&index, &diff, None));
    }
    for diff in first_join.apply_left(&index, &users.insert("u2".to_string(), user("Bob")), None) {
        joined.take(second_join.apply_left(&index, &diff, None));
    }
    let change = posts.insert("p1".to_string(), post("u1", "First"));
    for diff in first_join.apply_right(&mut index, &change, true, None) {
        joined.take(second_join.apply_left(&index, &diff, None));
    }
    joined.take(second_join.apply_right(&mut index, &change, false, None));

    assert_eq!(joined.get_value(&"u1".to_string()), Some((1, 1)));
    assert_eq!(joined.get_value(&"u2".to_string()), Some((0, 0)));

    let change = posts.insert("p1".to_string(), post("u2", "Moved"));
    for diff in first_join.apply_right(&mut index, &change, true, None) {
        joined.take(second_join.apply_left(&index, &diff, None));
    }
    joined.take(second_join.apply_right(&mut index, &change, false, None));

    assert_eq!(joined.get_value(&"u1".to_string()), Some((0, 0)));
    assert_eq!(joined.get_value(&"u2".to_string()), Some((1, 1)));

    let change = posts.insert("p1".to_string(), post("", "Detached"));
    for diff in first_join.apply_right(&mut index, &change, true, None) {
        joined.take(second_join.apply_left(&index, &diff, None));
    }
    joined.take(second_join.apply_right(&mut index, &change, false, None));
    assert_eq!(joined.get_value(&"u1".to_string()), Some((0, 0)));
    assert_eq!(joined.get_value(&"u2".to_string()), Some((0, 0)));
}

#[test]
fn three_stage_typed_fk_region_updates_every_stage_from_one_root() {
    let mut users = Table::<String, User>::new();
    let mut posts = Table::<String, Post>::new();
    let region = users
        .query()
        .left_join_fk::<UserPosts, _>(posts.query())
        .map_joined_values(|_, _, rows| rows.len())
        .left_join_fk::<UserPosts, _>(posts.query())
        .map_joined_values(|_, first, rows| (*first, rows.len()))
        .left_join_fk::<UserPosts, _>(posts.query())
        .map_joined_values(|_, counts: &(usize, usize), rows: &[(String, Post)]| {
            (counts.0, counts.1, rows.len())
        })
        .build_into(None);
    assert_eq!(region.order, RootRegistrationOrder::RightsThenLeft);
    assert!(region.rights.head.shared);
    let mut router = region.router;
    let mut joined = View::new();

    joined.take(router.apply_left(&users.insert("u1".into(), user("Alice")), None));
    joined.take(router.apply_left(&users.insert("u2".into(), user("Bob")), None));
    for (change, first, second) in [
        (posts.insert("p1".into(), post("u1", "First")), 1, 0),
        (posts.insert("p1".into(), post("u2", "Moved")), 0, 1),
    ] {
        joined.take(router.apply_right::<Here, String, Post>(&change));
        joined.take(router.apply_right::<There<Here>, String, Post>(&change));
        joined.take(router.apply_right::<There<There<Here>>, String, Post>(&change));
        assert_eq!(joined.get_value(&"u1".to_string()), Some((first, first, first)));
        assert_eq!(joined.get_value(&"u2".to_string()), Some((second, second, second)));
    }
}

#[test]
fn stages_that_share_right_rows_change_together() {
    let mut users = Table::<String, User>::new();
    let mut posts = Table::<String, Post>::new();
    let mut router = users
        .query()
        .left_join_fk::<UserPosts, _>(posts.query())
        .map_joined_values(|_, _, rows| rows.len())
        .left_join_fk::<UserPosts, _>(posts.query())
        .map_joined_values(|_, first, rows| (*first, rows.len()))
        .left_join_fk::<UserPosts, _>(posts.query())
        .map_joined_values(|_, counts: &(usize, usize), rows: &[(String, Post)]| {
            (counts.0, counts.1, rows.len())
        })
        .build_into(None)
        .router;
    let mut joined = View::new();
    joined.take(router.apply_left(&users.insert("u1".into(), user("Alice")), None));
    joined.take(router.apply_left(&users.insert("u2".into(), user("Bob")), None));

    let change = posts.insert("p1".into(), post("u1", "First"));
    router.follow_right::<Here, String, Post>(&change);
    router.follow_right::<There<Here>, String, Post>(&change);
    router.follow_right::<There<There<Here>>, String, Post>(&change);
    let told = router.observe_right::<Here, String, Post>(&change);
    assert_eq!(
        told,
        vec![MapDiff::Update {
            key: "u1".to_string(),
            old_value: (0, 0, 0),
            new_value: (1, 1, 1),
        }]
    );
    joined.take(told);
    assert!(router.observe_right::<There<Here>, String, Post>(&change).is_empty());
    assert!(router.observe_right::<There<There<Here>>, String, Post>(&change).is_empty());

    let change = posts.insert_many(vec![
        ("p1".into(), post("u2", "Moved")),
        ("p2".into(), post("u2", "Second")),
    ]);
    router.follow_right::<Here, String, Post>(&change);
    router.follow_right::<There<Here>, String, Post>(&change);
    router.follow_right::<There<There<Here>>, String, Post>(&change);
    joined.take(router.observe_right::<Here, String, Post>(&change));
    joined.take(router.observe_right::<There<Here>, String, Post>(&change));
    joined.take(router.observe_right::<There<There<Here>>, String, Post>(&change));
    assert_eq!(joined.get_value(&"u1".to_string()), Some((0, 0, 0)));
    assert_eq!(joined.get_value(&"u2".to_string()), Some((2, 2, 2)));
}

#[test]
fn repeated_optional_fk_relationship_tracks_some_none_transitions() {
    let mut users = Table::<String, User>::new();
    let mut posts = Table::<String, OptionalPost>::new();
    let second = users
        .query()
        .left_join_fk::<OptionalUserPosts, _>(posts.query())
        .map_joined_values(|_, _, first| first.len())
        .left_join_fk::<OptionalUserPosts, _>(posts.query())
        .map_joined_values(|_, first, second| (*first, second.len()))
        .build_into();
    let first = second.left.build_into();
    let (mut first_join, mut second_join) = match (first.install, second.install) {
        (KeyedJoinInstall::Shared(first), KeyedJoinInstall::Shared(second)) => (first, second),
        _ => panic!("a source of rows shares them"),
    };
    let mut index = RelationIndex::new();
    let mut joined = View::new();

    for diff in first_join.apply_left(&index, &users.insert("u1".to_string(), user("Alice")), None) {
        joined.take(second_join.apply_left(&index, &diff, None));
    }
    let change = posts.insert("p1".into(), OptionalPost { user_id: None, sequence: 1 });
    for diff in first_join.apply_right(&mut index, &change, true, None) {
        joined.take(second_join.apply_left(&index, &diff, None));
    }
    joined.take(second_join.apply_right(&mut index, &change, false, None));
    assert_eq!(joined.get_value(&"u1".to_string()), Some((0, 0)));

    let present = OptionalPost { user_id: Some(UserId("u1".into())), sequence: 2 };
    let change = posts.insert("p1".into(), present);
    for diff in first_join.apply_right(&mut index, &change, true, None) {
        joined.take(second_join.apply_left(&index, &diff, None));
    }
    joined.take(second_join.apply_right(&mut index, &change, false, None));
    assert_eq!(joined.get_value(&"u1".to_string()), Some((1, 1)));

    let change = posts.insert("p1".into(), OptionalPost { user_id: None, sequence: 3 });
    for diff in first_join.apply_right(&mut index, &change, true, None) {
        joined.take(second_join.apply_left(&index, &diff, None));
    }
    joined.take(second_join.apply_right(&mut index, &change, false, None));
    assert_eq!(joined.get_value(&"u1".to_string()), Some((0, 0)));
}

#[test]
fn large_sharded_optional_fk_batch_omits_absent_routes() {
    let count: usize = 66_000;
    let mut users = Table::<String, User>::new();
    let mut posts = Table::<usize, OptionalPost>::new();
    let second = users
        .query()
        .left_join_fk::<OptionalUserPosts, _>(posts.query())
        .map_joined_values(|_, _, first| first.len())
        .left_join_fk::<OptionalUserPosts, _>(posts.query())
        .map_joined_values(|_, first, second| (*first, second.len()))
        .build_into();
    let first = second.left.build_into();
    let (mut first_join, mut second_join) = match (first.install, second.install) {
        (KeyedJoinInstall::Shared(first), KeyedJoinInstall::Shared(second)) => (first, second),
        _ => panic!("a source of rows shares them"),
    };
    let mut index = RelationIndex::new();
    let mut joined = View::new();

    for diff in first_join.apply_left(&index, &users.insert("u1".to_string(), user("Alice")), None) {
        joined.take(second_join.apply_left(&index, &diff, None));
    }
    let change = posts.insert_many(
        (0..count)
            .map(|sequence| {
                (sequence, OptionalPost { user_id: Some(UserId("u1".into())), sequence })
            })
            .collect(),
    );
    for diff in first_join.apply_right(&mut index, &change, true, None) {
        joined.take(second_join.apply_left(&index, &diff, None));
    }
    joined.take(second_join.apply_right(&mut index, &change, false, None));
    assert_eq!(joined.get_value(&"u1".to_string()), Some((count, count)));

    let change = posts.insert_many(
        (0..count)
            .map(|sequence| (sequence, OptionalPost { user_id: None, sequence }))
            .collect(),
    );
    for diff in first_join.apply_right(&mut index, &change, true, None) {
        joined.take(second_join.apply_left(&index, &diff, None));
    }
    joined.take(second_join.apply_right(&mut index, &change, false, None));
    assert_eq!(joined.get_value(&"u1".to_string()), Some((0, 0)));
}

#[test]
fn large_optional_fk_batch_omits_absent_routes_with_a_pool() {
    let pool = rayon::ThreadPoolBuilder::new().num_threads(4).build().expect("pool");
    let pool = WorkerPool::new(pool);
    let count: usize = 66_000;
    let mut users = Table::<String, User>::new();
    let mut posts = Table::<usize, OptionalPost>::new();
    let second = users
        .query()
        .left_join_fk::<OptionalUserPosts, _>(posts.query())
        .map_joined_values(|_, _, first| first.len())
        .left_join_fk::<OptionalUserPosts, _>(posts.query())
        .map_joined_values(|_, first, second| (*first, second.len()))
        .build_into();
    let first = second.left.build_into();
    let (mut first_join, mut second_join) = match (first.install, second.install) {
        (KeyedJoinInstall::Shared(first), KeyedJoinInstall::Shared(second)) => (first, second),
        _ => panic!("a source of rows shares them"),
    };
    let mut index = RelationIndex::new();
    let mut joined = View::new();

    let batch = users.insert_many(
        (0..3).map(|number| (format!("u{number}"), user("Alice"))).collect(),
    );
    for diff in first_join.apply_left(&index, &batch, Some(&pool)) {
        joined.take(second_join.apply_left(&index, &diff, Some(&pool)));
    }
    let present = posts.insert_many(
        (0..count)
            .map(|sequence| {
                (sequence, OptionalPost { user_id: Some(UserId("u1".into())), sequence })
            })
            .collect(),
    );
    let absent = posts.insert_many(
        (0..count)
            .map(|sequence| (sequence, OptionalPost { user_id: None, sequence }))
            .collect(),
    );
    for (change, matches) in [(present, count), (absent, 0)] {
        for diff in first_join.apply_right(&mut index, &change, true, Some(&pool)) {
            joined.take(second_join.apply_left(&index, &diff, Some(&pool)));
        }
        joined.take(second_join.apply_right(&mut index, &change, false, Some(&pool)));
        assert_eq!(joined.get_value(&"u1".to_string()), Some((matches, matches)));
        assert_eq!(joined.get_value(&"u2".to_string()), Some((0, 0)));
    }
}

#[test]
fn large_optional_fk_batch_omits_absent_routes_among_shards() {
    let pool = rayon::ThreadPoolBuilder::new().num_threads(4).build().expect("pool");
    let pool = WorkerPool::new(pool);
    let count = DEFAULT_PROMOTION_WORK + 10;
    let mut users = Table::<String, User>::new();
    let mut posts = Table::<usize, OptionalPost>::new();
    let mut router = users
        .query()
        .left_join_fk::<OptionalUserPosts, _>(posts.query())
        .map_joined_values(|_, _, rows| rows.len())
        .left_join_fk::<OptionalUserPosts, _>(posts.query())
        .map_joined_values(|_, first, rows| (*first, rows.len()))
        .left_join_fk::<OptionalUserPosts, _>(posts.query())
        .map_joined_values(|_, counts: &(usize, usize), rows: &[(usize, OptionalPost)]| {
            (counts.0, counts.1, rows.len())
        })
        .build_into(Some(&pool))
        .router;
    let mut joined = View::new();

    let batch = users.insert_many(
        (0..5).map(|number| (format!("u{number}"), user("Alice"))).collect(),
    );
    joined.take(router.apply_left(&batch, Some(&pool)));
    let present = posts.insert_many(
        (0..count)
            .map(|sequence| {
                let user_id = Some(UserId(format!("u{}", sequence % 2)));
                (sequence, OptionalPost { user_id, sequence })
            })
            .collect(),
    );
    let absent = posts.insert_many(
        (0..count)
            .map(|sequence| (sequence, OptionalPost { user_id: None, sequence }))
            .collect(),
    );
    for (change, even, odd) in [(present, count.div_ceil(2), count / 2), (absent, 0, 0)] {
        assert!(router.takes_right::<Here, usize, OptionalPost>(&change));
        joined.take(router.apply_right::<Here, usize, OptionalPost>(&change));
        joined.take(router.apply_right::<There<Here>, usize, OptionalPost>(&change));
        joined.take(router.apply_right::<There<There<Here>>, usize, OptionalPost>(&change));
        assert_eq!(joined.get_value(&"u0".to_string()), Some((even, even, even)));
        assert_eq!(joined.get_value(&"u1".to_string()), Some((odd, odd, odd)));
        assert_eq!(joined.get_value(&"u2".to_string()), Some((0, 0, 0)));
    }
}

#[test]
fn keyed_callback_acquires_shared_index_once_for_all_impacted_keys() {
    let mut left = Table::<i32, i32>::new();
    let mut right = Table::<i32, i32>::new();
    let (_, _, mut node) = left
        .query()
        .left_join_by(right.query(), |_, _| 0, |_, _| 0)
        .map_joined_values(|_, _, right_rows| right_rows.len())
        .build_into();
    let batch = right.insert_many((0..32).map(|key| (key, key)).collect());
    assert!(node.apply_right(&batch, None).is_none());

    let batch = left.insert_many((0..128).map(|key| (key, key)).collect());
    let changes = match node.apply_left(&batch, None) {
        Some(MapDiff::Batch { changes }) => changes,
        _ => Vec::new(),
    };
    assert_eq!(changes.len(), 128);
    for (key, change) in (0..128).zip(&changes) {
        assert_eq!(change, &MapDiff::Insert { key, value: 32 });
    }

    let changes = match node.apply_right(&right.insert(32, 32), None) {
        Some(MapDiff::Batch { changes }) => changes,
        _ => Vec::new(),
    };
    assert_eq!(changes.len(), 128);
    for (key, change) in (0..128).zip(&changes) {
        assert_eq!(change, &MapDiff::Update { key, old_value: 32, new_value: 33 });
    }
}

#[test]
fn a_divided_region_takes_changes_that_name_the_join_keys_of_their_rows() {
    let pool = rayon::ThreadPoolBuilder::new().num_threads(4).build().expect("pool");
    let pool = WorkerPool::new(pool);
    let plan = || {
        let users = Table::<String, User>::new();
        let posts = Table::<usize, OptionalPost>::new();
        users
            .query()
            .left_join_fk::<OptionalUserPosts, _>(posts.query())
            .map_joined_values(|_, _, rows| rows.len())
            .left_join_fk::<OptionalUserPosts, _>(posts.query())
            .map_joined_values(|_, first, rows| (*first, rows.len()))
            .left_join_fk::<OptionalUserPosts, _>(posts.query())
            .map_joined_values(|_, counts: &(usize, usize), rows: &[(usize, OptionalPost)]| {
                (counts.0, counts.1, rows.len())
            })
    };
    let of = |number: usize, sequence: usize| OptionalPost {
        user_id: Some(UserId(format!("u{number}"))),
        sequence,
    };
    let mut one = plan().build_into(None).router;
    let mut many = plan().build_into(Some(&pool)).router;
    let rows = (0..=DEFAULT_PROMOTION_WORK).map(|key| (key, of(key % 3, key))).collect();
    let begin = MapDiff::Initial { entries: rows };
    assert!(many.takes_right::<Here, usize, OptionalPost>(&begin));
    one.apply_right::<Here, usize, OptionalPost>(&begin);
    many.apply_right::<Here, usize, OptionalPost>(&begin);

    let moved = MapDiff::Update { key: 3, old_value: of(0, 3), new_value: of(1, 3) };
    let gone = MapDiff::Remove { key: 4, old_value: of(1, 4) };
    let again = MapDiff::Insert { key: 3, value: of(2, 3) };
    let unknown = MapDiff::Remove { key: 9_999_999, old_value: of(2, 0) };
    let wrong = MapDiff::Update { key: 5, old_value: of(0, 5), new_value: of(1, 5) };
    for (changes, takes) in [
        (vec![moved.clone_diff(), gone.clone_diff(), unknown], true),
        (vec![again.clone_diff()], false),
        (vec![gone, MapDiff::Insert { key: 4, value: of(2, 4) }], true),
        (vec![moved, again], false),
        (vec![wrong.clone_diff()], false),
        (vec![MapDiff::Initial { entries: Vec::new() }, wrong], true),
    ] {
        let diff = MapDiff::Batch { changes };
        assert!(one.takes_right::<Here, usize, OptionalPost>(&diff));
        assert_eq!(many.takes_right::<Here, usize, OptionalPost>(&diff), takes);
    }
}

#[test]
fn a_batch_that_begins_anew_comes_to_the_same_maintained_or_observed() {
    let mut users = Table::<String, User>::new();
    let mut posts = Table::<String, Post>::new();
    let plan = || {
        let users = Table::<String, User>::new();
        let posts = Table::<String, Post>::new();
        users
            .query()
            .left_join_fk::<UserPosts, _>(posts.query())
            .map_joined_values(|_, _, rows| rows.len())
            .left_join_fk::<UserPosts, _>(posts.query())
            .map_joined_values(|_, first, rows| (*first, rows.len()))
            .left_join_fk::<UserPosts, _>(posts.query())
            .map_joined_values(|_, counts: &(usize, usize), rows: &[(String, Post)]| {
                (counts.0, counts.1, rows.len())
            })
    };
    let mut maintained = plan().build_into(None).router;
    let mut observed = plan().build_into(None).router;
    let mut told = View::new();
    let mut seen = View::new();
    for name in ["u1", "u2", "u3"] {
        let change = users.insert(name.into(), user(name));
        told.take(maintained.apply_left(&change, None));
        seen.take(observed.apply_left(&change, None));
    }
    let first = posts.insert_many(vec![
        ("p1".into(), post("u1", "First")),
        ("p2".into(), post("u1", "Second")),
        ("p3".into(), post("u2", "Third")),
    ]);
    let anew = MapDiff::Batch {
        changes: vec![
            posts.insert("p3".into(), post("u3", "Moved")),
            MapDiff::Initial {
                entries: vec![
                    ("p4".to_string(), post("u1", "Fourth")),
                    ("p5".to_string(), post("u3", "Fifth")),
                ],
            },
            MapDiff::Insert { key: "p6".to_string(), value: post("u2", "Sixth") },
        ],
    };
    for (change, counts) in [(first, [2, 1, 0]), (anew, [1, 1, 1])] {
        told.take(maintained.apply_right::<Here, String, Post>(&change));
        told.take(maintained.apply_right::<There<Here>, String, Post>(&change));
        told.take(maintained.apply_right::<There<There<Here>>, String, Post>(&change));
        observed.follow_right::<Here, String, Post>(&change);
        observed.follow_right::<There<Here>, String, Post>(&change);
        observed.follow_right::<There<There<Here>>, String, Post>(&change);
        seen.take(observed.observe_right::<Here, String, Post>(&change));
        seen.take(observed.observe_right::<There<Here>, String, Post>(&change));
        seen.take(observed.observe_right::<There<There<Here>>, String, Post>(&change));
        for (name, count) in ["u1", "u2", "u3"].into_iter().zip(counts) {
            assert_eq!(told.get_value(&name.to_string()), Some((count, count, count)));
            assert_eq!(seen.get_value(&name.to_string()), Some((count, count, count)));
        }
    }
}
