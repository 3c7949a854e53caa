//! Semi joins and joins by several keys, driven through their plans.
use std::collections::HashMap;
use std::marker::PhantomData;

use hyphae::diff::MapDiff;
use hyphae::foreign_key::{ForeignKeyRelation, IdFor, IdType};
use hyphae::left_semi_join::LeftSemiJoinExt;
use hyphae::multi_left_join::MultiLeftJoinExt;
use hyphae::query::{ByMapKey, ExactlyOne, MapQuery, PlanProperties};
use hyphae::value::{CellValue, MapKey};

/// A source of rows: says how its rows change.
struct Table<K, V> {
    rows: HashMap<K, V>,
}

/// The plan of a source of rows.
struct Root<K, V>(PhantomData<(K, V)>);

impl<K, V> PlanProperties for Root<K, V> {
    type Cardinality = ExactlyOne;
    type InputPartition = ByMapKey<K>;
    type OutputPartition = ByMapKey<K>;
}

impl<K: MapKey, V: CellValue> MapQuery for Root<K, V> {
    type Key = K;
    type Value = V;

    fn raw_source(&self) -> bool {
        true
    }

    fn is_raw_source(&self) -> bool {
        true
    }
}

#[allow(dead_code)]
impl<K: MapKey, V: CellValue> Table<K, V> {
    fn new() -> Self {
        Table { rows: HashMap::new() }
    }

    fn query(&self) -> Root<K, V> {
        Root(PhantomData)
    }

    fn insert(&mut self, key: K, value: V) -> MapDiff<K, V> {
        match self.rows.insert(key.clone_value(), value.clone_value()) {
            Some(old_value) => MapDiff::Update { key, old_value, new_value: value },
            None => MapDiff::Insert { key, value },
        }
    }

    fn insert_many(&mut self, entries: Vec<(K, V)>) -> MapDiff<K, V> {
        let changes = entries.into_iter().map(|(key, value)| self.insert(key, value)).collect();
        MapDiff::Batch { changes }
    }

    fn remove(&mut self, key: &K) -> Option<MapDiff<K, V>> {
        self.rows
            .remove(key)
            .map(|old_value| MapDiff::Remove { key: key.clone_value(), old_value })
    }

    fn initial(&self) -> MapDiff<K, V> {
        let entries = self
            .rows
            .iter()
            .map(|(key, value)| (key.clone_value(), value.clone_value()))
            .collect();
        MapDiff::Initial { entries }
    }
}

/// The rows that diffs lead to, and the diffs.
struct View<K, V> {
    rows: HashMap<K, V>,
    seen: Vec<MapDiff<K, V>>,
}

#[allow(dead_code)]
impl<K: MapKey, V: CellValue> View<K, V> {
    fn new() -> Self {
        View { rows: HashMap::new(), seen: Vec::new() }
    }

    /// Forgets the diffs seen so far, and sees the rows that are there.
    fn subscribe(&mut self) {
        let entries = self
            .rows
            .iter()
            .map(|(key, value)| (key.clone_value(), value.clone_value()))
            .collect();
        self.seen = vec![MapDiff::Initial { entries }];
    }

    fn take<D: IntoIterator<Item = MapDiff<K, V>>>(&mut self, diffs: D) {
        for diff in diffs {
            self.follow(&diff);
            self.seen.push(diff);
        }
    }

    fn follow(&mut self, diff: &MapDiff<K, V>) {
        match diff {
            MapDiff::Initial { entries } => {
                self.rows.clear();
                for (key, value) in entries {
                    self.rows.insert(key.clone_value(), value.clone_value());
                }
            }
            MapDiff::Insert { key, value } => {
                assert!(self.rows.insert(key.clone_value(), value.clone_value()).is_none());
            }
            MapDiff::Remove { key, old_value } => {
                assert!(self.rows.remove(key).is_some_and(|row| row.equals(old_value)));
            }
            MapDiff::Update { key, old_value, new_value } => {
                let row = self.rows.insert(key.clone_value(), new_value.clone_value());
                assert!(row.is_some_and(|row| row.equals(old_value)));
            }
            MapDiff::Batch { changes } => {
                for change in changes {
                    self.follow(change);
                }
            }
        }
    }

    fn get_value(&self, key: &K) -> Option<V> {
        self.rows.get(key).map(|value| value.clone_value())
    }

    fn contains_key(&self, key: &K) -> bool {
        self.rows.contains_key(key)
    }

    fn len(&self) -> usize {
        self.rows.len()
    }
}

#[derive(Debug, Clone, PartialEq, Eq, Hash)]
struct UserId(String);

impl CellValue for UserId {
    type Model = UserId;

    fn model(&self) -> UserId {
        self.clone()
    }

    fn clone_value(&self) -> UserId {
        self.clone()
    }

    fn equals(&self, other: &UserId) -> bool {
        self == other
    }
}

#[derive(Debug, Clone, PartialEq)]
struct User {
    name: String,
}

impl CellValue for User {
    type Model = User;

    fn model(&self) -> User {
        self.clone()
    }

    fn clone_value(&self) -> User {
        self.clone()
    }

    fn equals(&self, other: &User) -> bool {
        self == other
    }
}

impl IdFor<User> for UserId {
    type MapKey = String;

    fn key_for(_: UserId) -> <String as CellValue>::Model {
        unreachable!()
    }

    fn map_key(&self) -> String {
        self.0.clone()
    }
}

impl IdType for UserId {
    type Parent = User;
}

#[derive(Debug, Clone, PartialEq)]
struct Post {
    user_id: UserId,
    title: String,
}

impl CellValue for Post {
    type Model = Post;

    fn model(&self) -> Post {
        self.clone()
    }

    fn clone_value(&self) -> Post {
        self.clone()
    }

    fn equals(&self, other: &Post) -> bool {
        self == other
    }
}

struct UserPosts;

impl ForeignKeyRelation for UserPosts {
    type Parent = User;
    type Child = Post;
    type ForeignKey = UserId;

    fn key_of(post: Post) -> Option<UserId> {
        UserPosts::foreign_key(&post)
    }

    fn foreign_key(post: &Post) -> Option<UserId> {
        if post.user_id.0.is_empty() {
            None
        } else {
            Some(post.user_id.clone())
        }
    }
}

fn user(name: &str) -> User {
    User { name: name.to_string() }
}

fn post(user_id: &str, title: &str) -> Post {
    Post { user_id: UserId(user_id.to_string()), title: title.to_string() }
}

#[test]
fn left_semi_join_keeps_matched_rows() {
    let mut left = Table::<String, i32>::new();
    let mut right = Table::<String, bool>::new();
    let (_, _, mut node) = left.query().left_semi_join(right.query()).build_into();
    let mut joined = View::new();

    joined.take(node.apply_left(&left.insert("a".to_string(), 1)));
    assert_eq!(joined.len(), 0);

    joined.take(node.apply_right(&right.insert("a".to_string(), true)));
    assert_eq!(joined.get_value(&"a".to_string()), Some(1));
}

#[test]
fn left_semi_join_drops_unmatched_rows() {
    let mut left = Table::<String, i32>::new();
    let mut right = Table::<String, bool>::new();
    let (_, _, mut node) = left.query().left_semi_join(right.query()).build_into();
    let mut joined = View::new();

    joined.take(node.apply_left(&left.insert("a".to_string(), 1)));
    joined.take(node.apply_left(&left.insert("b".to_string(), 2)));
    joined.take(node.apply_right(&right.insert("a".to_string(), true)));

    assert_eq!(joined.len(), 1);
    assert_eq!(joined.get_value(&"a".to_string()), Some(1));
    assert_eq!(joined.get_value(&"b".to_string()), None);
}

#[test]
fn left_semi_join_reacts_to_right_removal() {
    let mut left = Table::<String, i32>::new();
    let mut right = Table::<String, bool>::new();
    let (_, _, mut node) = left.query().left_semi_join(right.query()).build_into();
    let mut joined = View::new();

    joined.take(node.apply_left(&left.insert("a".to_string(), 1)));
    joined.take(node.apply_right(&right.insert("a".to_string(), true)));
    assert_eq!(joined.len(), 1);

    for diff in right.remove(&"a".to_string()) {
        joined.take(node.apply_right(&diff));
    }
    assert_eq!(joined.len(), 0);
}

#[test]
fn left_semi_join_by_uses_custom_keys() {
    let mut left = Table::<String, i32>::new();
    let mut right = Table::<String, i32>::new();
    let (_, _, mut node) = left
        .query()
        .left_semi_join_by(right.query(), |_, lv| lv.to_string(), |rk, _| rk.clone())
        .build_into();
    let mut joined = View::new();

    joined.take(node.apply_left(&left.insert("a".to_string(), 10)));
    assert_eq!(joined.get_value(&"a".to_string()), None);

    joined.take(node.apply_right(&right.insert("10".to_string(), 99)));
    assert_eq!(joined.get_value(&"a".to_string()), Some(10));
}

#[test]
fn left_semi_join_by_preserves_right_batch() {
    let mut left = Table::<String, i32>::new();
    left.insert("a".to_string(), 1);
    left.insert("b".to_string(), 2);

    let mut right = Table::<String, bool>::new();
    let (_, _, mut node) = left
        .query()
        .left_semi_join_by(right.query(), |_, lv| lv.to_string(), |rk, _| rk.clone())
        .build_into();
    let mut joined = View::new();
    joined.take(node.apply_left(&left.initial()));
    joined.subscribe();

    let batch = right.insert_many(vec![("1".to_string(), true), ("2".to_string(), true)]);
    joined.take(node.apply_right(&batch));

    assert_eq!(joined.seen.len(), 2);
    match joined.seen.last().expect("last diff") {
        MapDiff::Batch { changes } => assert_eq!(changes.len(), 2),
        _ => panic!("expected batch diff from left_semi_join_by"),
    }
}

#[test]
fn left_semi_join_fk_keeps_matched_users() {
    let mut users = Table::<String, User>::new();
    let mut posts = Table::<String, Post>::new();
    let (_, _, mut node) =
        users.query().left_semi_join_fk::<UserPosts, _>(posts.query()).build_into();
    let mut joined = View::new();

    joined.take(node.apply_left(&users.insert("u1".to_string(), user("Alice"))));
    joined.take(node.apply_left(&users.insert("u2".to_string(), user("Bob"))));

    assert_eq!(joined.len(), 0);

    joined.take(node.apply_right(&posts.insert("p1".to_string(), post("u1", "Hello"))));

    assert_eq!(joined.len(), 1);
    assert_eq!(joined.get_value(&"u1".to_string()), Some(user("Alice")));
    assert_eq!(joined.get_value(&"u2".to_string()), None);
}

#[test]
fn left_semi_join_fk_reacts_to_post_removal() {
    let mut users = Table::<String, User>::new();
    let mut posts = Table::<String, Post>::new();
    let (_, _, mut node) =
        users.query().left_semi_join_fk::<UserPosts, _>(posts.query()).build_into();
    let mut joined = View::new();

    joined.take(node.apply_left(&users.insert("u1".to_string(), user("Alice"))));
    joined.take(node.apply_right(&posts.insert("p1".to_string(), post("u1", "Hello"))));
    assert_eq!(joined.len(), 1);

    for diff in posts.remove(&"p1".to_string()) {
        joined.take(node.apply_right(&diff));
    }
    assert_eq!(joined.len(), 0);
}

#[test]
fn a_row_stays_while_one_of_its_matches_is_left() {
    let mut left = Table::<u64, u64>::new();
    let mut right = Table::<u64, u64>::new();
    let (_, _, mut node) =
        left.query().left_semi_join_by(right.query(), |_, g| *g, |_, g| *g).build_into();
    let mut joined = View::new();
    joined.take(node.apply_left(&left.insert(1, 7)));
    joined.take(node.apply_right(&right.insert_many(vec![(10, 7), (11, 7)])));
    assert_eq!(joined.get_value(&1), Some(7));
    let first = right.remove(&10).expect("row");
    assert!(node.apply_right(&first).is_none());
    let second = right.remove(&11).expect("row");
    assert_eq!(
        node.apply_right(&second),
        Some(MapDiff::Batch { changes: vec![MapDiff::Remove { key: 1, old_value: 7 }] })
    );
    assert!(node.get(&1).is_none());
}

#[test]
fn multi_join_empty_keys_produces_empty_right_vec() {
    let mut left = Table::<String, i32>::new();
    let right = Table::<String, i32>::new();
    let (_, _, mut node) = left
        .query()
        .multi_left_join_by(right.query(), |_k, _v| Vec::<String>::new(), |k, _v| k.clone())
        .build_into();
    let mut joined = View::new();

    joined.take(node.apply_left(&left.insert("l1".to_string(), 1)));
    let val = joined.get_value(&"l1".to_string());
    assert_eq!(val, Some((1, vec![])));
}

#[test]
fn multi_join_single_key_matches_like_left_join() {
    let mut left = Table::<String, String>::new();
    let mut right = Table::<String, (String, i32)>::new();
    let (_, _, mut node) = left
        .query()
        .multi_left_join_by(right.query(), |_k, v| vec![v.clone()], |_k, v| v.0.clone())
        .build_into();
    let mut joined = View::new();

    joined.take(node.apply_left(&left.insert("l1".to_string(), "g1".to_string())));
    joined.take(node.apply_right(&right.insert("r1".to_string(), ("g1".to_string(), 10))));

    assert!(matches!(
        joined.get_value(&"l1".to_string()),
        Some((left_val, right_vals))
            if left_val == "g1"
                && right_vals.len() == 1
                && right_vals.first().is_some_and(|right| right.0 == "g1")
    ));
}

#[test]
fn multi_join_multiple_keys_collects_from_all() {
    let mut left = Table::<String, Vec<String>>::new();
    let mut right = Table::<String, (String, i32)>::new();
    let (_, _, mut node) = left
        .query()
        .multi_left_join_by(right.query(), |_k, v| v.clone(), |_k, v| v.0.clone())
        .build_into();
    let mut joined = View::new();

    joined.take(node.apply_left(&left.insert("l1".to_string(), vec!["g1".to_string(), "g2".to_string()])));
    joined.take(node.apply_right(&right.insert("r1".to_string(), ("g1".to_string(), 10))));
    joined.take(node.apply_right(&right.insert("r2".to_string(), ("g2".to_string(), 20))));
    joined.take(node.apply_right(&right.insert("r3".to_string(), ("g3".to_string(), 30))));

    assert!(matches!(
        joined.get_value(&"l1".to_string()),
        Some((_, right_vals)) if right_vals.len() == 2
    ));
}

#[test]
fn multi_join_deduplicates_right_items_across_keys() {
    let mut left = Table::<String, Vec<String>>::new();
    let mut right = Table::<String, (String, i32)>::new();
    let (_, _, mut node) = left
        .query()
        .multi_left_join_by(right.query(), |_k, v| v.clone(), |_k, v| v.0.clone())
        .build_into();
    let mut joined = View::new();

    joined.take(node.apply_left(&left.insert("l1".to_string(), vec!["g1".to_string(), "g1".to_string()])));
    joined.take(node.apply_right(&right.insert("r1".to_string(), ("g1".to_string(), 10))));

    assert!(matches!(
        joined.get_value(&"l1".to_string()),
        Some((_, right_vals)) if right_vals.len() == 1
    ));
}

#[test]
fn multi_join_reacts_to_right_addition() {
    let mut left = Table::<String, Vec<String>>::new();
    let mut right = Table::<String, (String, i32)>::new();
    let (_, _, mut node) = left
        .query()
        .multi_left_join_by(right.query(), |_k, v| v.clone(), |_k, v| v.0.clone())
        .build_into();
    let mut joined = View::new();

    joined.take(node.apply_left(&left.insert("l1".to_string(), vec!["g1".to_string(), "g2".to_string()])));
    assert!(matches!(
        joined.get_value(&"l1".to_string()),
        Some((_, rights)) if rights.is_empty()
    ));

    joined.take(node.apply_right(&right.insert("r1".to_string(), ("g1".to_string(), 10))));
    assert!(matches!(
        joined.get_value(&"l1".to_string()),
        Some((_, rights)) if rights.len() == 1
    ));

    joined.take(node.apply_right(&right.insert("r2".to_string(), ("g2".to_string(), 20))));
    assert!(matches!(
        joined.get_value(&"l1".to_string()),
        Some((_, rights)) if rights.len() == 2
    ));
}

#[test]
fn multi_join_reacts_to_right_removal() {
    let mut left = Table::<String, Vec<String>>::new();
    let mut right = Table::<String, (String, i32)>::new();
    let (_, _, mut node) = left
        .query()
        .multi_left_join_by(right.query(), |_k, v| v.clone(), |_k, v| v.0.clone())
        .build_into();
    let mut joined = View::new();

    joined.take(node.apply_left(&left.insert("l1".to_string(), vec!["g1".to_string()])));
    joined.take(node.apply_right(&right.insert("r1".to_string(), ("g1".to_string(), 10))));
    assert!(matches!(
        joined.get_value(&"l1".to_string()),
        Some((_, rights)) if rights.len() == 1
    ));

    for diff in right.remove(&"r1".to_string()) {
        joined.take(node.apply_right(&diff));
    }
    assert!(matches!(
        joined.get_value(&"l1".to_string()),
        Some((_, rights)) if rights.is_empty()
    ));
}

#[test]
fn multi_join_reacts_to_left_key_change() {
    let mut left = Table::<String, Vec<String>>::new();
    let mut right = Table::<String, (String, i32)>::new();
    let (_, _, mut node) = left
        .query()
        .multi_left_join_by(right.query(), |_k, v| v.clone(), |_k, v| v.0.clone())
        .build_into();
    let mut joined = View::new();

    joined.take(node.apply_right(&right.insert("r1".to_string(), ("g1".to_string(), 10))));
    joined.take(node.apply_right(&right.insert("r2".to_string(), ("g2".to_string(), 20))));

    joined.take(node.apply_left(&left.insert("l1".to_string(), vec!["g1".to_string()])));
    assert!(matches!(
        joined.get_value(&"l1".to_string()),
        Some((_, rights)) if rights.len() == 1
    ));

    joined.take(node.apply_left(&left.insert("l1".to_string(), vec!["g2".to_string()])));
    assert!(matches!(
        joined.get_value(&"l1".to_string()),
        Some((_, rights))
            if rights.len() == 1
                && rights.first().is_some_and(|right| right.0 == "g2")
    ));
}

#[test]
fn multi_join_reacts_to_left_removal() {
    let mut left = Table::<String, Vec<String>>::new();
    let mut right = Table::<String, (String, i32)>::new();
    let (_, _, mut node) = left
        .query()
        .multi_left_join_by(right.query(), |_k, v| v.clone(), |_k, v| v.0.clone())
        .build_into();
    let mut joined = View::new();

    joined.take(node.apply_left(&left.insert("l1".to_string(), vec!["g1".to_string()])));
    joined.take(node.apply_right(&right.insert("r1".to_string(), ("g1".to_string(), 10))));
    assert_eq!(joined.len(), 1);

    for diff in left.remove(&"l1".to_string()) {
        joined.take(node.apply_left(&diff));
    }
    assert_eq!(joined.len(), 0);
}

#[test]
fn multi_join_lists_matches_by_join_key_and_arrival() {
    let mut left = Table::<u64, Vec<u64>>::new();
    let mut right = Table::<u64, u64>::new();
    let (_, _, mut node) =
        left.query().multi_left_join_by(right.query(), |_, v| v.clone(), |_, g| *g).build_into();
    let mut joined = View::new();
    joined.take(node.apply_right(&right.insert_many(vec![(30, 2), (10, 1), (20, 2)])));
    joined.take(node.apply_left(&left.insert(1, vec![2, 1])));
    assert_eq!(joined.get_value(&1), Some((vec![2, 1], vec![2, 2, 1])));
    assert_eq!(node.join.get(&1), Some(&(vec![2, 1], vec![2, 2, 1])));
    assert!(node.apply_right(&right.insert(99, 77)).is_none());
}
