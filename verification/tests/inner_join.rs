//! Inner joins, driven through their plans.
use std::collections::HashMap;
use std::marker::PhantomData;

use hyphae::diff::MapDiff;
use hyphae::foreign_key::{ForeignKeyRelation, IdFor, IdType};
use hyphae::inner_join::InnerJoinExt;
use hyphae::query::{ByMapKey, ByRelation, ExactlyOne, MapQuery, PlanProperties};
use hyphae::value::{CellValue, MapKey};

/// A source of rows: says how its rows change.
struct Table<K, V> {
    rows: HashMap<K, V>,
}

/// The plan of a source of rows.
struct Root<K, V>(PhantomData<(K, V)>);

impl<K, V> PlanProperties for Root<K, V> {
    type Cardinality = ExactlyOne;
    type InputPartition = ByMapKey<K>;
    type OutputPartition = ByMapKey<K>;
}

impl<K: MapKey, V: CellValue> MapQuery for Root<K, V> {
    type Key = K;
    type Value = V;

    fn raw_source(&self) -> bool {
        true
    }

    fn is_raw_source(&self) -> bool {
        true
    }
}

#[allow(dead_code)]
impl<K: MapKey, V: CellValue> Table<K, V> {
    fn new() -> Self {
        Table { rows: HashMap::new() }
    }

    fn query(&self) -> Root<K, V> {
        Root(PhantomData)
    }

    fn insert(&mut self, key: K, value: V) -> MapDiff<K, V> {
        match self.rows.insert(key.clone_value(), value.clone_value()) {
            Some(old_value) => MapDiff::Update { key, old_value, new_value: value },
            None => MapDiff::Insert { key, value },
        }
    }

    fn insert_many(&mut self, entries: Vec<(K, V)>) -> MapDiff<K, V> {
        let changes = entries.into_iter().map(|(key, value)| self.insert(key, value)).collect();
        MapDiff::Batch { changes }
    }

    fn remove(&mut self, key: &K) -> Option<MapDiff<K, V>> {
        self.rows
            .remove(key)
            .map(|old_value| MapDiff::Remove { key: key.clone_value(), old_value })
    }

    fn initial(&self) -> MapDiff<K, V> {
        let entries = self
            .rows
            .iter()
            .map(|(key, value)| (key.clone_value(), value.clone_value()))
            .collect();
        MapDiff::Initial { entries }
    }
}

/// The rows that diffs lead to, and the diffs.
struct View<K, V> {
    rows: HashMap<K, V>,
    seen: Vec<MapDiff<K, V>>,
}

#[allow(dead_code)]
impl<K: MapKey, V: CellValue> View<K, V> {
    fn new() -> Self {
        View { rows: HashMap::new(), seen: Vec::new() }
    }

    /// Forgets the diffs seen so far, and sees the rows that are there.
    fn subscribe(&mut self) {
        let entries = self
            .rows
            .iter()
            .map(|(key, value)| (key.clone_value(), value.clone_value()))
            .collect();
        self.seen = vec![MapDiff::Initial { entries }];
    }

    fn take<D: IntoIterator<Item = MapDiff<K, V>>>(&mut self, diffs: D) {
        for diff in diffs {
            self.follow(&diff);
            self.seen.push(diff);
        }
    }

    fn follow(&mut self, diff: &MapDiff<K, V>) {
        match diff {
            MapDiff::Initial { entries } => {
                self.rows.clear();
                for (key, value) in entries {
                    self.rows.insert(key.clone_value(), value.clone_value());
                }
            }
            MapDiff::Insert { key, value } => {
                assert!(self.rows.insert(key.clone_value(), value.clone_value()).is_none());
            }
            MapDiff::Remove { key, old_value } => {
                assert!(self.rows.remove(key).is_some_and(|row| row.equals(old_value)));
            }
            MapDiff::Update { key, old_value, new_value } => {
                let row = self.rows.insert(key.clone_value(), new_value.clone_value());
                assert!(row.is_some_and(|row| row.equals(old_value)));
            }
            MapDiff::Batch { changes } => {
                for change in changes {
                    self.follow(change);
                }
            }
        }
    }

    fn get_value(&self, key: &K) -> Option<V> {
        self.rows.get(key).map(|value| value.clone_value())
    }

    fn contains_key(&self, key: &K) -> bool {
        self.rows.contains_key(key)
    }

    fn len(&self) -> usize {
        self.rows.len()
    }
}

#[derive(Debug, Clone, PartialEq, Eq, Hash)]
struct UserId(String);

impl CellValue for UserId {
    type Model = UserId;

    fn model(&self) -> UserId {
        self.clone()
    }

    fn clone_value(&self) -> UserId {
        self.clone()
    }

    fn equals(&self, other: &UserId) -> bool {
        self == other
    }
}

#[derive(Debug, Clone, PartialEq)]
struct User {
    name: String,
}

impl CellValue for User {
    type Model = User;

    fn model(&self) -> User {
        self.clone()
    }

    fn clone_value(&self) -> User {
        self.clone()
    }

    fn equals(&self, other: &User) -> bool {
        self == other
    }
}

impl IdFor<User> for UserId {
    type MapKey = String;

    fn key_for(_: UserId) -> <String as CellValue>::Model {
        unreachable!()
    }

    fn map_key(&self) -> String {
        self.0.clone()
    }
}

impl IdType for UserId {
    type Parent = User;
}

#[derive(Debug, Clone, PartialEq)]
struct Post {
    user_id: UserId,
    title: String,
}

impl CellValue for Post {
    type Model = Post;

    fn model(&self) -> Post {
        self.clone()
    }

    fn clone_value(&self) -> Post {
        self.clone()
    }

    fn equals(&self, other: &Post) -> bool {
        self == other
    }
}

struct UserPosts;

impl ForeignKeyRelation for UserPosts {
    type Parent = User;
    type Child = Post;
    type ForeignKey = UserId;

    fn key_of(post: Post) -> Option<UserId> {
        UserPosts::foreign_key(&post)
    }

    fn foreign_key(post: &Post) -> Option<UserId> {
        if post.user_id.0.is_empty() {
            None
        } else {
            Some(post.user_id.clone())
        }
    }
}

fn user(name: &str) -> User {
    User { name: name.to_string() }
}

fn post(user_id: &str, title: &str) -> Post {
    Post { user_id: UserId(user_id.to_string()), title: title.to_string() }
}

#[derive(Debug, Clone, PartialEq)]
struct OptionalPost {
    user_id: Option<UserId>,
    sequence: usize,
}

impl CellValue for OptionalPost {
    type Model = OptionalPost;

    fn model(&self) -> OptionalPost {
        self.clone()
    }

    fn clone_value(&self) -> OptionalPost {
        self.clone()
    }

    fn equals(&self, other: &OptionalPost) -> bool {
        self == other
    }
}

struct OptionalUserPosts;

impl ForeignKeyRelation for OptionalUserPosts {
    type Parent = User;
    type Child = OptionalPost;
    type ForeignKey = UserId;

    fn key_of(post: OptionalPost) -> Option<UserId> {
        post.user_id
    }

    fn foreign_key(post: &OptionalPost) -> Option<UserId> {
        post.user_id.clone()
    }
}

#[test]
fn inner_join_pairs_on_equal_keys() {
    let mut left = Table::<String, i32>::new();
    let mut right = Table::<String, i32>::new();
    let (_, _, mut node) = left.query().inner_join(right.query()).build_into();
    let mut joined = View::new();

    joined.take(node.apply_left(&left.insert("a".to_string(), 1), None));
    assert_eq!(joined.len(), 0);

    joined.take(node.apply_right(&right.insert("a".to_string(), 10), None));
    assert_eq!(joined.get_value(&"a".to_string()), Some((1, 10)));
    assert_eq!(node.get(&"a".to_string()), Some(&(1, 10)));
}

#[test]
fn inner_join_excludes_unmatched() {
    let mut left = Table::<String, i32>::new();
    let mut right = Table::<String, i32>::new();
    let (_, _, mut node) = left.query().inner_join(right.query()).build_into();
    let mut joined = View::new();

    joined.take(node.apply_left(&left.insert("a".to_string(), 1), None));
    joined.take(node.apply_left(&left.insert("b".to_string(), 2), None));
    joined.take(node.apply_right(&right.insert("a".to_string(), 10), None));

    assert_eq!(joined.len(), 1);
    assert_eq!(joined.get_value(&"a".to_string()), Some((1, 10)));
    assert_eq!(joined.get_value(&"b".to_string()), None);
}

#[test]
fn inner_join_reacts_to_updates() {
    let mut left = Table::<String, i32>::new();
    let mut right = Table::<String, i32>::new();
    let (_, _, mut node) = left.query().inner_join(right.query()).build_into();
    let mut joined = View::new();

    joined.take(node.apply_left(&left.insert("a".to_string(), 1), None));
    joined.take(node.apply_right(&right.insert("a".to_string(), 10), None));
    assert_eq!(joined.get_value(&"a".to_string()), Some((1, 10)));

    joined.take(node.apply_right(&right.insert("a".to_string(), 20), None));
    assert_eq!(joined.get_value(&"a".to_string()), Some((1, 20)));
}

#[test]
fn inner_join_reacts_to_removals() {
    let mut left = Table::<String, i32>::new();
    let mut right = Table::<String, i32>::new();
    let (_, _, mut node) = left.query().inner_join(right.query()).build_into();
    let mut joined = View::new();

    joined.take(node.apply_left(&left.insert("a".to_string(), 1), None));
    joined.take(node.apply_right(&right.insert("a".to_string(), 10), None));
    assert_eq!(joined.len(), 1);

    for diff in right.remove(&"a".to_string()) {
        joined.take(node.apply_right(&diff, None));
    }
    assert_eq!(joined.len(), 0);
}

#[test]
fn inner_join_by_produces_composite_keys() {
    let mut left = Table::<String, (String, i32)>::new();
    let mut right = Table::<String, (String, i32)>::new();
    let (_, _, mut node) = left
        .query()
        .inner_join_by(right.query(), |_, lv| lv.0.clone(), |_, rv| rv.0.clone())
        .build_into();
    let mut joined = View::new();

    joined.take(node.apply_left(&left.insert("l1".to_string(), ("g1".to_string(), 10))));
    joined.take(node.apply_right(&right.insert("r1".to_string(), ("g1".to_string(), 5))));

    let key = ("l1".to_string(), "r1".to_string());
    let val = joined.get_value(&key);
    assert_eq!(val, Some((("g1".to_string(), 10), ("g1".to_string(), 5))));
}

#[test]
fn inner_join_by_handles_one_to_many() {
    let mut left = Table::<String, (String, i32)>::new();
    let mut right = Table::<String, (String, i32)>::new();
    let (_, _, mut node) = left
        .query()
        .inner_join_by(right.query(), |_, lv| lv.0.clone(), |_, rv| rv.0.clone())
        .build_into();
    let mut joined = View::new();

    joined.take(node.apply_left(&left.insert("l1".to_string(), ("g1".to_string(), 10))));
    joined.take(node.apply_right(&right.insert("r1".to_string(), ("g1".to_string(), 5))));
    joined.take(node.apply_right(&right.insert("r2".to_string(), ("g1".to_string(), 7))));

    assert_eq!(joined.len(), 2);
}

#[test]
fn inner_join_by_preserves_right_batch() {
    let mut left = Table::<String, (String, i32)>::new();
    left.insert("l1".to_string(), ("g1".to_string(), 10));

    let mut right = Table::<String, (String, i32)>::new();
    let (_, _, mut node) = left
        .query()
        .inner_join_by(right.query(), |_, lv| lv.0.clone(), |_, rv| rv.0.clone())
        .build_into();
    let mut joined = View::new();
    joined.take(node.apply_left(&left.initial()));
    joined.subscribe();

    joined.take(node.apply_right(&right.insert_many(vec![
        ("r1".to_string(), ("g1".to_string(), 5)),
        ("r2".to_string(), ("g1".to_string(), 7)),
    ])));

    assert_eq!(joined.seen.len(), 2);
    assert!(matches!(
        joined.seen.last(),
        Some(MapDiff::Batch { changes }) if changes.len() == 2
    ));
}

fn assert_relation_partition<P>(_: &P)
where
    P: PlanProperties<OutputPartition = ByRelation<UserPosts>>,
{
}

#[test]
fn inner_join_fk_retains_relationship_partition_identity() {
    let users = Table::<String, User>::new();
    let posts = Table::<String, Post>::new();
    let plan = users.query().inner_join_fk::<UserPosts, _>(posts.query());
    assert_relation_partition(&plan);
}

#[test]
fn inner_join_fk_pairs_on_foreign_key() {
    let mut users = Table::<String, User>::new();
    let mut posts = Table::<String, Post>::new();
    let (_, _, mut node) =
        users.query().inner_join_fk::<UserPosts, _>(posts.query()).build_into();
    let mut joined = View::new();

    joined.take(node.apply_left(&users.insert("u1".to_string(), user("Alice"))));
    joined.take(node.apply_right(&posts.insert("p1".to_string(), post("u1", "Hello"))));

    let key = ("u1".to_string(), "p1".to_string());
    assert_eq!(joined.get_value(&key), Some((user("Alice"), post("u1", "Hello"))));
}

#[test]
fn inner_join_fk_omits_absent_keys_and_handles_key_moves() {
    let mut users = Table::<String, User>::new();
    let mut posts = Table::<String, Post>::new();
    let (_, _, mut node) =
        users.query().inner_join_fk::<UserPosts, _>(posts.query()).build_into();
    let mut joined = View::new();
    for (key, name) in [("u1", "Alice"), ("u2", "Bob")] {
        joined.take(node.apply_left(&users.insert(key.to_string(), user(name))));
    }

    let post_key = "p1".to_string();
    joined.take(node.apply_right(&posts.insert(post_key.clone(), post("", "Orphan"))));
    assert!(joined.rows.is_empty());

    joined.take(node.apply_right(&posts.insert(post_key.clone(), post("u1", "Attached"))));
    assert!(joined.get_value(&("u1".to_string(), post_key.clone())).is_some());

    joined.take(node.apply_right(&posts.insert(post_key.clone(), post("u2", "Moved"))));
    assert!(joined.get_value(&("u1".to_string(), post_key.clone())).is_none());
    assert!(joined.get_value(&("u2".to_string(), post_key.clone())).is_some());

    joined.take(node.apply_right(&posts.insert(post_key, post("", "Detached"))));
    assert!(joined.rows.is_empty());
}

#[test]
fn inner_join_fk_handles_one_to_many() {
    let mut users = Table::<String, User>::new();
    let mut posts = Table::<String, Post>::new();
    let (_, _, mut node) =
        users.query().inner_join_fk::<UserPosts, _>(posts.query()).build_into();
    let mut joined = View::new();

    joined.take(node.apply_left(&users.insert("u1".to_string(), user("Alice"))));
    joined.take(node.apply_right(&posts.insert("p1".to_string(), post("u1", "Hello"))));
    joined.take(node.apply_right(&posts.insert("p2".to_string(), post("u1", "World"))));

    assert_eq!(joined.len(), 2);
}

#[test]
fn inner_join_fk_excludes_unmatched() {
    let mut users = Table::<String, User>::new();
    let mut posts = Table::<String, Post>::new();
    let (_, _, mut node) =
        users.query().inner_join_fk::<UserPosts, _>(posts.query()).build_into();
    let mut joined = View::new();

    joined.take(node.apply_left(&users.insert("u1".to_string(), user("Alice"))));
    joined.take(node.apply_right(&posts.insert("p1".to_string(), post("u2", "Orphan"))));

    assert_eq!(joined.len(), 0);
}

#[test]
fn inner_join_fk_omits_absent_children_and_tracks_some_none_transitions() {
    let mut users = Table::<String, User>::new();
    let mut posts = Table::<String, OptionalPost>::new();
    let (_, _, mut node) =
        users.query().inner_join_fk::<OptionalUserPosts, _>(posts.query()).build_into();
    let mut joined = View::new();
    joined.take(node.apply_left(&users.insert("u1".into(), user("Alice"))));
    let absent = OptionalPost { user_id: None, sequence: 0 };
    joined.take(node.apply_right(&posts.insert("p1".into(), absent.clone())));
    assert!(joined.rows.is_empty());

    let present = OptionalPost { user_id: Some(UserId("u1".into())), sequence: 0 };
    joined.take(node.apply_right(&posts.insert("p1".into(), present)));
    assert!(joined.get_value(&("u1".into(), "p1".into())).is_some());

    joined.take(node.apply_right(&posts.insert("p1".into(), absent)));
    assert!(joined.rows.is_empty());
}

#[test]
fn inner_join_output_is_the_pairs_with_equal_join_keys() {
    let mut left = Table::<u64, u64>::new();
    let mut right = Table::<u64, u64>::new();
    let (_, _, mut node) =
        left.query().inner_join_by(right.query(), |_, g| *g, |_, g| *g).build_into();
    let mut joined = View::new();
    for key in 0..6 {
        joined.take(node.apply_left(&left.insert(key, key % 3)));
        joined.take(node.apply_right(&right.insert(100 + key, key % 2)));
    }
    joined.take(node.apply_left(&left.insert(0, 2)));
    for diff in right.remove(&103) {
        joined.take(node.apply_right(&diff));
    }
    for (lk, lv) in &left.rows {
        for (rk, rv) in &right.rows {
            let expected = if lv == rv { Some((*lv, *rv)) } else { None };
            assert_eq!(joined.get_value(&(*lk, *rk)), expected);
            assert_eq!(node.get(&(*lk, *rk)).copied(), expected);
        }
    }
    let matches = left
        .rows
        .values()
        .map(|lv| right.rows.values().filter(|rv| *rv == lv).count())
        .sum::<usize>();
    assert_eq!(joined.len(), matches);
}

#[test]
fn a_new_beginning_replaces_every_left_row() {
    let left = Table::<u64, u64>::new();
    let mut right = Table::<u64, u64>::new();
    let (_, _, mut node) =
        left.query().inner_join_by(right.query(), |_, g| *g, |_, g| *g).build_into();
    let mut joined = View::new();
    joined.take(node.apply_right(&right.insert(7, 1)));
    joined.take(node.apply_left(&MapDiff::Initial { entries: vec![(1, 1), (2, 1)] }));
    assert_eq!(joined.len(), 2);
    joined.take(node.apply_left(&MapDiff::Initial { entries: vec![(2, 1), (3, 5)] }));
    assert_eq!(joined.len(), 1);
    assert_eq!(joined.get_value(&(2, 7)), Some((1, 1)));
    assert!(node.apply_left(&MapDiff::Batch { changes: Vec::new() }).is_none());
}
