//! Projections, filters and groupings, driven through their plans.
use std::collections::HashMap;
use std::marker::PhantomData;

use hyphae::diff::MapDiff;
use hyphae::count_by::CountByExt;
use hyphae::group_by::GroupByExt;
use hyphae::map_runtime::{flatten_diff, OutputCollision};
use hyphae::map_values::MapValuesExt;
use hyphae::project::MapEntriesExt;
use hyphae::project_many::{FlatMapEntriesExt, ProjectManyExt};
use hyphae::query::{ByMapKey, ExactlyOne, MapQuery, PlanProperties};
use hyphae::select::SelectExt;
use hyphae::stateless_runtime::{filter_map_diff, map_diff};
use hyphae::value::{CellValue, MapKey};

/// A source of rows: says how its rows change.
struct Table<K, V> {
    rows: HashMap<K, V>,
}

/// The plan of a source of rows.
struct Root<K, V>(PhantomData<(K, V)>);

impl<K, V> PlanProperties for Root<K, V> {
    type Cardinality = ExactlyOne;
    type InputPartition = ByMapKey<K>;
    type OutputPartition = ByMapKey<K>;
}

impl<K: MapKey, V: CellValue> MapQuery for Root<K, V> {
    type Key = K;
    type Value = V;

    fn raw_source(&self) -> bool {
        true
    }

    fn is_raw_source(&self) -> bool {
        true
    }
}

#[allow(dead_code)]
impl<K: MapKey, V: CellValue> Table<K, V> {
    fn new() -> Self {
        Table { rows: HashMap::new() }
    }

    fn query(&self) -> Root<K, V> {
        Root(PhantomData)
    }

    fn insert(&mut self, key: K, value: V) -> MapDiff<K, V> {
        match self.rows.insert(key.clone_value(), value.clone_value()) {
            Some(old_value) => MapDiff::Update { key, old_value, new_value: value },
            None => MapDiff::Insert { key, value },
        }
    }

    fn insert_many(&mut self, entries: Vec<(K, V)>) -> MapDiff<K, V> {
        let changes = entries.into_iter().map(|(key, value)| self.insert(key, value)).collect();
        MapDiff::Batch { changes }
    }

    fn remove(&mut self, key: &K) -> Option<MapDiff<K, V>> {
        self.rows
            .remove(key)
            .map(|old_value| MapDiff::Remove { key: key.clone_value(), old_value })
    }

    fn initial(&self) -> MapDiff<K, V> {
        let entries = self
            .rows
            .iter()
            .map(|(key, value)| (key.clone_value(), value.clone_value()))
            .collect();
        MapDiff::Initial { entries }
    }
}

/// The rows that diffs lead to, and the diffs.
struct View<K, V> {
    rows: HashMap<K, V>,
    seen: Vec<MapDiff<K, V>>,
}

#[allow(dead_code)]
impl<K: MapKey, V: CellValue> View<K, V> {
    fn new() -> Self {
        View { rows: HashMap::new(), seen: Vec::new() }
    }

    /// Forgets the diffs seen so far, and sees the rows that are there.
    fn subscribe(&mut self) {
        let entries = self
            .rows
            .iter()
            .map(|(key, value)| (key.clone_value(), value.clone_value()))
            .collect();
        self.seen = vec![MapDiff::Initial { entries }];
    }

    fn take<D: IntoIterator<Item = MapDiff<K, V>>>(&mut self, diffs: D) {
        for diff in diffs {
            self.follow(&diff);
            self.seen.push(diff);
        }
    }

    fn follow(&mut self, diff: &MapDiff<K, V>) {
        match diff {
            MapDiff::Initial { entries } => {
                self.rows.clear();
                for (key, value) in entries {
                    self.rows.insert(key.clone_value(), value.clone_value());
                }
            }
            MapDiff::Insert { key, value } => {
                assert!(self.rows.insert(key.clone_value(), value.clone_value()).is_none());
            }
            MapDiff::Remove { key, old_value } => {
                assert!(self.rows.remove(key).is_some_and(|row| row.equals(old_value)));
            }
            MapDiff::Update { key, old_value, new_value } => {
                let row = self.rows.insert(key.clone_value(), new_value.clone_value());
                assert!(row.is_some_and(|row| row.equals(old_value)));
            }
            MapDiff::Batch { changes } => {
                for change in changes {
                    self.follow(change);
                }
            }
        }
    }

    fn get_value(&self, key: &K) -> Option<V> {
        self.rows.get(key).map(|value| value.clone_value())
    }

    fn contains_key(&self, key: &K) -> bool {
        self.rows.contains_key(key)
    }

    fn len(&self) -> usize {
        self.rows.len()
    }
}

#[test]
fn count_by_preserves_upstream_batch_without_extra_emissions() {
    let mut source = Table::<String, i32>::new();
    let (_, mut node) = source.query().count_by(|_, v| v.to_string()).build_into();
    let mut counts = View::new();
    counts.subscribe();

    let batch = source.insert_many(vec![("a".to_string(), 1), ("b".to_string(), 2)]);
    counts.take(node.apply(&batch));
    assert_eq!(counts.seen.len(), 2);
    assert!(matches!(
        counts.seen.last(),
        Some(MapDiff::Batch { changes }) if changes.len() == 2
    ));
}

#[test]
fn count_by_follows_rows_between_groups() {
    let mut source = Table::<u64, u64>::new();
    let (_, mut node) = source.query().count_by(|_, v| *v % 2).build_into();
    let mut counts = View::<u64, usize>::new();
    for key in 0..5 {
        counts.take(node.apply(&source.insert(key, key)));
    }
    assert_eq!(counts.get_value(&0), Some(3));
    assert_eq!(counts.get_value(&1), Some(2));
    counts.take(node.apply(&source.insert(0, 7)));
    assert_eq!(counts.get_value(&0), Some(2));
    assert_eq!(counts.get_value(&1), Some(3));
    for key in [2, 4] {
        for diff in source.remove(&key) {
            counts.take(node.apply(&diff));
        }
    }
    assert_eq!(counts.get_value(&0), None);
    assert_eq!(node.state.get(&1), Some(3));
    counts.take(node.apply(&MapDiff::Initial { entries: vec![(9, 8)] }));
    assert_eq!(counts.get_value(&0), Some(1));
    assert_eq!(counts.get_value(&1), None);
}

#[test]
fn the_counts_of_all_groups_add_up_to_the_number_of_rows() {
    let mut source = Table::<u64, u64>::new();
    let (_, mut node) = source.query().count_by(|_, v| *v % 7).build_into();
    let mut counts = View::<u64, usize>::new();
    for key in 0..40 {
        counts.take(node.apply(&source.insert(key * 3 % 25, key * key)));
        if key % 4 == 0 {
            for diff in source.remove(&(key % 9)) {
                counts.take(node.apply(&diff));
            }
        }
        assert_eq!(counts.rows.values().sum::<usize>(), source.rows.len());
    }
}

#[test]
fn group_by_preserves_upstream_batch_without_extra_emissions() {
    let mut source = Table::<String, i32>::new();
    let (_, mut node) = source.query().group_by(|_, v| v.to_string()).build_into();
    let mut grouped = View::new();
    grouped.subscribe();

    let batch = source.insert_many(vec![("a".to_string(), 1), ("b".to_string(), 2)]);
    grouped.take(node.apply(&batch));
    assert_eq!(grouped.seen.len(), 2);
    match grouped.seen.last().unwrap() {
        MapDiff::Batch { changes } => assert_eq!(changes.len(), 2),
        _ => panic!("expected batch diff from group_by"),
    }
}

#[test]
fn group_by_lists_values_in_the_order_of_their_keys() {
    let mut source = Table::<String, u64>::new();
    let (_, mut node) = source.query().group_by(|_, v| *v / 10).build_into();
    let mut grouped = View::<u64, Vec<u64>>::new();
    for (key, value) in [("m", 11), ("b", 12), ("z", 13), ("a", 25), ("B", 14)] {
        grouped.take(node.apply(&source.insert(key.to_string(), value)));
    }
    assert_eq!(grouped.get_value(&1), Some(vec![14, 12, 11, 13]));
    assert_eq!(grouped.get_value(&2), Some(vec![25]));
    grouped.take(node.apply(&source.insert("a".to_string(), 19)));
    assert_eq!(grouped.get_value(&1), Some(vec![14, 19, 12, 11, 13]));
    assert_eq!(grouped.get_value(&2), None);
    grouped.take(node.apply(&source.insert("b".to_string(), 18)));
    assert_eq!(node.state.get(&1), Some(vec![14, 19, 18, 11, 13]));
    for diff in source.remove(&"m".to_string()) {
        grouped.take(node.apply(&diff));
    }
    assert_eq!(grouped.get_value(&1), Some(vec![14, 19, 18, 13]));
}

#[test]
fn key_preserving_projections_track_membership_and_values() {
    let mut source = Table::<u64, u64>::new();
    source.insert(1, 5);
    source.insert(2, 10);

    let (_, node) = source
        .query()
        .filter_map_values(|_key, value| if *value >= 10 { Some(value * 2) } else { None })
        .map_values(|_key, value| value + 1)
        .build_into();
    let mut output = View::<u64, u64>::new();
    output.take(node.apply(&source.initial()));

    assert_eq!(output.get_value(&1), None);
    assert_eq!(output.get_value(&2), Some(21));

    output.take(node.apply(&source.insert(1, 12)));
    output.take(node.apply(&source.insert(2, 3)));
    assert_eq!(output.get_value(&1), Some(25));
    assert_eq!(output.get_value(&2), None);
}

#[test]
fn projections_in_one_plan_give_what_plans_in_a_row_give() {
    let mut source = Table::<u64, u64>::new();
    let (_, fused) = source
        .query()
        .map_values(|k, v| k + v)
        .map_values(|_, v| v * 3)
        .filter_map_values(|_, v| if v % 2 == 0 { Some(*v) } else { None })
        .select(|v| *v > 6)
        .select_by(|k, v| *k != 4 || *v != 30)
        .filter_map_values(|_, v| if *v < 100 { Some(v + 1) } else { None })
        .build_into();
    let (_, first) = source.query().map_values(|k, v| k + v).build_into();
    let (_, second) = source.query().map_values(|_, v| v * 3).build_into();
    let (_, third) =
        source.query().map_values(|_, v| *v).select(|v| v % 2 == 0 && *v > 6).build_into();
    let (_, fourth) =
        source.query().map_values(|_, v| *v).select_by(|k, v| *k != 4 || *v != 30).build_into();
    let (_, fifth) = source
        .query()
        .filter_map_values(|_, v| if *v < 100 { Some(v + 1) } else { None })
        .build_into();
    let mut one = View::<u64, u64>::new();
    let mut many = View::<u64, u64>::new();
    for step in 0..40 {
        let diff = source.insert(step % 7, step * step % 43);
        one.take(fused.apply(&diff));
        let emitted = first
            .apply(&diff)
            .and_then(|diff: MapDiff<u64, u64>| second.apply(&diff))
            .and_then(|diff: MapDiff<u64, u64>| third.apply(&diff))
            .and_then(|diff: MapDiff<u64, u64>| fourth.apply(&diff))
            .and_then(|diff: MapDiff<u64, u64>| fifth.apply(&diff));
        many.take(emitted);
        assert_eq!(one.rows, many.rows);
    }
}

#[test]
fn filter_map_update_crosses_membership_boundary() {
    let f = |_key: &u64, value: &u64| if *value >= 10 { Some(*value) } else { None };
    let entering = filter_map_diff(
        &MapDiff::Update {
            key: 1,
            old_value: 5,
            new_value: 10,
        },
        &f,
    );
    assert_eq!(entering, Some(MapDiff::Insert { key: 1, value: 10 }));

    let leaving = filter_map_diff(
        &MapDiff::Update {
            key: 1,
            old_value: 10,
            new_value: 5,
        },
        &f,
    );
    assert_eq!(
        leaving,
        Some(MapDiff::Remove {
            key: 1,
            old_value: 10
        })
    );
}

#[test]
fn mapped_diffs_keep_their_shape() {
    let f = |_: &u64, value: &u64| value * 2;
    let batch = MapDiff::Batch {
        changes: vec![
            MapDiff::Insert { key: 1, value: 5 },
            MapDiff::Update { key: 2, old_value: 3, new_value: 4 },
        ],
    };
    assert_eq!(
        map_diff(&batch, &f),
        Some(MapDiff::Batch {
            changes: vec![
                MapDiff::Insert { key: 1, value: 10 },
                MapDiff::Update { key: 2, old_value: 6, new_value: 8 },
            ],
        })
    );
    let halved = |_: &u64, value: &u64| value / 2;
    assert_eq!(
        map_diff(&MapDiff::Update { key: 2, old_value: 4, new_value: 5 }, &halved),
        None
    );
    let none = |_: &u64, _: &u64| -> Option<u64> { None };
    assert_eq!(filter_map_diff(&batch, &none), None);
    let mut flat = Vec::new();
    flatten_diff(&MapDiff::Batch { changes: vec![batch] }, &mut flat);
    assert_eq!(flat.len(), 2);
}

#[test]
fn flattening_keeps_what_a_list_holds() {
    let earlier = MapDiff::Batch { changes: vec![MapDiff::Insert { key: 9_u64, value: 9_u64 }] };
    let mut out = vec![earlier];
    flatten_diff(&MapDiff::Batch { changes: Vec::new() }, &mut out);
    assert_eq!(out.len(), 1);
    flatten_diff(
        &MapDiff::Batch {
            changes: vec![
                MapDiff::Batch {
                    changes: vec![MapDiff::Initial { entries: vec![(1, 1)] }],
                },
                MapDiff::Remove { key: 1, old_value: 1 },
            ],
        },
        &mut out,
    );
    assert_eq!(
        out,
        vec![
            MapDiff::Batch { changes: vec![MapDiff::Insert { key: 9, value: 9 }] },
            MapDiff::Initial { entries: vec![(1, 1)] },
            MapDiff::Remove { key: 1, old_value: 1 },
        ]
    );
}

#[test]
fn mapping_keeps_batches_nested_as_they_are() {
    let nested = MapDiff::Batch {
        changes: vec![
            MapDiff::Batch {
                changes: vec![
                    MapDiff::Update { key: 1_u64, old_value: 4_u64, new_value: 5 },
                    MapDiff::Batch { changes: Vec::new() },
                ],
            },
            MapDiff::Batch {
                changes: vec![MapDiff::Batch {
                    changes: vec![MapDiff::Insert { key: 2, value: 6 }],
                }],
            },
            MapDiff::Remove { key: 3, old_value: 8 },
        ],
    };
    let expected = Some(MapDiff::Batch {
        changes: vec![
            MapDiff::Batch {
                changes: vec![MapDiff::Batch {
                    changes: vec![MapDiff::Insert { key: 2, value: 3_u64 }],
                }],
            },
            MapDiff::Remove { key: 3, old_value: 4 },
        ],
    });
    let halved = |_: &u64, value: &u64| value / 2;
    let kept = |_: &u64, value: &u64| Some(value / 2);
    assert_eq!(map_diff(&nested, &halved), expected);
    assert_eq!(filter_map_diff(&nested, &kept), expected);
}

#[test]
fn project_handles_projection_disappearance_without_extra_rows() {
    let mut source = Table::<String, i32>::new();
    let (_, mut node) = source
        .query()
        .filter_map_entries(|key, value| {
            if *value > 0 {
                Some((format!("p:{key}"), value * 10))
            } else {
                None
            }
        })
        .build_into();
    let mut projected = View::new();

    projected.take(node.apply(&source.insert("a".to_string(), 1)).unwrap());
    assert_eq!(projected.get_value(&"p:a".to_string()), Some(10));
    projected.take(node.apply(&source.insert("a".to_string(), -1)).unwrap());
    assert_eq!(projected.get_value(&"p:a".to_string()), None);
}

#[test]
fn semantic_entry_projections_rekey_and_filter() {
    let mut source = Table::<String, i32>::new();
    let (_, mut map_node) = source
        .query()
        .map_entries(|key, value| (format!("mapped:{key}"), value * 2))
        .build_into();
    let (_, mut filter_node) = source
        .query()
        .filter_map_entries(|key, value| {
            if *value > 0 {
                Some((format!("positive:{key}"), value * 3))
            } else {
                None
            }
        })
        .build_into();
    let mut mapped = View::new();
    let mut filtered = View::new();

    let diff = source.insert("a".to_string(), 2);
    mapped.take(map_node.apply(&diff).unwrap());
    filtered.take(filter_node.apply(&diff).unwrap());
    assert_eq!(mapped.get_value(&"mapped:a".to_string()), Some(4));
    assert_eq!(filtered.get_value(&"positive:a".to_string()), Some(6));

    let diff = source.insert("a".to_string(), -1);
    mapped.take(map_node.apply(&diff).unwrap());
    filtered.take(filter_node.apply(&diff).unwrap());
    assert_eq!(mapped.get_value(&"mapped:a".to_string()), Some(-2));
    assert_eq!(filtered.get_value(&"positive:a".to_string()), None);
}

#[test]
fn map_entries_rejects_duplicate_output_keys() {
    let mut source = Table::<u64, u64>::new();
    source.insert_many(vec![(1, 10), (2, 20)]);

    let (_, mut node) = source.query().map_entries(|_, value| (0_u64, *value)).build_into();
    let result = node.apply(&source.initial());

    assert!(result.is_err());
    assert_eq!(result, Err(OutputCollision::AcrossSourceRows));
    assert!(node.get(&0).is_none());
}

#[test]
fn map_entries_allows_atomic_output_key_swaps() {
    let mut source = Table::<u64, u64>::new();
    source.insert_many(vec![(1, 2), (2, 1)]);
    let (_, mut node) = source.query().map_entries(|_, value| (*value, *value)).build_into();
    let mut output = View::new();
    output.take(node.apply(&source.initial()).unwrap());

    output.take(node.apply(&source.insert_many(vec![(1, 1), (2, 2)])).unwrap());

    assert_eq!(output.get_value(&1), Some(1));
    assert_eq!(output.get_value(&2), Some(2));
}

#[test]
fn each_collision_is_told_apart_and_changes_no_output() {
    let mut source = Table::<u64, Vec<u64>>::new();
    let (_, mut node) = source
        .query()
        .project_many(|key, keys: &Vec<u64>| keys.iter().map(|k| (*k, *key)).collect::<Vec<_>>())
        .build_into();
    let mut output = View::new();
    output.take(node.apply(&source.insert(1, vec![10, 11])).unwrap());
    assert_eq!(
        node.apply(&source.insert(2, vec![20, 20])),
        Err(OutputCollision::WithinSourceRow)
    );
    assert_eq!(
        node.apply(&source.insert(3, vec![10])),
        Err(OutputCollision::ExistingSourceRow)
    );
    assert_eq!(
        node.apply(&source.insert_many(vec![(4, vec![40]), (5, vec![40])])),
        Err(OutputCollision::AcrossSourceRows)
    );
    assert_eq!(node.get(&10), Some(&1));
    assert_eq!(node.get(&20), None);
    assert_eq!(node.get(&40), None);
    output.take(node.apply(&source.insert(1, vec![11, 12])).unwrap());
    assert_eq!(output.get_value(&10), None);
    assert_eq!(output.get_value(&12), Some(1));
}

#[test]
fn what_goes_is_told_before_what_comes() {
    let mut source = Table::<u64, Vec<(u64, u64)>>::new();
    let (_, mut node) = source
        .query()
        .project_many(|_, rows: &Vec<(u64, u64)>| rows.clone())
        .build_into();
    let mut output = View::new();
    let batch = source.insert_many(vec![(1, vec![(10, 0), (11, 1)]), (2, vec![(20, 2), (21, 3)])]);
    output.take(node.apply(&batch).unwrap());
    let batch = source.insert_many(vec![
        (1, vec![(20, 4), (11, 1), (12, 5)]),
        (2, vec![(21, 6), (10, 7)]),
    ]);
    let told = node.apply(&batch).unwrap();
    let changes = match &told {
        Some(MapDiff::Batch { changes }) => changes,
        _ => panic!("one batch is told"),
    };
    assert_eq!(
        changes,
        &vec![
            MapDiff::Remove { key: 10, old_value: 0 },
            MapDiff::Remove { key: 20, old_value: 2 },
            MapDiff::Insert { key: 20, value: 4 },
            MapDiff::Insert { key: 12, value: 5 },
            MapDiff::Update { key: 21, old_value: 3, new_value: 6 },
            MapDiff::Insert { key: 10, value: 7 },
        ]
    );
    output.take(told);
    for (key, value) in [(20, 4), (11, 1), (12, 5), (21, 6), (10, 7)] {
        assert_eq!(output.get_value(&key), Some(value));
    }
    assert_eq!(output.rows.len(), 5);
}

#[test]
fn project_many_emits_multiple_rows_per_source() {
    let mut source = Table::<String, i32>::new();
    let (_, mut node) = source
        .query()
        .project_many(|key, value| {
            if *value <= 0 {
                return Vec::new();
            }
            vec![(format!("a:{key}"), value * 10), (format!("b:{key}"), value * 100)]
        })
        .build_into();
    let mut out = View::new();

    out.take(node.apply(&source.insert("x".to_string(), 2)).unwrap());
    assert_eq!(out.get_value(&"a:x".to_string()), Some(20));
    assert_eq!(out.get_value(&"b:x".to_string()), Some(200));

    out.take(node.apply(&source.insert("x".to_string(), 0)).unwrap());
    assert_eq!(out.get_value(&"a:x".to_string()), None);
    assert_eq!(out.get_value(&"b:x".to_string()), None);
}

#[test]
fn flat_map_entries_scopes_local_keys_by_source() {
    let mut source = Table::<String, i32>::new();
    let (_, mut node) =
        source.query().flat_map_entries(|_key, value| vec![("same", value * 10)]).build_into();
    let mut out = View::new();

    out.take(node.apply(&source.insert("a".to_string(), 1)).unwrap());
    out.take(node.apply(&source.insert("b".to_string(), 2)).unwrap());

    assert_eq!(out.get_value(&("a".to_string(), "same")), Some(10));
    assert_eq!(out.get_value(&("b".to_string(), "same")), Some(20));
}

#[test]
fn select_filters_and_updates() {
    let mut map = Table::<String, i32>::new();
    map.insert("a".to_string(), 5);
    map.insert("b".to_string(), 15);
    map.insert("c".to_string(), 25);

    let (_, mut node) = map.query().select(|v| *v > 10).build_into();
    let mut filtered = View::new();
    filtered.take(node.apply(&map.initial()).unwrap());
    assert_eq!(filtered.len(), 2);
    assert!(filtered.contains_key(&"b".to_string()));
    assert!(filtered.contains_key(&"c".to_string()));
    assert!(!filtered.contains_key(&"a".to_string()));

    filtered.take(node.apply(&map.insert("a".to_string(), 30)).unwrap());
    assert!(filtered.contains_key(&"a".to_string()));
    filtered.take(node.apply(&map.insert("b".to_string(), 1)).unwrap());
    assert!(!filtered.contains_key(&"b".to_string()));
}

#[test]
fn select_batch_resilience_and_no_extra_side_emissions() {
    let mut map = Table::<String, i32>::new();
    let (_, mut node) = map.query().select(|v| *v > 10).build_into();
    let mut filtered = View::new();
    filtered.subscribe();

    let batch = map.insert_many(vec![("a".to_string(), 15), ("b".to_string(), 20)]);
    filtered.take(node.apply(&batch).unwrap());

    assert_eq!(filtered.seen.len(), 2);
    match filtered.seen.last().unwrap() {
        MapDiff::Batch { changes } => assert_eq!(changes.len(), 2),
        _ => panic!("expected batch diff from select"),
    }

    let before = filtered.len();
    let batch = map.insert_many(vec![("x".to_string(), 1), ("y".to_string(), 2)]);
    filtered.take(node.apply(&batch).unwrap());
    let after = filtered.len();
    assert_eq!(before, after);
}

#[test]
fn select_entries_observable() {
    let mut map = Table::<String, i32>::new();
    let (_, mut node) = map.query().select(|v| *v > 10).build_into();
    let mut filtered = View::new();
    filtered.subscribe();

    assert_eq!(filtered.seen.len(), 1);
    filtered.take(node.apply(&map.insert("a".to_string(), 15)).unwrap());
    assert_eq!(filtered.seen.len(), 2);
    filtered.take(node.apply(&map.insert("b".to_string(), 5)).unwrap());
    assert_eq!(filtered.seen.len(), 2);
}
