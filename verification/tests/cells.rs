//! Rows whose values come from cells, driven through their plans.
use std::collections::HashMap;
use std::marker::PhantomData;

use hyphae::diff::MapDiff;
use hyphae::map_values_cell::install_map_values_cell_via_query;
use hyphae::project_cell::ProjectCellExt;
use hyphae::query::{ByMapKey, ExactlyOne, MapQuery, PlanProperties};
use hyphae::select_cell::{flagged_row, SelectCellExt};
use hyphae::value::{CellValue, MapKey};

/// A source of rows: says how its rows change.
struct Table<K, V> {
    rows: HashMap<K, V>,
}

/// The plan of a source of rows.
struct Root<K, V>(PhantomData<(K, V)>);

impl<K, V> PlanProperties for Root<K, V> {
    type Cardinality = ExactlyOne;
    type InputPartition = ByMapKey<K>;
    type OutputPartition = ByMapKey<K>;
}

impl<K: MapKey, V: CellValue> MapQuery for Root<K, V> {
    type Key = K;
    type Value = V;

    fn raw_source(&self) -> bool {
        true
    }

    fn is_raw_source(&self) -> bool {
        true
    }
}

#[allow(dead_code)]
impl<K: MapKey, V: CellValue> Table<K, V> {
    fn new() -> Self {
        Table { rows: HashMap::new() }
    }

    fn query(&self) -> Root<K, V> {
        Root(PhantomData)
    }

    fn insert(&mut self, key: K, value: V) -> MapDiff<K, V> {
        match self.rows.insert(key.clone_value(), value.clone_value()) {
            Some(old_value) => MapDiff::Update { key, old_value, new_value: value },
            None => MapDiff::Insert { key, value },
        }
    }

    fn insert_many(&mut self, entries: Vec<(K, V)>) -> MapDiff<K, V> {
        let changes = entries.into_iter().map(|(key, value)| self.insert(key, value)).collect();
        MapDiff::Batch { changes }
    }

    fn remove(&mut self, key: &K) -> Option<MapDiff<K, V>> {
        self.rows
            .remove(key)
            .map(|old_value| MapDiff::Remove { key: key.clone_value(), old_value })
    }

    fn initial(&self) -> MapDiff<K, V> {
        let entries = self
            .rows
            .iter()
            .map(|(key, value)| (key.clone_value(), value.clone_value()))
            .collect();
        MapDiff::Initial { entries }
    }
}

/// The rows that diffs lead to, and the diffs.
struct View<K, V> {
    rows: HashMap<K, V>,
    seen: Vec<MapDiff<K, V>>,
}

#[allow(dead_code)]
impl<K: MapKey, V: CellValue> View<K, V> {
    fn new() -> Self {
        View { rows: HashMap::new(), seen: Vec::new() }
    }

    /// Forgets the diffs seen so far, and sees the rows that are there.
    fn subscribe(&mut self) {
        let entries = self
            .rows
            .iter()
            .map(|(key, value)| (key.clone_value(), value.clone_value()))
            .collect();
        self.seen = vec![MapDiff::Initial { entries }];
    }

    fn take<D: IntoIterator<Item = MapDiff<K, V>>>(&mut self, diffs: D) {
        for diff in diffs {
            self.follow(&diff);
            self.seen.push(diff);
        }
    }

    fn follow(&mut self, diff: &MapDiff<K, V>) {
        match diff {
            MapDiff::Initial { entries } => {
                self.rows.clear();
                for (key, value) in entries {
                    self.rows.insert(key.clone_value(), value.clone_value());
                }
            }
            MapDiff::Insert { key, value } => {
                assert!(self.rows.insert(key.clone_value(), value.clone_value()).is_none());
            }
            MapDiff::Remove { key, old_value } => {
                assert!(self.rows.remove(key).is_some_and(|row| row.equals(old_value)));
            }
            MapDiff::Update { key, old_value, new_value } => {
                let row = self.rows.insert(key.clone_value(), new_value.clone_value());
                assert!(row.is_some_and(|row| row.equals(old_value)));
            }
            MapDiff::Batch { changes } => {
                for change in changes {
                    self.follow(change);
                }
            }
        }
    }

    fn get_value(&self, key: &K) -> Option<V> {
        self.rows.get(key).map(|value| value.clone_value())
    }

    fn contains_key(&self, key: &K) -> bool {
        self.rows.contains_key(key)
    }

    fn len(&self) -> usize {
        self.rows.len()
    }
}

/// A diff of rows as a diff of what their cells say.
fn read<K: MapKey, V: CellValue, U: CellValue, F: Fn(&K, &V) -> U>(
    diff: &MapDiff<K, V>,
    cell: &F,
) -> MapDiff<K, U> {
    match diff {
        MapDiff::Initial { entries } => MapDiff::Initial {
            entries: entries.iter().map(|(k, v)| (k.clone_value(), cell(k, v))).collect(),
        },
        MapDiff::Insert { key, value } => {
            MapDiff::Insert { key: key.clone_value(), value: cell(key, value) }
        }
        MapDiff::Remove { key, old_value } => {
            MapDiff::Remove { key: key.clone_value(), old_value: cell(key, old_value) }
        }
        MapDiff::Update { key, old_value, new_value } => MapDiff::Update {
            key: key.clone_value(),
            old_value: cell(key, old_value),
            new_value: cell(key, new_value),
        },
        MapDiff::Batch { changes } => {
            MapDiff::Batch { changes: changes.iter().map(|change| read(change, cell)).collect() }
        }
    }
}

#[test]
fn map_values_cell_reacts_per_row() {
    let mut values = Table::<String, i32>::new();
    let mut factors = HashMap::<String, i32>::new();
    values.insert("a".to_string(), 10);
    values.insert("b".to_string(), 20);
    factors.insert("a".to_string(), 1);
    factors.insert("b".to_string(), 2);

    let mut runtime = install_map_values_cell_via_query::<String, i32, u8>();
    let mut state = View::new();
    let scaled = |key: &String, value: &i32| value * factors.get(key).copied().unwrap_or(0);
    state.take(runtime.apply(&read(&values.initial(), &scaled)));
    assert!(runtime.hold("a".to_string(), 1).is_none());
    assert!(runtime.hold("b".to_string(), 2).is_none());
    assert_eq!(runtime.held_keys().len(), 2);

    assert_eq!(state.get_value(&"a".to_string()), Some(10));
    assert_eq!(state.get_value(&"b".to_string()), Some(40));
    factors.insert("a".to_string(), 3);
    state.take(runtime.emit("a".to_string(), 10 * factors["a"]));
    assert_eq!(state.get_value(&"a".to_string()), Some(30));
    assert_eq!(runtime.get(&"a".to_string()), Some(&30));
    assert!(runtime.emit("a".to_string(), 30).is_none());
}

#[test]
fn map_values_cell_preserves_upstream_batch_without_extra_emissions() {
    let mut source = Table::<String, i32>::new();
    let mut runtime = install_map_values_cell_via_query::<String, i32, u8>();
    let mut seen = View::new();

    let batch = source.insert_many(vec![("a".to_string(), 1), ("b".to_string(), 2)]);
    seen.take(runtime.apply(&read(&batch, &|_: &String, v: &i32| *v * 10)));
    assert_eq!(seen.seen.len(), 1);
    assert!(matches!(seen.seen.last(), Some(MapDiff::Batch { changes }) if changes.len() == 2));
}

#[test]
fn a_row_that_gets_another_cell_is_told_as_updated() {
    let mut runtime = install_map_values_cell_via_query::<u64, u64, u8>();
    assert_eq!(runtime.attach(1, 5), MapDiff::Insert { key: 1, value: 5 });
    assert!(runtime.hold(1, 7).is_none());
    assert_eq!(runtime.hold(1, 8), Some(7));
    assert_eq!(
        runtime.attach(1, 5),
        MapDiff::Update { key: 1, old_value: 5, new_value: 5 }
    );
    assert_eq!(runtime.release(&1), Some(8));
    assert_eq!(runtime.release(&1), None);
    assert!(runtime.held_keys().is_empty());
    assert_eq!(runtime.detach(&1), Some(MapDiff::Remove { key: 1, old_value: 5 }));
    assert_eq!(runtime.detach(&1), None);
    assert_eq!(runtime.emit(2, 9), Some(MapDiff::Insert { key: 2, value: 9 }));
    assert_eq!(
        runtime.apply(&MapDiff::Initial { entries: vec![(3, 1), (2, 4)] }),
        vec![
            MapDiff::Remove { key: 2, old_value: 9 },
            MapDiff::Insert { key: 3, value: 1 },
            MapDiff::Insert { key: 2, value: 4 },
        ]
    );
}

#[test]
fn project_cell_reacts_to_inner_pipeline_emissions() {
    let mut src = Table::<String, i32>::new();
    let mut weights = HashMap::<String, i32>::new();
    weights.insert("a".to_string(), 2);
    weights.insert("b".to_string(), 3);

    src.insert("a".to_string(), 10);
    src.insert("b".to_string(), 20);

    let (_, weight_of, mut node) = src
        .query()
        .project_cell::<String, i32, String, _>(|key, _| key.clone())
        .build_into::<()>();
    let say = |weights: &HashMap<String, i32>, key: &String, value: &i32| {
        weights.get(&weight_of(key, value)).map(|w| (key.clone(), value * w))
    };
    let mut mat = View::new();
    mat.take(node.apply(&read(&src.initial(), &|k: &String, v: &i32| say(&weights, k, v))));

    assert_eq!(mat.get_value(&"a".to_string()), Some(20));
    assert_eq!(mat.get_value(&"b".to_string()), Some(60));

    // The row changes.
    let diff = src.insert("a".to_string(), 100);
    mat.take(node.apply(&read(&diff, &|k: &String, v: &i32| say(&weights, k, v))));
    assert_eq!(mat.get_value(&"a".to_string()), Some(200));

    // What its cell says changes.
    weights.insert("a".to_string(), 5);
    mat.take(node.emit("a".to_string(), say(&weights, &"a".to_string(), &100)));
    assert_eq!(mat.get_value(&"a".to_string()), Some(500));
}

#[test]
fn project_cell_drops_row_when_inner_emits_none() {
    let mut src = Table::<String, i32>::new();
    src.insert("a".to_string(), 7);

    let (_, _, mut node) = src
        .query()
        .project_cell::<String, i32, (), _>(|_, _| ())
        .build_into::<()>();
    let say = |on: bool| if on { Some(("a".to_string(), 7)) } else { None };
    let mut mat = View::new();
    mat.take(node.apply(&read(&src.initial(), &|_: &String, _: &i32| say(true))));

    assert_eq!(mat.get_value(&"a".to_string()), Some(7));
    mat.take(node.emit("a".to_string(), say(false)));
    assert_eq!(mat.get_value(&"a".to_string()), None);
    mat.take(node.emit("a".to_string(), say(true)));
    assert_eq!(mat.get_value(&"a".to_string()), Some(7));
}

#[test]
fn project_cell_static_inner_cell() {
    let mut src = Table::<String, i32>::new();
    src.insert("a".to_string(), 1);

    let (_, mapper, mut node) = src
        .query()
        .project_cell::<String, i32, _, _>(|key: &String, value: &i32| {
            Some((key.clone(), *value * 10))
        })
        .build_into::<()>();
    let mut mat = View::new();
    mat.take(node.apply(&read(&src.initial(), &mapper)));

    assert_eq!(mat.get_value(&"a".to_string()), Some(10));
    mat.take(node.apply(&read(&src.insert("a".to_string(), 5), &mapper)));
    assert_eq!(mat.get_value(&"a".to_string()), Some(50));
}

#[test]
fn project_cell_remap_changes_output_key() {
    let mut src = Table::<String, i32>::new();
    src.insert("a".to_string(), 1);
    let mut key_choice = "x".to_string();

    let (_, _, mut node) = src
        .query()
        .project_cell::<String, i32, (), _>(|_, _| ())
        .build_into::<()>();
    let mut mat = View::new();
    mat.take(node.apply(&read(&src.initial(), &|_: &String, v: &i32| {
        Some((key_choice.clone(), *v))
    })));

    assert_eq!(mat.get_value(&"x".to_string()), Some(1));
    assert_eq!(mat.get_value(&"y".to_string()), None);

    key_choice = "y".to_string();
    mat.take(node.emit("a".to_string(), Some((key_choice, 1))));
    assert_eq!(mat.get_value(&"x".to_string()), None);
    assert_eq!(mat.get_value(&"y".to_string()), Some(1));
    assert_eq!(
        mat.seen.last(),
        Some(&MapDiff::Batch {
            changes: vec![
                MapDiff::Remove { key: "x".to_string(), old_value: 1 },
                MapDiff::Insert { key: "y".to_string(), value: 1 },
            ],
        })
    );
}

#[test]
fn select_cell_reacts_to_predicate_changes() {
    let mut values = Table::<String, i32>::new();
    values.insert("a".to_string(), 10);
    values.insert("b".to_string(), 20);

    let (_, flag, mut node) =
        values.query().select_cell(|key: &String, _: &i32| key == "b").build_into::<()>();
    let mut filtered = View::new();
    filtered.take(node.apply(&read(&values.initial(), &|k: &String, v: &i32| {
        flagged_row(k, v, flag(k, v))
    })));

    assert_eq!(filtered.len(), 1);
    assert!(!filtered.contains_key(&"a".to_string()));
    assert!(filtered.contains_key(&"b".to_string()));

    filtered.take(node.emit("a".to_string(), flagged_row(&"a".to_string(), &10, true)));
    assert_eq!(filtered.len(), 2);
    filtered.take(node.emit("b".to_string(), flagged_row(&"b".to_string(), &20, false)));
    assert_eq!(filtered.len(), 1);
}

#[test]
fn select_cell_preserves_upstream_batch_without_extra_emissions() {
    let mut source = Table::<String, i32>::new();
    let (_, flag, mut node) = source.query().select_cell(|_, _| true).build_into::<()>();
    let mut out = View::new();
    out.subscribe();

    let batch = source.insert_many(vec![("a".to_string(), 1), ("b".to_string(), 2)]);
    out.take(node.apply(&read(&batch, &|k: &String, v: &i32| flagged_row(k, v, flag(k, v)))));
    assert_eq!(out.seen.len(), 2);
    match out.seen.last().unwrap() {
        MapDiff::Batch { changes } => assert_eq!(changes.len(), 2),
        _ => panic!("expected batch diff from select_cell"),
    }
}
