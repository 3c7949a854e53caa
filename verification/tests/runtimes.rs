//! Storage, keys, shards and dependency trees.
use std::hash::{Hash, Hasher};

use rustc_hash::FxHasher;

use hyphae::dep_node::{DepGraph, DepNode};
use hyphae::diff::MapDiff;
use hyphae::foreign_key::{IdFor, JoinKeyFrom, OptionalRightKey, RequiredRightKey, RightJoinKey};
use hyphae::fx::FxState;
use hyphae::join_lifecycle::{BatchedChanges, FailStopState, PublishChanges, RuntimeStorage};
use hyphae::join_region::declaration::{
    collect_matches, map_key, CollectProject, DirectProject, FilterProject, JCons, JNil, JoinStage,
    MapLast, Push, ReplaceLastProject, StageProject, ThenMap,
};
use hyphae::join_runtime::sharded::{query_shard_count, shard_for, shards_for_threads};
use hyphae::ordered_set::OrderedSet;
use hyphae::parallel::WorkerPool;
use hyphae::value::{CellValue, MapKey};

#[test]
fn runtime_storage_promotes_once() {
    let mut storage = RuntimeStorage::Serial(3_u8);

    assert_eq!(*storage.serial_mut(), 3);
    assert!(storage.promote_with(|serial| usize::from(*serial) + 1));
    let (runtime, parallel_active) = storage.sharded_mut();
    assert_eq!(*runtime, 4);
    assert!(!*parallel_active);
    assert!(!storage.promote_with(|_| 99));
    assert_eq!(*storage.sharded_mut().0, 4);
}

#[test]
fn a_join_that_failed_is_entered_no_more() {
    let mut state = FailStopState::wrap(1_usize);
    for value in state.enter() {
        *value = 2;
    }
    assert_eq!(state.enter().copied(), Some(2));
    state.poison();
    assert!(state.enter().is_none());
}

#[test]
fn changes_go_out_as_one_batch() {
    let none = BatchedChanges::<u64, u64>(Vec::new());
    assert!(none.publish().is_empty());
    let one = BatchedChanges(vec![MapDiff::Insert { key: 1_u64, value: 2_u64 }]);
    assert_eq!(
        one.publish(),
        vec![MapDiff::Batch { changes: vec![MapDiff::Insert { key: 1, value: 2 }] }]
    );
    let plain = vec![MapDiff::Insert { key: 1_u64, value: 2_u64 }];
    assert_eq!(plain.publish(), vec![MapDiff::Insert { key: 1_u64, value: 2_u64 }]);
}

#[test]
fn an_ordered_set_keeps_the_order_of_arrival() {
    let mut set = OrderedSet::new();
    for value in [3_u64, 1, 3, 2, 1] {
        set.insert(value);
    }
    assert_eq!(set.iter(), &vec![3, 1, 2]);
    assert!(set.contains(&1));
    set.remove(&1);
    assert!(!set.contains(&1));
    set.insert(1);
    assert_eq!(set.drain(), vec![3, 2, 1]);
    assert!(set.is_empty());
}

#[test]
fn join_keys_are_required_or_optional() {
    let required = RequiredRightKey(|_: &u64, v: &u64| v + 1);
    assert_eq!(required.right_join_key(&1, &2), Some(3));
    assert!(!RightJoinKey::<u64, u64, u64>::is_optional(&required));
    let optional = OptionalRightKey(|_: &u64, v: &u64| if *v > 5 { Some(*v) } else { None });
    assert_eq!(optional.right_join_key(&1, &2), None);
    assert_eq!(optional.right_join_key(&1, &6), Some(6));
    assert!(RightJoinKey::<u64, u64, u64>::is_optional(&optional));
    let plain: u64 = JoinKeyFrom::join_key_from(&4_u64);
    let wrapped: Option<u64> = JoinKeyFrom::join_key_from(&4_u64);
    assert_eq!((plain, wrapped), (4, Some(4)));
}

#[test]
fn shards_are_chosen_by_the_hash_of_the_key() {
    let start = FxState::default();
    for count in 1..9_usize {
        for key in 0..50_u64 {
            let shard = shard_for(&key, &start, count);
            assert!(shard < count);
            assert_eq!(shard, shard_for(&key, &start, count));
        }
    }
    assert_ne!(1_u64.fx_hash(&start), 2_u64.fx_hash(&start));
    assert_ne!((1_u64, 2_u64).fx_hash(&start), (2_u64, 1_u64).fx_hash(&start));
    assert_ne!("a".to_string().fx_hash(&start), "b".to_string().fx_hash(&start));
    assert_eq!((shards_for_threads(0), shards_for_threads(1), shards_for_threads(5)), (1, 1, 5));
    assert_eq!(query_shard_count(None), 1);
    let pool = rayon::ThreadPoolBuilder::new().num_threads(3).build().expect("pool");
    let pool = WorkerPool::new(pool);
    assert_eq!((pool.thread_count(), query_shard_count(Some(&pool))), (3, 3));
}

fn std_code<T: Hash>(value: &T) -> u64 {
    let mut hasher = FxHasher::default();
    value.hash(&mut hasher);
    hasher.finish()
}

#[test]
fn keys_have_the_hash_codes_of_the_fx_hasher() {
    let start = FxState::default();
    for key in [0_u64, 1, 2, 77, u64::MAX, 0x1234_5678_9abc_def0] {
        assert_eq!(key.fx_hash(&start), std_code(&key));
        assert_eq!((key as u32).fx_hash(&start), std_code(&(key as u32)));
        assert_eq!((key as usize).fx_hash(&start), std_code(&(key as usize)));
        assert_eq!((key as i32).fx_hash(&start), std_code(&(key as i32)));
        assert_eq!((key as i64).fx_hash(&start), std_code(&(key as i64)));
        let wide = (u128::from(key) << 64) | 5;
        assert_eq!(wide.fx_hash(&start), std_code(&wide));
        assert_eq!((key, 3_u32).fx_hash(&start), std_code(&(key, 3_u32)));
        assert_eq!(((key, 1_u64), -2_i64).fx_hash(&start), std_code(&((key, 1_u64), -2_i64)));
    }
    for key in [None, Some(0_u64), Some(9)] {
        assert_eq!(key.fx_hash(&start), std_code(&key));
    }
    for key in [false, true] {
        assert_eq!(key.fx_hash(&start), std_code(&key));
    }
    assert_eq!((-1_i32).fx_hash(&start), std_code(&-1_i32));
}

#[test]
fn texts_have_the_hash_codes_of_the_fx_hasher() {
    let start = FxState::default();
    let texts = [
        "",
        "a",
        "ab",
        "ba",
        "abcd",
        "eight by",
        "sixteen bytes ab",
        "a text that is longer than sixteen bytes, and than thirty-two",
        "\u{e9}\u{1f600}",
    ];
    for text in texts {
        assert_eq!(text.to_string().fx_hash(&start), std_code(&text.to_string()));
        assert_eq!(text.fx_hash(&start), std_code(&text));
        for count in 1..9_usize {
            let shard = (std_code(&text) % count as u64) as usize;
            assert_eq!(shard_for(&text.to_string(), &start, count), shard);
        }
        let pair = (text.to_string(), 7_u64);
        assert_eq!(pair.fx_hash(&start), std_code(&pair));
        assert_eq!(Some(text.to_string()).fx_hash(&start), std_code(&Some(text.to_string())));
    }
}

#[test]
fn stage_projections_collect_map_and_filter() {
    let rights = [(1_u64, 10_u64), (2, 20)];
    assert_eq!(collect_matches(&7_u64, &5_u64, &rights), (5, vec![10, 20]));
    assert_eq!(map_key(&7_u64, &5_u64), 7);
    let collect = CollectProject(|key: &u64, row: &(u64, Vec<u64>)| key + row.0 + row.1[1]);
    assert_eq!(collect.project(&7, &5, &rights), Some(32_u64));
    let direct = DirectProject(|_: &u64, input: &u64, rights: &[(u64, u64)]| {
        input + rights.len() as u64
    });
    let mapped: ThenMap<_, _, u64> = ThenMap::new(direct, |key: &u64, value: &u64| key * value);
    assert_eq!(mapped.project(&3, &5, &rights), Some(21_u64));
    let filtered = FilterProject::new(mapped, |_: &u64, value: &u64| *value > 20);
    assert_eq!(filtered.project(&3, &5, &rights), Some(21));
    assert_eq!(filtered.project(&2, &5, &rights), None);
}

#[test]
fn stages_are_appended_and_their_last_projection_changed() {
    let list = JNil.push(1_u8).push("two").push(3_u64);
    assert_eq!((list.head, list.tail.head, list.tail.tail.head), (1, "two", 3));
    let stage = |right: u8| {
        JoinStage::<u8, u64, u64, u64, u64, u64, u64, u8, u8, u8>::new(right, 2, 3, 4)
    };
    let stages = JCons { head: stage(1), tail: JCons { head: stage(9), tail: JNil } };
    let replaced = ReplaceLastProject::<u16, u64>::replace_last_project(stages, 77_u16);
    assert_eq!(replaced.head.project, 4);
    assert_eq!(replaced.tail.head.project.0, 77);
    assert_eq!(replaced.tail.head.right, 9);
    let mapped = MapLast::<u32, u64>::map_last(replaced, 88_u32);
    assert_eq!(mapped.tail.head.project.map, 88);
    assert_eq!(mapped.tail.head.project.project.0, 77);
}

#[test]
fn an_absent_identifier_has_an_absent_key() {
    assert_eq!(<Option<Id> as IdFor<()>>::map_key(&Some(Id(4))), Some(4));
    assert_eq!(<Option<Id> as IdFor<()>>::map_key(&None), None);
}

#[derive(Clone, PartialEq)]
struct Id(u64);

impl CellValue for Id {
    type Model = Id;

    fn model(&self) -> Id {
        self.clone()
    }

    fn clone_value(&self) -> Id {
        self.clone()
    }

    fn equals(&self, other: &Id) -> bool {
        self == other
    }
}

impl IdFor<()> for Id {
    type MapKey = u64;

    fn key_for(id: Id) -> u64 {
        id.0
    }

    fn map_key(&self) -> u64 {
        self.0
    }
}

fn node(id: u128, name: Option<&str>, deps: Vec<usize>) -> DepNode {
    DepNode { id, name: name.map(|name| name.to_string()), deps }
}

#[test]
fn a_dependency_tree_is_drawn_with_its_branches() {
    let graph = DepGraph {
        nodes: vec![
            node(1, Some("root"), vec![1, 2]),
            node(2, Some("left"), vec![3]),
            node(3, Some("right"), vec![]),
            node(4, Some("leaf"), vec![]),
        ],
    };
    assert_eq!(
        graph.dependency_tree(0),
        "root\n├─ left\n│  └─ leaf\n└─ right\n"
    );
    assert_eq!(graph.nodes[0].dependency_count(), 2);
    assert!(graph.nodes[0].has_dependencies());
    assert!(!graph.nodes[3].has_dependencies());
}

#[test]
fn a_node_drawn_before_is_marked() {
    let graph = DepGraph {
        nodes: vec![node(1, Some("a"), vec![1]), node(2, Some("b"), vec![0])],
    };
    assert_eq!(graph.dependency_tree(0), "a\n└─ b\n   └─ a\n      (cycle)\n");
}

#[test]
fn a_nameless_node_is_called_by_its_identifier() {
    let nameless = node(0x0123_4567_89ab_cdef_0011_2233_4455_6677, None, vec![]);
    assert_eq!(nameless.display_name(), "Cell(01234567)");
    let named = node(5, Some("x"), vec![]);
    assert_eq!(named.display_name(), "x");
}
