//! The storage of a join that can be promoted to shards, and what a join hands to its followers.
use vstd::prelude::*;

use crate::diff::{steps_of, MapDiff};
use crate::value::CellValue;

verus! {

/// The state of a join: one runtime, or one for each shard.
pub enum RuntimeStorage<Serial, Sharded> {
    Serial(Serial),
    Sharded { runtime: Sharded, parallel_active: bool },
}

impl<Serial, Sharded> RuntimeStorage<Serial, Sharded> {
    pub fn is_serial(&self) -> (serial: bool)
        ensures
            serial == (self is Serial),
    {
        match self {
            RuntimeStorage::Serial(_) => true,
            RuntimeStorage::Sharded { .. } => false,
        }
    }

    /// The runtime of a storage that has not been promoted.
    pub fn serial_mut(&mut self) -> (runtime: &mut Serial)
        requires
            *old(self) is Serial,
        ensures
            *runtime == (*old(self))->Serial_0,
            *final(self) == RuntimeStorage::<Serial, Sharded>::Serial(*final(runtime)),
    {
        match self {
            RuntimeStorage::Serial(runtime) => runtime,
            RuntimeStorage::Sharded { .. } => vstd::pervasive::unreached(),
        }
    }

    /// The runtime of a storage that has been promoted, and whether it computes in parallel.
    pub fn sharded_mut(&mut self) -> (state: (&mut Sharded, &mut bool))
        requires
            *old(self) is Sharded,
        ensures
            *state.0 == (*old(self))->runtime,
            *state.1 == (*old(self))->parallel_active,
            *final(self) == (RuntimeStorage::<Serial, Sharded>::Sharded {
                runtime: *final(state.0),
                parallel_active: *final(state.1),
            }),
    {
        match self {
            RuntimeStorage::Sharded { runtime, parallel_active } => (runtime, parallel_active),
            RuntimeStorage::Serial(_) => vstd::pervasive::unreached(),
        }
    }

    /// Replaces one runtime by what is built from it, and tells whether it did. A storage that has
    /// been promoted stays as it is.
    pub fn promote_with<F: FnOnce(&Serial) -> Sharded>(&mut self, build: F) -> (promoted: bool)
        requires
            *old(self) matches RuntimeStorage::Serial(serial) ==> call_requires(build, (&serial,)),
        ensures
            promoted == (*old(self) is Serial),
            !promoted ==> *final(self) == *old(self),
            promoted ==> (*final(self) is Sharded && !(*final(self))->parallel_active && call_ensures(
                build,
                (&(*old(self))->Serial_0,),
                (*final(self))->runtime,
            )),
    {
        let runtime = match self {
            RuntimeStorage::Serial(serial) => build(serial),
            RuntimeStorage::Sharded { .. } => {
                return false;
            },
        };
        *self = RuntimeStorage::Sharded { runtime, parallel_active: false };
        true
    }
}

/// Changes that a join hands to its followers.
pub trait PublishChanges<K: CellValue, Output: CellValue>: Sized {
    /// The changes that are handed over.
    spec fn changes(&self) -> Seq<MapDiff<K, Output>>;

    /// The diffs that the followers get, one after the other.
    fn publish(self) -> (diffs: Vec<MapDiff<K, Output>>)
        ensures
            steps_of(diffs@) == steps_of(self.changes()),
    ;
}

impl<K: CellValue, Output: CellValue> PublishChanges<K, Output> for Vec<MapDiff<K, Output>> {
    open spec fn changes(&self) -> Seq<MapDiff<K, Output>> {
        self@
    }

    fn publish(self) -> (diffs: Vec<MapDiff<K, Output>>)
        ensures
            diffs@ == self@,
    {
        self
    }
}

/// Changes that go out as one batch, or not at all where there are none.
pub struct BatchedChanges<K, Output>(pub Vec<MapDiff<K, Output>>);

impl<K: CellValue, Output: CellValue> PublishChanges<K, Output> for BatchedChanges<K, Output> {
    open spec fn changes(&self) -> Seq<MapDiff<K, Output>> {
        self.0@
    }

    fn publish(self) -> (diffs: Vec<MapDiff<K, Output>>)
        ensures
            self.0@.len() == 0 ==> diffs@.len() == 0,
            self.0@.len() > 0 ==> diffs@ == seq![MapDiff::Batch { changes: self.0 }],
    {
        let mut diffs: Vec<MapDiff<K, Output>> = Vec::new();
        if self.0.len() > 0 {
            let ghost changes = self.0;
            proof {
                crate::diff::steps_of_push(diffs@, MapDiff::Batch { changes });
                assert(steps_of(diffs@) + steps_of(changes@) =~= steps_of(changes@));
            }
            diffs.push(MapDiff::Batch { changes: self.0 });
            assert(diffs@ =~= seq![MapDiff::Batch { changes }]);
        }
        diffs
    }
}

/// The state of a join that stops for good at its first failure.
pub struct FailStopState<State> {
    kernel: State,
    poisoned: bool,
}

impl<State> FailStopState<State> {
    pub closed spec fn kernel(&self) -> State {
        self.kernel
    }

    pub closed spec fn poisoned(&self) -> bool {
        self.poisoned
    }

    pub fn wrap(state: State) -> (stored: FailStopState<State>)
        ensures
            stored.kernel() == state,
            !stored.poisoned(),
    {
        FailStopState { kernel: state, poisoned: false }
    }

    /// The state to work on, or `None` once the join has failed.
    pub fn enter(&mut self) -> (kernel: Option<&mut State>)
        ensures
            final(self).poisoned() == old(self).poisoned(),
            kernel is None == old(self).poisoned(),
            kernel is None ==> *final(self) == *old(self),
            kernel is Some ==> *kernel->Some_0 == old(self).kernel() && final(self).kernel()
                == *final(kernel->Some_0),
    {
        if self.poisoned {
            None
        } else {
            Some(&mut self.kernel)
        }
    }

    /// Notes that working on the state has failed.
    pub fn poison(&mut self)
        ensures
            final(self).poisoned(),
            final(self).kernel() == old(self).kernel(),
    {
        self.poisoned = true;
    }
}

/// In which order the sources of a join are followed.
#[derive(Clone, Copy, Debug, PartialEq, Eq)]
pub enum RootRegistrationOrder {
    LeftThenRights,
    RightsThenLeft,
}

} // verus!
