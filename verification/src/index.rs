//! The task index: task number to location, kept in a `rustc_hash::FxHashMap`.
use crate::task::TaskLocation;
use rustc_hash::FxHashMap;
use vstd::prelude::*;

verus! {

/// The contents of a task index, as a map from task number to location.
pub uninterp spec fn task_index_map(m: TaskIndex) -> Map<u64, TaskLocation>;

/// An `FxHashMap<u64, TaskLocation>`. Its methods below are thin calls of the
/// `HashMap` methods, whose contracts state the map semantics that std documents
/// for `HashMap` (the Fx hasher only changes where entries are stored).
#[verifier::external_body]
pub struct TaskIndex {
    map: FxHashMap<u64, TaskLocation>,
}

impl View for TaskIndex {
    type V = Map<u64, TaskLocation>;

    open spec fn view(&self) -> Map<u64, TaskLocation> {
        task_index_map(*self)
    }
}

impl TaskIndex {
    /// Calls `FxHashMap::default`: an empty map.
    #[verifier::external_body]
    pub(crate) fn new() -> (m: Self)
        ensures
            task_index_map(m).dom() =~= Set::empty(),
    {
        TaskIndex { map: FxHashMap::default() }
    }

    /// Calls `HashMap::get`: the location stored under `key`, if any.
    #[verifier::external_body]
    pub(crate) fn get(&self, key: u64) -> (r: Option<TaskLocation>)
        ensures
            r == (if task_index_map(*self).contains_key(key) {
                Some(task_index_map(*self)[key])
            } else {
                None
            }),
    {
        self.map.get(&key).copied()
    }

    /// Calls `HashMap::insert`: afterwards `key` maps to `value`, the rest unchanged.
    #[verifier::external_body]
    pub(crate) fn insert(&mut self, key: u64, value: TaskLocation)
        ensures
            task_index_map(*final(self)) == task_index_map(*old(self)).insert(key, value),
    {
        self.map.insert(key, value);
    }

    /// Calls `HashMap::remove`: returns what `key` mapped to, and unmaps it.
    #[verifier::external_body]
    pub(crate) fn remove(&mut self, key: u64) -> (r: Option<TaskLocation>)
        ensures
            r == (if task_index_map(*old(self)).contains_key(key) {
                Some(task_index_map(*old(self))[key])
            } else {
                None
            }),
            task_index_map(*final(self)) == task_index_map(*old(self)).remove(key),
    {
        self.map.remove(&key)
    }

    /// Calls `HashMap::len`: the number of keys.
    #[verifier::external_body]
    pub(crate) fn len(&self) -> (n: usize)
        ensures
            n == task_index_map(*self).len(),
    {
        self.map.len()
    }

    /// Calls `HashMap::is_empty`: whether no key is mapped.
    #[verifier::external_body]
    pub(crate) fn is_empty(&self) -> (r: bool)
        ensures
            r == (task_index_map(*self).dom() =~= Set::<u64>::empty()),
    {
        self.map.is_empty()
    }
}

} // verus!
