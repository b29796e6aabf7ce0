//! The slot map that holds the tasks, and what is taken on trust of it.
//!
//! The `slotmap` crate is not verified. Each function here makes one call
//! into it and carries a contract that was read off its source; the rest of
//! the library is proved against these contracts.

use vstd::prelude::*;
use slotmap::{DefaultKey, SlotMap};
use crate::widgets::Task;

verus! {

/// `slotmap::DefaultKey`: a key, carried about as it is. Nothing is claimed
/// of what it holds.
#[verifier::external_type_specification]
#[verifier::external_body]
pub struct ExDefaultKey(DefaultKey);

/// The tasks by key: a `SlotMap<DefaultKey, Task>`, seen only through the
/// functions of this file.
#[verifier::external_body]
pub struct TaskMap {
    inner: SlotMap<DefaultKey, Task>,
}

/// The key of a task: it stays the same while the task lives, whatever row
/// the task moves to, and finds nothing once the task has been removed.
pub type TaskEntity = DefaultKey;

/// The live entries of a slot map: each key that `get` finds, with its value.
pub uninterp spec fn entries(m: TaskMap) -> Map<DefaultKey, Task>;

/// The largest number of entries that a slot map has held at one time. The
/// map keeps a slot for each of them: a removed entry leaves its slot behind
/// for the next insertion, and no slot is ever given back.
pub uninterp spec fn peak(m: TaskMap) -> nat;

/// The number of slots at which `insert` panics if none of them is free.
pub const MAX_SLOTS: u32 = 0xffff_fffe;

/// `SlotMap::with_key`: a map with no entry, which has never held one.
#[verifier::external_body]
pub(crate) fn empty_map() -> (fresh: TaskMap)
    ensures
        forall|k: DefaultKey| !entries(fresh).dom().contains(k),
        peak(fresh) == 0,
{
    TaskMap { inner: SlotMap::with_key() }
}

/// `SlotMap::len`: the number of live entries.
#[verifier::external_body]
pub(crate) fn count(m: &TaskMap) -> (len: usize)
    ensures
        len == entries(*m).dom().len(),
{
    m.inner.len()
}

/// `SlotMap::get`: the value under a live key, nothing for any other key.
#[verifier::external_body]
pub(crate) fn lookup(m: &TaskMap, key: DefaultKey) -> (r: Option<&Task>)
    ensures
        match r {
            Some(task) => entries(*m).dom().contains(key) && *task == entries(*m)[key],
            None => !entries(*m).dom().contains(key),
        },
{
    m.inner.get(key)
}

/// `SlotMap::get_mut`: as `get`, and what the caller writes through the
/// reference is the new value under that key; nothing else changes.
#[verifier::external_body]
pub(crate) fn lookup_mut(m: &mut TaskMap, key: DefaultKey) -> (r: Option<&mut Task>)
    ensures
        peak(*final(m)) == peak(*old(m)),
        match r {
            Some(task) => {
                &&& entries(*old(m)).dom().contains(key)
                &&& *task == entries(*old(m))[key]
                &&& entries(*final(m)) == entries(*old(m)).insert(key, *final(task))
            },
            None => {
                &&& !entries(*old(m)).dom().contains(key)
                &&& entries(*final(m)) == entries(*old(m))
            },
        },
{
    m.inner.get_mut(key)
}

/// `SlotMap::insert`: stores the value under a key that was not live, and
/// returns that key. It takes a free slot where there is one and adds a slot
/// otherwise, which it cannot do, and panics, once there are 2^32 - 2.
#[verifier::external_body]
pub(crate) fn store(m: &mut TaskMap, task: Task) -> (key: DefaultKey)
    requires
        peak(*old(m)) < MAX_SLOTS,
    ensures
        !entries(*old(m)).dom().contains(key),
        entries(*final(m)) == entries(*old(m)).insert(key, task),
        peak(*final(m)) == if entries(*old(m)).dom().len() < peak(*old(m)) {
            peak(*old(m))
        } else {
            peak(*old(m)) + 1
        },
{
    m.inner.insert(task)
}

/// `SlotMap::remove`: takes the entry under a live key out and returns its
/// value; for any other key it changes nothing. No slot is given back.
#[verifier::external_body]
pub(crate) fn take(m: &mut TaskMap, key: DefaultKey) -> (r: Option<Task>)
    ensures
        peak(*final(m)) == peak(*old(m)),
        entries(*final(m)) == entries(*old(m)).remove(key),
        r == if entries(*old(m)).dom().contains(key) {
            Some(entries(*old(m))[key])
        } else {
            None
        },
{
    m.inner.remove(key)
}

/// `SlotMap::keys`, collected: every live key once, in the order in which the
/// map walks its slots, of which nothing is claimed.
#[verifier::external_body]
pub(crate) fn live_keys(m: &TaskMap) -> (keys: Vec<DefaultKey>)
    ensures
        keys@.no_duplicates(),
        forall|k: DefaultKey| keys@.contains(k) <==> entries(*m).dom().contains(k),
        keys@.len() == entries(*m).dom().len(),
{
    m.inner.keys().collect()
}

} // verus!
