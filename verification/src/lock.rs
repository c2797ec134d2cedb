//! Ownership bookkeeping for a sleeping mutex: who holds it, and who is waiting, in order.
//! The kernel's `Mutex` blocks and wakes tasks according to what this says.

use crate::sched::TaskId;
use std::collections::VecDeque;
use vstd::prelude::*;

verus! {

#[derive(Debug, PartialEq, Eq, Structural)]
pub enum Acquire {
    /// The task holds the lock now.
    Acquired,
    /// The lock is held; the task was queued and must block until it is handed the lock.
    Queued,
}

#[derive(Debug, PartialEq, Eq, Structural)]
pub enum LockError {
    /// The task already holds the lock; waiting for it would wait forever.
    AlreadyHeld,
    /// Unlocked by a task that doesn't hold it.
    NotOwner,
}

pub struct LockState {
    owner: Option<TaskId>,
    waiters: VecDeque<TaskId>,
}

/// Who holds a lock, and who waits for it, the longest waiter first.
pub struct Holders {
    pub owner: Option<TaskId>,
    pub waiters: Seq<TaskId>,
}

impl Holders {
    /// What locking does, for a task that doesn't hold the lock.
    pub open spec fn locked(self, task: TaskId) -> Holders {
        match self.owner {
            None => Holders { owner: Some(task), waiters: self.waiters },
            Some(_) => Holders { owner: self.owner, waiters: self.waiters.push(task) },
        }
    }

    /// What the holder's unlocking does.
    pub open spec fn unlocked(self) -> Holders {
        if self.waiters.len() == 0 {
            Holders { owner: None, waiters: self.waiters }
        } else {
            Holders { owner: Some(self.waiters[0]), waiters: self.waiters.drop_first() }
        }
    }
}

impl LockState {
    pub closed spec fn view(&self) -> Holders {
        Holders { owner: self.owner, waiters: self.waiters@ }
    }

    pub fn new() -> (r: Self)
        ensures
            r@ == (Holders { owner: None, waiters: Seq::empty() }),
    {
        LockState { owner: None, waiters: VecDeque::new() }
    }

    pub fn owner(&self) -> (r: Option<TaskId>)
        ensures
            r == self@.owner,
    {
        self.owner
    }

    pub fn lock(&mut self, task: TaskId) -> (r: Result<Acquire, LockError>)
        ensures
            old(self)@.owner == Some(task) ==> r == Err::<Acquire, LockError>(
                LockError::AlreadyHeld,
            ) && final(self)@ == old(self)@,
            old(self)@.owner != Some(task) ==> r == Ok::<Acquire, LockError>(
                if old(self)@.owner is None {
                    Acquire::Acquired
                } else {
                    Acquire::Queued
                },
            ) && final(self)@ == old(self)@.locked(task),
    {
        match self.owner {
            None => {
                self.owner = Some(task);
                Ok(Acquire::Acquired)
            },
            Some(owner) => {
                if owner == task {
                    Err(LockError::AlreadyHeld)
                } else {
                    self.waiters.push_back(task);
                    Ok(Acquire::Queued)
                }
            },
        }
    }

    /// Releases the lock, handing it straight to the longest waiter, which is returned so it
    /// can be woken. Handing over (rather than letting everyone race for it) means a task
    /// that keeps relocking can't starve the others.
    pub fn unlock(&mut self, task: TaskId) -> (r: Result<Option<TaskId>, LockError>)
        ensures
            old(self)@.owner != Some(task) ==> r == Err::<Option<TaskId>, LockError>(
                LockError::NotOwner,
            ) && final(self)@ == old(self)@,
            old(self)@.owner == Some(task) ==> r == Ok::<Option<TaskId>, LockError>(
                final(self)@.owner,
            ) && final(self)@ == old(self)@.unlocked(),
    {
        if self.owner != Some(task) {
            return Err(LockError::NotOwner);
        }
        self.owner = self.waiters.pop_front();
        assert(self@.waiters =~= old(self)@.unlocked().waiters);
        Ok(self.owner)
    }
}

/// What happens to a lock, one step at a time.
pub enum Step {
    /// A task that doesn't hold the lock asks for it.
    Lock(TaskId),
    /// The holder releases it.
    Unlock,
}

/// What comes of a sequence of steps.
pub open spec fn after(state: Holders, steps: Seq<Step>) -> Holders
    decreases steps.len(),
{
    if steps.len() == 0 {
        state
    } else {
        let before = after(state, steps.drop_last());
        match steps.last() {
            Step::Lock(task) => before.locked(task),
            Step::Unlock => before.unlocked(),
        }
    }
}

/// How often the lock is released in a sequence of steps.
pub open spec fn releases(steps: Seq<Step>) -> nat
    decreases steps.len(),
{
    if steps.len() == 0 {
        0
    } else {
        releases(steps.drop_last()) + if steps.last() is Unlock {
            1nat
        } else {
            0nat
        }
    }
}

/// A waiter is handed the lock once those ahead of it have had it, whatever other tasks ask
/// for the lock meanwhile: arrivals never get ahead of it.
pub proof fn waiters_are_served_in_order(state: Holders, steps: Seq<Step>, place: int)
    requires
        state.owner is Some,
        0 <= place < state.waiters.len(),
        releases(steps) <= place + 1,
    ensures
        after(state, steps).owner is Some,
        releases(steps) <= place ==> {
            &&& place - releases(steps) < after(state, steps).waiters.len()
            &&& after(state, steps).waiters[place - releases(steps)] == state.waiters[place]
        },
        releases(steps) == place + 1 && steps.last() is Unlock ==> after(state, steps).owner
            == Some(state.waiters[place]),
    decreases steps.len(),
{
    if steps.len() > 0 {
        waiters_are_served_in_order(state, steps.drop_last(), place);
    }
}

/// A free lock goes to the task that asks for it, and is free again once it is released and nobody
/// waits. A task that asks for a held lock waits behind all others, and the holder keeps it.
pub proof fn locks_go_to_who_asks(state: Holders, task: TaskId)
    ensures
        state.owner is None ==> state.locked(task).owner == Some(task) && state.locked(task).waiters
            == state.waiters,
        state.owner is Some ==> state.locked(task).owner == state.owner && state.locked(task).waiters
            == state.waiters + seq![task],
        state.waiters.len() == 0 ==> state.unlocked().owner is None
            && state.unlocked().waiters.len() == 0,
        state.waiters.len() > 0 ==> seq![state.unlocked().owner->0] + state.unlocked().waiters
            == state.waiters && state.unlocked().owner is Some,
{
    assert(state.waiters.push(task) =~= state.waiters + seq![task]);
    if state.waiters.len() > 0 {
        assert(seq![state.waiters[0]] + state.waiters.drop_first() =~= state.waiters);
    }
}

} // verus!
