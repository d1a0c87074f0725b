//! The fork-join rules: what to spawn, what to join, and how a run ends.
//!
//! A run goes through its tasks twice, in the order of the plan: first every
//! task is spawned, then every task is joined, also after a join has
//! reported a failure. Only then does the run end, as completed if every task
//! completed and as failed with the first failure otherwise.

use crate::chunk::{is_partition, plan, planned, Chunk};
use crate::error::{ConfigError, JoinFailure, KernelFailure};
use vstd::prelude::*;

verus! {

/// Where a run stands.
#[derive(Clone, Copy, Debug, PartialEq, Eq, Structural)]
pub enum Phase {
    /// Some task has not been spawned yet.
    Spawning,
    /// Every task has been spawned and some task has not been joined yet.
    Joining,
    /// Every task has been joined and none failed.
    Completed,
    /// Every task has been joined and some task failed.
    Failed,
}

/// What the caller has to do next.
#[derive(Clone, Copy, Debug, PartialEq, Eq, Structural)]
pub enum Action {
    /// Spawn the task with this index.
    Spawn(usize),
    /// Join the task with this index.
    Join(usize),
    /// Return to the caller: no task is running any more.
    Return,
}

/// Whether no join in `outcomes` reported a failure.
pub open spec fn all_completed<E>(outcomes: Seq<Option<E>>) -> bool {
    forall|i: int| 0 <= i < outcomes.len() ==> (#[trigger] outcomes[i]) is None
}

/// Whether `failure` is the first failure in `outcomes`.
pub open spec fn is_first_failure<E>(outcomes: Seq<Option<E>>, failure: KernelFailure<E>) -> bool {
    &&& failure.chunk < outcomes.len()
    &&& outcomes[failure.chunk as int] == Some(failure.cause)
    &&& forall|i: int| 0 <= i < failure.chunk ==> (#[trigger] outcomes[i]) is None
}

/// The state of one fork-join run.
pub struct ForkJoin<E> {
    chunks: Vec<Chunk>,
    spawned: usize,
    joined: usize,
    failure: Option<KernelFailure<E>>,
    outcomes: Ghost<Seq<Option<E>>>,
}

impl<E> ForkJoin<E> {
    /// Whether the state is one that a run can be in: what was joined was
    /// spawned, joining starts when everything has been spawned, and the
    /// failure on record is the first one that a join reported.
    pub closed spec fn wf(&self) -> bool {
        &&& self.joined <= self.spawned <= self.chunks@.len()
        &&& self.joined > 0 ==> self.spawned == self.chunks@.len()
        &&& self.outcomes@.len() == self.joined
        &&& self.failure is None <==> all_completed(self.outcomes@)
        &&& self.failure matches Some(f) ==> is_first_failure(self.outcomes@, f)
    }

    /// The plan of the run: one chunk per task, in spawn order.
    pub closed spec fn plan(&self) -> Seq<Chunk> {
        self.chunks@
    }

    /// How many tasks have been spawned.
    pub closed spec fn started(&self) -> nat {
        self.spawned as nat
    }

    /// What the joins so far reported, in spawn order: `None` for a task that
    /// completed, the cause for one that failed.
    pub closed spec fn outcomes(&self) -> Seq<Option<E>> {
        self.outcomes@
    }

    /// Where the run stands.
    pub open spec fn phase(&self) -> Phase {
        if self.started() < self.plan().len() {
            Phase::Spawning
        } else if self.outcomes().len() < self.plan().len() {
            Phase::Joining
        } else if all_completed(self.outcomes()) {
            Phase::Completed
        } else {
            Phase::Failed
        }
    }

    /// Plans a run that maps a source of `src_len` elements into a
    /// destination of `dest_len` elements with `num_threads` threads.
    ///
    /// The two lengths have to agree and there has to be at least one thread.
    pub fn map(src_len: usize, dest_len: usize, num_threads: usize) -> (r: Result<
        Self,
        ConfigError,
    >)
        ensures
            r is Ok <==> src_len == dest_len && num_threads > 0,
            r matches Err(e) ==> e == (if src_len != dest_len {
                ConfigError::LengthMismatch
            } else {
                ConfigError::InvalidConfiguration
            }),
            r matches Ok(run) ==> run.wf(),
            r matches Ok(run) ==> run.plan() == planned(src_len, num_threads),
            r matches Ok(run) ==> is_partition(run.plan(), src_len as int),
            r matches Ok(run) ==> run.started() == 0,
            r matches Ok(run) ==> run.outcomes() == Seq::<Option<E>>::empty(),
    {
        if src_len != dest_len {
            return Err(ConfigError::LengthMismatch);
        }
        Self::in_place(src_len, num_threads)
    }

    /// Plans a run that rewrites a buffer of `len` elements in place with
    /// `num_threads` threads, of which there has to be at least one.
    pub fn in_place(len: usize, num_threads: usize) -> (r: Result<Self, ConfigError>)
        ensures
            r is Ok <==> num_threads > 0,
            r matches Err(e) ==> e == ConfigError::InvalidConfiguration,
            r matches Ok(run) ==> run.wf(),
            r matches Ok(run) ==> run.plan() == planned(len, num_threads),
            r matches Ok(run) ==> is_partition(run.plan(), len as int),
            r matches Ok(run) ==> run.started() == 0,
            r matches Ok(run) ==> run.outcomes() == Seq::<Option<E>>::empty(),
    {
        match plan(len, num_threads) {
            Ok(chunks) => Ok(
                ForkJoin {
                    chunks,
                    spawned: 0,
                    joined: 0,
                    failure: None,
                    outcomes: Ghost(Seq::empty()),
                },
            ),
            Err(e) => Err(e),
        }
    }

    /// The plan of the run.
    pub fn chunks(&self) -> (r: &Vec<Chunk>)
        ensures
            r@ == self.plan(),
    {
        &self.chunks
    }

    /// What is to be done next: spawn the next task while one is left to
    /// spawn, then join the next task while one is left to join, then return.
    pub fn next(&self) -> (r: Action)
        requires
            self.wf(),
        ensures
            r == (match self.phase() {
                Phase::Spawning => Action::Spawn(self.started() as usize),
                Phase::Joining => Action::Join(self.outcomes().len() as usize),
                _ => Action::Return,
            }),
            r is Return <==> self.started() == self.plan().len() && self.outcomes().len()
                == self.plan().len(),
    {
        if self.spawned < self.chunks.len() {
            Action::Spawn(self.spawned)
        } else if self.joined < self.chunks.len() {
            Action::Join(self.joined)
        } else {
            Action::Return
        }
    }

    /// Records that the task that was due has been spawned.
    pub fn spawned(&mut self)
        requires
            old(self).wf(),
            old(self).phase() == Phase::Spawning,
        ensures
            final(self).wf(),
            final(self).plan() == old(self).plan(),
            final(self).started() == old(self).started() + 1,
            final(self).outcomes() == old(self).outcomes(),
    {
        assert(self.spawned < self.chunks.len());
        self.spawned = self.spawned + 1;
    }

    /// Records that the task that was due has been joined, and what the join
    /// reported: `Ok` for a task that completed, the cause for one that failed.
    pub fn joined(&mut self, outcome: Result<(), E>)
        requires
            old(self).wf(),
            old(self).phase() == Phase::Joining,
        ensures
            final(self).wf(),
            final(self).plan() == old(self).plan(),
            final(self).started() == old(self).started(),
            final(self).outcomes() == old(self).outcomes().push(
                match outcome {
                    Ok(_) => None,
                    Err(cause) => Some(cause),
                },
            ),
    {
        let ghost before = self.outcomes@;
        match outcome {
            Ok(_) => {
                proof {
                    self.outcomes@ = before.push(None);
                }
            },
            Err(cause) => {
                proof {
                    self.outcomes@ = before.push(Some(cause));
                }
                if self.failure.is_none() {
                    self.failure = Some(KernelFailure { chunk: self.joined, cause });
                }
            },
        }
        self.joined = self.joined + 1;
        proof {
            let after = self.outcomes@;
            if all_completed(before) && outcome is Err {
                assert(!(after[before.len() as int] is None));
            }
        }
    }

    /// Ends a run of which every task has been joined.
    ///
    /// The run has completed if every task completed; otherwise it has
    /// failed, with the first failure in spawn order.
    pub fn finish(self) -> (r: Result<(), JoinFailure<E>>)
        requires
            self.wf(),
            self.phase() == Phase::Completed || self.phase() == Phase::Failed,
        ensures
            r is Ok <==> all_completed(self.outcomes()),
            r is Ok <==> self.phase() == Phase::Completed,
            r matches Err(e) ==> is_first_failure(self.outcomes(), e.first),
    {
        match self.failure {
            None => Ok(()),
            Some(first) => Err(JoinFailure { first }),
        }
    }
}

/// In every state of a run, what was joined was spawned before, and no task
/// is joined before every task has been spawned.
pub proof fn lemma_join_follows_spawn<E>(run: ForkJoin<E>)
    requires
        run.wf(),
    ensures
        run.outcomes().len() <= run.started() <= run.plan().len(),
        run.outcomes().len() > 0 ==> run.started() == run.plan().len(),
{
}

/// A run over an empty buffer has no task: it stands completed as soon as it
/// is planned, whatever the number of threads.
pub proof fn lemma_empty_run_completed<E>(run: ForkJoin<E>, threads: usize)
    requires
        run.wf(),
        run.plan() == planned(0, threads),
    ensures
        run.plan().len() == 0,
        run.phase() == Phase::Completed,
{
}

/// A failure that a join reported is not lost: the run cannot complete any
/// more, and stands failed once every task has been joined.
pub proof fn lemma_failure_fails_run<E>(run: ForkJoin<E>, i: int)
    requires
        run.wf(),
        0 <= i < run.outcomes().len(),
        run.outcomes()[i] is Some,
    ensures
        run.phase() != Phase::Completed,
        run.outcomes().len() == run.plan().len() ==> run.phase() == Phase::Failed,
{
}

} // verus!
