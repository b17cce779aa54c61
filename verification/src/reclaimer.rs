//! Reclaim tasks, their way to the runners, and the runners that carry them out.

use crate::error::Error;
use crate::generic::{spec_reclaim_gives, GenericStore, Reclaim, StoreState};
use crate::region::RegionId;
use vstd::prelude::*;

verus! {

/// The order to reclaim one region.
#[derive(Debug, Clone, Copy, PartialEq, Eq, Structural)]
pub struct ReclaimTask {
    pub region_id: RegionId,
}

/// The way to one runner: a queue that holds one task, and behind it the
/// tasks whose senders wait for room in the queue.
#[derive(Debug)]
struct Lane {
    tasks: Vec<ReclaimTask>,
    stopped: bool,
}

/// What the way to one runner is at one moment.
pub struct LaneState {
    /// The tasks on their way to the runner, the next to be taken first. The
    /// first is in the runner's queue; the others wait for room in it.
    pub tasks: Seq<ReclaimTask>,
    /// Whether the runner has stopped and takes no more tasks.
    pub stopped: bool,
}

/// Hands reclaim tasks to runners in turn.
#[derive(Debug)]
pub struct Reclaimer {
    runners: usize,
    sequence: usize,
    lanes: Vec<Lane>,
}

/// What a reclaimer is at one moment.
pub struct ReclaimerState {
    /// The number of runners that every start adds.
    pub runners: usize,
    /// The number of tasks that were handed over so far, modulo the size of `usize`.
    pub sequence: usize,
    /// The way to every runner that was started.
    pub lanes: Seq<LaneState>,
}

impl ReclaimerState {
    /// The runner whose turn it is.
    pub open spec fn submittee(self) -> int {
        self.sequence as int % self.lanes.len() as int
    }

    /// The sequence after one more task was handed over.
    pub open spec fn next_sequence(self) -> usize {
        if self.sequence == usize::MAX {
            0
        } else {
            (self.sequence + 1) as usize
        }
    }

    /// The state after `task` was handed to the runner whose turn it is, and
    /// the turn has moved on.
    pub open spec fn handed(self, task: ReclaimTask) -> ReclaimerState {
        let at = self.submittee();
        ReclaimerState {
            sequence: self.next_sequence(),
            lanes: self.lanes.update(
                at,
                LaneState { tasks: self.lanes[at].tasks.push(task), ..self.lanes[at] },
            ),
            ..self
        }
    }

    /// The state after the runner `runner` has taken its next task.
    pub open spec fn taken(self, runner: int) -> ReclaimerState {
        ReclaimerState {
            lanes: self.lanes.update(
                runner,
                LaneState { tasks: self.lanes[runner].tasks.remove(0), ..self.lanes[runner] },
            ),
            ..self
        }
    }

    /// The task that the runner `runner` takes next, if one is on its way.
    pub open spec fn next_task(self, runner: int) -> Option<ReclaimTask> {
        if 0 <= runner < self.lanes.len() && self.lanes[runner].tasks.len() > 0 {
            Some(self.lanes[runner].tasks[0])
        } else {
            None
        }
    }
}

impl View for Reclaimer {
    type V = ReclaimerState;

    closed spec fn view(&self) -> ReclaimerState {
        ReclaimerState {
            runners: self.runners,
            sequence: self.sequence,
            lanes: Seq::new(
                self.lanes@.len(),
                |i: int| LaneState { tasks: self.lanes@[i].tasks@, stopped: self.lanes@[i].stopped },
            ),
        }
    }
}

impl Reclaimer {
    /// A reclaimer for `runners` runners, none of them running yet.
    pub fn new(runners: usize) -> (reclaimer: Self)
        ensures
            reclaimer@ == (ReclaimerState { runners, sequence: 0, lanes: Seq::empty() }),
    {
        let reclaimer = Reclaimer { runners, sequence: 0, lanes: Vec::new() };
        assert(reclaimer@.lanes =~= Seq::empty());
        reclaimer
    }

    /// Starts the runners: each gets an empty queue, behind the queues of the
    /// runners that were started before.
    pub fn run(&mut self)
        ensures
            final(self)@ == (ReclaimerState {
                lanes: old(self)@.lanes + Seq::new(
                    old(self)@.runners as nat,
                    |i: int| LaneState { tasks: Seq::empty(), stopped: false },
                ),
                ..old(self)@
            }),
    {
        let ghost before = self@.lanes;
        let mut i: usize = 0;
        while i < self.runners
            invariant
                i <= self.runners,
                self.runners == old(self).runners,
                self.sequence == old(self).sequence,
                self@.lanes == before + Seq::new(
                    i as nat,
                    |j: int| LaneState { tasks: Seq::empty(), stopped: false },
                ),
            decreases self.runners - i,
        {
            let ghost lanes = self@.lanes;
            self.lanes.push(Lane { tasks: Vec::new(), stopped: false });
            i += 1;
            proof {
                assert(self@.lanes =~= lanes.push(
                    LaneState { tasks: Seq::empty(), stopped: false },
                ));
                assert(self@.lanes =~= before + Seq::new(
                    i as nat,
                    |j: int| LaneState { tasks: Seq::empty(), stopped: false },
                ));
            }
        }
    }

    pub fn runners(&self) -> (runners: usize)
        ensures
            runners == self@.runners,
    {
        self.runners
    }

    /// Hands `task` to the runner whose turn it is, and moves the turn on. The
    /// task is taken when the runner has taken those that are on their way to
    /// it already: where its queue is full, the task waits for room. Nothing
    /// changes, and the turn stays, where no runner was started or the runner
    /// whose turn it is has stopped.
    pub fn submit(&mut self, task: ReclaimTask) -> (r: Result<usize, Error>)
        ensures
            r == if old(self)@.lanes.len() == 0 || old(self)@.lanes[old(
                self,
            )@.submittee()].stopped {
                Err::<usize, Error>(Error::ChannelClosed)
            } else {
                Ok::<usize, Error>(old(self)@.submittee() as usize)
            },
            final(self)@ == if r is Ok {
                old(self)@.handed(task)
            } else {
                old(self)@
            },
    {
        if self.lanes.len() == 0 {
            return Err(Error::ChannelClosed);
        }
        let submittee = self.sequence % self.lanes.len();
        if self.lanes[submittee].stopped {
            return Err(Error::ChannelClosed);
        }
        self.hand(submittee, task);
        Ok(submittee)
    }

    /// Hands `task` to the runner whose turn it is, if there is room in its
    /// queue: only then is the task taken on and the turn moved on. A queue
    /// that holds a task is full.
    pub fn try_submit(&mut self, task: ReclaimTask) -> (r: Result<usize, Error>)
        ensures
            r == if old(self)@.lanes.len() == 0 || old(self)@.lanes[old(
                self,
            )@.submittee()].stopped {
                Err::<usize, Error>(Error::ChannelClosed)
            } else if old(self)@.lanes[old(self)@.submittee()].tasks.len() > 0 {
                Err::<usize, Error>(Error::ChannelFull)
            } else {
                Ok::<usize, Error>(old(self)@.submittee() as usize)
            },
            final(self)@ == if r is Ok {
                old(self)@.handed(task)
            } else {
                old(self)@
            },
    {
        if self.lanes.len() == 0 {
            return Err(Error::ChannelClosed);
        }
        let submittee = self.sequence % self.lanes.len();
        if self.lanes[submittee].stopped {
            return Err(Error::ChannelClosed);
        }
        if self.lanes[submittee].tasks.len() > 0 {
            return Err(Error::ChannelFull);
        }
        self.hand(submittee, task);
        Ok(submittee)
    }

    fn hand(&mut self, submittee: usize, task: ReclaimTask)
        requires
            old(self)@.lanes.len() > 0,
            submittee == old(self)@.submittee(),
        ensures
            final(self)@ == old(self)@.handed(task),
    {
        self.sequence = if self.sequence == usize::MAX {
            0
        } else {
            self.sequence + 1
        };
        self.lanes[submittee].tasks.push(task);
        proof {
            assert(self@.lanes =~= old(self)@.handed(task).lanes);
        }
    }

    /// The task that the runner `runner` takes next, if one is on its way.
    pub fn next_task(&self, runner: usize) -> (task: Option<ReclaimTask>)
        ensures
            task == self@.next_task(runner as int),
    {
        if runner < self.lanes.len() && self.lanes[runner].tasks.len() > 0 {
            Some(self.lanes[runner].tasks[0])
        } else {
            None
        }
    }

    /// Takes the next task on its way to `runner`.
    pub fn take(&mut self, runner: usize) -> (task: Option<ReclaimTask>)
        ensures
            task == old(self)@.next_task(runner as int),
            final(self)@ == if task is Some {
                old(self)@.taken(runner as int)
            } else {
                old(self)@
            },
    {
        if runner < self.lanes.len() && self.lanes[runner].tasks.len() > 0 {
            let task = self.lanes[runner].tasks.remove(0);
            proof {
                assert(self@.lanes =~= old(self)@.taken(runner as int).lanes);
            }
            Some(task)
        } else {
            None
        }
    }

    /// Records that the runner `runner` has stopped: the tasks on their way
    /// to it are lost, and it is handed no more.
    pub fn stop(&mut self, runner: usize)
        ensures
            final(self)@ == if runner < old(self)@.lanes.len() {
                ReclaimerState {
                    lanes: old(self)@.lanes.update(
                        runner as int,
                        LaneState { tasks: Seq::empty(), stopped: true },
                    ),
                    ..old(self)@
                }
            } else {
                old(self)@
            },
    {
        if runner < self.lanes.len() {
            self.lanes.set(runner, Lane { tasks: Vec::new(), stopped: true });
            proof {
                assert(self@.lanes =~= old(self)@.lanes.update(
                    runner as int,
                    LaneState { tasks: Seq::empty(), stopped: true },
                ));
            }
        }
    }
}

/// One of the runners that carry reclaim tasks out.
#[derive(Debug, Clone, Copy, PartialEq, Eq, Structural)]
pub struct Runner {
    /// The number of the runner among those that the reclaimer started.
    pub runner: usize,
}

impl Runner {
    /// Carries out the next task on its way to this runner, if there is one.
    /// The region is reclaimed only when it is sealed and nobody uses it: then
    /// it moves on to its next version, its entries leave the catalog, it
    /// joins the queue of clean regions, and the task is done with. While the
    /// region cannot be reclaimed nothing changes, and the task stays first
    /// in line.
    pub fn run(&self, reclaimer: &mut Reclaimer, store: &mut GenericStore) -> (r: Option<Reclaim>)
        requires
            old(store).wf(),
        ensures
            final(store).wf(),
            match old(reclaimer)@.next_task(self.runner as int) {
                None => {
                    &&& r is None
                    &&& final(store)@ == old(store)@
                    &&& final(reclaimer)@ == old(reclaimer)@
                },
                Some(task) => {
                    &&& r is Some
                    &&& spec_reclaim_gives(old(store)@, task.region_id, r->Some_0)
                    &&& final(store)@ == Self::spec_run(old(store)@, task)
                    &&& final(reclaimer)@ == if old(store)@.can_reclaim(task.region_id) {
                        old(reclaimer)@.taken(self.runner as int)
                    } else {
                        old(reclaimer)@
                    }
                },
            },
    {
        let task = match reclaimer.next_task(self.runner) {
            Some(task) => task,
            None => return None,
        };
        let done = store.reclaim(&task);
        if let Reclaim::Done { .. } = &done {
            reclaimer.take(self.runner);
        }
        Some(done)
    }

    /// The store after a runner has dealt with `task`: the region reclaimed
    /// where it can be, and nothing changed where it cannot.
    pub open spec fn spec_run(store: StoreState, task: ReclaimTask) -> StoreState {
        if store.can_reclaim(task.region_id) {
            store.reclaimed(task.region_id)
        } else {
            store
        }
    }
}

} // verus!
