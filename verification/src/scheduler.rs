//! Scheduling: which task may run next.
//!
//! The scheduler owns one state per task of a plan. It never runs anything
//! itself: [`Scheduler::next`] says what to do now, and
//! [`Scheduler::finish`] takes the news that a launched task has ended. A
//! task is launched once every dependency has succeeded; where one has
//! failed, the task fails with that failure and is never launched. Where
//! a build command cannot be started at all, the run is over:
//! [`Scheduler::launch_failed`] takes that news, and nothing is launched
//! after it.

use crate::plan::{ids_view, Plan, PlanModel};
use vstd::prelude::*;

verus! {

/// Why a task failed: the task whose own build failed, and its exit code.
#[derive(Clone, Copy, PartialEq, Eq, Debug, Structural)]
pub struct Failure {
    /// The place of the task whose build command failed.
    pub task: usize,
    /// The exit code of that command.
    pub code: i32,
}

/// Where a task stands.
#[derive(Clone, Copy, PartialEq, Eq, Debug, Structural)]
pub enum TaskState {
    /// Waiting for its dependencies.
    Pending,
    /// Launched and not yet ended.
    Running,
    /// Ended well.
    Succeeded,
    /// Failed, itself or through a dependency.
    Failed(Failure),
}

/// What the caller is to do next.
#[derive(Clone, Copy, PartialEq, Eq, Debug, Structural)]
pub enum Action {
    /// Run the build command of the task at this place.
    Launch(usize),
    /// Run nothing for the task at this place: a dependency failed, and so has it.
    Skip(usize),
    /// Nothing can start before a running task ends.
    Wait,
    /// Nothing runs and nothing can start.
    Finished,
}

/// The state is final: the task has succeeded or failed.
pub open spec fn settled(state: TaskState) -> bool {
    state is Succeeded || state is Failed
}

/// What a [`Scheduler`] stands for.
pub struct SchedulerModel {
    /// The plan that is carried out.
    pub plan: PlanModel,
    /// The state of each task of the plan.
    pub states: Seq<TaskState>,
    /// The first build failure that was reported, if any.
    pub first_failure: Option<Failure>,
    /// The first task whose build command could not be started, if any.
    pub launch_failure: Option<usize>,
}

impl SchedulerModel {
    /// The state of the `k`-th dependency of task `i`.
    pub open spec fn dep_state(self, i: int, k: int) -> TaskState {
        self.states[self.plan.dep_ids[i][k]]
    }

    /// Every dependency of task `i` has succeeded or failed.
    pub open spec fn deps_settled(self, i: int) -> bool {
        forall|k: int|
            0 <= k < self.plan.dep_ids[i].len() ==> settled(#[trigger] self.dep_state(i, k))
    }

    /// Every dependency of task `i` has succeeded.
    pub open spec fn deps_succeeded(self, i: int) -> bool {
        forall|k: int|
            0 <= k < self.plan.dep_ids[i].len() ==> (#[trigger] self.dep_state(i, k)) is Succeeded
    }

    /// Task `i` is waiting and none of its dependencies is.
    pub open spec fn ready(self, i: int) -> bool {
        0 <= i < self.states.len() && self.states[i] is Pending && self.deps_settled(i)
    }

    /// No task before place `i` is ready.
    pub open spec fn none_ready_below(self, i: int) -> bool {
        forall|j: int| 0 <= j < i ==> !#[trigger] self.ready(j)
    }

    /// Dependency `k` of task `i` has failed, and none before it has.
    pub open spec fn first_failed_dep(self, i: int, k: int) -> bool {
        &&& 0 <= k < self.plan.dep_ids[i].len()
        &&& self.dep_state(i, k) is Failed
        &&& forall|b: int| 0 <= b < k ==> !((#[trigger] self.dep_state(i, b)) is Failed)
    }

    /// The build command of task `i` was started at some time.
    pub open spec fn launched(self, i: int) -> bool {
        match self.states[i] {
            TaskState::Pending => false,
            TaskState::Running => true,
            TaskState::Succeeded => true,
            TaskState::Failed(failure) => failure.task == i,
        }
    }

    /// Some task is running.
    pub open spec fn any_running(self) -> bool {
        exists|j: int| 0 <= j < self.states.len() && (#[trigger] self.states[j]) is Running
    }

    /// The state fits the plan: a task was launched only after all its
    /// dependencies had succeeded, a task that failed without being
    /// launched carries the failure of one of its dependencies, and the
    /// first failure is one that a task reported.
    pub open spec fn wf(self) -> bool {
        &&& self.plan.wf()
        &&& self.states.len() == self.plan.tasks.len()
        &&& forall|i: int|
            0 <= i < self.states.len() && #[trigger] self.launched(i) ==> self.deps_succeeded(i)
        &&& forall|i: int|
            0 <= i < self.states.len() && (#[trigger] self.states[i]) is Failed && !self.launched(
                i,
            ) ==> self.deps_settled(i) && exists|k: int|
                0 <= k < self.plan.dep_ids[i].len() && #[trigger] self.dep_state(i, k)
                    == self.states[i]
        &&& forall|i: int|
            0 <= i < self.states.len() && (#[trigger] self.states[i]) is Failed ==> {
                &&& self.first_failure is Some
                &&& self.states[i]->Failed_0.code != 0
                &&& self.states[i]->Failed_0.task < self.states.len()
                &&& self.states[self.states[i]->Failed_0.task as int] == self.states[i]
            }
        &&& self.first_failure is Some ==> self.first_failure->0.task < self.states.len()
            && self.states[self.first_failure->0.task as int] == TaskState::Failed(
            self.first_failure->0,
        )
        &&& self.launch_failure is Some ==> self.launch_failure->0 < self.states.len()
    }

    /// The state before anything has happened: every task waits.
    pub open spec fn initial(plan: PlanModel) -> SchedulerModel {
        SchedulerModel {
            plan,
            states: Seq::new(plan.tasks.len(), |i: int| TaskState::Pending),
            first_failure: None,
            launch_failure: None,
        }
    }
}

/// One call of [`Scheduler::next`]: the first ready task, by place, is
/// launched where all its dependencies succeeded and otherwise takes over
/// the failure of its first failed dependency; where no task is ready,
/// nothing changes. After a build command could not be started the run
/// is over: nothing changes, and the answer is that it has finished.
pub open spec fn next_step(pre: SchedulerModel, post: SchedulerModel, action: Action) -> bool {
    &&& post.plan == pre.plan
    &&& post.first_failure == pre.first_failure
    &&& post.launch_failure == pre.launch_failure
    &&& if pre.launch_failure is Some {
        action == Action::Finished && post.states == pre.states
    } else {
        next_action(pre, post, action)
    }
}

/// What [`Scheduler::next`] does while every build command could be started.
pub open spec fn next_action(pre: SchedulerModel, post: SchedulerModel, action: Action) -> bool {
    match action {
        Action::Launch(i) => {
            &&& pre.ready(i as int)
            &&& pre.none_ready_below(i as int)
            &&& pre.deps_succeeded(i as int)
            &&& post.states == pre.states.update(i as int, TaskState::Running)
        },
        Action::Skip(i) => {
            &&& pre.ready(i as int)
            &&& pre.none_ready_below(i as int)
            &&& exists|k: int| #[trigger]
                pre.first_failed_dep(i as int, k) && post.states == pre.states.update(
                    i as int,
                    pre.dep_state(i as int, k),
                )
        },
        Action::Wait => {
            &&& post.states == pre.states
            &&& pre.none_ready_below(pre.states.len() as int)
            &&& pre.any_running()
        },
        Action::Finished => {
            &&& post.states == pre.states
            &&& pre.none_ready_below(pre.states.len() as int)
            &&& !pre.any_running()
        },
    }
}

/// The state in which a task that ended with exit code `code` is left.
pub open spec fn ended(task: usize, code: i32) -> TaskState {
    if code == 0 {
        TaskState::Succeeded
    } else {
        TaskState::Failed(Failure { task, code })
    }
}

/// One call of [`Scheduler::finish`] that is accepted: the running task
/// `task` ends with `code`, and a failure is remembered if it is the first.
pub open spec fn finish_step(
    pre: SchedulerModel,
    post: SchedulerModel,
    task: usize,
    code: i32,
) -> bool {
    &&& task < pre.states.len()
    &&& pre.states[task as int] is Running
    &&& post.plan == pre.plan
    &&& post.states == pre.states.update(task as int, ended(task, code))
    &&& post.first_failure == if code != 0 && pre.first_failure is None {
        Some(Failure { task, code })
    } else {
        pre.first_failure
    }
    &&& post.launch_failure == pre.launch_failure
}

/// One call of [`Scheduler::launch_failed`] that is accepted: the build
/// command of the running task `task` could not be started. The task is
/// remembered if it is the first such, and no state changes.
pub open spec fn launch_failed_step(pre: SchedulerModel, post: SchedulerModel, task: usize) -> bool {
    &&& task < pre.states.len()
    &&& pre.states[task as int] is Running
    &&& post.plan == pre.plan
    &&& post.states == pre.states
    &&& post.first_failure == pre.first_failure
    &&& post.launch_failure == if pre.launch_failure is None {
        Some(task)
    } else {
        pre.launch_failure
    }
}


/// A call of [`Scheduler::next`] keeps the state fitting the plan.
pub proof fn lemma_next_preserves_wf(pre: SchedulerModel, post: SchedulerModel, action: Action)
    requires
        pre.wf(),
        next_step(pre, post, action),
    ensures
        post.wf(),
{
    if pre.launch_failure is Some {
        assert(post == pre);
        return ;
    }
    match action {
        Action::Launch(i) => {
            lemma_update_keeps_wf(pre, post, i as int);
        },
        Action::Skip(i) => {
            let k = choose|k: int| #[trigger]
                pre.first_failed_dep(i as int, k) && post.states == pre.states.update(
                    i as int,
                    pre.dep_state(i as int, k),
                );
            let d = pre.plan.dep_ids[i as int][k];
            assert(pre.dep_state(i as int, k) == pre.states[d]);
            assert(pre.states[d] is Failed);
            let origin = pre.states[d]->Failed_0.task as int;
            assert(pre.states[origin] == pre.states[d]);
            assert(origin != i);
            assert(settled(pre.dep_state(i as int, k)));
            lemma_update_keeps_wf(pre, post, i as int);
            assert(!post.launched(i as int));
            assert(post.dep_state(i as int, k) == post.states[i as int]);
        },
        Action::Wait => {
            assert(post == pre);
        },
        Action::Finished => {
            assert(post == pre);
        },
    }
}

/// An accepted call of [`Scheduler::finish`] keeps the state fitting the plan.
pub proof fn lemma_finish_preserves_wf(
    pre: SchedulerModel,
    post: SchedulerModel,
    task: usize,
    code: i32,
)
    requires
        pre.wf(),
        finish_step(pre, post, task, code),
    ensures
        post.wf(),
{
    assert(pre.launched(task as int));
    lemma_update_keeps_wf(pre, post, task as int);
    assert(post.launched(task as int));
}

/// An accepted call of [`Scheduler::launch_failed`] keeps the state
/// fitting the plan.
pub proof fn lemma_launch_failed_preserves_wf(pre: SchedulerModel, post: SchedulerModel, task: usize)
    requires
        pre.wf(),
        launch_failed_step(pre, post, task),
    ensures
        post.wf(),
{
    assert forall|i: int|
        0 <= i < post.states.len() && #[trigger] post.launched(i) implies post.deps_succeeded(
        i,
    ) by {
        assert(pre.launched(i));
        assert forall|k: int| 0 <= k < post.plan.dep_ids[i].len() implies (
        #[trigger] post.dep_state(i, k)) is Succeeded by {
            assert(pre.dep_state(i, k) is Succeeded);
        }
    }
    assert forall|i: int|
        0 <= i < post.states.len() && (#[trigger] post.states[i]) is Failed && !post.launched(
            i,
        ) implies post.deps_settled(i) && exists|k: int|
        0 <= k < post.plan.dep_ids[i].len() && #[trigger] post.dep_state(i, k)
            == post.states[i] by {
        assert(pre.states[i] is Failed && !pre.launched(i));
        assert forall|k: int| 0 <= k < post.plan.dep_ids[i].len() implies settled(
            #[trigger] post.dep_state(i, k),
        ) by {
            assert(settled(pre.dep_state(i, k)));
        }
        let k = choose|k: int|
            0 <= k < pre.plan.dep_ids[i].len() && #[trigger] pre.dep_state(i, k) == pre.states[i];
        assert(post.dep_state(i, k) == post.states[i]);
    }
}

/// Where one task that had not ended changes its state, what the plan
/// demands of every other task still holds, and the dependencies of the
/// changed task are as they were.
proof fn lemma_update_keeps_wf(pre: SchedulerModel, post: SchedulerModel, changed: int)
    requires
        pre.wf(),
        post.plan == pre.plan,
        0 <= changed < pre.states.len(),
        !settled(pre.states[changed]),
        post.states == pre.states.update(changed, post.states[changed]),
        pre.states[changed] is Pending ==> pre.deps_settled(changed),
    ensures
        forall|i: int, k: int|
            0 <= i < pre.states.len() && 0 <= k < pre.plan.dep_ids[i].len() && settled(
                #[trigger] pre.dep_state(i, k),
            ) ==> post.dep_state(i, k) == pre.dep_state(i, k),
        forall|i: int|
            0 <= i < pre.states.len() && i != changed && #[trigger] post.launched(i)
                ==> post.deps_succeeded(i),
        forall|i: int|
            0 <= i < pre.states.len() && i != changed && (#[trigger] post.states[i]) is Failed
                && !post.launched(i) ==> post.deps_settled(i) && exists|k: int|
                0 <= k < post.plan.dep_ids[i].len() && #[trigger] post.dep_state(i, k)
                    == post.states[i],
        pre.deps_succeeded(changed) ==> post.deps_succeeded(changed),
        pre.deps_settled(changed) ==> post.deps_settled(changed),
        forall|i: int|
            0 <= i < pre.states.len() && i != changed && (#[trigger] post.states[i]) is Failed
                ==> post.states[i]->Failed_0.task != changed && post.states[post.states[i]->Failed_0.task as int]
                == post.states[i],
{
    assert forall|i: int, k: int|
        0 <= i < pre.states.len() && 0 <= k < pre.plan.dep_ids[i].len() && settled(
            #[trigger] pre.dep_state(i, k),
        ) implies post.dep_state(i, k) == pre.dep_state(i, k) by {
        assert(0 <= pre.plan.dep_ids[i][k] < pre.states.len());
    }
    assert forall|i: int|
        0 <= i < pre.states.len() && i != changed && #[trigger] post.launched(
            i,
        ) implies post.deps_succeeded(i) by {
        assert(pre.launched(i));
        assert forall|k: int| 0 <= k < post.plan.dep_ids[i].len() implies (
        #[trigger] post.dep_state(i, k)) is Succeeded by {
            assert(pre.dep_state(i, k) is Succeeded);
        }
    }
    assert forall|i: int|
        0 <= i < pre.states.len() && i != changed && (#[trigger] post.states[i]) is Failed
            && !post.launched(i) implies post.deps_settled(i) && exists|k: int|
        0 <= k < post.plan.dep_ids[i].len() && #[trigger] post.dep_state(i, k)
            == post.states[i] by {
        assert(pre.states[i] is Failed && !pre.launched(i));
        assert forall|k: int| 0 <= k < post.plan.dep_ids[i].len() implies settled(
            #[trigger] post.dep_state(i, k),
        ) by {
            assert(settled(pre.dep_state(i, k)));
        }
        let k = choose|k: int|
            0 <= k < pre.plan.dep_ids[i].len() && #[trigger] pre.dep_state(i, k) == pre.states[i];
        assert(settled(pre.dep_state(i, k)));
        assert(post.dep_state(i, k) == post.states[i]);
    }
    if pre.deps_succeeded(changed) {
        assert forall|k: int| 0 <= k < post.plan.dep_ids[changed].len() implies (
        #[trigger] post.dep_state(changed, k)) is Succeeded by {
            assert(pre.dep_state(changed, k) is Succeeded);
        }
    }
    if pre.deps_settled(changed) {
        assert forall|k: int| 0 <= k < post.plan.dep_ids[changed].len() implies settled(
            #[trigger] post.dep_state(changed, k),
        ) by {
            assert(settled(pre.dep_state(changed, k)));
        }
    }
}

/// The scheduler of one run: the plan, and where each of its tasks stands.
pub struct Scheduler {
    plan: Plan,
    states: Vec<TaskState>,
    first_failure: Option<Failure>,
    launch_failure: Option<usize>,
}

impl View for Scheduler {
    type V = SchedulerModel;

    closed spec fn view(&self) -> SchedulerModel {
        SchedulerModel {
            plan: self.plan@,
            states: self.states@,
            first_failure: self.first_failure,
            launch_failure: self.launch_failure,
        }
    }
}

impl Scheduler {
    #[verifier::type_invariant]
    spec fn inv(self) -> bool {
        self@.wf()
    }

    /// A scheduler for `plan`, with every task waiting.
    pub fn new(plan: Plan) -> (scheduler: Scheduler)
        ensures
            scheduler@ == SchedulerModel::initial(plan@),
            scheduler@.wf(),
    {
        let n = plan.len();
        let mut states: Vec<TaskState> = Vec::new();
        let mut i: usize = 0;
        while i < n
            invariant
                i <= n,
                states.len() == i,
                forall|j: int| 0 <= j < i ==> states[j] is Pending,
            decreases n - i,
        {
            states.push(TaskState::Pending);
            i += 1;
        }
        assert(states@ =~= SchedulerModel::initial(plan@).states);
        Scheduler { plan, states, first_failure: None, launch_failure: None }
    }

    /// The plan that is carried out.
    pub fn plan(&self) -> (plan: &Plan)
        ensures
            plan@ == self@.plan,
    {
        &self.plan
    }

    /// Where the task at place `index` stands.
    pub fn state(&self, index: usize) -> (r: Option<TaskState>)
        ensures
            self@.wf(),
            match r {
                Some(state) => index < self@.states.len() && state == self@.states[index as int],
                None => index >= self@.states.len(),
            },
    {
        proof {
            use_type_invariant(self);
        }
        if index < self.states.len() {
            Some(self.states[index])
        } else {
            None
        }
    }

    /// The first build failure that was reported, if any.
    pub fn first_failure(&self) -> (r: Option<Failure>)
        ensures
            r == self@.first_failure,
    {
        self.first_failure
    }

    /// Changes the state of task `i` and the first failure in one step, so
    /// that the scheduler never holds a state that does not fit its plan.
    fn put_state(&mut self, i: usize, state: TaskState, first: Option<Failure>)
        requires
            i < old(self)@.states.len(),
            (SchedulerModel {
                plan: old(self)@.plan,
                states: old(self)@.states.update(i as int, state),
                first_failure: first,
                launch_failure: old(self)@.launch_failure,
            }).wf(),
        ensures
            final(self)@ == (SchedulerModel {
                plan: old(self)@.plan,
                states: old(self)@.states.update(i as int, state),
                first_failure: first,
                launch_failure: old(self)@.launch_failure,
            }),
    {
        let mut taken = Scheduler {
            plan: Plan::empty(),
            states: Vec::new(),
            first_failure: None,
            launch_failure: None,
        };
        std::mem::swap(self, &mut taken);
        let Scheduler { plan, states, first_failure: _, launch_failure } = taken;
        let mut states = states;
        states[i] = state;
        *self = Scheduler { plan, states, first_failure: first, launch_failure };
    }

    /// Looks at the dependencies of the waiting task `i`: whether all have
    /// ended, and the state of the first that failed.
    fn inspect(&self, i: usize) -> (r: (bool, Option<TaskState>))
        requires
            i < self@.states.len(),
        ensures
            r.0 == self@.deps_settled(i as int),
            r.0 ==> match r.1 {
                Some(state) => exists|k: int| #[trigger]
                    self@.first_failed_dep(i as int, k) && self@.dep_state(i as int, k) == state,
                None => self@.deps_succeeded(i as int),
            },
    {
        proof {
            use_type_invariant(self);
        }
        let ids = self.plan.dependency_ids(i).unwrap();
        let ghost m = self@;
        assert(ids_view(ids@) == m.plan.dep_ids[i as int]);
        let mut failed: Option<TaskState> = None;
        let mut k: usize = 0;
        while k < ids.len()
            invariant
                m == self@,
                m.wf(),
                i < m.states.len(),
                ids_view(ids@) == m.plan.dep_ids[i as int],
                k <= ids.len(),
                forall|b: int| 0 <= b < k ==> settled(#[trigger] m.dep_state(i as int, b)),
                failed is None ==> forall|b: int|
                    0 <= b < k ==> (#[trigger] m.dep_state(i as int, b)) is Succeeded,
                failed is Some ==> exists|a: int|
                    a < k && #[trigger] m.first_failed_dep(i as int, a) && m.dep_state(i as int, a)
                        == failed->0,
            decreases ids.len() - k,
        {
            assert(ids_view(ids@)[k as int] == ids[k as int]);
            assert(0 <= m.plan.dep_ids[i as int][k as int] < m.plan.tasks.len());
            let state = self.states[ids[k]];
            assert(state == m.dep_state(i as int, k as int));
            match state {
                TaskState::Pending => {
                    return (false, None);
                },
                TaskState::Running => {
                    return (false, None);
                },
                TaskState::Succeeded => {},
                TaskState::Failed(_) => {
                    if failed.is_none() {
                        failed = Some(state);
                        assert(m.first_failed_dep(i as int, k as int));
                    }
                },
            }
            k += 1;
        }
        (true, failed)
    }

    /// Finds the first ready task, by place; where there is none, says
    /// whether any task is running.
    fn find_ready(&self) -> (r: (Option<usize>, bool))
        ensures
            match r.0 {
                Some(i) => self@.ready(i as int) && self@.none_ready_below(i as int),
                None => self@.none_ready_below(self@.states.len() as int) && r.1
                    == self@.any_running(),
            },
    {
        let n = self.states.len();
        let ghost m = self@;
        let mut running = false;
        let mut i: usize = 0;
        while i < n
            invariant
                m == self@,
                n == m.states.len(),
                i <= n,
                m.none_ready_below(i as int),
                running <==> exists|j: int| 0 <= j < i && (#[trigger] m.states[j]) is Running,
            decreases n - i,
        {
            match self.states[i] {
                TaskState::Pending => {
                    let (all_settled, _) = self.inspect(i);
                    if all_settled {
                        return (Some(i), running);
                    }
                },
                TaskState::Running => {
                    running = true;
                },
                _ => {},
            }
            i += 1;
        }
        (None, running)
    }

    /// Says what to do next, and records it: the first ready task, by
    /// place, is launched, or fails at once where a dependency has failed.
    pub fn next(&mut self) -> (action: Action)
        ensures
            old(self)@.wf(),
            final(self)@.wf(),
            next_step(old(self)@, final(self)@, action),
    {
        proof {
            use_type_invariant(&*self);
        }
        let ghost pre = self@;
        if self.launch_failure.is_some() {
            return Action::Finished;
        }
        let (found, running) = self.find_ready();
        match found {
            Some(i) => {
                let (_, failed) = self.inspect(i);
                match failed {
                    Some(state) => {
                        proof {
                            let post = SchedulerModel {
                                plan: pre.plan,
                                states: pre.states.update(i as int, state),
                                first_failure: pre.first_failure,
                                launch_failure: pre.launch_failure,
                            };
                            lemma_next_preserves_wf(pre, post, Action::Skip(i));
                        }
                        self.put_state(i, state, self.first_failure);
                        Action::Skip(i)
                    },
                    None => {
                        proof {
                            let post = SchedulerModel {
                                plan: pre.plan,
                                states: pre.states.update(i as int, TaskState::Running),
                                first_failure: pre.first_failure,
                                launch_failure: pre.launch_failure,
                            };
                            lemma_next_preserves_wf(pre, post, Action::Launch(i));
                        }
                        self.put_state(i, TaskState::Running, self.first_failure);
                        Action::Launch(i)
                    },
                }
            },
            None => {
                if running {
                    Action::Wait
                } else {
                    Action::Finished
                }
            },
        }
    }

    /// Takes the news that the running task `task` ended with exit code
    /// `code`. A task that is not running is refused, and nothing changes.
    pub fn finish(&mut self, task: usize, code: i32) -> (accepted: bool)
        ensures
            old(self)@.wf(),
            final(self)@.wf(),
            accepted <==> task < old(self)@.states.len() && old(self)@.states[task as int]
                is Running,
            accepted ==> finish_step(old(self)@, final(self)@, task, code),
            !accepted ==> final(self)@ == old(self)@,
    {
        proof {
            use_type_invariant(&*self);
        }
        let ghost pre = self@;
        if task >= self.states.len() {
            return false;
        }
        match self.states[task] {
            TaskState::Running => {},
            _ => {
                return false;
            },
        }
        let state = if code == 0 {
            TaskState::Succeeded
        } else {
            TaskState::Failed(Failure { task, code })
        };
        let first = if code != 0 && self.first_failure.is_none() {
            Some(Failure { task, code })
        } else {
            self.first_failure
        };
        proof {
            let post = SchedulerModel {
                plan: pre.plan,
                states: pre.states.update(task as int, state),
                first_failure: first,
                launch_failure: pre.launch_failure,
            };
            lemma_finish_preserves_wf(pre, post, task, code);
        }
        self.put_state(task, state, first);
        true
    }

    /// Takes the news that the build command of the running task `task`
    /// could not be started. That ends the run: nothing is launched after
    /// it. A task that is not running is refused, and nothing changes.
    pub fn launch_failed(&mut self, task: usize) -> (accepted: bool)
        ensures
            old(self)@.wf(),
            final(self)@.wf(),
            accepted <==> task < old(self)@.states.len() && old(self)@.states[task as int]
                is Running,
            accepted ==> launch_failed_step(old(self)@, final(self)@, task),
            !accepted ==> final(self)@ == old(self)@,
    {
        proof {
            use_type_invariant(&*self);
        }
        if task >= self.states.len() {
            return false;
        }
        match self.states[task] {
            TaskState::Running => {},
            _ => {
                return false;
            },
        }
        if self.launch_failure.is_none() {
            proof {
                let pre = self@;
                let post = SchedulerModel {
                    plan: pre.plan,
                    states: pre.states,
                    first_failure: pre.first_failure,
                    launch_failure: Some(task),
                };
                lemma_launch_failed_preserves_wf(pre, post, task);
            }
            self.launch_failure = Some(task);
        }
        true
    }
}


/// How a run ended, or that it has not.
#[derive(Clone, Copy, PartialEq, Eq, Debug, Structural)]
pub enum Outcome {
    /// Every requested target was built.
    Success,
    /// A build command failed; this is the first failure that was reported.
    Failed(Failure),
    /// The build command of the task at this place could not be started.
    LaunchFailed(usize),
    /// Nothing runs, nothing can start, nothing failed, and a requested
    /// target is still waiting: its dependencies form a cycle.
    Stalled,
    /// A task is running or can start.
    Unfinished,
}

impl SchedulerModel {
    /// Every requested target has succeeded.
    pub open spec fn roots_succeeded(self) -> bool {
        forall|k: int|
            0 <= k < self.plan.roots.len() ==> self.states[#[trigger] self.plan.roots[k]]
                is Succeeded
    }

    /// How the run stands.
    pub open spec fn outcome(self) -> Outcome {
        if self.launch_failure is Some {
            Outcome::LaunchFailed(self.launch_failure->0)
        } else if self.any_running() || !self.none_ready_below(self.states.len() as int) {
            Outcome::Unfinished
        } else if self.first_failure is Some {
            Outcome::Failed(self.first_failure->0)
        } else if self.roots_succeeded() {
            Outcome::Success
        } else {
            Outcome::Stalled
        }
    }
}

/// The exit code of the whole run: 0 where every requested target was
/// built, 1 otherwise.
pub open spec fn exit_code_of(outcome: Outcome) -> i32 {
    if outcome is Success {
        0
    } else {
        1
    }
}

/// The exit code of the whole run: 0 where every requested target was
/// built, 1 otherwise.
pub fn exit_code(outcome: Outcome) -> (code: i32)
    ensures
        code == exit_code_of(outcome),
{
    match outcome {
        Outcome::Success => 0,
        _ => 1,
    }
}

impl Scheduler {
    /// How the run stands.
    pub fn outcome(&self) -> (outcome: Outcome)
        ensures
            outcome == self@.outcome(),
    {
        proof {
            use_type_invariant(self);
        }
        if let Some(task) = self.launch_failure {
            return Outcome::LaunchFailed(task);
        }
        let (found, running) = self.find_ready();
        if running || found.is_some() {
            return Outcome::Unfinished;
        }
        if let Some(failure) = self.first_failure {
            return Outcome::Failed(failure);
        }
        let roots = self.plan.roots();
        let ghost m = self@;
        let mut k: usize = 0;
        while k < roots.len()
            invariant
                m == self@,
                m.wf(),
                !m.any_running(),
                m.none_ready_below(m.states.len() as int),
                m.first_failure is None,
                m.launch_failure is None,
                ids_view(roots@) == m.plan.roots,
                k <= roots.len(),
                forall|b: int| 0 <= b < k ==> m.states[#[trigger] m.plan.roots[b]] is Succeeded,
            decreases roots.len() - k,
        {
            assert(ids_view(roots@)[k as int] == roots[k as int]);
            assert(0 <= m.plan.roots[k as int] < m.plan.tasks.len());
            match self.states[roots[k]] {
                TaskState::Succeeded => {},
                _ => {
                    assert(!(m.states[m.plan.roots[k as int]] is Succeeded));
                    assert(!m.roots_succeeded());
                    return Outcome::Stalled;
                },
            }
            k += 1;
        }
        Outcome::Success
    }
}

/// One thing happens: a call of [`Scheduler::next`], or an accepted call
/// of [`Scheduler::finish`] or of [`Scheduler::launch_failed`].
pub open spec fn step(pre: SchedulerModel, post: SchedulerModel) -> bool {
    ||| exists|action: Action| next_step(pre, post, action)
    ||| exists|task: usize, code: i32| finish_step(pre, post, task, code)
    ||| exists|task: usize| launch_failed_step(pre, post, task)
}

/// A history of a scheduler: it begins with every task waiting, and each
/// state comes from the one before by one step.
pub open spec fn is_run(plan: PlanModel, trace: Seq<SchedulerModel>) -> bool {
    &&& plan.wf()
    &&& trace.len() > 0
    &&& trace[0] == SchedulerModel::initial(plan)
    &&& forall|a: int, b: int|
        0 <= a && b == a + 1 && b < trace.len() ==> step(#[trigger] trace[a], #[trigger] trace[b])
}

/// A path in the plan: each task of it but the last has the next one as a
/// dependency.
pub open spec fn is_chain(plan: PlanModel, path: Seq<int>) -> bool {
    &&& path.len() > 0
    &&& forall|a: int| 0 <= a < path.len() ==> 0 <= #[trigger] path[a] < plan.tasks.len()
    &&& forall|a: int, b: int|
        0 <= a && b == a + 1 && b < path.len() ==> plan.dep_ids[#[trigger] path[a]].contains(
            #[trigger] path[b],
        )
}

/// Task `i` needs task `j`, directly or through other tasks.
pub open spec fn depends_on(plan: PlanModel, i: int, j: int) -> bool {
    exists|path: Seq<int>| #[trigger]
        is_chain(plan, path) && path.len() > 1 && path[0] == i && path.last() == j
}

/// With every task waiting, the state fits the plan.
pub proof fn lemma_initial_wf(plan: PlanModel)
    requires
        plan.wf(),
    ensures
        SchedulerModel::initial(plan).wf(),
{
}

/// A step keeps the state fitting the plan and the plan itself, changes no
/// state that is final, and makes no task wait again.
pub proof fn lemma_step(pre: SchedulerModel, post: SchedulerModel)
    requires
        pre.wf(),
        step(pre, post),
    ensures
        post.wf(),
        post.plan == pre.plan,
        post.states.len() == pre.states.len(),
        forall|i: int|
            0 <= i < pre.states.len() && settled(#[trigger] pre.states[i]) ==> post.states[i]
                == pre.states[i],
        forall|i: int|
            0 <= i < pre.states.len() && !((#[trigger] pre.states[i]) is Pending)
                ==> !(post.states[i] is Pending),
{
    if exists|action: Action| next_step(pre, post, action) {
        let action = choose|action: Action| next_step(pre, post, action);
        lemma_next_preserves_wf(pre, post, action);
    } else if exists|task: usize, code: i32| finish_step(pre, post, task, code) {
        let (task, code) = choose|task: usize, code: i32| finish_step(pre, post, task, code);
        lemma_finish_preserves_wf(pre, post, task, code);
    } else {
        let task = choose|task: usize| launch_failed_step(pre, post, task);
        lemma_launch_failed_preserves_wf(pre, post, task);
    }
}

/// Every state of a run fits the plan; a state that is final stays as it
/// is for the rest of the run, and a task that has left the waiting state
/// never waits again.
pub proof fn lemma_run(plan: PlanModel, trace: Seq<SchedulerModel>, a: int, b: int)
    requires
        is_run(plan, trace),
        0 <= a <= b < trace.len(),
    ensures
        trace[b].wf(),
        trace[b].plan == plan,
        trace[b].states.len() == plan.tasks.len(),
        forall|i: int|
            0 <= i < plan.tasks.len() && settled(#[trigger] trace[a].states[i])
                ==> trace[b].states[i] == trace[a].states[i],
        forall|i: int|
            0 <= i < plan.tasks.len() && !((#[trigger] trace[a].states[i]) is Pending) ==> !(
            trace[b].states[i] is Pending),
    decreases b,
{
    if b == 0 {
        lemma_initial_wf(plan);
    } else if a == b {
        lemma_run(plan, trace, 0, b - 1);
        assert(step(trace[b - 1], trace[b]));
        lemma_step(trace[b - 1], trace[b]);
    } else {
        lemma_run(plan, trace, a, b - 1);
        assert(step(trace[b - 1], trace[b]));
        lemma_step(trace[b - 1], trace[b]);
    }
}

/// Dependencies first: where a task has been launched, every task that it
/// needs, directly or through others, has succeeded.
pub proof fn lemma_launched_after_dependencies(m: SchedulerModel, path: Seq<int>)
    requires
        m.wf(),
        is_chain(m.plan, path),
        m.launched(path[0]),
    ensures
        forall|a: int| 1 <= a < path.len() ==> (#[trigger] m.states[path[a]]) is Succeeded,
    decreases path.len(),
{
    if path.len() > 1 {
        let front = path.drop_last();
        assert forall|a: int, b: int|
            0 <= a && b == a + 1 && b < front.len() implies m.plan.dep_ids[#[trigger] front[a]].contains(
            #[trigger] front[b],
        ) by {
            assert(front[a] == path[a] && front[b] == path[b]);
        }
        assert(is_chain(m.plan, front));
        lemma_launched_after_dependencies(m, front);
        let before = path[path.len() - 2];
        assert(front[path.len() - 2] == before);
        assert(m.launched(before)) by {
            if path.len() > 2 {
                assert(m.states[front[path.len() - 2]] is Succeeded);
            }
        }
        assert(m.plan.dep_ids[path[path.len() - 2]].contains(path[path.len() - 1]));
        let k = choose|k: int|
            0 <= k < m.plan.dep_ids[before].len() && m.plan.dep_ids[before][k] == path.last();
        assert(m.dep_state(before, k) is Succeeded);
        assert forall|a: int| 1 <= a < path.len() implies (#[trigger] m.states[path[a]])
            is Succeeded by {
            if a < path.len() - 1 {
                assert(m.states[front[a]] is Succeeded);
            }
        }
    }
}

/// A failure blocks what depends on it: at no time of a run in which task
/// `j` fails is a task launched that needs `j`.
pub proof fn lemma_failure_blocks_dependents(
    plan: PlanModel,
    trace: Seq<SchedulerModel>,
    at: int,
    i: int,
    j: int,
)
    requires
        is_run(plan, trace),
        0 <= at < trace.len(),
        depends_on(plan, i, j),
        trace[at].states[j] is Failed,
    ensures
        forall|b: int| 0 <= b < trace.len() ==> !(#[trigger] trace[b]).launched(i),
{
    let path = choose|path: Seq<int>| #[trigger]
        is_chain(plan, path) && path.len() > 1 && path[0] == i && path.last() == j;
    assert(0 <= path[path.len() - 1] < plan.tasks.len());
    assert forall|b: int| 0 <= b < trace.len() implies !(#[trigger] trace[b]).launched(i) by {
        if trace[b].launched(i) {
            lemma_run(plan, trace, 0, b);
            lemma_launched_after_dependencies(trace[b], path);
            assert(trace[b].states[path[path.len() - 1]] is Succeeded);
            if b <= at {
                lemma_run(plan, trace, b, at);
            } else {
                lemma_run(plan, trace, at, b);
            }
        }
    }
}

/// No task is launched at a step of a run and again at a later one.
proof fn lemma_launched_once(
    plan: PlanModel,
    trace: Seq<SchedulerModel>,
    a: int,
    b: int,
    task: usize,
)
    requires
        is_run(plan, trace),
        0 <= a < b < trace.len() - 1,
        next_step(trace[a], trace[a + 1], Action::Launch(task)),
    ensures
        !next_step(trace[b], trace[b + 1], Action::Launch(task)),
{
    lemma_run(plan, trace, a, a);
    lemma_run(plan, trace, a + 1, b);
    assert(trace[a + 1].states[task as int] is Running);
}

/// Step `at` of the run launches `task`.
pub open spec fn launched_at(trace: Seq<SchedulerModel>, at: int, task: usize) -> bool {
    0 <= at < trace.len() - 1 && next_step(trace[at], trace[at + 1], Action::Launch(task))
}

/// At step `at` of the run the build command of `task` ends with `code`.
pub open spec fn finished_at(trace: Seq<SchedulerModel>, at: int, task: usize, code: i32) -> bool {
    0 <= at < trace.len() - 1 && finish_step(trace[at], trace[at + 1], task, code)
}

/// `task` was launched before time `a` of the run.
pub open spec fn launched_before(trace: Seq<SchedulerModel>, a: int, task: usize) -> bool {
    exists|c: int| c < a && #[trigger] launched_at(trace, c, task)
}

/// `task` was launched and then ended well, all before time `a` of the run.
pub open spec fn completed_before(trace: Seq<SchedulerModel>, a: int, task: usize) -> bool {
    exists|c: int, b: int|
        c < b < a && #[trigger] launched_at(trace, c, task) && #[trigger] finished_at(
            trace,
            b,
            task,
            0,
        )
}

/// What the states of a run tell of its past: a task that runs was
/// launched, and a task that has succeeded was launched and ended well
/// after that.
pub proof fn lemma_history(plan: PlanModel, trace: Seq<SchedulerModel>, a: int, task: usize)
    requires
        is_run(plan, trace),
        0 <= a < trace.len(),
        task < plan.tasks.len(),
    ensures
        trace[a].states[task as int] is Running ==> launched_before(trace, a, task),
        trace[a].states[task as int] is Succeeded ==> completed_before(trace, a, task),
    decreases a,
{
    if a > 0 {
        let pre = trace[a - 1];
        let post = trace[a];
        lemma_run(plan, trace, 0, a - 1);
        lemma_history(plan, trace, a - 1, task);
        assert(step(pre, post));
        if launched_before(trace, a - 1, task) {
            let c = choose|c: int| c < a - 1 && #[trigger] launched_at(trace, c, task);
            assert(c < a && launched_at(trace, c, task));
        }
        if completed_before(trace, a - 1, task) {
            let (c, b) = choose|c: int, b: int|
                c < b < a - 1 && #[trigger] launched_at(trace, c, task) && #[trigger] finished_at(
                    trace,
                    b,
                    task,
                    0,
                );
            assert(c < b < a && launched_at(trace, c, task) && finished_at(trace, b, task, 0));
        }
        if post.states[task as int] != pre.states[task as int] {
            if exists|action: Action| next_step(pre, post, action) {
                let action = choose|action: Action| next_step(pre, post, action);
                match action {
                    Action::Launch(i) => {
                        assert(i == task);
                        assert(launched_at(trace, a - 1, task));
                    },
                    Action::Skip(i) => {
                        assert(i == task);
                        let k = choose|k: int| #[trigger]
                            pre.first_failed_dep(i as int, k) && post.states == pre.states.update(
                                i as int,
                                pre.dep_state(i as int, k),
                            );
                        assert(post.states[task as int] is Failed);
                    },
                    Action::Wait => {},
                    Action::Finished => {},
                }
            } else if exists|ended_task: usize, code: i32|
                finish_step(pre, post, ended_task, code) {
                let (ended_task, code) = choose|ended_task: usize, code: i32|
                    finish_step(pre, post, ended_task, code);
                assert(ended_task == task);
                assert(pre.states[task as int] is Running);
                if post.states[task as int] is Succeeded {
                    assert(code == 0);
                    let c = choose|c: int| c < a - 1 && #[trigger] launched_at(trace, c, task);
                    assert(finished_at(trace, a - 1, task, 0));
                    assert(c < a - 1 < a && launched_at(trace, c, task) && finished_at(
                        trace,
                        a - 1,
                        task,
                        0,
                    ));
                }
            }
        }
    }
}

/// Dependencies first, in time: before a task is launched, each of its
/// dependencies has been launched and has ended well.
pub proof fn lemma_dependencies_complete_first(
    plan: PlanModel,
    trace: Seq<SchedulerModel>,
    at: int,
    task: usize,
    dependency: usize,
)
    requires
        is_run(plan, trace),
        launched_at(trace, at, task),
        task < plan.tasks.len(),
        plan.dep_ids[task as int].contains(dependency as int),
    ensures
        completed_before(trace, at, dependency),
{
    lemma_run(plan, trace, 0, at);
    let k = choose|k: int|
        0 <= k < plan.dep_ids[task as int].len() && plan.dep_ids[task as int][k] == dependency;
    assert(trace[at].dep_state(task as int, k) is Succeeded);
    assert(0 <= plan.dep_ids[task as int][k] < plan.tasks.len());
    lemma_history(plan, trace, at, dependency);
}

/// At most once: a task that was launched at a step of a run is launched
/// at no other step.
pub proof fn lemma_one_launch(
    plan: PlanModel,
    trace: Seq<SchedulerModel>,
    a: int,
    b: int,
    task: usize,
)
    requires
        is_run(plan, trace),
        launched_at(trace, a, task),
        launched_at(trace, b, task),
    ensures
        a == b,
{
    if a < b {
        lemma_launched_once(plan, trace, a, b, task);
    } else if b < a {
        lemma_launched_once(plan, trace, b, a, task);
    }
}

/// The ranks show that the plan has no cycle: each task ranks above each
/// of its dependencies.
pub open spec fn ranked(plan: PlanModel, rank: Seq<nat>) -> bool {
    &&& rank.len() == plan.tasks.len()
    &&& forall|i: int, k: int|
        0 <= i < plan.tasks.len() && 0 <= k < plan.dep_ids[i].len() ==> rank[
            #[trigger] plan.dep_ids[i][k]
        ] < rank[i]
}

/// Every task that ranks below `bound` has ended, where nothing runs and
/// nothing is ready.
proof fn lemma_ended_below(m: SchedulerModel, rank: Seq<nat>, bound: nat)
    requires
        m.wf(),
        ranked(m.plan, rank),
        !m.any_running(),
        m.none_ready_below(m.states.len() as int),
    ensures
        forall|i: int|
            0 <= i < m.states.len() && rank[i] < bound ==> settled(#[trigger] m.states[i]),
    decreases bound,
{
    if bound > 0 {
        lemma_ended_below(m, rank, (bound - 1) as nat);
        assert forall|i: int| 0 <= i < m.states.len() && rank[i] < bound implies settled(
            #[trigger] m.states[i],
        ) by {
            assert(!(m.states[i] is Running));
            if m.states[i] is Pending {
                assert forall|k: int| 0 <= k < m.plan.dep_ids[i].len() implies settled(
                    #[trigger] m.dep_state(i, k),
                ) by {
                    let d = m.plan.dep_ids[i][k];
                    assert(rank[d] < rank[i]);
                    assert(settled(m.states[d]));
                }
                assert(m.ready(i));
            }
        }
    }
}

/// Without a cycle a run does not stall: where the plan has none, every
/// build command could be started and the scheduler says that it has
/// finished, every task has ended, and the run has succeeded or failed.
pub proof fn lemma_finished_without_cycle(m: SchedulerModel, rank: Seq<nat>)
    requires
        m.wf(),
        m.launch_failure is None,
        ranked(m.plan, rank),
        !m.any_running(),
        m.none_ready_below(m.states.len() as int),
    ensures
        forall|i: int| 0 <= i < m.states.len() ==> settled(#[trigger] m.states[i]),
        m.outcome() is Success || m.outcome() is Failed,
        m.outcome() is Success <==> m.first_failure is None,
{
    assert forall|i: int| 0 <= i < m.states.len() implies settled(#[trigger] m.states[i]) by {
        lemma_ended_below(m, rank, rank[i] + 1);
    }
    if m.first_failure is None {
        assert forall|k: int| 0 <= k < m.plan.roots.len() implies m.states[
            #[trigger] m.plan.roots[k]
        ] is Succeeded by {
            assert(settled(m.states[m.plan.roots[k]]));
        }
    }
}

/// Launching takes nothing from the others: while every build command
/// could be started, a task that is ready stays ready while other tasks
/// are launched or fail through a dependency, and while any task is ready
/// the scheduler does not ask to wait.
pub proof fn lemma_ready_tasks_overlap(
    pre: SchedulerModel,
    post: SchedulerModel,
    action: Action,
    other: int,
)
    requires
        pre.wf(),
        pre.launch_failure is None,
        next_step(pre, post, action),
        pre.ready(other),
    ensures
        action is Launch || action is Skip,
        action != Action::Launch(other as usize) && action != Action::Skip(other as usize)
            ==> post.ready(other),
        pre.deps_succeeded(other) ==> post.deps_succeeded(other),
{
    match action {
        Action::Launch(i) => {
            lemma_update_keeps_wf(pre, post, i as int);
            if i != other {
                assert forall|k: int| 0 <= k < post.plan.dep_ids[other].len() implies settled(
                    #[trigger] post.dep_state(other, k),
                ) by {
                    assert(settled(pre.dep_state(other, k)));
                }
                if pre.deps_succeeded(other) {
                    assert forall|k: int| 0 <= k < post.plan.dep_ids[other].len() implies (
                    #[trigger] post.dep_state(other, k)) is Succeeded by {
                        assert(pre.dep_state(other, k) is Succeeded);
                    }
                }
            }
        },
        Action::Skip(i) => {
            lemma_update_keeps_wf(pre, post, i as int);
            if i != other {
                assert forall|k: int| 0 <= k < post.plan.dep_ids[other].len() implies settled(
                    #[trigger] post.dep_state(other, k),
                ) by {
                    assert(settled(pre.dep_state(other, k)));
                }
                if pre.deps_succeeded(other) {
                    assert forall|k: int| 0 <= k < post.plan.dep_ids[other].len() implies (
                    #[trigger] post.dep_state(other, k)) is Succeeded by {
                        assert(pre.dep_state(other, k) is Succeeded);
                    }
                }
            }
        },
        Action::Wait => {},
        Action::Finished => {},
    }
}

} // verus!
