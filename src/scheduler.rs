use vstd::prelude::*;

verus! {

/// Where a task stands in its executor.
#[derive(Clone, Copy, Debug, PartialEq, Eq, Structural)]
pub enum TaskState {
    /// Ready to be polled.
    Pending,
    /// Being polled now.
    Running,
    /// Waiting for an event (a timer, a channel slot, a message).
    Suspended,
    /// Done for good.
    Completed,
}

/// How a poll of a task ended.
#[derive(Clone, Copy, Debug, PartialEq, Eq, Structural)]
pub enum PollOutcome {
    Suspended,
    Completed,
}

/// How many steps forward from `c` the task `t` lies, going round the `n`
/// tasks.
pub open spec fn distance(c: int, t: int, n: int) -> int {
    if t >= c {
        t - c
    } else {
        t + n - c
    }
}

/// The task after `t`, going round the `n` tasks.
pub open spec fn after(t: int, n: int) -> int {
    if t + 1 == n {
        0
    } else {
        t + 1
    }
}

/// The cooperative executor of one core: a fixed set of tasks, polled one at
/// a time in round-robin order from a cursor.
pub struct Scheduler {
    states: Vec<TaskState>,
    cursor: usize,
}

/// `post` is `pre` after task `t` was picked to run: `t` is the first ready
/// task at or after the cursor.
pub open spec fn pick_step(pre: Scheduler, post: Scheduler, t: int) -> bool {
    let n = pre.states().len() as int;
    &&& 0 <= t < n
    &&& pre.states()[t] == TaskState::Pending
    &&& forall|u: int|
        0 <= u < n && distance(pre.cursor(), u, n) < distance(pre.cursor(), t, n)
            ==> #[trigger] pre.states()[u] != TaskState::Pending
    &&& post.states() == pre.states().update(t, TaskState::Running)
    &&& post.cursor() == after(t, n)
}

pub open spec fn has_ready(s: Seq<TaskState>) -> bool {
    exists|t: int| 0 <= t < s.len() && s[t] == TaskState::Pending
}

impl Scheduler {
    pub closed spec fn states(self) -> Seq<TaskState> {
        self.states@
    }

    pub closed spec fn cursor(self) -> int {
        self.cursor as int
    }

    pub open spec fn wf(self) -> bool {
        if self.states().len() == 0 {
            self.cursor() == 0
        } else {
            0 <= self.cursor() < self.states().len()
        }
    }

    /// An executor with `n` registered tasks, each ready for its first poll.
    pub fn new(n: usize) -> (r: Scheduler)
        ensures
            r.wf(),
            r.states() == Seq::new(n as nat, |i: int| TaskState::Pending),
            r.cursor() == 0,
    {
        let mut states: Vec<TaskState> = Vec::new();
        let mut i: usize = 0;
        while i < n
            invariant
                i <= n,
                states@ == Seq::new(i as nat, |j: int| TaskState::Pending),
            decreases n - i,
        {
            states.push(TaskState::Pending);
            i += 1;
            assert(states@ =~= Seq::new(i as nat, |j: int| TaskState::Pending));
        }
        Scheduler { states, cursor: 0 }
    }

    /// Picks the first ready task at or after the cursor, marks it running
    /// and moves the cursor past it; `None` when no task is ready, and the
    /// core may idle.
    pub fn next(&mut self) -> (r: Option<usize>)
        requires
            old(self).wf(),
        ensures
            final(self).wf(),
            r is None <==> !has_ready(old(self).states()),
            r is None ==> *final(self) == *old(self),
            r is Some ==> pick_step(*old(self), *final(self), r->Some_0 as int),
    {
        let n = self.states.len();
        let c = self.cursor;
        let mut k: usize = 0;
        while k < n
            invariant
                *self == *old(self),
                self.wf(),
                n == self.states@.len(),
                c == self.cursor,
                k <= n,
                forall|u: int|
                    0 <= u < n && distance(c as int, u, n as int) < k
                        ==> #[trigger] self.states@[u] != TaskState::Pending,
            decreases n - k,
        {
            let t = if k < n - c { c + k } else { k - (n - c) };
            assert(distance(c as int, t as int, n as int) == k);
            if self.states[t] == TaskState::Pending {
                self.states.set(t, TaskState::Running);
                self.cursor = if t + 1 == n { 0 } else { t + 1 };
                return Some(t);
            }
            k += 1;
        }
        assert forall|u: int| 0 <= u < n implies self.states@[u] != TaskState::Pending by {
            assert(distance(c as int, u, n as int) < n);
        }
        None
    }

    /// Records how the poll of the running task `t` ended.
    pub fn finish(&mut self, t: usize, outcome: PollOutcome)
        requires
            old(self).wf(),
            t < old(self).states().len(),
            old(self).states()[t as int] == TaskState::Running,
        ensures
            final(self).wf(),
            final(self).cursor() == old(self).cursor(),
            final(self).states() == old(self).states().update(
                t as int,
                match outcome {
                    PollOutcome::Suspended => TaskState::Suspended,
                    PollOutcome::Completed => TaskState::Completed,
                },
            ),
    {
        let s = match outcome {
            PollOutcome::Suspended => TaskState::Suspended,
            PollOutcome::Completed => TaskState::Completed,
        };
        self.states.set(t, s);
    }

    /// The event that task `t` waits for has happened: a suspended task
    /// becomes ready again; any other task is left as it is.
    pub fn wake(&mut self, t: usize)
        requires
            old(self).wf(),
            t < old(self).states().len(),
        ensures
            final(self).wf(),
            final(self).cursor() == old(self).cursor(),
            old(self).states()[t as int] == TaskState::Suspended
                ==> final(self).states() == old(self).states().update(t as int, TaskState::Pending),
            old(self).states()[t as int] != TaskState::Suspended ==> final(self).states() == old(self).states(),
    {
        if self.states[t] == TaskState::Suspended {
            self.states.set(t, TaskState::Pending);
        }
    }

    /// The state of task `t`.
    pub fn state(&self, t: usize) -> (r: TaskState)
        requires
            t < self.states().len(),
        ensures
            r == self.states()[t as int],
    {
        self.states[t]
    }
}

/// A ready task is never passed over: each pick of another task leaves it
/// ready and brings the cursor strictly closer to it. As the distance is
/// below the number of tasks, a woken task runs within one pass.
pub proof fn lemma_ready_task_runs_within_a_pass(pre: Scheduler, post: Scheduler, s: int, t: int)
    requires
        pre.wf(),
        pick_step(pre, post, s),
        0 <= t < pre.states().len(),
        pre.states()[t] == TaskState::Pending,
        s != t,
    ensures
        post.states()[t] == TaskState::Pending,
        0 <= distance(post.cursor(), t, pre.states().len() as int) < distance(pre.cursor(), t, pre.states().len() as int),
        distance(pre.cursor(), t, pre.states().len() as int) < pre.states().len(),
{
    let n = pre.states().len() as int;
    assert(pre.states()[t] == TaskState::Pending);
    assert(!(distance(pre.cursor(), t, n) < distance(pre.cursor(), s, n)));
}

} // verus!
