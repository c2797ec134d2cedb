//! Scheduling policy: which task each core runs next. Round robin over the ready tasks, with
//! tasks that sleep until a time, wait for an event or block until woken, and an idle task per
//! core that runs only when nothing else can. Stacks and context switching are the kernel's
//! business; this only tracks task states.
//!
//! Other cores keep running while a task decides to wait, so every way of waiting is safe
//! against its wake-up arriving first: `wait_current` checks the event's generation hasn't
//! moved since the task looked, and a `wake` or `interrupt` for a task that isn't (yet)
//! blocked or asleep is kept for its next `block_current`, `wait_current` or `sleep_current`.

use vstd::prelude::*;

verus! {

#[derive(Clone, Copy, Debug, PartialEq, Eq, PartialOrd, Ord, Structural)]
pub struct TaskId(pub usize);

/// Something tasks can wait for, like "the UART received bytes".
#[derive(Clone, Copy, Debug, PartialEq, Eq, Structural)]
pub struct Event(pub u32);

/// How many times an event has been notified, so a task can tell whether it happened since
/// it last looked.
#[derive(Clone, Copy, Debug, PartialEq, Eq, Structural)]
pub struct Generation(pub u64);

#[derive(Clone, Copy, Debug, PartialEq, Eq, Structural)]
pub enum State {
    /// On some core: see `TaskInfo::core`.
    Running,
    Ready,
    /// Until the given microsecond timestamp.
    Sleeping { until_us: u64 },
    Waiting(Event),
    /// Until another task wakes it by id, like a mutex handing it the lock.
    Blocked,
    /// Returned from its entry point; waiting to be reaped.
    Finished,
}

impl State {
    pub open spec fn word(self) -> Seq<char> {
        match self {
            State::Running => "running"@,
            State::Ready => "ready"@,
            State::Sleeping { .. } => "sleeping"@,
            State::Waiting(_) => "waiting"@,
            State::Blocked => "blocked"@,
            State::Finished => "finished"@,
        }
    }

    pub fn name(self) -> (r: &'static str)
        ensures
            r@ == self.word(),
    {
        match self {
            State::Running => "running",
            State::Ready => "ready",
            State::Sleeping { .. } => "sleeping",
            State::Waiting(_) => "waiting",
            State::Blocked => "blocked",
            State::Finished => "finished",
        }
    }
}

#[derive(Clone, Debug)]
pub struct TaskInfo {
    pub id: TaskId,
    pub name: String,
    pub state: State,
    /// The core it is running on.
    pub core: Option<usize>,
    /// Timer ticks during which it was running.
    pub ticks: u64,
    /// How many of the last `CPU_WINDOW` ticks it was running for, on whichever core.
    pub recent_ticks: u64,
}

/// What a [`TaskInfo`] says.
pub struct Summary {
    pub id: TaskId,
    pub name: Seq<char>,
    pub state: State,
    pub core: Option<usize>,
    pub ticks: u64,
    pub recent_ticks: u64,
}

impl TaskInfo {
    pub open spec fn view(&self) -> Summary {
        Summary {
            id: self.id,
            name: self.name@,
            state: self.state,
            core: self.core,
            ticks: self.ticks,
            recent_ticks: self.recent_ticks,
        }
    }
}

/// Recent CPU use is measured over this many of core 0's ticks: a second at the kernel's
/// 10ms tick.
pub const CPU_WINDOW: u64 = 100;

/// What the queue keeps of a task.
#[derive(Clone, Copy, Debug, PartialEq, Eq, Structural)]
pub struct Task {
    pub state: State,
    pub ticks: u64,
    /// Ticks in the current window, and in the last complete one.
    pub window_ticks: u64,
    pub recent_ticks: u64,
    /// A `wake` that came before the task blocked: its next `block_current` doesn't.
    pub wake_pending: bool,
    /// An `interrupt` that came while it wasn't asleep or waiting: its next sleep or wait
    /// doesn't happen.
    pub interrupt_pending: bool,
}

impl Task {
    /// A task that hasn't run yet.
    pub open spec fn fresh(state: State) -> Task {
        Task {
            state,
            ticks: 0,
            window_ticks: 0,
            recent_ticks: 0,
            wake_pending: false,
            interrupt_pending: false,
        }
    }

    fn new(state: State) -> (r: Self)
        ensures
            r == Task::fresh(state),
    {
        Task {
            state,
            ticks: 0,
            window_ticks: 0,
            recent_ticks: 0,
            wake_pending: false,
            interrupt_pending: false,
        }
    }
}

/// What a [`RunQueue`] holds.
pub struct Schedule {
    /// Indexed by `TaskId`; `None` once reaped. Ids are never reused.
    pub tasks: Seq<Option<Task>>,
    pub names: Seq<Seq<char>>,
    /// What each core runs; `None` for a core that hasn't started.
    pub current: Seq<Option<TaskId>>,
    /// Each core's idle task.
    pub idle: Seq<Option<TaskId>>,
    /// Indexed by `Event`; those past the end were never notified.
    pub generations: Seq<u64>,
    /// Core 0's ticks into the current CPU window.
    pub window_elapsed: u64,
}

impl Schedule {
    pub open spec fn task(self, id: TaskId) -> Option<Task> {
        if id.0 < self.tasks.len() {
            self.tasks[id.0 as int]
        } else {
            None
        }
    }

    pub open spec fn state(self, id: TaskId) -> Option<State> {
        match self.task(id) {
            Some(task) => Some(task.state),
            None => None,
        }
    }

    /// With what is kept of task `id` replaced, if the task is there.
    pub open spec fn with_task(self, id: TaskId, task: Task) -> Schedule {
        if self.task(id) is Some {
            Schedule { tasks: self.tasks.update(id.0 as int, Some(task)), ..self }
        } else {
            self
        }
    }

    pub open spec fn with_state(self, id: TaskId, state: State) -> Schedule {
        self.with_task(id, Task { state, ..self.task(id)->0 })
    }

    pub open spec fn is_idle(self, id: TaskId) -> bool {
        exists|core: int| 0 <= core < self.idle.len() && #[trigger] self.idle[core] == Some(id)
    }

    pub open spec fn generation(self, event: Event) -> u64 {
        if event.0 < self.generations.len() {
            self.generations[event.0 as int]
        } else {
            0
        }
    }

    /// Whether `core` has started.
    pub open spec fn started(self, core: usize) -> bool {
        core < self.current.len() && self.current[core as int] is Some
    }

    /// Whether task `id` could run, other cores aside.
    pub open spec fn eligible(self, id: TaskId) -> bool {
        self.state(id) == Some(State::Ready) && !self.is_idle(id)
    }

    /// The task `offset` places after `id` in the round.
    pub open spec fn in_round(self, id: TaskId, offset: int) -> TaskId {
        TaskId(((id.0 + offset) % self.tasks.len() as int) as usize)
    }

    /// Whether every task is run by at most one core, and idle tasks by their own core only.
    pub open spec fn apart(self) -> bool {
        &&& forall|c: int, d: int|
            0 <= c < d < self.current.len() && #[trigger] self.current[c] is Some
                ==> self.current[c] != #[trigger] self.current[d]
        &&& forall|c: int, d: int|
            0 <= c < self.current.len() && 0 <= d < self.idle.len() && c != d
                && #[trigger] self.current[c] is Some ==> self.current[c]
                != #[trigger] self.idle[d]
        &&& forall|c: int, d: int|
            0 <= c < d < self.idle.len() && #[trigger] self.idle[c] is Some ==> self.idle[c]
                != #[trigger] self.idle[d]
    }

    /// The first core from `from` on that runs task `id`.
    pub open spec fn core_from(self, id: TaskId, from: int) -> Option<usize>
        decreases self.current.len() - from,
    {
        if from >= self.current.len() {
            None
        } else if self.current[from] == Some(id) {
            Some(from as usize)
        } else {
            self.core_from(id, from + 1)
        }
    }

    /// The finished tasks among the first `n` that no core is running.
    pub open spec fn finished_below(self, n: nat) -> Seq<TaskId>
        decreases n,
    {
        if n == 0 {
            Seq::empty()
        } else {
            let id = TaskId((n - 1) as usize);
            let before = self.finished_below((n - 1) as nat);
            if self.core_from(id, 0) is None && self.state(id) == Some(State::Finished) {
                before.push(id)
            } else {
                before
            }
        }
    }

    /// What there is to say of the first `n` tasks.
    pub open spec fn summaries(self, n: nat) -> Seq<Summary>
        decreases n,
    {
        if n == 0 {
            Seq::empty()
        } else {
            let id = TaskId((n - 1) as usize);
            let before = self.summaries((n - 1) as nat);
            match self.tasks[n - 1] {
                None => before,
                Some(task) => before.push(
                    Summary {
                        id,
                        name: self.names[n - 1],
                        state: task.state,
                        core: self.core_from(id, 0),
                        ticks: task.ticks,
                        recent_ticks: task.recent_ticks,
                    },
                ),
            }
        }
    }

    /// With one more task.
    pub open spec fn added(self, name: Seq<char>, state: State) -> Schedule {
        Schedule {
            tasks: self.tasks.push(Some(Task::fresh(state))),
            names: self.names.push(name),
            ..self
        }
    }

    /// With the current task of `core` asleep until `until_us`, unless an interrupt is pending.
    pub open spec fn slept(self, core: usize, until_us: u64) -> Schedule {
        let id = self.current[core as int]->0;
        match self.task(id) {
            None => self,
            Some(task) => self.with_task(
                id,
                if task.interrupt_pending {
                    Task { interrupt_pending: false, ..task }
                } else {
                    Task { state: State::Sleeping { until_us }, ..task }
                },
            ),
        }
    }

    /// With the current task of `core` waiting for `event`, unless an interrupt is pending or
    /// the event was notified since the task saw generation `seen`.
    pub open spec fn waited(self, core: usize, event: Event, seen: Generation) -> Schedule {
        let id = self.current[core as int]->0;
        match self.task(id) {
            None => self,
            Some(task) => self.with_task(
                id,
                if task.interrupt_pending {
                    Task { interrupt_pending: false, ..task }
                } else if self.generation(event) == seen.0 {
                    Task { state: State::Waiting(event), ..task }
                } else {
                    task
                },
            ),
        }
    }

    /// With the current task of `core` blocked, unless a wake is pending.
    pub open spec fn blocked(self, core: usize) -> Schedule {
        let id = self.current[core as int]->0;
        match self.task(id) {
            None => self,
            Some(task) => self.with_task(
                id,
                if task.wake_pending {
                    Task { wake_pending: false, ..task }
                } else {
                    Task { state: State::Blocked, ..task }
                },
            ),
        }
    }

    /// With a blocked task ready, or a wake pending for one that isn't blocked.
    pub open spec fn woken(self, id: TaskId) -> Schedule {
        match self.task(id) {
            None => self,
            Some(task) => self.with_task(
                id,
                match task.state {
                    State::Blocked => Task { state: State::Ready, ..task },
                    State::Finished => task,
                    _ => Task { wake_pending: true, ..task },
                },
            ),
        }
    }

    /// With a sleeping or waiting task ready, or an interrupt pending for one that runs or
    /// could.
    pub open spec fn interrupted(self, id: TaskId) -> Schedule {
        match self.task(id) {
            None => self,
            Some(task) => self.with_task(
                id,
                match task.state {
                    State::Sleeping { .. } | State::Waiting(_) => Task {
                        state: State::Ready,
                        ..task
                    },
                    State::Running | State::Ready => Task { interrupt_pending: true, ..task },
                    State::Blocked | State::Finished => task,
                },
            ),
        }
    }

    /// Without task `id`.
    pub open spec fn reaped(self, id: TaskId) -> Schedule {
        if id.0 < self.tasks.len() {
            Schedule { tasks: self.tasks.update(id.0 as int, None), ..self }
        } else {
            self
        }
    }

    /// With every task that waits for `event` ready, and the event notified once more.
    pub open spec fn notified(self, event: Event) -> Schedule {
        let index = event.0 as int;
        let generations = if self.generations.len() <= index {
            Seq::new(
                (index + 1) as nat,
                |i: int|
                    if i < self.generations.len() {
                        self.generations[i]
                    } else {
                        0
                    },
            )
        } else {
            self.generations
        };
        Schedule {
            tasks: self.tasks.map_values(|t: Option<Task>| notified_task(t, event)),
            generations: generations.update(index, (self.generation(event) + 1) as u64),
            ..self
        }
    }

    /// What a timer tick on `core` does.
    pub open spec fn ticked(self, core: usize, now_us: u64) -> Schedule {
        let id = self.current[core as int]->0;
        let task = self.task(id)->0;
        let counted = self.with_task(
            id,
            Task {
                ticks: (task.ticks + 1) as u64,
                window_ticks: (task.window_ticks + 1) as u64,
                ..task
            },
        );
        let measured = if core != 0 {
            counted
        } else if self.window_elapsed + 1 == CPU_WINDOW {
            Schedule {
                window_elapsed: 0,
                tasks: counted.tasks.map_values(|t: Option<Task>| measured_task(t)),
                ..counted
            }
        } else {
            Schedule { window_elapsed: (self.window_elapsed + 1) as u64, ..counted }
        };
        Schedule {
            tasks: measured.tasks.map_values(|t: Option<Task>| awakened_task(t, now_us)),
            ..measured
        }
    }

    /// With `core` running `next` in place of its current task.
    pub open spec fn switched(self, core: usize, next: TaskId) -> Schedule {
        let current = self.current[core as int]->0;
        let left = if next != current && self.state(current) == Some(State::Running) {
            self.with_state(current, State::Ready)
        } else {
            self
        };
        Schedule {
            current: left.current.update(core as int, Some(next)),
            ..left
        }.with_state(next, State::Running)
    }
}

/// A task after `event` was notified.
pub open spec fn notified_task(task: Option<Task>, event: Event) -> Option<Task> {
    match task {
        Some(t) if t.state == State::Waiting(event) => Some(Task { state: State::Ready, ..t }),
        _ => task,
    }
}

/// A task after a CPU window is complete.
pub open spec fn measured_task(task: Option<Task>) -> Option<Task> {
    match task {
        Some(t) => Some(Task { recent_ticks: t.window_ticks, window_ticks: 0, ..t }),
        None => None,
    }
}

/// A task at time `now_us`.
pub open spec fn awakened_task(task: Option<Task>, now_us: u64) -> Option<Task> {
    match task {
        Some(t) => match t.state {
            State::Sleeping { until_us } => if until_us <= now_us {
                Some(Task { state: State::Ready, ..t })
            } else {
                task
            },
            _ => task,
        },
        None => None,
    }
}

pub struct RunQueue {
    names: Vec<String>,
    tasks: Vec<Option<Task>>,
    current: Vec<Option<TaskId>>,
    idle: Vec<Option<TaskId>>,
    generations: Vec<u64>,
    window_elapsed: u64,
}

impl RunQueue {
    pub closed spec fn view(&self) -> Schedule {
        Schedule {
            tasks: self.tasks@,
            names: Seq::new(self.names@.len(), |i: int| self.names@[i]@),
            current: self.current@,
            idle: self.idle@,
            generations: self.generations@,
            window_elapsed: self.window_elapsed,
        }
    }

    pub closed spec fn wf(&self) -> bool {
        &&& self.names@.len() == self.tasks@.len()
        &&& self.tasks@.len() > 0
        &&& self.current@.len() == self.idle@.len()
        &&& self.window_elapsed < CPU_WINDOW
        &&& forall|c: int|
            0 <= c < self.current@.len() ==> (#[trigger] self.current@[c] matches Some(id) ==> id.0
                < self.tasks@.len())
        &&& forall|c: int|
            0 <= c < self.idle@.len() ==> (#[trigger] self.idle@[c] matches Some(id) ==> id.0
                < self.tasks@.len())
    }

    /// A queue for `cores` cores, whose only task is the code already running on core 0,
    /// which becomes task 0.
    pub fn new(name: &str, cores: usize) -> (r: Self)
        requires
            cores > 0,
        ensures
            r.wf(),
            r@.apart(),
            r@.tasks == seq![Some(Task::fresh(State::Running))],
            r@.names == seq![name@],
            r@.current == Seq::new(
                cores as nat,
                |c: int|
                    if c == 0 {
                        Some(TaskId(0))
                    } else {
                        None
                    },
            ),
            r@.idle == Seq::new(cores as nat, |c: int| None::<TaskId>),
            r@.generations == Seq::<u64>::empty(),
            r@.window_elapsed == 0,
    {
        let mut current: Vec<Option<TaskId>> = vec![None; cores];
        current[0] = Some(TaskId(0));
        let mut tasks: Vec<Option<Task>> = Vec::new();
        tasks.push(Some(Task::new(State::Running)));
        let mut names: Vec<String> = Vec::new();
        names.push(name.to_owned());
        let r = RunQueue {
            names,
            tasks,
            current,
            idle: vec![None; cores],
            generations: Vec::new(),
            window_elapsed: 0,
        };
        proof {
            assert(r@.tasks =~= seq![Some(Task::fresh(State::Running))]);
            assert(r@.names =~= seq![name@]);
            assert(r@.idle =~= Seq::new(cores as nat, |c: int| None::<TaskId>));
        }
        r
    }

    /// The task `core` is running.
    pub fn current(&self, core: usize) -> (r: TaskId)
        requires
            self@.started(core),
        ensures
            self@.current[core as int] == Some(r),
    {
        self.current[core].unwrap()
    }

    /// The core task `id` is running on.
    pub fn core_of(&self, id: TaskId) -> (r: Option<usize>)
        ensures
            r == self@.core_from(id, 0),
    {
        let mut core: usize = 0;
        while core < self.current.len()
            invariant
                core <= self.current@.len(),
                self@.core_from(id, 0) == self@.core_from(id, core as int),
            decreases self.current@.len() - core,
        {
            if self.current[core] == Some(id) {
                return Some(core);
            }
            core += 1;
        }
        None
    }

    /// Adds a ready task.
    pub fn add(&mut self, name: &str) -> (id: TaskId)
        requires
            old(self).wf(),
        ensures
            final(self).wf(),
            final(self)@ == old(self)@.added(name@, State::Ready),
            id.0 == old(self)@.tasks.len(),
    {
        self.add_task(name, State::Ready)
    }

    fn add_task(&mut self, name: &str, state: State) -> (id: TaskId)
        requires
            old(self).wf(),
        ensures
            final(self).wf(),
            final(self)@ == old(self)@.added(name@, state),
            id.0 == old(self)@.tasks.len(),
    {
        self.tasks.push(Some(Task::new(state)));
        self.names.push(name.to_owned());
        assert(self@.names =~= old(self)@.names.push(name@));
        TaskId(self.tasks.len() - 1)
    }

    /// Adds the task `core` runs when nothing else can. It runs nowhere else, and never when
    /// something else could.
    pub fn add_idle(&mut self, name: &str, core: usize) -> (id: TaskId)
        requires
            old(self).wf(),
            core < old(self)@.idle.len(),
        ensures
            final(self).wf(),
            id.0 == old(self)@.tasks.len(),
            final(self)@ == (Schedule {
                idle: old(self)@.idle.update(core as int, Some(id)),
                ..old(self)@.added(name@, State::Ready)
            }),
            old(self)@.apart() ==> final(self)@.apart(),
    {
        let id = self.add(name);
        self.idle[core] = Some(id);
        id
    }

    /// Starts `core`: the code running on it becomes its idle task.
    pub fn start_core(&mut self, name: &str, core: usize) -> (id: TaskId)
        requires
            old(self).wf(),
            core < old(self)@.current.len(),
            old(self)@.current[core as int] is None,
        ensures
            final(self).wf(),
            id.0 == old(self)@.tasks.len(),
            final(self)@ == (Schedule {
                idle: old(self)@.idle.update(core as int, Some(id)),
                current: old(self)@.current.update(core as int, Some(id)),
                ..old(self)@.added(name@, State::Running)
            }),
            old(self)@.apart() ==> final(self)@.apart(),
    {
        let id = self.add_task(name, State::Running);
        self.idle[core] = Some(id);
        self.current[core] = Some(id);
        id
    }

    pub fn state(&self, id: TaskId) -> (r: Option<State>)
        ensures
            r == self@.state(id),
    {
        match self.task(id) {
            Some(task) => Some(task.state),
            None => None,
        }
    }

    fn task(&self, id: TaskId) -> (r: Option<Task>)
        ensures
            r == self@.task(id),
    {
        if id.0 < self.tasks.len() {
            self.tasks[id.0]
        } else {
            None
        }
    }

    /// Replaces what is kept of a task that is there.
    fn set_task(&mut self, id: TaskId, task: Task)
        requires
            old(self).wf(),
        ensures
            final(self).wf(),
            final(self)@ == old(self)@.with_task(id, task),
    {
        if id.0 < self.tasks.len() {
            if self.tasks[id.0].is_some() {
                self.tasks[id.0] = Some(task);
            }
        }
    }

    fn set_state(&mut self, id: TaskId, state: State)
        requires
            old(self).wf(),
        ensures
            final(self).wf(),
            final(self)@ == old(self)@.with_state(id, state),
    {
        match self.task(id) {
            Some(task) => self.set_task(id, Task { state, ..task }),
            None => {},
        }
    }

    fn is_idle(&self, id: TaskId) -> (r: bool)
        ensures
            r == self@.is_idle(id),
    {
        let mut core: usize = 0;
        while core < self.idle.len()
            invariant
                core <= self.idle@.len(),
                forall|c: int| 0 <= c < core ==> #[trigger] self.idle@[c] != Some(id),
            decreases self.idle@.len() - core,
        {
            if self.idle[core] == Some(id) {
                assert(self@.idle[core as int] == Some(id));
                return true;
            }
            core += 1;
        }
        false
    }

    /// The current task of `core`, taking a pending interrupt if it has one.
    fn take_interrupt(&mut self, core: usize) -> (r: (TaskId, bool))
        requires
            old(self).wf(),
            old(self)@.started(core),
        ensures
            final(self).wf(),
            old(self)@.current[core as int] == Some(r.0),
            match old(self)@.task(r.0) {
                Some(task) => {
                    &&& r.1 == task.interrupt_pending
                    &&& final(self)@ == old(self)@.with_task(
                        r.0,
                        Task { interrupt_pending: false, ..task },
                    )
                },
                None => !r.1 && final(self)@ == old(self)@,
            },
    {
        let current = self.current(core);
        match self.task(current) {
            Some(task) => {
                self.set_task(current, Task { interrupt_pending: false, ..task });
                (current, task.interrupt_pending)
            },
            None => (current, false),
        }
    }

    /// The current task of `core` stops being runnable until `until_us`, unless it was
    /// interrupted meanwhile. Takes effect at the next `pick_next`.
    pub fn sleep_current(&mut self, core: usize, until_us: u64)
        requires
            old(self).wf(),
            old(self)@.started(core),
        ensures
            final(self).wf(),
            final(self)@ == old(self)@.slept(core, until_us),
    {
        let (current, interrupted) = self.take_interrupt(core);
        if !interrupted {
            self.set_state(current, State::Sleeping { until_us });
        }
        proof {
            let task = old(self)@.task(current)->0;
            let after = if interrupted {
                Task { interrupt_pending: false, ..task }
            } else {
                Task { state: State::Sleeping { until_us }, ..task }
            };
            assert(self@.tasks =~= old(self)@.with_task(current, after).tasks);
        }
    }

    /// How many times `event` has been notified.
    pub fn generation(&self, event: Event) -> (r: Generation)
        ensures
            r.0 == self@.generation(event),
    {
        if (event.0 as usize) < self.generations.len() {
            Generation(self.generations[event.0 as usize])
        } else {
            Generation(0)
        }
    }

    /// The current task of `core` stops being runnable until `event` is notified. Unless it
    /// already was since the task saw generation `seen` (or the task was interrupted): then
    /// it stays runnable, to look again.
    pub fn wait_current(&mut self, core: usize, event: Event, seen: Generation)
        requires
            old(self).wf(),
            old(self)@.started(core),
        ensures
            final(self).wf(),
            final(self)@ == old(self)@.waited(core, event, seen),
    {
        let (current, interrupted) = self.take_interrupt(core);
        if !interrupted && self.generation(event) == seen {
            self.set_state(current, State::Waiting(event));
        }
        proof {
            let task = old(self)@.task(current)->0;
            let after = if interrupted {
                Task { interrupt_pending: false, ..task }
            } else if old(self)@.generation(event) == seen.0 {
                Task { state: State::Waiting(event), ..task }
            } else {
                task
            };
            assert(self@.tasks =~= old(self)@.with_task(current, after).tasks);
        }
    }

    /// The current task of `core` stops being runnable until `wake` is called with its id,
    /// unless that already happened.
    pub fn block_current(&mut self, core: usize)
        requires
            old(self).wf(),
            old(self)@.started(core),
        ensures
            final(self).wf(),
            final(self)@ == old(self)@.blocked(core),
    {
        let current = self.current(core);
        match self.task(current) {
            Some(task) => {
                if task.wake_pending {
                    self.set_task(current, Task { wake_pending: false, ..task });
                } else {
                    self.set_task(current, Task { state: State::Blocked, ..task });
                }
            },
            None => {},
        }
    }

    /// Makes a blocked task ready. Returns whether it was blocked; if it wasn't, its next
    /// `block_current` returns straight away.
    pub fn wake(&mut self, id: TaskId) -> (r: bool)
        requires
            old(self).wf(),
        ensures
            final(self).wf(),
            r == (old(self)@.state(id) == Some(State::Blocked)),
            final(self)@ == old(self)@.woken(id),
    {
        match self.task(id) {
            Some(task) => match task.state {
                State::Blocked => {
                    self.set_task(id, Task { state: State::Ready, ..task });
                    true
                },
                State::Finished => {
                    assert(self@.with_task(id, task).tasks =~= self@.tasks);
                    false
                },
                _ => {
                    self.set_task(id, Task { wake_pending: true, ..task });
                    false
                },
            },
            None => false,
        }
    }

    /// Makes a sleeping or waiting task ready early, so it notices something has changed
    /// (like being killed). Returns whether it was sleeping or waiting; if it was running or
    /// ready, its next sleep or wait doesn't happen. A blocked task waits on for its lock.
    pub fn interrupt(&mut self, id: TaskId) -> (r: bool)
        requires
            old(self).wf(),
        ensures
            final(self).wf(),
            r == (old(self)@.state(id) matches Some(state) && (state is Sleeping
                || state is Waiting)),
            final(self)@ == old(self)@.interrupted(id),
    {
        match self.task(id) {
            Some(task) => match task.state {
                State::Sleeping { .. } | State::Waiting(_) => {
                    self.set_task(id, Task { state: State::Ready, ..task });
                    true
                },
                State::Running | State::Ready => {
                    self.set_task(id, Task { interrupt_pending: true, ..task });
                    false
                },
                _ => {
                    assert(self@.with_task(id, task).tasks =~= self@.tasks);
                    false
                },
            },
            None => false,
        }
    }

    pub fn finish_current(&mut self, core: usize)
        requires
            old(self).wf(),
            old(self)@.started(core),
        ensures
            final(self).wf(),
            final(self)@ == old(self)@.with_state(
                old(self)@.current[core as int]->0,
                State::Finished,
            ),
    {
        let current = self.current(core);
        self.set_state(current, State::Finished);
    }

    /// Makes every task waiting for `event` ready, and moves its generation on. Returns
    /// whether any task was waiting.
    pub fn notify(&mut self, event: Event) -> (r: bool)
        requires
            old(self).wf(),
            event.0 < usize::MAX,
            old(self)@.generation(event) < u64::MAX,
        ensures
            final(self).wf(),
            final(self)@ == old(self)@.notified(event),
            r == exists|i: int|
                0 <= i < old(self)@.tasks.len() && old(self)@.tasks[i] is Some && (
                #[trigger] old(self)@.tasks[i])->0.state == State::Waiting(event),
    {
        let index = event.0 as usize;
        if self.generations.len() <= index {
            self.generations.resize(index + 1, 0);
        }
        self.generations[index] = self.generations[index] + 1;
        assert(self.generations@ =~= old(self)@.notified(event).generations);
        let mut woke = false;
        let mut i: usize = 0;
        let ghost before = self.tasks@;
        while i < self.tasks.len()
            invariant
                self.wf(),
                i <= self.tasks@.len(),
                self.tasks@.len() == before.len(),
                before == old(self).tasks@,
                self.names == old(self).names,
                self.current == old(self).current,
                self.idle == old(self).idle,
                self.window_elapsed == old(self).window_elapsed,
                self.generations@ == old(self)@.notified(event).generations,
                forall|k: int|
                    0 <= k < before.len() ==> #[trigger] self.tasks@[k] == if k < i {
                        notified_task(before[k], event)
                    } else {
                        before[k]
                    },
                woke == exists|k: int|
                    0 <= k < i && before[k] is Some && (#[trigger] before[k])->0.state
                        == State::Waiting(event),
            decreases self.tasks@.len() - i,
        {
            assert(self.tasks@[i as int] == before[i as int]);
            if let Some(task) = self.tasks[i] {
                if task.state == State::Waiting(event) {
                    self.tasks[i] = Some(Task { state: State::Ready, ..task });
                    woke = true;
                }
            }
            i += 1;
        }
        assert(self@.tasks =~= old(self)@.notified(event).tasks);
        woke
    }

    /// Accounts a timer tick on `core` to its current task, and wakes sleepers whose time has
    /// come. Core 0's ticks also measure out the CPU window.
    pub fn tick(&mut self, core: usize, now_us: u64)
        requires
            old(self).wf(),
            old(self)@.started(core),
            old(self)@.task(old(self)@.current[core as int]->0) matches Some(task) ==> task.ticks
                < u64::MAX && task.window_ticks < u64::MAX,
        ensures
            final(self).wf(),
            final(self)@ == old(self)@.ticked(core, now_us),
    {
        let current = self.current(core);
        match self.task(current) {
            Some(task) => self.set_task(
                current,
                Task { ticks: task.ticks + 1, window_ticks: task.window_ticks + 1, ..task },
            ),
            None => {},
        }
        if core == 0 {
            if self.window_elapsed + 1 == CPU_WINDOW {
                self.window_elapsed = 0;
                self.complete_window();
            } else {
                self.window_elapsed = self.window_elapsed + 1;
            }
        }
        let ghost measured = self@;
        let mut i: usize = 0;
        let ghost before = self.tasks@;
        while i < self.tasks.len()
            invariant
                self.wf(),
                i <= self.tasks@.len(),
                self.tasks@.len() == before.len(),
                self@ == (Schedule { tasks: self.tasks@, ..measured }),
                forall|k: int|
                    0 <= k < before.len() ==> #[trigger] self.tasks@[k] == if k < i {
                        awakened_task(before[k], now_us)
                    } else {
                        before[k]
                    },
            decreases self.tasks@.len() - i,
        {
            assert(self.tasks@[i as int] == before[i as int]);
            if let Some(task) = self.tasks[i] {
                if let State::Sleeping { until_us } = task.state {
                    if until_us <= now_us {
                        self.tasks[i] = Some(Task { state: State::Ready, ..task });
                    }
                }
            }
            i += 1;
        }
        assert(self@.tasks =~= old(self)@.ticked(core, now_us).tasks);
    }

    /// Ends a CPU window.
    fn complete_window(&mut self)
        requires
            old(self).wf(),
        ensures
            final(self).wf(),
            final(self)@ == (Schedule {
                tasks: old(self)@.tasks.map_values(|t: Option<Task>| measured_task(t)),
                ..old(self)@
            }),
    {
        let mut i: usize = 0;
        let ghost before = self.tasks@;
        while i < self.tasks.len()
            invariant
                self.wf(),
                i <= self.tasks@.len(),
                self.tasks@.len() == before.len(),
                before == old(self).tasks@,
                self@ == (Schedule { tasks: self.tasks@, ..old(self)@ }),
                forall|k: int|
                    0 <= k < before.len() ==> #[trigger] self.tasks@[k] == if k < i {
                        measured_task(before[k])
                    } else {
                        before[k]
                    },
            decreases self.tasks@.len() - i,
        {
            assert(self.tasks@[i as int] == before[i as int]);
            if let Some(task) = self.tasks[i] {
                self.tasks[i] = Some(
                    Task { recent_ticks: task.window_ticks, window_ticks: 0, ..task },
                );
            }
            i += 1;
        }
        assert(self@.tasks =~= old(self)@.tasks.map_values(|t: Option<Task>| measured_task(t)));
    }

    /// Chooses the task `core` runs next and marks it running. With `preempt`, its running
    /// task goes to the back of the line; without, it keeps running if it still can (unless
    /// it is the idle task and something else became ready). Tasks `busy` says another core
    /// is still switching away from aren't picked.
    pub fn pick_next(&mut self, core: usize, preempt: bool, busy: impl Fn(TaskId) -> bool) -> (next:
        TaskId)
        requires
            old(self).wf(),
            old(self)@.started(core),
            forall|id: TaskId| call_requires(busy, (id,)),
        ensures
            final(self).wf(),
            final(self)@ == old(self)@.switched(core, next),
            ({
                let q = old(self)@;
                let current = q.current[core as int]->0;
                let keep = q.state(current) == Some(State::Running) && !q.is_idle(current);
                if keep && !preempt {
                    next == current
                } else {
                    // The first ready task after the current one, wrapping around...
                    ||| exists|offset: int|
                        {
                            &&& 1 <= offset <= q.tasks.len()
                            &&& next == #[trigger] q.in_round(current, offset)
                            &&& q.eligible(next)
                            &&& call_ensures(busy, (next,), false)
                            &&& forall|earlier: int|
                                1 <= earlier < offset ==> (q.eligible(
                                    #[trigger] q.in_round(current, earlier),
                                ) ==> call_ensures(busy, (q.in_round(current, earlier),), true))
                        }
                    // ...or the current one, or else the idle one.
                    ||| {
                        &&& next == if keep {
                            current
                        } else if q.idle[core as int] is Some {
                            q.idle[core as int]->0
                        } else {
                            current
                        }
                        &&& forall|offset: int|
                            1 <= offset <= q.tasks.len() ==> (q.eligible(
                                #[trigger] q.in_round(current, offset),
                            ) ==> call_ensures(busy, (q.in_round(current, offset),), true))
                    }
                }
            }),
    {
        let current = self.current(core);
        let current_runnable = self.state(current) == Some(State::Running);
        let keep_current = current_runnable && !self.is_idle(current);
        let next = if keep_current && !preempt {
            current
        } else {
            match self.next_ready(current, &busy) {
                Some(id) => id,
                None => if keep_current {
                    current
                } else {
                    match self.idle[core] {
                        Some(idle) => idle,
                        None => current,
                    }
                },
            }
        };
        if next != current && current_runnable {
            self.set_state(current, State::Ready);
        }
        self.current[core] = Some(next);
        self.set_state(next, State::Running);
        next
    }

    /// The first ready task after `current` that isn't busy, wrapping around.
    fn next_ready(&self, current: TaskId, busy: &impl Fn(TaskId) -> bool) -> (r: Option<TaskId>)
        requires
            self.wf(),
            current.0 < self@.tasks.len(),
            forall|id: TaskId| call_requires(*busy, (id,)),
        ensures
            match r {
                Some(next) => exists|offset: int|
                    {
                        &&& 1 <= offset <= self@.tasks.len()
                        &&& next == #[trigger] self@.in_round(current, offset)
                        &&& self@.eligible(next)
                        &&& call_ensures(*busy, (next,), false)
                        &&& forall|earlier: int|
                            1 <= earlier < offset ==> (self@.eligible(
                                #[trigger] self@.in_round(current, earlier),
                            ) ==> call_ensures(
                                *busy,
                                (self@.in_round(current, earlier),),
                                true,
                            ))
                    },
                None => forall|offset: int|
                    1 <= offset <= self@.tasks.len() ==> (self@.eligible(
                        #[trigger] self@.in_round(current, offset),
                    ) ==> call_ensures(*busy, (self@.in_round(current, offset),), true)),
            },
    {
        let count = self.tasks.len();
        let mut at: usize = current.0;
        let mut offset: usize = 0;
        while offset < count
            invariant
                self.wf(),
                count == self@.tasks.len(),
                current.0 < count,
                offset <= count,
                at == if current.0 + offset < count {
                    current.0 + offset
                } else {
                    current.0 + offset - count
                },
                forall|id: TaskId| call_requires(*busy, (id,)),
                forall|earlier: int|
                    1 <= earlier <= offset ==> (self@.eligible(
                        #[trigger] self@.in_round(current, earlier),
                    ) ==> call_ensures(*busy, (self@.in_round(current, earlier),), true)),
            decreases count - offset,
        {
            at = if at + 1 < count {
                at + 1
            } else {
                0
            };
            offset += 1;
            let id = TaskId(at);
            proof {
                if current.0 + offset >= count {
                    assert((current.0 + offset) % count as int == current.0 + offset - count)
                        by (nonlinear_arith)
                        requires
                            count <= current.0 + offset < 2 * count,
                            count > 0,
                    ;
                } else {
                    vstd::arithmetic::div_mod::lemma_small_mod(
                        (current.0 + offset) as nat,
                        count as nat,
                    );
                }
                assert(id == self@.in_round(current, offset as int));
            }
            if self.state(id) == Some(State::Ready) && !self.is_idle(id) {
                if !busy(id) {
                    return Some(id);
                }
            }
        }
        None
    }

    /// Finished tasks no core is running, whose stacks can be freed once no core is still
    /// switching away from them.
    pub fn finished(&self) -> (r: Vec<TaskId>)
        ensures
            r@ == self@.finished_below(self@.tasks.len()),
    {
        let mut out: Vec<TaskId> = Vec::new();
        let mut i: usize = 0;
        while i < self.tasks.len()
            invariant
                i <= self.tasks@.len(),
                out@ == self@.finished_below(i as nat),
            decreases self.tasks@.len() - i,
        {
            let id = TaskId(i);
            if self.core_of(id).is_none() && self.state(id) == Some(State::Finished) {
                out.push(id);
            }
            i += 1;
        }
        out
    }

    /// Forgets a task. Its id is not reused.
    pub fn remove(&mut self, id: TaskId)
        requires
            old(self).wf(),
        ensures
            final(self).wf(),
            final(self)@ == old(self)@.reaped(id),
    {
        if id.0 < self.tasks.len() {
            self.tasks[id.0] = None;
        }
    }

    pub fn tasks(&self) -> (r: Vec<TaskInfo>)
        requires
            self.wf(),
        ensures
            r@.len() == self@.summaries(self@.tasks.len()).len(),
            forall|k: int|
                0 <= k < r@.len() ==> (#[trigger] r@[k])@ == self@.summaries(self@.tasks.len())[k],
    {
        let mut out: Vec<TaskInfo> = Vec::new();
        let mut i: usize = 0;
        while i < self.tasks.len()
            invariant
                self.wf(),
                i <= self.tasks@.len(),
                out@.len() == self@.summaries(i as nat).len(),
                forall|k: int|
                    0 <= k < out@.len() ==> (#[trigger] out@[k])@ == self@.summaries(i as nat)[k],
            decreases self.tasks@.len() - i,
        {
            let id = TaskId(i);
            if let Some(task) = self.tasks[i] {
                out.push(
                    TaskInfo {
                        id,
                        name: self.names[i].clone(),
                        state: task.state,
                        core: self.core_of(id),
                        ticks: task.ticks,
                        recent_ticks: task.recent_ticks,
                    },
                );
            }
            i += 1;
        }
        out
    }
}

/// Cores never run the same task: if they don't now, they don't after `core` has switched to
/// a task that was ready (and that no other core was running), to its own idle task, or back
/// to its own.
pub proof fn cores_never_run_the_same_task(q: Schedule, core: usize, next: TaskId)
    requires
        q.apart(),
        q.started(core),
        q.current.len() == q.idle.len(),
        q.current[core as int] == Some(next) || q.idle[core as int] == Some(next) || (q.eligible(
            next,
        ) && forall|c: int|
            0 <= c < q.current.len() ==> #[trigger] q.current[c] != Some(next)),
    ensures
        q.switched(core, next).apart(),
        q.switched(core, next).task(next) is Some ==> q.switched(core, next).state(next) == Some(
            State::Running,
        ),
{
    let after = q.switched(core, next);
    assert(after.idle == q.idle);
    assert(after.current =~= q.current.update(core as int, Some(next)));
    assert forall|c: int, d: int|
        0 <= c < after.current.len() && 0 <= d < after.idle.len() && c != d
            && #[trigger] after.current[c] is Some implies after.current[c]
        != #[trigger] after.idle[d] by {
        if c == core as int {
            if after.idle[d] == Some(next) {
                assert(q.is_idle(next));
                assert(q.idle[d] == Some(next));
            }
        }
    }
    assert forall|c: int, d: int|
        0 <= c < d < after.current.len() && #[trigger] after.current[c] is Some implies after.current[c]
        != #[trigger] after.current[d] by {
        if c == core as int {
            assert(q.current[d] != Some(next)) by {
                if q.current[d] == Some(next) && q.idle[core as int] == Some(next) {
                    assert(q.current[d] != q.idle[core as int]);
                }
            }
        } else if d == core as int {
            assert(q.current[c] != Some(next)) by {
                if q.current[c] == Some(next) && q.idle[core as int] == Some(next) {
                    assert(q.current[c] != q.idle[core as int]);
                }
            }
        }
    }
}

/// A notification isn't lost: one that comes after a task looked keeps the task from waiting.
pub proof fn a_notify_after_looking_keeps_the_task_from_waiting(
    q: Schedule,
    core: usize,
    event: Event,
)
    requires
        q.generation(event) < u64::MAX,
        q.started(core),
        q.state(q.current[core as int]->0) == Some(State::Running),
    ensures
        ({
            let id = q.current[core as int]->0;
            let after = q.notified(event);
            &&& after.waited(core, event, Generation(q.generation(event))).state(id) == Some(
                State::Running,
            )
            &&& forall|other: Event| #[trigger] after.generation(other) >= q.generation(other)
            &&& forall|other: TaskId| #[trigger]
                after.state(other) != Some(State::Waiting(event))
        }),
{
}

/// A wake isn't lost: it makes a blocked task ready, and one that comes before a running task
/// blocks keeps it from blocking.
pub proof fn a_wake_is_kept(q: Schedule, core: usize, id: TaskId)
    ensures
        q.state(id) == Some(State::Blocked) ==> q.woken(id).state(id) == Some(State::Ready),
        q.started(core) && q.current[core as int] == Some(id) && q.state(id) == Some(
            State::Running,
        ) ==> q.woken(id).blocked(core).state(id) == Some(State::Running),
{
}

/// An interrupt isn't lost: it makes a sleeping or waiting task ready, and one that comes before
/// a running task sleeps or waits keeps it from that.
pub proof fn an_interrupt_is_kept(
    q: Schedule,
    core: usize,
    id: TaskId,
    until_us: u64,
    event: Event,
    seen: Generation,
)
    ensures
        q.state(id) matches Some(state) && (state is Sleeping || state is Waiting)
            ==> q.interrupted(id).state(id) == Some(State::Ready),
        q.started(core) && q.current[core as int] == Some(id) && q.state(id) == Some(
            State::Running,
        ) ==> q.interrupted(id).slept(core, until_us).state(id) == Some(State::Running)
            && q.interrupted(id).waited(core, event, seen).state(id) == Some(State::Running),
{
}

/// Whether nothing in `after` has the id of a task that was reaped before.
pub open spec fn ids_kept(before: Schedule, after: Schedule) -> bool {
    &&& after.tasks.len() >= before.tasks.len()
    &&& forall|i: int|
        0 <= i < before.tasks.len() && before.tasks[i] is None ==> #[trigger] after.tasks[i] is None
}

/// Ids are never reused: once a task is reaped, nothing has its id any more.
pub proof fn ids_are_never_reused(
    q: Schedule,
    core: usize,
    id: TaskId,
    name: Seq<char>,
    state: State,
    event: Event,
    seen: Generation,
    time_us: u64,
)
    ensures
        ids_kept(q, q.added(name, state)),
        ids_kept(q, q.slept(core, time_us)),
        ids_kept(q, q.waited(core, event, seen)),
        ids_kept(q, q.blocked(core)),
        ids_kept(q, q.woken(id)),
        ids_kept(q, q.interrupted(id)),
        ids_kept(q, q.with_state(id, state)),
        ids_kept(q, q.notified(event)),
        ids_kept(q, q.ticked(core, time_us)),
        ids_kept(q, q.switched(core, id)),
        ids_kept(q, q.reaped(id)),
{
}

/// A tick counts one for the task that its core runs, and none for the others. It makes just the
/// sleeping tasks ready whose time has come, and changes no other task's state.
pub proof fn ticks_count_and_wake(q: Schedule, core: usize, now_us: u64, id: TaskId)
    requires
        q.started(core),
        q.task(id) is Some,
        q.task(id)->0.ticks < u64::MAX,
        q.task(id)->0.window_ticks < u64::MAX,
    ensures
        ({
            let after = q.ticked(core, now_us);
            let task = q.task(id)->0;
            let then = after.task(id)->0;
            &&& after.task(id) is Some
            &&& then.ticks == task.ticks + if q.current[core as int] == Some(id) {
                1int
            } else {
                0
            }
            &&& then.state == match task.state {
                State::Sleeping { until_us } => if now_us < until_us {
                    task.state
                } else {
                    State::Ready
                },
                state => state,
            }
            &&& then.wake_pending == task.wake_pending
            &&& then.interrupt_pending == task.interrupt_pending
            &&& after.current == q.current
            &&& after.idle == q.idle
            &&& after.names == q.names
            &&& after.generations == q.generations
        }),
{
}

/// What ticks on core 0, at the given times, do.
pub open spec fn ticked_at(q: Schedule, times: Seq<u64>) -> Schedule
    decreases times.len(),
{
    if times.len() == 0 {
        q
    } else {
        ticked_at(q, times.drop_last()).ticked(0, times.last())
    }
}

proof fn lemma_ticked_at(q: Schedule, times: Seq<u64>, id: TaskId)
    requires
        q.started(0),
        q.window_elapsed == 0,
        q.task(id) matches Some(task) && task.window_ticks == 0 && task.ticks <= u64::MAX - 100,
        times.len() < 100,
    ensures
        ({
            let after = ticked_at(q, times);
            let ran = if q.current[0] == Some(id) {
                times.len()
            } else {
                0
            };
            &&& after.window_elapsed == times.len()
            &&& after.current == q.current
            &&& after.task(id) matches Some(task) && task.window_ticks == ran && task.ticks
                == q.task(id)->0.ticks + ran && task.recent_ticks == q.task(id)->0.recent_ticks
        }),
    decreases times.len(),
{
    if times.len() > 0 {
        lemma_ticked_at(q, times.drop_last(), id);
    }
}

/// Recent CPU use is that of the last hundred ticks of core 0: of a task that ran on it all along
/// it is 100 then, and of one that ran on no core it is none. Before that it stays what it was.
pub proof fn recent_use_is_of_a_hundred_ticks(q: Schedule, times: Seq<u64>, id: TaskId)
    requires
        q.started(0),
        q.window_elapsed == 0,
        q.task(id) matches Some(task) && task.window_ticks == 0 && task.ticks <= u64::MAX - 100,
        times.len() <= 100,
    ensures
        ticked_at(q, times).task(id) matches Some(task) && task.recent_ticks == if times.len()
            < 100 {
            q.task(id)->0.recent_ticks as int
        } else if q.current[0] == Some(id) {
            100
        } else {
            0
        },
        times.len() == 100 ==> ticked_at(q, times).window_elapsed == 0,
        times.len() == 100 ==> (ticked_at(q, times).task(id)->0).window_ticks == 0,
{
    if times.len() < 100 {
        lemma_ticked_at(q, times, id);
    } else {
        lemma_ticked_at(q, times.drop_last(), id);
    }
}

/// A notification makes just the tasks ready that wait for its event, and counts for that event
/// alone.
pub proof fn notifications_reach_their_waiters(
    q: Schedule,
    event: Event,
    other: Event,
    id: TaskId,
)
    requires
        q.generation(event) < u64::MAX,
        other != event,
    ensures
        ({
            let after = q.notified(event);
            &&& after.generation(event) == q.generation(event) + 1
            &&& after.generation(other) == q.generation(other)
            &&& q.state(id) == Some(State::Waiting(event)) ==> after.task(id) == Some(
                Task { state: State::Ready, ..q.task(id)->0 },
            )
            &&& q.state(id) != Some(State::Waiting(event)) ==> after.task(id) == q.task(id)
            &&& after.current == q.current
            &&& after.idle == q.idle
        }),
{
}

/// A running task goes to sleep, waits or blocks when it asks to. One for which something came
/// before goes on running the first time and not the second.
pub proof fn tasks_stop_when_they_ask_to(
    q: Schedule,
    core: usize,
    until_us: u64,
    event: Event,
)
    requires
        q.started(core),
        q.state(q.current[core as int]->0) == Some(State::Running),
    ensures
        ({
            let id = q.current[core as int]->0;
            let task = q.task(id)->0;
            let seen = Generation(q.generation(event));
            let sleeps = State::Sleeping { until_us };
            let slept = q.slept(core, until_us);
            let waited = q.waited(core, event, seen);
            if task.interrupt_pending {
                &&& slept.state(id) == Some(State::Running)
                &&& waited.state(id) == Some(State::Running)
                &&& slept.slept(core, until_us).state(id) == Some(sleeps)
                &&& waited.waited(core, event, seen).state(id) == Some(State::Waiting(event))
            } else {
                &&& slept.state(id) == Some(sleeps)
                &&& waited.state(id) == Some(State::Waiting(event))
            }
        }),
        ({
            let id = q.current[core as int]->0;
            let blocked = q.blocked(core);
            if q.task(id)->0.wake_pending {
                &&& blocked.state(id) == Some(State::Running)
                &&& blocked.blocked(core).state(id) == Some(State::Blocked)
            } else {
                blocked.state(id) == Some(State::Blocked)
            }
        }),
{
}

/// Waking and interrupting a task leave the others as they are. Neither brings a finished task
/// back, a wake ends no sleep and no wait, and an interrupt doesn't unblock.
pub proof fn wakes_and_interrupts_are_for_one_task(q: Schedule, id: TaskId, other: TaskId)
    requires
        other != id,
    ensures
        q.woken(id).task(other) == q.task(other),
        q.interrupted(id).task(other) == q.task(other),
        q.state(id) != Some(State::Blocked) ==> q.woken(id).state(id) == q.state(id),
        q.state(id) == Some(State::Blocked) ==> q.interrupted(id) == q,
        q.state(id) == Some(State::Finished) ==> q.woken(id).task(id) == q.task(id)
            && q.interrupted(id) == q,
{
    if q.task(id) is Some {
        assert(q.tasks.update(id.0 as int, q.task(id)) =~= q.tasks);
    }
}

/// A core that switches runs the task it switched to. The task it leaves is ready again if it
/// was running, and stays asleep, waiting, blocked or finished if it was that. The other tasks
/// and cores don't notice.
pub proof fn switching_changes_two_tasks(
    q: Schedule,
    core: usize,
    next: TaskId,
    other: TaskId,
    elsewhere: usize,
)
    requires
        q.started(core),
        q.task(next) is Some,
        elsewhere != core,
        elsewhere < q.current.len(),
    ensures
        ({
            let left = q.current[core as int]->0;
            let after = q.switched(core, next);
            &&& after.current[core as int] == Some(next)
            &&& after.current[elsewhere as int] == q.current[elsewhere as int]
            &&& after.task(next) == Some(Task { state: State::Running, ..q.task(next)->0 })
            &&& left != next && q.state(left) == Some(State::Running) ==> after.task(left) == Some(
                Task { state: State::Ready, ..q.task(left)->0 },
            )
            &&& left != next && q.state(left) != Some(State::Running) ==> after.task(left)
                == q.task(left)
            &&& other != left && other != next ==> after.task(other) == q.task(other)
        }),
{
}

proof fn lemma_core_from(q: Schedule, id: TaskId, from: int)
    requires
        0 <= from <= q.current.len(),
        q.current.len() <= usize::MAX,
    ensures
        match q.core_from(id, from) {
            None => forall|c: int|
                from <= c < q.current.len() ==> #[trigger] q.current[c] != Some(id),
            Some(core) => from <= core < q.current.len() && q.current[core as int] == Some(id),
        },
    decreases q.current.len() - from,
{
    if from < q.current.len() && q.current[from] != Some(id) {
        lemma_core_from(q, id, from + 1);
    }
}

/// A task is on a core just if that core runs it.
pub proof fn tasks_are_where_they_run(q: Schedule, id: TaskId)
    requires
        q.current.len() <= usize::MAX,
    ensures
        match q.core_from(id, 0) {
            None => forall|c: int|
                0 <= c < q.current.len() ==> #[trigger] q.current[c] != Some(id),
            Some(core) => core < q.current.len() && q.current[core as int] == Some(id),
        },
{
    lemma_core_from(q, id, 0);
}

proof fn lemma_finished_below(q: Schedule, n: nat)
    requires
        n <= usize::MAX,
        q.current.len() <= usize::MAX,
    ensures
        forall|id: TaskId| #[trigger]
            q.finished_below(n).contains(id) <==> id.0 < n && q.state(id) == Some(State::Finished)
                && forall|c: int| 0 <= c < q.current.len() ==> #[trigger] q.current[c] != Some(id),
        forall|i: int, j: int|
            0 <= i < j < q.finished_below(n).len() ==> (#[trigger] q.finished_below(n)[i]).0 < (
            #[trigger] q.finished_below(n)[j]).0,
        forall|i: int| 0 <= i < q.finished_below(n).len() ==> (#[trigger] q.finished_below(n)[i]).0 < n,
    decreases n,
{
    if n > 0 {
        let below = (n - 1) as nat;
        let last = TaskId((n - 1) as usize);
        let before = q.finished_below(below);
        let all = q.finished_below(n);
        lemma_finished_below(q, below);
        lemma_core_from(q, last, 0);
        if all != before {
            assert(all == before.push(last));
            assert forall|id: TaskId| #[trigger] all.contains(id) <==> before.contains(id) || id
                == last by {
                if before.contains(id) {
                    let i = choose|i: int| 0 <= i < before.len() && before[i] == id;
                    assert(all[i] == id);
                }
                if id == last {
                    assert(all[before.len() as int] == id);
                }
            }
        }
        assert forall|id: TaskId| #[trigger] all.contains(id) <==> id.0 < n && q.state(id) == Some(
            State::Finished,
        ) && forall|c: int| 0 <= c < q.current.len() ==> #[trigger] q.current[c] != Some(id) by {
            assert(before.contains(id) <==> id.0 < below && q.state(id) == Some(State::Finished)
                && forall|c: int| 0 <= c < q.current.len() ==> #[trigger] q.current[c] != Some(id));
            if id.0 == below {
                assert(id == last);
            }
        }
    }
}

/// What can be reaped are the finished tasks that no core runs any more, all of them, each once
/// and in the order they were added.
pub proof fn finished_tasks_are_told(q: Schedule)
    requires
        q.tasks.len() <= usize::MAX,
        q.current.len() <= usize::MAX,
    ensures
        ({
            let told = q.finished_below(q.tasks.len());
            &&& forall|id: TaskId| #[trigger]
                told.contains(id) <==> q.state(id) == Some(State::Finished) && forall|c: int|
                    0 <= c < q.current.len() ==> #[trigger] q.current[c] != Some(id)
            &&& forall|i: int, j: int|
                0 <= i < j < told.len() ==> (#[trigger] told[i]).0 < (#[trigger] told[j]).0
        }),
{
    lemma_finished_below(q, q.tasks.len());
}

proof fn lemma_summaries(q: Schedule, n: nat)
    requires
        n <= q.tasks.len() <= usize::MAX,
        q.current.len() <= usize::MAX,
    ensures
        forall|i: int|
            0 <= i < n && #[trigger] q.tasks[i] is Some ==> exists|k: int|
                0 <= k < q.summaries(n).len() && (#[trigger] q.summaries(n)[k]).id.0 == i,
        forall|k: int|
            0 <= k < q.summaries(n).len() ==> tells_of_a_task(q, #[trigger] q.summaries(n)[k])
                && q.summaries(n)[k].id.0 < n,
        forall|k: int, l: int|
            0 <= k < l < q.summaries(n).len() ==> (#[trigger] q.summaries(n)[k]).id.0 < (
            #[trigger] q.summaries(n)[l]).id.0,
    decreases n,
{
    if n > 0 {
        let below = (n - 1) as nat;
        let before = q.summaries(below);
        let all = q.summaries(n);
        lemma_summaries(q, below);
        if q.tasks[n - 1] is Some {
            lemma_core_from(q, TaskId((n - 1) as usize), 0);
            assert(all.drop_last() =~= before);
            assert(all.last().id.0 == n - 1);
            assert(tells_of_a_task(q, all.last()));
        }
        assert forall|i: int| 0 <= i < n && #[trigger] q.tasks[i] is Some implies exists|k: int|
            0 <= k < all.len() && (#[trigger] all[k]).id.0 == i by {
            if i < n - 1 {
                let k = choose|k: int| 0 <= k < before.len() && (#[trigger] before[k]).id.0 == i;
                assert(all[k] == before[k]);
            } else {
                assert(all[all.len() - 1].id.0 == i);
            }
        }
        assert forall|k: int| 0 <= k < all.len() implies tells_of_a_task(q, #[trigger] all[k])
            && all[k].id.0 < n by {
            if k < before.len() {
                assert(all[k] == before[k]);
            }
        }
        assert forall|k: int, l: int| 0 <= k < l < all.len() implies (#[trigger] all[k]).id.0 < (
        #[trigger] all[l]).id.0 by {
            assert(all[k] == before[k]);
            if l < before.len() {
                assert(all[l] == before[l]);
            }
        }
    }
}

/// Whether what a summary says is so: of a task that is there, its name, its state, the core that
/// runs it, if one does, and how long it ran.
pub open spec fn tells_of_a_task(q: Schedule, told: Summary) -> bool {
    &&& q.task(told.id) matches Some(task) && told.state == task.state && told.ticks == task.ticks
        && told.recent_ticks == task.recent_ticks
    &&& told.name == q.names[told.id.0 as int]
    &&& match told.core {
        Some(core) => core < q.current.len() && q.current[core as int] == Some(told.id),
        None => forall|c: int|
            0 <= c < q.current.len() ==> #[trigger] q.current[c] != Some(told.id),
    }
}

/// All tasks are told of, each once, in the order they were added.
pub proof fn all_tasks_are_told(q: Schedule, id: TaskId)
    requires
        q.tasks.len() <= usize::MAX,
        q.current.len() <= usize::MAX,
    ensures
        ({
            let told = q.summaries(q.tasks.len());
            &&& q.task(id) is Some <==> exists|k: int|
                0 <= k < told.len() && (#[trigger] told[k]).id == id
            &&& forall|k: int| 0 <= k < told.len() ==> tells_of_a_task(q, #[trigger] told[k])
            &&& forall|k: int, l: int|
                0 <= k < l < told.len() ==> (#[trigger] told[k]).id.0 < (#[trigger] told[l]).id.0
        }),
{
    let told = q.summaries(q.tasks.len());
    lemma_summaries(q, q.tasks.len());
    if q.task(id) is Some {
        assert(q.tasks[id.0 as int] is Some);
        let k = choose|k: int| 0 <= k < told.len() && (#[trigger] told[k]).id.0 == id.0;
        assert(told[k].id == id);
    }
}

} // verus!
