//! Cooperative task table.
//!
//! The shell is the only actively running task; `idle` stands for the CPU
//! when nothing else is ready.  Tasks yield by returning to the shell
//! loop.  The table is `None` until [`init`] fills it.

use vstd::prelude::*;

verus! {

/// Lifecycle state of a kernel task.
#[derive(Clone, Copy, PartialEq, Eq, Structural)]
pub enum TaskState {
    Running,
    Ready,
    Sleeping,
}

pub open spec fn state_label_spec(state: TaskState) -> Seq<char> {
    match state {
        TaskState::Running => "Running"@,
        TaskState::Ready => "Ready"@,
        TaskState::Sleeping => "Sleeping"@,
    }
}

impl TaskState {
    fn label(self) -> (r: &'static str)
        ensures
            r@ == state_label_spec(self),
    {
        match self {
            TaskState::Running => "Running",
            TaskState::Ready => "Ready",
            TaskState::Sleeping => "Sleeping",
        }
    }
}

/// One entry in the task table.
#[derive(Clone)]
pub struct Task {
    pub id: u32,
    pub name: String,
    pub state: TaskState,
}

pub struct TaskView {
    pub id: u32,
    pub name: Seq<char>,
    pub state: TaskState,
}

impl View for Task {
    type V = TaskView;

    open spec fn view(&self) -> TaskView {
        TaskView { id: self.id, name: self.name@, state: self.state }
    }
}

pub open spec fn tasks_view(ts: Seq<Task>) -> Seq<TaskView> {
    Seq::new(ts.len(), |i: int| ts[i]@)
}

pub open spec fn table_view(table: Option<Vec<Task>>) -> Option<Seq<TaskView>> {
    match table {
        Some(v) => Some(tasks_view(v@)),
        None => None,
    }
}

/// The table that [`init`] builds: the running shell and the ready idle
/// task.
pub open spec fn initial_tasks() -> Seq<TaskView> {
    seq![
        TaskView { id: 1, name: "shell"@, state: TaskState::Running },
        TaskView { id: 2, name: "idle"@, state: TaskState::Ready },
    ]
}

/// Index of the first task with `id`.
pub open spec fn find_task(ts: Seq<TaskView>, id: u32) -> Option<int>
    decreases ts.len(),
{
    if ts.len() == 0 {
        None
    } else if ts[0].id == id {
        Some(0)
    } else {
        match find_task(ts.drop_first(), id) {
            Some(i) => Some(i + 1),
            None => None,
        }
    }
}

pub proof fn lemma_find_task(ts: Seq<TaskView>, id: u32)
    ensures
        find_task(ts, id) matches Some(i) ==> 0 <= i < ts.len() && ts[i].id == id && forall|j: int|
            0 <= j < i ==> ts[j].id != id,
        find_task(ts, id) is None ==> forall|j: int| 0 <= j < ts.len() ==> ts[j].id != id,
    decreases ts.len(),
{
    if ts.len() > 0 {
        lemma_find_task(ts.drop_first(), id);
        assert forall|j: int| 1 <= j < ts.len() implies ts[j] == ts.drop_first()[j - 1] by {}
    }
}

pub proof fn lemma_find_task_is(ts: Seq<TaskView>, id: u32, k: Option<int>)
    requires
        k matches Some(i) ==> 0 <= i < ts.len() && ts[i].id == id && forall|j: int|
            0 <= j < i ==> ts[j].id != id,
        k is None ==> forall|j: int| 0 <= j < ts.len() ==> ts[j].id != id,
    ensures
        find_task(ts, id) == k,
{
    lemma_find_task(ts, id);
}

pub open spec fn info_spec(table: Option<Seq<TaskView>>, id: u32) -> Result<TaskView, &'static str> {
    match table {
        None => Err("task table not initialized"),
        Some(ts) => match find_task(ts, id) {
            Some(i) => Ok(ts[i]),
            None => Err("task not found"),
        },
    }
}

pub open spec fn kill_spec(table: Option<Seq<TaskView>>, id: u32) -> (
    Option<Seq<TaskView>>,
    Result<(), &'static str>,
) {
    if id == 1 {
        (table, Err("cannot kill shell task"))
    } else {
        match table {
            None => (table, Err("task table not initialized")),
            Some(ts) => match find_task(ts, id) {
                Some(i) => (
                    Some(ts.update(i, TaskView { state: TaskState::Sleeping, ..ts[i] })),
                    Ok(()),
                ),
                None => (table, Err("task not found")),
            },
        }
    }
}

/// One tick: the idle task, if ready, goes to sleep.
pub open spec fn tick_task(t: TaskView) -> TaskView {
    if t.id == 2 && t.state == TaskState::Ready {
        TaskView { state: TaskState::Sleeping, ..t }
    } else {
        t
    }
}

pub open spec fn tick_spec(table: Option<Seq<TaskView>>) -> Option<Seq<TaskView>> {
    match table {
        None => None,
        Some(ts) => Some(Seq::new(ts.len(), |i: int| tick_task(ts[i]))),
    }
}

fn copy_task(t: &Task) -> (r: Task)
    ensures
        r@ == t@,
{
    Task { id: t.id, name: t.name.clone(), state: t.state }
}

fn copy_tasks(ts: &Vec<Task>) -> (r: Vec<Task>)
    ensures
        tasks_view(r@) == tasks_view(ts@),
{
    let mut out: Vec<Task> = Vec::new();
    let mut i: usize = 0;
    while i < ts.len()
        invariant
            i <= ts@.len(),
            tasks_view(out@) == tasks_view(ts@).take(i as int),
        decreases ts@.len() - i,
    {
        let t = copy_task(&ts[i]);
        let ghost before = out@;
        assert(tasks_view(before).len() == before.len());
        assert(tasks_view(ts@).take(i as int).len() == i);
        out.push(t);
        assert forall|j: int| 0 <= j < i + 1 implies #[trigger] tasks_view(out@)[j] == tasks_view(
            ts@,
        ).take(i + 1)[j] by {
            if j < i {
                assert(out@[j] == before[j]);
                assert(tasks_view(before)[j] == tasks_view(ts@).take(i as int)[j]);
            }
        }
        assert(tasks_view(out@) =~= tasks_view(ts@).take(i + 1));
        i = i + 1;
    }
    assert(tasks_view(ts@).take(ts@.len() as int) =~= tasks_view(ts@));
    out
}

/// Index of the first task with `id`.
fn position(tasks: &Vec<Task>, id: u32) -> (r: Option<usize>)
    ensures
        find_task(tasks_view(tasks@), id) == match r {
            Some(p) => Some(p as int),
            None => None::<int>,
        },
{
    let ghost ts = tasks_view(tasks@);
    let mut j: usize = 0;
    while j < tasks.len()
        invariant
            j <= tasks@.len(),
            ts == tasks_view(tasks@),
            forall|k: int| 0 <= k < j ==> ts[k].id != id,
        decreases tasks@.len() - j,
    {
        if tasks[j].id == id {
            proof {
                lemma_find_task_is(ts, id, Some(j as int));
            }
            return Some(j);
        }
        j = j + 1;
    }
    proof {
        lemma_find_task_is(ts, id, None);
    }
    None
}

/// Creates the built-in tasks before the shell starts.
pub fn init(table: &mut Option<Vec<Task>>)
    ensures
        table_view(*final(table)) == Some(initial_tasks()),
{
    let mut tasks: Vec<Task> = Vec::new();
    tasks.push(Task { id: 1, name: String::from_str("shell"), state: TaskState::Running });
    tasks.push(Task { id: 2, name: String::from_str("idle"), state: TaskState::Ready });
    assert(tasks_view(tasks@) =~= initial_tasks());
    *table = Some(tasks);
}

/// All tasks, for the `ps` command.
pub fn list(table: &Option<Vec<Task>>) -> (r: Result<Vec<Task>, &'static str>)
    ensures
        match table_view(*table) {
            None => r == Err::<Vec<Task>, &'static str>("task table not initialized"),
            Some(ts) => r is Ok && tasks_view(r->Ok_0@) == ts,
        },
{
    match table {
        Some(tasks) => Ok(copy_tasks(tasks)),
        None => Err("task table not initialized"),
    }
}

/// The task with `id`.
pub fn info(table: &Option<Vec<Task>>, id: u32) -> (r: Result<Task, &'static str>)
    ensures
        match info_spec(table_view(*table), id) {
            Ok(t) => r is Ok && r->Ok_0@ == t,
            Err(e) => r == Err::<Task, &'static str>(e),
        },
{
    match table {
        Some(tasks) => {
            let pos = position(tasks, id);
            proof {
                lemma_find_task(tasks_view(tasks@), id);
            }
            match pos {
                Some(p) => Ok(copy_task(&tasks[p])),
                None => Err("task not found"),
            }
        },
        None => Err("task table not initialized"),
    }
}

/// Marks a task as terminated (cooperative kill); the shell cannot be
/// killed.
pub fn kill(table: &mut Option<Vec<Task>>, id: u32) -> (r: Result<(), &'static str>)
    ensures
        (table_view(*final(table)), r) == kill_spec(table_view(*old(table)), id),
{
    if id == 1 {
        return Err("cannot kill shell task");
    }
    match table {
        Some(tasks) => {
            let ghost ts = tasks_view(tasks@);
            let pos = position(tasks, id);
            proof {
                lemma_find_task(ts, id);
            }
            match pos {
                Some(p) => {
                    let ghost before = tasks@;
                    let mut t = tasks.remove(p);
                    t.state = TaskState::Sleeping;
                    let ghost tv = t@;
                    tasks.insert(p, t);
                    proof {
                        assert(tasks@ =~= before.update(p as int, t));
                        assert(tasks_view(tasks@) =~= ts.update(
                            p as int,
                            TaskView { state: TaskState::Sleeping, ..ts[p as int] },
                        ));
                    }
                    Ok(())
                },
                None => Err("task not found"),
            }
        },
        None => Err("task table not initialized"),
    }
}

/// Yields one timeslice: the ready idle task goes to sleep.
pub fn schedule_tick(table: &mut Option<Vec<Task>>)
    ensures
        table_view(*final(table)) == tick_spec(table_view(*old(table))),
{
    match table {
        Some(tasks) => {
            let ghost ts = tasks_view(tasks@);
            let mut i: usize = 0;
            while i < tasks.len()
                invariant
                    i <= tasks@.len(),
                    ts.len() == tasks@.len(),
                    forall|j: int| 0 <= j < i ==> #[trigger] tasks_view(tasks@)[j] == tick_task(ts[j]),
                    forall|j: int| i <= j < ts.len() ==> #[trigger] tasks_view(tasks@)[j] == ts[j],
                decreases tasks@.len() - i,
            {
                let ghost before = tasks@;
                assert(tasks_view(before)[i as int] == ts[i as int]);
                if tasks[i].id == 2 && tasks[i].state == TaskState::Ready {
                    let mut t = tasks.remove(i);
                    t.state = TaskState::Sleeping;
                    tasks.insert(i, t);
                    assert(tasks@ =~= before.update(i as int, t));
                }
                proof {
                    assert forall|j: int| 0 <= j < ts.len() && j != i implies #[trigger] tasks_view(
                        tasks@,
                    )[j] == tasks_view(before)[j] by {
                        assert(tasks@[j] == before[j]);
                    }
                    assert(tasks_view(tasks@)[i as int] == tick_task(ts[i as int]));
                }
                i = i + 1;
            }
            assert(tasks_view(tasks@) =~= Seq::new(ts.len(), |j: int| tick_task(ts[j])));
        },
        None => {},
    }
}

pub fn state_label(state: TaskState) -> (r: &'static str)
    ensures
        r@ == state_label_spec(state),
{
    state.label()
}

// ---------------------------------------------------------------------
// Laws

/// A killed task reads back as sleeping.
pub proof fn lemma_kill_then_info(table: Option<Seq<TaskView>>, id: u32)
    requires
        kill_spec(table, id).1 is Ok,
    ensures
        info_spec(kill_spec(table, id).0, id) matches Ok(t) && t.id == id && t.state
            == TaskState::Sleeping,
{
    let ts = table->Some_0;
    let i = find_task(ts, id)->0;
    lemma_find_task(ts, id);
    let ts2 = ts.update(i, TaskView { state: TaskState::Sleeping, ..ts[i] });
    assert forall|j: int| 0 <= j < i implies ts2[j].id != id by {}
    lemma_find_task_is(ts2, id, Some(i));
}

/// The shell task can never be killed, and a refused kill changes nothing.
pub proof fn lemma_shell_survives(table: Option<Seq<TaskView>>)
    ensures
        kill_spec(table, 1) == (table, Err::<(), &'static str>("cannot kill shell task")),
{
}

/// A second tick changes nothing.
pub proof fn lemma_tick_idempotent(table: Option<Seq<TaskView>>)
    ensures
        tick_spec(tick_spec(table)) == tick_spec(table),
{
    if let Some(ts) = table {
        assert(Seq::new(ts.len(), |i: int| tick_task(Seq::new(ts.len(), |k: int| tick_task(ts[k]))[i]))
            =~= Seq::new(ts.len(), |i: int| tick_task(ts[i])));
    }
}

/// The shape every task table keeps: the running shell first, then the
/// idle task.
pub open spec fn table_shape(ts: Seq<TaskView>) -> bool {
    &&& ts.len() == 2
    &&& ts[0] == TaskView { id: 1, name: "shell"@, state: TaskState::Running }
    &&& ts[1].id == 2
    &&& ts[1].name == "idle"@
}

/// The table keeps its shape through any run: `init` builds it, and no
/// `kill` or tick adds, removes or renames a task or stops the shell.
pub proof fn lemma_table_shape_kept(table: Option<Seq<TaskView>>, id: u32)
    requires
        table matches Some(ts) ==> table_shape(ts),
    ensures
        table_shape(initial_tasks()),
        kill_spec(table, id).0 matches Some(ts) ==> table_shape(ts),
        tick_spec(table) matches Some(ts) ==> table_shape(ts),
        kill_spec(table, id).0 is Some <==> table is Some,
        tick_spec(table) is Some <==> table is Some,
{
    if let Some(ts) = table {
        lemma_find_task(ts, id);
        let t2 = Seq::new(ts.len(), |i: int| tick_task(ts[i]));
        assert(t2[0] == ts[0]);
        assert(t2[1].id == 2 && t2[1].name == ts[1].name);
    }
}

/// One state change of the table: `Some(id)` is a `kill` of `id`, `None`
/// a scheduler tick (`info` and `list` change nothing).
pub open spec fn table_step(table: Option<Seq<TaskView>>, step: Option<u32>) -> Option<Seq<TaskView>> {
    match step {
        Some(id) => kill_spec(table, id).0,
        None => tick_spec(table),
    }
}

/// The table after the steps, first to last.
pub open spec fn run_table(table: Option<Seq<TaskView>>, steps: Seq<Option<u32>>) -> Option<
    Seq<TaskView>,
>
    decreases steps.len(),
{
    if steps.len() == 0 {
        table
    } else {
        run_table(table_step(table, steps[0]), steps.drop_first())
    }
}

/// Over any run that starts with `init`, whatever `kill`s and ticks
/// follow, the table holds exactly the shell (running) and the idle task.
pub proof fn lemma_table_shape_always(steps: Seq<Option<u32>>)
    ensures
        run_table(Some(initial_tasks()), steps) matches Some(ts) && table_shape(ts),
{
    lemma_table_shape_kept(None, 0);
    lemma_run_keeps_shape(Some(initial_tasks()), steps);
}

proof fn lemma_run_keeps_shape(table: Option<Seq<TaskView>>, steps: Seq<Option<u32>>)
    requires
        table matches Some(ts) && table_shape(ts),
    ensures
        run_table(table, steps) matches Some(ts) && table_shape(ts),
    decreases steps.len(),
{
    if steps.len() > 0 {
        let id = match steps[0] {
            Some(id) => id,
            None => 0,
        };
        lemma_table_shape_kept(table, id);
        lemma_run_keeps_shape(table_step(table, steps[0]), steps.drop_first());
    }
}

} // verus!
