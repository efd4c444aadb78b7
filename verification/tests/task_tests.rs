use kernel::task::{self, Task, TaskState};

fn table() -> Option<Vec<Task>> {
    let mut t = None;
    task::init(&mut t);
    t
}

fn describe(tasks: &[Task]) -> Vec<(u32, String, &'static str)> {
    tasks.iter().map(|t| (t.id, t.name.clone(), task::state_label(t.state))).collect()
}

#[test]
fn init_creates_shell_and_idle() {
    let t = table();
    assert_eq!(
        describe(&task::list(&t).unwrap()),
        vec![(1, "shell".to_string(), "Running"), (2, "idle".to_string(), "Ready")]
    );
}

#[test]
fn uninitialized_table_refuses() {
    let mut t: Option<Vec<Task>> = None;
    assert_eq!(task::list(&t).err(), Some("task table not initialized"));
    assert_eq!(task::info(&t, 1).err(), Some("task table not initialized"));
    assert_eq!(task::kill(&mut t, 2).err(), Some("task table not initialized"));
    assert_eq!(task::kill(&mut t, 1).err(), Some("cannot kill shell task"));
    task::schedule_tick(&mut t);
    assert!(t.is_none());
}

#[test]
fn info_finds_a_task() {
    let t = table();
    let idle = task::info(&t, 2).unwrap();
    assert_eq!((idle.id, idle.name.as_str()), (2, "idle"));
    assert!(idle.state == TaskState::Ready);
    assert_eq!(task::info(&t, 9).err(), Some("task not found"));
}

#[test]
fn kill_puts_a_task_to_sleep() {
    let mut t = table();
    assert_eq!(task::kill(&mut t, 1).err(), Some("cannot kill shell task"));
    assert_eq!(task::kill(&mut t, 9).err(), Some("task not found"));
    assert_eq!(task::kill(&mut t, 2), Ok(()));
    assert!(task::info(&t, 2).unwrap().state == TaskState::Sleeping);
    assert!(task::info(&t, 1).unwrap().state == TaskState::Running);
}

#[test]
fn tick_sleeps_the_idle_task_once() {
    let mut t = table();
    task::schedule_tick(&mut t);
    assert_eq!(
        describe(&task::list(&t).unwrap()),
        vec![(1, "shell".to_string(), "Running"), (2, "idle".to_string(), "Sleeping")]
    );
    task::schedule_tick(&mut t);
    assert_eq!(describe(&task::list(&t).unwrap())[1].2, "Sleeping");
}

#[test]
fn state_labels() {
    assert_eq!(task::state_label(TaskState::Running), "Running");
    assert_eq!(task::state_label(TaskState::Ready), "Ready");
    assert_eq!(task::state_label(TaskState::Sleeping), "Sleeping");
}

#[test]
fn table_keeps_its_shape_through_a_run() {
    let mut t = table();
    for id in [2, 1, 9, 2, 1] {
        let _ = task::kill(&mut t, id);
        task::schedule_tick(&mut t);
        let tasks = task::list(&t).unwrap();
        assert_eq!(tasks.len(), 2);
        assert_eq!((tasks[0].id, tasks[0].name.as_str()), (1, "shell"));
        assert!(tasks[0].state == TaskState::Running);
        assert_eq!((tasks[1].id, tasks[1].name.as_str()), (2, "idle"));
    }
}
