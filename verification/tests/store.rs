use task_tracker::command::{CommandStatus, CommandType};
use task_tracker::task::display_status;
use task_tracker::dispatch::{convert_to_multiple_status, convert_to_single_status, run_command};
use task_tracker::errors::TaskError;
use task_tracker::task::{Status, TaskList};

#[test]
fn add_task() {
    let task_list = &mut TaskList::new();
    task_list.add_task(String::from("test")).unwrap();
    assert_eq!(task_list.list.len(), 1);
    assert_eq!(task_list.get_task(1).unwrap().desc, "test");
}

#[test]
fn edit_task() {
    let task_list = &mut TaskList::new();
    task_list.add_task(String::from("test")).unwrap();
    task_list.edit_task(1, String::from("another test")).unwrap();
    assert_eq!(task_list.list.len(), 1);
    assert_eq!(task_list.get_task(1).unwrap().desc, "another test");
}

#[test]
fn delete_task() {
    let task_list = &mut TaskList::new();
    task_list.add_task(String::from("test")).unwrap();
    task_list.delete_task(1).unwrap();
    assert_eq!(task_list.list.len(), 0);
}

#[test]
fn mark_task() {
    let task_list = &mut TaskList::new();
    task_list.add_task(String::from("test")).unwrap();
    task_list.add_task(String::from("test2")).unwrap();
    task_list.mark_task(1, Status::Done).unwrap();
    assert!(task_list
        .get_tasks_with_status(&[Status::Todo])
        .contains(&task_list.get_task(2).unwrap()));
    assert!(task_list
        .get_tasks_with_status(&[Status::Done])
        .contains(&task_list.get_task(1).unwrap()));
}

#[test]
fn ids_are_sequential() {
    let task_list = &mut TaskList::new();
    for d in ["a", "b", "c", "d"] {
        task_list.add_task(String::from(d)).unwrap();
    }
    for (i, t) in task_list.list.iter().enumerate() {
        assert_eq!(t.id, i as i32 + 1);
    }
    assert_eq!(task_list.list[2].desc, "c");
}

#[test]
fn deleted_id_not_reused_while_larger_remains() {
    let task_list = &mut TaskList::new();
    task_list.add_task(String::from("a")).unwrap();
    task_list.add_task(String::from("b")).unwrap();
    task_list.delete_task(1).unwrap();
    task_list.add_task(String::from("c")).unwrap();
    assert_eq!(task_list.get_task(3).unwrap().desc, "c");
    assert!(task_list.get_task(1).is_err());
}

#[test]
fn edit_changes_only_description_and_update_time() {
    let task_list = &mut TaskList::new();
    task_list.add_task(String::from("before")).unwrap();
    let old_status = task_list.get_task(1).unwrap().status;
    let old_create = *&task_list.get_task(1).unwrap().create_at;
    task_list.edit_task(1, String::from("after")).unwrap();
    let t = task_list.get_task(1).unwrap();
    assert_eq!(t.desc, "after");
    assert_eq!(t.status, old_status);
    assert_eq!(t.create_at, old_create);
}

#[test]
fn list_all_and_list_none() {
    let task_list = &mut TaskList::new();
    task_list.add_task(String::from("a")).unwrap();
    task_list.add_task(String::from("b")).unwrap();
    task_list.mark_task(2, Status::Progress).unwrap();
    let all = task_list.list_task(&[Status::Todo, Status::Progress, Status::Done]);
    assert_eq!(all.len(), 2);
    assert_eq!(all[0].id, 1);
    assert_eq!(all[1].id, 2);
    let none = task_list.list_task(&[]);
    assert_eq!(none.len(), 0);
    let progress = task_list.list_task(&[Status::Progress]);
    assert_eq!(progress.len(), 1);
    assert_eq!(progress[0].id, 2);
}

#[test]
fn missing_id_fails_and_leaves_store_unchanged() {
    let task_list = &mut TaskList::new();
    task_list.add_task(String::from("only")).unwrap();
    assert_eq!(task_list.edit_task(9, String::from("x")), Err(TaskError::TaskNotFound));
    assert!(matches!(task_list.delete_task(9), Err(TaskError::TaskNotFound)));
    assert_eq!(task_list.mark_task(9, Status::Done), Err(TaskError::TaskNotFound));
    assert_eq!(task_list.list.len(), 1);
    assert_eq!(task_list.get_task(1).unwrap().desc, "only");
    assert_eq!(task_list.get_task(1).unwrap().status, Status::Todo);
}

#[test]
fn dispatcher_routes_each_command() {
    let task_list = &mut TaskList::new();
    run_command(task_list, CommandType::Add { desc: String::from("x") }).unwrap();
    run_command(task_list, CommandType::Edit { id: 1, desc: String::from("y") }).unwrap();
    assert_eq!(task_list.get_task(1).unwrap().desc, "y");
    run_command(
        task_list,
        CommandType::Mark { id: 1, status: CommandStatus::Done },
    )
    .unwrap();
    assert_eq!(task_list.get_task(1).unwrap().status, Status::Done);
    assert_eq!(
        run_command(
            task_list,
            CommandType::Mark { id: 1, status: CommandStatus::All },
        ),
        Err(TaskError::StatusNotAllowed)
    );
    run_command(task_list, CommandType::List { status: CommandStatus::All }).unwrap();
    run_command(task_list, CommandType::Delete { id: 1 }).unwrap();
    assert_eq!(task_list.list.len(), 0);
    assert_eq!(
        run_command(task_list, CommandType::Delete { id: 1 }),
        Err(TaskError::TaskNotFound)
    );
}

#[test]
fn filter_conversions() {
    assert_eq!(convert_to_multiple_status(CommandStatus::Todo), vec![Status::Todo]);
    assert_eq!(
        convert_to_multiple_status(CommandStatus::All),
        vec![Status::Todo, Status::Progress, Status::Done]
    );
    assert_eq!(convert_to_single_status(CommandStatus::Done), Ok(Status::Done));
    assert_eq!(
        convert_to_single_status(CommandStatus::All),
        Err(TaskError::StatusNotAllowed)
    );
}

#[test]
fn status_display_strings() {
    assert_eq!(display_status(&Status::Todo), "To do");
    assert_eq!(display_status(&Status::Progress), "In Progress");
    assert_eq!(display_status(&Status::Done), "Done");
}

#[test]
fn deleted_max_id_not_reused() {
    let task_list = &mut TaskList::new();
    task_list.add_task(String::from("a")).unwrap();
    task_list.add_task(String::from("b")).unwrap();
    task_list.delete_task(2).unwrap();
    task_list.add_task(String::from("c")).unwrap();
    assert_eq!(task_list.get_task(3).unwrap().desc, "c");
    assert!(task_list.get_task(2).is_err());
    assert_eq!(task_list.max_assigned, 3);
    task_list.delete_task(1).unwrap();
    task_list.delete_task(3).unwrap();
    task_list.add_task(String::from("d")).unwrap();
    assert_eq!(task_list.list.len(), 1);
    assert_eq!(task_list.list[0].id, 4);
}

#[test]
fn update_time_never_precedes_create_time() {
    let key = |t: &task_tracker::time::Timestamp| -> u64 {
        (((((t.year as u64) * 13 + t.month as u64) * 32 + t.day as u64) * 24 + t.hour as u64) * 60
            + t.minute as u64) * 60 + t.second as u64
    };
    let task_list = &mut TaskList::new();
    task_list.add_task(String::from("t")).unwrap();
    let before = *&task_list.get_task(1).unwrap().update_at;
    task_list.edit_task(1, String::from("u")).unwrap();
    let t = task_list.get_task(1).unwrap();
    assert!(key(&t.update_at) >= key(&t.create_at));
    assert!(key(&t.update_at) >= key(&before));
    task_list.mark_task(1, Status::Done).unwrap();
    let t = task_list.get_task(1).unwrap();
    assert!(key(&t.update_at) >= key(&t.create_at));
}
