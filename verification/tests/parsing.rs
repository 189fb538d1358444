use task_tracker::command::{parse_command, parse_status, CommandStatus, CommandType};
use task_tracker::errors::TaskError;

#[test]
fn parse_add() {
    let command_args = ["_".to_string(), "add".to_string(), "description".to_string()];
    let expected_result = CommandType::Add { desc: String::from("description") };
    assert_eq!(expected_result, parse_command(&command_args).unwrap());
}

#[test]
fn parse_edit() {
    let command_args = [
        "_".to_string(),
        "edit".to_string(),
        "1".to_string(),
        "description".to_string(),
    ];
    let expected_result = CommandType::Edit { id: 1, desc: String::from("description") };
    assert_eq!(expected_result, parse_command(&command_args).unwrap());
}

#[test]
fn parse_delete() {
    let command_args = ["_".to_string(), "delete".to_string(), "1".to_string()];
    let expected_result = CommandType::Delete { id: 1 };
    assert_eq!(expected_result, parse_command(&command_args).unwrap());
}

#[test]
fn parse_list() {
    let command_args = ["_".to_string(), "list".to_string(), "done".to_string()];
    let expected_result = CommandType::List { status: CommandStatus::Done };
    assert_eq!(expected_result, parse_command(&command_args).unwrap());
}

#[test]
fn parse_mark() {
    let command_args = [
        "_".to_string(),
        "mark".to_string(),
        "1".to_string(),
        "todo".to_string(),
    ];
    let expected_result = CommandType::Mark { id: 1, status: CommandStatus::Todo };
    assert_eq!(expected_result, parse_command(&command_args).unwrap());
}

#[test]
fn parse_list_defaults_to_all() {
    let command_args = ["_".to_string(), "list".to_string()];
    let expected_result = CommandType::List { status: CommandStatus::All };
    assert_eq!(expected_result, parse_command(&command_args).unwrap());
}

#[test]
fn parse_mark_all_is_rejected() {
    let command_args = [
        "_".to_string(),
        "mark".to_string(),
        "1".to_string(),
        "all".to_string(),
    ];
    assert_eq!(parse_command(&command_args), Err(TaskError::StatusNotAllowed));
}

#[test]
fn parse_unknown_command() {
    let command_args = ["_".to_string(), "frobnicate".to_string()];
    assert_eq!(parse_command(&command_args), Err(TaskError::InvalidCommand));
}

#[test]
fn parse_missing_argument() {
    let command_args = ["_".to_string(), "add".to_string()];
    assert_eq!(parse_command(&command_args), Err(TaskError::MissingArgument));
}

#[test]
fn parse_malformed_id() {
    let command_args = [
        "_".to_string(),
        "edit".to_string(),
        "x1".to_string(),
        "d".to_string(),
    ];
    assert_eq!(parse_command(&command_args), Err(TaskError::MalformedInteger));
    let overflow = [
        "_".to_string(),
        "delete".to_string(),
        "99999999999".to_string(),
    ];
    assert_eq!(parse_command(&overflow), Err(TaskError::MalformedInteger));
    let negative = ["_".to_string(), "delete".to_string(), "-7".to_string()];
    assert_eq!(
        parse_command(&negative).unwrap(),
        CommandType::Delete { id: -7 }
    );
}

#[test]
fn parse_invalid_status() {
    let command_args = ["_".to_string(), "list".to_string(), "Done".to_string()];
    assert_eq!(parse_command(&command_args), Err(TaskError::InvalidStatus));
    assert_eq!(parse_status("nope", true), Err(TaskError::InvalidStatus));
    assert_eq!(parse_status("all", false), Err(TaskError::StatusNotAllowed));
    assert_eq!(parse_status("progress", false), Ok(CommandStatus::Progress));
}

#[test]
fn error_messages_name_each_failure() {
    assert_eq!(TaskError::InvalidCommand.message(), "got an incorrect command");
    assert_eq!(TaskError::TaskNotFound.message(), "no task with that id exists");
    assert_eq!(TaskError::FileIOError.message(), "failed to read or write the task file");
    assert_eq!(TaskError::JsonParseError.message(), "failed to parse the task file");
    assert_eq!(TaskError::MissingArgument.message(), "a required argument is missing");
    assert_eq!(TaskError::MalformedInteger.message(), "failed to parse an integer id");
    assert_eq!(TaskError::InvalidStatus.message(), "failed to parse a status");
    assert_eq!(TaskError::StatusNotAllowed.message(), "this status is not allowed here");
}
