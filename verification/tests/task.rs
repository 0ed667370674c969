use ecooff::task::{handle_args, install_args, tail_lines, TaskCommand};

fn args(v: &[&str]) -> Vec<String> {
    v.iter().map(|s| s.to_string()).collect()
}

#[test]
fn no_command_runs_normally() {
    assert_eq!(handle_args(&args(&["noeco.exe"])), None);
    assert_eq!(handle_args(&args(&["noeco.exe", "--verbose"])), None);
    assert_eq!(handle_args(&args(&[])), None);
}

#[test]
fn commands_are_recognized() {
    assert_eq!(handle_args(&args(&["x", "install"])), Some(TaskCommand::Install));
    assert_eq!(handle_args(&args(&["x", "uninstall"])), Some(TaskCommand::Uninstall));
    assert_eq!(handle_args(&args(&["x", "--verbose", "start"])), Some(TaskCommand::Start));
    assert_eq!(handle_args(&args(&["x", "stop", "log"])), Some(TaskCommand::Stop));
    assert_eq!(handle_args(&args(&["x", "log"])), Some(TaskCommand::Log));
    assert_eq!(handle_args(&args(&["x", "status"])), Some(TaskCommand::Status));
    assert_eq!(handle_args(&args(&["x", "help"])), Some(TaskCommand::Usage));
    assert_eq!(handle_args(&args(&["x", "-h"])), Some(TaskCommand::Usage));
    assert_eq!(handle_args(&args(&["x", "--help"])), Some(TaskCommand::Usage));
    assert_eq!(handle_args(&args(&["x", "Install"])), Some(TaskCommand::Usage));
}

#[test]
fn install_arguments() {
    assert_eq!(
        install_args("C:\\noeco.exe".to_string()),
        args(&[
            "/Create", "/TN", "noeco", "/TR", "C:\\noeco.exe", "/SC", "ONLOGON", "/RL", "HIGHEST",
            "/F"
        ])
    );
}

#[test]
fn tail_keeps_last_lines_in_order() {
    assert_eq!(tail_lines("a\nb\nc\n", 2), args(&["b", "c"]));
    assert_eq!(tail_lines("a\r\nb", 5), args(&["a", "b"]));
    assert_eq!(tail_lines("", 3), Vec::<String>::new());
    assert_eq!(tail_lines("a\n\nb", 0), Vec::<String>::new());
    assert_eq!(tail_lines("a\n\nb", 2), args(&["", "b"]));
}

#[test]
fn task_management_arguments() {
    assert_eq!(ecooff::task::uninstall_args(), args(&["/Delete", "/TN", "noeco", "/F"]));
    assert_eq!(ecooff::task::status_args(), args(&["/Query", "/TN", "noeco", "/FO", "LIST"]));
    assert_eq!(ecooff::task::stop_args(), args(&["/IM", "noeco.exe", "/F"]));
}
