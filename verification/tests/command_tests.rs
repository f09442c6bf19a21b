use tasktree::command::{Action, Command, GENERAL_USAGE};

#[test]
fn test_from_args_parses_action_and_args() {
    let args = vec!["add-dep".to_string(), "1".to_string(), "2".to_string()];
    let cmd = Command::from_args(args).unwrap();
    assert_eq!(*cmd.action(), Action::AddDep);
    assert_eq!(cmd.args(), &vec!["1".to_string(), "2".to_string()]);

    let cmd = Command::from_args(vec!["list-projects".to_string()]).unwrap();
    assert_eq!(*cmd.action(), Action::ListProjects);
    assert!(cmd.args().is_empty());
}

#[test]
fn test_from_args_rejects_empty_and_unknown() {
    let err = Command::from_args(Vec::new()).unwrap_err();
    assert_eq!(err, GENERAL_USAGE);

    let err = Command::from_args(vec!["frobnicate".to_string()]).unwrap_err();
    assert_eq!(err, "no action \"frobnicate\"");
}

#[test]
fn test_every_action_word() {
    let cases = vec![
        ("new-project", Action::NewProject),
        ("rm-project", Action::RemoveProject),
        ("list-projects", Action::ListProjects),
        ("view-project", Action::ViewProject),
        ("switch", Action::SwitchProject),
        ("new", Action::NewTask),
        ("rm", Action::RemoveTask),
        ("view", Action::ViewTasks),
        ("find", Action::FindTasks),
        ("view-task", Action::ViewTask),
        ("set", Action::SetStatus),
        ("add-dep", Action::AddDep),
        ("add-dep-btwn", Action::AddDepBtwn),
        ("rm-dep", Action::RemoveDep),
        ("view-deps", Action::ViewDeps),
    ];
    for (word, action) in cases {
        let cmd = Command::from_args(vec![word.to_string()]).unwrap();
        assert_eq!(*cmd.action(), action);
    }
}

#[test]
fn test_check_args_len() {
    let cmd = Command::from_args(vec!["set".to_string(), "1".to_string()]).unwrap();
    assert!(cmd.check_args_len(1, "usage").is_ok());
    assert_eq!(cmd.check_args_len(2, "usage"), Err("usage".to_string()));
}

#[test]
fn test_parse_optional_argument() {
    let cmd = Command::from_args(vec![
        "find".to_string(),
        "query".to_string(),
        "closed".to_string(),
    ])
    .unwrap();
    assert_eq!(cmd.parse_optional_argument(0), Some("query".to_string()));
    assert_eq!(cmd.parse_optional_argument(1), Some("closed".to_string()));
    assert_eq!(cmd.parse_optional_argument(2), None);
}

#[test]
fn test_parse_as_task_id() {
    assert_eq!(Command::parse_as_task_id("12"), Ok(12));
    assert_eq!(Command::parse_as_task_id("+7"), Ok(7));
    assert_eq!(Command::parse_as_task_id("0"), Ok(0));
    assert_eq!(Command::parse_as_task_id("00042"), Ok(42));
    assert_eq!(Command::parse_as_task_id("65535"), Ok(65535));

    let msg = "task_id must be a positive integer.".to_string();
    assert_eq!(Command::parse_as_task_id("65536"), Err(msg.clone()));
    assert_eq!(Command::parse_as_task_id("abc"), Err(msg.clone()));
    assert_eq!(Command::parse_as_task_id(""), Err(msg.clone()));
    assert_eq!(Command::parse_as_task_id("-3"), Err(msg.clone()));
    assert_eq!(Command::parse_as_task_id("+"), Err(msg.clone()));
    assert_eq!(Command::parse_as_task_id("1 2"), Err(msg));
}
