use server_room::actionable_error::{ActionableError, ErrorCode};
use server_room::config::Config;
use server_room::names::compare_names;
use server_room::project::Project;
use server_room::server::Server;
use std::cmp::Ordering;

#[test]
fn names_compare_by_bytes() {
    assert_eq!(compare_names("a", "b"), Ordering::Less);
    assert_eq!(compare_names("ab", "a"), Ordering::Greater);
    assert_eq!(compare_names("", ""), Ordering::Equal);
    assert_eq!(compare_names("Z", "a"), Ordering::Less);
    assert_eq!(compare_names("z", "é"), Ordering::Less);
    assert_eq!(compare_names("same", "same"), Ordering::Equal);
}

#[test]
fn error_text_lists_code_message_and_suggestion() {
    let e = ActionableError { code: ErrorCode::NoServers, message: "none".to_string(), suggestion: "add one".to_string() };
    assert_eq!(e.to_string(), "NoServers: none\n\nadd one");
    assert_eq!(ErrorCode::DuplicateProject.to_string(), "DuplicateProject");
    let p = ActionableError::prompt_failure("cancelled".to_string());
    assert_eq!(p.code, ErrorCode::InquireError);
    assert_eq!(p.to_string(), "InquireError: cancelled\n\nTry again.");
}

#[test]
fn config_gives_its_servers_dir() {
    assert_eq!(Config::new("/home/me/code".to_string()).get_servers_dir(), "/home/me/code");
}

#[test]
fn server_from_project_starts_unused() {
    let s = Server::from_project(Project { name: "n".to_string(), dir: "/d".to_string() }, "go".to_string());
    assert_eq!((s.name.as_str(), s.dir.as_str(), s.start_command.as_str(), s.frecency), ("n", "/d", "go", 0));
    assert_eq!(s.get_project_dir(), "/d");
    assert_eq!(s.to_string(), "n");
    let c = s.duplicate();
    assert_eq!((c.name, c.dir, c.start_command, c.frecency), (s.name.clone(), s.dir.clone(), s.start_command.clone(), 0));
}
