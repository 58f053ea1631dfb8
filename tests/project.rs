use server_room::error::ApplicationError;
use server_room::project::Project;
use server_room::script::{is_priority_script, npm_run_command, rank_scripts, Script};

fn project(dir: &str) -> Project {
    Project { name: "p".to_string(), dir: dir.to_string() }
}

fn script(name: &str, command: &str) -> Script {
    Script { name: name.to_string(), command: command.to_string() }
}

#[test]
fn package_json_path_adds_one_separator() {
    assert_eq!(project("/a/b").get_package_json(), "/a/b/package.json");
    assert_eq!(project("/a/b/").get_package_json(), "/a/b/package.json");
    assert_eq!(project("").get_package_json(), "package.json");
}

fn cause_of(r: Result<Vec<Script>, ApplicationError>) -> (String, String) {
    match r {
        Err(ApplicationError::MalformedPackageJson { path, cause }) => (path, cause),
        other => panic!("unexpected {:?}", other),
    }
}

#[test]
fn start_scripts_from_manifest_text() {
    let p = project("/w");
    let scripts = p
        .get_start_scripts(r#"{"name": "w", "scripts": {"start": "node app.js", "dev": "vite", "n": 1}, "x": {"a": 2}}"#)
        .unwrap();
    let pairs: Vec<_> = scripts.iter().map(|s| (s.name.clone(), s.command.clone())).collect();
    assert_eq!(
        pairs,
        vec![
            ("dev".to_string(), "\"vite\"".to_string()),
            ("n".to_string(), "1".to_string()),
            ("start".to_string(), "\"node app.js\"".to_string())
        ]
    );
}

#[test]
fn malformed_manifests_are_reported() {
    let p = project("/w");
    let path = "/w/package.json".to_string();
    assert_eq!(cause_of(p.get_start_scripts("{ not json")), (path.clone(), "contains invalid JSON".to_string()));
    assert_eq!(
        cause_of(p.get_start_scripts(r#"{"name": "w"}"#)),
        (path.clone(), "\"scripts\" property is not an object".to_string())
    );
    assert_eq!(
        cause_of(p.get_start_scripts(r#"{"scripts": ["a"]}"#)),
        (path.clone(), "\"scripts\" property is not an object".to_string())
    );
    assert_eq!(
        cause_of(p.get_start_scripts(r#"["scripts"]"#)),
        (path.clone(), "\"scripts\" property is not an object".to_string())
    );
    assert_eq!(
        cause_of(p.get_start_scripts(r#"{"scripts": "start"}"#)),
        (path.clone(), "\"scripts\" property is not an object".to_string())
    );
    assert_eq!(
        cause_of(p.get_start_scripts(r#"{"scripts": {}}"#)),
        (path, "\"scripts\" is an empty object".to_string())
    );
}

#[test]
fn scripts_from_object_keeps_entry_order() {
    let p = project("/w");
    let r = p.scripts_from_object(Some(vec![("b".to_string(), "1".to_string()), ("a".to_string(), "2".to_string())]));
    let names: Vec<_> = r.unwrap().into_iter().map(|s| s.name).collect();
    assert_eq!(names, vec!["b", "a"]);
    assert!(p.scripts_from_object(None).is_err());
    assert!(p.scripts_from_object(Some(vec![])).is_err());
}

#[test]
fn start_script_is_found_by_name() {
    let p = project("/w");
    let scripts = vec![script("build", "b"), script("dev", "d1"), script("dev", "d2")];
    let found = p.get_start_script(scripts, "dev".to_string()).unwrap();
    assert_eq!((found.name.as_str(), found.command.as_str()), ("dev", "d1"));
    match p.get_start_script(vec![script("build", "b")], "serve".to_string()) {
        Err(ApplicationError::NonExistentScript { project, script }) => {
            assert_eq!(project.dir, "/w");
            assert_eq!(script, "serve");
        }
        other => panic!("unexpected {:?}", other),
    }
}

#[test]
fn scripts_are_offered_start_scripts_first() {
    let ranked = rank_scripts(vec![
        script("test", "t"),
        script("start", "s"),
        script("build", "b"),
        script("dev", "d"),
        script("lint", "l"),
        script("run", "r"),
    ]);
    let names: Vec<_> = ranked.iter().map(|s| s.name.as_str()).collect();
    assert_eq!(names, vec!["dev", "run", "start", "build", "lint", "test"]);
    assert!(rank_scripts(vec![]).is_empty());
}

#[test]
fn priority_scripts_are_exact_names() {
    assert!(is_priority_script("dev"));
    assert!(is_priority_script("start"));
    assert!(!is_priority_script("starts"));
    assert!(!is_priority_script("Dev"));
}

#[test]
fn start_command_runs_the_script() {
    assert_eq!(npm_run_command("dev"), "npm run dev");
}

#[test]
fn script_and_project_text() {
    assert_eq!(script("dev", "vite").to_string(), "dev: vite");
    assert_eq!(project("/w").to_string(), "p");
}

#[test]
fn project_is_named_after_the_last_component() {
    let p = Project::from_path("/home/me/site".to_string()).unwrap();
    assert_eq!((p.name.as_str(), p.dir.as_str()), ("site", "/home/me/site"));
    assert_eq!(Project::from_path("/home/me/api/".to_string()).unwrap().name, "api");
    assert!(matches!(Project::from_path("/".to_string()), Err(ApplicationError::ParsePath(p)) if p == "/"));
    assert!(matches!(Project::from_path("/home/..".to_string()), Err(ApplicationError::ParsePath(_))));
    assert_eq!(Project::from_path("web/.".to_string()).unwrap().name, "web");
    assert_eq!(Project::from_path("./web".to_string()).unwrap().name, "web");
    assert!(Project::from_path(".".to_string()).is_err());
    assert!(Project::from_path(String::new()).is_err());
}
