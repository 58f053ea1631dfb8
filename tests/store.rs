use server_room::error::ApplicationError;
use server_room::project::Project;
use server_room::server::Server;
use server_room::store::{RawServerStore, ServerStore};

fn empty_store() -> ServerStore {
    ServerStore::load("/data/servers.toml".to_string(), RawServerStore { servers: vec![] })
}

fn project(name: &str, dir: &str) -> Project {
    Project { name: name.to_string(), dir: dir.to_string() }
}

fn record(s: &Server) -> (String, String, String, u64) {
    (s.name.clone(), s.dir.clone(), s.start_command.clone(), s.frecency)
}

fn sorted_records(store: &ServerStore) -> Vec<(String, String, String, u64)> {
    let mut all: Vec<_> = store.get_all().into_iter().map(record).collect();
    all.sort();
    all
}

#[test]
fn scenario_empty_store_add_and_suggest() {
    let mut store = empty_store();
    assert_eq!(store.get_all().len(), 0);
    assert!(store.add_server(&project("foo", "/path/a"), "start".to_string()).is_ok());
    match store.add_server(&project("foo", "/path/b"), "start".to_string()) {
        Err(ApplicationError::DuplicateServerName(name)) => assert_eq!(name, "foo"),
        other => panic!("unexpected {:?}", other),
    }
    match store.add_server(&project("bar", "/path/a"), "start".to_string()) {
        Err(ApplicationError::DuplicateServerDir { dir, existing }) => {
            assert_eq!(dir, "/path/a");
            assert_eq!(existing.name, "foo");
        }
        other => panic!("unexpected {:?}", other),
    }
    assert_eq!(store.get_closest_server_name("fo"), Some("foo".to_string()));
    assert_eq!(store.get_all().len(), 1);
}

#[test]
fn added_server_is_retrievable_with_no_usage() {
    let mut store = empty_store();
    store.add_server(&project("web", "/srv/web"), "npm run dev".to_string()).unwrap();
    let s = store.get_one("web").unwrap();
    assert_eq!(record(s), ("web".to_string(), "/srv/web".to_string(), "npm run dev".to_string(), 0));
    assert_eq!(s.get_weight(), 0);
}

#[test]
fn validate_new_project_reports_name_before_dir() {
    let mut store = empty_store();
    store.add_server(&project("a", "/x"), "c".to_string()).unwrap();
    store.add_server(&project("b", "/y"), "c".to_string()).unwrap();
    assert!(matches!(
        store.validate_new_project(&project("a", "/y")),
        Err(ApplicationError::DuplicateServerName(_))
    ));
    match store.validate_new_project(&project("c", "/y")) {
        Err(ApplicationError::DuplicateServerDir { existing, .. }) => assert_eq!(existing.name, "b"),
        other => panic!("unexpected {:?}", other),
    }
    assert!(store.validate_new_project(&project("c", "/z")).is_ok());
}

#[test]
fn flush_then_load_gives_the_same_records() {
    let mut store = empty_store();
    store.add_server(&project("zeta", "/z"), "run z".to_string()).unwrap();
    store.add_server(&project("alpha", "/a"), "run a".to_string()).unwrap();
    store.add_server(&project("mid", "/m"), "run m".to_string()).unwrap();
    store.start_server("mid", 4611686018427387904).unwrap();
    let raw = store.flush();
    let back = ServerStore::load(store.get_store_path().clone(), raw);
    assert_eq!(sorted_records(&back), sorted_records(&store));
    assert_eq!(back.get_store_path(), "/data/servers.toml");
}

#[test]
fn flush_writes_in_name_order_whatever_the_insertion_order() {
    let names = [("delta", "/d"), ("alpha", "/a"), ("charlie", "/c"), ("bravo", "/b")];
    let mut first = empty_store();
    for (n, d) in names.iter() {
        first.add_server(&project(n, d), "go".to_string()).unwrap();
    }
    let mut second = empty_store();
    for (n, d) in names.iter().rev() {
        second.add_server(&project(n, d), "go".to_string()).unwrap();
    }
    let a: Vec<_> = first.flush().servers.iter().map(record).collect();
    let b: Vec<_> = second.flush().servers.iter().map(record).collect();
    assert_eq!(a, b);
    let order: Vec<_> = a.iter().map(|r| r.0.as_str()).collect();
    assert_eq!(order, vec!["alpha", "bravo", "charlie", "delta"]);
}

#[test]
fn flush_orders_by_bytes() {
    let mut store = empty_store();
    for (n, d) in [("b", "/1"), ("B", "/2"), ("ab", "/3"), ("a", "/4"), ("é", "/5")] {
        store.add_server(&project(n, d), "go".to_string()).unwrap();
    }
    let order: Vec<_> = store.flush().servers.iter().map(|s| s.name.clone()).collect();
    assert_eq!(order, vec!["B", "a", "ab", "b", "é"]);
}

#[test]
fn load_keeps_the_last_record_of_a_name() {
    let raw = RawServerStore {
        servers: vec![
            Server { name: "x".to_string(), dir: "/1".to_string(), start_command: "one".to_string(), frecency: 1 },
            Server { name: "y".to_string(), dir: "/2".to_string(), start_command: "two".to_string(), frecency: 2 },
            Server { name: "x".to_string(), dir: "/3".to_string(), start_command: "three".to_string(), frecency: 3 },
        ],
    };
    let store = ServerStore::load("/s".to_string(), raw);
    assert_eq!(store.get_all().len(), 2);
    assert_eq!(record(store.get_one("x").unwrap()), ("x".to_string(), "/3".to_string(), "three".to_string(), 3));
}

#[test]
fn removing_an_unknown_name_is_a_no_op() {
    let mut store = empty_store();
    store.add_server(&project("keep", "/k"), "go".to_string()).unwrap();
    let before = sorted_records(&store);
    assert!(store.remove_server("missing").is_ok());
    assert_eq!(sorted_records(&store), before);
    assert!(store.remove_server("keep").is_ok());
    assert!(store.get_all().is_empty());
    assert!(matches!(store.get_one("keep"), Err(ApplicationError::NonExistentServer(n)) if n == "keep"));
}

#[test]
fn rename_checks_and_moves_the_record() {
    let mut store = empty_store();
    store.add_server(&project("old", "/o"), "go".to_string()).unwrap();
    store.add_server(&project("other", "/t"), "go".to_string()).unwrap();
    assert!(matches!(store.set_server_name("old", String::new()), Err(ApplicationError::EmptyServerName)));
    assert!(matches!(
        store.set_server_name("old", "other".to_string()),
        Err(ApplicationError::DuplicateServerName(n)) if n == "other"
    ));
    assert!(matches!(
        store.set_server_name("ghost", "new".to_string()),
        Err(ApplicationError::NonExistentServer(n)) if n == "ghost"
    ));
    store.set_server_name("old", "new".to_string()).unwrap();
    assert!(store.get_one("old").is_err());
    assert_eq!(record(store.get_one("new").unwrap()), ("new".to_string(), "/o".to_string(), "go".to_string(), 0));
    let order: Vec<_> = store.flush().servers.iter().map(|s| s.name.clone()).collect();
    assert_eq!(order, vec!["new", "other"]);
}

#[test]
fn start_command_and_score_updates() {
    let mut store = empty_store();
    store.add_server(&project("app", "/app"), "old".to_string()).unwrap();
    store.set_server_start_command("app", "npm run start".to_string()).unwrap();
    assert_eq!(store.get_one("app").unwrap().start_command, "npm run start");
    assert!(matches!(
        store.set_server_start_command("nope", "x".to_string()),
        Err(ApplicationError::NonExistentServer(n)) if n == "nope"
    ));
    let bits = 1.5f64.to_bits();
    store.start_server("app", bits).unwrap();
    assert_eq!(f64::from_bits(store.get_one("app").unwrap().frecency), 1.5);
    assert!(matches!(store.start_server("nope", bits), Err(ApplicationError::NonExistentServer(_))));
}

#[test]
fn closest_name_on_an_empty_store_is_none() {
    assert_eq!(empty_store().get_closest_server_name("anything"), None);
}

#[test]
fn closest_name_is_one_of_the_servers() {
    let mut store = empty_store();
    store.add_server(&project("frontend", "/f"), "go".to_string()).unwrap();
    store.add_server(&project("backend", "/b"), "go".to_string()).unwrap();
    let suggestion = store.get_closest_server_name("frontnd");
    assert!(matches!(suggestion.as_deref(), Some("frontend") | Some("backend")));
}

#[test]
fn closest_name_falls_back_when_nothing_is_similar() {
    let mut store = empty_store();
    store.add_server(&project("foo", "/f"), "go".to_string()).unwrap();
    assert_eq!(store.get_closest_server_name("xyz"), Some("foo".to_string()));
}
