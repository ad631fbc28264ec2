use btree_database::data::Data;
use btree_database::database::{
    command_log_lines, log_line_is_readable, parse_log_line, remove_log_text, set_log_text, Command,
    Database, SetParameters,
};

fn strings(items: &[&str]) -> Vec<String> {
    items.iter().map(|s| s.to_string()).collect()
}

fn set(db: &mut Database, btrees: &[&str], key: &str, value: &str, log: bool) -> String {
    let params = SetParameters::new(key.to_string(), value.to_string(), strings(btrees));
    db.send_db_command_get_reponse(Command::SetValue(params), log).unwrap()
}

fn get(db: &mut Database, path: &[&str]) -> String {
    db.send_db_command_get_reponse(Command::Get(strings(path)), false).unwrap()
}

fn remove(db: &mut Database, path: &[&str], log: bool) -> String {
    db.send_db_command_get_reponse(Command::Remove(strings(path)), log).unwrap()
}

fn keys(db: &mut Database) -> String {
    db.send_db_command_get_reponse(Command::Keys, false).unwrap()
}

#[test]
fn client_round_trip_set_get_remove_get() {
    let mut db = Database::new();
    for _ in 0..10 {
        let r = set(&mut db, &[], "Name", "Rustacean", true);
        assert!(r.contains("Ok"));
        assert_eq!(r, "Ok");
        let r = get(&mut db, &["Name"]);
        assert!(r.contains("Rustacean"));
        assert_eq!(r, "Rustacean\n");
        let r = remove(&mut db, &["Name"], true);
        assert!(r.contains("Rustacean"));
        assert_eq!(r, "Rustacean\n");
        let r = get(&mut db, &["Name"]);
        assert!(r.contains("not found") && r.contains("Name"));
        assert_eq!(r, "Error: Value not found under Name");
    }
}

#[test]
fn keys_come_out_sorted_and_debug_formatted() {
    let mut db = Database::new();
    set(&mut db, &[], "pear", "1", false);
    set(&mut db, &[], "apple", "2", false);
    set(&mut db, &[], "fig", "3", false);
    set(&mut db, &[], "Zebra", "4", false);
    assert_eq!(db.get_keys(), strings(&["Zebra", "apple", "fig", "pear"]));
    assert_eq!(keys(&mut db), "The database keys are: [\"Zebra\", \"apple\", \"fig\", \"pear\"]\n");
}

#[test]
fn keys_of_an_empty_database() {
    let mut db = Database::new();
    assert_eq!(keys(&mut db), "The database keys are: []\n");
}

#[test]
fn debug_listing_escapes_quotes() {
    let mut db = Database::new();
    set(&mut db, &[], "a\"b", "1", false);
    assert_eq!(keys(&mut db), "The database keys are: [\"a\\\"b\"]\n");
}

#[test]
fn nested_trees_are_created_on_store() {
    let mut db = Database::new();
    assert_eq!(set(&mut db, &["users", "alice"], "age", "30", false), "Ok");
    assert_eq!(set(&mut db, &["users", "bob"], "age", "41", false), "Ok");
    assert_eq!(get(&mut db, &["users", "alice", "age"]), "30\n");
    assert_eq!(get(&mut db, &["users", "bob", "age"]), "41\n");
    assert_eq!(get(&mut db, &["users"]), "The keys of the requested tree are: [\"alice\", \"bob\"]\n");
    assert_eq!(db.get_keys(), strings(&["users"]));
    match db.get_value(strings(&["users", "alice"])) {
        Ok(Data::Tree(entries)) => {
            assert_eq!(entries.len(), 1);
            assert_eq!(entries[0].0, "age");
        }
        _ => panic!("expected a tree"),
    }
}

#[test]
fn store_overwrites_existing_value() {
    let mut db = Database::new();
    set(&mut db, &[], "k", "one", false);
    set(&mut db, &[], "k", "two", false);
    assert_eq!(get(&mut db, &["k"]), "two\n");
    assert_eq!(db.get_keys(), strings(&["k"]));
}

#[test]
fn store_through_a_value_fails_and_changes_nothing() {
    let mut db = Database::new();
    set(&mut db, &[], "leaf", "v", false);
    let r = set(&mut db, &["leaf", "x"], "k", "v2", false);
    assert_eq!(r, "Error: Got value when expecting tree.\n");
    assert_eq!(db.get_keys(), strings(&["leaf"]));
    assert_eq!(get(&mut db, &["leaf"]), "v\n");
}

#[test]
fn lookup_errors() {
    let mut db = Database::new();
    set(&mut db, &["t"], "k", "v", false);
    assert_eq!(get(&mut db, &["nope", "k"]), "Error: the tree for key nope, does not exist.");
    assert_eq!(get(&mut db, &["t", "k", "deeper"]), "Error: the key k, is a value and not a tree!");
    assert_eq!(get(&mut db, &["t", "missing"]), "Error: Value not found under missing");
    match db.get_value(strings(&["t", "missing"])) {
        Err(e) => assert_eq!(e, "Error: Value not found under missing"),
        Ok(_) => panic!("expected an error"),
    }
}

#[test]
fn removal_errors() {
    let mut db = Database::new();
    set(&mut db, &["t"], "k", "v", false);
    assert_eq!(remove(&mut db, &["nope", "k"], false), "Error: the tree for key nope, does not exist.");
    assert_eq!(remove(&mut db, &["t", "k", "x"], false), "Error: the key k, is a value and not a tree!");
    assert_eq!(remove(&mut db, &["t", "zz"], false), "That key does not seem to exist!");
    assert_eq!(get(&mut db, &["t", "k"]), "v\n");
}

#[test]
fn removing_a_tree_replies_with_the_first_key() {
    let mut db = Database::new();
    set(&mut db, &["a", "b"], "k", "v", false);
    assert_eq!(remove(&mut db, &["a", "b"], false), "a\n");
    assert_eq!(get(&mut db, &["a"]), "The keys of the requested tree are: []\n");
}

#[test]
fn error_command_replies_with_its_message() {
    let mut db = Database::new();
    let r = db.send_db_command_get_reponse(Command::Error("bad input".to_string()), true);
    assert_eq!(r.unwrap(), "bad input");
    assert!(db.take_log_lines().is_empty());
}

#[test]
fn exit_command_gives_no_reply() {
    let mut db = Database::new();
    assert!(db.send_db_command_get_reponse(Command::Exit, true).is_none());
}

#[test]
fn logging_records_stores_and_removals() {
    let mut db = Database::new();
    set(&mut db, &["a", "b"], "key", "value", true);
    set(&mut db, &[], "top", "x", true);
    remove(&mut db, &["a", "b", "key"], true);
    get(&mut db, &["top"]);
    set(&mut db, &[], "quiet", "y", false);
    assert_eq!(
        db.take_log_lines(),
        strings(&["SET a/b key value", "SET  top x", "REM a/b/key"])
    );
    assert!(db.take_log_lines().is_empty());
}

#[test]
fn replaying_the_log_rebuilds_the_database() {
    let mut db = Database::new();
    set(&mut db, &["users", "alice"], "age", "30", true);
    set(&mut db, &["users", "bob"], "age", "41", true);
    set(&mut db, &[], "motd", "hello", true);
    set(&mut db, &["motd"], "bad", "x", true);
    remove(&mut db, &["users", "bob"], true);
    remove(&mut db, &["nothing"], true);
    set(&mut db, &["", ""], "k", "v", true);
    let lines = db.take_log_lines();
    let mut restored = Database::new();
    restored.restore_from_log(lines);
    assert!(restored.take_log_lines().is_empty());
    assert_eq!(restored.get_keys(), db.get_keys());
    for path in [
        vec!["users"],
        vec!["users", "alice", "age"],
        vec!["users", "bob"],
        vec!["motd"],
        vec![""],
        vec!["", "", "k"],
    ] {
        assert_eq!(get(&mut restored, &path), get(&mut db, &path));
    }
    assert_eq!(get(&mut restored, &["users", "alice", "age"]), "30\n");
}

#[test]
fn get_after_set_returns_the_value() {
    let mut db = Database::new();
    set(&mut db, &["x"], "y", "z", false);
    set(&mut db, &["x", "w"], "y", "q", false);
    assert_eq!(get(&mut db, &["x", "y"]), "z\n");
    assert_eq!(get(&mut db, &["x", "w", "y"]), "q\n");
}

#[test]
fn remove_after_set_returns_value_then_lookup_fails() {
    let mut db = Database::new();
    set(&mut db, &["p"], "k", "v", false);
    assert_eq!(remove(&mut db, &["p", "k"], false), "v\n");
    assert_eq!(get(&mut db, &["p", "k"]), "Error: Value not found under k");
}

#[test]
fn parse_set_lines() {
    match parse_log_line("SET a/b key value".to_string()) {
        Command::SetValue(p) => {
            assert_eq!(p.get_key(), "key");
            assert_eq!(p.get_value(), "value");
            assert_eq!(p.get_btrees(), strings(&["a", "b"]));
        }
        _ => panic!("expected a store"),
    }
    match parse_log_line("SET  key value\r\n".to_string()) {
        Command::SetValue(p) => {
            assert_eq!(p.get_key(), "key");
            assert_eq!(p.get_value(), "value");
            assert!(p.get_btrees().is_empty());
        }
        _ => panic!("expected a store"),
    }
    match parse_log_line("SET t k v extra".to_string()) {
        Command::SetValue(p) => {
            assert_eq!(p.get_key(), "k");
            assert_eq!(p.get_value(), "extra");
            assert_eq!(p.get_btrees(), strings(&["t"]));
        }
        _ => panic!("expected a store"),
    }
}

#[test]
fn parse_remove_and_unknown_lines() {
    match parse_log_line("REM a/b/c\n".to_string()) {
        Command::Remove(p) => assert_eq!(p, strings(&["a", "b", "c"])),
        _ => panic!("expected a removal"),
    }
    match parse_log_line("GET x".to_string()) {
        Command::Error(m) => assert_eq!(m, "Error: Command not found while parsing log!"),
        _ => panic!("expected an error"),
    }
}

#[test]
fn set_parameters_getters() {
    let p = SetParameters::new("k".to_string(), "v".to_string(), strings(&["t1", "t2"]));
    assert_eq!(p.get_key(), "k");
    assert_eq!(p.get_value(), "v");
    assert_eq!(p.get_btrees(), strings(&["t1", "t2"]));
}

#[test]
fn readable_log_lines() {
    assert!(log_line_is_readable(&"SET a k v".to_string()));
    assert!(log_line_is_readable(&"SET  k v\n".to_string()));
    assert!(!log_line_is_readable(&"SET k v".to_string()));
    assert!(log_line_is_readable(&"REM a".to_string()));
    assert!(!log_line_is_readable(&"REM".to_string()));
    assert!(log_line_is_readable(&"anything else".to_string()));
}

#[test]
fn log_lines_of_commands() {
    let p = SetParameters::new("k".to_string(), "v".to_string(), strings(&["a", "b"]));
    assert_eq!(set_log_text(&p), "SET a/b k v");
    assert_eq!(remove_log_text(&strings(&["a", "b", "k"])), "REM a/b/k");
    assert_eq!(command_log_lines(&Command::SetValue(p)), strings(&["SET a/b k v"]));
    assert_eq!(command_log_lines(&Command::Remove(strings(&["x"]))), strings(&["REM x"]));
    assert!(command_log_lines(&Command::Keys).is_empty());
    assert!(command_log_lines(&Command::Get(strings(&["x"]))).is_empty());
}

#[test]
fn replaying_each_calls_lines_rebuilds_step_by_step() {
    let mut db = Database::new();
    let mut all: Vec<String> = Vec::new();
    let steps: Vec<Command> = vec![
        Command::SetValue(SetParameters::new("k".to_string(), "1".to_string(), strings(&["t"]))),
        Command::SetValue(SetParameters::new("j".to_string(), "2".to_string(), strings(&[]))),
        Command::Remove(strings(&["t", "k"])),
        Command::Keys,
        Command::SetValue(SetParameters::new("m".to_string(), "3".to_string(), strings(&["t", "u"]))),
    ];
    for step in steps {
        db.send_db_command_get_reponse(step, true);
        all.extend(db.take_log_lines());
        let mut restored = Database::new();
        restored.restore_from_log(all.clone());
        assert_eq!(restored.get_keys(), db.get_keys());
        assert_eq!(get(&mut restored, &["t"]), get(&mut db, &["t"]));
    }
    assert_eq!(get(&mut db, &["t", "u", "m"]), "3\n");
}
