use ht_store::cipher::DecodeError;
use ht_store::database::{
    ConfigError, Database, EngineError, Found, LoadError, QueueItem, Reply, Request, SchemaError,
};
use ht_store::record::Record;
use ht_store::table::Table;

fn rec(pairs: &[(&str, &str)]) -> Record {
    Record::from_pairs(pairs.iter().map(|(k, v)| (k.to_string(), v.to_string())).collect())
}

fn cols(names: &[&str]) -> Vec<String> {
    names.iter().map(|n| n.to_string()).collect()
}

fn users() -> Database {
    let mut db = Database::new("users.ht".to_string(), "secret".to_string());
    assert_eq!(db.create_table("users".to_string(), cols(&["id", "name"])), Ok(()));
    assert_eq!(db.insert("users".to_string(), rec(&[("id", "1"), ("name", "Alice")])), Ok(()));
    db
}

#[test]
fn create_insert_select() {
    let db = users();
    assert_eq!(
        db.select("users".to_string(), None),
        Ok(vec![rec(&[("id", "1"), ("name", "Alice")])])
    );
}

#[test]
fn update_then_select_by_query() {
    let mut db = users();
    assert_eq!(db.update("users".to_string(), rec(&[("id", "1")]), rec(&[("name", "Bob")])), Ok(()));
    assert_eq!(
        db.select("users".to_string(), Some(rec(&[("id", "1")]))),
        Ok(vec![rec(&[("id", "1"), ("name", "Bob")])])
    );
}

#[test]
fn delete_then_select_is_empty() {
    let mut db = users();
    assert_eq!(db.delete("users".to_string(), rec(&[("id", "1")])), Ok(()));
    assert_eq!(db.select("users".to_string(), None), Ok(vec![]));
}

#[test]
fn create_existing_table_fails_and_changes_nothing() {
    let mut db = users();
    let before = db.tables();
    assert_eq!(
        db.create_table("users".to_string(), cols(&["other"])),
        Err(SchemaError::TableExists)
    );
    assert_eq!(db.tables(), before);
    assert_eq!(
        db.select("users".to_string(), None),
        Ok(vec![rec(&[("id", "1"), ("name", "Alice")])])
    );
}

#[test]
fn insert_projects_onto_the_schema() {
    let mut db = Database::new("t.ht".to_string(), "pw".to_string());
    db.create_table("t".to_string(), cols(&["x", "y"])).unwrap();
    db.insert("t".to_string(), rec(&[("x", "1"), ("extra", "z")])).unwrap();
    assert_eq!(db.select("t".to_string(), None), Ok(vec![rec(&[("x", "1"), ("y", "")])]));
}

#[test]
fn missing_table_is_an_error_everywhere() {
    let mut db = Database::new("t.ht".to_string(), "pw".to_string());
    assert_eq!(db.select("t".to_string(), None), Err(SchemaError::TableMissing));
    assert_eq!(db.insert("t".to_string(), Record::new()), Err(SchemaError::TableMissing));
    assert_eq!(
        db.update("t".to_string(), Record::new(), Record::new()),
        Err(SchemaError::TableMissing)
    );
    assert_eq!(db.delete("t".to_string(), Record::new()), Err(SchemaError::TableMissing));
    assert_eq!(db.delete_table("t".to_string()), Err(SchemaError::TableMissing));
    assert!(db.tables().is_empty());
}

#[test]
fn delete_table_removes_only_that_table() {
    let mut db = users();
    db.create_table("other".to_string(), cols(&["a"])).unwrap();
    assert!(db.has_table("users"));
    assert_eq!(db.delete_table("users".to_string()), Ok(()));
    assert!(!db.has_table("users"));
    assert!(db.has_table("other"));
    assert_eq!(db.select("users".to_string(), None), Err(SchemaError::TableMissing));
    assert_eq!(db.select("other".to_string(), None), Ok(vec![]));
}

#[test]
fn changes_touch_only_their_table() {
    let mut db = users();
    db.create_table("pets".to_string(), cols(&["id"])).unwrap();
    db.insert("pets".to_string(), rec(&[("id", "1")])).unwrap();
    db.delete("users".to_string(), rec(&[("id", "1")])).unwrap();
    assert_eq!(db.select("pets".to_string(), None), Ok(vec![rec(&[("id", "1")])]));
}

#[test]
fn queue_items_are_carried_out_at_once() {
    let mut db = users();
    let item = QueueItem::Insert("users".to_string(), rec(&[("id", "2"), ("name", "Carol")]));
    assert_eq!(db.process_queue(item), Ok(()));
    let item = QueueItem::Update("users".to_string(), rec(&[("id", "2")]), rec(&[("name", "Dan")]));
    assert_eq!(db.process_queue(item), Ok(()));
    let item = QueueItem::Delete("users".to_string(), rec(&[("id", "1")]));
    assert_eq!(db.process_queue(item), Ok(()));
    assert_eq!(
        db.select("users".to_string(), None),
        Ok(vec![rec(&[("id", "2"), ("name", "Dan")])])
    );
    let item = QueueItem::Delete("nobody".to_string(), Record::new());
    assert_eq!(db.process_queue(item), Err(SchemaError::TableMissing));
}

#[test]
fn table_level_operations_report_a_missing_table() {
    let mut db = users();
    let name = "users".to_string();
    let none = "none".to_string();
    assert_eq!(db.insert_table(&name, &rec(&[("id", "2")])), Ok(()));
    assert_eq!(db.update_table(&name, &rec(&[("id", "2")]), &rec(&[("name", "Eve")])), Ok(()));
    assert_eq!(db.delete_from_table(&name, &rec(&[("id", "1")])), Ok(()));
    assert_eq!(db.select(name, None), Ok(vec![rec(&[("id", "2"), ("name", "Eve")])]));
    assert_eq!(db.insert_table(&none, &Record::new()), Err(SchemaError::TableMissing));
    assert_eq!(db.update_table(&none, &Record::new(), &Record::new()), Err(SchemaError::TableMissing));
    assert_eq!(db.delete_from_table(&none, &Record::new()), Err(SchemaError::TableMissing));
}

#[test]
fn database_remembers_path_and_secret() {
    let db = Database::new("a/b.ht".to_string(), "pw".to_string());
    assert_eq!(db.file_path(), "a/b.ht");
    assert_eq!(db.password(), "pw");
    assert!(db.tables().is_empty());
}

#[test]
fn sealing_needs_the_file_extension() {
    let db = Database::new("data.txt".to_string(), "pw".to_string());
    assert_eq!(db.seal_payload(b"{}"), Err(ConfigError::BadExtension));
    let db = Database::new("ht".to_string(), "pw".to_string());
    assert_eq!(db.seal_payload(b"{}"), Err(ConfigError::BadExtension));
}

#[test]
fn sealed_payload_opens_under_the_same_secret() {
    let db = Database::new("data.ht".to_string(), "pw".to_string());
    let content = db.seal_payload(b"{\"users\":{}}").unwrap();
    assert_eq!(db.open_payload(&content), Ok(b"{\"users\":{}}".to_vec()));
    let again = Database::new("data.ht".to_string(), "pw".to_string());
    assert_eq!(again.open_payload(&content), Ok(b"{\"users\":{}}".to_vec()));
}

#[test]
fn sealed_payload_does_not_open_under_another_secret() {
    let db = Database::new("data.ht".to_string(), "pw".to_string());
    let content = db.seal_payload(b"{\"users\":{}}").unwrap();
    let other = Database::new("data.ht".to_string(), "other".to_string());
    assert_eq!(other.open_payload(&content), Err(DecodeError::AuthenticationFailed));
    assert_eq!(other.open_payload("garbage"), Err(DecodeError::MalformedWire));
}

#[test]
fn replacing_tables_gives_back_what_was_taken() {
    let db = users();
    let taken = db.tables();
    let mut again = Database::new("users.ht".to_string(), "secret".to_string());
    again.replace_tables(&taken);
    assert_eq!(again.tables(), taken);
    assert_eq!(
        again.select("users".to_string(), None),
        Ok(vec![rec(&[("id", "1"), ("name", "Alice")])])
    );
}

#[test]
fn replacing_tables_drops_what_was_held() {
    let mut db = users();
    db.replace_tables(&vec![("pets".to_string(), Table::new(cols(&["id"])))]);
    assert!(!db.has_table("users"));
    assert!(db.has_table("pets"));
    db.replace_tables(&vec![]);
    assert!(db.tables().is_empty());
}

#[test]
fn later_table_of_the_same_name_stays() {
    let mut db = Database::new("t.ht".to_string(), "pw".to_string());
    db.replace_tables(&vec![
        ("t".to_string(), Table::new(cols(&["a"]))),
        ("u".to_string(), Table::new(cols(&["b"]))),
        ("t".to_string(), Table::new(cols(&["c"]))),
    ]);
    let held = db.tables();
    assert_eq!(held.len(), 2);
    let t = held.iter().find(|(name, _)| name == "t").unwrap();
    assert_eq!(t.1.columns(), &cols(&["c"]));
}

#[test]
fn only_a_path_ending_in_the_extension_can_store() {
    assert!(Database::new("data.ht".to_string(), "pw".to_string()).can_store());
    assert!(Database::new(".ht".to_string(), "pw".to_string()).can_store());
    assert!(!Database::new("data.ht.txt".to_string(), "pw".to_string()).can_store());
    assert!(!Database::new("".to_string(), "pw".to_string()).can_store());
}

#[test]
fn loading_without_a_file_gives_a_new_database() {
    let mut db = users();
    assert_eq!(db.load(Found::Nothing), Ok(()));
    assert!(db.tables().is_empty());
}

#[test]
fn loading_tables_takes_them_over() {
    let taken = users().tables();
    let mut db = Database::new("users.ht".to_string(), "secret".to_string());
    db.create_table("stale".to_string(), cols(&["a"])).unwrap();
    assert_eq!(db.load(Found::Tables(taken.clone())), Ok(()));
    assert_eq!(db.tables(), taken);
    assert!(!db.has_table("stale"));
}

#[test]
fn loading_an_unreadable_file_reports_it_and_holds_nothing() {
    let mut db = users();
    assert_eq!(
        db.load(Found::Unreadable(DecodeError::AuthenticationFailed)),
        Err(LoadError::Decode(DecodeError::AuthenticationFailed))
    );
    assert!(db.tables().is_empty());
    let mut db = users();
    assert_eq!(
        db.load(Found::Unreadable(DecodeError::MalformedWire)),
        Err(LoadError::Decode(DecodeError::MalformedWire))
    );
    assert!(db.tables().is_empty());
    let mut db = users();
    assert_eq!(db.load(Found::Unstructured), Err(LoadError::Structure));
    assert!(db.tables().is_empty());
}

#[test]
fn state_survives_sealing_and_loading() {
    let mut db = users();
    db.update("users".to_string(), rec(&[("id", "1")]), rec(&[("name", "Bob")])).unwrap();
    let content = db.seal_payload(b"payload").unwrap();
    let mut again = Database::new("users.ht".to_string(), "secret".to_string());
    assert_eq!(again.open_payload(&content), Ok(b"payload".to_vec()));
    assert_eq!(again.load(Found::Tables(db.tables())), Ok(()));
    assert_eq!(
        again.select("users".to_string(), None),
        Ok(vec![rec(&[("id", "1"), ("name", "Bob")])])
    );
}

#[test]
fn a_call_sees_what_the_file_holds() {
    let file = users().tables();
    let mut db = Database::new("users.ht".to_string(), "secret".to_string());
    db.create_table("stale".to_string(), cols(&["a"])).unwrap();
    let reply = db.execute(Found::Tables(file), Request::Select("users".to_string(), None));
    assert_eq!(reply, Ok(Reply::Rows(vec![rec(&[("id", "1"), ("name", "Alice")])])));
    assert!(!db.has_table("stale"));
}

#[test]
fn a_change_asks_to_be_written_back() {
    let mut db = Database::new("users.ht".to_string(), "secret".to_string());
    let reply = db.execute(
        Found::Nothing,
        Request::CreateTable("users".to_string(), cols(&["id", "name"])),
    );
    assert_eq!(reply, Ok(Reply::Changed));
    let item = QueueItem::Insert("users".to_string(), rec(&[("id", "1"), ("name", "Alice")]));
    let reply = db.execute(Found::Tables(db.tables()), Request::Change(item));
    assert_eq!(reply, Ok(Reply::Changed));
    let item = QueueItem::Update("users".to_string(), rec(&[("id", "1")]), rec(&[("name", "Bob")]));
    let reply = db.execute(Found::Tables(db.tables()), Request::Change(item));
    assert_eq!(reply, Ok(Reply::Changed));
    let query = Some(rec(&[("id", "1")]));
    let reply = db.execute(Found::Tables(db.tables()), Request::Select("users".to_string(), query));
    assert_eq!(reply, Ok(Reply::Rows(vec![rec(&[("id", "1"), ("name", "Bob")])])));
    let item = QueueItem::Delete("users".to_string(), rec(&[("id", "1")]));
    let reply = db.execute(Found::Tables(db.tables()), Request::Change(item));
    assert_eq!(reply, Ok(Reply::Changed));
    let reply = db.execute(Found::Tables(db.tables()), Request::Select("users".to_string(), None));
    assert_eq!(reply, Ok(Reply::Rows(vec![])));
    let reply = db.execute(Found::Tables(db.tables()), Request::DeleteTable("users".to_string()));
    assert_eq!(reply, Ok(Reply::Changed));
    assert!(db.tables().is_empty());
}

#[test]
fn a_call_that_does_not_fit_changes_nothing() {
    let file = users().tables();
    let mut db = Database::new("users.ht".to_string(), "secret".to_string());
    let reply = db.execute(
        Found::Tables(file.clone()),
        Request::CreateTable("users".to_string(), cols(&["other"])),
    );
    assert_eq!(reply, Err(EngineError::Schema(SchemaError::TableExists)));
    assert_eq!(db.tables(), file);
    let reply = db.execute(Found::Tables(file.clone()), Request::DeleteTable("pets".to_string()));
    assert_eq!(reply, Err(EngineError::Schema(SchemaError::TableMissing)));
    assert_eq!(db.tables(), file);
    let item = QueueItem::Insert("pets".to_string(), Record::new());
    let reply = db.execute(Found::Tables(file.clone()), Request::Change(item));
    assert_eq!(reply, Err(EngineError::Schema(SchemaError::TableMissing)));
    assert_eq!(db.tables(), file);
    let reply = db.execute(Found::Tables(file.clone()), Request::Select("pets".to_string(), None));
    assert_eq!(reply, Err(EngineError::Schema(SchemaError::TableMissing)));
}

#[test]
fn a_change_is_refused_where_the_path_cannot_store() {
    let mut db = Database::new("users.db".to_string(), "secret".to_string());
    let request = Request::CreateTable("users".to_string(), cols(&["id"]));
    assert_eq!(db.permit(&request), Err(EngineError::Config(ConfigError::BadExtension)));
    assert_eq!(
        db.execute(Found::Nothing, request),
        Err(EngineError::Config(ConfigError::BadExtension))
    );
    assert!(db.tables().is_empty());
    let item = QueueItem::Delete("users".to_string(), Record::new());
    assert_eq!(
        db.execute(Found::Tables(users().tables()), Request::Change(item)),
        Err(EngineError::Config(ConfigError::BadExtension))
    );
    assert!(db.tables().is_empty());
}

#[test]
fn a_select_needs_no_storable_path() {
    let mut db = Database::new("users.db".to_string(), "secret".to_string());
    let request = Request::Select("users".to_string(), None);
    assert_eq!(db.permit(&request), Ok(()));
    assert_eq!(
        db.execute(Found::Tables(users().tables()), request),
        Ok(Reply::Rows(vec![rec(&[("id", "1"), ("name", "Alice")])]))
    );
}

#[test]
fn a_call_on_an_unreadable_file_is_refused() {
    let mut db = users();
    let reply = db.execute(
        Found::Unreadable(DecodeError::AuthenticationFailed),
        Request::Select("users".to_string(), None),
    );
    assert_eq!(reply, Err(EngineError::Load(LoadError::Decode(DecodeError::AuthenticationFailed))));
    let reply = db.execute(Found::Unstructured, Request::DeleteTable("users".to_string()));
    assert_eq!(reply, Err(EngineError::Load(LoadError::Structure)));
}
