use bagsync::database::{db_document, is_reserved, Database, EMPTY_DB};
use bagsync::inventory::{list_from_value, CharacterInventoryData, InventorySet};
use bagsync::sync::{
    find_account, get_account_name_from_path, inventory_db_updated, saved_db_path, startup_sync,
    oldest_first, ChangeEvent, SyncError,
};
use bagsync::topology::{is_realm_dir, Account};
use bagsync::value::{get_field, Value};

fn snapshot(money: u64) -> CharacterInventoryData {
    CharacterInventoryData {
        bag: vec![("0".to_string(), vec!["item:6948".to_string()])],
        mailbox: None,
        equip: vec!["item:25".to_string(), "item:39".to_string()],
        bank: Some(vec![(5, vec!["item:2589".to_string()])]),
        money,
        guild: Some("Knights".to_string()),
        faction: "Alliance".to_string(),
        race: "Human".to_string(),
        class: "PALADIN".to_string(),
        gender: 2,
    }
}

fn account(name: &str, realm: &str, characters: &[&str]) -> Account {
    let mut a = Account::new(name, &format!("/wtf/Account/{name}"));
    for c in characters {
        a.add_character(realm, c);
    }
    a
}

fn text(s: &str) -> Value {
    Value::Text(s.to_string())
}

fn db_with(entries: Vec<(&str, Vec<(&str, Value)>)>) -> Database {
    Database {
        entries: entries
            .into_iter()
            .map(|(realm, chars)| {
                (
                    realm.to_string(),
                    Value::Table(chars.into_iter().map(|(c, v)| (text(c), v)).collect()),
                )
            })
            .collect(),
    }
}

fn render(v: &Value) -> String {
    match v {
        Value::Nil => "nil".to_string(),
        Value::Boolean(b) => b.to_string(),
        Value::Integer(i) => i.to_string(),
        Value::Number(n) => n.clone(),
        Value::Text(t) => format!("{t:?}"),
        Value::Table(entries) => {
            let parts: Vec<String> = entries.iter().map(|(k, v)| format!("[{}]={}", render(k), render(v))).collect();
            format!("{{{}}}", parts.join(","))
        }
    }
}

fn render_db(db: &Database) -> String {
    let parts: Vec<String> = db.entries.iter().map(|(k, v)| format!("{k:?}={}", render(v))).collect();
    parts.join(";")
}

fn money_of(db: &Database, realm: &str, character: &str) -> Option<u64> {
    let (_, v) = db.entries.iter().find(|(k, _)| k == realm)?;
    let t = match v {
        Value::Table(t) => t,
        _ => return None,
    };
    let c = get_field(t, character)?;
    CharacterInventoryData::from_value(c).map(|d| d.money)
}

#[test]
fn changed_account_snapshot_reaches_sibling() {
    let accounts = vec![account("A", "Stormrage", &["Arthas"]), account("B", "Stormrage", &["Arthas"])];
    let mut dbs = vec![
        db_with(vec![("Stormrage", vec![("Arthas", snapshot(100).to_value())])]),
        db_with(vec![("Stormrage", vec![("Arthas", snapshot(50).to_value())])]),
    ];
    let errs = inventory_db_updated(&accounts, &mut dbs, "A").ok().unwrap();
    assert!(errs.is_empty());
    assert_eq!(money_of(&dbs[0], "Stormrage", "Arthas"), Some(100));
    assert_eq!(money_of(&dbs[1], "Stormrage", "Arthas"), Some(100));
}

#[test]
fn startup_freshest_snapshot_wins() {
    let accounts = vec![account("A", "Stormrage", &["Arthas"]), account("B", "Stormrage", &["Arthas"])];
    let mut dbs = vec![
        db_with(vec![("Stormrage", vec![("Arthas", snapshot(100).to_value())])]),
        db_with(vec![("Stormrage", vec![("Arthas", snapshot(50).to_value())])]),
    ];
    // A's database was written last
    let errs = startup_sync(&accounts, &mut dbs, &vec![20, 10]);
    assert!(errs.is_empty());
    assert_eq!(money_of(&dbs[0], "Stormrage", "Arthas"), Some(100));
    assert_eq!(money_of(&dbs[1], "Stormrage", "Arthas"), Some(100));
}

#[test]
fn startup_reads_sources_before_writing() {
    let accounts = vec![
        account("A", "Stormrage", &["Arthas", "Jaina"]),
        account("B", "Stormrage", &["Arthas", "Jaina"]),
    ];
    let mut dbs = vec![
        db_with(vec![("Stormrage", vec![("Arthas", snapshot(1).to_value()), ("Jaina", snapshot(2).to_value())])]),
        db_with(vec![("Stormrage", vec![("Arthas", snapshot(3).to_value())])]),
    ];
    // B was written last: its Arthas wins; Jaina only A has
    let errs = startup_sync(&accounts, &mut dbs, &vec![5, 9]);
    assert!(errs.is_empty());
    for db in &dbs {
        assert_eq!(money_of(db, "Stormrage", "Arthas"), Some(3));
        assert_eq!(money_of(db, "Stormrage", "Jaina"), Some(2));
    }
}

#[test]
fn oldest_first_orders_by_write_time() {
    assert_eq!(oldest_first(&vec![30, 10, 20]), vec![1, 2, 0]);
    assert_eq!(oldest_first(&vec![]), Vec::<usize>::new());
}

#[test]
fn missing_database_receives_nothing() {
    let accounts = vec![account("A", "Stormrage", &["Arthas"]), account("B", "Stormrage", &["Arthas"])];
    assert_eq!(EMPTY_DB, "BagSyncDB={}");
    let mut dbs = vec![Database { entries: Vec::new() }, db_with(vec![("Stormrage", vec![("Arthas", snapshot(50).to_value())])])];
    let errs = inventory_db_updated(&accounts, &mut dbs, "B").ok().unwrap();
    assert!(errs.is_empty());
    assert!(dbs[0].entries.is_empty());
    assert_eq!(money_of(&dbs[1], "Stormrage", "Arthas"), Some(50));
}

#[test]
fn merge_inserts_missing_character() {
    let mut db = db_with(vec![("Stormrage", vec![])]);
    let sets = vec![InventorySet {
        realm_name: "Stormrage".to_string(),
        character_name: "Jaina".to_string(),
        character_inventory_data: snapshot(7),
    }];
    db.update(&sets);
    assert_eq!(money_of(&db, "Stormrage", "Jaina"), Some(7));
}

#[test]
fn merge_leaves_other_entries() {
    let reserved = format!("options{}", '\u{a7}');
    let mut db = db_with(vec![
        ("Stormrage", vec![("Arthas", snapshot(50).to_value()), ("Uther", snapshot(9).to_value())]),
        ("Argent Dawn", vec![("Arthas", snapshot(3).to_value())]),
    ]);
    db.entries.push((reserved.clone(), Value::Table(vec![(text("Stormrage"), Value::Integer(1))])));
    let sets = vec![InventorySet {
        realm_name: "Stormrage".to_string(),
        character_name: "Arthas".to_string(),
        character_inventory_data: snapshot(100),
    }];
    db.update(&sets);
    assert_eq!(money_of(&db, "Stormrage", "Arthas"), Some(100));
    assert_eq!(money_of(&db, "Stormrage", "Uther"), Some(9));
    assert_eq!(money_of(&db, "Argent Dawn", "Arthas"), Some(3));
    assert_eq!(db.entries.len(), 3);
    assert_eq!(db.entries[2].0, reserved);
    match &db.entries[2].1 {
        Value::Table(t) => {
            assert_eq!(t.len(), 1);
            assert!(matches!(&t[0], (Value::Text(k), Value::Integer(1)) if k == "Stormrage"));
        }
        _ => panic!("reserved entry changed"),
    }
}

#[test]
fn merge_drops_sets_for_missing_realm() {
    let mut db = db_with(vec![("Stormrage", vec![])]);
    let sets = vec![InventorySet {
        realm_name: "Nordrassil".to_string(),
        character_name: "Arthas".to_string(),
        character_inventory_data: snapshot(1),
    }];
    db.update(&sets);
    assert_eq!(db.entries.len(), 1);
    assert_eq!(db.entries[0].0, "Stormrage");
    assert!(matches!(&db.entries[0].1, Value::Table(t) if t.is_empty()));
}

#[test]
fn merge_twice_is_merge_once() {
    let sets = vec![
        InventorySet {
            realm_name: "Stormrage".to_string(),
            character_name: "Arthas".to_string(),
            character_inventory_data: snapshot(10),
        },
        InventorySet {
            realm_name: "Stormrage".to_string(),
            character_name: "Jaina".to_string(),
            character_inventory_data: snapshot(20),
        },
    ];
    let mut db = db_with(vec![
        ("Stormrage", vec![("Arthas", snapshot(1).to_value()), ("Uther", Value::Integer(4))]),
        ("Nordrassil", vec![("Thrall", Value::Boolean(true))]),
    ]);
    db.update(&sets);
    let once = render_db(&db);
    db.update(&sets);
    let twice = render_db(&db);
    assert_eq!(once, twice);
    assert_eq!(money_of(&db, "Stormrage", "Arthas"), Some(10));
    assert_eq!(money_of(&db, "Stormrage", "Jaina"), Some(20));
}

#[test]
fn later_set_wins() {
    let mut db = db_with(vec![("Stormrage", vec![])]);
    let mk = |m| InventorySet {
        realm_name: "Stormrage".to_string(),
        character_name: "Arthas".to_string(),
        character_inventory_data: snapshot(m),
    };
    db.update(&vec![mk(1), mk(2)]);
    assert_eq!(money_of(&db, "Stormrage", "Arthas"), Some(2));
}

#[test]
fn unknown_character_is_not_extracted() {
    let a = account("A", "Stormrage", &["Arthas"]);
    let reserved = format!("Stormrage{}", '\u{a7}');
    let mut db = db_with(vec![
        ("Stormrage", vec![("Arthas", snapshot(100).to_value()), ("Newcomer", snapshot(5).to_value())]),
        ("Nordrassil", vec![("Arthas", snapshot(6).to_value())]),
    ]);
    db.entries.push((reserved, Value::Table(vec![(text("Arthas"), snapshot(4).to_value())])));
    let (sets, errs) = a.get_inventory_setters(&db);
    assert!(errs.is_empty());
    assert_eq!(sets.len(), 1);
    assert_eq!(sets[0].realm_name, "Stormrage");
    assert_eq!(sets[0].character_name, "Arthas");
    assert_eq!(sets[0].character_inventory_data.money, 100);
}

#[test]
fn bad_snapshot_is_reported_and_skipped() {
    let a = account("A", "Stormrage", &["Arthas", "Uther"]);
    let db = db_with(vec![(
        "Stormrage",
        vec![("Arthas", Value::Table(vec![(text("money"), Value::Integer(3))])), ("Uther", snapshot(8).to_value())],
    )]);
    let (sets, errs) = a.get_inventory_setters(&db);
    assert_eq!(sets.len(), 1);
    assert_eq!(sets[0].character_name, "Uther");
    assert_eq!(errs.len(), 1);
    assert_eq!(errs[0].realm_name, "Stormrage");
    assert_eq!(errs[0].character_name, "Arthas");
}

#[test]
fn snapshot_table_form_reads_back() {
    let d = snapshot(123);
    let back = CharacterInventoryData::from_value(&d.to_value()).unwrap();
    assert_eq!(back.money, 123);
    assert_eq!(back.bag, d.bag);
    assert_eq!(back.mailbox, None);
    assert_eq!(back.equip, d.equip);
    assert_eq!(back.bank, d.bank);
    assert_eq!(back.guild, d.guild);
    assert_eq!(back.faction, "Alliance");
    assert_eq!(back.race, "Human");
    assert_eq!(back.class, "PALADIN");
    assert_eq!(back.gender, 2);
}

#[test]
fn snapshot_rejects_wrong_shapes() {
    let mut t = match snapshot(1).to_value() {
        Value::Table(t) => t,
        _ => unreachable!(),
    };
    t[4].1 = Value::Integer(-1);
    assert!(CharacterInventoryData::from_value(&Value::Table(t)).is_none());
    assert!(CharacterInventoryData::from_value(&text("x")).is_none());
}

#[test]
fn list_needs_keys_in_order() {
    let ok = Value::Table(vec![(Value::Integer(1), text("a")), (Value::Integer(2), text("b"))]);
    assert_eq!(list_from_value(&ok), Some(vec!["a".to_string(), "b".to_string()]));
    let swapped = Value::Table(vec![(Value::Integer(2), text("b")), (Value::Integer(1), text("a"))]);
    assert_eq!(list_from_value(&swapped), None);
}

#[test]
fn only_completed_save_is_signalled() {
    let dest: Vec<String> = ["wtf", "Account", "A", "SavedVariables", "BagSyncString.lua"].iter().map(|s| s.to_string()).collect();
    let tmp: Vec<String> = ["wtf", "Account", "A", "SavedVariables", "BagSyncString.lua.tmp"].iter().map(|s| s.to_string()).collect();
    let done = ChangeEvent { is_rename_both: true, paths: vec![tmp.clone(), dest.clone()] };
    assert_eq!(saved_db_path(&done), Some(dest.clone()));
    let other = ChangeEvent { is_rename_both: false, paths: vec![tmp.clone(), dest.clone()] };
    assert_eq!(saved_db_path(&other), None);
    let wrong_file = ChangeEvent { is_rename_both: true, paths: vec![dest.clone(), tmp.clone()] };
    assert_eq!(saved_db_path(&wrong_file), None);
    let one_path = ChangeEvent { is_rename_both: true, paths: vec![dest] };
    assert_eq!(saved_db_path(&one_path), None);
}

#[test]
fn account_name_is_two_levels_up() {
    let p: Vec<String> = ["wtf", "Account", "ALICE", "SavedVariables", "BagSyncString.lua"].iter().map(|s| s.to_string()).collect();
    assert_eq!(get_account_name_from_path(&p).ok(), Some("ALICE".to_string()));
    let short: Vec<String> = vec!["SavedVariables".to_string(), "BagSyncString.lua".to_string()];
    assert!(matches!(get_account_name_from_path(&short), Err(SyncError::PathWithoutAccount)));
    let at_root: Vec<String> = ["/", "SavedVariables", "BagSyncString.lua"].iter().map(|s| s.to_string()).collect();
    assert!(matches!(get_account_name_from_path(&at_root), Err(SyncError::PathWithoutAccount)));
    let parent: Vec<String> = ["..", "SavedVariables", "BagSyncString.lua"].iter().map(|s| s.to_string()).collect();
    assert!(matches!(get_account_name_from_path(&parent), Err(SyncError::PathWithoutAccount)));
    let drive: Vec<String> = ["C:", "SavedVariables", "BagSyncString.lua"].iter().map(|s| s.to_string()).collect();
    assert!(matches!(get_account_name_from_path(&drive), Err(SyncError::PathWithoutAccount)));
}

#[test]
fn unregistered_account_is_an_error() {
    let accounts = vec![account("A", "Stormrage", &["Arthas"]), account("B", "Stormrage", &["Arthas"])];
    let mut dbs = vec![Database { entries: Vec::new() }, Database { entries: Vec::new() }];
    assert!(matches!(inventory_db_updated(&accounts, &mut dbs, "C"), Err(SyncError::AccountNotRegistered)));
    assert_eq!(find_account(&accounts, "B"), Some(1));
    assert_eq!(find_account(&accounts, "C"), None);
}

#[test]
fn database_path_and_document() {
    let a = Account::new("A", "/wtf/Account/A");
    assert_eq!(a.bagsync_db_path(), "/wtf/Account/A/SavedVariables/BagSyncString.lua");
    assert_eq!(db_document("{}"), "BagSyncDB = {}");
    assert!(is_reserved(&format!("x{}", '\u{a7}')));
    assert!(!is_reserved("Stormrage"));
    assert!(!is_reserved(""));
}

#[test]
fn topology_records_characters() {
    let mut a = Account::new("A", "/wtf/Account/A");
    a.add_character("Stormrage", "Arthas");
    a.add_character("Stormrage", "Jaina");
    a.add_character("Nordrassil", "Thrall");
    assert_eq!(a.realms.len(), 2);
    assert!(a.knows_character("Stormrage", "Jaina"));
    assert!(a.knows_character("Nordrassil", "Thrall"));
    assert!(!a.knows_character("Nordrassil", "Jaina"));
    assert_eq!(a.find_realm("Nordrassil"), Some(1));
    assert!(is_realm_dir("Stormrage", true));
    assert!(!is_realm_dir("SavedVariables", true));
    assert!(!is_realm_dir("config.wtf", false));
}
