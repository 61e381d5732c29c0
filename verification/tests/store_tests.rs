use logiopts::document::transfer_document;

fn open_store(payload: &[u8]) -> rusqlite::Connection {
    let db = rusqlite::Connection::open_in_memory().unwrap();
    db.execute("CREATE TABLE data (_id INTEGER, file BLOB)", []).unwrap();
    db.execute("INSERT INTO data (_id, file) VALUES (1, ?1)", [payload]).unwrap();
    db
}

fn read_store(db: &rusqlite::Connection) -> Vec<u8> {
    db.query_row("SELECT file FROM data WHERE _id=1", [], |row| row.get(0)).unwrap()
}

const DOC: &[u8] = br#"{
    "profile_keys": ["p"],
    "p": {"assignments": [{"slotId": "dev1_btn1"}, {"slotId": "other_x"}]},
    "ever_connected_devices": {"devices": []},
    "migration_report": {"devices": []}
}"#;

#[test]
fn dry_run_leaves_store_unchanged() {
    let db = open_store(DOC);
    let before = read_store(&db);
    let from = "dev1".to_string();
    let to = "dev2".to_string();
    // a dry run computes the result but writes nothing
    let preview = transfer_document(&before, &from, &to).unwrap();
    let after = read_store(&db);
    assert_eq!(after, DOC.to_vec());
    // a persisted run stores exactly the text the dry run showed
    db.execute("UPDATE data SET file=?1 WHERE _id=1", [preview.as_bytes()]).unwrap();
    let stored = read_store(&db);
    assert_eq!(stored, preview.as_bytes().to_vec());
    // and the dry run of the same payload would have shown the same text
    let again = transfer_document(&before, &from, &to).unwrap();
    assert_eq!(again, preview);
}
