use logiopts::document::{decode_document, encode_document, transfer_document, should_save, DocumentError};
use logiopts::json::Json;
use logiopts::schema::{Assignment, SchemaError, Settings};

fn sample_doc() -> Vec<u8> {
    br#"{
        "appVersion": "1.2.3",
        "profile_keys": ["work", "play"],
        "work": {
            "assignments": [
                {"slotId": "dev1_btn1", "action": {"kind": "copy"}},
                {"slotId": "other_x"}
            ],
            "color": "blue"
        },
        "play": {
            "assignments": [],
            "volume": 7
        },
        "ever_connected_devices": {
            "devices": [
                {"connectionType": "BT", "deviceModel": "6b023_ext2", "deviceType": "MOUSE", "slotPrefix": "A", "battery": 80}
            ],
            "note": null
        },
        "migration_report": {
            "devices": [
                {"deviceName": "MX Master 3", "modelId": "6b023", "extra": [1, 2]}
            ]
        },
        "trailing": {"keep": true}
    }"#
        .to_vec()
}

#[test]
fn decode_reads_typed_fields_and_keeps_remainder() {
    let s = decode_document(&sample_doc()).unwrap();
    assert_eq!(s.profile_keys, vec!["work".to_string(), "play".to_string()]);
    assert_eq!(s.profiles.len(), 2);
    assert_eq!(s.profiles[0].0, "work");
    assert_eq!(s.profiles[0].1.assignments.len(), 2);
    assert_eq!(s.profiles[0].1.assignments[0].slot_id, "dev1_btn1");
    // the assignment's unknown field survives in its remainder
    assert_eq!(s.profiles[0].1.assignments[0].rest.len(), 1);
    assert_eq!(s.profiles[0].1.assignments[0].rest[0].0, "action");
    // the profile's unknown field survives
    assert_eq!(s.profiles[0].1.rest[0].0, "color");
    assert_eq!(s.profiles[0].1.rest[0].1, Json::Str("blue".to_string()));
    // top-level unknown fields survive in order
    assert_eq!(s.rest.len(), 2);
    assert_eq!(s.rest[0].0, "appVersion");
    assert_eq!(s.rest[1].0, "trailing");
    // device records
    assert_eq!(s.ever_connected_devices.devices.len(), 1);
    let d = &s.ever_connected_devices.devices[0];
    assert_eq!(d.connection_type, Some("BT".to_string()));
    assert_eq!(d.device_model, "6b023_ext2");
    assert_eq!(d.device_type, "MOUSE");
    assert_eq!(d.slot_prefix, "A");
    assert_eq!(s.migration_report.devices[0].device_name, "MX Master 3");
    assert_eq!(s.migration_report.devices[0].model_id, "6b023");
}

#[test]
fn round_trip_reproduces_document() {
    let first = decode_document(&sample_doc()).unwrap();
    let text = encode_document(first);
    let second = decode_document(text.as_bytes()).unwrap();
    let first_again = decode_document(&sample_doc()).unwrap();
    // decoding the re-encoded text gives a structurally equal document
    assert_eq!(second, first_again);
    // and re-encoding is stable
    let text2 = encode_document(second);
    assert_eq!(text, text2);
}

#[test]
fn promotion_demotion_inverse() {
    let s = decode_document(&sample_doc()).unwrap();
    let text = encode_document(s);
    let s2 = decode_document(text.as_bytes()).unwrap();
    assert_eq!(s2.profile_keys, vec!["work".to_string(), "play".to_string()]);
    assert_eq!(s2.profiles[1].0, "play");
    assert_eq!(s2.profiles[1].1.rest[0].0, "volume");
}

#[test]
fn missing_profile_fails() {
    let doc = br#"{
        "profile_keys": ["ghost"],
        "ever_connected_devices": {"devices": []},
        "migration_report": {"devices": []}
    }"#;
    let r = decode_document(doc);
    assert_eq!(
        r,
        Err(DocumentError::Schema(SchemaError::MissingProfile("ghost".to_string())))
    );
}

#[test]
fn wrong_shape_slot_id_fails() {
    let doc = br#"{
        "profile_keys": ["p"],
        "p": {"assignments": [{"slotId": 5}]},
        "ever_connected_devices": {"devices": []},
        "migration_report": {"devices": []}
    }"#;
    let r = decode_document(doc);
    assert_eq!(
        r,
        Err(DocumentError::Schema(SchemaError::WrongShape("slotId".to_string())))
    );
}

#[test]
fn missing_field_fails() {
    let doc = br#"{
        "profile_keys": [],
        "ever_connected_devices": {"devices": [
            {"connectionType": null, "deviceType": "MOUSE", "slotPrefix": "A"}
        ]},
        "migration_report": {"devices": []}
    }"#;
    let r = decode_document(doc);
    assert_eq!(
        r,
        Err(DocumentError::Schema(SchemaError::MissingField("deviceModel".to_string())))
    );
}

#[test]
fn invalid_json_fails_with_syntax() {
    let r = decode_document(b"{not json");
    assert_eq!(r, Err(DocumentError::Syntax));
}

#[test]
fn transfer_document_rewrites_every_profile() {
    let from = "dev1".to_string();
    let to = "dev2".to_string();
    let text = transfer_document(&sample_doc(), &from, &to).unwrap();
    let s = decode_document(text.as_bytes()).unwrap();
    let a = &s.profiles[0].1.assignments;
    assert_eq!(a.len(), 2);
    assert_eq!(a[0].slot_id, "other_x");
    assert_eq!(a[1].slot_id, "dev2_btn1");
    // the re-bound assignment kept its other fields
    assert_eq!(a[1].rest[0].0, "action");
}

#[test]
fn should_save_only_on_change() {
    assert!(!should_save(b"abc", b"abc"));
    assert!(should_save(b"abc", b"abd"));
    assert!(should_save(b"abc", b"abcd"));
    assert!(!should_save(b"", b""));
}

#[test]
fn reassignment_example() {
    let mk = |slot: &str| Assignment { slot_id: slot.to_string(), rest: Vec::new() };
    let list = vec![mk("dev1_btn1"), mk("dev2_btn1"), mk("other_x")];
    let from = "dev1".to_string();
    let to = "dev2".to_string();
    let out = logiopts::transfer::transfer_assignment_vec(list, &from, &to);
    assert_eq!(out, vec![mk("other_x"), mk("dev2_btn1")]);
}

#[test]
fn slot_without_underscore_never_matches() {
    let mk = |slot: &str| Assignment { slot_id: slot.to_string(), rest: Vec::new() };
    let list = vec![mk("plain"), mk("dev1_b")];
    let from = "plain".to_string();
    let to = "dev9".to_string();
    let out = logiopts::transfer::transfer_assignment_vec(list, &from, &to);
    // "plain" has no underscore, so it is not bound to any device
    assert_eq!(out, vec![mk("plain"), mk("dev1_b")]);
}

#[test]
fn transfer_twice_with_unbound_source_is_idempotent() {
    let mk = |slot: &str| Assignment { slot_id: slot.to_string(), rest: Vec::new() };
    let list = || vec![mk("dev2_btn1"), mk("other_x")];
    let from = "dev1".to_string();
    let to = "dev2".to_string();
    let once = logiopts::transfer::transfer_assignment_vec(list(), &from, &to);
    let twice = logiopts::transfer::transfer_assignment_vec(
        logiopts::transfer::transfer_assignment_vec(list(), &from, &to),
        &from,
        &to,
    );
    assert_eq!(twice, once);
}

#[test]
fn transfer_twice_same_device_is_idempotent() {
    let mk = |slot: &str| Assignment { slot_id: slot.to_string(), rest: Vec::new() };
    let list = || vec![mk("dev1_btn1"), mk("other_x")];
    let from = "dev1".to_string();
    let once = logiopts::transfer::transfer_assignment_vec(list(), &from, &from);
    let twice = logiopts::transfer::transfer_assignment_vec(
        logiopts::transfer::transfer_assignment_vec(list(), &from, &from),
        &from,
        &from,
    );
    assert_eq!(twice, once);
}

#[test]
fn encode_settings_orders_typed_fields_first() {
    let s = decode_document(&sample_doc()).unwrap();
    let text = encode_document(s);
    let v: serde_json::Value = serde_json::from_str(&text).unwrap();
    let keys: Vec<&String> = v.as_object().unwrap().keys().collect();
    assert_eq!(keys[0], "profile_keys");
    assert_eq!(keys[1], "ever_connected_devices");
    assert_eq!(keys[2], "migration_report");
}

#[test]
fn device_listing_from_document() {
    let s = decode_document(&sample_doc()).unwrap();
    let pairs = s.device_pairs();
    assert_eq!(pairs.len(), 1);
    assert_eq!(
        logiopts::resolve::device_line(&pairs[0].0, &pairs[0].1),
        "A: MX Master 3"
    );
}

#[test]
fn settings_decode_rejects_non_object() {
    let r = decode_document(b"[1, 2, 3]");
    assert_eq!(
        r,
        Err(DocumentError::Schema(SchemaError::WrongShape("settings".to_string())))
    );
}

#[test]
fn number_fields_survive_round_trip() {
    let doc = br#"{
        "profile_keys": [],
        "ever_connected_devices": {"devices": []},
        "migration_report": {"devices": []},
        "precision": 0.125,
        "count": 42
    }"#;
    let s = decode_document(doc).unwrap();
    let text = encode_document(s);
    let v: serde_json::Value = serde_json::from_str(&text).unwrap();
    assert_eq!(v["count"], serde_json::Value::Number(serde_json::Number::from(42u32)));
    assert_eq!(v["precision"].to_string(), "0.125");
}

#[test]
fn parse_json_reads_structure() {
    let j = logiopts::text::parse_json(br#"{"a": [true, null]}"#).unwrap();
    match j {
        Json::Obj(entries) => {
            assert_eq!(entries.len(), 1);
            assert_eq!(entries[0].0, "a");
            assert_eq!(entries[0].1, Json::Arr(vec![Json::Bool(true), Json::Null]));
        }
        _ => panic!("expected an object"),
    }
    assert!(logiopts::text::parse_json(b"tru").is_none());
}

#[test]
fn settings_transfer_applies_to_all_profiles() {
    let doc = br#"{
        "profile_keys": ["p1", "p2"],
        "p1": {"assignments": [{"slotId": "a_1"}]},
        "p2": {"assignments": [{"slotId": "a_2"}, {"slotId": "b_2"}]},
        "ever_connected_devices": {"devices": []},
        "migration_report": {"devices": []}
    }"#;
    let s = decode_document(doc).unwrap();
    let from = "a".to_string();
    let to = "b".to_string();
    let t: Settings = s.transfer_assignments(&from, &to);
    assert_eq!(t.profiles[0].1.assignments[0].slot_id, "b_1");
    // in p2 the old b_2 binding is removed and a_2 is re-bound to b_2
    assert_eq!(t.profiles[1].1.assignments.len(), 1);
    assert_eq!(t.profiles[1].1.assignments[0].slot_id, "b_2");
}
