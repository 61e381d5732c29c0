use logiopts::options::{Command, CommonOptions, Options, TransferAssignments};
use logiopts::resolve::{device_line, resolve_devices, resolve_model, str_lt};
use logiopts::schema::{ConnectedDevice, MigrationDevice};
use logiopts::store::{check_store_row, StorageError};

fn mouse(model: &str, prefix: &str) -> ConnectedDevice {
    ConnectedDevice {
        connection_type: None,
        device_model: model.to_string(),
        device_type: "MOUSE".to_string(),
        slot_prefix: prefix.to_string(),
        rest: Vec::new(),
    }
}

fn virtual_device(model: &str, prefix: &str) -> ConnectedDevice {
    ConnectedDevice {
        connection_type: Some("VIRT".to_string()),
        device_model: model.to_string(),
        device_type: "VIRTUAL".to_string(),
        slot_prefix: prefix.to_string(),
        rest: Vec::new(),
    }
}

fn migration(model_id: &str, name: &str) -> MigrationDevice {
    MigrationDevice {
        device_name: name.to_string(),
        model_id: model_id.to_string(),
        rest: Vec::new(),
    }
}

#[test]
fn resolution_prefix_match() {
    let report = vec![migration("6b023", "MX Master 3")];
    let history = vec![mouse("6b023_ext2", "A")];
    let out = resolve_devices(&history, &report);
    assert_eq!(out.len(), 1);
    assert_eq!(out[0].0, "A");
    assert_eq!(out[0].1, "MX Master 3");
    assert_eq!(device_line(&out[0].0, &out[0].1), "A: MX Master 3");
}

#[test]
fn resolution_exact_match_beats_prefix() {
    let report = vec![migration("6b023", "By Prefix"), migration("6b023_ext2", "Exact")];
    let history = vec![mouse("6b023_ext2", "A")];
    let out = resolve_devices(&history, &report);
    assert_eq!(out[0].1, "Exact");
}

#[test]
fn resolution_verbatim_fallback() {
    let report = vec![migration("6b023", "MX Master 3")];
    let history = vec![mouse("zz999", "B")];
    let out = resolve_devices(&history, &report);
    assert_eq!(out.len(), 1);
    assert_eq!(device_line(&out[0].0, &out[0].1), "B: zz999");
}

#[test]
fn virtual_devices_never_listed() {
    let report = vec![migration("v1", "Virtual One")];
    let history = vec![virtual_device("v1", "Z"), mouse("m1", "A"), virtual_device("m1", "Y")];
    let out = resolve_devices(&history, &report);
    assert_eq!(out.len(), 1);
    assert_eq!(out[0].0, "A");
}

#[test]
fn duplicate_prefix_collapses_to_last() {
    let report: Vec<MigrationDevice> = Vec::new();
    let history = vec![mouse("first", "C"), mouse("second", "C")];
    let out = resolve_devices(&history, &report);
    assert_eq!(out.len(), 1);
    assert_eq!(out[0].0, "C");
    assert_eq!(out[0].1, "second");
}

#[test]
fn listing_sorted_by_prefix() {
    let report: Vec<MigrationDevice> = Vec::new();
    let history = vec![mouse("m1", "B2"), mouse("m2", "A9"), mouse("m3", "B1")];
    let out = resolve_devices(&history, &report);
    let prefixes: Vec<&str> = out.iter().map(|p| p.0.as_str()).collect();
    assert_eq!(prefixes, vec!["A9", "B1", "B2"]);
}

#[test]
fn last_migration_record_wins() {
    let report = vec![migration("m", "Old Name"), migration("m", "New Name")];
    let model = "m".to_string();
    assert_eq!(resolve_model(&report, &model), "New Name");
}

#[test]
fn string_order_is_lexicographic() {
    assert!(str_lt("A", "B"));
    assert!(str_lt("A", "AB"));
    assert!(!str_lt("AB", "A"));
    assert!(!str_lt("A", "A"));
    assert!(str_lt("", "A"));
}

#[test]
fn command_options_hold_their_arguments() {
    let o = Options {
        common: CommonOptions { db: Some("settings.db".to_string()) },
        command: Command::TransferAssignments(TransferAssignments {
            from: "dev1".to_string(),
            to: "dev2".to_string(),
            dry_run: true,
        }),
    };
    assert_eq!(o.common.db, Some("settings.db".to_string()));
    match o.command {
        Command::TransferAssignments(t) => {
            assert_eq!(t.from, "dev1");
            assert_eq!(t.to, "dev2");
            assert!(t.dry_run);
        }
        _ => panic!("expected a transfer command"),
    }
}

#[test]
fn store_row_checks() {
    assert_eq!(check_store_row(1, 1), Ok(()));
    assert_eq!(check_store_row(0, 1), Err(StorageError::WrongRowCount(0)));
    assert_eq!(check_store_row(3, 1), Err(StorageError::WrongRowCount(3)));
    assert_eq!(check_store_row(1, 2), Err(StorageError::WrongRowId(2)));
}
