use rrm::commands::{handle_list, handle_restore, ListArgs, RestoreArgs};
use rrm::error::Error;
use rrm::fsmodel::FsSpace;
use rrm::time::Timestamp;
use rrm::trash::TrashManager;

const NOW: i64 = 1_700_000_000;

fn setup() -> (FsSpace, TrashManager) {
    let mut fs = FsSpace::new();
    fs.add_entry("/tmp", true);
    fs.add_entry("/tmp/trash", true);
    (fs, TrashManager::new("/tmp/trash".to_string()))
}

#[test]
fn test_trash_items() {
    let deletion_date = Timestamp { secs: NOW };
    let (mut fs, trash_manager) = setup();
    assert!(fs.exists_at("/tmp/trash"));

    fs.add_entry("/tmp/file1", false);
    let original_path = "/tmp/file1".to_string();
    assert!(fs.exists_at(&original_path));

    fs.add_entry("/tmp/file2", false);
    let original_path2 = "/tmp/file2".to_string();
    assert!(fs.exists_at(&original_path2));

    let report = trash_manager.trash_items(
        &mut fs,
        &vec![original_path, original_path2],
        deletion_date,
    );
    assert_eq!(report.failures.len(), 0);

    // Check if the files were moved to the trash
    assert_eq!(fs.children_names("/tmp/trash").len(), 2);
}

#[test]
fn test_list_items() {
    let deletion_date = Timestamp { secs: NOW };
    let (mut fs, trash_manager) = setup();
    assert!(fs.exists_at("/tmp/trash"));

    fs.add_entry("/tmp/file1", false);
    let original_path = "/tmp/file1".to_string();
    assert!(fs.exists_at(&original_path));

    fs.add_entry("/tmp/file2", false);
    let original_path2 = "/tmp/file2".to_string();
    assert!(fs.exists_at(&original_path2));

    let report = trash_manager.trash_items(
        &mut fs,
        &vec![original_path, original_path2],
        deletion_date,
    );
    // the recorded original path is replaced, as the original test's
    // attribute store answered every lookup with "some_path"
    for rec in &report.trashed {
        let trashed_path = format!("/tmp/trash/{}", rec.id);
        fs.set_attr_at(&trashed_path, "original_path", "some_path")
            .unwrap();
    }

    let items = trash_manager.list_items(&fs);
    assert_eq!(fs.children_names("/tmp/trash").len(), 2);
    assert_eq!(items.len(), 2);
    assert_eq!(items[0].deletion_date, deletion_date);
    assert_eq!(items[1].deletion_date, deletion_date);
    assert_eq!(items[0].original_path, "some_path");
    assert_eq!(items[1].original_path, "some_path");
}

#[test]
fn clean_trash_delete_old_file() {
    let now = Timestamp { secs: NOW };
    let deletion_date_past = Timestamp { secs: NOW - 86400 };
    let (mut fs, trash_manager) = setup();
    assert!(fs.exists_at("/tmp/trash"));

    fs.add_entry("/tmp/file1", false);
    let original_path = "/tmp/file1".to_string();
    assert!(fs.exists_at(&original_path));

    let report = trash_manager.trash_items(&mut fs, &vec![original_path], deletion_date_past);
    assert_eq!(report.trashed.len(), 1);

    trash_manager.clean_trash(&mut fs, false, now).unwrap();

    let items = trash_manager.list_items(&fs);
    assert_eq!(fs.children_names("/tmp/trash").len(), 0);
    assert_eq!(items.len(), 0);
}

#[test]
fn fresh_ids_look_like_uuids() {
    let (mut fs, trash_manager) = setup();
    fs.add_entry("/tmp/file1", false);
    let id = trash_manager
        .trash_one(&mut fs, "/tmp/file1", Timestamp { secs: NOW })
        .unwrap();
    assert_eq!(id.len(), 36);
    assert!(!id.contains('/'));
}

#[test]
fn round_trip_preserves_path_and_date() {
    let (mut fs, trash_manager) = setup();
    fs.add_entry("/tmp/doc.txt", false);
    let date = Timestamp { secs: NOW + 12345 };
    let id = trash_manager.trash_one(&mut fs, "/tmp/doc.txt", date).unwrap();
    assert!(!fs.exists_at("/tmp/doc.txt"));
    let items = trash_manager.list_items(&fs);
    assert_eq!(items.len(), 1);
    assert_eq!(items[0].id, id);
    assert_eq!(items[0].original_path, "/tmp/doc.txt");
    assert_eq!(items[0].deletion_date, date);
}

#[test]
fn restore_inverse_recreates_entry() {
    let (mut fs, trash_manager) = setup();
    fs.add_entry("/tmp/doc.txt", false);
    let id = trash_manager
        .trash_one(&mut fs, "/tmp/doc.txt", Timestamp { secs: NOW })
        .unwrap();
    trash_manager.restore_item_by_id(&mut fs, &id, None).unwrap();
    assert!(fs.exists_at("/tmp/doc.txt"));
    assert!(!fs.exists_at(&format!("/tmp/trash/{}", id)));
    assert_eq!(trash_manager.list_items(&fs).len(), 0);
    // the provenance attributes are cleared on restore
    assert!(fs.get_attr_at("/tmp/doc.txt", "original_path").is_none());
    assert!(fs.get_attr_at("/tmp/doc.txt", "deletion_date").is_none());
}

#[test]
fn foreign_entry_is_skipped_and_survives() {
    let now = Timestamp { secs: NOW };
    let (mut fs, trash_manager) = setup();
    // placed in the trash directory by hand, without the attributes
    fs.add_entry("/tmp/trash/alien", false);
    assert_eq!(trash_manager.list_items(&fs).len(), 0);
    trash_manager.clean_trash(&mut fs, false, now).unwrap();
    assert!(fs.exists_at("/tmp/trash/alien"));
}

#[test]
fn grace_period_boundary() {
    let now = Timestamp { secs: NOW };
    let (mut fs, trash_manager) = setup();
    fs.add_entry("/tmp/old", false);
    fs.add_entry("/tmp/fresh", false);
    let old_id = trash_manager
        .trash_one(&mut fs, "/tmp/old", Timestamp { secs: NOW - 1 })
        .unwrap();
    let fresh_id = trash_manager
        .trash_one(&mut fs, "/tmp/fresh", Timestamp { secs: NOW + 1 })
        .unwrap();
    trash_manager.clean_trash(&mut fs, false, now).unwrap();
    assert!(!fs.exists_at(&format!("/tmp/trash/{}", old_id)));
    assert!(fs.exists_at(&format!("/tmp/trash/{}", fresh_id)));
}

#[test]
fn immediate_purge_empties_the_trash() {
    let now = Timestamp { secs: NOW };
    let (mut fs, trash_manager) = setup();
    fs.add_entry("/tmp/a", false);
    fs.add_entry("/tmp/b", false);
    trash_manager.trash_one(&mut fs, "/tmp/a", Timestamp { secs: NOW + 999_999 }).unwrap();
    trash_manager.trash_one(&mut fs, "/tmp/b", Timestamp { secs: NOW + 999_999 }).unwrap();
    trash_manager.clean_trash(&mut fs, true, now).unwrap();
    assert_eq!(fs.children_names("/tmp/trash").len(), 0);
}

#[test]
fn restore_collision_fails_and_leaves_item() {
    let (mut fs, trash_manager) = setup();
    fs.add_entry("/tmp/doc.txt", false);
    let id = trash_manager
        .trash_one(&mut fs, "/tmp/doc.txt", Timestamp { secs: NOW })
        .unwrap();
    // the original path is taken again
    fs.add_entry("/tmp/doc.txt", false);
    let r = trash_manager.restore_item_by_id(&mut fs, &id, None);
    assert!(matches!(r, Err(Error::PathAlreadyExists(p)) if p == "/tmp/doc.txt"));
    assert!(fs.exists_at(&format!("/tmp/trash/{}", id)));
    assert_eq!(trash_manager.list_items(&fs).len(), 1);
}

#[test]
fn restore_missing_id_fails() {
    let (mut fs, trash_manager) = setup();
    let r = trash_manager.restore_item_by_id(&mut fs, "nope", None);
    assert!(matches!(r, Err(Error::ItemNotFound(id)) if id == "nope"));
}

#[test]
fn restore_foreign_entry_fails() {
    let (mut fs, trash_manager) = setup();
    fs.add_entry("/tmp/trash/alien", false);
    let r = trash_manager.restore_item_by_id(&mut fs, "alien", None);
    assert!(matches!(
        r,
        Err(Error::MissingAttribute { attr, id }) if attr == "original_path" && id == "alien"
    ));
}

#[test]
fn restore_without_parent_fails() {
    let mut fs = FsSpace::new();
    fs.add_entry("/tmp", true);
    fs.add_entry("/tmp/trash", true);
    fs.add_entry("/tmp/dir", true);
    fs.add_entry("/tmp/dir/f", false);
    let trash_manager = TrashManager::new("/tmp/trash".to_string());
    let id = trash_manager
        .trash_one(&mut fs, "/tmp/dir/f", Timestamp { secs: NOW })
        .unwrap();
    fs.remove_subtree("/tmp/dir");
    let r = trash_manager.restore_item_by_id(&mut fs, &id, None);
    assert!(matches!(r, Err(Error::InvalidOriginalPath(p)) if p == "/tmp/dir/f"));
}

#[test]
fn trashing_a_missing_path_is_reported_not_fatal() {
    let deletion_date = Timestamp { secs: NOW };
    let (mut fs, trash_manager) = setup();
    fs.add_entry("/tmp/real", false);
    let report = trash_manager.trash_items(
        &mut fs,
        &vec!["/tmp/ghost".to_string(), "/tmp/real".to_string()],
        deletion_date,
    );
    assert_eq!(report.trashed.len(), 1);
    assert_eq!(report.failures.len(), 1);
    assert_eq!(report.failures[0].path, "/tmp/ghost");
    assert!(matches!(report.failures[0].error, Error::Io(_)));
    assert_eq!(trash_manager.list_items(&fs).len(), 1);
}

#[test]
fn stale_metadata_outside_the_trash_is_harmless() {
    // the partial state an interrupted restore leaves behind: a restored
    // entry still carrying both attributes, outside the trash directory
    let (mut fs, trash_manager) = setup();
    fs.add_entry("/tmp/back", false);
    fs.set_attr_at("/tmp/back", "original_path", "/tmp/back").unwrap();
    fs.set_attr_at("/tmp/back", "deletion_date", "2023-11-14T22:13:20+00:00")
        .unwrap();
    assert_eq!(trash_manager.list_items(&fs).len(), 0);
    // and the entry can simply be trashed again
    let id = trash_manager
        .trash_one(&mut fs, "/tmp/back", Timestamp { secs: NOW })
        .unwrap();
    assert_eq!(trash_manager.list_items(&fs).len(), 1);
    assert_eq!(trash_manager.list_items(&fs)[0].id, id);
}

#[test]
fn scenario_two_files_then_rename_restore() {
    // trash /tmp/a.txt and /tmp/b.txt with a 7 day grace period
    let now = Timestamp { secs: NOW };
    let deletion_date = now.checked_add_days(7).unwrap();
    let (mut fs, trash_manager) = setup();
    fs.add_entry("/tmp/a.txt", false);
    fs.add_entry("/tmp/b.txt", false);
    let report = trash_manager.trash_items(
        &mut fs,
        &vec!["/tmp/a.txt".to_string(), "/tmp/b.txt".to_string()],
        deletion_date,
    );
    assert_eq!(report.trashed.len(), 2);

    let items = handle_list(&trash_manager, &fs, ListArgs { filter_path: None });
    assert_eq!(items.len(), 2);
    for item in &items {
        let label = item.format_deletion_date(now);
        // seven days out is never "Tomorrow"; "Today" cannot happen here
        assert_ne!(label, "Tomorrow");
        assert_ne!(label, "Today");
    }

    let a_id = report
        .trashed
        .iter()
        .find(|r| r.path == "/tmp/a.txt")
        .unwrap()
        .id
        .clone();
    handle_restore(
        &trash_manager,
        &mut fs,
        RestoreArgs { id: a_id, rename: Some("a2.txt".to_string()) },
    )
    .unwrap();
    assert!(fs.exists_at("/tmp/a2.txt"));
    assert!(!fs.exists_at("/tmp/a.txt"));
    assert_eq!(trash_manager.list_items(&fs).len(), 1);
}

#[test]
fn kind_reflects_live_state() {
    let (mut fs, trash_manager) = setup();
    fs.add_entry("/tmp/d", true);
    fs.add_entry("/tmp/f", false);
    trash_manager.trash_one(&mut fs, "/tmp/d", Timestamp { secs: NOW }).unwrap();
    trash_manager.trash_one(&mut fs, "/tmp/f", Timestamp { secs: NOW }).unwrap();
    let items = trash_manager.list_items(&fs);
    for item in items {
        if item.original_path == "/tmp/d" {
            assert_eq!(item.kind(&fs), "Directory");
        } else {
            assert_eq!(item.kind(&fs), "File");
        }
    }
}

#[test]
fn purging_a_directory_takes_its_contents() {
    let now = Timestamp { secs: NOW };
    let (mut fs, trash_manager) = setup();
    fs.add_entry("/tmp/d", true);
    fs.add_entry("/tmp/d/inner", false);
    let id = trash_manager
        .trash_one(&mut fs, "/tmp/d", Timestamp { secs: NOW - 5 })
        .unwrap();
    // in the real filesystem the rename carries the contents along
    fs.add_entry(&format!("/tmp/trash/{}/inner", id), false);
    trash_manager.clean_trash(&mut fs, false, now).unwrap();
    assert!(!fs.exists_at(&format!("/tmp/trash/{}", id)));
    assert!(!fs.exists_at(&format!("/tmp/trash/{}/inner", id)));
}
