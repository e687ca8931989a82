use rrm::commands::{
    handle_config, handle_list, handle_rm, ConfigAction, ConfigArgs, ConfigKey, ListArgs, RmArgs,
};
use rrm::config::Config;
use rrm::fsmodel::FsSpace;
use rrm::time::Timestamp;
use rrm::trash::TrashManager;

const NOW: i64 = 1_700_000_000;

fn world() -> FsSpace {
    let mut fs = FsSpace::new();
    fs.add_entry("/home", true);
    fs.add_entry("/home/me", true);
    fs.add_entry("/home/me/rrm", false);
    fs
}

#[test]
fn load_falls_back_to_defaults() {
    let mut fs = world();
    let config = Config::load(&mut fs, "/home/me/rrm", "/home/me").unwrap();
    assert_eq!(config.trash_dir, "/home/me/.tmp_trash");
    assert_eq!(config.grace_period_in_days, 7);
    // the trash directory was created
    assert!(fs.exists_at("/home/me/.tmp_trash"));
    assert!(fs.is_dir_at("/home/me/.tmp_trash"));
}

#[test]
fn load_reads_both_settings_back() {
    let mut fs = world();
    let config = Config::load(&mut fs, "/home/me/rrm", "/home/me").unwrap();
    config.set_grace_period(&mut fs, 30).unwrap();
    config.set_trash_dir(&mut fs, "/home/me/.bin").unwrap();
    // the newly named directory will be created on the next load
    let config2 = Config::load(&mut fs, "/home/me/rrm", "/home/me").unwrap();
    assert_eq!(config2.trash_dir, "/home/me/.bin");
    assert!(fs.exists_at("/home/me/.bin"));
    // the grace period lives on the old directory; the new one defaults
    assert_eq!(config2.grace_period_in_days, 7);
    config2.set_grace_period(&mut fs, 9).unwrap();
    let config3 = Config::load(&mut fs, "/home/me/rrm", "/home/me").unwrap();
    assert_eq!(config3.grace_period_in_days, 9);
}

#[test]
fn unusable_grace_value_defaults() {
    let mut fs = world();
    let config = Config::load(&mut fs, "/home/me/rrm", "/home/me").unwrap();
    fs.set_attr_at(&config.trash_dir, "grace_period_in_days", "soon")
        .unwrap();
    let config2 = Config::load(&mut fs, "/home/me/rrm", "/home/me").unwrap();
    assert_eq!(config2.grace_period_in_days, 7);
}

#[test]
fn empty_trash_dir_attribute_defaults() {
    let mut fs = world();
    fs.set_attr_at("/home/me/rrm", "trash_dir", "").unwrap();
    let config = Config::load(&mut fs, "/home/me/rrm", "/home/me").unwrap();
    assert_eq!(config.trash_dir, "/home/me/.tmp_trash");
}

#[test]
fn load_never_creates_missing_parents() {
    let mut fs = world();
    fs.set_attr_at("/home/me/rrm", "trash_dir", "/no/such/place").unwrap();
    let r = Config::load(&mut fs, "/home/me/rrm", "/home/me");
    assert!(matches!(r, Err(rrm::error::Error::Io(_))));
    assert!(!fs.exists_at("/no/such/place"));
}

#[test]
fn config_command_messages() {
    let mut fs = world();
    let config = Config::load(&mut fs, "/home/me/rrm", "/home/me").unwrap();
    let m1 = handle_config(
        &config,
        &mut fs,
        ConfigArgs { action: ConfigAction::Show { key: ConfigKey::TrashDir } },
    )
    .unwrap();
    assert_eq!(m1, "Trash directory: /home/me/.tmp_trash");
    let m2 = handle_config(
        &config,
        &mut fs,
        ConfigArgs { action: ConfigAction::Show { key: ConfigKey::GracePeriod } },
    )
    .unwrap();
    assert_eq!(m2, "Grace period in days: 7");
    let m3 = handle_config(
        &config,
        &mut fs,
        ConfigArgs {
            action: ConfigAction::Assign { key: ConfigKey::GracePeriod, value: "14".to_string() },
        },
    )
    .unwrap();
    assert_eq!(m3, "Set grace period in days to 14");
    let m4 = handle_config(
        &config,
        &mut fs,
        ConfigArgs {
            action: ConfigAction::Assign { key: ConfigKey::GracePeriod, value: "x".to_string() },
        },
    )
    .unwrap();
    assert_eq!(m4, "Grace period must be a positive integer.");
    let m5 = handle_config(
        &config,
        &mut fs,
        ConfigArgs {
            action: ConfigAction::Assign { key: ConfigKey::TrashDir, value: "/home/me/.t".to_string() },
        },
    )
    .unwrap();
    assert_eq!(m5, "Set trash directory to /home/me/.t");
}

#[test]
fn list_filters_and_sorts() {
    let mut fs = world();
    fs.add_entry("/tmp", true);
    fs.add_entry("/tmp/trash", true);
    fs.add_entry("/tmp/notes.txt", false);
    fs.add_entry("/tmp/song.mp3", false);
    fs.add_entry("/tmp/more_notes.txt", false);
    let manager = TrashManager::new("/tmp/trash".to_string());
    manager.trash_one(&mut fs, "/tmp/song.mp3", Timestamp { secs: NOW + 50 }).unwrap();
    manager.trash_one(&mut fs, "/tmp/notes.txt", Timestamp { secs: NOW + 100 }).unwrap();
    manager.trash_one(&mut fs, "/tmp/more_notes.txt", Timestamp { secs: NOW + 10 }).unwrap();

    let all = handle_list(&manager, &fs, ListArgs { filter_path: None });
    assert_eq!(all.len(), 3);
    assert!(all[0].deletion_date.secs <= all[1].deletion_date.secs);
    assert!(all[1].deletion_date.secs <= all[2].deletion_date.secs);

    let notes = handle_list(&manager, &fs, ListArgs { filter_path: Some("notes".to_string()) });
    assert_eq!(notes.len(), 2);
    assert!(notes.iter().all(|i| i.original_path.contains("notes")));

    let none = handle_list(&manager, &fs, ListArgs { filter_path: Some("zzz".to_string()) });
    assert_eq!(none.len(), 0);
}

#[test]
fn rm_trashes_then_optionally_cleans() {
    let mut fs = world();
    fs.add_entry("/tmp", true);
    fs.add_entry("/tmp/trash", true);
    fs.add_entry("/tmp/a", false);
    fs.add_entry("/tmp/b", false);
    let manager = TrashManager::new("/tmp/trash".to_string());
    let config = Config::load(&mut fs, "/home/me/rrm", "/home/me").unwrap();
    let args = RmArgs {
        paths: vec!["/tmp/a".to_string(), "/tmp/b".to_string()],
        immediate: false,
        auto_clean: false,
        grace_period_in_days: Some(7),
    };
    let report = handle_rm(&config, &manager, &mut fs, &args, Timestamp { secs: NOW }).unwrap();
    assert_eq!(report.trashed.len(), 2);
    assert!(!fs.exists_at("/tmp/a"));
    let items = manager.list_items(&fs);
    assert_eq!(items.len(), 2);
    assert_eq!(items[0].deletion_date.secs, NOW + 7 * 86_400);
}

#[test]
fn rm_immediate_removes_outright() {
    let mut fs = world();
    fs.add_entry("/tmp", true);
    fs.add_entry("/tmp/trash", true);
    fs.add_entry("/tmp/a", false);
    let manager = TrashManager::new("/tmp/trash".to_string());
    let config = Config::load(&mut fs, "/home/me/rrm", "/home/me").unwrap();
    let args = RmArgs {
        paths: vec!["/tmp/a".to_string(), "/tmp/ghost".to_string()],
        immediate: true,
        auto_clean: false,
        grace_period_in_days: None,
    };
    handle_rm(&config, &manager, &mut fs, &args, Timestamp { secs: NOW }).unwrap();
    assert!(!fs.exists_at("/tmp/a"));
    assert_eq!(manager.list_items(&fs).len(), 0);
}
