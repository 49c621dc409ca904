use zsnap::naming::{bookmark_path, is_normal_snapshot, is_sync_bookmark, snapshot_path};

#[test]
fn managed_snapshot_names() {
    assert!(is_normal_snapshot("tank/data@2021-01-02T0304"));
    assert!(is_normal_snapshot("a@2021-01-02T0304"));
    // no volume path
    assert!(!is_normal_snapshot("@2021-01-02T0304"));
    // upper case and digits are not volume path characters
    assert!(!is_normal_snapshot("Tank/data@2021-01-02T0304"));
    assert!(!is_normal_snapshot("tank1@2021-01-02T0304"));
    // seconds, short fields, or trailing text break the tag
    assert!(!is_normal_snapshot("tank/data@2021-01-02T030405"));
    assert!(!is_normal_snapshot("tank/data@2021-1-02T0304"));
    assert!(!is_normal_snapshot("tank/data@2021-01-02T0304x"));
    // a bookmark is not a snapshot
    assert!(!is_normal_snapshot("tank/data#2021-01-02T0304"));
    assert!(!is_normal_snapshot(""));
}

#[test]
fn sync_bookmark_names() {
    assert!(is_sync_bookmark("tank/data#2021-01-02T0304-sync-backup", "backup"));
    // the job name must close the identifier exactly
    assert!(!is_sync_bookmark("tank/data#2021-01-02T0304-sync-backup", "other"));
    assert!(!is_sync_bookmark("tank/data#2021-01-02T0304-sync-backupx", "backup"));
    // a snapshot is not a bookmark
    assert!(!is_sync_bookmark("tank/data@2021-01-02T0304-sync-backup", "backup"));
    // the tag must sit right after the '#'
    assert!(!is_sync_bookmark("tank/data#x2021-01-02T0304-sync-backup", "backup"));
    assert!(!is_sync_bookmark("#2021-01-02T0304-sync-backup", "backup"));
}

#[test]
fn bookmark_path_swaps_the_delimiter() {
    assert_eq!(
        bookmark_path("tank/data@2021-01-02T0304", "backup"),
        "tank/data#2021-01-02T0304-sync-backup",
    );
    let mark = bookmark_path("a@2021-12-31T2359", "j");
    assert_eq!(mark, "a#2021-12-31T2359-sync-j");
    assert!(is_sync_bookmark(&mark, "j"));
}

#[test]
fn snapshot_path_formats_utc() {
    // 2021-01-01T00:00:00Z
    assert_eq!(snapshot_path("tank/data", 1609459200), "tank/data@2021-01-01T0000");
    // 2021-03-15T12:34:56Z keeps only minutes
    assert_eq!(snapshot_path("tank/data", 1615811696), "tank/data@2021-03-15T1234");
    let p = snapshot_path("tank/data", 1615811696);
    assert!(is_normal_snapshot(&p));
}
