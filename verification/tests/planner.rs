use zsnap::planner::{plan_send, should_snapshot, stale_bookmarks};
use zsnap::{RotationSpec, SendPlan, Snapshot};

fn mk(path: &str, time: i64) -> Snapshot {
    Snapshot { path: String::from(path), time }
}

const DAY: i64 = 86400;
const D: i64 = 18000;

fn spec_3d() -> RotationSpec {
    RotationSpec { monthly: 0, weekly: 0, daily: 3, hourly: 0, frequently: 0 }
}

#[test]
fn bootstrap_when_no_checkpoints() {
    // No checkpoint on the origin: a full transfer of the newest origin
    // snapshot, and a single new checkpoint anchored to it.
    let now = D * DAY + 43200;
    let origin = vec![
        mk("tank/a@2019-04-13T0100", (D - 2) * DAY + 3600),
        mk("tank/a@2019-04-15T0100", D * DAY + 3600),
        mk("tank/a@2019-04-14T0100", (D - 1) * DAY + 3600),
    ];
    let plan = plan_send("backup", now, &spec_3d(), origin, vec![], vec![]).unwrap();
    match plan {
        SendPlan::Bootstrap { source, mark } => {
            assert_eq!(source.path, "tank/a@2019-04-15T0100");
            assert_eq!(source.time, D * DAY + 3600);
            assert_eq!(mark, "tank/a#2019-04-15T0100-sync-backup");
        },
        _ => panic!("expected a bootstrap plan"),
    }
}

#[test]
fn bootstrap_without_sources_is_an_error() {
    let now = D * DAY + 43200;
    let r = plan_send("backup", now, &spec_3d(), vec![], vec![], vec![]);
    assert!(r.is_err());
}

#[test]
fn incremental_chain_in_ascending_order() {
    // A common checkpoint and three newer origin snapshots, all within
    // retention: three steps, each starting where the previous ended.
    let now = D * DAY + 43200;
    let origin = vec![
        mk("tank/a@2019-04-15T0100", D * DAY + 3600),
        mk("tank/a@2019-04-13T0100", (D - 2) * DAY + 3600),
        mk("tank/a@2019-04-14T0100", (D - 1) * DAY + 3600),
    ];
    let marks = vec![mk("tank/a#2019-04-12T0100-sync-backup", (D - 3) * DAY + 3600)];
    let plan = plan_send("backup", now, &spec_3d(), origin, marks, vec![]).unwrap();
    match plan {
        SendPlan::Incremental { resume, steps } => {
            assert_eq!(resume.path, "tank/a#2019-04-12T0100-sync-backup");
            assert_eq!(steps.len(), 3);
            assert_eq!(steps[0].from, "tank/a#2019-04-12T0100-sync-backup");
            assert_eq!(steps[0].to, "tank/a@2019-04-13T0100");
            assert!(steps[0].first);
            assert_eq!(steps[0].mark, "tank/a#2019-04-13T0100-sync-backup");
            assert_eq!(steps[1].from, "tank/a@2019-04-13T0100");
            assert_eq!(steps[1].to, "tank/a@2019-04-14T0100");
            assert!(!steps[1].first);
            assert_eq!(steps[2].from, "tank/a@2019-04-14T0100");
            assert_eq!(steps[2].to, "tank/a@2019-04-15T0100");
            assert!(!steps[2].first);
            assert_eq!(steps[2].mark, "tank/a#2019-04-15T0100-sync-backup");
        },
        _ => panic!("expected an incremental plan"),
    }
}

#[test]
fn nothing_to_send_when_checkpoint_is_newest() {
    // The checkpoint is newer than every origin snapshot: no step is
    // planned and nothing is owed.
    let now = D * DAY + 43200;
    let origin = vec![mk("tank/a@2019-04-13T0100", (D - 2) * DAY + 3600)];
    let marks = vec![mk("tank/a#2019-04-15T0100-sync-backup", D * DAY + 3600)];
    let plan = plan_send("backup", now, &spec_3d(), origin, marks, vec![]).unwrap();
    assert!(matches!(plan, SendPlan::NothingToSend));
}

#[test]
fn retention_filters_the_send_list() {
    // Five newer origin snapshots but only three daily slots on the
    // destination: only the survivors are sent.
    let now = D * DAY + 43200;
    let origin = vec![
        mk("tank/a@2019-04-11T0100", (D - 4) * DAY + 3600),
        mk("tank/a@2019-04-12T0100", (D - 3) * DAY + 3600),
        mk("tank/a@2019-04-13T0100", (D - 2) * DAY + 3600),
        mk("tank/a@2019-04-14T0100", (D - 1) * DAY + 3600),
        mk("tank/a@2019-04-15T0100", D * DAY + 3600),
    ];
    let marks = vec![mk("tank/a#2019-04-10T0100-sync-backup", (D - 5) * DAY + 3600)];
    let plan = plan_send("backup", now, &spec_3d(), origin, marks, vec![]).unwrap();
    match plan {
        SendPlan::Incremental { resume: _, steps } => {
            let sent: Vec<&str> = steps.iter().map(|s| s.to.as_str()).collect();
            assert_eq!(
                sent,
                vec![
                    "tank/a@2019-04-13T0100",
                    "tank/a@2019-04-14T0100",
                    "tank/a@2019-04-15T0100",
                ],
            );
        },
        _ => panic!("expected an incremental plan"),
    }
}

#[test]
fn destination_snapshots_count_against_retention() {
    // The destination already holds a snapshot claiming the oldest daily
    // slot, so the matching origin snapshot is not sent.
    let now = D * DAY + 43200;
    let origin = vec![
        mk("tank/a@2019-04-13T0100", (D - 2) * DAY + 3600),
        mk("tank/a@2019-04-15T0100", D * DAY + 3600),
    ];
    let marks = vec![mk("tank/a#2019-04-10T0100-sync-backup", (D - 5) * DAY + 3600)];
    let dest = vec![mk("backup/a@2019-04-13T0100", (D - 2) * DAY + 3600)];
    let plan = plan_send("backup", now, &spec_3d(), origin, marks, dest).unwrap();
    match plan {
        SendPlan::Incremental { resume: _, steps } => {
            let sent: Vec<&str> = steps.iter().map(|s| s.to.as_str()).collect();
            assert_eq!(sent, vec!["tank/a@2019-04-15T0100"]);
        },
        _ => panic!("expected an incremental plan"),
    }
}

#[test]
fn stale_bookmarks_spares_the_newest() {
    let marks = vec![
        mk("tank/a#2019-04-14T0100-sync-backup", (D - 1) * DAY + 3600),
        mk("tank/a#2019-04-12T0100-sync-backup", (D - 3) * DAY + 3600),
        mk("tank/a#2019-04-15T0100-sync-backup", D * DAY + 3600),
    ];
    let stale = stale_bookmarks(marks);
    let paths: Vec<&str> = stale.iter().map(|s| s.path.as_str()).collect();
    assert_eq!(
        paths,
        vec![
            "tank/a#2019-04-12T0100-sync-backup",
            "tank/a#2019-04-14T0100-sync-backup",
        ],
    );
}

#[test]
fn snapshot_due_after_fourteen_minutes() {
    let now = D * DAY + 43200;
    assert!(should_snapshot(now, &vec![]));
    let fresh = vec![mk("tank/a@2019-04-15T1200", now - 840)];
    assert!(!should_snapshot(now, &fresh));
    let old = vec![mk("tank/a@2019-04-15T1145", now - 841)];
    assert!(should_snapshot(now, &old));
}
