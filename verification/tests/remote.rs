use zsnap::remote::{filter_bookmarks, filter_managed, is_soft_missing, parse_inventory};
use zsnap::{Remote, Snapshot, Transport};

fn local(dataset: &str) -> Remote {
    Remote { dataset: String::from(dataset), transport: Transport::Local }
}

fn shell(host: &str, dataset: &str) -> Remote {
    Remote { dataset: String::from(dataset), transport: Transport::Ssh(String::from(host)) }
}

#[test]
fn local_commands_invoke_the_tool_directly() {
    let r = local("tank/a");
    assert_eq!(
        r.snapshot("tank/a@2021-01-02T0304"),
        vec!["zfs", "snapshot", "tank/a@2021-01-02T0304"],
    );
    assert_eq!(
        r.list_snapshots_args(),
        vec!["zfs", "list", "-t", "snapshot", "-o", "name,creation", "-Hp", "tank/a"],
    );
    assert_eq!(
        r.list_bookmarks_args(),
        vec!["zfs", "list", "-t", "bookmark", "-o", "name,creation", "-Hp", "tank/a"],
    );
}

#[test]
fn shell_commands_go_through_the_host() {
    let r = shell("box", "tank/a");
    assert_eq!(
        r.destroy_snapshot("tank/a@2021-01-02T0304"),
        vec!["ssh", "-o", "ConnectTimeout=20", "box", "zfs", "destroy", "tank/a@2021-01-02T0304"],
    );
    assert_eq!(
        r.destroy_bookmark("tank/a#2021-01-02T0304-sync-j"),
        vec![
            "ssh",
            "-o",
            "ConnectTimeout=20",
            "box",
            "zfs",
            "destroy",
            "tank/a#2021-01-02T0304-sync-j",
        ],
    );
}

#[test]
fn transfer_commands_carry_the_right_flags() {
    let origin = local("tank/a");
    let dest = shell("box", "backup/a");
    assert_eq!(
        origin.send_full("tank/a@2021-01-02T0304"),
        vec!["zfs", "send", "-w", "tank/a@2021-01-02T0304"],
    );
    assert_eq!(
        origin.send_step(true, "tank/a#old-sync-j", "tank/a@2021-01-02T0304"),
        vec!["zfs", "send", "-wi", "tank/a#old-sync-j", "tank/a@2021-01-02T0304"],
    );
    assert_eq!(
        origin.send_step(false, "tank/a@2021-01-02T0304", "tank/a@2021-01-03T0304"),
        vec!["zfs", "send", "-wI", "tank/a@2021-01-02T0304", "tank/a@2021-01-03T0304"],
    );
    assert_eq!(
        dest.recv_args(true),
        vec!["ssh", "-o", "ConnectTimeout=20", "box", "zfs", "recv", "-uF", "backup/a"],
    );
    assert_eq!(
        dest.recv_args(false),
        vec!["ssh", "-o", "ConnectTimeout=20", "box", "zfs", "recv", "-u", "backup/a"],
    );
    assert_eq!(
        origin.bookmark("tank/a@2021-01-02T0304", "tank/a#2021-01-02T0304-sync-j"),
        vec![
            "zfs",
            "bookmark",
            "tank/a@2021-01-02T0304",
            "tank/a#2021-01-02T0304-sync-j",
        ],
    );
}

#[test]
fn inventory_lines_parse_names_and_times() {
    let out = "tank/a@2021-01-01T0000\t1609459200\ntank/a/manual\t12\n";
    let v = parse_inventory(out).unwrap();
    assert_eq!(v.len(), 2);
    assert_eq!(v[0].path, "tank/a@2021-01-01T0000");
    assert_eq!(v[0].time, 1609459200);
    assert_eq!(v[1].path, "tank/a/manual");
    assert_eq!(v[1].time, 12);
}

#[test]
fn empty_inventory_parses() {
    assert_eq!(parse_inventory("").unwrap(), Vec::<Snapshot>::new());
}

#[test]
fn inventory_without_tab_is_rejected()  {
    assert!(parse_inventory("tank/a@2021-01-01T0000 1609459200\n").is_err());
}

#[test]
fn inventory_with_bad_time_is_rejected() {
    assert!(parse_inventory("tank/a@2021-01-01T0000\tnot-a-number\n").is_err());
}

#[test]
fn missing_dataset_is_soft() {
    assert!(is_soft_missing("cannot open 'tank/x': dataset does not exist"));
    assert!(!is_soft_missing("permission denied"));
}

#[test]
fn filter_keeps_only_managed_snapshots() {
    let v = vec![
        Snapshot { path: String::from("tank/a@2021-01-01T0000"), time: 1 },
        Snapshot { path: String::from("tank/a@manual"), time: 2 },
        Snapshot { path: String::from("tank/a@2021-01-02T0000"), time: 3 },
    ];
    let kept = filter_managed(v);
    let paths: Vec<&str> = kept.iter().map(|s| s.path.as_str()).collect();
    assert_eq!(paths, vec!["tank/a@2021-01-01T0000", "tank/a@2021-01-02T0000"]);
}

#[test]
fn filter_keeps_only_this_jobs_bookmarks() {
    let v = vec![
        Snapshot { path: String::from("tank/a#2021-01-01T0000-sync-j"), time: 1 },
        Snapshot { path: String::from("tank/a#2021-01-02T0000-sync-other"), time: 2 },
        Snapshot { path: String::from("tank/a@2021-01-03T0000"), time: 3 },
        Snapshot { path: String::from("tank/a#2021-01-04T0000-sync-j"), time: 4 },
    ];
    let kept = filter_bookmarks(v, "j");
    let paths: Vec<&str> = kept.iter().map(|s| s.path.as_str()).collect();
    assert_eq!(
        paths,
        vec!["tank/a#2021-01-01T0000-sync-j", "tank/a#2021-01-04T0000-sync-j"],
    );
}
