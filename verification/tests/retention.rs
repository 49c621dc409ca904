use zsnap::retention::{find_prunable, parse_spec};
use zsnap::{RotationSpec, Snapshot};

fn snap(path: &str, time: i64) -> Snapshot {
    Snapshot { path: String::from(path), time }
}

fn daily_spec(n: u64) -> RotationSpec {
    RotationSpec { monthly: 0, weekly: 0, daily: n, hourly: 0, frequently: 0 }
}

const DAY: i64 = 86400;
// A Sunday, used as "day D" in the scenarios below.
const D: i64 = 18000;

#[test]
fn scenario_three_daily_slots() {
    // spec "3d", now at noon of day D, one snapshot per day at 01:00:
    // the three most recent days are kept, the two older ones removed.
    let spec = parse_spec("3d").unwrap();
    let now = D * DAY + 43200;
    let snaps = vec![
        snap("tank/a@2019-04-11T0100", (D - 4) * DAY + 3600),
        snap("tank/a@2019-04-12T0100", (D - 3) * DAY + 3600),
        snap("tank/a@2019-04-13T0100", (D - 2) * DAY + 3600),
        snap("tank/a@2019-04-14T0100", (D - 1) * DAY + 3600),
        snap("tank/a@2019-04-15T0100", D * DAY + 3600),
    ];
    let plan = find_prunable(now, &spec, snaps);
    let kept: Vec<i64> = plan.keep.iter().map(|s| s.time).collect();
    let removed: Vec<i64> = plan.remove.iter().map(|s| s.time).collect();
    assert_eq!(kept, vec![(D - 2) * DAY + 3600, (D - 1) * DAY + 3600, D * DAY + 3600]);
    assert_eq!(removed, vec![(D - 4) * DAY + 3600, (D - 3) * DAY + 3600]);
}

#[test]
fn scenario_sparse_collapses_targets() {
    // spec "2d", snapshots only at D-5 and D: the one at D consumes both
    // daily targets, the one at D-5 satisfies neither and is removed.
    let spec = parse_spec("2d").unwrap();
    let now = D * DAY + 43200;
    let old = snap("tank/a@2019-04-10T0100", (D - 5) * DAY + 3600);
    let new = snap("tank/a@2019-04-15T0100", D * DAY + 3600);
    let plan = find_prunable(now, &spec, vec![old.duplicate(), new.duplicate()]);
    assert_eq!(plan.keep, vec![new]);
    assert_eq!(plan.remove, vec![old]);
}

#[test]
fn single_category_keeps_at_most_k() {
    // spec "2h": six snapshots spaced two hours apart, far more than the
    // two hourly slots; exactly two survive.
    let spec = RotationSpec { monthly: 0, weekly: 0, daily: 0, hourly: 2, frequently: 0 };
    let now = D * DAY + 43200; // 12:00
    let mut snaps = Vec::new();
    for i in 0..6i64 {
        snaps.push(snap("tank/a@2019-04-15T0000", D * DAY + 9000 + i * 7200));
    }
    let plan = find_prunable(now, &spec, snaps);
    assert!(plan.keep.len() <= 2);
    assert_eq!(plan.keep.len() + plan.remove.len(), 6);
    // the 12:30 snapshot collapses both hourly targets
    assert_eq!(plan.keep.len(), 1);
    assert_eq!(plan.keep[0].time, D * DAY + 9000 + 5 * 7200);
}

#[test]
fn partition_is_exact() {
    let spec = daily_spec(2);
    let now = D * DAY + 43200;
    let times = [D * DAY + 3600, (D - 1) * DAY + 3600, (D - 3) * DAY, D * DAY + 7200];
    let snaps: Vec<Snapshot> =
        times.iter().map(|t| snap("tank/a@2019-04-15T0100", *t)).collect();
    let plan = find_prunable(now, &spec, snaps);
    assert_eq!(plan.keep.len() + plan.remove.len(), times.len());
    let mut all: Vec<i64> = plan.keep.iter().chain(plan.remove.iter()).map(|s| s.time).collect();
    all.sort();
    let mut expect: Vec<i64> = times.to_vec();
    expect.sort();
    assert_eq!(all, expect);
}

#[test]
fn plan_is_deterministic() {
    let spec = daily_spec(3);
    let now = D * DAY + 43200;
    let mk = || {
        vec![
            snap("tank/a@2019-04-13T0100", (D - 2) * DAY + 3600),
            snap("tank/a@2019-04-15T0100", D * DAY + 3600),
            snap("tank/a@2019-04-10T0100", (D - 5) * DAY + 3600),
        ]
    };
    let p1 = find_prunable(now, &spec, mk());
    let p2 = find_prunable(now, &spec, mk());
    assert_eq!(p1.keep, p2.keep);
    assert_eq!(p1.remove, p2.remove);
}

#[test]
fn newer_snapshot_never_rescues_removed() {
    // With one daily slot, the day-old snapshot is removed and today's is
    // kept; adding an even newer snapshot changes neither verdict.
    let spec = daily_spec(1);
    let now = D * DAY + 43200;
    let old = snap("tank/a@2019-04-14T0100", (D - 1) * DAY + 3600);
    let mid = snap("tank/a@2019-04-15T0100", D * DAY + 3600);
    let newer = snap("tank/a@2019-04-15T0200", D * DAY + 7200);
    let p1 = find_prunable(
        now,
        &spec,
        vec![old.duplicate(), mid.duplicate()],
    );
    assert_eq!(p1.keep, vec![mid.duplicate()]);
    assert_eq!(p1.remove, vec![old.duplicate()]);
    let p2 = find_prunable(
        now,
        &spec,
        vec![old.duplicate(), mid.duplicate(), newer.duplicate()],
    );
    assert_eq!(p2.keep, vec![mid]);
    assert_eq!(p2.remove, vec![old, newer]);
}

#[test]
fn monthly_targets_follow_calendar() {
    // now = 2021-03-15 12:00 UTC, spec "2m": targets are the first of
    // March and the first of February at midnight.
    let spec = RotationSpec { monthly: 2, weekly: 0, daily: 0, hourly: 0, frequently: 0 };
    let now = 1615809600;
    let jan = snap("tank/a@2021-01-15T0100", 1610672400);
    let feb = snap("tank/a@2021-02-15T1200", 1613390400);
    let mar = snap("tank/a@2021-03-10T0100", 1615338000);
    let plan = find_prunable(
        now,
        &spec,
        vec![jan.duplicate(), feb.duplicate(), mar.duplicate()],
    );
    assert_eq!(plan.keep, vec![feb, mar]);
    assert_eq!(plan.remove, vec![jan]);
}

#[test]
fn weekly_anchor_is_monday() {
    // Day D is a Sunday, so the weekly target is the previous Monday,
    // six days back.
    let spec = RotationSpec { monthly: 0, weekly: 1, daily: 0, hourly: 0, frequently: 0 };
    let now = D * DAY + 43200;
    let monday = D - 6;
    let hit = snap("tank/a@2019-04-09T0100", monday * DAY + 3600);
    let miss = snap("tank/a@2019-04-08T0100", (monday - 1) * DAY + 3600);
    let plan = find_prunable(now, &spec, vec![miss.duplicate(), hit.duplicate()]);
    assert_eq!(plan.keep, vec![hit]);
    assert_eq!(plan.remove, vec![miss]);
}

#[test]
fn frequent_bucket_is_fifteen_minutes() {
    let spec = RotationSpec { monthly: 0, weekly: 0, daily: 0, hourly: 0, frequently: 1 };
    let now = D * DAY + 43200 + 600; // 12:10, target 12:00
    let hit = snap("tank/a@2019-04-15T1205", D * DAY + 43200 + 300);
    let miss = snap("tank/a@2019-04-15T1150", D * DAY + 42600);
    let plan = find_prunable(now, &spec, vec![hit.duplicate(), miss.duplicate()]);
    assert_eq!(plan.keep, vec![hit]);
    assert_eq!(plan.remove, vec![miss]);
}

#[test]
fn snapshot_exactly_on_target_is_not_kept() {
    // The scan pops a target only for snapshots strictly after it, so a
    // snapshot at the boundary itself does not satisfy the slot.
    let spec = daily_spec(1);
    let now = D * DAY + 43200;
    let on_boundary = snap("tank/a@2019-04-15T0000", D * DAY);
    let plan = find_prunable(now, &spec, vec![on_boundary.duplicate()]);
    assert_eq!(plan.keep, Vec::<Snapshot>::new());
    assert_eq!(plan.remove, vec![on_boundary]);
}

#[test]
fn equal_times_keep_only_the_first() {
    // Two snapshots at the same instant: the first in order consumes the
    // target, the second satisfies nothing.
    let spec = daily_spec(1);
    let now = D * DAY + 43200;
    let a = snap("tank/a@2019-04-15T0100", D * DAY + 3600);
    let b = snap("tank/b@2019-04-15T0100", D * DAY + 3600);
    let plan = find_prunable(now, &spec, vec![a.duplicate(), b.duplicate()]);
    assert_eq!(plan.keep, vec![a]);
    assert_eq!(plan.remove, vec![b]);
}
