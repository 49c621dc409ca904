use vstd::prelude::*;
use vstd::multiset::Multiset;
use vstd::seq_lib::group_to_multiset_ensures;
use crate::calendar::{
    day_floor, floor_to, floor_to_step, month_floor, month_floor_of, now_ok, prev_month,
    prev_month_of, week_anchor, week_anchor_of,
};
use crate::naming::digit;
use crate::text::{all_digits, digit_val, digits_val, lemma_digits_val_nonneg};
use crate::snapshot::{
    lemma_sort_by_time_props, lemma_sort_push_newest, sort_by_time, sort_snapshots,
    sorted_by_time, PruningPlan, Snapshot,
};

verus! {

/// How many snapshots to retain per calendar granularity. At least one
/// count must be nonzero; an all-zero value is a configuration error that
/// the parser rejects.
#[derive(Debug, Clone, Copy, PartialEq, Eq)]
pub struct RotationSpec {
    pub monthly: u64,
    pub weekly: u64,
    pub daily: u64,
    pub hourly: u64,
    pub frequently: u64,
}

/// Cap on each rotation count, so that target instants stay inside the
/// range the calendar arithmetic accepts.
pub const SLOT_CAP: u64 = 1_000_000;

pub open spec fn counts_ok(sp: RotationSpec) -> bool {
    &&& sp.monthly <= SLOT_CAP
    &&& sp.weekly <= SLOT_CAP
    &&& sp.daily <= SLOT_CAP
    &&& sp.hourly <= SLOT_CAP
    &&& sp.frequently <= SLOT_CAP
}

/// Whether every rotation count is within the accepted cap.
pub fn counts_within(sp: &RotationSpec) -> (r: bool)
    ensures
        r == counts_ok(*sp),
{
    sp.monthly <= SLOT_CAP && sp.weekly <= SLOT_CAP && sp.daily <= SLOT_CAP && sp.hourly
        <= SLOT_CAP && sp.frequently <= SLOT_CAP
}

pub open spec fn all_zero(sp: RotationSpec) -> bool {
    sp.monthly == 0 && sp.weekly == 0 && sp.daily == 0 && sp.hourly == 0 && sp.frequently == 0
}

/// The total number of rotation slots a spec configures.
pub open spec fn total_slots(sp: RotationSpec) -> int {
    sp.monthly + sp.weekly + sp.daily + sp.hourly + sp.frequently
}

/// The `i`-th monthly target: the start of the current UTC month, stepped
/// back one calendar month per slot.
pub open spec fn month_target(now: int, i: nat) -> int
    decreases i,
{
    if i == 0 {
        month_floor_of(now)
    } else {
        prev_month_of(month_target(now, (i - 1) as nat))
    }
}

pub open spec fn month_targets(now: int, k: nat) -> Seq<int> {
    Seq::new(k, |i: int| month_target(now, i as nat))
}

/// `k` targets counting back from `anchor` in strides of `step` seconds.
pub open spec fn step_targets(anchor: int, step: int, k: nat) -> Seq<int> {
    Seq::new(k, |i: int| anchor - i * step)
}

/// Every target instant of the spec, one sub-sequence per category:
/// weekly slots step back 604800 s from the most recent Monday, daily
/// slots 86400 s from midnight, hourly slots 3600 s from the hour, and
/// frequent slots 900 s from the quarter-hour boundary.
pub open spec fn all_targets(now: int, sp: RotationSpec) -> Seq<int> {
    month_targets(now, sp.monthly as nat) + step_targets(
        week_anchor(now),
        604800,
        sp.weekly as nat,
    ) + step_targets(day_floor(now), 86400, sp.daily as nat) + step_targets(
        floor_to(now, 3600),
        3600,
        sp.hourly as nat,
    ) + step_targets(floor_to(now, 900), 900, sp.frequently as nat)
}

/// How many targets are strictly before instant `x`.
pub open spec fn count_lt(w: Seq<int>, x: int) -> nat
    decreases w.len(),
{
    if w.len() == 0 {
        0
    } else {
        count_lt(w.drop_last(), x) + if w.last() < x {
            1nat
        } else {
            0nat
        }
    }
}

pub proof fn lemma_count_lt_le_len(w: Seq<int>, x: int)
    ensures
        count_lt(w, x) <= w.len(),
    decreases w.len(),
{
    if w.len() > 0 {
        lemma_count_lt_le_len(w.drop_last(), x);
    }
}

pub proof fn lemma_count_lt_mono(w: Seq<int>, x: int, y: int)
    requires
        x <= y,
    ensures
        count_lt(w, x) <= count_lt(w, y),
    decreases w.len(),
{
    if w.len() > 0 {
        lemma_count_lt_mono(w.drop_last(), x, y);
    }
}

/// If every element of the suffix starting at `j` is below `x`, at least
/// that many elements count.
proof fn lemma_count_lt_suffix(w: Seq<int>, x: int, j: int)
    requires
        0 <= j <= w.len(),
        forall|i: int| j <= i < w.len() ==> #[trigger] w[i] < x,
    ensures
        count_lt(w, x) >= w.len() - j,
    decreases w.len(),
{
    if w.len() > j {
        lemma_count_lt_suffix(w.drop_last(), x, j);
    }
}

/// If every element before `j` is at or above `x`, at most the rest count.
proof fn lemma_count_lt_prefix(w: Seq<int>, x: int, j: int)
    requires
        0 <= j <= w.len(),
        forall|i: int| 0 <= i < j ==> #[trigger] w[i] >= x,
    ensures
        count_lt(w, x) <= w.len() - j,
    decreases w.len(),
{
    if w.len() == 0 {
    } else if j == w.len() {
        lemma_count_lt_prefix(w.drop_last(), x, j - 1);
    } else {
        lemma_count_lt_prefix(w.drop_last(), x, j);
    }
}

/// Descending order with duplicates allowed.
pub open spec fn sorted_desc(w: Seq<int>) -> bool {
    forall|i: int, j: int| 0 <= i < j < w.len() ==> #[trigger] w[i] >= #[trigger] w[j]
}

pub open spec fn insert_desc(w: Seq<int>, v: int) -> Seq<int>
    decreases w.len(),
{
    if w.len() == 0 {
        seq![v]
    } else if v > w.last() {
        insert_desc(w.drop_last(), v).push(w.last())
    } else {
        w.push(v)
    }
}

pub open spec fn sort_desc(w: Seq<int>) -> Seq<int>
    decreases w.len(),
{
    if w.len() == 0 {
        Seq::empty()
    } else {
        insert_desc(sort_desc(w.drop_last()), w.last())
    }
}

proof fn lemma_insert_desc_count(w: Seq<int>, v: int, x: int)
    ensures
        insert_desc(w, v).len() == w.len() + 1,
        count_lt(insert_desc(w, v), x) == count_lt(w, x) + if v < x {
            1nat
        } else {
            0nat
        },
    decreases w.len(),
{
    if w.len() == 0 {
        let s = seq![v];
        assert(s.drop_last() =~= Seq::<int>::empty());
        assert(s.last() == v);
        assert(count_lt(s, x) == count_lt(Seq::<int>::empty(), x) + if v < x {
            1nat
        } else {
            0nat
        });
    } else if v > w.last() {
        lemma_insert_desc_count(w.drop_last(), v, x);
        let t = insert_desc(w.drop_last(), v);
        let s = t.push(w.last());
        assert(s.drop_last() =~= t);
        assert(s.last() == w.last());
        assert(count_lt(s, x) == count_lt(t, x) + if w.last() < x {
            1nat
        } else {
            0nat
        });
    } else {
        let s = w.push(v);
        assert(s.drop_last() =~= w);
        assert(s.last() == v);
        assert(count_lt(s, x) == count_lt(w, x) + if v < x {
            1nat
        } else {
            0nat
        });
    }
}

proof fn lemma_sort_desc_counts(w: Seq<int>)
    ensures
        sort_desc(w).len() == w.len(),
        forall|x: int| #[trigger] count_lt(sort_desc(w), x) == count_lt(w, x),
    decreases w.len(),
{
    if w.len() > 0 {
        lemma_sort_desc_counts(w.drop_last());
        assert forall|x: int| #[trigger] count_lt(sort_desc(w), x) == count_lt(w, x) by {
            lemma_insert_desc_count(sort_desc(w.drop_last()), w.last(), x);
        }
        lemma_insert_desc_count(sort_desc(w.drop_last()), w.last(), 0);
    }
}

/// The views of a vector of timestamps, as unbounded integers.
pub open spec fn i64s(s: Seq<i64>) -> Seq<int> {
    s.map_values(|v: i64| v as int)
}

/// Inserting at the first position from the end whose predecessor is at or
/// above `v` is exactly `insert_desc`.
proof fn lemma_insert_desc_at(w: Seq<int>, v: int, pos: int)
    requires
        0 <= pos <= w.len(),
        forall|j: int| pos <= j < w.len() ==> #[trigger] w[j] < v,
        pos > 0 ==> w[pos - 1] >= v,
    ensures
        w.insert(pos, v) == insert_desc(w, v),
    decreases w.len(),
{
    if w.len() == 0 {
        assert(w.insert(0, v) =~= seq![v]);
    } else if pos == w.len() {
        assert(w.insert(pos, v) =~= w.push(v));
    } else {
        assert(w.last() < v);
        lemma_insert_desc_at(w.drop_last(), v, pos);
        assert(w.insert(pos, v) =~= w.drop_last().insert(pos, v).push(w.last()));
    }
}

/// Sorts the target instants descending.
fn sort_desc_vec(v: Vec<i64>) -> (r: Vec<i64>)
    ensures
        i64s(r@) == sort_desc(i64s(v@)),
        sorted_desc(i64s(r@)),
        r@.len() == v@.len(),
{
    let mut r: Vec<i64> = Vec::new();
    let ghost mut g: Seq<int> = Seq::empty();
    let mut i: usize = 0;
    proof {
        assert(i64s(v@.take(0)) =~= Seq::<int>::empty());
    }
    while i < v.len()
        invariant
            0 <= i <= v@.len(),
            g == sort_desc(i64s(v@.take(i as int))),
            sorted_desc(g),
            r@.len() == i,
            g.len() == i,
            forall|j: int| 0 <= j < i ==> #[trigger] r@[j] as int == g[j],
        decreases v@.len() - i,
    {
        broadcast use Seq::lemma_map_take_succ;

        let x = v[i];
        let ghost pre = g;
        let mut pos = r.len();
        while pos > 0 && r[pos - 1] < x
            invariant
                0 <= pos <= r@.len(),
                r@.len() == i,
                g == pre,
                g.len() == i,
                forall|j: int| 0 <= j < i ==> #[trigger] r@[j] as int == g[j],
                forall|j: int| pos <= j < g.len() ==> #[trigger] g[j] < x,
            decreases pos,
        {
            proof {
                assert(r@[pos - 1] as int == g[pos - 1]);
            }
            pos -= 1;
        }
        let ghost r0 = r@;
        r.insert(pos, x);
        proof {
            lemma_insert_desc_at(pre, x as int, pos as int);
            g = pre.insert(pos as int, x as int);
            assert forall|j: int| 0 <= j < r@.len() implies #[trigger] r@[j] as int == g[j] by {
                if j < pos {
                    assert(r0[j] as int == pre[j]);
                } else if j > pos {
                    assert(r0[j - 1] as int == pre[j - 1]);
                }
            }
            let u = i64s(v@.take(i + 1));
            assert(u =~= i64s(v@.take(i as int)).push(v@[i as int] as int));
            assert(u.drop_last() =~= i64s(v@.take(i as int)));
            assert(u.last() == v@[i as int] as int);
            assert(sort_desc(u) == insert_desc(sort_desc(i64s(v@.take(i as int))), x as int));
            // descending order is preserved around the insertion point
            assert forall|a: int, b: int| 0 <= a < b < g.len() implies #[trigger] g[a]
                >= #[trigger] g[b] by {
                if b < pos {
                } else if a == pos && b > pos {
                    assert(g[b] == pre[b - 1]);
                } else if b == pos && a < pos {
                    assert(g[a] == pre[a]);
                    assert(pre[pos - 1] >= x as int);
                    assert(pre[a] >= pre[pos - 1]);
                } else {
                    if a < pos && b > pos {
                        assert(g[a] == pre[a]);
                        assert(g[b] == pre[b - 1]);
                    }
                }
            }
        }
        i += 1;
    }
    proof {
        assert(v@.take(v@.len() as int) =~= v@);
        assert(i64s(r@) =~= g) by {
            assert forall|j: int| 0 <= j < r@.len() implies i64s(r@)[j] == g[j] by {
                assert(i64s(r@)[j] == r@[j] as int);
            }
        }
        assert(sorted_desc(i64s(r@)));
    }
    r
}

/// How many targets the scan got consumed before snapshot `i` of the
/// ascending list: all targets strictly below the previous snapshot's time.
pub open spec fn prev_count(w: Seq<int>, s: Seq<Snapshot>, i: int) -> nat {
    if i <= 0 {
        0
    } else {
        count_lt(w, s[i - 1].time as int)
    }
}

/// Whether snapshot `i` of the ascending list consumes at least one target:
/// some target lies strictly below its time that no earlier snapshot passed.
pub open spec fn kept_at(w: Seq<int>, s: Seq<Snapshot>, i: int) -> bool {
    count_lt(w, s[i].time as int) > prev_count(w, s, i)
}

/// The snapshots of the ascending list that the scan keeps, in order.
pub open spec fn keep_seq(w: Seq<int>, s: Seq<Snapshot>) -> Seq<Snapshot>
    decreases s.len(),
{
    if s.len() == 0 {
        Seq::empty()
    } else if kept_at(w, s, s.len() - 1) {
        keep_seq(w, s.drop_last()).push(s.last())
    } else {
        keep_seq(w, s.drop_last())
    }
}

/// The snapshots of the ascending list that the scan removes, in order.
pub open spec fn remove_seq(w: Seq<int>, s: Seq<Snapshot>) -> Seq<Snapshot>
    decreases s.len(),
{
    if s.len() == 0 {
        Seq::empty()
    } else if kept_at(w, s, s.len() - 1) {
        remove_seq(w, s.drop_last())
    } else {
        remove_seq(w, s.drop_last()).push(s.last())
    }
}

/// The KEEP list of `plan`: what the ascending scan of the sorted input
/// retains against the spec's targets.
pub open spec fn plan_keep(now: int, sp: RotationSpec, snaps: Seq<Snapshot>) -> Seq<Snapshot> {
    keep_seq(all_targets(now, sp), sort_by_time(snaps))
}

/// The REMOVE list of `plan`: everything the scan does not retain.
pub open spec fn plan_remove(now: int, sp: RotationSpec, snaps: Seq<Snapshot>) -> Seq<Snapshot> {
    remove_seq(all_targets(now, sp), sort_by_time(snaps))
}

/// Two target sequences with the same counts classify alike.
proof fn lemma_keep_seq_same_counts(w1: Seq<int>, w2: Seq<int>, s: Seq<Snapshot>)
    requires
        forall|x: int| #[trigger] count_lt(w1, x) == count_lt(w2, x),
    ensures
        keep_seq(w1, s) == keep_seq(w2, s),
        remove_seq(w1, s) == remove_seq(w2, s),
    decreases s.len(),
{
    if s.len() > 0 {
        lemma_keep_seq_same_counts(w1, w2, s.drop_last());
    }
}

/// KEEP and REMOVE partition the scanned list.
pub proof fn lemma_keep_remove_partition(w: Seq<int>, s: Seq<Snapshot>)
    ensures
        keep_seq(w, s).len() + remove_seq(w, s).len() == s.len(),
        keep_seq(w, s).to_multiset().add(remove_seq(w, s).to_multiset()) =~= s.to_multiset(),
    decreases s.len(),
{
    broadcast use group_to_multiset_ensures;

    if s.len() == 0 {
        assert(Seq::<Snapshot>::empty().to_multiset() =~= Multiset::<Snapshot>::empty());
    } else {
        lemma_keep_remove_partition(w, s.drop_last());
        assert(s =~= s.drop_last().push(s.last()));
        assert(s.to_multiset() =~= s.drop_last().to_multiset().insert(s.last()));
    }
}

/// The kept snapshots of an ascending scan are themselves ascending, and
/// none is newer than the scan's last snapshot.
pub proof fn lemma_keep_seq_sorted(w: Seq<int>, s: Seq<Snapshot>)
    requires
        sorted_by_time(s),
    ensures
        sorted_by_time(keep_seq(w, s)),
        s.len() > 0 ==> forall|j: int|
            0 <= j < keep_seq(w, s).len() ==> #[trigger] keep_seq(w, s)[j].time
                <= s.last().time,
    decreases s.len(),
{
    if s.len() > 0 {
        assert(sorted_by_time(s.drop_last()));
        lemma_keep_seq_sorted(w, s.drop_last());
        let kd = keep_seq(w, s.drop_last());
        if s.len() > 1 {
            assert(s.drop_last().last().time <= s.last().time);
            assert forall|j: int| 0 <= j < kd.len() implies #[trigger] kd[j].time
                <= s.last().time by {
                assert(kd[j].time <= s.drop_last().last().time);
            }
        }
        if kept_at(w, s, s.len() - 1) {
            let k = kd.push(s.last());
            assert forall|a: int, b: int| 0 <= a < b < k.len() implies #[trigger] k[a].time
                <= #[trigger] k[b].time by {
                if b < k.len() - 1 {
                    assert(kd[a].time <= kd[b].time);
                } else {
                    assert(k[a] == kd[a]);
                }
            }
        }
    }
}

/// The monthly target instants, newest first.
fn month_targets_vec(now: i64, k: u64) -> (r: Vec<i64>)
    requires
        now_ok(now as int),
        k <= SLOT_CAP,
    ensures
        r@.len() == k,
        forall|j: int|
            0 <= j < k ==> (#[trigger] r@[j]) as int == month_target(now as int, j as nat),
{
    let mut r: Vec<i64> = Vec::new();
    let mut cur = month_floor(now);
    let mut i: u64 = 0;
    while i < k
        invariant
            0 <= i <= k,
            k <= SLOT_CAP,
            now_ok(now as int),
            cur == month_target(now as int, i as nat),
            cur <= now,
            now - 2764800 - i * 5356800 < cur,
            r@.len() == i,
            forall|j: int|
                0 <= j < i ==> (#[trigger] r@[j]) as int == month_target(now as int, j as nat),
        decreases k - i,
    {
        let ghost r0 = r@;
        r.push(cur);
        proof {
            assert forall|j: int| 0 <= j < i + 1 implies (#[trigger] r@[j]) as int == month_target(
                now as int,
                j as nat,
            ) by {
                if j < i {
                    assert(r@[j] == r0[j]);
                } else {
                    assert(r@[j] == r0.push(cur).last());
                }
            }
        }
        cur = prev_month(cur);
        i += 1;
    }
    r
}

/// `k` target instants counting back from `anchor` in strides of `step`
/// seconds.
fn step_targets_vec(anchor: i64, step: i64, k: u64) -> (r: Vec<i64>)
    requires
        -604800 <= anchor < 253402300800,
        0 < step <= 604800,
        k <= SLOT_CAP,
    ensures
        r@.len() == k,
        forall|j: int| 0 <= j < k ==> (#[trigger] r@[j]) as int == anchor - j * step,
{
    let mut r: Vec<i64> = Vec::new();
    let mut i: u64 = 0;
    while i < k
        invariant
            0 <= i <= k,
            k <= SLOT_CAP,
            0 < step <= 604800,
            -604800 <= anchor < 253402300800,
            r@.len() == i,
            forall|j: int| 0 <= j < i ==> (#[trigger] r@[j]) as int == anchor - j * step,
        decreases k - i,
    {
        proof {
            assert(0 <= i * step <= 1_000_000 * 604800) by (nonlinear_arith)
                requires
                    0 <= i <= 1_000_000,
                    0 < step <= 604800,
            ;
        }
        let v = anchor - (i as i64) * step;
        let ghost r0 = r@;
        r.push(v);
        proof {
            assert forall|j: int| 0 <= j < i + 1 implies (#[trigger] r@[j]) as int == anchor - j
                * step by {
                if j < i {
                    assert(r@[j] == r0[j]);
                } else {
                    assert(r@[j] == r0.push(v).last());
                }
            }
        }
        i += 1;
    }
    r
}

/// Builds the merged target list, one entry per configured slot.
fn build_targets(now: i64, sp: &RotationSpec) -> (r: Vec<i64>)
    requires
        now_ok(now as int),
        counts_ok(*sp),
    ensures
        i64s(r@) == all_targets(now as int, *sp),
{
    let ghost m1 = sp.monthly as int;
    let ghost m2 = m1 + sp.weekly;
    let ghost m3 = m2 + sp.daily;
    let ghost m4 = m3 + sp.hourly;

    let wa = week_anchor_of(now);
    let da = floor_to_step(now, 86400);
    let ha = floor_to_step(now, 3600);
    let qa = floor_to_step(now, 900);

    let mut r = month_targets_vec(now, sp.monthly);
    let mut vw = step_targets_vec(wa, 604800, sp.weekly);
    let mut vd = step_targets_vec(da, 86400, sp.daily);
    let mut vh = step_targets_vec(ha, 3600, sp.hourly);
    let mut vq = step_targets_vec(qa, 900, sp.frequently);
    let ghost gm = r@;
    let ghost gw = vw@;
    let ghost gd = vd@;
    let ghost gh = vh@;
    let ghost gq = vq@;
    r.append(&mut vw);
    r.append(&mut vd);
    r.append(&mut vh);
    r.append(&mut vq);

    proof {
        assert(r@ == gm + gw + gd + gh + gq);
        let t = all_targets(now as int, *sp);
        assert(t.len() == r@.len());
        assert forall|j: int| 0 <= j < r@.len() implies i64s(r@)[j] == t[j] by {
            assert(i64s(r@)[j] == r@[j] as int);
            if j < m1 {
                assert(r@[j] == gm[j]);
                assert(t[j] == month_target(now as int, j as nat));
            } else if j < m2 {
                assert(r@[j] == gw[j - m1]);
                assert(t[j] == week_anchor(now as int) - (j - m1) * 604800);
            } else if j < m3 {
                assert(r@[j] == gd[j - m2]);
                assert(t[j] == day_floor(now as int) - (j - m2) * 86400);
            } else if j < m4 {
                assert(r@[j] == gh[j - m3]);
                assert(t[j] == floor_to(now as int, 3600) - (j - m3) * 3600);
            } else {
                assert(r@[j] == gq[j - m4]);
                assert(t[j] == floor_to(now as int, 900) - (j - m4) * 900);
            }
        }
        assert(i64s(r@) =~= t);
    }
    r
}

/// Partitions the snapshots into KEEP and REMOVE against the rotation
/// spec's target instants, anchored at `now`. Scanning the snapshots in
/// ascending time order, the first snapshot strictly after each remaining
/// target consumes it (one snapshot may consume several targets); a
/// snapshot that consumes none, or arrives after every target is consumed,
/// is removed.
pub fn find_prunable(now: i64, sp: &RotationSpec, snapshots: Vec<Snapshot>) -> (plan: PruningPlan)
    requires
        now_ok(now as int),
        counts_ok(*sp),
    ensures
        plan.keep@ == plan_keep(now as int, *sp, snapshots@),
        plan.remove@ == plan_remove(now as int, *sp, snapshots@),
        plan.keep@.len() + plan.remove@.len() == snapshots@.len(),
        plan.keep@.to_multiset().add(plan.remove@.to_multiset()) == snapshots@.to_multiset(),
{
    let ghost w = all_targets(now as int, *sp);
    let sorted = sort_snapshots(snapshots);
    let targets = build_targets(now, sp);
    let mut wanted = sort_desc_vec(targets);
    let ghost wd = sort_desc(w);
    proof {
        lemma_sort_desc_counts(w);
    }

    let mut keep: Vec<Snapshot> = Vec::new();
    let mut remove: Vec<Snapshot> = Vec::new();
    let mut i: usize = 0;
    proof {
        assert(sorted@.subrange(0, 0) =~= Seq::<Snapshot>::empty());
        assert(i64s(wanted@) == wd);
        assert(i64s(wanted@).len() == wanted@.len());
        assert(wanted@.len() == wd.len());
        assert forall|j: int| 0 <= j < wanted@.len() implies (#[trigger] wanted@[j]) as int
            == wd[j] by {
            assert(i64s(wanted@)[j] == wanted@[j] as int);
        }
    }
    while i < sorted.len()
        invariant
            0 <= i <= sorted@.len(),
            sorted@ == sort_by_time(snapshots@),
            sorted_by_time(sorted@),
            wd == sort_desc(w),
            sorted_desc(wd),
            wd.len() == w.len(),
            forall|x: int| #[trigger] count_lt(wd, x) == count_lt(w, x),
            prev_count(wd, sorted@, i as int) <= wd.len(),
            wanted@.len() == wd.len() - prev_count(wd, sorted@, i as int),
            forall|j: int| 0 <= j < wanted@.len() ==> (#[trigger] wanted@[j]) as int == wd[j],
            keep@ == keep_seq(wd, sorted@.subrange(0, i as int)),
            remove@ == remove_seq(wd, sorted@.subrange(0, i as int)),
        decreases sorted@.len() - i,
    {
        let cur = sorted[i].time;
        let ghost pc = prev_count(wd, sorted@, i as int);
        let ghost mut k: nat = pc;
        let mut popped = false;
        proof {
            if i > 0 {
                assert(sorted@[i - 1].time <= sorted@[i as int].time);
                lemma_count_lt_mono(wd, sorted@[i - 1].time as int, cur as int);
            }
        }
        while wanted.len() > 0 && wanted[wanted.len() - 1] < cur
            invariant
                pc <= k <= count_lt(wd, cur as int),
                k <= wd.len(),
                cur == sorted@[i as int].time,
                0 <= i < sorted@.len(),
                sorted_desc(wd),
                wanted@.len() == wd.len() - k,
                forall|j: int| 0 <= j < wanted@.len() ==> (#[trigger] wanted@[j]) as int == wd[j],
                popped == (k > pc),
            decreases wanted@.len(),
        {
            proof {
                let m = wd.len() as int;
                assert(wanted@[m - k - 1] as int == wd[m - k - 1]);
                assert(wd[m - k - 1] < cur as int);
                assert forall|t: int| m - k - 1 <= t < m implies #[trigger] wd[t] < cur as int by {
                    assert(wd[m - k - 1] >= wd[t]);
                }
                lemma_count_lt_suffix(wd, cur as int, m - k - 1);
            }
            wanted.pop();
            popped = true;
            proof {
                k = k + 1;
            }
        }
        proof {
            if wanted@.len() == 0 {
                lemma_count_lt_le_len(wd, cur as int);
                assert(k == wd.len());
            } else {
                let m = wd.len() as int;
                assert(wanted@[m - k - 1] as int == wd[m - k - 1]);
                assert(wd[m - k - 1] >= cur as int);
                assert forall|t: int| 0 <= t < m - k implies #[trigger] wd[t] >= cur as int by {
                    if t < m - k - 1 {
                        assert(wd[t] >= wd[m - k - 1]);
                    }
                }
                lemma_count_lt_prefix(wd, cur as int, m - k);
            }
            assert(k == count_lt(wd, cur as int));
        }
        if popped {
            keep.push(sorted[i].duplicate());
        } else {
            remove.push(sorted[i].duplicate());
        }
        proof {
            let t = sorted@.subrange(0, i + 1);
            assert(t.drop_last() =~= sorted@.subrange(0, i as int));
            assert(t.last() == sorted@[i as int]);
            assert(kept_at(wd, t, i as int) == popped);
            assert(keep@ == keep_seq(wd, t));
            assert(remove@ == remove_seq(wd, t));
        }
        i += 1;
    }
    proof {
        assert(sorted@.subrange(0, sorted@.len() as int) =~= sorted@);
        lemma_keep_seq_same_counts(wd, w, sorted@);
        lemma_keep_remove_partition(w, sorted@);
        lemma_sort_by_time_props(snapshots@);
    }
    PruningPlan { keep, remove }
}

/// Each kept snapshot consumes at least one target strictly below its
/// time, so the kept count is bounded by the targets counted below the
/// newest snapshot.
proof fn lemma_keep_le_count(w: Seq<int>, s: Seq<Snapshot>)
    requires
        sorted_by_time(s),
    ensures
        s.len() > 0 ==> keep_seq(w, s).len() <= count_lt(w, s.last().time as int),
        s.len() == 0 ==> keep_seq(w, s).len() == 0,
    decreases s.len(),
{
    if s.len() > 0 {
        assert(sorted_by_time(s.drop_last()));
        lemma_keep_le_count(w, s.drop_last());
        if s.len() > 1 {
            assert(s.drop_last().last() == s[s.len() - 2]);
            assert(s[s.len() - 2].time <= s.last().time);
            lemma_count_lt_mono(w, s[s.len() - 2].time as int, s.last().time as int);
        }
    }
}

/// A plan keeps at most as many snapshots as the rotation spec configures
/// slots; with a single nonzero category set to `k`, at most `k`.
pub proof fn lemma_keep_bounded(now: int, sp: RotationSpec, snaps: Seq<Snapshot>)
    ensures
        plan_keep(now, sp, snaps).len() <= total_slots(sp),
{
    let w = all_targets(now, sp);
    let s = sort_by_time(snaps);
    lemma_sort_by_time_props(snaps);
    lemma_keep_le_count(w, s);
    if s.len() > 0 {
        lemma_count_lt_le_len(w, s.last().time as int);
    }
    assert(month_targets(now, sp.monthly as nat).len() == sp.monthly);
    assert(w.len() == total_slots(sp));
}

/// A spec whose only nonzero category holds `k` slots keeps at most `k`
/// snapshots, however many candidates are offered.
pub proof fn lemma_single_category_bound(
    now: int,
    sp: RotationSpec,
    snaps: Seq<Snapshot>,
    k: u64,
)
    requires
        total_slots(sp) == k,
    ensures
        plan_keep(now, sp, snaps).len() <= k,
{
    lemma_keep_bounded(now, sp, snaps);
}

/// KEEP and REMOVE partition the input: their lengths sum to the input's,
/// and together they hold exactly the input snapshots, with multiplicity.
pub proof fn lemma_plan_partition(now: int, sp: RotationSpec, snaps: Seq<Snapshot>)
    ensures
        plan_keep(now, sp, snaps).len() + plan_remove(now, sp, snaps).len() == snaps.len(),
        plan_keep(now, sp, snaps).to_multiset().add(plan_remove(now, sp, snaps).to_multiset())
            == snaps.to_multiset(),
{
    lemma_sort_by_time_props(snaps);
    lemma_keep_remove_partition(all_targets(now, sp), sort_by_time(snaps));
}

/// Running the plan twice with identical `now`, spec and input yields
/// identical partitions: each run's lists are pinned to the one spec
/// value the inputs determine.
pub proof fn lemma_plan_deterministic(
    now: int,
    sp: RotationSpec,
    snaps: Seq<Snapshot>,
    keep1: Seq<Snapshot>,
    remove1: Seq<Snapshot>,
    keep2: Seq<Snapshot>,
    remove2: Seq<Snapshot>,
)
    requires
        keep1 == plan_keep(now, sp, snaps),
        remove1 == plan_remove(now, sp, snaps),
        keep2 == plan_keep(now, sp, snaps),
        remove2 == plan_remove(now, sp, snaps),
    ensures
        keep1 == keep2,
        remove1 == remove2,
{
}

/// Adding a snapshot strictly newer than every input snapshot never
/// reclassifies an existing snapshot: the old KEEP and REMOVE lists stay
/// exactly as they were, and the new snapshot joins exactly one of them.
pub proof fn lemma_newer_input_monotone(
    now: int,
    sp: RotationSpec,
    snaps: Seq<Snapshot>,
    x: Snapshot,
)
    requires
        forall|i: int| 0 <= i < snaps.len() ==> #[trigger] snaps[i].time < x.time,
    ensures
        plan_keep(now, sp, snaps.push(x)) == plan_keep(now, sp, snaps) || plan_keep(
            now,
            sp,
            snaps.push(x),
        ) == plan_keep(now, sp, snaps).push(x),
        plan_remove(now, sp, snaps.push(x)) == plan_remove(now, sp, snaps) || plan_remove(
            now,
            sp,
            snaps.push(x),
        ) == plan_remove(now, sp, snaps).push(x),
        plan_keep(now, sp, snaps.push(x)) == plan_keep(now, sp, snaps) <==> plan_remove(
            now,
            sp,
            snaps.push(x),
        ) == plan_remove(now, sp, snaps).push(x),
{
    let w = all_targets(now, sp);
    lemma_sort_push_newest(snaps, x);
    let s = sort_by_time(snaps);
    let s2 = sort_by_time(snaps.push(x));
    assert(s2 == s.push(x));
    assert(s2.drop_last() =~= s);
    assert(s2.last() == x);
    if kept_at(w, s2, s2.len() - 1) {
        assert(keep_seq(w, s2) == keep_seq(w, s).push(x));
        assert(remove_seq(w, s2) == remove_seq(w, s));
        assert(keep_seq(w, s2).len() != keep_seq(w, s).len());
        assert(remove_seq(w, s2).len() != remove_seq(w, s).push(x).len());
    } else {
        assert(keep_seq(w, s2) == keep_seq(w, s));
        assert(remove_seq(w, s2) == remove_seq(w, s).push(x));
        assert(remove_seq(w, s2).len() != remove_seq(w, s).len());
        assert(keep_seq(w, s2).len() == keep_seq(w, s).len());
    }
}

/// Why a rotation spec string is rejected.
#[derive(Debug, Clone, Copy, PartialEq, Eq)]
pub enum SpecError {
    /// A category letter with no digits before it, or a count that does
    /// not fit in 64 bits.
    BadCount,
    /// A character that is neither a digit nor a category letter.
    UnknownUnit(char),
    /// Every category count came out zero.
    KeepsNothing,
}

/// A category letter of the rotation spec.
pub open spec fn is_unit(c: char) -> bool {
    c == 'm' || c == 'w' || c == 'd' || c == 'h' || c == 'f'
}

pub open spec fn set_count(sp: RotationSpec, c: char, n: u64) -> RotationSpec {
    if c == 'm' {
        RotationSpec { monthly: n, ..sp }
    } else if c == 'w' {
        RotationSpec { weekly: n, ..sp }
    } else if c == 'd' {
        RotationSpec { daily: n, ..sp }
    } else if c == 'h' {
        RotationSpec { hourly: n, ..sp }
    } else {
        RotationSpec { frequently: n, ..sp }
    }
}

pub open spec fn zero_spec() -> RotationSpec {
    RotationSpec { monthly: 0, weekly: 0, daily: 0, hourly: 0, frequently: 0 }
}

/// One left-to-right pass over the spec string: digits gather in `buf`;
/// a category letter closes the group and stores its count, overwriting
/// any earlier count for the same letter; digits left open at the end are
/// ignored.
pub open spec fn parse_groups(s: Seq<char>, buf: Seq<char>, acc: RotationSpec) -> Result<
    RotationSpec,
    SpecError,
>
    decreases s.len(),
{
    if s.len() == 0 {
        Ok(acc)
    } else {
        let c = s[0];
        if digit(c) {
            parse_groups(s.drop_first(), buf.push(c), acc)
        } else if is_unit(c) {
            if buf.len() == 0 || digits_val(buf) > u64::MAX {
                Err(SpecError::BadCount)
            } else {
                parse_groups(s.drop_first(), Seq::empty(), set_count(acc, c, digits_val(buf) as u64))
            }
        } else {
            Err(SpecError::UnknownUnit(c))
        }
    }
}

/// What parsing a rotation spec string yields; an all-zero spec is a
/// configuration error, not a valid "keep nothing" policy.
pub open spec fn spec_of_chars(s: Seq<char>) -> Result<RotationSpec, SpecError> {
    match parse_groups(s, Seq::empty(), zero_spec()) {
        Ok(sp) => if all_zero(sp) {
            Err(SpecError::KeepsNothing)
        } else {
            Ok(sp)
        },
        Err(e) => Err(e),
    }
}

/// Parses a compact rotation spec string: digit groups, each closed by
/// one of the letters `m`, `w`, `d`, `h`, `f`.
pub fn parse_spec(input: &str) -> (r: Result<RotationSpec, SpecError>)
    ensures
        r == spec_of_chars(input@),
{
    let n = input.unicode_len();
    let mut acc = RotationSpec { monthly: 0, weekly: 0, daily: 0, hourly: 0, frequently: 0 };
    let mut val: u64 = 0;
    let mut got = false;
    let mut over = false;
    let ghost mut buf: Seq<char> = Seq::empty();
    let mut i: usize = 0;
    proof {
        assert(input@.skip(0) =~= input@);
    }
    while i < n
        invariant
            0 <= i <= n,
            n == input@.len(),
            got == (buf.len() > 0),
            over == (digits_val(buf) > u64::MAX),
            !over ==> val == digits_val(buf),
            all_digits(buf),
            parse_groups(input@.skip(i as int), buf, acc) == parse_groups(
                input@,
                Seq::empty(),
                zero_spec(),
            ),
        decreases n - i,
    {
        let ghost rest = input@.skip(i as int);
        proof {
            assert(rest[0] == input@[i as int]);
            assert(rest.drop_first() =~= input@.skip(i + 1));
        }
        let c = input.get_char(i);
        if c as u32 >= 48 && c as u32 <= 57 {
            let d = (c as u32 - 48) as u64;
            proof {
                lemma_digits_val_nonneg(buf);
                assert(digits_val(buf.push(c)) == digits_val(buf) * 10 + digit_val(c)) by {
                    assert(buf.push(c).drop_last() =~= buf);
                }
            }
            if !over {
                let limit = (u64::MAX - d) / 10;
                proof {
                    vstd::arithmetic::div_mod::lemma_fundamental_div_mod(
                        (u64::MAX - d) as int,
                        10,
                    );
                }
                if val > limit {
                    over = true;
                } else {
                    val = val * 10 + d;
                }
            }
            got = true;
            proof {
                buf = buf.push(c);
            }
        } else if c == 'm' || c == 'w' || c == 'd' || c == 'h' || c == 'f' {
            if !got || over {
                return Err(SpecError::BadCount);
            }
            if c == 'm' {
                acc.monthly = val;
            } else if c == 'w' {
                acc.weekly = val;
            } else if c == 'd' {
                acc.daily = val;
            } else if c == 'h' {
                acc.hourly = val;
            } else {
                acc.frequently = val;
            }
            val = 0;
            got = false;
            over = false;
            proof {
                buf = Seq::empty();
            }
        } else {
            return Err(SpecError::UnknownUnit(c));
        }
        i += 1;
    }
    proof {
        assert(input@.skip(n as int) =~= Seq::<char>::empty());
    }
    if acc.monthly == 0 && acc.weekly == 0 && acc.daily == 0 && acc.hourly == 0
        && acc.frequently == 0 {
        return Err(SpecError::KeepsNothing);
    }
    Ok(acc)
}

} // verus!
