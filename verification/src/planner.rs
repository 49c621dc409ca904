use vstd::prelude::*;
use vstd::seq_lib::group_to_multiset_ensures;
use vstd::seq_lib::group_filter_ensures;
use crate::calendar::now_ok;
use crate::naming::{bookmark_name, bookmark_path, is_managed};
use crate::retention::{counts_ok, find_prunable, plan_keep, RotationSpec};
use crate::snapshot::{lemma_sort_by_time_props, sort_by_time, sort_snapshots, sorted_by_time, Snapshot};

verus! {

/// One incremental transfer of the chain: send `from` up to `to`, and on
/// success anchor the checkpoint `mark` to `to` on the origin.
pub struct SendStep {
    pub from: String,
    pub to: String,
    pub first: bool,
    pub mark: String,
}

/// What one replication run must do, decided from the inventories alone.
pub enum SendPlan {
    /// No checkpoint exists for the job: transfer the newest origin
    /// snapshot whole and anchor the job's first checkpoint to it.
    Bootstrap { source: Snapshot, mark: String },
    /// Nothing newer than the resume point survives retention: no
    /// mutation is owed.
    NothingToSend,
    /// Resume from the newest checkpoint with an ascending incremental
    /// chain.
    Incremental { resume: Snapshot, steps: Vec<SendStep> },
}

/// Why no plan can be made.
#[derive(Debug, Clone, Copy, PartialEq, Eq)]
pub enum PlanError {
    /// Bootstrap is needed but the origin has no managed snapshot to
    /// transfer.
    NoSourceSnapshots,
}

/// The snapshots strictly newer than instant `t`, in listed order.
pub open spec fn newer_than(s: Seq<Snapshot>, t: int) -> Seq<Snapshot> {
    s.filter(|x: Snapshot| x.time > t)
}

/// Whether some snapshot of `s` has exactly this identifier and time.
pub open spec fn snap_in(s: Seq<Snapshot>, p: Seq<char>, t: int) -> bool {
    exists|i: int| 0 <= i < s.len() && (#[trigger] s[i]).path@ == p && s[i].time == t
}

/// The retention survivors of `keep` that are among the new origin
/// snapshots and carry a managed name: what is worth transferring.
pub open spec fn send_filter_spec(keep: Seq<Snapshot>, newer: Seq<Snapshot>) -> Seq<Snapshot> {
    keep.filter(
        |x: Snapshot| snap_in(newer, x.path@, x.time as int) && is_managed(x.path@),
    )
}

/// The ordered send list: run retention over the destination's snapshots
/// joined with the origin's snapshots newer than the resume point `rt`,
/// then keep only the survivors that are new origin snapshots. Data the
/// destination would at once discard is never sent.
pub open spec fn send_list(
    now: int,
    sp: RotationSpec,
    origin: Seq<Snapshot>,
    dest: Seq<Snapshot>,
    rt: int,
) -> Seq<Snapshot> {
    send_filter_spec(plan_keep(now, sp, dest + newer_than(origin, rt)), newer_than(origin, rt))
}

/// A well-formed chain for `sends`: one step per snapshot, in order,
/// each incremental from the previous snapshot (the resume point for the
/// first), each anchoring the job's checkpoint to the snapshot it sent.
pub open spec fn chain_ok(
    resume: Snapshot,
    sends: Seq<Snapshot>,
    job: Seq<char>,
    steps: Seq<SendStep>,
) -> bool {
    &&& steps.len() == sends.len()
    &&& forall|i: int|
        0 <= i < steps.len() ==> {
            let st = #[trigger] steps[i];
            &&& st.to@ == sends[i].path@
            &&& st.from@ == if i == 0 {
                resume.path@
            } else {
                sends[i - 1].path@
            }
            &&& st.first == (i == 0)
            &&& st.mark@ == bookmark_name(sends[i].path@, job)
        }
}

/// What `plan_send` must decide for the given inventories.
pub open spec fn plan_send_ok(
    job: Seq<char>,
    now: int,
    sp: RotationSpec,
    origin: Seq<Snapshot>,
    marks: Seq<Snapshot>,
    dest: Seq<Snapshot>,
    r: Result<SendPlan, PlanError>,
) -> bool {
    if marks.len() == 0 {
        if origin.len() == 0 {
            r == Result::<SendPlan, PlanError>::Err(PlanError::NoSourceSnapshots)
        } else {
            &&& r matches Ok(p)
            &&& p matches SendPlan::Bootstrap { source, mark }
            &&& source == sort_by_time(origin).last()
            &&& mark@ == bookmark_name(source.path@, job)
        }
    } else {
        let resume = sort_by_time(marks).last();
        let sends = send_list(now, sp, origin, dest, resume.time as int);
        if sends.len() == 0 {
            &&& r matches Ok(p)
            &&& p is NothingToSend
        } else {
            &&& r matches Ok(p)
            &&& p matches SendPlan::Incremental { resume: rs, steps }
            &&& rs == resume
            &&& chain_ok(resume, sends, job, steps@)
        }
    }
}

/// The origin snapshots strictly newer than `t`, copied out in listed
/// order.
fn filter_newer(v: &Vec<Snapshot>, t: i64) -> (r: Vec<Snapshot>)
    ensures
        r@ == newer_than(v@, t as int),
{
    let mut r: Vec<Snapshot> = Vec::new();
    proof {
        reveal(Seq::filter);
        assert(v@.take(0).filter(|x: Snapshot| x.time > t as int) =~= Seq::<Snapshot>::empty());
    }
    let mut i: usize = 0;
    while i < v.len()
        invariant
            0 <= i <= v@.len(),
            r@ == newer_than(v@.take(i as int), t as int),
        decreases v@.len() - i,
    {
        proof {
            reveal(Seq::filter);
            assert(v@.take(i + 1).drop_last() =~= v@.take(i as int));
            assert(v@.take(i + 1).last() == v@[i as int]);
        }
        if v[i].time > t {
            r.push(v[i].duplicate());
        }
        i += 1;
    }
    proof {
        assert(v@.take(v@.len() as int) =~= v@);
    }
    r
}

/// The retention survivors that are new origin snapshots with managed
/// names, in survivor order.
fn send_filter(keep: Vec<Snapshot>, newer: &Vec<Snapshot>) -> (r: Vec<Snapshot>)
    ensures
        r@ == send_filter_spec(keep@, newer@),
{
    let mut r: Vec<Snapshot> = Vec::new();
    proof {
        reveal(Seq::filter);
        assert(keep@.take(0).filter(
            |x: Snapshot| snap_in(newer@, x.path@, x.time as int) && is_managed(x.path@),
        ) =~= Seq::<Snapshot>::empty());
    }
    let mut i: usize = 0;
    while i < keep.len()
        invariant
            0 <= i <= keep@.len(),
            r@ == send_filter_spec(keep@.take(i as int), newer@),
        decreases keep@.len() - i,
    {
        proof {
            reveal(Seq::filter);
            assert(keep@.take(i + 1).drop_last() =~= keep@.take(i as int));
            assert(keep@.take(i + 1).last() == keep@[i as int]);
        }
        let x = &keep[i];
        let mut found = false;
        let mut j: usize = 0;
        while j < newer.len()
            invariant
                0 <= j <= newer@.len(),
                0 <= i < keep@.len(),
                x == &keep@[i as int],
                found ==> snap_in(newer@, x.path@, x.time as int),
                !found ==> forall|jj: int|
                    0 <= jj < j ==> !((#[trigger] newer@[jj]).path@ == x.path@ && newer@[jj].time
                        == x.time),
            decreases newer@.len() - j,
        {
            if !found && newer[j].time == x.time && newer[j].path == x.path {
                found = true;
            }
            j += 1;
        }
        proof {
            if !found {
                assert(!snap_in(newer@, x.path@, x.time as int));
            }
        }
        if found && crate::naming::is_normal_snapshot(x.path.as_str()) {
            r.push(keep[i].duplicate());
        }
        i += 1;
    }
    proof {
        assert(keep@.take(keep@.len() as int) =~= keep@);
    }
    r
}

/// Builds the incremental chain for `sends`, ascending, each step
/// starting where the previous one ended.
fn chain_steps(resume: &Snapshot, sends: &Vec<Snapshot>, job: &str) -> (r: Vec<SendStep>)
    requires
        forall|i: int| 0 <= i < sends@.len() ==> is_managed((#[trigger] sends@[i]).path@),
    ensures
        chain_ok(*resume, sends@, job@, r@),
{
    let mut r: Vec<SendStep> = Vec::new();
    let mut i: usize = 0;
    while i < sends.len()
        invariant
            0 <= i <= sends@.len(),
            r@.len() == i,
            forall|k: int| 0 <= k < sends@.len() ==> is_managed((#[trigger] sends@[k]).path@),
            forall|k: int|
                0 <= k < i ==> {
                    let st = #[trigger] r@[k];
                    &&& st.to@ == sends@[k].path@
                    &&& st.from@ == if k == 0 {
                        resume.path@
                    } else {
                        sends@[k - 1].path@
                    }
                    &&& st.first == (k == 0)
                    &&& st.mark@ == bookmark_name(sends@[k].path@, job@)
                },
        decreases sends@.len() - i,
    {
        let from = if i == 0 {
            resume.path.clone()
        } else {
            sends[i - 1].path.clone()
        };
        let to = sends[i].path.clone();
        let mark = bookmark_path(sends[i].path.as_str(), job);
        let ghost r0 = r@;
        let step = SendStep { from, to, first: i == 0, mark };
        r.push(step);
        proof {
            assert forall|k: int|
                0 <= k < i + 1 implies {
                    let st = #[trigger] r@[k];
                    &&& st.to@ == sends@[k].path@
                    &&& st.from@ == if k == 0 {
                        resume.path@
                    } else {
                        sends@[k - 1].path@
                    }
                    &&& st.first == (k == 0)
                    &&& st.mark@ == bookmark_name(sends@[k].path@, job@)
                } by {
                if k < i {
                    assert(r@[k] == r0[k]);
                } else {
                    assert(r@[k] == step);
                }
            }
        }
        i += 1;
    }
    r
}

/// Decides one replication run from the job name, the current time, the
/// destination rotation spec, and the three inventories: origin managed
/// snapshots, the job's origin checkpoints, and destination managed
/// snapshots. Pure: the caller performs the plan's transfers.
pub fn plan_send(
    job: &str,
    now: i64,
    sp: &RotationSpec,
    origin: Vec<Snapshot>,
    marks: Vec<Snapshot>,
    dest: Vec<Snapshot>,
) -> (r: Result<SendPlan, PlanError>)
    requires
        now_ok(now as int),
        counts_ok(*sp),
        forall|i: int| 0 <= i < origin@.len() ==> is_managed((#[trigger] origin@[i]).path@),
    ensures
        plan_send_ok(job@, now as int, *sp, origin@, marks@, dest@, r),
{
    broadcast use group_to_multiset_ensures;
    broadcast use group_filter_ensures;

    let ghost og = origin@;
    let ghost dg = dest@;
    let ghost mg = marks@;
    if marks.len() == 0 {
        if origin.len() == 0 {
            return Err(PlanError::NoSourceSnapshots);
        }
        let sorted = sort_snapshots(origin);
        let source = sorted[sorted.len() - 1].duplicate();
        proof {
            lemma_sort_by_time_props(og);
            let s = sort_by_time(og);
            assert(source == s.last());
            assert(s.contains(s.last())) by {
                assert(s[s.len() - 1] == s.last());
            }
            assert(s.to_multiset().count(s.last()) > 0);
            assert(og.to_multiset().count(s.last()) > 0);
            assert(og.contains(s.last()));
            let w = choose|i: int| 0 <= i < og.len() && og[i] == s.last();
            assert(is_managed(og[w].path@));
        }
        let mark = bookmark_path(source.path.as_str(), job);
        return Ok(SendPlan::Bootstrap { source, mark });
    }
    let smarks = sort_snapshots(marks);
    let resume = smarks[smarks.len() - 1].duplicate();
    proof {
        assert(resume == sort_by_time(mg).last());
    }
    let newer = filter_newer(&origin, resume.time);
    let mut pool = dest;
    let mut tail = filter_newer(&origin, resume.time);
    pool.append(&mut tail);
    proof {
        assert(pool@ == dg + newer_than(og, resume.time as int));
    }
    let plan = find_prunable(now, sp, pool);
    let sends = send_filter(plan.keep, &newer);
    proof {
        assert(sends@ == send_list(now as int, *sp, og, dg, resume.time as int));
    }
    if sends.len() == 0 {
        return Ok(SendPlan::NothingToSend);
    }
    proof {
        assert forall|i: int| 0 <= i < sends@.len() implies is_managed(
            (#[trigger] sends@[i]).path@,
        ) by {
            let pred = |x: Snapshot| snap_in(newer@, x.path@, x.time as int) && is_managed(
                x.path@,
            );
            assert(pred(sends@[i]));
        }
    }
    let steps = chain_steps(&resume, &sends, job);
    Ok(SendPlan::Incremental { resume, steps })
}

/// After a completed chain the origin keeps only its newest checkpoint:
/// these are the ones to prune, oldest first.
pub fn stale_bookmarks(marks: Vec<Snapshot>) -> (r: Vec<Snapshot>)
    ensures
        marks@.len() == 0 ==> r@ == Seq::<Snapshot>::empty(),
        marks@.len() > 0 ==> r@ == sort_by_time(marks@).drop_last(),
{
    let ghost mg = marks@;
    let mut s = sort_snapshots(marks);
    proof {
        lemma_sort_by_time_props(mg);
    }
    if s.len() > 0 {
        s.pop();
        proof {
            assert(s@ =~= sort_by_time(mg).drop_last());
        }
    } else {
        proof {
            assert(s@ =~= Seq::<Snapshot>::empty());
        }
    }
    s
}

/// Whether a new snapshot is due: none exists yet, or the newest listed
/// one is more than fourteen minutes old.
pub fn should_snapshot(now: i64, snapshots: &Vec<Snapshot>) -> (r: bool)
    requires
        0 <= now,
    ensures
        r == (snapshots@.len() == 0 || snapshots@.last().time < now - 840),
{
    if snapshots.len() == 0 {
        true
    } else {
        snapshots[snapshots.len() - 1].time < now - 840
    }
}

/// Filtering the survivors keeps their ascending order, and every
/// element named by the new-origin set is strictly newer than `rt`.
proof fn lemma_send_filter_sorted(keep: Seq<Snapshot>, newer: Seq<Snapshot>, rt: int)
    requires
        sorted_by_time(keep),
        forall|i: int| 0 <= i < newer.len() ==> (#[trigger] newer[i]).time > rt,
    ensures
        sorted_by_time(send_filter_spec(keep, newer)),
        forall|j: int|
            0 <= j < send_filter_spec(keep, newer).len() ==> (#[trigger] send_filter_spec(
                keep,
                newer,
            )[j]).time > rt,
        keep.len() > 0 ==> forall|j: int|
            0 <= j < send_filter_spec(keep, newer).len() ==> (#[trigger] send_filter_spec(
                keep,
                newer,
            )[j]).time <= keep.last().time,
    decreases keep.len(),
{
    reveal(Seq::filter);
    if keep.len() > 0 {
        assert(sorted_by_time(keep.drop_last()));
        lemma_send_filter_sorted(keep.drop_last(), newer, rt);
        let fd = send_filter_spec(keep.drop_last(), newer);
        let f = send_filter_spec(keep, newer);
        if keep.len() > 1 {
            assert(keep.drop_last().last().time <= keep.last().time);
            assert forall|j: int| 0 <= j < fd.len() implies #[trigger] fd[j].time
                <= keep.last().time by {
                assert(fd[j].time <= keep.drop_last().last().time);
            }
        }
        if snap_in(newer, keep.last().path@, keep.last().time as int) && is_managed(
            keep.last().path@,
        ) {
            assert(f == fd.push(keep.last()));
            let w = choose|i: int|
                0 <= i < newer.len() && (#[trigger] newer[i]).path@ == keep.last().path@
                    && newer[i].time == keep.last().time;
            assert(newer[w].time > rt);
            assert forall|a: int, b: int| 0 <= a < b < f.len() implies #[trigger] f[a].time
                <= #[trigger] f[b].time by {
                if b < f.len() - 1 {
                    assert(fd[a].time <= fd[b].time);
                } else {
                    assert(f[a] == fd[a]);
                }
            }
        } else {
            assert(f == fd);
        }
    }
}

/// The send list runs in ascending creation order and holds only
/// snapshots strictly newer than the resume point `rt`: the chain's
/// steps each start where the previous one ended and never reach behind
/// the checkpoint.
pub proof fn lemma_send_list_ascending(
    now: int,
    sp: RotationSpec,
    origin: Seq<Snapshot>,
    dest: Seq<Snapshot>,
    rt: int,
)
    ensures
        sorted_by_time(send_list(now, sp, origin, dest, rt)),
        forall|i: int|
            0 <= i < send_list(now, sp, origin, dest, rt).len() ==> (#[trigger] send_list(
                now,
                sp,
                origin,
                dest,
                rt,
            )[i]).time > rt,
{
    broadcast use group_filter_ensures;

    let newer = newer_than(origin, rt);
    let pool = dest + newer;
    let keep = plan_keep(now, sp, pool);
    crate::snapshot::lemma_sort_by_time_props(pool);
    crate::retention::lemma_keep_seq_sorted(
        crate::retention::all_targets(now, sp),
        crate::snapshot::sort_by_time(pool),
    );
    assert forall|i: int| 0 <= i < newer.len() implies (#[trigger] newer[i]).time > rt by {
        let pred = |x: Snapshot| x.time > rt;
        assert(pred(newer[i]));
    }
    lemma_send_filter_sorted(keep, newer, rt);
}

} // verus!
