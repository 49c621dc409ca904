use vstd::prelude::*;
use vstd::multiset::Multiset;
use vstd::seq_lib::group_to_multiset_ensures;

verus! {

/// A point-in-time capture of a volume: its full identifier and its
/// creation time in seconds since the Unix epoch (UTC).
#[derive(Debug, PartialEq, Eq)]
pub struct Snapshot {
    pub path: String,
    pub time: i64,
}

impl Snapshot {
    /// A copy equal to `self`, field for field.
    pub fn duplicate(&self) -> (r: Snapshot)
        ensures
            r == *self,
    {
        Snapshot { path: self.path.clone(), time: self.time }
    }
}

/// A partition of an input snapshot set: every input snapshot stands in
/// exactly one of the two lists.
pub struct PruningPlan {
    pub keep: Vec<Snapshot>,
    pub remove: Vec<Snapshot>,
}

/// Nondecreasing creation times.
pub open spec fn sorted_by_time(s: Seq<Snapshot>) -> bool {
    forall|i: int, j: int| 0 <= i < j < s.len() ==> #[trigger] s[i].time <= #[trigger] s[j].time
}

/// Where a stable insertion by time places `x`: after every element whose
/// time does not exceed `x`'s.
pub open spec fn insert_by_time(s: Seq<Snapshot>, x: Snapshot) -> Seq<Snapshot>
    decreases s.len(),
{
    if s.len() == 0 {
        seq![x]
    } else if x.time < s.last().time {
        insert_by_time(s.drop_last(), x).push(s.last())
    } else {
        s.push(x)
    }
}

/// Stable sort by creation time: equal times keep their input order.
pub open spec fn sort_by_time(s: Seq<Snapshot>) -> Seq<Snapshot>
    decreases s.len(),
{
    if s.len() == 0 {
        Seq::empty()
    } else {
        insert_by_time(sort_by_time(s.drop_last()), s.last())
    }
}

pub proof fn lemma_insert_by_time_props(s: Seq<Snapshot>, x: Snapshot)
    requires
        sorted_by_time(s),
    ensures
        sorted_by_time(insert_by_time(s, x)),
        insert_by_time(s, x).len() == s.len() + 1,
        insert_by_time(s, x).to_multiset() =~= s.to_multiset().insert(x),
    decreases s.len(),
{
    broadcast use group_to_multiset_ensures;

    if s.len() == 0 {
        assert(seq![x] =~= Seq::<Snapshot>::empty().push(x));
        assert(Seq::<Snapshot>::empty().to_multiset() =~= Multiset::<Snapshot>::empty());
    } else if x.time < s.last().time {
        assert(sorted_by_time(s.drop_last()));
        lemma_insert_by_time_props(s.drop_last(), x);
        let t = insert_by_time(s.drop_last(), x);
        assert(s =~= s.drop_last().push(s.last()));
        // every element of t is an element of s.drop_last() or is x,
        // so each is bounded by s.last().time
        assert forall|i: int| 0 <= i < t.len() implies t[i].time <= s.last().time by {
            assert(t.to_multiset().count(t[i]) > 0);
            if t[i] == x {
            } else {
                assert(s.drop_last().to_multiset().count(t[i]) > 0);
                assert(s.drop_last().contains(t[i]));
                let j = choose|j: int|
                    0 <= j < s.drop_last().len() && s.drop_last()[j] == t[i];
                assert(s[j].time <= s.last().time);
            }
        }
        assert(sorted_by_time(t.push(s.last())));
        assert(t.push(s.last()).to_multiset() =~= s.to_multiset().insert(x));
    } else {
        assert forall|i: int| 0 <= i < s.len() implies s[i].time <= x.time by {
            assert(s[i].time <= s.last().time);
        }
        assert(sorted_by_time(s.push(x)));
    }
}

pub proof fn lemma_sort_by_time_props(s: Seq<Snapshot>)
    ensures
        sorted_by_time(sort_by_time(s)),
        sort_by_time(s).len() == s.len(),
        sort_by_time(s).to_multiset() =~= s.to_multiset(),
    decreases s.len(),
{
    broadcast use group_to_multiset_ensures;

    if s.len() == 0 {
        assert(Seq::<Snapshot>::empty().to_multiset() =~= Multiset::<Snapshot>::empty());
        assert(s.to_multiset() =~= Multiset::<Snapshot>::empty());
    } else {
        lemma_sort_by_time_props(s.drop_last());
        lemma_insert_by_time_props(sort_by_time(s.drop_last()), s.last());
        assert(s =~= s.drop_last().push(s.last()));
        assert(s.to_multiset() =~= s.drop_last().to_multiset().insert(s.last()));
    }
}

/// A snapshot strictly newer than every element joins a stable sort at
/// its end.
pub proof fn lemma_sort_push_newest(s: Seq<Snapshot>, x: Snapshot)
    requires
        forall|i: int| 0 <= i < s.len() ==> #[trigger] s[i].time < x.time,
    ensures
        sort_by_time(s.push(x)) == sort_by_time(s).push(x),
{
    broadcast use group_to_multiset_ensures;

    lemma_sort_by_time_props(s);
    let t = sort_by_time(s);
    assert(s.push(x).drop_last() =~= s);
    assert(sort_by_time(s.push(x)) == insert_by_time(t, x));
    if t.len() == 0 {
        assert(insert_by_time(t, x) =~= t.push(x));
    } else {
        assert(t.to_multiset().count(t[t.len() - 1]) > 0);
        assert(s.to_multiset().count(t.last()) > 0);
        assert(s.contains(t.last()));
        let j = choose|j: int| 0 <= j < s.len() && s[j] == t.last();
        assert(s[j].time < x.time);
        assert(!(x.time < t.last().time));
    }
}

/// Sorts the snapshots ascending by creation time, stably.
pub fn sort_snapshots(v: Vec<Snapshot>) -> (r: Vec<Snapshot>)
    ensures
        r@ == sort_by_time(v@),
        sorted_by_time(r@),
        r@.len() == v@.len(),
        r@.to_multiset() == v@.to_multiset(),
{
    let mut r: Vec<Snapshot> = Vec::new();
    let mut i: usize = 0;
    proof {
        assert(v@.subrange(0, 0) =~= Seq::<Snapshot>::empty());
        lemma_sort_by_time_props(v@.subrange(0, 0));
    }
    while i < v.len()
        invariant
            0 <= i <= v@.len(),
            r@ == sort_by_time(v@.subrange(0, i as int)),
            sorted_by_time(r@),
        decreases v@.len() - i,
    {
        let x = v[i].duplicate();
        let ghost pre = r@;
        // find the stable insertion point from the end
        let mut pos = r.len();
        while pos > 0 && x.time < r[pos - 1].time
            invariant
                0 <= pos <= r@.len(),
                r@ == pre,
                forall|j: int| pos <= j < r@.len() ==> x.time < #[trigger] r@[j].time,
            decreases pos,
        {
            pos -= 1;
        }
        r.insert(pos, x);
        proof {
            lemma_insert_at_is_insert_by_time(pre, x, pos as int);
            assert(v@.subrange(0, i + 1).drop_last() =~= v@.subrange(0, i as int));
            assert(v@.subrange(0, i + 1).last() == v@[i as int]);
            lemma_insert_by_time_props(pre, x);
        }
        i += 1;
    }
    proof {
        assert(v@.subrange(0, v@.len() as int) =~= v@);
        lemma_sort_by_time_props(v@);
    }
    r
}

/// Inserting at the first position from the end whose predecessor's time
/// does not exceed `x`'s is exactly the stable insertion.
proof fn lemma_insert_at_is_insert_by_time(s: Seq<Snapshot>, x: Snapshot, pos: int)
    requires
        0 <= pos <= s.len(),
        forall|j: int| pos <= j < s.len() ==> x.time < #[trigger] s[j].time,
        pos > 0 ==> !(x.time < s[pos - 1].time),
    ensures
        s.insert(pos, x) == insert_by_time(s, x),
    decreases s.len(),
{
    if s.len() == 0 {
        assert(s.insert(0, x) =~= seq![x]);
    } else if pos == s.len() {
        assert(s.insert(pos, x) =~= s.push(x));
    } else {
        // x.time < s.last().time, so insertion recurses into the prefix
        assert(x.time < s.last().time);
        lemma_insert_at_is_insert_by_time(s.drop_last(), x, pos);
        assert(s.insert(pos, x) =~= s.drop_last().insert(pos, x).push(s.last()));
    }
}

} // verus!
