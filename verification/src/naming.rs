use vstd::prelude::*;
use vstd::string::*;
use crate::calendar::{format_tag, now_ok, tag_of};
use crate::text::{idx_of, lemma_idx_of};

verus! {

/// An ASCII decimal digit.
pub open spec fn digit(c: char) -> bool {
    48 <= c as u32 <= 57
}

/// A character allowed in a volume path: lower-case ASCII or '/'.
pub open spec fn lower_or_slash(c: char) -> bool {
    c == '/' || (97 <= c as u32 <= 122)
}

/// The fifteen-character date-time tag `YYYY-MM-DDTHHMM`.
pub open spec fn tag_shape(t: Seq<char>) -> bool {
    &&& t.len() == 15
    &&& digit(t[0]) && digit(t[1]) && digit(t[2]) && digit(t[3])
    &&& t[4] == '-'
    &&& digit(t[5]) && digit(t[6])
    &&& t[7] == '-'
    &&& digit(t[8]) && digit(t[9])
    &&& t[10] == 'T'
    &&& digit(t[11]) && digit(t[12]) && digit(t[13]) && digit(t[14])
}

/// A policy-managed snapshot identifier: a nonempty volume path of
/// lower-case letters and slashes, '@', then the date-time tag.
pub open spec fn is_managed(s: Seq<char>) -> bool {
    &&& s.len() >= 17
    &&& (forall|i: int| 0 <= i < s.len() - 16 ==> lower_or_slash(#[trigger] s[i]))
    &&& s[s.len() - 16] == '@'
    &&& tag_shape(s.subrange(s.len() - 15, s.len() as int))
}

/// Whether `path` names a policy-managed snapshot. Identifiers of any other
/// shape are excluded from policy and replication decisions, never fatal.
pub fn is_normal_snapshot(path: &str) -> (r: bool)
    ensures
        r == is_managed(path@),
{
    let n = path.unicode_len();
    if n < 17 {
        return false;
    }
    let boundary = n - 16;
    let mut i: usize = 0;
    while i < boundary
        invariant
            0 <= i <= boundary,
            boundary == path@.len() - 16,
            path@.len() >= 17,
            forall|j: int| 0 <= j < i ==> lower_or_slash(#[trigger] path@[j]),
        decreases boundary - i,
    {
        let c = path.get_char(i);
        if !(c == '/' || (97 <= c as u32 && c as u32 <= 122)) {
            return false;
        }
        i += 1;
    }
    if path.get_char(boundary) != '@' {
        return false;
    }
    let r = tag_shape_at(path, boundary + 1);
    proof {
        assert(path@.subrange(path@.len() - 15, path@.len() as int) =~= Seq::new(
            15,
            |k: int| path@[boundary + 1 + k],
        ));
    }
    r
}

/// Whether the fifteen characters of `s` starting at `at` form the
/// date-time tag.
fn tag_shape_at(s: &str, at: usize) -> (r: bool)
    requires
        0 <= at,
        at + 15 <= s@.len(),
        at + 15 <= usize::MAX,
    ensures
        r == tag_shape(Seq::new(15, |k: int| s@[at + k])),
{
    let mut k: usize = 0;
    while k < 15
        invariant
            0 <= k <= 15,
            at + 15 <= s@.len(),
            at + 15 <= usize::MAX,
            forall|j: int| 0 <= j < k ==> tag_cell_ok(#[trigger] s@[at + j], j),
        decreases 15 - k,
    {
        let c = s.get_char(at + k);
        let ok = if k == 4 || k == 7 {
            c == '-'
        } else if k == 10 {
            c == 'T'
        } else {
            48 <= c as u32 && c as u32 <= 57
        };
        if !ok {
            assert(!tag_shape(Seq::new(15, |j: int| s@[at + j]))) by {
                let t = Seq::new(15, |j: int| s@[at + j]);
                assert(t[k as int] == s@[at + k]);
            }
            return false;
        }
        k += 1;
    }
    proof {
        let t = Seq::new(15, |j: int| s@[at + j]);
        assert(forall|j: int| 0 <= j < 15 ==> tag_cell_ok(#[trigger] t[j], j));
        assert(tag_cell_ok(t[0], 0) && tag_cell_ok(t[1], 1) && tag_cell_ok(t[2], 2)
            && tag_cell_ok(t[3], 3) && tag_cell_ok(t[4], 4) && tag_cell_ok(t[5], 5)
            && tag_cell_ok(t[6], 6) && tag_cell_ok(t[7], 7) && tag_cell_ok(t[8], 8)
            && tag_cell_ok(t[9], 9) && tag_cell_ok(t[10], 10) && tag_cell_ok(t[11], 11)
            && tag_cell_ok(t[12], 12) && tag_cell_ok(t[13], 13) && tag_cell_ok(t[14], 14));
    }
    true
}

/// What the cell at position `j` of the date-time tag must hold.
pub open spec fn tag_cell_ok(c: char, j: int) -> bool {
    if j == 4 || j == 7 {
        c == '-'
    } else if j == 10 {
        c == 'T'
    } else {
        digit(c)
    }
}

/// A lightweight checkpoint identifier for job `job`: a volume path of
/// lower-case letters and slashes, '#', a date-time tag, then "-sync-",
/// with the job name closing the string.
pub open spec fn is_sync_mark(s: Seq<char>, job: Seq<char>) -> bool {
    let k = idx_of(s, '#');
    &&& k >= 1
    &&& (forall|i: int| 0 <= i < k ==> lower_or_slash(#[trigger] s[i]))
    &&& s.len() >= k + 22
    &&& tag_shape(s.subrange(k + 1, k + 16))
    &&& s.subrange(k + 16, k + 22) == "-sync-"@
    &&& s.len() >= job.len() + 6
    &&& s.subrange(s.len() - job.len() - 6, s.len() - job.len()) == "-sync-"@
    &&& s.subrange(s.len() - job.len(), s.len() as int) == job
}

/// Whether `path` names a checkpoint of job `job`. Checkpoints of other
/// jobs, and identifiers of any other shape, are excluded.
pub fn is_sync_bookmark(path: &str, job: &str) -> (r: bool)
    ensures
        r == is_sync_mark(path@, job@),
{
    proof {
        lemma_idx_of(path@, '#');
        reveal_strlit("-sync-");
    }
    let n = path.unicode_len();
    let jl = job.unicode_len();
    let k = match crate::text::find_char(path, '#') {
        Some(k) => k,
        None => {
            return false;
        },
    };
    if k < 1 {
        return false;
    }
    let mut i: usize = 0;
    while i < k
        invariant
            0 <= i <= k,
            k < path@.len(),
            k == idx_of(path@, '#'),
            forall|j: int| 0 <= j < i ==> lower_or_slash(#[trigger] path@[j]),
        decreases k - i,
    {
        let c = path.get_char(i);
        if !(c == '/' || (97 <= c as u32 && c as u32 <= 122)) {
            proof {
                assert(!is_sync_mark(path@, job@)) by {
                    assert(0 <= i < idx_of(path@, '#'));
                    assert(!lower_or_slash(path@[i as int]));
                }
            }
            return false;
        }
        i += 1;
    }
    if n - k < 22 {
        return false;
    }
    if !tag_shape_at(path, k + 1) {
        proof {
            assert(path@.subrange(k + 1, k + 16) =~= Seq::new(15, |j: int| path@[k + 1 + j]));
        }
        return false;
    }
    proof {
        assert(path@.subrange(k + 1, k + 16) =~= Seq::new(15, |j: int| path@[k + 1 + j]));
    }
    if !(path.get_char(k + 16) == '-' && path.get_char(k + 17) == 's' && path.get_char(k + 18)
        == 'y' && path.get_char(k + 19) == 'n' && path.get_char(k + 20) == 'c' && path.get_char(
        k + 21,
    ) == '-') {
        proof {
            assert(path@.subrange(k + 16, k + 22) != "-sync-"@) by {
                if path@.subrange(k + 16, k + 22) == "-sync-"@ {
                    assert(path@.subrange(k + 16, k + 22)[0] == path@[k + 16]);
                    assert(path@.subrange(k + 16, k + 22)[1] == path@[k + 17]);
                    assert(path@.subrange(k + 16, k + 22)[2] == path@[k + 18]);
                    assert(path@.subrange(k + 16, k + 22)[3] == path@[k + 19]);
                    assert(path@.subrange(k + 16, k + 22)[4] == path@[k + 20]);
                    assert(path@.subrange(k + 16, k + 22)[5] == path@[k + 21]);
                }
            }
        }
        return false;
    }
    proof {
        assert(path@.subrange(k + 16, k + 22) =~= "-sync-"@);
    }
    if n - 6 < jl {
        return false;
    }
    let base = n - jl;
    if !(path.get_char(base - 6) == '-' && path.get_char(base - 5) == 's' && path.get_char(
        base - 4,
    ) == 'y' && path.get_char(base - 3) == 'n' && path.get_char(base - 2) == 'c'
        && path.get_char(base - 1) == '-') {
        proof {
            let sub = path@.subrange(base - 6, base as int);
            assert(sub != "-sync-"@) by {
                if sub == "-sync-"@ {
                    assert(sub[0] == path@[base - 6]);
                    assert(sub[1] == path@[base - 5]);
                    assert(sub[2] == path@[base - 4]);
                    assert(sub[3] == path@[base - 3]);
                    assert(sub[4] == path@[base - 2]);
                    assert(sub[5] == path@[base - 1]);
                }
            }
        }
        return false;
    }
    proof {
        assert(path@.subrange(base - 6, base as int) =~= "-sync-"@);
    }
    let mut t: usize = 0;
    while t < jl
        invariant
            0 <= t <= jl,
            jl == job@.len(),
            base == path@.len() - jl,
            base + jl <= usize::MAX,
            jl + 6 <= path@.len(),
            forall|j: int| 0 <= j < t ==> path@[base + j] == #[trigger] job@[j],
        decreases jl - t,
    {
        if path.get_char(base + t) != job.get_char(t) {
            proof {
                let sub = path@.subrange(base as int, path@.len() as int);
                assert(sub != job@) by {
                    if sub == job@ {
                        assert(sub[t as int] == path@[base + t]);
                    }
                }
            }
            return false;
        }
        t += 1;
    }
    proof {
        assert(path@.subrange(base as int, path@.len() as int) =~= job@);
    }
    true
}

/// The checkpoint identifier derived from a managed snapshot's path:
/// '@' replaced by '#', then "-sync-" and the job name.
pub open spec fn bookmark_name(p: Seq<char>, job: Seq<char>) -> Seq<char> {
    p.subrange(0, p.len() - 16) + seq!['#'] + p.subrange(p.len() - 15, p.len() as int)
        + "-sync-"@ + job
}

/// Builds the checkpoint identifier for a transferred snapshot.
pub fn bookmark_path(path: &str, job: &str) -> (r: String)
    requires
        is_managed(path@),
    ensures
        r@ == bookmark_name(path@, job@),
{
    let n = path.unicode_len();
    let pre = path.substring_char(0, n - 16);
    let tag = path.substring_char(n - 15, n);
    let mut out = String::from_str(pre);
    out.append("#");
    out.append(tag);
    out.append("-sync-");
    out.append(job);
    proof {
        reveal_strlit("#");
        assert(out@ =~= bookmark_name(path@, job@));
    }
    out
}

/// Builds the identifier of a new snapshot of `dataset` taken at `now`.
pub fn snapshot_path(dataset: &str, now: i64) -> (r: String)
    requires
        now_ok(now as int),
    ensures
        r@ == dataset@ + seq!['@'] + tag_of(now as int),
        tag_shape(tag_of(now as int)),
{
    let tag = format_tag(now);
    let mut out = String::from_str(dataset);
    out.append("@");
    out.append(tag.as_str());
    proof {
        reveal_strlit("@");
        assert(out@ =~= dataset@ + seq!['@'] + tag_of(now as int));
    }
    out
}

/// A snapshot identifier built from a nonempty well-formed dataset name
/// and a well-shaped tag is itself recognized as managed.
pub proof fn lemma_snapshot_path_managed(dataset: Seq<char>, tag: Seq<char>)
    requires
        dataset.len() >= 1,
        forall|i: int| 0 <= i < dataset.len() ==> lower_or_slash(#[trigger] dataset[i]),
        tag_shape(tag),
    ensures
        is_managed(dataset + seq!['@'] + tag),
{
    let s = dataset + seq!['@'] + tag;
    assert(s.len() == dataset.len() + 16);
    assert(s.subrange(s.len() - 15, s.len() as int) =~= tag);
    assert(s[s.len() - 16] == '@');
    assert forall|i: int| 0 <= i < s.len() - 16 implies lower_or_slash(#[trigger] s[i]) by {
        assert(s[i] == dataset[i]);
    }
}

} // verus!
