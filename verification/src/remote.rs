use vstd::prelude::*;
use vstd::string::*;
use crate::naming::{is_managed, is_normal_snapshot, is_sync_bookmark, is_sync_mark};
use crate::snapshot::Snapshot;
use crate::text::{
    find_char, has_subseq, idx_of, lemma_idx_of, parse_i64, parse_i64_chars, rfind_char,
    last_idx_of,
};

verus! {

/// How a volume is reached: directly, or through a shell on `host`.
pub enum Transport {
    Local,
    Ssh(String),
}

/// One volume under management: its dataset path and its transport.
/// Stateless; every effect goes through the commands built here.
pub struct Remote {
    pub dataset: String,
    pub transport: Transport,
}

/// How a locator string maps to a Remote: everything after the last ':'
/// is the dataset and the part before it the host; with no ':' the whole
/// string is a local dataset.
pub open spec fn remote_of(s: Seq<char>, r: Remote) -> bool {
    let k = last_idx_of(s, ':');
    if k < 0 {
        r.dataset@ == s && r.transport is Local
    } else {
        &&& r.dataset@ == s.subrange(k + 1, s.len() as int)
        &&& r.transport matches Transport::Ssh(h) && h@ == s.subrange(0, k)
    }
}

/// Parses a volume locator: `host:dataset` selects the shell transport,
/// a bare dataset the local one.
pub fn parse_remote(input: &str) -> (r: Remote)
    ensures
        remote_of(input@, r),
{
    proof {
        crate::text::lemma_last_idx_of(input@, ':');
    }
    match rfind_char(input, ':') {
        Some(k) => {
            let n = input.unicode_len();
            let host = input.substring_char(0, k);
            let ds = input.substring_char(k + 1, n);
            Remote {
                dataset: String::from_str(ds),
                transport: Transport::Ssh(String::from_str(host)),
            }
        },
        None => Remote { dataset: input.to_owned(), transport: Transport::Local },
    }
}

/// The views of an argument vector.
pub open spec fn views(v: Seq<String>) -> Seq<Seq<char>> {
    v.map_values(|s: String| s@)
}

/// The full command line for the volume tool on this transport.
pub open spec fn argv_of(r: Remote, args: Seq<Seq<char>>) -> Seq<Seq<char>> {
    match r.transport {
        Transport::Local => seq!["zfs"@] + args,
        Transport::Ssh(h) => seq!["ssh"@, "-o"@, "ConnectTimeout=20"@, h@, "zfs"@] + args,
    }
}

impl Remote {
    /// Builds the tool invocation for `args` on this volume's transport.
    pub fn cmd(&self, args: Vec<String>) -> (r: Vec<String>)
        ensures
            views(r@) == argv_of(*self, views(args@)),
    {
        let mut out: Vec<String> = Vec::new();
        match &self.transport {
            Transport::Local => {
                out.push(String::from_str("zfs"));
                proof {
                    assert(out@.len() == 1);
                    assert(out@[0]@ == "zfs"@);
                }
            },
            Transport::Ssh(host) => {
                out.push(String::from_str("ssh"));
                out.push(String::from_str("-o"));
                out.push(String::from_str("ConnectTimeout=20"));
                out.push(host.clone());
                out.push(String::from_str("zfs"));
                proof {
                    assert(out@.len() == 5);
                    assert(out@[0]@ == "ssh"@);
                    assert(out@[1]@ == "-o"@);
                    assert(out@[2]@ == "ConnectTimeout=20"@);
                    assert(out@[3]@ == host@);
                    assert(out@[4]@ == "zfs"@);
                }
            },
        }
        let ghost pre = out@;
        let mut i: usize = 0;
        while i < args.len()
            invariant
                0 <= i <= args@.len(),
                out@.len() == pre.len() + i,
                forall|j: int| 0 <= j < pre.len() ==> out@[j] == #[trigger] pre[j],
                forall|j: int| 0 <= j < i ==> out@[pre.len() + j] == #[trigger] args@[j],
            decreases args@.len() - i,
        {
            let ghost o0 = out@;
            out.push(args[i].clone());
            proof {
                assert forall|j: int| 0 <= j < pre.len() implies out@[j] == #[trigger] pre[j] by {
                    assert(out@[j] == o0[j]);
                }
                assert forall|j: int| 0 <= j < i + 1 implies out@[pre.len() + j]
                    == #[trigger] args@[j] by {
                    if j < i {
                        assert(out@[pre.len() + j] == o0[pre.len() + j]);
                    }
                }
            }
            i += 1;
        }
        proof {
            let target = argv_of(*self, views(args@));
            assert(views(out@).len() == target.len());
            assert forall|j: int| 0 <= j < views(out@).len() implies views(out@)[j]
                == target[j] by {
                assert(views(out@)[j] == out@[j]@);
                if j < pre.len() {
                    assert(out@[j] == pre[j]);
                } else {
                    assert(out@[j] == args@[j - pre.len()]);
                    assert(views(args@)[j - pre.len()] == args@[j - pre.len()]@);
                }
            }
            assert(views(out@) =~= target);
        }
        out
    }

    /// Arguments to list the volume's snapshots with names and creation
    /// times, unadorned and in seconds.
    pub fn list_snapshots_args(&self) -> (r: Vec<String>)
        ensures
            views(r@) == argv_of(
                *self,
                seq!["list"@, "-t"@, "snapshot"@, "-o"@, "name,creation"@, "-Hp"@, self.dataset@],
            ),
    {
        let mut a: Vec<String> = Vec::new();
        a.push(String::from_str("list"));
        a.push(String::from_str("-t"));
        a.push(String::from_str("snapshot"));
        a.push(String::from_str("-o"));
        a.push(String::from_str("name,creation"));
        a.push(String::from_str("-Hp"));
        a.push(self.dataset.clone());
        proof {
            assert(views(a@) =~= seq![
                "list"@,
                "-t"@,
                "snapshot"@,
                "-o"@,
                "name,creation"@,
                "-Hp"@,
                self.dataset@,
            ]);
        }
        self.cmd(a)
    }

    /// Arguments to list the volume's bookmarks in the same format.
    pub fn list_bookmarks_args(&self) -> (r: Vec<String>)
        ensures
            views(r@) == argv_of(
                *self,
                seq!["list"@, "-t"@, "bookmark"@, "-o"@, "name,creation"@, "-Hp"@, self.dataset@],
            ),
    {
        let mut a: Vec<String> = Vec::new();
        a.push(String::from_str("list"));
        a.push(String::from_str("-t"));
        a.push(String::from_str("bookmark"));
        a.push(String::from_str("-o"));
        a.push(String::from_str("name,creation"));
        a.push(String::from_str("-Hp"));
        a.push(self.dataset.clone());
        proof {
            assert(views(a@) =~= seq![
                "list"@,
                "-t"@,
                "bookmark"@,
                "-o"@,
                "name,creation"@,
                "-Hp"@,
                self.dataset@,
            ]);
        }
        self.cmd(a)
    }

    /// Arguments to create the snapshot named `path`; the identifier must
    /// carry the snapshot delimiter, anything else is a programming error.
    pub fn snapshot(&self, path: &str) -> (r: Vec<String>)
        requires
            path@.contains('@'),
        ensures
            views(r@) == argv_of(*self, seq!["snapshot"@, path@]),
    {
        let mut a: Vec<String> = Vec::new();
        a.push(String::from_str("snapshot"));
        a.push(String::from_str(path));
        proof {
            assert(views(a@) =~= seq!["snapshot"@, path@]);
        }
        self.cmd(a)
    }

    /// Arguments to create the checkpoint `mark` anchored to snapshot
    /// `base`; the checkpoint identifier must carry the bookmark
    /// delimiter, anything else is a programming error.
    pub fn bookmark(&self, base: &str, mark: &str) -> (r: Vec<String>)
        requires
            mark@.contains('#'),
        ensures
            views(r@) == argv_of(*self, seq!["bookmark"@, base@, mark@]),
    {
        let mut a: Vec<String> = Vec::new();
        a.push(String::from_str("bookmark"));
        a.push(String::from_str(base));
        a.push(String::from_str(mark));
        proof {
            assert(views(a@) =~= seq!["bookmark"@, base@, mark@]);
        }
        self.cmd(a)
    }

    /// Arguments to destroy a snapshot; the identifier must carry the
    /// snapshot delimiter, anything else is a programming error.
    pub fn destroy_snapshot(&self, path: &str) -> (r: Vec<String>)
        requires
            path@.contains('@'),
        ensures
            views(r@) == argv_of(*self, seq!["destroy"@, path@]),
    {
        let mut a: Vec<String> = Vec::new();
        a.push(String::from_str("destroy"));
        a.push(String::from_str(path));
        proof {
            assert(views(a@) =~= seq!["destroy"@, path@]);
        }
        self.cmd(a)
    }

    /// Arguments to destroy a bookmark; the identifier must carry the
    /// bookmark delimiter, anything else is a programming error.
    pub fn destroy_bookmark(&self, path: &str) -> (r: Vec<String>)
        requires
            path@.contains('#'),
        ensures
            views(r@) == argv_of(*self, seq!["destroy"@, path@]),
    {
        let mut a: Vec<String> = Vec::new();
        a.push(String::from_str("destroy"));
        a.push(String::from_str(path));
        proof {
            assert(views(a@) =~= seq!["destroy"@, path@]);
        }
        self.cmd(a)
    }

    /// Arguments for a full, self-contained send of `path`.
    pub fn send_full(&self, path: &str) -> (r: Vec<String>)
        ensures
            views(r@) == argv_of(*self, seq!["send"@, "-w"@, path@]),
    {
        let mut a: Vec<String> = Vec::new();
        a.push(String::from_str("send"));
        a.push(String::from_str("-w"));
        a.push(String::from_str(path));
        proof {
            assert(views(a@) =~= seq!["send"@, "-w"@, path@]);
        }
        self.cmd(a)
    }

    /// Arguments for one incremental step of the chain, `from` to `to`;
    /// the first step starts from a bookmark and uses the simple
    /// incremental flag.
    pub fn send_step(&self, first: bool, from: &str, to: &str) -> (r: Vec<String>)
        ensures
            views(r@) == argv_of(
                *self,
                seq![
                    "send"@,
                    if first {
                        "-wi"@
                    } else {
                        "-wI"@
                    },
                    from@,
                    to@,
                ],
            ),
    {
        let mut a: Vec<String> = Vec::new();
        a.push(String::from_str("send"));
        if first {
            a.push(String::from_str("-wi"));
        } else {
            a.push(String::from_str("-wI"));
        }
        a.push(String::from_str(from));
        a.push(String::from_str(to));
        proof {
            assert(views(a@) =~= seq![
                "send"@,
                if first {
                    "-wi"@
                } else {
                    "-wI"@
                },
                from@,
                to@,
            ]);
        }
        self.cmd(a)
    }

    /// Arguments to receive a stream into this volume, unmounted; a
    /// forced receive overwrites whatever the destination holds.
    pub fn recv_args(&self, force: bool) -> (r: Vec<String>)
        ensures
            views(r@) == argv_of(
                *self,
                seq![
                    "recv"@,
                    if force {
                        "-uF"@
                    } else {
                        "-u"@
                    },
                    self.dataset@,
                ],
            ),
    {
        let mut a: Vec<String> = Vec::new();
        a.push(String::from_str("recv"));
        if force {
            a.push(String::from_str("-uF"));
        } else {
            a.push(String::from_str("-u"));
        }
        a.push(self.dataset.clone());
        proof {
            assert(views(a@) =~= seq![
                "recv"@,
                if force {
                    "-uF"@
                } else {
                    "-u"@
                },
                self.dataset@,
            ]);
        }
        self.cmd(a)
    }
}

/// Whether the tool's error output names a missing dataset, which
/// enumeration recovers from as an empty inventory; any other failure is
/// fatal.
pub fn is_soft_missing(err: &str) -> (r: bool)
    ensures
        r == has_subseq(err@, "does not exist"@),
{
    crate::text::contains_str(err, "does not exist")
}

/// The tool's listing split into lines: newline-separated, a final empty
/// line dropped.
pub open spec fn lines_of(s: Seq<char>) -> Seq<Seq<char>>
    decreases s.len(),
{
    if s.len() == 0 {
        Seq::empty()
    } else {
        let k = idx_of(s, '\n');
        if k < 0 || k >= s.len() {
            seq![s]
        } else {
            seq![s.subrange(0, k)] + lines_of(s.subrange(k + 1, s.len() as int))
        }
    }
}

/// The name field of a listing line: everything before the first tab.
pub open spec fn tab_name(l: Seq<char>) -> Seq<char> {
    l.subrange(0, idx_of(l, '\t'))
}

/// The creation field of a listing line: between the first tab and the
/// second, or the end.
pub open spec fn tab_time_field(l: Seq<char>) -> Seq<char> {
    let k = idx_of(l, '\t');
    let rest = l.subrange(k + 1, l.len() as int);
    let k2 = idx_of(rest, '\t');
    if k2 < 0 {
        rest
    } else {
        rest.subrange(0, k2)
    }
}

/// A listing line the parser accepts: a tab-separated name and a
/// creation time in epoch seconds.
pub open spec fn line_ok(l: Seq<char>) -> bool {
    idx_of(l, '\t') >= 0 && parse_i64_chars(tab_time_field(l)) is Some
}

/// Why a listing cannot be read.
#[derive(Debug, Clone, Copy, PartialEq, Eq)]
pub enum InventoryError {
    /// A line without a tab-separated name and epoch-seconds time.
    BadLine,
}

/// One line of the listing as a snapshot.
fn parse_line(line: &str) -> (r: Option<Snapshot>)
    ensures
        r is Some <==> line_ok(line@),
        r is Some ==> r->0.path@ == tab_name(line@),
        r is Some ==> parse_i64_chars(tab_time_field(line@)) == Some(r->0.time as int),
{
    proof {
        lemma_idx_of(line@, '\t');
    }
    let n = line.unicode_len();
    let k = match find_char(line, '\t') {
        Some(k) => k,
        None => {
            return None;
        },
    };
    let name = line.substring_char(0, k);
    let rest = line.substring_char(k + 1, n);
    proof {
        lemma_idx_of(rest@, '\t');
    }
    let tf = match find_char(rest, '\t') {
        Some(k2) => rest.substring_char(0, k2),
        None => rest,
    };
    match parse_i64(tf) {
        Some(t) => Some(Snapshot { path: String::from_str(name), time: t }),
        None => None,
    }
}

/// Reads the tool's whole listing into snapshots. Every line must carry
/// a tab-separated name and creation time; otherwise the listing is
/// rejected.
pub fn parse_inventory(out: &str) -> (r: Result<Vec<Snapshot>, InventoryError>)
    ensures
        r is Ok <==> (forall|i: int|
            0 <= i < lines_of(out@).len() ==> line_ok(#[trigger] lines_of(out@)[i])),
        r is Ok ==> (r->Ok_0)@.len() == lines_of(out@).len(),
        r is Ok ==> forall|i: int|
            0 <= i < lines_of(out@).len() ==> (#[trigger] (r->Ok_0)@[i]).path@ == tab_name(
                lines_of(out@)[i],
            ) && parse_i64_chars(tab_time_field(lines_of(out@)[i])) == Some(
                (r->Ok_0)@[i].time as int,
            ),
{
    let n = out.unicode_len();
    let mut res: Vec<Snapshot> = Vec::new();
    let ghost mut done: Seq<Seq<char>> = Seq::empty();
    let mut pos: usize = 0;
    proof {
        assert(out@.skip(0) =~= out@);
    }
    while pos < n
        invariant
            0 <= pos <= n,
            n == out@.len(),
            lines_of(out@) == done + lines_of(out@.skip(pos as int)),
            res@.len() == done.len(),
            forall|i: int| 0 <= i < done.len() ==> line_ok(#[trigger] done[i]),
            forall|i: int|
                0 <= i < done.len() ==> (#[trigger] res@[i]).path@ == tab_name(done[i])
                    && parse_i64_chars(tab_time_field(done[i])) == Some(res@[i].time as int),
        decreases n - pos,
    {
        let rest = out.substring_char(pos, n);
        proof {
            assert(rest@ =~= out@.skip(pos as int));
            lemma_idx_of(rest@, '\n');
        }
        let (line, next) = match find_char(rest, '\n') {
            Some(k) => (rest.substring_char(0, k), pos + k + 1),
            None => (rest, n),
        };
        proof {
            let tail = out@.skip(pos as int);
            let k = idx_of(tail, '\n');
            if k >= 0 {
                assert(tail.subrange(k + 1, tail.len() as int) =~= out@.skip(
                    pos + k + 1,
                ));
                assert(lines_of(tail) == seq![tail.subrange(0, k)] + lines_of(
                    out@.skip(pos + k + 1),
                ));
                assert(line@ == tail.subrange(0, k));
            } else {
                assert(lines_of(tail) == seq![tail]);
                assert(out@.skip(n as int) =~= Seq::<char>::empty());
            }
        }
        match parse_line(line) {
            Some(s) => {
                res.push(s);
                proof {
                    done = done.push(line@);
                    assert(lines_of(out@) =~= done + lines_of(out@.skip(next as int)));
                }
            },
            None => {
                proof {
                    assert(lines_of(out@)[done.len() as int] == line@);
                    assert(!line_ok(lines_of(out@)[done.len() as int]));
                }
                return Err(InventoryError::BadLine);
            },
        }
        pos = next;
    }
    proof {
        assert(out@.skip(n as int) =~= Seq::<char>::empty());
        assert(lines_of(out@) =~= done);
    }
    Ok(res)
}

/// The managed snapshots of a raw listing, in listed order.
pub open spec fn managed_only(v: Seq<Snapshot>) -> Seq<Snapshot> {
    v.filter(|x: Snapshot| is_managed(x.path@))
}

/// Keeps only policy-managed snapshots; manual snapshots and those of
/// other tools take no part in policy or replication decisions.
pub fn filter_managed(v: Vec<Snapshot>) -> (r: Vec<Snapshot>)
    ensures
        r@ == managed_only(v@),
{
    let mut r: Vec<Snapshot> = Vec::new();
    proof {
        reveal(Seq::filter);
        assert(v@.take(0).filter(|x: Snapshot| is_managed(x.path@)) =~= Seq::<Snapshot>::empty());
    }
    let mut i: usize = 0;
    while i < v.len()
        invariant
            0 <= i <= v@.len(),
            r@ == managed_only(v@.take(i as int)),
        decreases v@.len() - i,
    {
        proof {
            reveal(Seq::filter);
            assert(v@.take(i + 1).drop_last() =~= v@.take(i as int));
            assert(v@.take(i + 1).last() == v@[i as int]);
        }
        if is_normal_snapshot(v[i].path.as_str()) {
            r.push(v[i].duplicate());
        }
        i += 1;
    }
    proof {
        assert(v@.take(v@.len() as int) =~= v@);
    }
    r
}

/// The checkpoints of job `job` in a raw bookmark listing, in listed
/// order.
pub open spec fn marks_only(v: Seq<Snapshot>, job: Seq<char>) -> Seq<Snapshot> {
    v.filter(|x: Snapshot| is_sync_mark(x.path@, job))
}

/// Keeps only the checkpoints of job `job`.
pub fn filter_bookmarks(v: Vec<Snapshot>, job: &str) -> (r: Vec<Snapshot>)
    ensures
        r@ == marks_only(v@, job@),
{
    let mut r: Vec<Snapshot> = Vec::new();
    proof {
        reveal(Seq::filter);
        assert(v@.take(0).filter(|x: Snapshot| is_sync_mark(x.path@, job@)) =~= Seq::<
            Snapshot,
        >::empty());
    }
    let mut i: usize = 0;
    while i < v.len()
        invariant
            0 <= i <= v@.len(),
            r@ == marks_only(v@.take(i as int), job@),
        decreases v@.len() - i,
    {
        proof {
            reveal(Seq::filter);
            assert(v@.take(i + 1).drop_last() =~= v@.take(i as int));
            assert(v@.take(i + 1).last() == v@[i as int]);
        }
        if is_sync_bookmark(v[i].path.as_str(), job) {
            r.push(v[i].duplicate());
        }
        i += 1;
    }
    proof {
        assert(v@.take(v@.len() as int) =~= v@);
    }
    r
}

} // verus!
