//! The tree walk: a scan-scoped state that decides, entry by entry, what to
//! descend into and which files to keep, with an explicit stack of pending
//! directories in place of recursion.
use std::collections::HashSet;
use vstd::prelude::*;

verus! {

broadcast use vstd::std_specs::hash::group_hash_axioms;

/// What a directory entry is, as read without following symbolic links.
#[derive(Clone, Copy, PartialEq, Eq, Structural, Debug)]
pub enum EntryKind {
    Symlink,
    Directory,
    File,
    Other,
}

/// What the walk reads of a directory entry: its kind, its identity (device
/// and inode) and its length in bytes.
#[derive(Clone, Copy, PartialEq, Eq, Structural, Debug)]
pub struct EntryMeta {
    pub kind: EntryKind,
    pub dev: u64,
    pub ino: u64,
    pub len: u64,
}

/// A regular file kept by the walk.
#[derive(Debug)]
pub struct FoundFile {
    pub path: String,
    pub size: u64,
    pub dev: u64,
    pub ino: u64,
}

/// What the walk did with one directory entry.
#[derive(Clone, Copy, PartialEq, Eq, Structural, Debug)]
pub enum Visit {
    /// Its metadata could not be read: it is skipped.
    Unreadable,
    /// A symbolic link: neither followed nor kept.
    SkippedLink,
    /// Neither a directory nor a regular file.
    SkippedOther,
    /// A directory: queued for the walk.
    Queued,
    /// A file already reached through another path.
    AlreadySeen,
    /// An empty file: never kept.
    SkippedEmpty,
    /// A file kept for comparison.
    Recorded,
}

/// One number for a (device, inode) pair.
pub open spec fn identity(dev: u64, ino: u64) -> u128 {
    (dev as int * 0x1_0000_0000_0000_0000 + ino as int) as u128
}

/// Every kept file has a positive size.
pub open spec fn nonempty_files(found: Seq<FoundFile>) -> bool {
    forall|i: int| 0 <= i < found.len() ==> #[trigger] found[i].size > 0
}

/// No two kept files share a (device, inode) pair.
pub open spec fn distinct_identities(found: Seq<FoundFile>) -> bool {
    forall|i: int, j: int|
        0 <= i < j < found.len() ==> !(#[trigger] found[i].dev == #[trigger] found[j].dev
            && found[i].ino == found[j].ino)
}

fn identity_key(dev: u64, ino: u64) -> (r: u128)
    ensures
        r == identity(dev, ino),
{
    (dev as u128) * 0x1_0000_0000_0000_0000u128 + (ino as u128)
}

/// The state of one scan: the directories still to read, the identities of
/// the files met so far, and the files kept, in order of discovery.
pub struct Walker {
    pending: Vec<String>,
    seen: HashSet<u128>,
    found: Vec<FoundFile>,
}

impl Walker {
    /// The directories still to read; the last is read next.
    pub closed spec fn pending(&self) -> Seq<String> {
        self.pending@
    }

    /// The identities of the regular files met so far.
    pub closed spec fn seen(&self) -> Set<u128> {
        self.seen@
    }

    /// The files kept so far, in order of discovery.
    pub closed spec fn found(&self) -> Seq<FoundFile> {
        self.found@
    }

    /// The kept files are non-empty, of distinct identities, and all met.
    pub closed spec fn wf(&self) -> bool {
        &&& nonempty_files(self.found@)
        &&& distinct_identities(self.found@)
        &&& forall|i: int|
            0 <= i < self.found@.len() ==> self.seen@.contains(
                identity(#[trigger] self.found@[i].dev, self.found@[i].ino),
            )
    }

    /// `next` is this state after the entry at `path`, with metadata `meta`
    /// (`None` where it could not be read), was handled with `outcome`.
    pub open spec fn visit_step(
        self,
        next: Walker,
        path: String,
        meta: Option<EntryMeta>,
        outcome: Visit,
    ) -> bool {
        let unchanged = next.pending() == self.pending() && next.seen() == self.seen()
            && next.found() == self.found();
        match meta {
            None => unchanged && outcome == Visit::Unreadable,
            Some(m) => match m.kind {
                EntryKind::Symlink => unchanged && outcome == Visit::SkippedLink,
                EntryKind::Other => unchanged && outcome == Visit::SkippedOther,
                EntryKind::Directory => {
                    &&& next.pending() == self.pending().push(path)
                    &&& next.seen() == self.seen()
                    &&& next.found() == self.found()
                    &&& outcome == Visit::Queued
                },
                EntryKind::File => if self.seen().contains(identity(m.dev, m.ino)) {
                    unchanged && outcome == Visit::AlreadySeen
                } else {
                    &&& next.pending() == self.pending()
                    &&& next.seen() == self.seen().insert(identity(m.dev, m.ino))
                    &&& if m.len == 0 {
                        next.found() == self.found() && outcome == Visit::SkippedEmpty
                    } else {
                        &&& next.found() == self.found().push(
                            FoundFile { path, size: m.len, dev: m.dev, ino: m.ino },
                        )
                        &&& outcome == Visit::Recorded
                    }
                },
            },
        }
    }

    /// A scan with nothing queued and nothing met.
    pub fn new() -> (w: Walker)
        ensures
            w.wf(),
            w.pending() == Seq::<String>::empty(),
            w.seen() == Set::<u128>::empty(),
            w.found() == Seq::<FoundFile>::empty(),
    {
        Walker { pending: Vec::new(), seen: HashSet::new(), found: Vec::new() }
    }

    /// Queues a root directory.
    pub fn push_root(&mut self, dir: String)
        requires
            old(self).wf(),
        ensures
            final(self).wf(),
            final(self).pending() == old(self).pending().push(dir),
            final(self).seen() == old(self).seen(),
            final(self).found() == old(self).found(),
    {
        self.pending.push(dir);
    }

    /// Takes the directory to read next, if any is left.
    pub fn next_dir(&mut self) -> (r: Option<String>)
        requires
            old(self).wf(),
        ensures
            final(self).wf(),
            final(self).seen() == old(self).seen(),
            final(self).found() == old(self).found(),
            match r {
                Some(d) => {
                    &&& old(self).pending().len() > 0
                    &&& d == old(self).pending().last()
                    &&& final(self).pending() == old(self).pending().drop_last()
                },
                None => old(self).pending().len() == 0 && final(self).pending() == old(
                    self,
                ).pending(),
            },
    {
        self.pending.pop()
    }

    /// Handles one directory entry: symbolic links are neither followed nor
    /// kept, directories are queued, and a regular file is kept when it is
    /// not empty and its (device, inode) pair has not been met before.
    pub fn visit(&mut self, path: String, meta: Option<EntryMeta>) -> (r: Visit)
        requires
            old(self).wf(),
        ensures
            final(self).wf(),
            old(self).visit_step(*final(self), path, meta, r),
    {
        match meta {
            None => Visit::Unreadable,
            Some(m) => match m.kind {
                EntryKind::Symlink => Visit::SkippedLink,
                EntryKind::Other => Visit::SkippedOther,
                EntryKind::Directory => {
                    self.pending.push(path);
                    Visit::Queued
                },
                EntryKind::File => {
                    let id = identity_key(m.dev, m.ino);
                    if self.seen.contains(&id) {
                        Visit::AlreadySeen
                    } else {
                        self.seen.insert(id);
                        if m.len == 0 {
                            Visit::SkippedEmpty
                        } else {
                            let ghost before = self.found@;
                            self.found.push(FoundFile { path, size: m.len, dev: m.dev, ino: m.ino });
                            assert forall|i: int| 0 <= i < before.len() implies !(
                            #[trigger] before[i].dev == m.dev && before[i].ino == m.ino) by {
                                assert(self.seen@.contains(identity(before[i].dev, before[i].ino)));
                            }
                            Visit::Recorded
                        }
                    }
                },
            },
        }
    }

    /// The files kept by the scan, in order of discovery.
    pub fn into_found(self) -> (r: Vec<FoundFile>)
        requires
            self.wf(),
        ensures
            r@ == self.found(),
            nonempty_files(r@),
            distinct_identities(r@),
    {
        self.found
    }
}

/// A symbolic link is neither kept nor queued, whatever it points to.
pub proof fn lemma_symlink_ignored(
    w: Walker,
    next: Walker,
    path: String,
    meta: Option<EntryMeta>,
    outcome: Visit,
)
    requires
        w.visit_step(next, path, meta, outcome),
        meta is Some && meta->Some_0.kind == EntryKind::Symlink,
    ensures
        next.pending() == w.pending(),
        next.found() == w.found(),
        next.seen() == w.seen(),
        outcome == Visit::SkippedLink,
{
}

/// Two entries with one (device, inode) pair add at most one kept file: the
/// second one is reported as already seen.
pub proof fn lemma_one_path_per_identity(
    w0: Walker,
    w1: Walker,
    w2: Walker,
    p1: String,
    m1: EntryMeta,
    o1: Visit,
    p2: String,
    m2: EntryMeta,
    o2: Visit,
)
    requires
        w0.visit_step(w1, p1, Some(m1), o1),
        w1.visit_step(w2, p2, Some(m2), o2),
        m1.kind == EntryKind::File,
        m2.kind == EntryKind::File,
        m1.dev == m2.dev,
        m1.ino == m2.ino,
    ensures
        o2 == Visit::AlreadySeen,
        w2.found() == w1.found(),
        w2.found().len() <= w0.found().len() + 1,
{
    assert(w1.seen().contains(identity(m1.dev, m1.ino)));
}

/// Every step of the walk keeps the files it holds non-empty and of
/// distinct (device, inode) pairs.
pub proof fn lemma_visit_keeps_files_distinct(
    w: Walker,
    next: Walker,
    path: String,
    meta: Option<EntryMeta>,
    outcome: Visit,
)
    requires
        w.wf(),
        w.visit_step(next, path, meta, outcome),
    ensures
        nonempty_files(next.found()),
        distinct_identities(next.found()),
{
    if meta is Some {
        let m = meta->Some_0;
        if m.kind == EntryKind::File && !w.seen().contains(identity(m.dev, m.ino)) && m.len != 0 {
            let before = w.found();
            assert forall|i: int| 0 <= i < before.len() implies !(#[trigger] before[i].dev == m.dev
                && before[i].ino == m.ino) by {
                assert(w.seen().contains(identity(before[i].dev, before[i].ino)));
            }
            assert(next.found()[before.len() as int].size == m.len);
        }
    }
}

/// The walk is deterministic: one entry handled from one state gives one
/// next state and one outcome.
pub proof fn lemma_visit_deterministic(
    w: Walker,
    a: Walker,
    b: Walker,
    path: String,
    meta: Option<EntryMeta>,
    oa: Visit,
    ob: Visit,
)
    requires
        w.visit_step(a, path, meta, oa),
        w.visit_step(b, path, meta, ob),
    ensures
        a.pending() == b.pending(),
        a.seen() == b.seen(),
        a.found() == b.found(),
        oa == ob,
{
}

} // verus!
