//! An in-memory filesystem.
//!
//! [`MemFs`] implements [`FileSystem`] over plain tables of directory and
//! file paths, never fails, and counts how many reads it has answered, so
//! a test can observe exactly how much of the tree a walk has touched.
//! Trees are built with [`MemFs::add_dir`] and [`MemFs::add_file`], which
//! keep the tables well formed: no duplicate paths, and every entry
//! created inside an existing directory.

use vstd::prelude::*;
use crate::fs::FileSystem;
use crate::fs::ListingStep;
use crate::fs::PathKind;
use crate::fs::fs_child_paths;
use crate::fs::fs_model_wf;
use crate::path::FsPath;
use crate::path::is_prefix_of;
use crate::path::path_views;

verus! {

/// An in-memory filesystem: a table of directory paths, a table of file
/// paths, and a count of the reads answered so far.
pub struct MemFs {
    dirs_list: Vec<FsPath>,
    files_list: Vec<FsPath>,
    reads: u64,
}

/// An open listing over an in-memory directory: the entry paths, and how
/// many of them have been handed out.
pub struct MemListing {
    entries: Vec<FsPath>,
    pos: usize,
}

/// Whether some path in `list` has the same components as `p`.
fn list_contains(list: &Vec<FsPath>, p: &FsPath) -> (r: bool)
    ensures
        r == path_views(list@).to_set().contains(p@),
{
    let mut i: usize = 0;
    while i < list.len()
        invariant
            i <= list.len(),
            forall|j: int| 0 <= j < i ==> path_views(list@)[j] != p@,
        decreases list.len() - i,
    {
        if list[i].same_as(p) {
            proof {
                assert(path_views(list@)[i as int] == p@);
                assert(path_views(list@).contains(p@));
            }
            return true;
        }
        i = i + 1;
    }
    proof {
        if path_views(list@).to_set().contains(p@) {
            let j = choose|j: int| 0 <= j < path_views(list@).len() && path_views(list@)[j] == p@;
            assert(path_views(list@)[j] != p@);
        }
    }
    false
}

/// `q` names an entry directly inside `p`.
pub open spec fn is_child_view(p: Seq<Seq<u8>>, q: Seq<Seq<u8>>) -> bool {
    q.len() == p.len() + 1 && is_prefix_of(p, q)
}

/// Append to `entries` a copy of every path in `list` that is directly
/// inside `p`. `list` must hold no duplicates and share no path with
/// what `entries` already holds.
fn collect_children(list: &Vec<FsPath>, p: &FsPath, entries: &mut Vec<FsPath>)
    requires
        forall|i: int, j: int|
            0 <= i < j < path_views(list@).len() ==> path_views(list@)[i] != path_views(list@)[j],
        forall|a: int|
            0 <= a < path_views(old(entries)@).len() ==> !path_views(list@).contains(
                #[trigger] path_views(old(entries)@)[a],
            ),
        forall|a: int, b: int|
            0 <= a < b < path_views(old(entries)@).len() ==> path_views(old(entries)@)[a]
                != path_views(old(entries)@)[b],
    ensures
        path_views(final(entries)@).len() >= path_views(old(entries)@).len(),
        path_views(final(entries)@).take(path_views(old(entries)@).len() as int) == path_views(
            old(entries)@,
        ),
        forall|a: int, b: int|
            0 <= a < b < path_views(final(entries)@).len() ==> path_views(final(entries)@)[a]
                != path_views(final(entries)@)[b],
        forall|a: int|
            path_views(old(entries)@).len() <= a < path_views(final(entries)@).len()
                ==> path_views(list@).contains(#[trigger] path_views(final(entries)@)[a])
                && is_child_view(p@, path_views(final(entries)@)[a]),
        forall|j: int|
            0 <= j < path_views(list@).len() && is_child_view(p@, #[trigger] path_views(list@)[j])
                ==> path_views(final(entries)@).contains(path_views(list@)[j]),
{
    let ghost l = path_views(list@);
    let ghost e0 = path_views(old(entries)@);
    let mut i: usize = 0;
    while i < list.len()
        invariant
            i <= list.len(),
            l == path_views(list@),
            e0 == path_views(old(entries)@),
            forall|i2: int, j2: int| 0 <= i2 < j2 < l.len() ==> l[i2] != l[j2],
            forall|a: int| 0 <= a < e0.len() ==> !l.contains(#[trigger] e0[a]),
            path_views(entries@).len() >= e0.len(),
            path_views(entries@).take(e0.len() as int) == e0,
            forall|a: int, b: int|
                0 <= a < b < path_views(entries@).len() ==> path_views(entries@)[a] != path_views(
                    entries@,
                )[b],
            forall|a: int|
                e0.len() <= a < path_views(entries@).len() ==> is_child_view(
                    p@,
                    #[trigger] path_views(entries@)[a],
                ) && exists|j: int| 0 <= j < i && l[j] == path_views(entries@)[a],
            forall|j: int|
                0 <= j < i && is_child_view(p@, #[trigger] l[j]) ==> path_views(
                    entries@,
                ).contains(l[j]),
        decreases list.len() - i,
    {
        proof {
            assert(l[i as int] == list@[i as int]@);
        }
        if list[i].is_child_of(p) {
            let ghost eprev = path_views(entries@);
            entries.push(list[i].duplicate());
            proof {
                let ecur = path_views(entries@);
                assert(ecur =~= eprev.push(l[i as int]));
                assert forall|a: int| 0 <= a < eprev.len() implies eprev[a] != l[i as int] by {
                    if eprev[a] == l[i as int] {
                        if a < e0.len() {
                            assert(e0[a] == eprev[a]);
                            assert(l.contains(e0[a]));
                        } else {
                            let j = choose|j: int| 0 <= j < i && l[j] == eprev[a];
                            assert(l[j] == l[i as int]);
                        }
                    }
                }
                assert(ecur.take(e0.len() as int) =~= e0);
                assert(ecur[ecur.len() - 1] == l[i as int]);
                assert(ecur.contains(l[i as int]));
                assert forall|j: int|
                    0 <= j < i + 1 && is_child_view(p@, #[trigger] l[j]) implies ecur.contains(
                    l[j],
                ) by {
                    if j < i {
                        assert(eprev.contains(l[j]));
                        let a = choose|a: int| 0 <= a < eprev.len() && eprev[a] == l[j];
                        assert(ecur[a] == l[j]);
                    }
                }
            }
        }
        i = i + 1;
    }
}

/// Appending a path to a table adds exactly it to the table's set.
proof fn to_set_push(s: Seq<Seq<Seq<u8>>>, x: Seq<Seq<u8>>)
    ensures
        s.push(x).to_set() == s.to_set().insert(x),
{
    assert forall|q: Seq<Seq<u8>>|
        s.push(x).to_set().contains(q) implies s.to_set().insert(x).contains(q) by {
        let i = choose|i: int| 0 <= i < s.push(x).len() && s.push(x)[i] == q;
        if i < s.len() {
            assert(s[i] == q);
        }
    }
    assert forall|q: Seq<Seq<u8>>|
        s.to_set().insert(x).contains(q) implies s.push(x).to_set().contains(q) by {
        if q == x {
            assert(s.push(x)[s.len() as int] == q);
        } else {
            let i = choose|i: int| 0 <= i < s.len() && s[i] == q;
            assert(s.push(x)[i] == q);
        }
    }
    assert(s.push(x).to_set() =~= s.to_set().insert(x));
}

/// A consistent pair of path tables is a well-formed filesystem model.
proof fn wf_from_tables(d: Seq<Seq<Seq<u8>>>, f: Seq<Seq<Seq<u8>>>)
    requires
        forall|i: int, j: int|
            #![trigger d[i], f[j]]
            0 <= i < d.len() && 0 <= j < f.len() ==> d[i] != f[j],
        forall|i: int, k: int|
            #![trigger d[i].take(k)]
            0 <= i < d.len() && 0 <= k < d[i].len() ==> d.to_set().contains(d[i].take(k)),
        forall|i: int, k: int|
            #![trigger f[i].take(k)]
            0 <= i < f.len() && 0 <= k < f[i].len() ==> d.to_set().contains(f[i].take(k)),
    ensures
        fs_model_wf(d.to_set(), f.to_set()),
{
    broadcast use vstd::seq_lib::seq_to_set_is_finite;

    assert forall|q: Seq<Seq<u8>>| f.to_set().contains(q) implies !d.to_set().contains(q) by {
        if d.to_set().contains(q) {
            let i = choose|i: int| 0 <= i < d.len() && d[i] == q;
            let j = choose|j: int| 0 <= j < f.len() && f[j] == q;
            assert(d[i] != f[j]);
        }
    }
    assert forall|q: Seq<Seq<u8>>, k: int|
        #![trigger d.to_set().contains(q), q.take(k)]
        d.to_set().contains(q) && 0 <= k < q.len() implies d.to_set().contains(q.take(k)) by {
        let i = choose|i: int| 0 <= i < d.len() && d[i] == q;
        assert(d.to_set().contains(d[i].take(k)));
    }
    assert forall|q: Seq<Seq<u8>>, k: int|
        #![trigger f.to_set().contains(q), q.take(k)]
        f.to_set().contains(q) && 0 <= k < q.len() implies d.to_set().contains(q.take(k)) by {
        let i = choose|i: int| 0 <= i < f.len() && f[i] == q;
        assert(d.to_set().contains(f[i].take(k)));
    }
}

impl MemFs {
    /// The tables stay consistent: no path listed twice, the root always
    /// a directory, and every listed path's ancestors all directories.
    #[verifier::type_invariant]
    closed spec fn inv(&self) -> bool {
        let d = path_views(self.dirs_list@);
        let f = path_views(self.files_list@);
        &&& forall|i: int, j: int| 0 <= i < j < d.len() ==> d[i] != d[j]
        &&& forall|i: int, j: int| 0 <= i < j < f.len() ==> f[i] != f[j]
        &&& forall|i: int, j: int|
            #![trigger d[i], f[j]]
            0 <= i < d.len() && 0 <= j < f.len() ==> d[i] != f[j]
        &&& d.len() > 0
        &&& d[0] == Seq::<Seq<u8>>::empty()
        &&& forall|i: int, k: int|
            #![trigger d[i].take(k)]
            0 <= i < d.len() && 0 <= k < d[i].len() ==> d.to_set().contains(d[i].take(k))
        &&& forall|i: int, k: int|
            #![trigger f[i].take(k)]
            0 <= i < f.len() && 0 <= k < f[i].len() ==> d.to_set().contains(f[i].take(k))
    }

    /// How many reads this filesystem has answered.
    pub closed spec fn spec_reads(&self) -> u64 {
        self.reads
    }

    /// An empty filesystem: just the root directory, no reads answered.
    pub fn new() -> (r: MemFs)
        ensures
            r.dirs() == Set::<Seq<Seq<u8>>>::empty().insert(Seq::<Seq<u8>>::empty()),
            r.notdirs() == Set::<Seq<Seq<u8>>>::empty(),
            r.spec_reads() == 0,
            !r.may_fail(),
            fs_model_wf(r.dirs(), r.notdirs()),
    {
        let mut dirs_list: Vec<FsPath> = Vec::new();
        dirs_list.push(FsPath::root());
        let files_list: Vec<FsPath> = Vec::new();
        let r = MemFs { dirs_list, files_list, reads: 0 };
        proof {
            assert(r.inv());
            wf_from_tables(path_views(r.dirs_list@), path_views(r.files_list@));
            assert(r.dirs() =~= Set::<Seq<Seq<u8>>>::empty().insert(Seq::<Seq<u8>>::empty()));
            assert(r.notdirs() =~= Set::<Seq<Seq<u8>>>::empty());
        }
        r
    }

    /// Record one answered read.
    fn bump_reads(&mut self)
        ensures
            final(self).dirs_list == old(self).dirs_list,
            final(self).files_list == old(self).files_list,
    {
        proof {
            use_type_invariant(&*self);
        }
        if self.reads < u64::MAX {
            self.reads = self.reads + 1;
        }
    }

    /// Create the directory at `p`, whose parent must already be a
    /// directory and which must not exist yet; reports whether it did.
    pub fn add_dir(&mut self, p: &FsPath) -> (ok: bool)
        ensures
            ok <==> (p@.len() > 0 && old(self).dirs().contains(p@.drop_last()) && !old(
                self,
            ).dirs().contains(p@) && !old(self).notdirs().contains(p@)),
            ok ==> final(self).dirs() == old(self).dirs().insert(p@),
            !ok ==> final(self).dirs() == old(self).dirs(),
            final(self).notdirs() == old(self).notdirs(),
            final(self).spec_reads() == old(self).spec_reads(),
            final(self).may_fail() == old(self).may_fail(),
            fs_model_wf(final(self).dirs(), final(self).notdirs()),
    {
        proof {
            use_type_invariant(&*self);
            wf_from_tables(path_views(self.dirs_list@), path_views(self.files_list@));
        }
        if p.depth() == 0 {
            return false;
        }
        let parent = p.parent();
        if !list_contains(&self.dirs_list, &parent) {
            return false;
        }
        if list_contains(&self.dirs_list, p) {
            return false;
        }
        if list_contains(&self.files_list, p) {
            return false;
        }
        // take the tables out whole, so that the type invariant is only
        // ever judged on fully rebuilt values
        let mut taken = MemFs::new();
        core::mem::swap(self, &mut taken);
        let MemFs { mut dirs_list, files_list, reads } = taken;
        dirs_list.push(p.duplicate());
        proof {
            let d_old = path_views(old(self).dirs_list@);
            let d = path_views(dirs_list@);
            let f = path_views(files_list@);
            assert(d =~= d_old.push(p@));
            to_set_push(d_old, p@);
            assert(d.to_set() == d_old.to_set().insert(p@));
            assert forall|i: int, k: int|
                #![trigger d[i].take(k)]
                0 <= i < d.len() && 0 <= k < d[i].len() implies d.to_set().contains(
                d[i].take(k),
            ) by {
                if i < d_old.len() {
                    assert(d[i] == d_old[i]);
                    assert(d_old.to_set().contains(d_old[i].take(k)));
                } else {
                    assert(d[i] == p@);
                    if k == p@.len() - 1 {
                        assert(p@.take(k) =~= p@.drop_last());
                        assert(d_old.to_set().contains(p@.drop_last()));
                    } else {
                        assert(p@.take(k) =~= p@.drop_last().take(k));
                        assert(d_old.to_set().contains(p@.drop_last()));
                        let j = choose|j: int|
                            0 <= j < d_old.len() && d_old[j] == p@.drop_last();
                        assert(d_old.to_set().contains(d_old[j].take(k)));
                    }
                }
            }
            assert forall|i: int, k: int|
                #![trigger f[i].take(k)]
                0 <= i < f.len() && 0 <= k < f[i].len() implies d.to_set().contains(
                f[i].take(k),
            ) by {
                assert(d_old.to_set().contains(f[i].take(k)));
            }
            wf_from_tables(d, f);
        }
        let mut rebuilt = MemFs { dirs_list, files_list, reads };
        core::mem::swap(self, &mut rebuilt);
        true
    }

    /// Create the file at `p`, whose parent must already be a directory
    /// and which must not exist yet; reports whether it did.
    pub fn add_file(&mut self, p: &FsPath) -> (ok: bool)
        ensures
            ok <==> (p@.len() > 0 && old(self).dirs().contains(p@.drop_last()) && !old(
                self,
            ).dirs().contains(p@) && !old(self).notdirs().contains(p@)),
            ok ==> final(self).notdirs() == old(self).notdirs().insert(p@),
            !ok ==> final(self).notdirs() == old(self).notdirs(),
            final(self).dirs() == old(self).dirs(),
            final(self).spec_reads() == old(self).spec_reads(),
            final(self).may_fail() == old(self).may_fail(),
            fs_model_wf(final(self).dirs(), final(self).notdirs()),
    {
        proof {
            use_type_invariant(&*self);
            wf_from_tables(path_views(self.dirs_list@), path_views(self.files_list@));
        }
        if p.depth() == 0 {
            return false;
        }
        let parent = p.parent();
        if !list_contains(&self.dirs_list, &parent) {
            return false;
        }
        if list_contains(&self.dirs_list, p) {
            return false;
        }
        if list_contains(&self.files_list, p) {
            return false;
        }
        let mut taken = MemFs::new();
        core::mem::swap(self, &mut taken);
        let MemFs { dirs_list, mut files_list, reads } = taken;
        files_list.push(p.duplicate());
        proof {
            let d = path_views(dirs_list@);
            let f_old = path_views(old(self).files_list@);
            let f = path_views(files_list@);
            assert(f =~= f_old.push(p@));
            to_set_push(f_old, p@);
            assert(f.to_set() == f_old.to_set().insert(p@));
            assert forall|i: int, k: int|
                #![trigger f[i].take(k)]
                0 <= i < f.len() && 0 <= k < f[i].len() implies d.to_set().contains(
                f[i].take(k),
            ) by {
                if i < f_old.len() {
                    assert(f_old.to_set().contains(f_old[i])) by {
                        assert(f_old.contains(f_old[i]));
                    }
                    assert(f[i] == f_old[i]);
                } else {
                    assert(f[i] == p@);
                    if k == p@.len() - 1 {
                        assert(p@.take(k) =~= p@.drop_last());
                    } else {
                        assert(p@.take(k) =~= p@.drop_last().take(k));
                        let j = choose|j: int| 0 <= j < d.len() && d[j] == p@.drop_last();
                        assert(d.to_set().contains(d[j].take(k)));
                    }
                }
            }
            wf_from_tables(d, f);
        }
        let mut rebuilt = MemFs { dirs_list, files_list, reads };
        core::mem::swap(self, &mut rebuilt);
        true
    }

    /// How many reads the filesystem has answered so far. Only
    /// classification, open and read-entry calls count; construction and
    /// tree building do not.
    pub fn read_count(&self) -> (r: u64)
        ensures
            r == self.spec_reads(),
    {
        self.reads
    }
}

impl FileSystem for MemFs {
    type Listing = MemListing;

    closed spec fn dirs(&self) -> Set<Seq<Seq<u8>>> {
        path_views(self.dirs_list@).to_set()
    }

    closed spec fn notdirs(&self) -> Set<Seq<Seq<u8>>> {
        path_views(self.files_list@).to_set()
    }

    closed spec fn may_fail(&self) -> bool {
        false
    }

    closed spec fn remaining(l: &MemListing) -> Seq<Seq<Seq<u8>>> {
        if l.pos <= l.entries.len() {
            path_views(l.entries@).subrange(l.pos as int, l.entries.len() as int)
        } else {
            Seq::empty()
        }
    }

    fn classify(&mut self, p: &FsPath) -> (k: PathKind) {
        self.bump_reads();
        if list_contains(&self.dirs_list, p) {
            PathKind::Directory
        } else if list_contains(&self.files_list, p) {
            PathKind::NotDirectory
        } else {
            PathKind::Missing
        }
    }

    fn open_dir(&mut self, p: &FsPath) -> (r: Option<MemListing>) {
        proof {
            use_type_invariant(&*self);
        }
        self.bump_reads();
        if !list_contains(&self.dirs_list, p) {
            return None;
        }
        let ghost d = path_views(self.dirs_list@);
        let ghost f = path_views(self.files_list@);
        let mut entries: Vec<FsPath> = Vec::new();
        collect_children(&self.dirs_list, p, &mut entries);
        let ghost e_mid = path_views(entries@);
        proof {
            assert forall|a: int| 0 <= a < e_mid.len() implies !f.contains(#[trigger] e_mid[a]) by {
                assert(d.contains(e_mid[a]));
                let j = choose|j: int| 0 <= j < d.len() && d[j] == e_mid[a];
                if f.contains(e_mid[a]) {
                    let j2 = choose|j2: int| 0 <= j2 < f.len() && f[j2] == e_mid[a];
                    assert(d[j] != f[j2]);
                }
            }
        }
        collect_children(&self.files_list, p, &mut entries);
        let ghost e = path_views(entries@);
        let listing = MemListing { entries, pos: 0 };
        proof {
            let rem = Self::remaining(&listing);
            assert(rem =~= e);
            let child_set = fs_child_paths(self.dirs(), self.notdirs(), p@);
            assert forall|q: Seq<Seq<u8>>| rem.to_set().contains(q) implies child_set.contains(
                q,
            ) by {
                let a = choose|a: int| 0 <= a < e.len() && e[a] == q;
                if a < e_mid.len() {
                    assert(e[a] == e_mid[a]);
                    assert(d.contains(q));
                } else {
                    assert(f.contains(q));
                }
            }
            assert forall|q: Seq<Seq<u8>>| child_set.contains(q) implies rem.to_set().contains(
                q,
            ) by {
                if d.contains(q) {
                    let j = choose|j: int| 0 <= j < d.len() && d[j] == q;
                    assert(e_mid.contains(q));
                    let a = choose|a: int| 0 <= a < e_mid.len() && e_mid[a] == q;
                    assert(e[a] == e_mid[a]);
                    assert(e.contains(q));
                } else {
                    let j = choose|j: int| 0 <= j < f.len() && f[j] == q;
                    assert(e.contains(q));
                }
            }
            assert(rem.to_set() =~= child_set);
        }
        Some(listing)
    }

    fn next_entry(&mut self, l: &mut MemListing) -> (s: ListingStep) {
        self.bump_reads();
        if l.pos < l.entries.len() {
            let path = l.entries[l.pos].duplicate();
            l.pos = l.pos + 1;
            proof {
                assert(Self::remaining(final(l)) =~= Self::remaining(old(l)).drop_first());
            }
            ListingStep::Entry(path)
        } else {
            ListingStep::End
        }
    }
}

} // verus!
