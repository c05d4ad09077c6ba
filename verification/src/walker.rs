//! The traversal engine.
//!
//! [`FileFilter`] walks a directory tree depth first, using an explicit
//! stack of open listings instead of recursion, and yields one result per
//! `next` call: a file path that every registered predicate accepts, or
//! an error for one failed filesystem operation. Construction touches no
//! filesystem; all reads happen as results are pulled.
//!
//! The proofs track the walker's *pending files*: the files still
//! reachable from the unconsumed start path or from the entries the open
//! listings have yet to yield. Every `next` call only ever removes
//! pending files, each removed file was either yielded or rejected by a
//! predicate (or lost to a filesystem error), and the walk ends when no
//! file is pending. Termination follows from the pending set shrinking.

use vstd::prelude::*;
use vstd::set_lib::lemma_len_subset;
use crate::filter::PathPredicate;
use crate::filter::all_accept;
use crate::fs::FileSystem;
use crate::fs::ListingStep;
use crate::fs::PathKind;
use crate::fs::WalkError;
use crate::fs::distinct_paths;
use crate::fs::fs_child_paths;
use crate::fs::fs_model_wf;
use crate::fs::files_under;
use crate::fs::subtree_paths;
use crate::path::FsPath;
use crate::path::is_prefix_of;
use crate::path::path_views;

verus! {

/// The entries an open listing has yet to yield are well formed: no
/// duplicates, all of the same depth (they are siblings), and all known
/// to the filesystem.
spec fn entries_wf(
    dirs: Set<Seq<Seq<u8>>>,
    notdirs: Set<Seq<Seq<u8>>>,
    r: Seq<Seq<Seq<u8>>>,
) -> bool {
    &&& distinct_paths(r)
    &&& forall|i: int, j: int|
        #![trigger r[i], r[j]]
        0 <= i < r.len() && 0 <= j < r.len() ==> r[i].len() == r[j].len()
    &&& forall|i: int|
        0 <= i < r.len() ==> dirs.contains(#[trigger] r[i]) || notdirs.contains(r[i])
}

/// The paths still reachable from a listing's unread entries: the union
/// of the entries' subtrees.
spec fn pend_entries(
    dirs: Set<Seq<Seq<u8>>>,
    notdirs: Set<Seq<Seq<u8>>>,
    r: Seq<Seq<Seq<u8>>>,
) -> Set<Seq<Seq<u8>>>
    decreases r.len(),
{
    if r.len() == 0 {
        Set::empty()
    } else {
        subtree_paths(dirs, notdirs, r[0]).union(pend_entries(dirs, notdirs, r.drop_first()))
    }
}

/// The paths still reachable from any listing on the stack.
spec fn stack_pend<FS: FileSystem>(
    dirs: Set<Seq<Seq<u8>>>,
    notdirs: Set<Seq<Seq<u8>>>,
    stack: Seq<FS::Listing>,
) -> Set<Seq<Seq<u8>>>
    decreases stack.len(),
{
    if stack.len() == 0 {
        Set::empty()
    } else {
        stack_pend::<FS>(dirs, notdirs, stack.drop_last()).union(
            pend_entries(dirs, notdirs, FS::remaining(&stack.last())),
        )
    }
}

/// The stack is well formed: every listing's unread entries are well
/// formed, and no path is reachable from two different listings. This is
/// what makes each file reachable at most once.
spec fn stack_wf<FS: FileSystem>(
    dirs: Set<Seq<Seq<u8>>>,
    notdirs: Set<Seq<Seq<u8>>>,
    stack: Seq<FS::Listing>,
) -> bool
    decreases stack.len(),
{
    if stack.len() == 0 {
        true
    } else {
        &&& stack_wf::<FS>(dirs, notdirs, stack.drop_last())
        &&& entries_wf(dirs, notdirs, FS::remaining(&stack.last()))
        &&& pend_entries(dirs, notdirs, FS::remaining(&stack.last())).disjoint(
            stack_pend::<FS>(dirs, notdirs, stack.drop_last()),
        )
    }
}

/// A member of `p`'s subtree starts with `p`.
proof fn lemma_subtree_member(
    dirs: Set<Seq<Seq<u8>>>,
    notdirs: Set<Seq<Seq<u8>>>,
    p: Seq<Seq<u8>>,
    q: Seq<Seq<u8>>,
)
    requires
        subtree_paths(dirs, notdirs, p).contains(q),
    ensures
        q.len() >= p.len(),
        q.take(p.len() as int) == p,
{
    if q == p {
        assert(q.take(p.len() as int) =~= p);
    }
}

/// The subtrees of two distinct sibling paths share no path.
proof fn lemma_sibling_subtrees_disjoint(
    dirs: Set<Seq<Seq<u8>>>,
    notdirs: Set<Seq<Seq<u8>>>,
    a: Seq<Seq<u8>>,
    b: Seq<Seq<u8>>,
)
    requires
        a.len() == b.len(),
        a != b,
    ensures
        subtree_paths(dirs, notdirs, a).disjoint(subtree_paths(dirs, notdirs, b)),
{
    assert forall|q: Seq<Seq<u8>>|
        subtree_paths(dirs, notdirs, a).contains(q) implies !subtree_paths(
        dirs,
        notdirs,
        b,
    ).contains(q) by {
        lemma_subtree_member(dirs, notdirs, a, q);
        if subtree_paths(dirs, notdirs, b).contains(q) {
            lemma_subtree_member(dirs, notdirs, b, q);
        }
    }
}

/// Well-formedness of listing entries survives consuming the first one.
proof fn lemma_entries_wf_drop_first(
    dirs: Set<Seq<Seq<u8>>>,
    notdirs: Set<Seq<Seq<u8>>>,
    r: Seq<Seq<Seq<u8>>>,
)
    requires
        entries_wf(dirs, notdirs, r),
        r.len() > 0,
    ensures
        entries_wf(dirs, notdirs, r.drop_first()),
{
    let t = r.drop_first();
    assert forall|i: int| 0 <= i < t.len() implies dirs.contains(#[trigger] t[i])
        || notdirs.contains(t[i]) by {
        assert(t[i] == r[i + 1]);
    }
    assert forall|i: int, j: int|
        #![trigger t[i], t[j]]
        0 <= i < t.len() && 0 <= j < t.len() implies t[i].len() == t[j].len() by {
        assert(t[i] == r[i + 1]);
        assert(t[j] == r[j + 1]);
    }
    assert forall|i: int, j: int| 0 <= i < j < t.len() implies t[i] != t[j] by {
        assert(t[i] == r[i + 1]);
        assert(t[j] == r[j + 1]);
    }
}

/// What is reachable from a listing's entries is known to the
/// filesystem, hence a finite set.
proof fn lemma_pend_entries_finite(
    dirs: Set<Seq<Seq<u8>>>,
    notdirs: Set<Seq<Seq<u8>>>,
    r: Seq<Seq<Seq<u8>>>,
)
    requires
        fs_model_wf(dirs, notdirs),
        forall|i: int| 0 <= i < r.len() ==> dirs.contains(#[trigger] r[i]) || notdirs.contains(
            r[i],
        ),
    ensures
        pend_entries(dirs, notdirs, r).subset_of(dirs.union(notdirs)),
        pend_entries(dirs, notdirs, r).finite(),
    decreases r.len(),
{
    broadcast use vstd::set::axiom_set_union_finite;

    if r.len() > 0 {
        let t = r.drop_first();
        assert forall|i: int| 0 <= i < t.len() implies dirs.contains(#[trigger] t[i])
            || notdirs.contains(t[i]) by {
            assert(t[i] == r[i + 1]);
        }
        lemma_pend_entries_finite(dirs, notdirs, t);
        assert(subtree_paths(dirs, notdirs, r[0]).subset_of(dirs.union(notdirs)));
    }
    lemma_len_subset(
        pend_entries(dirs, notdirs, r),
        dirs.union(notdirs),
    );
}

/// The subtree of the first entry is disjoint from what the rest of the
/// listing reaches.
proof fn lemma_first_subtree_disjoint_rest(
    dirs: Set<Seq<Seq<u8>>>,
    notdirs: Set<Seq<Seq<u8>>>,
    p: Seq<Seq<u8>>,
    r: Seq<Seq<Seq<u8>>>,
)
    requires
        forall|i: int| 0 <= i < r.len() ==> (#[trigger] r[i]).len() == p.len() && r[i] != p,
    ensures
        subtree_paths(dirs, notdirs, p).disjoint(pend_entries(dirs, notdirs, r)),
    decreases r.len(),
{
    if r.len() > 0 {
        lemma_sibling_subtrees_disjoint(dirs, notdirs, p, r[0]);
        let t = r.drop_first();
        assert forall|i: int| 0 <= i < t.len() implies (#[trigger] t[i]).len() == p.len() && t[i]
            != p by {
            assert(t[i] == r[i + 1]);
        }
        lemma_first_subtree_disjoint_rest(dirs, notdirs, p, t);
    }
}

/// Membership in what a listing reaches comes from one of its entries.
proof fn lemma_pend_entries_member(
    dirs: Set<Seq<Seq<u8>>>,
    notdirs: Set<Seq<Seq<u8>>>,
    r: Seq<Seq<Seq<u8>>>,
    q: Seq<Seq<u8>>,
)
    requires
        pend_entries(dirs, notdirs, r).contains(q),
    ensures
        exists|i: int|
            0 <= i < r.len() && subtree_paths(dirs, notdirs, #[trigger] r[i]).contains(q),
    decreases r.len(),
{
    if subtree_paths(dirs, notdirs, r[0]).contains(q) {
    } else {
        lemma_pend_entries_member(dirs, notdirs, r.drop_first(), q);
        let i = choose|i: int|
            0 <= i < r.drop_first().len() && subtree_paths(
                dirs,
                notdirs,
                #[trigger] r.drop_first()[i],
            ).contains(q);
        assert(r[i + 1] == r.drop_first()[i]);
    }
}

/// An entry's whole subtree is reachable from its listing.
proof fn lemma_pend_entries_contains(
    dirs: Set<Seq<Seq<u8>>>,
    notdirs: Set<Seq<Seq<u8>>>,
    r: Seq<Seq<Seq<u8>>>,
    i: int,
    q: Seq<Seq<u8>>,
)
    requires
        0 <= i < r.len(),
        subtree_paths(dirs, notdirs, r[i]).contains(q),
    ensures
        pend_entries(dirs, notdirs, r).contains(q),
    decreases r.len(),
{
    if i > 0 {
        assert(r.drop_first()[i - 1] == r[i]);
        lemma_pend_entries_contains(dirs, notdirs, r.drop_first(), i - 1, q);
    }
}

/// Opening a directory turns its entry's subtree, minus the directory
/// itself, into exactly what the new listing reaches.
proof fn lemma_children_pend(
    dirs: Set<Seq<Seq<u8>>>,
    notdirs: Set<Seq<Seq<u8>>>,
    p: Seq<Seq<u8>>,
    r: Seq<Seq<Seq<u8>>>,
)
    requires
        fs_model_wf(dirs, notdirs),
        dirs.contains(p),
        r.to_set() == fs_child_paths(dirs, notdirs, p),
        distinct_paths(r),
    ensures
        pend_entries(dirs, notdirs, r) == subtree_paths(dirs, notdirs, p).remove(p),
        entries_wf(dirs, notdirs, r),
{
    let child_set = fs_child_paths(dirs, notdirs, p);
    assert forall|i: int| 0 <= i < r.len() implies child_set.contains(#[trigger] r[i]) by {
        assert(r.to_set().contains(r[i]));
    }
    assert forall|i: int, j: int|
        #![trigger r[i], r[j]]
        0 <= i < r.len() && 0 <= j < r.len() implies r[i].len() == r[j].len() by {
        assert(child_set.contains(r[i]));
        assert(child_set.contains(r[j]));
    }
    assert forall|i: int| 0 <= i < r.len() implies dirs.contains(#[trigger] r[i])
        || notdirs.contains(r[i]) by {
        assert(child_set.contains(r[i]));
    }
    assert forall|q: Seq<Seq<u8>>| pend_entries(dirs, notdirs, r).contains(q) implies subtree_paths(
        dirs,
        notdirs,
        p,
    ).remove(p).contains(q) by {
        lemma_pend_entries_member(dirs, notdirs, r, q);
        let i = choose|i: int|
            0 <= i < r.len() && subtree_paths(dirs, notdirs, #[trigger] r[i]).contains(q);
        let c = r[i];
        assert(child_set.contains(c));
        lemma_subtree_member(dirs, notdirs, c, q);
        assert(q.take(p.len() as int) =~= q.take(c.len() as int).take(p.len() as int));
        assert(is_prefix_of(p, q));
        if q == c {
        } else {
            assert(dirs.contains(q) || notdirs.contains(q));
        }
    }
    assert forall|q: Seq<Seq<u8>>|
        subtree_paths(dirs, notdirs, p).remove(p).contains(q) implies pend_entries(
        dirs,
        notdirs,
        r,
    ).contains(q) by {
        let c = q.take(p.len() as int + 1);
        assert(dirs.contains(q) || notdirs.contains(q));
        if q.len() == p.len() + 1 {
            assert(c =~= q);
        } else {
            assert(dirs.contains(q.take(p.len() as int + 1)));
        }
        assert(c.take(p.len() as int) =~= q.take(p.len() as int));
        assert(is_prefix_of(p, c));
        assert(child_set.contains(c));
        assert(r.to_set().contains(c));
        let i = choose|i: int| 0 <= i < r.len() && r[i] == c;
        if q != c {
            assert(q.take(c.len() as int) =~= q.take(p.len() as int + 1));
            assert(is_prefix_of(c, q));
        }
        assert(subtree_paths(dirs, notdirs, c).contains(q));
        lemma_pend_entries_contains(dirs, notdirs, r, i, q);
    }
    assert(pend_entries(dirs, notdirs, r) =~= subtree_paths(dirs, notdirs, p).remove(p));
}

/// The subtree of a path that is not a directory, or is unknown, is just
/// the path itself: nothing else can lie below it.
proof fn lemma_leaf_subtree(
    dirs: Set<Seq<Seq<u8>>>,
    notdirs: Set<Seq<Seq<u8>>>,
    p: Seq<Seq<u8>>,
)
    requires
        fs_model_wf(dirs, notdirs),
        !dirs.contains(p),
    ensures
        subtree_paths(dirs, notdirs, p) == Set::empty().insert(p),
{
    assert forall|q: Seq<Seq<u8>>|
        subtree_paths(dirs, notdirs, p).contains(q) implies Set::empty().insert(p).contains(q) by {
        if q != p {
            assert(q.take(p.len() as int) == p);
            assert(dirs.contains(q.take(p.len() as int)));
        }
    }
    assert(subtree_paths(dirs, notdirs, p) =~= Set::empty().insert(p));
}

/// A lazy, resumable walk of the directory tree under a root path,
/// filtered by a conjunction of predicates.
pub struct FileFilter<FS: FileSystem, P: PathPredicate> {
    /// The predicates every yielded file must pass, in registration
    /// order.
    predicates: Vec<P>,
    /// The start path; present only until the first `next` call consumes
    /// it.
    start: Option<FsPath>,
    /// The open listings of directories that were visited but not yet
    /// drained; the top is the directory currently being read.
    stack: Vec<FS::Listing>,
}

impl<FS: FileSystem, P: PathPredicate> FileFilter<FS, P> {
    /// The registered predicates, in registration order.
    pub closed spec fn spec_predicates(&self) -> Seq<P> {
        self.predicates@
    }

    /// The start path still to be consumed, if any.
    pub closed spec fn spec_start(&self) -> Option<Seq<Seq<u8>>> {
        match self.start {
            Some(p) => Some(p@),
            None => None,
        }
    }

    /// How many directory listings the walker holds open.
    pub closed spec fn open_listings(&self) -> nat {
        self.stack@.len()
    }

    /// The walker's validity against the filesystem model it is
    /// walking: its open listings are well formed and reach each path at
    /// most once, and the start path is only pending while nothing is
    /// open. Established by `new` for every model and preserved by every
    /// call against the same filesystem.
    pub closed spec fn wf(&self, dirs: Set<Seq<Seq<u8>>>, notdirs: Set<Seq<Seq<u8>>>) -> bool {
        &&& stack_wf::<FS>(dirs, notdirs, self.stack@)
        &&& self.start is Some ==> self.stack@.len() == 0
    }

    /// The files the walk can still yield: those reachable from the
    /// pending start path, or from the entries its open listings have
    /// yet to hand out.
    pub closed spec fn pending_files(
        &self,
        dirs: Set<Seq<Seq<u8>>>,
        notdirs: Set<Seq<Seq<u8>>>,
    ) -> Set<Seq<Seq<u8>>> {
        match self.start {
            Some(root) => files_under(dirs, notdirs, root@),
            None => stack_pend::<FS>(dirs, notdirs, self.stack@).intersect(notdirs),
        }
    }

    /// A walker that will traverse the tree under `root`. No predicates
    /// are registered and no filesystem access happens yet.
    pub fn new(root: FsPath) -> (w: FileFilter<FS, P>)
        ensures
            w.spec_predicates() == Seq::<P>::empty(),
            w.spec_start() == Some(root@),
            w.open_listings() == 0,
            forall|dirs: Set<Seq<Seq<u8>>>, notdirs: Set<Seq<Seq<u8>>>| #[trigger] w.wf(
                dirs,
                notdirs,
            ),
            forall|dirs: Set<Seq<Seq<u8>>>, notdirs: Set<Seq<Seq<u8>>>| #[trigger] w.pending_files(
                dirs,
                notdirs,
            ) == files_under(dirs, notdirs, root@),
    {
        let w = FileFilter { predicates: Vec::new(), start: Some(root), stack: Vec::new() };
        proof {
            assert(w.spec_predicates() =~= Seq::<P>::empty());
        }
        w
    }

    /// Register one more predicate and return the walker, so that
    /// configuration can be chained. Only files passing every registered
    /// predicate are yielded; registration order fixes evaluation order
    /// but not the result, since all predicates must pass.
    #[must_use]
    pub fn add_filter(self, predicate: P) -> (w: FileFilter<FS, P>)
        ensures
            w.spec_predicates() == self.spec_predicates().push(predicate),
            w.spec_start() == self.spec_start(),
            w.open_listings() == self.open_listings(),
            forall|dirs: Set<Seq<Seq<u8>>>, notdirs: Set<Seq<Seq<u8>>>| #[trigger] w.wf(
                dirs,
                notdirs,
            ) == self.wf(dirs, notdirs),
            forall|dirs: Set<Seq<Seq<u8>>>, notdirs: Set<Seq<Seq<u8>>>| #[trigger] w.pending_files(
                dirs,
                notdirs,
            ) == self.pending_files(dirs, notdirs),
    {
        let FileFilter { mut predicates, start, stack } = self;
        predicates.push(predicate);
        FileFilter { predicates, start, stack }
    }

    /// Whether every registered predicate accepts `path`, evaluated in
    /// registration order and stopping at the first rejection.
    fn accepts_all(&self, path: &FsPath) -> (r: bool)
        ensures
            r == all_accept(self.spec_predicates(), path@),
    {
        let mut i: usize = 0;
        while i < self.predicates.len()
            invariant
                i <= self.predicates.len(),
                forall|j: int| 0 <= j < i ==> #[trigger] self.predicates@[j].accepts(path@),
            decreases self.predicates.len() - i,
        {
            if !self.predicates[i].test(path) {
                return false;
            }
            i = i + 1;
        }
        true
    }

    /// Open the directory at `path` and push its listing, or report why
    /// it could not be opened.
    fn push(&mut self, fs: &mut FS, path: FsPath) -> (r: Result<(), WalkError>)
        ensures
            final(fs).dirs() == old(fs).dirs(),
            final(fs).notdirs() == old(fs).notdirs(),
            final(fs).may_fail() == old(fs).may_fail(),
            final(self).predicates@ == old(self).predicates@,
            final(self).start == old(self).start,
            match r {
                Ok(()) => old(fs).dirs().contains(path@) && final(self).stack@ == old(
                    self,
                ).stack@.push(final(self).stack@.last()) && FS::remaining(
                    &final(self).stack@.last(),
                ).to_set() == fs_child_paths(old(fs).dirs(), old(fs).notdirs(), path@)
                    && distinct_paths(FS::remaining(&final(self).stack@.last())),
                Err(e) => final(self).stack@ == old(self).stack@ && (e matches WalkError::DirOpen(
                    q,
                ) && q@ == path@) && (!old(fs).may_fail() ==> !old(fs).dirs().contains(path@)),
            },
    {
        match fs.open_dir(&path) {
            Some(listing) => {
                self.stack.push(listing);
                proof {
                    assert(self.stack@ =~= old(self).stack@.push(self.stack@.last()));
                }
                Ok(())
            },
            None => Err(WalkError::DirOpen(path)),
        }
    }

    /// Process one discovered path: push a directory's listing, check a
    /// non-directory against the predicates, or surface a failure.
    /// Returns the item to yield, if this path produced one.
    fn process_entry(&mut self, fs: &mut FS, path: FsPath) -> (r: Option<
        Result<FsPath, WalkError>,
    >)
        requires
            fs_model_wf(old(fs).dirs(), old(fs).notdirs()),
            stack_wf::<FS>(old(fs).dirs(), old(fs).notdirs(), old(self).stack@),
            subtree_paths(old(fs).dirs(), old(fs).notdirs(), path@).disjoint(
                stack_pend::<FS>(old(fs).dirs(), old(fs).notdirs(), old(self).stack@),
            ),
        ensures
            final(fs).dirs() == old(fs).dirs(),
            final(fs).notdirs() == old(fs).notdirs(),
            final(fs).may_fail() == old(fs).may_fail(),
            final(self).predicates@ == old(self).predicates@,
            final(self).start == old(self).start,
            stack_wf::<FS>(old(fs).dirs(), old(fs).notdirs(), final(self).stack@),
            match r {
                None => (old(fs).dirs().contains(path@) && final(self).stack@.len() == old(
                    self,
                ).stack@.len() + 1 && stack_pend::<FS>(
                    old(fs).dirs(),
                    old(fs).notdirs(),
                    final(self).stack@,
                ) == stack_pend::<FS>(old(fs).dirs(), old(fs).notdirs(), old(self).stack@).union(
                    subtree_paths(old(fs).dirs(), old(fs).notdirs(), path@).remove(path@),
                )) || (old(fs).notdirs().contains(path@) && !all_accept(
                    old(self).predicates@,
                    path@,
                ) && final(self).stack@ == old(self).stack@),
                Some(Ok(p)) => p@ == path@ && old(fs).notdirs().contains(path@) && !old(
                    fs,
                ).dirs().contains(path@) && all_accept(old(self).predicates@, path@) && final(self).stack@ == old(self).stack@,
                Some(Err(e)) => final(self).stack@ == old(self).stack@ && (
                e matches WalkError::DirOpen(q) && q@ == path@) && !old(fs).notdirs().contains(
                    path@,
                ) && (!old(fs).may_fail() ==> !old(fs).dirs().contains(path@)),
            },
    {
        let ghost dirs = fs.dirs();
        let ghost notdirs = fs.notdirs();
        let ghost path_view = path@;
        match fs.classify(&path) {
            PathKind::Directory => match self.push(fs, path) {
                Ok(()) => {
                    proof {
                        let st = self.stack@;
                        let lc = st.last();
                        assert(st.drop_last() =~= old(self).stack@);
                        lemma_children_pend(dirs, notdirs, path_view, FS::remaining(&lc));
                        assert(pend_entries(dirs, notdirs, FS::remaining(&lc)) == subtree_paths(
                            dirs,
                            notdirs,
                            path_view,
                        ).remove(path_view));
                        assert forall|q: Seq<Seq<u8>>|
                            pend_entries(dirs, notdirs, FS::remaining(&lc)).contains(q)
                                implies !stack_pend::<FS>(dirs, notdirs, st.drop_last()).contains(
                            q,
                        ) by {
                            assert(subtree_paths(dirs, notdirs, path_view).contains(q));
                        }
                        assert(stack_wf::<FS>(dirs, notdirs, st));
                        assert(stack_pend::<FS>(dirs, notdirs, st) == stack_pend::<FS>(
                            dirs,
                            notdirs,
                            st.drop_last(),
                        ).union(pend_entries(dirs, notdirs, FS::remaining(&lc))));
                    }
                    None
                },
                Err(e) => {
                    proof {
                        if notdirs.contains(path_view) {
                            assert(!dirs.contains(path_view));
                        }
                    }
                    Some(Err(e))
                },
            },
            PathKind::NotDirectory => {
                if self.accepts_all(&path) {
                    Some(Ok(path))
                } else {
                    None
                }
            },
            PathKind::Missing => Some(Err(WalkError::DirOpen(path))),
        }
    }

    /// Produce the next item of the walk: `Some(Ok(path))` for a file
    /// that every predicate accepts, `Some(Err(..))` for one failed
    /// filesystem operation, and `None` once the walk is exhausted, after
    /// which it holds no open listings and every later call returns
    /// `None` again. Each call does only the filesystem reads needed to
    /// find its own result, and only ever shrinks the set of pending
    /// files: a yielded file was pending and no longer is, and any other
    /// file that stopped being pending was rejected by a predicate —
    /// except, for a directory-open error, the files of exactly the
    /// subtree that the error abandoned. Errors are never silent: a
    /// start path unknown to the filesystem is surfaced as a
    /// directory-open error on the first call, an error never names a
    /// known non-directory, and after a read error the failing listing
    /// stays open for later calls.
    pub fn next(&mut self, fs: &mut FS) -> (r: Option<Result<FsPath, WalkError>>)
        requires
            fs_model_wf(old(fs).dirs(), old(fs).notdirs()),
            old(self).wf(old(fs).dirs(), old(fs).notdirs()),
        ensures
            final(fs).dirs() == old(fs).dirs(),
            final(fs).notdirs() == old(fs).notdirs(),
            final(fs).may_fail() == old(fs).may_fail(),
            final(self).spec_predicates() == old(self).spec_predicates(),
            final(self).spec_start() is None,
            final(self).wf(old(fs).dirs(), old(fs).notdirs()),
            final(self).pending_files(old(fs).dirs(), old(fs).notdirs()).subset_of(
                old(self).pending_files(old(fs).dirs(), old(fs).notdirs()),
            ),
            match r {
                None => final(self).open_listings() == 0 && forall|q: Seq<Seq<u8>>|
                    old(self).pending_files(old(fs).dirs(), old(fs).notdirs()).contains(q)
                        ==> !all_accept(old(self).spec_predicates(), q),
                Some(Ok(p)) => old(fs).notdirs().contains(p@) && !old(fs).dirs().contains(p@)
                    && all_accept(old(self).spec_predicates(), p@) && old(self).pending_files(
                    old(fs).dirs(),
                    old(fs).notdirs(),
                ).contains(p@) && !final(self).pending_files(
                    old(fs).dirs(),
                    old(fs).notdirs(),
                ).contains(p@) && forall|q: Seq<Seq<u8>>|
                    old(self).pending_files(old(fs).dirs(), old(fs).notdirs()).contains(q)
                        && !final(self).pending_files(old(fs).dirs(), old(fs).notdirs()).contains(
                        q,
                    ) && q != p@ ==> !all_accept(old(self).spec_predicates(), q),
                Some(Err(e)) => match e {
                    WalkError::DirRead => old(fs).may_fail() && final(self).open_listings() > 0
                        && forall|q: Seq<Seq<u8>>|
                        old(self).pending_files(old(fs).dirs(), old(fs).notdirs()).contains(q)
                            && !final(self).pending_files(
                            old(fs).dirs(),
                            old(fs).notdirs(),
                        ).contains(q) ==> !all_accept(old(self).spec_predicates(), q),
                    WalkError::DirOpen(p) => !old(fs).notdirs().contains(p@) && (forall|
                        q: Seq<Seq<u8>>,
                    |
                        old(self).pending_files(old(fs).dirs(), old(fs).notdirs()).contains(q)
                            && !final(self).pending_files(
                            old(fs).dirs(),
                            old(fs).notdirs(),
                        ).contains(q) ==> !all_accept(old(self).spec_predicates(), q)
                            || files_under(old(fs).dirs(), old(fs).notdirs(), p@).contains(q)) && (
                    !old(fs).may_fail() ==> !old(fs).dirs().contains(p@) && old(self).spec_start()
                        == Some(p@)),
                },
            },
            (old(self).spec_start() is Some && !old(fs).dirs().contains(
                old(self).spec_start()->Some_0,
            ) && !old(fs).notdirs().contains(old(self).spec_start()->Some_0)) ==> (
            r matches Some(Err(WalkError::DirOpen(p))) && p@ == old(self).spec_start()->Some_0),
            old(self).spec_start() is None && old(self).open_listings() == 0 ==> r is None,
    {
        let ghost dirs = old(fs).dirs();
        let ghost notdirs = old(fs).notdirs();
        let ghost preds0 = old(self).predicates@;
        let ghost pf0 = old(self).pending_files(dirs, notdirs);
        if let Some(start) = self.start.take() {
            let ghost start_view = start@;
            proof {
                assert(self.stack@.len() == 0);
                assert(subtree_paths(dirs, notdirs, start_view).disjoint(
                    stack_pend::<FS>(dirs, notdirs, self.stack@),
                ));
            }
            let processed = self.process_entry(fs, start);
            proof {
                if processed is None {
                    if fs.dirs().contains(start_view) {
                        assert(!notdirs.contains(start_view));
                        assert(stack_pend::<FS>(dirs, notdirs, self.stack@) =~= subtree_paths(
                            dirs,
                            notdirs,
                            start_view,
                        ).remove(start_view));
                        assert(self.pending_files(dirs, notdirs) =~= pf0);
                    } else {
                        lemma_leaf_subtree(dirs, notdirs, start_view);
                        assert(pf0 =~= Set::empty().insert(start_view).intersect(notdirs));
                        assert(self.pending_files(dirs, notdirs) =~= Set::<Seq<Seq<u8>>>::empty());
                    }
                }
            }
            if let Some(result) = processed {
                proof {
                    assert(self.stack@.len() == 0);
                    assert(self.pending_files(dirs, notdirs) =~= Set::<Seq<Seq<u8>>>::empty());
                    match &result {
                        Ok(_) => {
                            lemma_leaf_subtree(dirs, notdirs, start_view);
                            assert(pf0 =~= Set::empty().insert(start_view).intersect(notdirs));
                            assert(pf0.contains(start_view));
                        },
                        Err(e) => {
                            let q = e->DirOpen_0;
                            assert(q@ == start_view);
                            assert(pf0 == files_under(dirs, notdirs, start_view));
                        },
                    }
                }
                return Some(result);
            }
        }
        while self.stack.len() > 0
            invariant
                dirs == old(fs).dirs(),
                notdirs == old(fs).notdirs(),
                preds0 == old(self).spec_predicates(),
                pf0 == old(self).pending_files(dirs, notdirs),
                fs.dirs() == dirs,
                fs.notdirs() == notdirs,
                fs.may_fail() == old(fs).may_fail(),
                old(self).spec_start() is None && old(self).open_listings() == 0
                    ==> self.stack@.len() == 0,
                (old(self).spec_start() matches Some(rt) ==> dirs.contains(rt)
                    || notdirs.contains(rt)),
                fs_model_wf(dirs, notdirs),
                self.predicates@ == preds0,
                self.start is None,
                stack_wf::<FS>(dirs, notdirs, self.stack@),
                stack_pend::<FS>(dirs, notdirs, self.stack@).intersect(notdirs).subset_of(pf0),
                forall|q: Seq<Seq<u8>>|
                    pf0.contains(q) && !stack_pend::<FS>(
                        dirs,
                        notdirs,
                        self.stack@,
                    ).intersect(notdirs).contains(q) ==> !all_accept(preds0, q),
            decreases
                    stack_pend::<FS>(dirs, notdirs, self.stack@).len(),
                    self.stack@.len(),
        {
            let ghost stack_before = self.stack@;
            let ghost sp_before = stack_pend::<FS>(dirs, notdirs, stack_before);
            proof {
                stack_pend_finite::<FS>(dirs, notdirs, stack_before);
            }
            let mut listing = self.stack.pop().unwrap();
            let ghost rem_before = FS::remaining(&listing);
            proof {
                assert(stack_before.drop_last() =~= self.stack@);
            }
            match fs.next_entry(&mut listing) {
                ListingStep::Entry(path) => {
                    let ghost p_view = path@;
                    let ghost rem_after = FS::remaining(&listing);
                    self.stack.push(listing);
                    proof {
                        let sp0 = stack_pend::<FS>(dirs, notdirs, self.stack@.drop_last());
                        assert(self.stack@.drop_last() =~= stack_before.drop_last());
                        assert(self.stack@.last() == listing);
                        lemma_entries_wf_drop_first(dirs, notdirs, rem_before);
                        assert(rem_after == rem_before.drop_first());
                        assert(pend_entries(dirs, notdirs, rem_before) == subtree_paths(
                            dirs,
                            notdirs,
                            p_view,
                        ).union(pend_entries(dirs, notdirs, rem_after)));
                        assert forall|i: int|
                            0 <= i < rem_after.len() implies (#[trigger] rem_after[i]).len()
                            == p_view.len() && rem_after[i] != p_view by {
                            assert(rem_after[i] == rem_before[i + 1]);
                        }
                        lemma_first_subtree_disjoint_rest(dirs, notdirs, p_view, rem_after);
                        assert forall|q: Seq<Seq<u8>>|
                            pend_entries(dirs, notdirs, rem_after).contains(q) implies !sp0.contains(
                            q,
                        ) by {
                            assert(pend_entries(dirs, notdirs, rem_before).contains(q));
                        }
                        assert(stack_wf::<FS>(dirs, notdirs, self.stack@));
                        assert(subtree_paths(dirs, notdirs, p_view).disjoint(
                            stack_pend::<FS>(dirs, notdirs, self.stack@),
                        ));
                        assert(sp_before == sp0.union(pend_entries(dirs, notdirs, rem_before)));
                        assert(stack_pend::<FS>(dirs, notdirs, self.stack@) == sp0.union(
                            pend_entries(dirs, notdirs, rem_after),
                        ));
                        assert(subtree_paths(dirs, notdirs, p_view).contains(p_view));
                        assert(sp_before.contains(p_view));
                    }
                    let ghost sp_mid = stack_pend::<FS>(dirs, notdirs, self.stack@);
                    let processed = self.process_entry(fs, path);
                    proof {
                        let sp_new = stack_pend::<FS>(dirs, notdirs, self.stack@);
                        assert(!sp_mid.contains(p_view));
                        match processed {
                            None => {
                                if fs.dirs().contains(p_view) {
                                    assert(sp_new == sp_mid.union(
                                        subtree_paths(dirs, notdirs, p_view).remove(p_view),
                                    ));
                                } else {
                                    assert(sp_new == sp_mid);
                                }
                                assert(sp_new.subset_of(sp_before.remove(p_view)));
                                lemma_len_subset(sp_new, sp_before.remove(p_view));
                                assert(sp_before.remove(p_view).len() < sp_before.len());
                                // pending-file accounting for this step
                                assert forall|q: Seq<Seq<u8>>|
                                    pf0.contains(q) && !sp_new.intersect(notdirs).contains(q)
                                        implies q == p_view || !all_accept(preds0, q) by {
                                    if sp_before.intersect(notdirs).contains(q) {
                                        if q != p_view {
                                            assert(sp_before.contains(q));
                                            if !sp_mid.contains(q) {
                                                assert(subtree_paths(
                                                    dirs,
                                                    notdirs,
                                                    p_view,
                                                ).contains(q));
                                                if !fs.dirs().contains(p_view) {
                                                    lemma_leaf_subtree(dirs, notdirs, p_view);
                                                }
                                                assert(sp_new.contains(q));
                                            } else {
                                                assert(sp_new.contains(q));
                                            }
                                            assert(false);
                                        }
                                    }
                                }
                                if notdirs.contains(p_view) {
                                    assert(!all_accept(preds0, p_view));
                                }
                                assert forall|q: Seq<Seq<u8>>|
                                    pf0.contains(q) && !sp_new.intersect(notdirs).contains(q)
                                        implies !all_accept(preds0, q) by {
                                    if q == p_view {
                                        assert(sp_before.intersect(notdirs).contains(q)
                                            || !all_accept(preds0, q));
                                        if sp_before.intersect(notdirs).contains(q) {
                                            assert(notdirs.contains(p_view));
                                        }
                                    }
                                }
                            },
                            Some(_) => {},
                        }
                    }
                    if let Some(result) = processed {
                        proof {
                            let sp_new = stack_pend::<FS>(dirs, notdirs, self.stack@);
                            assert(sp_new == sp_mid);
                            match &result {
                                Ok(p) => {
                                    assert(p@ == p_view);
                                    assert(notdirs.contains(p_view));
                                    assert(sp_before.intersect(notdirs).contains(p_view));
                                    assert(pf0.contains(p_view));
                                    assert(!sp_new.intersect(notdirs).contains(p_view));
                                    assert forall|q: Seq<Seq<u8>>|
                                        pf0.contains(q) && !sp_new.intersect(notdirs).contains(q)
                                            && q != p_view implies !all_accept(preds0, q) by {
                                        if sp_before.intersect(notdirs).contains(q) {
                                            assert(sp_before.contains(q));
                                            assert(sp_mid.contains(q) || subtree_paths(
                                                dirs,
                                                notdirs,
                                                p_view,
                                            ).contains(q));
                                            lemma_leaf_subtree(dirs, notdirs, p_view);
                                            assert(sp_mid.contains(q));
                                            assert(false);
                                        }
                                    }
                                },
                                Err(e) => {
                                    let q = e->DirOpen_0;
                                    assert(q@ == p_view);
                                    assert forall|x: Seq<Seq<u8>>|
                                        pf0.contains(x) && !sp_new.intersect(notdirs).contains(x)
                                            implies !all_accept(preds0, x) || files_under(
                                            dirs,
                                            notdirs,
                                            p_view,
                                        ).contains(x) by {
                                        if sp_before.intersect(notdirs).contains(x) {
                                            assert(sp_before.contains(x));
                                            if sp_mid.contains(x) {
                                                assert(sp_new.contains(x));
                                                assert(false);
                                            } else {
                                                assert(subtree_paths(
                                                    dirs,
                                                    notdirs,
                                                    p_view,
                                                ).contains(x));
                                            }
                                        }
                                    }
                                    if !fs.may_fail() {
                                        assert(dirs.contains(p_view) || notdirs.contains(p_view));
                                        assert(false);
                                    }
                                },
                            }
                        }
                        return Some(result);
                    }
                },
                ListingStep::Error => {
                    let ghost rem_after = FS::remaining(&listing);
                    self.stack.push(listing);
                    proof {
                        assert(self.stack@.drop_last() =~= stack_before.drop_last());
                        assert(self.stack@.last() == listing);
                        assert(rem_after == rem_before);
                        assert(stack_wf::<FS>(dirs, notdirs, self.stack@));
                        assert(stack_pend::<FS>(dirs, notdirs, self.stack@) == sp_before);
                        assert(self.stack@.len() == stack_before.len());
                    }
                    return Some(Err(WalkError::DirRead));
                },
                ListingStep::End => {
                    proof {
                        assert(rem_before.len() == 0);
                        assert(pend_entries(dirs, notdirs, rem_before) =~= Set::<
                            Seq<Seq<u8>>,
                        >::empty());
                        assert(stack_pend::<FS>(dirs, notdirs, self.stack@) =~= sp_before);
                    }
                },
            }
        }
        proof {
            assert(stack_pend::<FS>(dirs, notdirs, self.stack@) =~= Set::<Seq<Seq<u8>>>::empty());
            assert(self.pending_files(dirs, notdirs) =~= Set::<Seq<Seq<u8>>>::empty());
        }
        None
    }
}

impl<FS: FileSystem, P: PathPredicate> FileFilter<FS, P> {
    /// Drive the walk to exhaustion over a filesystem that never fails,
    /// collecting every yielded file path. The result holds, exactly
    /// once each, exactly those of the walker's pending files that every
    /// registered predicate accepts: for a fresh walker, the files under
    /// its start path. With no predicates registered that is every file
    /// under the start path. Termination is proved: the walk is finite.
    pub fn collect_matching(&mut self, fs: &mut FS) -> (out: Vec<FsPath>)
        requires
            fs_model_wf(old(fs).dirs(), old(fs).notdirs()),
            old(self).wf(old(fs).dirs(), old(fs).notdirs()),
            !old(fs).may_fail(),
        ensures
            final(fs).dirs() == old(fs).dirs(),
            final(fs).notdirs() == old(fs).notdirs(),
            final(fs).may_fail() == old(fs).may_fail(),
            final(self).wf(old(fs).dirs(), old(fs).notdirs()),
            final(self).open_listings() == 0,
            path_views(out@).to_set() == Set::new(
                |q: Seq<Seq<u8>>|
                    old(self).pending_files(old(fs).dirs(), old(fs).notdirs()).contains(q)
                        && all_accept(old(self).spec_predicates(), q),
            ),
            distinct_paths(path_views(out@)),
    {
        let ghost dirs = old(fs).dirs();
        let ghost notdirs = old(fs).notdirs();
        let ghost preds0 = old(self).spec_predicates();
        let ghost pf_init = old(self).pending_files(dirs, notdirs);
        let mut out: Vec<FsPath> = Vec::new();
        proof {
            lemma_len_subset(pf_init, notdirs);
        }
        loop
            invariant
                dirs == old(fs).dirs(),
                notdirs == old(fs).notdirs(),
                preds0 == old(self).spec_predicates(),
                pf_init == old(self).pending_files(dirs, notdirs),
                fs.dirs() == dirs,
                fs.notdirs() == notdirs,
                !fs.may_fail(),
                fs.may_fail() == old(fs).may_fail(),
                fs_model_wf(dirs, notdirs),
                self.wf(dirs, notdirs),
                self.spec_predicates() == preds0,
                self.pending_files(dirs, notdirs).subset_of(pf_init),
                distinct_paths(path_views(out@)),
                forall|a: int|
                    0 <= a < out@.len() ==> pf_init.contains(#[trigger] path_views(out@)[a])
                        && all_accept(preds0, path_views(out@)[a]) && !self.pending_files(
                        dirs,
                        notdirs,
                    ).contains(path_views(out@)[a]),
                forall|q: Seq<Seq<u8>>|
                    pf_init.contains(q) && all_accept(preds0, q) ==> path_views(out@).contains(q)
                        || self.pending_files(dirs, notdirs).contains(q),
            decreases
                    self.pending_files(dirs, notdirs).len(),
                    (if self.spec_start() is Some {
                        1int
                    } else {
                        0int
                    }),
        {
            let ghost pf_before = self.pending_files(dirs, notdirs);
            proof {
                lemma_len_subset(pf_before, notdirs);
            }
            match self.next(fs) {
                None => {
                    proof {
                        assert forall|q: Seq<Seq<u8>>|
                            pf_init.contains(q) && all_accept(preds0, q) implies path_views(
                            out@,
                        ).contains(q) by {
                            if !path_views(out@).contains(q) {
                                assert(pf_before.contains(q));
                                assert(!all_accept(preds0, q));
                            }
                        }
                        assert forall|q: Seq<Seq<u8>>|
                            path_views(out@).to_set().contains(q) implies Set::new(
                            |q2: Seq<Seq<u8>>| pf_init.contains(q2) && all_accept(preds0, q2),
                        ).contains(q) by {
                            let a = choose|a: int|
                                0 <= a < path_views(out@).len() && path_views(out@)[a] == q;
                        }
                        assert(path_views(out@).to_set() =~= Set::new(
                            |q: Seq<Seq<u8>>| pf_init.contains(q) && all_accept(preds0, q),
                        ));
                    }
                    return out;
                },
                Some(item) => {
                    match item {
                        Ok(p) => {
                            let ghost pf_after = self.pending_files(dirs, notdirs);
                            let ghost outv_before = path_views(out@);
                            out.push(p);
                            proof {
                                let outv = path_views(out@);
                                assert(outv =~= outv_before.push(p@));
                                assert(outv.last() == p@);
                                assert(!outv_before.contains(outv.last())) by {
                                    if outv_before.contains(outv.last()) {
                                        let a = choose|a: int|
                                            0 <= a < outv_before.len() && outv_before[a]
                                                == outv.last();
                                        assert(!pf_before.contains(outv_before[a]));
                                    }
                                }
                                assert forall|a: int, b: int|
                                    0 <= a < b < outv.len() implies outv[a] != outv[b] by {
                                    if b < outv.len() - 1 {
                                        assert(outv[a] == outv_before[a]);
                                        assert(outv[b] == outv_before[b]);
                                    } else {
                                        assert(outv[a] == outv_before[a]);
                                        assert(outv_before.contains(outv_before[a]));
                                    }
                                }
                                assert forall|q: Seq<Seq<u8>>|
                                    pf_init.contains(q) && all_accept(preds0, q) implies outv
                                    .contains(q) || pf_after.contains(q) by {
                                    if !pf_after.contains(q) && !outv.contains(q) {
                                        assert(!outv_before.contains(q)) by {
                                            if outv_before.contains(q) {
                                                let a = choose|a: int|
                                                    0 <= a < outv_before.len() && outv_before[a]
                                                        == q;
                                                assert(outv[a] == q);
                                            }
                                        }
                                        assert(pf_before.contains(q));
                                        assert(q != p@) by {
                                            if q == p@ {
                                                assert(outv.last() == p@);
                                            }
                                        }
                                        assert(!all_accept(preds0, q));
                                    }
                                }
                                assert forall|a: int|
                                    0 <= a < out@.len() implies pf_init.contains(
                                    #[trigger] outv[a],
                                ) && all_accept(preds0, outv[a]) && !pf_after.contains(
                                    outv[a],
                                ) by {
                                    if a < outv.len() - 1 {
                                        assert(outv[a] == outv_before[a]);
                                        assert(pf_after.subset_of(pf_before));
                                    } else {
                                        assert(outv[a] == p@);
                                    }
                                }
                                assert(pf_after.subset_of(pf_before.remove(p@)));
                                vstd::set_lib::lemma_len_subset(pf_after, pf_before.remove(p@));
                                assert(pf_before.remove(p@).len() < pf_before.len());
                            }
                        },
                        Err(e) => {
                            proof {
                                let q = e->DirOpen_0;
                                assert(pf_before == files_under(dirs, notdirs, q@));
                                lemma_leaf_subtree(dirs, notdirs, q@);
                                assert(pf_before =~= Set::<Seq<Seq<u8>>>::empty());
                                assert(self.pending_files(dirs, notdirs) =~= Set::<
                                    Seq<Seq<u8>>,
                                >::empty());
                            }
                        },
                    }
                },
            }
        }
    }
}

/// With no predicates registered, the acceptance test is the identity
/// filter: every path passes.
pub proof fn lemma_no_predicates_accepts_all<P: PathPredicate>(
    files: Set<Seq<Seq<u8>>>,
)
    ensures
        Set::new(
            |q: Seq<Seq<u8>>| files.contains(q) && all_accept(Seq::<P>::empty(), q),
        ) == files,
{
    assert(Set::new(
        |q: Seq<Seq<u8>>| files.contains(q) && all_accept(Seq::<P>::empty(), q),
    ) =~= files);
}

/// What the whole stack reaches is finite.
proof fn stack_pend_finite<FS: FileSystem>(
    dirs: Set<Seq<Seq<u8>>>,
    notdirs: Set<Seq<Seq<u8>>>,
    stack: Seq<FS::Listing>,
)
    requires
        fs_model_wf(dirs, notdirs),
        stack_wf::<FS>(dirs, notdirs, stack),
    ensures
        stack_pend::<FS>(dirs, notdirs, stack).finite(),
    decreases stack.len(),
{
    broadcast use vstd::set::axiom_set_union_finite;

    if stack.len() > 0 {
        stack_pend_finite::<FS>(dirs, notdirs, stack.drop_last());
        lemma_pend_entries_finite(dirs, notdirs, FS::remaining(&stack.last()));
    }
}

} // verus!
