//! The filesystem interface the walker traverses.
//!
//! The walker needs three primitives from its host: classifying a path,
//! opening a directory for listing, and reading the next entry of an open
//! listing. [`FileSystem`] states them over an abstract model: the sets of
//! paths that are directories and non-directories, and, for each open
//! listing, the sequence of entry paths it has yet to yield. The model is
//! the filesystem as the traversal observes it; the walker's guarantees
//! are proved against it for every implementation. A filesystem whose
//! `may_fail` is false never produces error outcomes, so over it the
//! walker's traversal is exact.

use vstd::prelude::*;
use crate::path::FsPath;
use crate::path::is_prefix_of;

verus! {

/// What a path is, as answered by the filesystem.
pub enum PathKind {
    /// The path is a directory.
    Directory,
    /// The path exists and is not a directory: a regular file, a special
    /// file, or a dangling link.
    NotDirectory,
    /// The path does not exist (it may have vanished since it was
    /// listed).
    Missing,
}

/// One step of reading an open directory listing.
pub enum ListingStep {
    /// The next entry of the directory.
    Entry(FsPath),
    /// Reading the next entry failed; the listing is left as it was.
    Error,
    /// The listing is exhausted.
    End,
}

/// An error item of the walker's output sequence. Each one describes
/// exactly one failed filesystem operation; the traversal continues past
/// it.
#[derive(Debug)]
pub enum WalkError {
    /// The directory at this path could not be opened for listing, or
    /// the path vanished before it could be classified. Its subtree is
    /// never explored.
    DirOpen(FsPath),
    /// Reading one entry from the directory currently being listed
    /// failed; its listing stays open, and later calls read on from it.
    DirRead,
}

/// The immediate children of `p` in the model: the known paths one
/// component below it.
pub open spec fn fs_child_paths(
    dirs: Set<Seq<Seq<u8>>>,
    notdirs: Set<Seq<Seq<u8>>>,
    p: Seq<Seq<u8>>,
) -> Set<Seq<Seq<u8>>> {
    Set::new(
        |q: Seq<Seq<u8>>|
            (dirs.contains(q) || notdirs.contains(q)) && q.len() == p.len() + 1 && is_prefix_of(
                p,
                q,
            ),
    )
}

/// No path occurs twice in `s`.
pub open spec fn distinct_paths(s: Seq<Seq<Seq<u8>>>) -> bool {
    forall|i: int, j: int| 0 <= i < j < s.len() ==> s[i] != s[j]
}

/// A well-formed filesystem model: finitely many paths, no path both a
/// directory and a non-directory, and every proper prefix of a known
/// path is a directory (an entry is only reachable through the
/// directories above it).
pub open spec fn fs_model_wf(dirs: Set<Seq<Seq<u8>>>, notdirs: Set<Seq<Seq<u8>>>) -> bool {
    &&& dirs.finite()
    &&& notdirs.finite()
    &&& forall|q: Seq<Seq<u8>>| notdirs.contains(q) ==> !dirs.contains(q)
    &&& forall|q: Seq<Seq<u8>>, k: int|
        #![trigger dirs.contains(q), q.take(k)]
        dirs.contains(q) && 0 <= k < q.len() ==> dirs.contains(q.take(k))
    &&& forall|q: Seq<Seq<u8>>, k: int|
        #![trigger notdirs.contains(q), q.take(k)]
        notdirs.contains(q) && 0 <= k < q.len() ==> dirs.contains(q.take(k))
}

/// The subtree rooted at `p`: the path itself, plus every known path
/// strictly below it.
pub open spec fn subtree_paths(
    dirs: Set<Seq<Seq<u8>>>,
    notdirs: Set<Seq<Seq<u8>>>,
    p: Seq<Seq<u8>>,
) -> Set<Seq<Seq<u8>>> {
    Set::new(
        |q: Seq<Seq<u8>>|
            q == p || ((dirs.contains(q) || notdirs.contains(q)) && p.len() < q.len()
                && is_prefix_of(p, q)),
    )
}

/// The non-directory paths in the subtree rooted at `p`: everything a
/// walk from `p` can yield.
pub open spec fn files_under(
    dirs: Set<Seq<Seq<u8>>>,
    notdirs: Set<Seq<Seq<u8>>>,
    p: Seq<Seq<u8>>,
) -> Set<Seq<Seq<u8>>> {
    subtree_paths(dirs, notdirs, p).intersect(notdirs)
}

/// A filesystem, as the walker sees it.
///
/// The four spec functions are the filesystem's model; their defaults
/// leave it arbitrary, so an implementation outside the verified world
/// only provides the three executable operations, while one that wants
/// the walker's guarantees to mean something defines its model and
/// proves the operations against it.
pub trait FileSystem: Sized {
    /// An open directory listing: a one-shot cursor over the entries of
    /// one directory.
    type Listing;

    /// The paths that are directories.
    open spec fn dirs(&self) -> Set<Seq<Seq<u8>>> {
        vstd::pervasive::arbitrary()
    }

    /// The paths that exist and are not directories.
    open spec fn notdirs(&self) -> Set<Seq<Seq<u8>>> {
        vstd::pervasive::arbitrary()
    }

    /// Whether any operation may report failure. A filesystem with
    /// `!may_fail()` answers every classification, open and read
    /// without error.
    open spec fn may_fail(&self) -> bool {
        vstd::pervasive::arbitrary()
    }

    /// The entry paths an open listing has yet to yield, in the order it
    /// will yield them.
    open spec fn remaining(l: &Self::Listing) -> Seq<Seq<Seq<u8>>> {
        vstd::pervasive::arbitrary()
    }

    /// Classify a path. Reading the filesystem never changes its model.
    fn classify(&mut self, p: &FsPath) -> (k: PathKind)
        ensures
            final(self).dirs() == old(self).dirs(),
            final(self).notdirs() == old(self).notdirs(),
            final(self).may_fail() == old(self).may_fail(),
            k is Directory <==> old(self).dirs().contains(p@),
            k is NotDirectory <==> (!old(self).dirs().contains(p@) && old(self).notdirs().contains(
                p@,
            )),
    ;

    /// Open the directory at `p` for listing. On success the listing
    /// will yield each immediate child of `p` exactly once. Opening can
    /// fail (permissions, a vanished path) unless the filesystem never
    /// fails.
    fn open_dir(&mut self, p: &FsPath) -> (r: Option<Self::Listing>)
        ensures
            final(self).dirs() == old(self).dirs(),
            final(self).notdirs() == old(self).notdirs(),
            final(self).may_fail() == old(self).may_fail(),
            r matches Some(l) ==> old(self).dirs().contains(p@),
            r matches Some(l) ==> Self::remaining(&l).to_set() == fs_child_paths(
                old(self).dirs(),
                old(self).notdirs(),
                p@,
            ) && distinct_paths(Self::remaining(&l)),
            !old(self).may_fail() && old(self).dirs().contains(p@) ==> r is Some,
    ;

    /// Read the next entry of an open listing. An error consumes no
    /// entry; what a caller does with the listing afterwards is its own
    /// choice.
    fn next_entry(&mut self, l: &mut Self::Listing) -> (s: ListingStep)
        ensures
            final(self).dirs() == old(self).dirs(),
            final(self).notdirs() == old(self).notdirs(),
            final(self).may_fail() == old(self).may_fail(),
            match s {
                ListingStep::Entry(p) => Self::remaining(old(l)).len() > 0 && p@ == Self::remaining(
                    old(l),
                )[0] && Self::remaining(final(l)) == Self::remaining(old(l)).drop_first(),
                ListingStep::Error => old(self).may_fail() && Self::remaining(final(l))
                    == Self::remaining(old(l)),
                ListingStep::End => Self::remaining(old(l)).len() == 0 && Self::remaining(final(l))
                    == Self::remaining(old(l)),
            },
    ;
}

} // verus!
