//! Acceptance predicates on file paths.
//!
//! Callers configure the walker with any number of predicates; a file is
//! yielded only if every one of them accepts its path. Predicates are
//! supplied through the [`PathPredicate`] interface so that callers can
//! bring their own tests; [`NameFilter`] covers the common file-name
//! criteria.

use vstd::prelude::*;
use crate::path::FsPath;
use crate::path::path_name;

verus! {

/// A caller-supplied acceptance test on one file path.
///
/// `accepts` is the predicate's meaning on the path's view; `test` is its
/// executable evaluation, which must agree with `accepts` on every path.
/// Predicates are expected to be total and side-effect free.
pub trait PathPredicate: Sized {
    /// Which paths the predicate accepts.
    spec fn accepts(&self, path: Seq<Seq<u8>>) -> bool;

    /// Evaluate the predicate on one path.
    fn test(&self, path: &FsPath) -> (r: bool)
        ensures
            r == self.accepts(path@),
    ;
}

/// All predicates in `preds` accept `path` (vacuously true when `preds`
/// is empty).
pub open spec fn all_accept<P: PathPredicate>(preds: Seq<P>, path: Seq<Seq<u8>>) -> bool {
    forall|i: int| 0 <= i < preds.len() ==> #[trigger] preds[i].accepts(path)
}

/// `name` ends in a dot followed exactly by `ext`, the dot is not the
/// name's first byte (a leading dot starts a hidden name, not an
/// extension), and `ext` itself contains no dot. This mirrors how a
/// file name's extension is conventionally read: the part after the
/// last dot, absent for names with an empty stem.
pub open spec fn has_extension(name: Seq<u8>, ext: Seq<u8>) -> bool {
    let dot = name.len() - ext.len() - 1;
    &&& name.len() >= ext.len() + 2
    &&& name[dot] == 46u8
    &&& name.subrange(dot + 1, name.len() as int) == ext
    &&& forall|j: int| dot + 1 <= j < name.len() ==> name[j] != 46u8
}

/// `name` begins with `prefix`.
pub open spec fn name_starts_with(name: Seq<u8>, prefix: Seq<u8>) -> bool {
    prefix.len() <= name.len() && name.take(prefix.len() as int) == prefix
}

/// The built-in file-name predicates.
pub enum NameFilter {
    /// Accept paths whose file name has exactly this extension.
    ExtensionIs(Vec<u8>),
    /// Accept paths whose file name starts with this prefix.
    NameStartsWith(Vec<u8>),
}

impl PathPredicate for NameFilter {
    open spec fn accepts(&self, path: Seq<Seq<u8>>) -> bool {
        match self {
            NameFilter::ExtensionIs(ext) => has_extension(path_name(path), ext@),
            NameFilter::NameStartsWith(prefix) => name_starts_with(path_name(path), prefix@),
        }
    }

    fn test(&self, path: &FsPath) -> (r: bool) {
        let name: &[u8] = path.name();
        match self {
            NameFilter::ExtensionIs(ext) => extension_matches(name, ext),
            NameFilter::NameStartsWith(prefix) => prefix_matches(name, prefix),
        }
    }
}

/// Executable check for [`has_extension`].
fn extension_matches(name: &[u8], ext: &Vec<u8>) -> (r: bool)
    ensures
        r == has_extension(name@, ext@),
{
    if name.len() < ext.len() {
        return false;
    }
    if name.len() - ext.len() < 2 {
        return false;
    }
    let dot = name.len() - ext.len() - 1;
    if name[dot] != 46u8 {
        return false;
    }
    let mut k: usize = 0;
    while k < ext.len()
        invariant
            k <= ext.len(),
            name@.len() <= usize::MAX,
            name@.len() >= ext@.len() + 2,
            dot == name@.len() - ext@.len() - 1,
            name@[dot as int] == 46u8,
            forall|j: int| 0 <= j < k ==> name@[dot + 1 + j] == ext@[j] && ext@[j] != 46u8,
        decreases ext.len() - k,
    {
        proof {
            assert((dot as int) + 1 + (k as int) < name@.len());
        }
        if name[dot + 1 + k] != ext[k] {
            return false;
        }
        if ext[k] == 46u8 {
            proof {
                assert(name@[dot + 1 + k] == 46u8);
            }
            return false;
        }
        k = k + 1;
    }
    proof {
        assert(name@.subrange(dot + 1, name@.len() as int) =~= ext@);
        assert forall|j: int| dot + 1 <= j < name@.len() implies name@[j] != 46u8 by {
            assert(name@[j] == ext@[j - (dot + 1)]);
        }
    }
    true
}

/// Executable check for [`name_starts_with`].
fn prefix_matches(name: &[u8], prefix: &Vec<u8>) -> (r: bool)
    ensures
        r == name_starts_with(name@, prefix@),
{
    if name.len() < prefix.len() {
        return false;
    }
    let mut k: usize = 0;
    while k < prefix.len()
        invariant
            k <= prefix.len(),
            prefix@.len() <= name@.len(),
            forall|j: int| 0 <= j < k ==> name@[j] == prefix@[j],
        decreases prefix.len() - k,
    {
        if name[k] != prefix[k] {
            return false;
        }
        k = k + 1;
    }
    proof {
        assert(name@.take(prefix@.len() as int) =~= prefix@);
    }
    true
}

} // verus!
