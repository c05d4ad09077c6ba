//! Paths as sequences of name components.
//!
//! The walker never interprets a path beyond its list of components, so a
//! path is modeled as the components themselves, each a byte string. The
//! view of a path is the sequence of its components' byte sequences.

use vstd::prelude::*;

verus! {

/// A filesystem path, relative to the filesystem's root: the sequence of
/// name components leading to the entry. The empty path names the root
/// itself.
#[derive(Debug)]
pub struct FsPath {
    components: Vec<Vec<u8>>,
}

impl View for FsPath {
    type V = Seq<Seq<u8>>;

    closed spec fn view(&self) -> Seq<Seq<u8>> {
        self.components.deep_view()
    }
}

/// The file name of a path: its last component, or the empty byte string
/// for the root path.
pub open spec fn path_name(p: Seq<Seq<u8>>) -> Seq<u8> {
    if p.len() == 0 {
        Seq::empty()
    } else {
        p.last()
    }
}

/// `short` is a (not necessarily proper) prefix of `long`.
pub open spec fn is_prefix_of(short: Seq<Seq<u8>>, long: Seq<Seq<u8>>) -> bool {
    short.len() <= long.len() && long.take(short.len() as int) == short
}

/// Copy a byte string.
fn copy_bytes(a: &Vec<u8>) -> (r: Vec<u8>)
    ensures
        r@ == a@,
{
    let mut r: Vec<u8> = Vec::new();
    let mut i: usize = 0;
    while i < a.len()
        invariant
            i <= a.len(),
            r@ == a@.take(i as int),
        decreases a.len() - i,
    {
        r.push(a[i]);
        i = i + 1;
        proof {
            assert(r@ =~= a@.take(i as int));
        }
    }
    proof {
        assert(r@ =~= a@);
    }
    r
}

impl FsPath {
    /// The root path: no components.
    pub fn root() -> (r: FsPath)
        ensures
            r@ == Seq::<Seq<u8>>::empty(),
    {
        let r = FsPath { components: Vec::new() };
        proof {
            assert(r@ =~= Seq::<Seq<u8>>::empty());
        }
        r
    }

    /// A path made of the given components.
    pub fn from_components(components: Vec<Vec<u8>>) -> (r: FsPath)
        ensures
            r@ == components.deep_view(),
    {
        FsPath { components }
    }

    /// How many components the path has.
    pub fn depth(&self) -> (n: usize)
        ensures
            n == self@.len(),
    {
        self.components.len()
    }

    /// The path's file name: its last component, empty for the root.
    pub fn name(&self) -> (r: &[u8])
        ensures
            r@ == path_name(self@),
    {
        if self.components.len() == 0 {
            let empty: &[u8] = &[];
            proof {
                assert(empty@ =~= path_name(self@));
            }
            empty
        } else {
            let n = self.components.len() - 1;
            let r: &Vec<u8> = &self.components[n];
            r.as_slice()
        }
    }

    /// An owned copy of the path.
    pub fn duplicate(&self) -> (r: FsPath)
        ensures
            r@ == self@,
    {
        let mut components: Vec<Vec<u8>> = Vec::new();
        let mut i: usize = 0;
        while i < self.components.len()
            invariant
                i <= self.components.len(),
                components@.len() == i,
                forall|j: int| 0 <= j < i ==> components@[j]@ == self.components@[j]@,
        decreases self.components.len() - i,
        {
            components.push(copy_bytes(&self.components[i]));
            i = i + 1;
        }
        let r = FsPath { components };
        proof {
            assert(r@ =~~= self@);
        }
        r
    }

    /// The path of the named entry inside this path's directory.
    pub fn child(&self, name: Vec<u8>) -> (r: FsPath)
        ensures
            r@ == self@.push(name@),
    {
        let mut dup = self.duplicate();
        dup.components.push(name);
        proof {
            assert(dup@ =~~= self@.push(dup.components@.last()@));
        }
        dup
    }

    /// The path one component shorter: the directory this path is in.
    pub fn parent(&self) -> (r: FsPath)
        requires
            self@.len() > 0,
        ensures
            r@ == self@.drop_last(),
    {
        let mut dup = self.duplicate();
        dup.components.pop();
        proof {
            assert(dup@ =~~= self@.drop_last());
        }
        dup
    }

    /// Whether this path names an entry directly inside `parent`.
    pub fn is_child_of(&self, parent: &FsPath) -> (r: bool)
        ensures
            r == (self@.len() == parent@.len() + 1 && is_prefix_of(parent@, self@)),
    {
        if self.components.len() == 0 || self.components.len() - 1 != parent.components.len() {
            return false;
        }
        let mut i: usize = 0;
        while i < parent.components.len()
            invariant
                i <= parent.components.len(),
                self.components.len() == parent.components.len() + 1,
                forall|j: int| 0 <= j < i ==> self@[j] == parent@[j],
            decreases parent.components.len() - i,
        {
            proof {
                assert(self@[i as int] =~= self.components@[i as int]@);
                assert(parent@[i as int] =~= parent.components@[i as int]@);
            }
            if !bytes_eq(&self.components[i], &parent.components[i]) {
                proof {
                    assert(self@.take(parent@.len() as int)[i as int] == self@[i as int]);
                }
                return false;
            }
            i = i + 1;
        }
        proof {
            assert(self@.take(parent@.len() as int) =~= parent@);
        }
        true
    }

    /// The path's components.
    pub fn components(&self) -> (r: &Vec<Vec<u8>>)
        ensures
            r.deep_view() == self@,
    {
        &self.components
    }

    /// Whether two paths have the same components.
    pub fn same_as(&self, other: &FsPath) -> (r: bool)
        ensures
            r == (self@ == other@),
    {
        if self.components.len() != other.components.len() {
            proof {
                assert(self@.len() == self.components.len());
                assert(other@.len() == other.components.len());
            }
            return false;
        }
        let mut i: usize = 0;
        while i < self.components.len()
            invariant
                i <= self.components.len(),
                self.components.len() == other.components.len(),
                forall|j: int| 0 <= j < i ==> self@[j] == other@[j],
            decreases self.components.len() - i,
        {
            proof {
                assert(self@[i as int] =~= self.components@[i as int]@);
                assert(other@[i as int] =~= other.components@[i as int]@);
            }
            if !bytes_eq(&self.components[i], &other.components[i]) {
                return false;
            }
            i = i + 1;
        }
        proof {
            assert(self@ =~= other@);
        }
        true
    }
}

/// The views of a list of paths, in order.
pub open spec fn path_views(s: Seq<FsPath>) -> Seq<Seq<Seq<u8>>> {
    s.map_values(|p: FsPath| p@)
}

/// Whether two byte strings are equal.
pub fn bytes_eq(a: &Vec<u8>, b: &Vec<u8>) -> (r: bool)
    ensures
        r == (a@ == b@),
{
    if a.len() != b.len() {
        return false;
    }
    let mut i: usize = 0;
    while i < a.len()
        invariant
            i <= a.len(),
            a.len() == b.len(),
            forall|j: int| 0 <= j < i ==> a@[j] == b@[j],
        decreases a.len() - i,
    {
        if a[i] != b[i] {
            return false;
        }
        i = i + 1;
    }
    proof {
        assert(a@ =~= b@);
    }
    true
}

} // verus!
