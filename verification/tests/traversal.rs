//! Traversal behavior: completeness, error items, laziness, and the end
//! of the sequence.

use file_filter::filter::NameFilter;
use file_filter::fs::FileSystem;
use file_filter::fs::ListingStep;
use file_filter::fs::PathKind;
use file_filter::fs::WalkError;
use file_filter::memfs::MemFs;
use file_filter::path::FsPath;
use file_filter::walker::FileFilter;

fn path(components: &[&[u8]]) -> FsPath {
    FsPath::from_components(components.iter().map(|c| c.to_vec()).collect())
}

/// The fixture tree root/{a.txt, sub/{b.txt, prefix_c.txt}, other.log},
/// built at the filesystem root.
fn scenario_tree() -> MemFs {
    let mut fs = MemFs::new();
    assert!(fs.add_file(&path(&[b"a.txt"])));
    assert!(fs.add_dir(&path(&[b"sub"])));
    assert!(fs.add_file(&path(&[b"sub", b"b.txt"])));
    assert!(fs.add_file(&path(&[b"sub", b"prefix_c.txt"])));
    assert!(fs.add_file(&path(&[b"other.log"])));
    fs
}

fn sorted_components(paths: &[FsPath]) -> Vec<Vec<Vec<u8>>> {
    let mut out: Vec<Vec<Vec<u8>>> = paths.iter().map(|p| p.components().clone()).collect();
    out.sort();
    out
}

#[test]
fn no_filters_yields_every_file_exactly_once() {
    let mut fs = scenario_tree();
    let mut walker = FileFilter::<MemFs, NameFilter>::new(FsPath::root());
    let files = walker.collect_matching(&mut fs);
    let got = sorted_components(&files);
    let want = vec![
        vec![b"a.txt".to_vec()],
        vec![b"other.log".to_vec()],
        vec![b"sub".to_vec(), b"b.txt".to_vec()],
        vec![b"sub".to_vec(), b"prefix_c.txt".to_vec()],
    ];
    assert_eq!(got, want);
    // exhausted: every later call stays None
    assert!(walker.next(&mut fs).is_none());
    assert!(walker.next(&mut fs).is_none());
}

#[test]
fn directories_are_never_yielded() {
    let mut fs = scenario_tree();
    let mut walker = FileFilter::<MemFs, NameFilter>::new(FsPath::root());
    while let Some(item) = walker.next(&mut fs) {
        let p = item.expect("no errors in this tree");
        assert_ne!(p.components().clone(), vec![b"sub".to_vec()]);
        assert_ne!(p.components().len(), 0);
    }
}

#[test]
fn txt_filter_selects_the_three_text_files() {
    let mut fs = scenario_tree();
    let mut walker = FileFilter::<MemFs, NameFilter>::new(FsPath::root())
        .add_filter(NameFilter::ExtensionIs(b"txt".to_vec()));
    let files = walker.collect_matching(&mut fs);
    let got = sorted_components(&files);
    let want = vec![
        vec![b"a.txt".to_vec()],
        vec![b"sub".to_vec(), b"b.txt".to_vec()],
        vec![b"sub".to_vec(), b"prefix_c.txt".to_vec()],
    ];
    assert_eq!(got, want);
}

#[test]
fn prefix_filter_selects_the_one_prefixed_file() {
    let mut fs = scenario_tree();
    let mut walker = FileFilter::<MemFs, NameFilter>::new(FsPath::root())
        .add_filter(NameFilter::NameStartsWith(b"prefix_".to_vec()));
    let files = walker.collect_matching(&mut fs);
    let got = sorted_components(&files);
    assert_eq!(got, vec![vec![b"sub".to_vec(), b"prefix_c.txt".to_vec()]]);
}

#[test]
fn nonexistent_root_gives_one_open_error_then_ends() {
    let mut fs = scenario_tree();
    let mut walker = FileFilter::<MemFs, NameFilter>::new(path(&[b"missing"]));
    match walker.next(&mut fs) {
        Some(Err(WalkError::DirOpen(p))) => {
            assert_eq!(p.components().clone(), vec![b"missing".to_vec()]);
        }
        _ => panic!("expected a directory-open error first"),
    }
    assert!(walker.next(&mut fs).is_none());
}

#[test]
fn empty_root_ends_immediately() {
    let mut fs = MemFs::new();
    let mut walker = FileFilter::<MemFs, NameFilter>::new(FsPath::root());
    assert!(walker.next(&mut fs).is_none());
}

#[test]
fn single_file_root_is_yielded_itself() {
    let mut fs = MemFs::new();
    assert!(fs.add_file(&path(&[b"lone.txt"])));
    let mut walker = FileFilter::<MemFs, NameFilter>::new(path(&[b"lone.txt"]));
    match walker.next(&mut fs) {
        Some(Ok(p)) => assert_eq!(p.components().clone(), vec![b"lone.txt".to_vec()]),
        _ => panic!("expected the start file itself"),
    }
    assert!(walker.next(&mut fs).is_none());
}

#[test]
fn construction_reads_nothing_and_pulls_read_lazily() {
    let mut fs = scenario_tree();
    let walker = FileFilter::<MemFs, NameFilter>::new(FsPath::root());
    assert_eq!(fs.read_count(), 0);
    let mut walker = walker.add_filter(NameFilter::NameStartsWith(Vec::new()));
    assert_eq!(fs.read_count(), 0);
    walker.next(&mut fs).expect("tree has files").unwrap();
    let after_first = fs.read_count();
    assert!(after_first > 0);
    while let Some(item) = walker.next(&mut fs) {
        item.unwrap();
    }
    // later pulls did more reads: the first pull had not read the tree
    assert!(fs.read_count() > after_first);
}

/// A filesystem over one empty directory whose listing fails once before
/// reporting its end; the walker must surface the failure and go on.
struct FlakyFs {
    failed_already: bool,
}

struct FlakyListing {
    given_error: bool,
}

impl FileSystem for FlakyFs {
    type Listing = FlakyListing;

    fn classify(&mut self, p: &FsPath) -> PathKind {
        if p.depth() == 0 {
            PathKind::Directory
        } else {
            PathKind::Missing
        }
    }

    fn open_dir(&mut self, p: &FsPath) -> Option<FlakyListing> {
        if p.depth() == 0 {
            Some(FlakyListing { given_error: false })
        } else {
            None
        }
    }

    fn next_entry(&mut self, l: &mut FlakyListing) -> ListingStep {
        if l.given_error {
            ListingStep::End
        } else {
            l.given_error = true;
            self.failed_already = true;
            ListingStep::Error
        }
    }
}

/// A filesystem whose root holds a file and a directory that cannot be
/// opened: the failed subtree is abandoned, the sibling file still
/// comes.
struct LockedSubdirFs {
    given: Vec<&'static [u8]>,
}

impl FileSystem for LockedSubdirFs {
    type Listing = Vec<&'static [u8]>;

    fn classify(&mut self, p: &FsPath) -> PathKind {
        match p.components().len() {
            0 => PathKind::Directory,
            1 if p.name() == b"locked" => PathKind::Directory,
            1 if p.name() == b"a.txt" => PathKind::NotDirectory,
            _ => PathKind::Missing,
        }
    }

    fn open_dir(&mut self, p: &FsPath) -> Option<Vec<&'static [u8]>> {
        if p.components().is_empty() {
            Some(self.given.clone())
        } else {
            // the locked directory never opens
            None
        }
    }

    fn next_entry(&mut self, l: &mut Vec<&'static [u8]>) -> ListingStep {
        if l.is_empty() {
            ListingStep::End
        } else {
            let name = l.remove(0);
            ListingStep::Entry(FsPath::from_components(vec![name.to_vec()]))
        }
    }
}

#[test]
fn failed_subtree_is_abandoned_but_siblings_continue() {
    let mut fs = LockedSubdirFs { given: vec![b"locked", b"a.txt"] };
    let mut walker = FileFilter::<LockedSubdirFs, NameFilter>::new(FsPath::root());
    let mut errors = 0;
    let mut files = Vec::new();
    while let Some(item) = walker.next(&mut fs) {
        match item {
            Ok(p) => files.push(p),
            Err(WalkError::DirOpen(p)) => {
                errors += 1;
                assert_eq!(p.name(), b"locked");
            }
            Err(WalkError::DirRead) => panic!("no read errors here"),
        }
    }
    assert_eq!(errors, 1);
    assert_eq!(files.len(), 1);
    assert_eq!(files[0].name(), b"a.txt");
}

#[test]
fn read_error_is_surfaced_and_walk_continues() {
    let mut fs = FlakyFs { failed_already: false };
    let mut walker = FileFilter::<FlakyFs, NameFilter>::new(FsPath::root());
    match walker.next(&mut fs) {
        Some(Err(WalkError::DirRead)) => {}
        _ => panic!("expected a read error"),
    }
    assert!(fs.failed_already);
    // the listing stays open; the next pull reads past the error and ends
    assert!(walker.next(&mut fs).is_none());
}
