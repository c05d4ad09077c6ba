//! The original filtering tests, run over the in-memory filesystem, plus
//! direct checks of the built-in predicates.

use file_filter::filter::NameFilter;
use file_filter::filter::PathPredicate;
use file_filter::fs::WalkError;
use file_filter::memfs::MemFs;
use file_filter::path::FsPath;
use file_filter::walker::FileFilter;

fn path(components: &[&[u8]]) -> FsPath {
    FsPath::from_components(components.iter().map(|c| c.to_vec()).collect())
}

/// The fixture tree the original tests walked: a small structure with
/// text files at two depths, a prefixed file, and a log file.
fn fixture() -> (MemFs, FsPath) {
    let mut fs = MemFs::new();
    assert!(fs.add_dir(&path(&[b"fixtures"])));
    assert!(fs.add_dir(&path(&[b"fixtures", b"test_structure"])));
    assert!(fs.add_file(&path(&[b"fixtures", b"test_structure", b"a.txt"])));
    assert!(fs.add_file(&path(&[b"fixtures", b"test_structure", b"other.log"])));
    assert!(fs.add_dir(&path(&[b"fixtures", b"test_structure", b"sub"])));
    assert!(fs.add_file(&path(&[b"fixtures", b"test_structure", b"sub", b"b.txt"])));
    assert!(fs.add_file(&path(&[
        b"fixtures",
        b"test_structure",
        b"sub",
        b"prefix_c.txt"
    ])));
    (fs, path(&[b"fixtures", b"test_structure"]))
}

fn collect_ok(walker: &mut FileFilter<MemFs, NameFilter>, fs: &mut MemFs) -> Vec<FsPath> {
    let mut out = Vec::new();
    while let Some(item) = walker.next(fs) {
        match item {
            Ok(p) => out.push(p),
            Err(e) => panic!("unexpected walk error: {:?}", error_kind(&e)),
        }
    }
    out
}

fn error_kind(e: &WalkError) -> &'static str {
    match e {
        WalkError::DirOpen(_) => "open",
        WalkError::DirRead => "read",
    }
}

#[test]
fn test_filter_txt_files() {
    let (mut fs, root) = fixture();
    let mut file_filter =
        FileFilter::<MemFs, NameFilter>::new(root).add_filter(NameFilter::ExtensionIs(
            b"txt".to_vec(),
        ));
    let entries = collect_ok(&mut file_filter, &mut fs);

    assert!(!entries.is_empty());

    for entry in entries {
        assert!(entry.name().ends_with(b".txt"));
    }
}

#[test]
fn test_filter_prefix_files() {
    let (mut fs, root) = fixture();
    let mut file_filter = FileFilter::<MemFs, NameFilter>::new(root).add_filter(
        NameFilter::NameStartsWith(b"prefix_".to_vec()),
    );
    let entries = collect_ok(&mut file_filter, &mut fs);

    assert!(!entries.is_empty());

    for entry in entries {
        assert!(entry.name().starts_with(b"prefix_"));
    }
}

#[test]
fn test_filter_txt_and_prefix_files() {
    let (mut fs, root) = fixture();
    let mut file_filter = FileFilter::<MemFs, NameFilter>::new(root)
        .add_filter(NameFilter::NameStartsWith(b"prefix_".to_vec()))
        .add_filter(NameFilter::ExtensionIs(b"txt".to_vec()));

    let entries = collect_ok(&mut file_filter, &mut fs);

    assert!(!entries.is_empty());

    for entry in entries {
        assert!(entry.name().starts_with(b"prefix_"));
        assert!(entry.name().ends_with(b".txt"));
    }
}

#[test]
fn filters_commute() {
    let (mut fs, root) = fixture();
    let mut one = FileFilter::<MemFs, NameFilter>::new(root.duplicate())
        .add_filter(NameFilter::NameStartsWith(b"prefix_".to_vec()))
        .add_filter(NameFilter::ExtensionIs(b"txt".to_vec()));
    let mut two = FileFilter::<MemFs, NameFilter>::new(root)
        .add_filter(NameFilter::ExtensionIs(b"txt".to_vec()))
        .add_filter(NameFilter::NameStartsWith(b"prefix_".to_vec()));

    let a = sorted_components(collect_ok(&mut one, &mut fs));
    let b = sorted_components(collect_ok(&mut two, &mut fs));
    assert_eq!(a, b);
    assert_eq!(
        a,
        vec![vec![
            b"fixtures".to_vec(),
            b"test_structure".to_vec(),
            b"sub".to_vec(),
            b"prefix_c.txt".to_vec()
        ]]
    );
}

fn sorted_components(paths: Vec<FsPath>) -> Vec<Vec<Vec<u8>>> {
    let mut out: Vec<Vec<Vec<u8>>> = paths.iter().map(|p| p.components().clone()).collect();
    out.sort();
    out
}

#[test]
fn extension_is_the_part_after_the_last_dot() {
    let ext_txt = NameFilter::ExtensionIs(b"txt".to_vec());
    assert!(ext_txt.test(&path(&[b"a.txt"])));
    assert!(ext_txt.test(&path(&[b"sub", b"a.b.txt"])));
    assert!(!ext_txt.test(&path(&[b"atxt"])));
    assert!(!ext_txt.test(&path(&[b"txt"])));
    // a leading dot starts a hidden name, not an extension
    assert!(!ext_txt.test(&path(&[b".txt"])));
    // the extension is only what follows the last dot
    let ext_gz = NameFilter::ExtensionIs(b"gz".to_vec());
    let ext_tar_gz = NameFilter::ExtensionIs(b"tar.gz".to_vec());
    assert!(ext_gz.test(&path(&[b"x.tar.gz"])));
    assert!(!ext_tar_gz.test(&path(&[b"x.tar.gz"])));
}

#[test]
fn prefix_matches_the_start_of_the_name() {
    let pre = NameFilter::NameStartsWith(b"prefix_".to_vec());
    assert!(pre.test(&path(&[b"sub", b"prefix_c.txt"])));
    assert!(pre.test(&path(&[b"prefix_"])));
    assert!(!pre.test(&path(&[b"prefix"])));
    assert!(!pre.test(&path(&[b"sub_prefix_", b"c.txt"])));
    let empty = NameFilter::NameStartsWith(Vec::new());
    assert!(empty.test(&path(&[b"anything"])));
}
