use fxv_api::builder::build_directory_tree;
use fxv_api::builder::DirStack;
use fxv_api::builder::WalkEntry;
use fxv_api::common::RelativePath;
use fxv_api::model::ChangeState;
use fxv_api::model::ConflictState;
use fxv_api::model::Directory;
use fxv_api::model::DirectoryEntry;
use fxv_api::model::DirectoryEntryType;
use fxv_api::model::FileMetadata;
use fxv_api::resolver::fetch_directory;
use fxv_api::resolver::DirectoryFetchOptions;
use fxv_api::resolver::FetchDirectoryError;

fn walk_dir(path: &str) -> WalkEntry {
    WalkEntry {
        relative_path: RelativePath::new(path).unwrap(),
        is_directory: true,
        metadata: FileMetadata::new(0, 0),
    }
}

fn walk_file(path: &str, size: u64, mtime: u64) -> WalkEntry {
    WalkEntry {
        relative_path: RelativePath::new(path).unwrap(),
        is_directory: false,
        metadata: FileMetadata::new(size, mtime),
    }
}

fn flatten_files(dir: &Directory, prefix: &str, out: &mut Vec<String>) {
    for entry in dir.entries() {
        let full = if prefix.is_empty() {
            entry.name().to_string()
        } else {
            format!("{}/{}", prefix, entry.name())
        };
        match entry.info() {
            DirectoryEntryType::File { .. } => out.push(full),
            DirectoryEntryType::Directory(Some(sub)) => flatten_files(sub, &full, out),
            DirectoryEntryType::Directory(None) => {}
        }
    }
}

fn find<'a>(dir: &'a Directory, name: &str) -> &'a DirectoryEntry {
    dir.entries()
        .iter()
        .find(|e| e.name() == name)
        .unwrap_or_else(|| panic!("entry {} should exist", name))
}

#[test]
fn test_build_flatten_round_trip() {
    let entries = vec![
        walk_dir("a"),
        walk_dir("a/b"),
        walk_file("a/b/c.txt", 10, 1000),
        walk_file("a/d.txt", 5, 2000),
    ];
    let root = build_directory_tree(&entries);

    assert_eq!(root.relative_path().as_str(), "");
    assert_eq!(root.entries().len(), 1, "Root should hold exactly the entry 'a'");

    let a = find(&root, "a");
    let a_dir = match a.info() {
        DirectoryEntryType::Directory(Some(d)) => d,
        _ => panic!("'a' should be a loaded directory"),
    };
    assert_eq!(a_dir.relative_path().as_str(), "a");

    let b = find(a_dir, "b");
    let b_dir = match b.info() {
        DirectoryEntryType::Directory(Some(d)) => d,
        _ => panic!("'b' should be a loaded directory"),
    };
    let c = find(b_dir, "c.txt");
    match c.info() {
        DirectoryEntryType::File { metadata, change_state, conflict_state } => {
            assert_eq!(metadata.size_bytes(), 10);
            assert_eq!(metadata.modified_time_unix_ms_utc(), 1000);
            assert_eq!(*change_state, ChangeState::Unchanged);
            assert_eq!(*conflict_state, ConflictState::NoConflict);
        }
        _ => panic!("'c.txt' should be a file"),
    }

    let d = find(a_dir, "d.txt");
    match d.info() {
        DirectoryEntryType::File { metadata, .. } => {
            assert_eq!(metadata.size_bytes(), 5);
            assert_eq!(metadata.modified_time_unix_ms_utc(), 2000);
        }
        _ => panic!("'d.txt' should be a file"),
    }

    // A depth-first flatten of the tree's file paths reproduces the sorted
    // input file sequence exactly.
    let mut files = Vec::new();
    flatten_files(&root, "", &mut files);
    assert_eq!(files, vec!["a/b/c.txt", "a/d.txt"]);
}

#[test]
fn test_build_without_directory_markers() {
    // Ancestor directories need not be listed when they can be inferred from
    // their children's paths.
    let entries = vec![
        walk_file("x/y/one.txt", 1, 1),
        walk_file("x/y/two.txt", 2, 2),
        walk_file("x/z.txt", 3, 3),
        walk_file("zz.txt", 4, 4),
    ];
    let root = build_directory_tree(&entries);
    let mut files = Vec::new();
    flatten_files(&root, "", &mut files);
    assert_eq!(files, vec!["x/y/one.txt", "x/y/two.txt", "x/z.txt", "zz.txt"]);
}

#[test]
fn test_dir_stack() {
    let mut stack = DirStack::new();
    assert_eq!(stack.last().relative_path().as_str(), "");
    stack.push_directory(RelativePath::new("docs").unwrap());
    stack.push_file("readme.md", FileMetadata::new(7, 70));
    assert_eq!(stack.last().relative_path().as_str(), "docs");
    stack.pop_tail();
    assert_eq!(stack.last().relative_path().as_str(), "");
    let root = stack.finalize();
    let docs = find(&root, "docs");
    match docs.info() {
        DirectoryEntryType::Directory(Some(d)) => {
            let readme = find(d, "readme.md");
            assert!(matches!(readme.info(), DirectoryEntryType::File { .. }));
        }
        _ => panic!("'docs' should be a loaded directory"),
    }
}

fn sample_tree() -> Directory {
    let mut root = Directory::new(RelativePath::new("").unwrap(), vec![]);

    let mut sub_dir = Directory::new(RelativePath::new("subdir").unwrap(), vec![]);

    let mut sub_sub_dir = Directory::new(RelativePath::new("subdir/nested").unwrap(), vec![]);

    sub_sub_dir.push_entry(DirectoryEntry::new(
        "file.txt".into(),
        DirectoryEntryType::File {
            metadata: FileMetadata::new(0, 0),
            change_state: Default::default(),
            conflict_state: Default::default(),
        },
    ));

    sub_dir.push_entry(DirectoryEntry::new(
        "nested".into(),
        DirectoryEntryType::Directory(Some(sub_sub_dir)),
    ));

    root.push_entry(DirectoryEntry::new(
        "subdir".into(),
        DirectoryEntryType::Directory(Some(sub_dir)),
    ));

    root
}

#[test]
fn test_fetch_directory() {
    let root = sample_tree();
    let fetch_options = DirectoryFetchOptions::default();

    let dir = fetch_directory(
        &root,
        &RelativePath::new("missing/path").unwrap(),
        &fetch_options,
    )
    .unwrap();
    assert!(dir.is_none());

    let dir = fetch_directory(&root, &RelativePath::new("subdir").unwrap(), &fetch_options)
        .unwrap()
        .expect("subdir should exist");
    assert_eq!(dir.relative_path().as_str(), "subdir");

    let dir = fetch_directory(
        &root,
        &RelativePath::new("subdir/nested").unwrap(),
        &fetch_options,
    )
    .unwrap()
    .expect("subdir/nested should exist");
    assert_eq!(dir.relative_path().as_str(), "subdir/nested");

    let dir = fetch_directory(
        &root,
        &RelativePath::new("subdir/nested/file.txt").unwrap(),
        &fetch_options,
    )
    .unwrap();
    assert!(dir.is_none(), "A path through a file entry resolves to nothing");
}

#[test]
fn test_fetch_whole_tree_and_depth_limit() {
    let root = sample_tree();

    // Fetching the empty path returns the whole tree.
    let whole = fetch_directory(
        &root,
        &RelativePath::new("").unwrap(),
        &DirectoryFetchOptions::default(),
    )
    .unwrap()
    .expect("the whole tree should be returned");
    assert_eq!(whole.relative_path().as_str(), "");
    let mut files = Vec::new();
    flatten_files(&whole, "", &mut files);
    assert_eq!(files, vec!["subdir/nested/file.txt"]);

    // With depth limit 0 the immediate entries stay visible, nested
    // directories are present but unloaded.
    let options = DirectoryFetchOptions { depth_limit: Some(0), filter_string: None };
    let shallow = fetch_directory(&root, &RelativePath::new("").unwrap(), &options)
        .unwrap()
        .expect("the root itself should be returned");
    assert_eq!(shallow.entries().len(), 1);
    let subdir = find(&shallow, "subdir");
    assert!(
        matches!(subdir.info(), DirectoryEntryType::Directory(None)),
        "nested directories are unloaded at depth 0"
    );

    // The source tree is unchanged: the result was an independent copy.
    let mut files = Vec::new();
    flatten_files(&root, "", &mut files);
    assert_eq!(files, vec!["subdir/nested/file.txt"]);
}

#[test]
fn test_fetch_unloaded_directory_is_an_error() {
    let mut root = Directory::new(RelativePath::new("").unwrap(), vec![]);
    root.push_entry(DirectoryEntry::new(
        "ghost".into(),
        DirectoryEntryType::Directory(None),
    ));

    let result = fetch_directory(
        &root,
        &RelativePath::new("ghost/inner").unwrap(),
        &DirectoryFetchOptions::default(),
    );
    assert!(matches!(result, Err(FetchDirectoryError::UnloadedDirectory)));
}
