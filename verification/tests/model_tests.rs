use fxv_api::common::RelativePath;
use fxv_api::model::ChangeState;
use fxv_api::model::ChangeStateSet;
use fxv_api::model::ConflictState;
use fxv_api::model::ConflictStateSet;
use fxv_api::model::Directory;
use fxv_api::model::DirectoryEntry;
use fxv_api::model::DirectoryEntryType;
use fxv_api::model::FileMetadata;

#[test]
fn test_state_aggregation() {
    let file1 = DirectoryEntry::new(
        "file1.txt".into(),
        DirectoryEntryType::File {
            metadata: FileMetadata::new(100, 1620000000000),
            change_state: ChangeState::Added,
            conflict_state: ConflictState::NoConflict,
        },
    );

    let file2 = DirectoryEntry::new(
        "file2.txt".into(),
        DirectoryEntryType::File {
            metadata: FileMetadata::new(200, 1620000001000),
            change_state: ChangeState::Modified,
            conflict_state: ConflictState::Unresolved,
        },
    );

    let sub_dir = Directory::new(RelativePath::new("subdir").unwrap(), vec![file2.clone()]);

    let dir = Directory::new(
        RelativePath::new("").unwrap(),
        vec![
            file1.clone(),
            DirectoryEntry::new("subdir".into(), DirectoryEntryType::Directory(Some(sub_dir.clone()))),
        ],
    );

    assert!(dir.change_states.contains(ChangeState::Added));
    assert!(dir.change_states.contains(ChangeState::Modified));
    assert!(!dir.change_states.contains(ChangeState::Deleted));

    assert!(dir.conflict_states.contains(ConflictState::NoConflict));
    assert!(dir.conflict_states.contains(ConflictState::Unresolved));
    assert!(!dir.conflict_states.contains(ConflictState::Resolved));

    // Ensure that the same holds for push_entry
    let mut dir2 = Directory::new(RelativePath::new("").unwrap(), vec![]);
    dir2.push_entry(file1);
    dir2.push_entry(DirectoryEntry {
        name: "subdir".into(),
        info: DirectoryEntryType::Directory(Some(sub_dir)),
    });
    assert_eq!(dir.change_states, dir2.change_states);
    assert_eq!(dir.conflict_states, dir2.conflict_states);
}

fn collect_names(dir: &Directory, names: &mut Vec<String>) {
    for entry in dir.entries() {
        // We annotate unloaded directories specially
        let mut full_path_string = if dir.relative_path().as_str().is_empty() {
            entry.name().to_string()
        } else {
            format!("{}/{}", dir.relative_path().as_str(), entry.name())
        };
        if matches!(entry.info(), DirectoryEntryType::Directory(None)) {
            full_path_string.push_str(" (unloaded)");
        }

        names.push(full_path_string);
        if let DirectoryEntryType::Directory(Some(sub_dir)) = entry.info() {
            collect_names(sub_dir, names);
        }
    }
}

fn new_dir(parent: &DirectoryEntry, name: &str) -> DirectoryEntry {
    let parent_path = match parent.info() {
        DirectoryEntryType::Directory(Some(dir)) => dir.relative_path(),
        _ => panic!("Parent must be a directory"),
    };

    let joined = if parent_path.as_str().is_empty() {
        name.to_string()
    } else {
        format!("{}/{}", parent_path.as_str(), name)
    };
    let relative_path = RelativePath::new(&joined).unwrap();

    DirectoryEntry::new(
        relative_path.file_name().expect("Should have a file name").to_string(),
        DirectoryEntryType::Directory(Some(Directory::new(relative_path, vec![]))),
    )
}

fn push_entry(dir: &mut DirectoryEntry, entry: DirectoryEntry) {
    if let DirectoryEntryType::Directory(Some(_)) = dir.info() {
        match &mut dir.info {
            DirectoryEntryType::Directory(Some(directory)) => directory.push_entry(entry),
            _ => unreachable!(),
        }
    } else {
        panic!("DirectoryEntry is not a directory");
    }
}

fn new_file(name: &str) -> DirectoryEntry {
    DirectoryEntry::new(
        name.to_string(),
        DirectoryEntryType::File {
            metadata: FileMetadata::new(0, 0),
            change_state: ChangeState::default(),
            conflict_state: ConflictState::default(),
        },
    )
}

#[test]
fn test_pruning() {
    let mut root_dir_entry = DirectoryEntry::new(
        "".into(),
        DirectoryEntryType::Directory(Some(Directory::new(RelativePath::new("").unwrap(), vec![]))),
    );

    push_entry(&mut root_dir_entry, new_file("file_root.txt"));

    // Build a dir structure like:
    // file_root.txt
    // subdir_a_l1/
    //   subdir_a_l2/
    //     subdir_a_l3/
    //       subdir_a_l4/
    //         file_d.txt
    // subdir_b_l1/
    //   file_b.txt
    //   subdir_b_l2/
    //     file_c.txt
    let mut subdir_a_l1 = new_dir(&root_dir_entry, "subdir_a_l1");
    let mut subdir_a_l2 = new_dir(&subdir_a_l1, "subdir_a_l2");
    let mut subdir_a_l3 = new_dir(&subdir_a_l2, "subdir_a_l3");
    let mut subdir_a_l4 = new_dir(&subdir_a_l3, "subdir_a_l4");

    push_entry(&mut subdir_a_l4, new_file("file_d.txt"));
    push_entry(&mut subdir_a_l3, subdir_a_l4);
    push_entry(&mut subdir_a_l2, subdir_a_l3);
    push_entry(&mut subdir_a_l1, subdir_a_l2);
    push_entry(&mut root_dir_entry, subdir_a_l1);

    let mut subdir_b_l1 = new_dir(&root_dir_entry, "subdir_b_l1");
    push_entry(&mut subdir_b_l1, new_file("file_b.txt"));
    let mut subdir_b_l2 = new_dir(&subdir_b_l1, "subdir_b_l2");
    push_entry(&mut subdir_b_l2, new_file("file_c.txt"));
    push_entry(&mut subdir_b_l1, subdir_b_l2);
    push_entry(&mut root_dir_entry, subdir_b_l1);

    let root_directory = match &mut root_dir_entry.info {
        DirectoryEntryType::Directory(Some(dir)) => dir,
        _ => panic!("Root should be a directory"),
    };

    let mut names = vec![];
    collect_names(root_directory, &mut names);
    assert_eq!(
        names,
        vec![
            "file_root.txt",
            "subdir_a_l1",
            "subdir_a_l1/subdir_a_l2",
            "subdir_a_l1/subdir_a_l2/subdir_a_l3",
            "subdir_a_l1/subdir_a_l2/subdir_a_l3/subdir_a_l4",
            "subdir_a_l1/subdir_a_l2/subdir_a_l3/subdir_a_l4/file_d.txt",
            "subdir_b_l1",
            "subdir_b_l1/file_b.txt",
            "subdir_b_l1/subdir_b_l2",
            "subdir_b_l1/subdir_b_l2/file_c.txt",
        ]
    );

    // Prune to depth 3
    // This should remove subdir_a_l4 and its contents, but keep everything else
    // subdir_a_l4 SHOULD still be in the list, but its contents should be gone
    root_directory.prune_to_depth(3);
    names.clear();
    collect_names(root_directory, &mut names);
    assert_eq!(
        names,
        vec![
            "file_root.txt",
            "subdir_a_l1",
            "subdir_a_l1/subdir_a_l2",
            "subdir_a_l1/subdir_a_l2/subdir_a_l3",
            // This directory should still be present, but it should be unloaded
            "subdir_a_l1/subdir_a_l2/subdir_a_l3/subdir_a_l4 (unloaded)",
            "subdir_b_l1",
            "subdir_b_l1/file_b.txt",
            "subdir_b_l1/subdir_b_l2",
            // Ensure that files at the prune depth are still present
            "subdir_b_l1/subdir_b_l2/file_c.txt",
        ]
    );

    // Prune to depth 1
    // This should remove subdir_a_l2 and everything under it, and subdir_b_l2 and its contents
    root_directory.prune_to_depth(1);
    names.clear();
    collect_names(root_directory, &mut names);
    assert_eq!(
        names,
        vec![
            "file_root.txt",
            "subdir_a_l1",
            // This directory should still be present, but it should be unloaded
            "subdir_a_l1/subdir_a_l2 (unloaded)",
            "subdir_b_l1",
            "subdir_b_l1/file_b.txt",
            // This directory should still be present, but it should be unloaded
            "subdir_b_l1/subdir_b_l2 (unloaded)",
        ]
    );

    // Try pruning to depth 0
    root_directory.prune_to_depth(0);
    names.clear();
    collect_names(root_directory, &mut names);
    assert_eq!(
        names,
        vec!["file_root.txt", "subdir_a_l1 (unloaded)", "subdir_b_l1 (unloaded)",]
    );
}

#[test]
fn test_prune_idempotence() {
    // Pruning an already-pruned-to-depth-k tree to depth k' >= k is a no-op.
    let mut root_dir_entry = DirectoryEntry::new(
        "".into(),
        DirectoryEntryType::Directory(Some(Directory::new(RelativePath::new("").unwrap(), vec![]))),
    );
    let mut level1 = new_dir(&root_dir_entry, "level1");
    let mut level2 = new_dir(&level1, "level2");
    push_entry(&mut level2, new_file("deep.txt"));
    push_entry(&mut level1, level2);
    push_entry(&mut root_dir_entry, level1);

    let root_directory = match &mut root_dir_entry.info {
        DirectoryEntryType::Directory(Some(dir)) => dir,
        _ => panic!("Root should be a directory"),
    };

    root_directory.prune_to_depth(1);
    let mut after_first = vec![];
    collect_names(root_directory, &mut after_first);

    root_directory.prune_to_depth(1);
    let mut after_same = vec![];
    collect_names(root_directory, &mut after_same);
    assert_eq!(after_first, after_same, "Pruning again to the same depth changes nothing");

    root_directory.prune_to_depth(4);
    let mut after_larger = vec![];
    collect_names(root_directory, &mut after_larger);
    assert_eq!(after_first, after_larger, "Pruning to a larger depth changes nothing");
}

#[test]
fn test_file_metadata() {
    let metadata = FileMetadata::new(4096, 1700000000123);
    assert_eq!(metadata.size_bytes(), 4096);
    assert_eq!(metadata.modified_time_unix_ms_utc(), 1700000000123);
    assert_eq!(metadata, FileMetadata::new(4096, 1700000000123));
}

#[test]
fn test_state_sets() {
    let mut changes = ChangeStateSet::default();
    assert!(!changes.contains(ChangeState::Unchanged));
    assert!(changes.insert(ChangeState::Added), "First insertion is new");
    assert!(!changes.insert(ChangeState::Added), "Second insertion is not");
    assert!(changes.contains(ChangeState::Added));
    assert!(!changes.contains(ChangeState::Modified));

    let mut more = ChangeStateSet::default();
    more.insert(ChangeState::Deleted);
    more.insert_all(changes);
    assert!(more.contains(ChangeState::Added));
    assert!(more.contains(ChangeState::Deleted));
    assert!(!more.contains(ChangeState::Unchanged));

    let mut conflicts = ConflictStateSet::default();
    assert!(conflicts.insert(ConflictState::Incoming));
    assert!(conflicts.contains(ConflictState::Incoming));
    assert!(!conflicts.contains(ConflictState::NoConflict));
    let mut other = ConflictStateSet::default();
    other.insert(ConflictState::Resolved);
    conflicts.insert_all(other);
    assert!(conflicts.contains(ConflictState::Resolved));

    assert_eq!(ChangeState::default(), ChangeState::Unchanged);
    assert_eq!(ConflictState::default(), ConflictState::NoConflict);
}
