use fxv_api::common::RelativePath;

#[test]
fn test_relative_path_creation() {
    let path = RelativePath::new("some/path/to/file.txt").unwrap();
    let path_with_backslashes = RelativePath::new("some\\path\\to\\file.txt").unwrap();

    assert_eq!(
        path.as_str(),
        "some/path/to/file.txt",
        "Path string should match expected format"
    );
    assert_eq!(
        path, path_with_backslashes,
        "Paths with different separators should be equal"
    );

    let path = RelativePath::default();
    assert_eq!(path.as_str(), "", "Default RelativePath should be empty string");

    // Test invalid paths
    let invalid_path = RelativePath::new("/absolute/path");
    assert!(invalid_path.is_err(), "Absolute paths should be invalid");

    let invalid_path = RelativePath::new("trailing/slash/");
    assert!(invalid_path.is_err(), "Paths with trailing slashes should be invalid");

    let invalid_path = RelativePath::new("/");
    assert!(invalid_path.is_err(), "Single slash path should be invalid");
}

#[test]
fn test_relative_path_file_name() {
    let path = RelativePath::new("some/path/to/file.txt").unwrap();
    assert_eq!(path.file_name(), Some("file.txt"), "File name should be 'file.txt'");

    let root_path = RelativePath::new("").unwrap();
    assert_eq!(root_path.file_name(), None, "File name of empty path should be None");
}

#[test]
fn test_relative_path_components() {
    let path = RelativePath::new("some/path/to/file.txt").unwrap();

    // Test fused iterator behavior
    let mut components = path.components();
    assert_eq!(components.next(), Some("some"), "First component should be 'some'");
    assert_eq!(components.next(), Some("path"), "Second component should be 'path'");
    assert_eq!(components.next(), Some("to"), "Third component should be 'to'");
    assert_eq!(
        components.next(),
        Some("file.txt"),
        "Fourth component should be 'file.txt'"
    );
    assert_eq!(components.next(), None, "No more components should be present");
    assert_eq!(
        components.next(),
        None,
        "No more components should be present (fused iterator)"
    );

    // Test walking the iterator into a vector
    let mut components_vec = Vec::new();
    let mut it = path.components();
    while let Some(c) = it.next() {
        components_vec.push(c);
    }
    assert_eq!(
        components_vec,
        vec!["some", "path", "to", "file.txt"],
        "Components should match expected values"
    );

    let path = RelativePath::new("").unwrap();
    assert_eq!(
        path.components().next(),
        None,
        "No components should be present for empty path"
    );
}

#[test]
fn test_ordering() {
    // Standard tests
    let mut paths = vec!["a/b/c/d", "a/b/c", "a/b/d", "a/b/c"];

    paths.sort();
    assert_eq!(
        paths,
        vec!["a/b/c", "a/b/c", "a/b/c/d", "a/b/d",],
        "Paths should be sorted correctly"
    );

    // These will not order correctly based on a simple string comparison since characters like
    // [!,#%] are less than the directory separator '/'

    // By lexicographical component comparison, 'b!/' comes before 'b/' but for our purposes it should come after
    let path1_special_str = "a/b!/c";
    let path2_special_str = "a/b/c";
    assert!(
        path1_special_str < path2_special_str,
        "'a/b!/c' should be less than 'a/b/c' by lexicographical comparison"
    );

    // Ensure that our RelativePath ordering handles this correctly
    let path_special1 = RelativePath::new(path1_special_str).unwrap();
    let path_special2 = RelativePath::new(path2_special_str).unwrap();
    assert!(path_special1 > path_special2, "'a/b!/c' should be greater than 'a/b/c'");
}

#[test]
fn test_common_ancestor() {
    let path1 = RelativePath::new("a/b/c/d").unwrap();
    let path2 = RelativePath::new("a/b/e/f").unwrap();
    let common_ancestor = path1.common_ancestor(&path2);
    assert_eq!(common_ancestor.as_full_str(), "a/b", "Common ancestor should be 'a/b'");

    // Test components starting at common ancestor
    let mut common_ancestor_split = path1.components_starting_at_common_ancestor(&path2);
    assert_eq!(
        common_ancestor_split.as_full_str(),
        "a/b/c/d",
        "Remainder path should be 'a/b/c/d'"
    );
    assert_eq!(
        common_ancestor_split.as_accumulated_str(),
        "a/b",
        "Accumulated path should be 'a/b'"
    );
    assert_eq!(common_ancestor_split.next(), Some("c"), "Next component should be 'c'");
    assert_eq!(
        common_ancestor_split.as_accumulated_str(),
        "a/b/c",
        "Accumulated path should be 'a/b/c'"
    );
    assert_eq!(common_ancestor_split.next(), Some("d"), "Next component should be 'd'");
    assert_eq!(
        common_ancestor_split.as_accumulated_str(),
        "a/b/c/d",
        "Accumulated path should be 'a/b/c/d'"
    );
    assert_eq!(
        common_ancestor_split.next(),
        None,
        "No more components should be present"
    );

    let path1 = RelativePath::new("a/b/c").unwrap();
    let path2 = RelativePath::new("a/b/c/d/e").unwrap();
    let common_ancestor = path1.common_ancestor(&path2);
    assert_eq!(
        common_ancestor.as_full_str(),
        "a/b/c",
        "Common ancestor should be 'a/b/c'"
    );

    let path1 = RelativePath::new("a/b/c").unwrap();
    let path2 = RelativePath::new("d/e/f").unwrap();
    let common_ancestor = path1.common_ancestor(&path2);
    assert_eq!(
        common_ancestor.as_full_str(),
        "",
        "Common ancestor should be empty string"
    );
}

#[test]
fn test_iterator_str() {
    let relative_path = RelativePath::new("a/b/c/d/e.txt").unwrap();
    let mut components = relative_path.components();
    assert_eq!(components.as_full_str(), "a/b/c/d/e.txt");
    assert_eq!(components.as_accumulated_str(), "");
    assert_eq!(components.next(), Some("a"));
    assert_eq!(components.as_accumulated_str(), "a");
    assert_eq!(components.next(), Some("b"));
    assert_eq!(components.as_accumulated_str(), "a/b");
    assert_eq!(components.next(), Some("c"));
    assert_eq!(components.as_accumulated_str(), "a/b/c");
    assert_eq!(components.next(), Some("d"));
    assert_eq!(components.as_accumulated_str(), "a/b/c/d");
    assert_eq!(components.next(), Some("e.txt"));
    assert_eq!(components.as_accumulated_str(), "a/b/c/d/e.txt");
    assert_eq!(components.next(), None);
    assert_eq!(components.as_accumulated_str(), "a/b/c/d/e.txt");
}

#[test]
fn test_components_join_round_trip() {
    // Normalization first, then splitting and rejoining reproduces the
    // normalized string exactly.
    let path = RelativePath::new("alpha\\beta\\gamma.txt").unwrap();
    assert_eq!(path.as_str(), "alpha/beta/gamma.txt");

    let mut joined = String::new();
    let mut it = path.components();
    let mut first = true;
    while let Some(c) = it.next() {
        if !first {
            joined.push('/');
        }
        joined.push_str(c);
        first = false;
    }
    assert_eq!(joined, path.as_str(), "Components joined with '/' should rebuild the path");

    let empty = RelativePath::new("").unwrap();
    assert_eq!(empty.components().next(), None);
}

#[test]
fn test_common_ancestor_self() {
    for raw in ["a", "a/b/c", "some/longer/path/here.txt", ""] {
        let p = RelativePath::new(raw).unwrap();
        let anc = p.common_ancestor(&p);
        assert_eq!(
            anc.as_full_str(),
            p.as_str(),
            "The common ancestor of a path with itself is the path"
        );
    }
}

#[test]
fn test_invalid_path_error_carries_normalized_text() {
    let err = RelativePath::new("bad\\path\\").unwrap_err();
    match err {
        fxv_api::common::RelativePathError::InvalidPath(s) => assert_eq!(s, "bad/path/"),
        other => panic!("unexpected error {:?}", other),
    }
}

#[test]
fn test_sorting_relative_paths_by_components() {
    // Sorting through the path comparator orders siblings as the tree does:
    // "a/b!/c" comes after every path under "a/b", although the raw strings
    // would put it first.
    let mut paths: Vec<RelativePath> = ["a/b!/c", "a/b/c/d", "a/b/d", "a/b/c"]
        .iter()
        .map(|s| RelativePath::new(s).unwrap())
        .collect();
    paths.sort_by(|x, y| x.partial_cmp(y).unwrap());
    let sorted: Vec<&str> = paths.iter().map(|p| p.as_str()).collect();
    assert_eq!(sorted, vec!["a/b/c", "a/b/c/d", "a/b/d", "a/b!/c"]);

    let p = RelativePath::new("a/b").unwrap();
    let q = RelativePath::new("a/b").unwrap();
    assert_eq!(p.partial_cmp(&q), Some(std::cmp::Ordering::Equal));
}

#[test]
fn test_components_starting_at_disjoint_paths() {
    // With no shared prefix the iterator is not advanced at all: every
    // component of the path is still yielded.
    let a = RelativePath::new("a").unwrap();
    let x = RelativePath::new("x").unwrap();
    let mut it = a.components_starting_at_common_ancestor(&x);
    assert_eq!(it.as_full_str(), "a");
    assert_eq!(it.as_accumulated_str(), "");
    assert_eq!(it.next(), Some("a"));
    assert_eq!(it.as_accumulated_str(), "a");
    assert_eq!(it.next(), None);

    let p = RelativePath::new("a/b/c").unwrap();
    let q = RelativePath::new("x/y").unwrap();
    let mut it = p.components_starting_at_common_ancestor(&q);
    assert_eq!(it.as_full_str(), "a/b/c");
    assert_eq!(it.next(), Some("a"));
    assert_eq!(it.next(), Some("b"));
    assert_eq!(it.next(), Some("c"));
    assert_eq!(it.next(), None);
    assert_eq!(it.as_accumulated_str(), "a/b/c");
}
