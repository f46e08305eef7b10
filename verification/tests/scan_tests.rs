use rwatcher::filter::PathFilter;
use rwatcher::search_dir::{scan, File, FsNode};

fn file_node(path: &str, name: &str, modified: u64) -> FsNode {
    FsNode::FileEntry {
        file: File::new(path, Some(modified), Some(modified), Some(modified)),
        name: name.to_string(),
    }
}

fn dir_node(children: Vec<FsNode>) -> FsNode {
    FsNode::DirEntry { children }
}

fn names(files: &Vec<File>) -> Vec<String> {
    files.iter().map(|f| f.name().to_string()).collect()
}

#[test]
fn scan_reports_only_matching_files() {
    let tree = vec![file_node("a.txt", "a.txt", 1), file_node("a.png", "a.png", 2)];
    let filter = PathFilter::parse("*.txt;*.pdf").unwrap();
    let out = scan(&tree, None, &filter);
    assert_eq!(names(&out), vec!["a.txt".to_string()]);
}

#[test]
fn scan_keeps_visit_order_and_metadata() {
    let tree = vec![file_node("b.txt", "b.txt", 7), file_node("a.txt", "a.txt", 3)];
    let filter = PathFilter::parse("*.txt").unwrap();
    let out = scan(&tree, None, &filter);
    assert_eq!(names(&out), vec!["b.txt".to_string(), "a.txt".to_string()]);
    assert_eq!(out[0].last_modified(), Some(7));
    assert_eq!(out[1].last_modified(), Some(3));
    assert_eq!(out[1].last_accessed(), Some(3));
    assert_eq!(out[1].created(), Some(3));
}

#[test]
fn depth_zero_excludes_every_subdirectory() {
    let tree = vec![
        file_node("root.txt", "root.txt", 1),
        dir_node(vec![file_node("sub/one.txt", "one.txt", 2)]),
    ];
    let filter = PathFilter::parse("*.txt").unwrap();
    let out = scan(&tree, Some(0), &filter);
    assert_eq!(names(&out), vec!["root.txt".to_string()]);
}

#[test]
fn depth_one_reaches_exactly_one_level_down() {
    let tree = vec![
        file_node("root.txt", "root.txt", 1),
        dir_node(vec![
            file_node("sub/one.txt", "one.txt", 2),
            dir_node(vec![file_node("sub/deep/two.txt", "two.txt", 3)]),
        ]),
    ];
    let filter = PathFilter::parse("*.txt").unwrap();
    let out = scan(&tree, Some(1), &filter);
    assert_eq!(names(&out), vec!["root.txt".to_string(), "sub/one.txt".to_string()]);
}

#[test]
fn unset_depth_reaches_every_level() {
    let tree = vec![
        file_node("root.txt", "root.txt", 1),
        dir_node(vec![
            file_node("sub/one.txt", "one.txt", 2),
            dir_node(vec![file_node("sub/deep/two.txt", "two.txt", 3)]),
        ]),
    ];
    let filter = PathFilter::parse("*.txt").unwrap();
    let out = scan(&tree, None, &filter);
    assert_eq!(
        names(&out),
        vec!["root.txt".to_string(), "sub/one.txt".to_string(), "sub/deep/two.txt".to_string()]
    );
}

#[test]
fn duplicate_paths_keep_the_first_record() {
    let tree = vec![file_node("a.txt", "a.txt", 1), file_node("a.txt", "a.txt", 9)];
    let filter = PathFilter::parse("*.txt").unwrap();
    let out = scan(&tree, None, &filter);
    assert_eq!(out.len(), 1);
    assert_eq!(out[0].last_modified(), Some(1));
}

#[test]
fn empty_directory_yields_empty_snapshot() {
    let tree = vec![dir_node(vec![])];
    let filter = PathFilter::parse("").unwrap();
    let out = scan(&tree, None, &filter);
    assert!(out.is_empty());
}
