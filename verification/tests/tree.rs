use dirstat::node::{DirStat, Kind};
use dirstat::scan::{next_step, Scanned, Step};

fn file(path: &str, len: u64) -> Scanned {
    Scanned::File { path: path.to_string(), len }
}

fn sample() -> DirStat {
    let c = DirStat::directory(1, "root/c".to_string(), vec![file("root/c/d", 600)]);
    DirStat::directory(
        0,
        "root".to_string(),
        vec![file("root/a", 300), file("root/b", 100), Scanned::Directory { subtree: Some(c) }],
    )
}

#[test]
fn file_node_holds_what_it_was_given() {
    let f = DirStat::file(3, "x/y".to_string(), 42);
    assert_eq!(f.size, 42);
    assert_eq!(f.kind, Kind::File);
    assert_eq!(f.depth, 3);
    assert_eq!(f.path, "x/y");
    assert!(f.children.is_empty());
}

#[test]
fn directory_size_is_the_sum_of_its_children() {
    let root = sample();
    assert_eq!(root.size, 1000);
    assert_eq!(root.kind, Kind::Directory);
    assert_eq!(root.depth, 0);
    assert_eq!(root.path, "root");
    let sum: u64 = root.children.iter().map(|c| c.size).sum();
    assert_eq!(sum, 1000);
    assert_eq!(root.children[0].size, 600);
    assert_eq!(root.children[0].children[0].size, 600);
}

#[test]
fn children_come_largest_first() {
    let root = sample();
    let paths: Vec<&str> = root.children.iter().map(|c| c.path.as_str()).collect();
    assert_eq!(paths, vec!["root/c", "root/a", "root/b"]);
    let sizes: Vec<u64> = root.children.iter().map(|c| c.size).collect();
    assert_eq!(sizes, vec![600, 300, 100]);
}

#[test]
fn children_lie_one_level_deeper() {
    let root = sample();
    for child in root.children.iter() {
        assert_eq!(child.depth, 1);
    }
    assert_eq!(root.children[0].children[0].depth, 2);
    assert_eq!(root.children[0].children[0].kind, Kind::File);
    assert_eq!(root.children[0].kind, Kind::Directory);
}

#[test]
fn equal_sizes_keep_listing_order() {
    let d = DirStat::directory(
        0,
        "r".to_string(),
        vec![file("x", 5), file("z", 7), file("y", 5), file("w", 7), file("v", 5)],
    );
    let paths: Vec<&str> = d.children.iter().map(|c| c.path.as_str()).collect();
    assert_eq!(paths, vec!["z", "w", "x", "y", "v"]);
    assert_eq!(d.size, 29);
}

#[test]
fn symlinks_add_no_node_and_no_bytes() {
    let d = DirStat::directory(
        0,
        "r".to_string(),
        vec![Scanned::Symlink, file("x", 5), Scanned::Symlink],
    );
    assert_eq!(d.size, 5);
    assert_eq!(d.children.len(), 1);
    assert_eq!(d.children[0].path, "x");
}

#[test]
fn unreadable_and_other_entries_are_skipped() {
    let d = DirStat::directory(
        2,
        "r".to_string(),
        vec![Scanned::Unreadable, Scanned::Other, file("x", 9)],
    );
    assert_eq!(d.size, 9);
    assert_eq!(d.depth, 2);
    assert_eq!(d.children.len(), 1);
    assert_eq!(d.children[0].depth, 3);
}

#[test]
fn unreadable_subdirectory_is_left_out() {
    let d = DirStat::directory(
        0,
        "root".to_string(),
        vec![file("root/a", 300), Scanned::Directory { subtree: None }, file("root/b", 100)],
    );
    assert_eq!(d.size, 400);
    let paths: Vec<&str> = d.children.iter().map(|c| c.path.as_str()).collect();
    assert_eq!(paths, vec!["root/a", "root/b"]);
}

#[test]
fn empty_directory_has_size_zero() {
    let d = DirStat::directory(0, "empty".to_string(), Vec::new());
    assert_eq!(d.size, 0);
    assert!(d.children.is_empty());
    assert_eq!(d.kind, Kind::Directory);
}

#[test]
fn sizes_up_to_the_largest_are_summed() {
    let d = DirStat::directory(0, "r".to_string(), vec![file("x", u64::MAX - 1), file("y", 1)]);
    assert_eq!(d.size, u64::MAX);
    assert_eq!(d.children[0].path, "x");
}

#[test]
fn checked_directory_gives_the_node_where_the_sizes_fit() {
    let d = DirStat::checked_directory(0, "r".to_string(), vec![file("x", 5), file("y", 8)]);
    let d = d.unwrap();
    assert_eq!(d.size, 13);
    assert_eq!(d.children[0].path, "y");
    assert_eq!(d.children[1].path, "x");
}

#[test]
fn checked_directory_gives_nothing_on_overflow() {
    let d = DirStat::checked_directory(0, "r".to_string(), vec![file("x", u64::MAX), file("y", 1)]);
    assert!(d.is_none());
    let d = DirStat::checked_directory(u32::MAX, "r".to_string(), vec![file("x", 1)]);
    assert!(d.is_none());
}

#[test]
fn steps_by_entry_type() {
    assert_eq!(next_step(true, false, false), Step::Descend);
    assert_eq!(next_step(false, true, false), Step::Measure);
    assert_eq!(next_step(false, false, true), Step::SkipSymlink);
    assert_eq!(next_step(false, false, false), Step::SkipOther);
    assert_eq!(next_step(true, true, true), Step::Descend);
    assert_eq!(next_step(false, true, true), Step::Measure);
}

#[test]
fn deepest_level_holds_a_directory_without_files() {
    let d = DirStat::checked_directory(u32::MAX, "r".to_string(), Vec::new()).unwrap();
    assert_eq!(d.depth, u32::MAX);
    assert_eq!(d.size, 0);
    assert_eq!(d.kind, Kind::Directory);
    assert!(d.children.is_empty());
    let d = DirStat::checked_directory(
        u32::MAX,
        "r".to_string(),
        vec![Scanned::Symlink, Scanned::Unreadable, Scanned::Directory { subtree: None }],
    )
    .unwrap();
    assert_eq!(d.size, 0);
    assert!(d.children.is_empty());
    let d = DirStat::directory(u32::MAX, "q".to_string(), vec![Scanned::Other]);
    assert_eq!(d.path, "q");
    assert_eq!(d.depth, u32::MAX);
}

#[test]
fn level_before_the_deepest_holds_files() {
    let d = DirStat::checked_directory(u32::MAX - 1, "r".to_string(), vec![file("x", 1)]).unwrap();
    assert_eq!(d.children[0].depth, u32::MAX);
    assert_eq!(d.size, 1);
}
