use dirstat::node::DirStat;
use dirstat::render::{line_for, line_with, percent, render};
use dirstat::scan::Scanned;
use dirstat::text::{blank_string, decimal, decimal_padded, indent, left_aligned, size_text};

fn entry(path: &str, len: u64) -> Scanned {
    Scanned::File { path: path.to_string(), len }
}

fn scenario() -> DirStat {
    let c = DirStat::directory(1, "root/c".to_string(), vec![entry("root/c/d", 600)]);
    DirStat::directory(
        0,
        "root".to_string(),
        vec![entry("root/a", 300), entry("root/b", 100), Scanned::Directory { subtree: Some(c) }],
    )
}

#[test]
fn report_to_depth_one() {
    let root = scenario();
    let lines = render(&root, 1, 0, 0);
    assert_eq!(
        lines,
        vec![
            "0:D:100%:      1 KB root".to_string(),
            "    1:D: 60%:     600 B root/c".to_string(),
            "    1:F: 30%:     300 B root/a".to_string(),
            "    1:F: 10%:     100 B root/b".to_string(),
        ]
    );
}

#[test]
fn report_with_threshold_fifty() {
    let root = scenario();
    let lines = render(&root, 1, 50, 0);
    assert_eq!(
        lines,
        vec![
            "0:D:100%:      1 KB root".to_string(),
            "    1:D: 60%:     600 B root/c".to_string(),
        ]
    );
}

#[test]
fn report_to_depth_two_lists_a_node_before_its_children() {
    let root = scenario();
    let lines = render(&root, 2, 0, 0);
    assert_eq!(
        lines,
        vec![
            "0:D:100%:      1 KB root".to_string(),
            "    1:D: 60%:     600 B root/c".to_string(),
            "      2:F:100%:     600 B root/c/d".to_string(),
            "    1:F: 30%:     300 B root/a".to_string(),
            "    1:F: 10%:     100 B root/b".to_string(),
        ]
    );
}

#[test]
fn report_to_depth_zero_is_the_root_alone() {
    let root = scenario();
    assert_eq!(render(&root, 0, 0, 0), vec!["0:D:100%:      1 KB root".to_string()]);
}

#[test]
fn root_is_listed_whatever_the_threshold() {
    let root = scenario();
    assert_eq!(render(&root, 5, 101, 7), vec!["0:D:100%:      1 KB root".to_string()]);
    assert_eq!(render(&root, 0, u32::MAX, u64::MAX), vec!["0:D:100%:      1 KB root".to_string()]);
}

#[test]
fn node_beyond_the_depth_gives_nothing() {
    let deep = DirStat::directory(2, "a/b".to_string(), vec![entry("a/b/c", 10)]);
    assert!(render(&deep, 1, 0, 100).is_empty());
    assert_eq!(render(&deep, 2, 0, 100).len(), 1);
    assert_eq!(render(&deep, 3, 0, 100).len(), 2);
}

#[test]
fn pruned_child_hides_what_lies_below_it() {
    let small = DirStat::directory(1, "r/s".to_string(), vec![entry("r/s/all", 10)]);
    let root = DirStat::directory(
        0,
        "r".to_string(),
        vec![entry("r/big", 90), Scanned::Directory { subtree: Some(small) }],
    );
    let lines = render(&root, 9, 50, 0);
    assert_eq!(
        lines,
        vec!["0:D:100%:     100 B r".to_string(), "    1:F: 90%:      90 B r/big".to_string()]
    );
}

#[test]
fn share_of_an_empty_parent_is_zero() {
    let root = DirStat::directory(0, "r".to_string(), vec![entry("r/e", 0)]);
    let lines = render(&root, 1, 0, 0);
    assert_eq!(
        lines,
        vec!["0:D:100%:       0 B r".to_string(), "    1:F:  0%:       0 B r/e".to_string()]
    );
    assert!(render(&root, 1, 1, 0).len() == 1);
}

#[test]
fn percent_rounds_down() {
    assert_eq!(percent(300, 1000), 30);
    assert_eq!(percent(999, 1000), 99);
    assert_eq!(percent(1, 3), 33);
    assert_eq!(percent(2, 3), 66);
    assert_eq!(percent(0, 10), 0);
    assert_eq!(percent(10, 10), 100);
    assert_eq!(percent(25, 10), 250);
}

#[test]
fn percent_of_zero_parent_is_zero() {
    assert_eq!(percent(5, 0), 0);
    assert_eq!(percent(0, 0), 0);
}

#[test]
fn percent_stops_at_the_largest_value() {
    assert_eq!(percent(u64::MAX, 1), u32::MAX);
    assert_eq!(percent(u64::MAX, u64::MAX), 100);
    assert_eq!(percent(u64::MAX - 1, u64::MAX), 99);
}

#[test]
fn decimal_numbers() {
    assert_eq!(decimal(0), "0");
    assert_eq!(decimal(7), "7");
    assert_eq!(decimal(10), "10");
    assert_eq!(decimal(1234567890), "1234567890");
    assert_eq!(decimal(u32::MAX), "4294967295");
}

#[test]
fn decimal_numbers_right_aligned() {
    assert_eq!(decimal_padded(7, 3), "  7");
    assert_eq!(decimal_padded(42, 3), " 42");
    assert_eq!(decimal_padded(100, 3), "100");
    assert_eq!(decimal_padded(1234, 3), "1234");
    assert_eq!(decimal_padded(5, 0), "5");
}

#[test]
fn blanks_and_indentation() {
    assert_eq!(blank_string(0), "");
    assert_eq!(blank_string(3), "   ");
    assert_eq!(indent(0), "");
    assert_eq!(indent(2), "    ");
    assert_eq!(left_aligned("ab", 4), "ab  ");
    assert_eq!(left_aligned("abcd", 4), "abcd");
    assert_eq!(left_aligned("abcde", 4), "abcde");
}

#[test]
fn size_column_is_ten_wide_and_right_aligned() {
    assert_eq!(size_text(0), "       0 B");
    assert_eq!(size_text(999), "     999 B");
    assert_eq!(size_text(1000), "      1 KB");
    assert_eq!(size_text(1500), "   1.50 KB");
    assert_eq!(size_text(1_000_000), "      1 MB");
    assert_eq!(size_text(123_456_789), " 123.46 MB");
}

#[test]
fn line_of_a_root_and_of_a_nested_node() {
    let root = DirStat::directory(0, ".".to_string(), Vec::new());
    assert_eq!(line_for(&root, 0), "0:D:100%:       0 B .");
    assert_eq!(line_for(&root, 500), "0:D:100%:       0 B .");
    let f = DirStat::file(3, "a/b/c".to_string(), 2500);
    assert_eq!(line_for(&f, 10_000), "        3:F: 25%:   2.50 KB a/b/c");
}

#[test]
fn line_with_a_given_size_text() {
    let f = DirStat::file(1, "p".to_string(), 1);
    assert_eq!(line_with(&f, 5, "xyz"), "    1:F:  5%:xyz        p");
    assert_eq!(line_with(&f, 250, "0123456789ab"), "    1:F:250%:0123456789ab p");
    let r = DirStat::file(0, "p".to_string(), 1);
    assert_eq!(line_with(&r, 5, "xyz"), "0:F:100%:xyz p");
}

#[test]
fn unreadable_subdirectory_is_missing_from_the_report() {
    let root = DirStat::directory(
        0,
        "root".to_string(),
        vec![entry("root/a", 300), Scanned::Directory { subtree: None }, entry("root/b", 100)],
    );
    let lines = render(&root, 3, 0, 0);
    assert_eq!(
        lines,
        vec![
            "0:D:100%:     400 B root".to_string(),
            "    1:F: 75%:     300 B root/a".to_string(),
            "    1:F: 25%:     100 B root/b".to_string(),
        ]
    );
}

#[test]
fn symlink_is_missing_from_the_report() {
    let root = DirStat::directory(
        0,
        "root".to_string(),
        vec![Scanned::Symlink, entry("root/a", 2_000_000)],
    );
    let lines = render(&root, 1, 0, 0);
    assert_eq!(
        lines,
        vec![
            "0:D:100%:      2 MB root".to_string(),
            "    1:F:100%:      2 MB root/a".to_string(),
        ]
    );
}
