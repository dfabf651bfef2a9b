use fs_inspector::entry::DirEntry;
use fs_inspector::order::sort_entries;

fn file(name: &str, size: u64) -> DirEntry {
    DirEntry {
        name: name.to_string(),
        path: format!("/r/{}", name),
        is_dir: false,
        is_file: true,
        children: None,
        size: Some(size),
    }
}

fn dir(name: &str) -> DirEntry {
    DirEntry {
        name: name.to_string(),
        path: format!("/r/{}", name),
        is_dir: true,
        is_file: false,
        children: None,
        size: None,
    }
}

fn names(list: &[DirEntry]) -> Vec<String> {
    list.iter().map(|e| e.name.clone()).collect()
}

#[test]
fn directories_come_first() {
    let sorted = sort_entries(vec![file("a", 1), dir("z"), file("b", 2), dir("y")]);
    assert_eq!(names(&sorted), vec!["y", "z", "a", "b"]);
}

#[test]
fn names_compare_without_regard_to_case() {
    let sorted = sort_entries(vec![file("B", 1), file("a", 2), file("C", 3)]);
    assert_eq!(names(&sorted), vec!["a", "B", "C"]);
}

#[test]
fn ties_keep_their_given_order() {
    let sorted = sort_entries(vec![file("readme", 1), file("README", 2), file("ReadMe", 3)]);
    assert_eq!(names(&sorted), vec!["readme", "README", "ReadMe"]);
    assert_eq!(sorted[0].size, Some(1));
    assert_eq!(sorted[1].size, Some(2));
    assert_eq!(sorted[2].size, Some(3));
    let sorted = sort_entries(vec![file("README", 2), file("s", 0), file("readme", 1)]);
    assert_eq!(names(&sorted), vec!["README", "readme", "s"]);
}

#[test]
fn a_prefix_comes_before_its_extensions() {
    let sorted = sort_entries(vec![file("abc", 1), file("ab", 2), file("a", 3), file("abd", 4)]);
    assert_eq!(names(&sorted), vec!["a", "ab", "abc", "abd"]);
}

#[test]
fn folding_goes_beyond_ascii() {
    let sorted = sort_entries(vec![file("Éz", 1), file("éa", 2), file("zeta", 3)]);
    assert_eq!(names(&sorted), vec!["zeta", "éa", "Éz"]);
}

#[test]
fn nodes_that_are_neither_sort_with_the_files() {
    let other = DirEntry {
        name: "m".to_string(),
        path: "/r/m".to_string(),
        is_dir: false,
        is_file: false,
        children: None,
        size: None,
    };
    let sorted = sort_entries(vec![file("z", 1), other, file("a", 2), dir("k")]);
    assert_eq!(names(&sorted), vec!["k", "a", "m", "z"]);
}

#[test]
fn sorting_keeps_every_entry() {
    let given = vec![file("d", 4), dir("c"), file("b", 2), dir("a"), file("B", 9)];
    let sorted = sort_entries(given.clone());
    assert_eq!(sorted.len(), given.len());
    for entry in &given {
        assert!(sorted.contains(entry));
    }
    assert_eq!(names(&sorted), vec!["a", "c", "b", "B", "d"]);
}

#[test]
fn sorting_twice_changes_nothing() {
    let once = sort_entries(vec![file("d", 4), dir("c"), file("b", 2), dir("a"), file("B", 9)]);
    let twice = sort_entries(once.clone());
    assert_eq!(once, twice);
}

#[test]
fn nothing_sorts_to_nothing() {
    assert_eq!(sort_entries(Vec::new()), Vec::new());
}

#[test]
fn a_copy_is_equal_at_every_depth() {
    let mut top = dir("top");
    let mut mid = dir("mid");
    mid.children = Some(vec![file("leaf", 3)]);
    top.children = Some(vec![mid, file("side", 1)]);
    let copy = top.clone();
    assert_eq!(copy, top);
    assert_eq!(copy.children.as_ref().unwrap()[0].children.as_ref().unwrap()[0].name, "leaf");
}
