use fs_inspector::entry::DirEntry;
use fs_inspector::error::ScanError;
use fs_inspector::observe::{DirRecord, Observed, Probe, RawEntry};
use fs_inspector::snapshot::list_dir;

fn raw(dir: &str, name: &str, probe: Probe) -> RawEntry {
    RawEntry { name: name.to_string(), path: format!("{}/{}", dir, name), probe }
}

fn record(path: &str, level: u32, entries: Vec<RawEntry>) -> DirRecord {
    DirRecord { path: path.to_string(), level, entries: Some(entries) }
}

fn names(list: &[DirEntry]) -> Vec<String> {
    list.iter().map(|e| e.name.clone()).collect()
}

fn project() -> Observed {
    Observed {
        root: Probe::Directory,
        records: vec![
            record(
                "/p",
                0,
                vec![
                    raw("/p", ".git", Probe::Directory),
                    raw("/p", "src", Probe::Directory),
                    raw("/p", "README.md", Probe::File(120)),
                    raw("/p", "Main.java", Probe::File(64)),
                ],
            ),
            record("/p/src", 1, vec![raw("/p/src", "a.ts", Probe::File(7))]),
        ],
    }
}

#[test]
fn a_project_is_listed_one_level_deep() {
    let taken = list_dir("/p".to_string(), Some(1), &project()).unwrap();
    assert_eq!(names(&taken), vec!["src", "Main.java", "README.md"]);
    let src = &taken[0];
    assert!(src.is_dir && !src.is_file);
    assert_eq!(src.path, "/p/src");
    assert_eq!(src.size, None);
    let below = src.children.as_ref().unwrap();
    assert_eq!(names(below), vec!["a.ts"]);
    assert_eq!(below[0].size, Some(7));
    assert_eq!(below[0].children, None);
    assert!(taken[1].is_file && !taken[1].is_dir);
    assert_eq!(taken[1].size, Some(64));
    assert_eq!(taken[1].children, None);
    assert_eq!(taken[2].size, Some(120));
}

#[test]
fn default_depth_is_one() {
    let with_default = list_dir("/p".to_string(), None, &project()).unwrap();
    let with_one = list_dir("/p".to_string(), Some(1), &project()).unwrap();
    assert_eq!(with_default, with_one);
}

#[test]
fn depth_zero_leaves_children_absent() {
    let taken = list_dir("/p".to_string(), Some(0), &project()).unwrap();
    assert_eq!(names(&taken), vec!["src", "Main.java", "README.md"]);
    assert_eq!(taken[0].children, None);
}

#[test]
fn missing_root_is_not_found() {
    let seen = Observed { root: Probe::Missing, records: vec![] };
    assert_eq!(list_dir("/nowhere".to_string(), Some(1), &seen), Err(ScanError::NotFound));
}

#[test]
fn file_root_is_not_a_directory() {
    let seen = Observed { root: Probe::File(3), records: vec![] };
    assert_eq!(list_dir("/p/file".to_string(), None, &seen), Err(ScanError::NotADirectory));
    let seen = Observed { root: Probe::Other, records: vec![] };
    assert_eq!(list_dir("/p/socket".to_string(), None, &seen), Err(ScanError::NotADirectory));
}

fn unread(path: &str, level: u32) -> DirRecord {
    DirRecord { path: path.to_string(), level, entries: None }
}

fn deep() -> Observed {
    Observed {
        root: Probe::Directory,
        records: vec![
            record("/d", 0, vec![raw("/d", "a", Probe::Directory), raw("/d", "f", Probe::File(1))]),
            record("/d/a", 1, vec![raw("/d/a", "b", Probe::Directory)]),
            record("/d/a/b", 2, vec![raw("/d/a/b", "c", Probe::Directory)]),
            record("/d/a/b/c", 3, vec![raw("/d/a/b/c", "leaf", Probe::File(9))]),
        ],
    }
}

fn depth_of(entry: &DirEntry) -> u32 {
    match &entry.children {
        None => 0,
        Some(below) => 1 + below.iter().map(depth_of).max().unwrap_or(0),
    }
}

#[test]
fn nothing_is_expanded_beyond_the_limit() {
    for limit in 0..5u32 {
        let taken = list_dir("/d".to_string(), Some(limit), &deep()).unwrap();
        let deepest = taken.iter().map(depth_of).max().unwrap();
        assert!(deepest <= limit);
        assert_eq!(deepest, limit.min(3));
    }
}

#[test]
fn at_the_limit_children_are_absent_not_empty() {
    let taken = list_dir("/d".to_string(), Some(2), &deep()).unwrap();
    let a = &taken[0];
    let b = &a.children.as_ref().unwrap()[0];
    let c = &b.children.as_ref().unwrap()[0];
    assert_eq!(c.name, "c");
    assert!(c.is_dir);
    assert_eq!(c.children, None);
}

#[test]
fn an_expanded_empty_directory_has_an_empty_list() {
    let seen = Observed {
        root: Probe::Directory,
        records: vec![
            record("/e", 0, vec![raw("/e", "empty", Probe::Directory)]),
            record("/e/empty", 1, vec![]),
        ],
    };
    let taken = list_dir("/e".to_string(), Some(1), &seen).unwrap();
    assert_eq!(taken[0].children, Some(Vec::new()));
    let taken = list_dir("/e".to_string(), Some(0), &seen).unwrap();
    assert_eq!(taken[0].children, None);
}

#[test]
fn an_empty_root_gives_an_empty_snapshot() {
    let seen = Observed { root: Probe::Directory, records: vec![record("/e", 0, vec![])] };
    assert_eq!(list_dir("/e".to_string(), None, &seen), Ok(Vec::new()));
}

#[test]
fn excluded_names_are_absent_at_every_depth() {
    let seen = Observed {
        root: Probe::Directory,
        records: vec![
            record(
                "/p",
                0,
                vec![
                    raw("/p", "node_modules", Probe::Directory),
                    raw("/p", "pkg", Probe::Directory),
                    raw("/p", ".env", Probe::File(3)),
                ],
            ),
            record(
                "/p/pkg",
                1,
                vec![
                    raw("/p/pkg", "target", Probe::Directory),
                    raw("/p/pkg", "__pycache__", Probe::Directory),
                    raw("/p/pkg", ".hidden", Probe::File(1)),
                    raw("/p/pkg", "lib.rs", Probe::File(2)),
                ],
            ),
            record("/p/node_modules", 1, vec![raw("/p/node_modules", "x.js", Probe::File(1))]),
        ],
    };
    let taken = list_dir("/p".to_string(), Some(3), &seen).unwrap();
    assert_eq!(names(&taken), vec!["pkg"]);
    assert_eq!(names(taken[0].children.as_ref().unwrap()), vec!["lib.rs"]);
}

#[test]
fn a_vanished_entry_is_dropped() {
    let seen = Observed {
        root: Probe::Directory,
        records: vec![record(
            "/v",
            0,
            vec![raw("/v", "gone", Probe::Missing), raw("/v", "here", Probe::File(4))],
        )],
    };
    let taken = list_dir("/v".to_string(), None, &seen).unwrap();
    assert_eq!(names(&taken), vec!["here"]);
}

#[test]
fn a_failed_lookup_under_the_root_fails_the_snapshot() {
    let seen = Observed {
        root: Probe::Directory,
        records: vec![record(
            "/v",
            0,
            vec![raw("/v", "ok", Probe::File(4)), raw("/v", "bad", Probe::Failed)],
        )],
    };
    assert_eq!(list_dir("/v".to_string(), None, &seen), Err(ScanError::MetadataError));
}

#[test]
fn a_failed_lookup_on_an_excluded_entry_is_ignored() {
    let seen = Observed {
        root: Probe::Directory,
        records: vec![record(
            "/v",
            0,
            vec![raw("/v", ".bad", Probe::Failed), raw("/v", "ok", Probe::File(4))],
        )],
    };
    let taken = list_dir("/v".to_string(), None, &seen).unwrap();
    assert_eq!(names(&taken), vec!["ok"]);
}

#[test]
fn a_failed_lookup_below_the_root_only_hides_that_level() {
    let seen = Observed {
        root: Probe::Directory,
        records: vec![
            record("/v", 0, vec![raw("/v", "sub", Probe::Directory), raw("/v", "f", Probe::File(1))]),
            record("/v/sub", 1, vec![raw("/v/sub", "bad", Probe::Failed)]),
        ],
    };
    let taken = list_dir("/v".to_string(), Some(2), &seen).unwrap();
    assert_eq!(names(&taken), vec!["sub", "f"]);
    assert!(taken[0].is_dir);
    assert_eq!(taken[0].children, None);
}

#[test]
fn an_unreadable_directory_below_the_root_has_no_children() {
    let seen = Observed {
        root: Probe::Directory,
        records: vec![
            record("/v", 0, vec![raw("/v", "locked", Probe::Directory)]),
            unread("/v/locked", 1),
        ],
    };
    let taken = list_dir("/v".to_string(), Some(2), &seen).unwrap();
    assert_eq!(taken[0].children, None);
}

#[test]
fn a_directory_without_a_record_has_no_children() {
    let seen = Observed {
        root: Probe::Directory,
        records: vec![record("/v", 0, vec![raw("/v", "sub", Probe::Directory)])],
    };
    let taken = list_dir("/v".to_string(), Some(2), &seen).unwrap();
    assert_eq!(taken[0].children, None);
}

#[test]
fn an_unreadable_root_fails_the_snapshot() {
    let seen = Observed { root: Probe::Directory, records: vec![unread("/v", 0)] };
    assert_eq!(list_dir("/v".to_string(), None, &seen), Err(ScanError::MetadataError));
    let seen = Observed { root: Probe::Directory, records: vec![] };
    assert_eq!(list_dir("/v".to_string(), None, &seen), Err(ScanError::MetadataError));
    let seen = Observed { root: Probe::Failed, records: vec![] };
    assert_eq!(list_dir("/v".to_string(), None, &seen), Err(ScanError::MetadataError));
}

#[test]
fn a_node_that_is_neither_is_listed_without_size_or_children() {
    let seen = Observed {
        root: Probe::Directory,
        records: vec![record("/v", 0, vec![raw("/v", "pipe", Probe::Other)])],
    };
    let taken = list_dir("/v".to_string(), None, &seen).unwrap();
    assert_eq!(taken.len(), 1);
    assert!(!taken[0].is_dir && !taken[0].is_file);
    assert_eq!(taken[0].size, None);
    assert_eq!(taken[0].children, None);
}

#[test]
fn every_level_is_in_order() {
    let seen = Observed {
        root: Probe::Directory,
        records: vec![
            record(
                "/o",
                0,
                vec![
                    raw("/o", "zeta.txt", Probe::File(1)),
                    raw("/o", "Beta", Probe::Directory),
                    raw("/o", "alpha", Probe::Directory),
                    raw("/o", "Alpha.txt", Probe::File(2)),
                ],
            ),
            record(
                "/o/alpha",
                1,
                vec![
                    raw("/o/alpha", "b", Probe::File(1)),
                    raw("/o/alpha", "A", Probe::File(1)),
                    raw("/o/alpha", "c", Probe::Directory),
                ],
            ),
        ],
    };
    let taken = list_dir("/o".to_string(), Some(1), &seen).unwrap();
    assert_eq!(names(&taken), vec!["alpha", "Beta", "Alpha.txt", "zeta.txt"]);
    assert_eq!(names(taken[0].children.as_ref().unwrap()), vec!["c", "A", "b"]);
    assert_eq!(taken[1].children, None);
}

#[test]
fn records_are_told_apart_by_level() {
    let seen = Observed {
        root: Probe::Directory,
        records: vec![
            record("/r", 0, vec![raw("/r", "sub", Probe::Directory)]),
            record("/r/sub", 2, vec![raw("/r/sub", "wrong", Probe::File(1))]),
            record("/r/sub", 1, vec![raw("/r/sub", "right", Probe::File(1))]),
            record("/r/sub", 1, vec![raw("/r/sub", "late", Probe::File(1))]),
        ],
    };
    let taken = list_dir("/r".to_string(), Some(1), &seen).unwrap();
    assert_eq!(names(taken[0].children.as_ref().unwrap()), vec!["right"]);
}

#[test]
fn the_same_input_gives_the_same_snapshot() {
    let first = list_dir("/d".to_string(), Some(3), &deep());
    let second = list_dir("/d".to_string(), Some(3), &deep());
    assert_eq!(first, second);
}

#[test]
fn the_order_of_a_listing_does_not_matter() {
    let one_way = Observed {
        root: Probe::Directory,
        records: vec![
            record(
                "/o",
                0,
                vec![
                    raw("/o", "zeta.txt", Probe::File(1)),
                    raw("/o", "Beta", Probe::Directory),
                    raw("/o", ".cache", Probe::Directory),
                    raw("/o", "alpha", Probe::Directory),
                    raw("/o", "Alpha.txt", Probe::File(2)),
                ],
            ),
            record(
                "/o/alpha",
                1,
                vec![raw("/o/alpha", "b", Probe::File(1)), raw("/o/alpha", "A", Probe::File(1))],
            ),
            record("/o/Beta", 1, vec![]),
        ],
    };
    let other_way = Observed {
        root: Probe::Directory,
        records: vec![
            record("/o/Beta", 1, vec![]),
            record(
                "/o/alpha",
                1,
                vec![raw("/o/alpha", "A", Probe::File(1)), raw("/o/alpha", "b", Probe::File(1))],
            ),
            record(
                "/o",
                0,
                vec![
                    raw("/o", "Alpha.txt", Probe::File(2)),
                    raw("/o", "alpha", Probe::Directory),
                    raw("/o", "Beta", Probe::Directory),
                    raw("/o", "zeta.txt", Probe::File(1)),
                    raw("/o", ".cache", Probe::Directory),
                ],
            ),
        ],
    };
    let first = list_dir("/o".to_string(), Some(2), &one_way).unwrap();
    let second = list_dir("/o".to_string(), Some(2), &other_way).unwrap();
    assert_eq!(first, second);
    assert_eq!(names(&first), vec!["alpha", "Beta", "Alpha.txt", "zeta.txt"]);
    assert_eq!(names(first[0].children.as_ref().unwrap()), vec!["A", "b"]);
}
