use sandbox_vfs::error::{HostError, MapError, RelativePathError};
use sandbox_vfs::host::{HostEntry, HostNode};
use sandbox_vfs::node::FSNode;
use sandbox_vfs::traverse::Event;
use sandbox_vfs::vfs::VirtualFS;

fn file(text: &str) -> HostNode {
    HostNode::File(text.as_bytes().to_vec())
}

fn dir(children: Vec<(&str, HostNode)>) -> HostNode {
    let mut entries = Vec::new();
    for (path, node) in children {
        entries.push(HostEntry { path: path.to_string(), node });
    }
    HostNode::Dir(entries)
}

fn failure(code: i32, detail: &str) -> HostError {
    HostError { code: Some(code), detail: detail.to_string() }
}

fn told_file(path: &str, text: &str) -> Event {
    Event { path: path.to_string(), node: FSNode::File(text.as_bytes().to_vec()) }
}

fn told_dir(path: &str) -> Event {
    Event { path: path.to_string(), node: FSNode::Dir }
}

fn paths_of(log: &[Event]) -> Vec<String> {
    log.iter().map(|e| e.path.clone()).collect()
}

fn project() -> HostNode {
    dir(vec![
        ("proj/a.txt", file("hi")),
        ("proj/sub", dir(vec![("proj/sub/b.txt", file("yo"))])),
    ])
}

#[test]
fn project_tree_is_mapped_level_by_level() {
    let mut vfs = VirtualFS::new();
    let mut log = Vec::new();
    assert_eq!(vfs.map_path("proj/", &project(), &mut log), Ok(()));
    assert_eq!(
        log,
        vec![
            told_dir("/proj"),
            told_file("/proj/a.txt", "hi"),
            told_dir("/proj/sub"),
            told_file("/proj/sub/b.txt", "yo"),
        ]
    );
    assert_eq!(vfs.len(), 4);
    assert_eq!(vfs.get("/proj"), Some(&FSNode::Dir));
    assert_eq!(vfs.read_file("/proj/a.txt"), Some("hi".as_bytes()));
    assert_eq!(vfs.get("/proj/sub"), Some(&FSNode::Dir));
    assert_eq!(vfs.read_file("/proj/sub/b.txt"), Some("yo".as_bytes()));
    assert_eq!(vfs.read_file("/proj"), None);
    assert_eq!(vfs.read_file("/proj/sub"), None);
    assert_eq!(
        vfs.paths(),
        vec!["/proj", "/proj/a.txt", "/proj/sub", "/proj/sub/b.txt"]
    );
}

#[test]
fn host_ancestry_is_dropped() {
    let mut vfs = VirtualFS::new();
    let mut log = Vec::new();
    let tree = dir(vec![("/home/user/proj/a.txt", file("hi"))]);
    assert_eq!(vfs.map_path("/home/user/proj", &tree, &mut log), Ok(()));
    assert_eq!(paths_of(&log), vec!["/proj", "/proj/a.txt"]);
    assert_eq!(vfs.paths(), vec!["/proj", "/proj/a.txt"]);
}

#[test]
fn single_file_is_mapped_under_its_name() {
    let mut vfs = VirtualFS::new();
    let mut log = Vec::new();
    assert_eq!(vfs.map_path("/var/data/blob.bin", &file("abc"), &mut log), Ok(()));
    assert_eq!(log, vec![told_file("/blob.bin", "abc")]);
    assert_eq!(vfs.read_file("/blob.bin"), Some("abc".as_bytes()));
    assert_eq!(vfs.len(), 1);
}

#[test]
fn empty_directory_is_one_entry() {
    let mut vfs = VirtualFS::new();
    let mut log = Vec::new();
    assert_eq!(vfs.map_path("empty", &dir(vec![]), &mut log), Ok(()));
    assert_eq!(log, vec![told_dir("/empty")]);
    assert_eq!(vfs.len(), 1);
}

#[test]
fn deeper_levels_wait_for_shallower_ones() {
    let tree = dir(vec![
        ("r/d1", dir(vec![
            ("r/d1/x", dir(vec![("r/d1/x/deep", file("4"))])),
            ("r/d1/f1", file("1")),
        ])),
        ("r/top", file("0")),
        ("r/d2", dir(vec![("r/d2/f2", file("2")), ("r/d2/y", dir(vec![]))])),
    ]);
    let mut vfs = VirtualFS::new();
    let mut log = Vec::new();
    assert_eq!(vfs.map_path("r", &tree, &mut log), Ok(()));
    assert_eq!(
        paths_of(&log),
        vec![
            "/r",
            "/r/d1",
            "/r/top",
            "/r/d2",
            "/r/d1/x",
            "/r/d1/f1",
            "/r/d2/f2",
            "/r/d2/y",
            "/r/d1/x/deep",
        ]
    );
    assert_eq!(log.len(), 9);
    assert_eq!(vfs.len(), 9);
    for event in log.iter() {
        assert_eq!(vfs.get(&event.path), Some(&event.node));
    }
    for (i, event) in log.iter().enumerate() {
        if event.node == FSNode::Dir {
            let prefix = format!("{}/", event.path);
            for (j, other) in log.iter().enumerate() {
                if other.path.starts_with(&prefix) {
                    assert!(i < j);
                }
            }
        }
    }
}

#[test]
fn children_keep_the_order_of_the_listing() {
    let tree = dir(vec![("d/z", file("z")), ("d/a", file("a")), ("d/m", file("m"))]);
    let mut vfs = VirtualFS::new();
    let mut log = Vec::new();
    assert_eq!(vfs.map_path("d", &tree, &mut log), Ok(()));
    assert_eq!(paths_of(&log), vec!["/d", "/d/z", "/d/a", "/d/m"]);
    assert_eq!(vfs.paths(), vec!["/d", "/d/a", "/d/m", "/d/z"]);
}

#[test]
fn path_without_final_component_maps_nothing() {
    for path in ["/", "", ".", "..", "a/..", "//"].iter() {
        let mut vfs = VirtualFS::new();
        vfs.map_dir("/before");
        let mut log = Vec::new();
        assert_eq!(
            vfs.map_path(path, &project(), &mut log),
            Err(MapError::RelativePath(RelativePathError))
        );
        assert!(log.is_empty());
        assert_eq!(vfs.paths(), vec!["/before"]);
    }
}

#[test]
fn unreadable_file_stops_the_traversal() {
    let tree = dir(vec![
        ("p/first.txt", file("1")),
        ("p/sub", dir(vec![("p/sub/inner.txt", file("3"))])),
        ("p/broken.txt", HostNode::Unreadable(failure(5, "input/output error"))),
        ("p/last.txt", file("2")),
    ]);
    let mut vfs = VirtualFS::new();
    let mut log = Vec::new();
    assert_eq!(
        vfs.map_path("p", &tree, &mut log),
        Err(MapError::Read(failure(5, "input/output error")))
    );
    assert_eq!(log, vec![told_dir("/p"), told_file("/p/first.txt", "1"), told_dir("/p/sub")]);
    assert_eq!(vfs.paths(), vec!["/p", "/p/first.txt", "/p/sub"]);
    assert_eq!(vfs.get("/p/broken.txt"), None);
    assert_eq!(vfs.get("/p/last.txt"), None);
    assert_eq!(vfs.get("/p/sub/inner.txt"), None);
}

#[test]
fn unreadable_root_file_maps_nothing() {
    let mut vfs = VirtualFS::new();
    let mut log = Vec::new();
    let missing = HostNode::Unreadable(failure(2, "no such file or directory"));
    assert_eq!(
        vfs.map_path("gone.txt", &missing, &mut log),
        Err(MapError::Read(failure(2, "no such file or directory")))
    );
    assert!(log.is_empty());
    assert_eq!(vfs.len(), 0);
}

#[test]
fn unlistable_directory_is_stored_and_stops_the_traversal() {
    let tree = dir(vec![
        ("p/a", file("a")),
        ("p/locked", HostNode::Unlistable(failure(13, "permission denied"))),
        ("p/b", file("b")),
    ]);
    let mut vfs = VirtualFS::new();
    let mut log = Vec::new();
    assert_eq!(
        vfs.map_path("p", &tree, &mut log),
        Err(MapError::List(failure(13, "permission denied")))
    );
    assert_eq!(log, vec![told_dir("/p"), told_file("/p/a", "a"), told_dir("/p/locked")]);
    assert_eq!(vfs.paths(), vec!["/p", "/p/a", "/p/locked"]);
    assert_eq!(vfs.get("/p/b"), None);
}

#[test]
fn child_without_final_component_stops_the_traversal() {
    let tree = dir(vec![
        ("p/ok", dir(vec![("p/ok/fine", file("f")), ("p/ok/..", file("x"))])),
        ("p/after", file("a")),
    ]);
    let mut vfs = VirtualFS::new();
    let mut log = Vec::new();
    assert_eq!(
        vfs.map_path("p", &tree, &mut log),
        Err(MapError::RelativePath(RelativePathError))
    );
    assert_eq!(log, vec![told_dir("/p"), told_dir("/p/ok")]);
    assert_eq!(vfs.paths(), vec!["/p", "/p/ok"]);
}

#[test]
fn failed_traversal_keeps_what_was_mapped_before_it() {
    let mut vfs = VirtualFS::new();
    vfs.map_file(Ok(vec![1]), "/p/last.txt").unwrap();
    vfs.map_file(Ok(vec![2]), "/other").unwrap();
    let tree = dir(vec![
        ("p/broken", HostNode::Unreadable(failure(5, "bad sector"))),
        ("p/last.txt", file("new")),
    ]);
    let mut log = Vec::new();
    assert!(vfs.map_path("p", &tree, &mut log).is_err());
    let old_last: &[u8] = &[1];
    let other: &[u8] = &[2];
    assert_eq!(vfs.read_file("/p/last.txt"), Some(old_last));
    assert_eq!(vfs.read_file("/other"), Some(other));
    assert_eq!(vfs.paths(), vec!["/other", "/p", "/p/last.txt"]);
}

#[test]
fn traversal_replaces_what_was_mapped_at_its_paths() {
    let mut vfs = VirtualFS::new();
    vfs.map_dir("/proj/a.txt");
    vfs.map_file(Ok(vec![0]), "/proj").unwrap();
    let mut log = Vec::new();
    assert_eq!(vfs.map_path("proj", &project(), &mut log), Ok(()));
    assert_eq!(vfs.get("/proj"), Some(&FSNode::Dir));
    assert_eq!(vfs.read_file("/proj/a.txt"), Some("hi".as_bytes()));
    assert_eq!(vfs.len(), 4);
}

#[test]
fn events_are_added_behind_an_earlier_log() {
    let mut vfs = VirtualFS::new();
    let mut log = vec![told_dir("/earlier")];
    assert_eq!(vfs.map_path("x.txt", &file("x"), &mut log), Ok(()));
    assert_eq!(vfs.map_path("y.txt", &file("y"), &mut log), Ok(()));
    assert_eq!(
        log,
        vec![told_dir("/earlier"), told_file("/x.txt", "x"), told_file("/y.txt", "y")]
    );
    assert_eq!(vfs.paths(), vec!["/x.txt", "/y.txt"]);
}

#[test]
fn later_sibling_with_the_same_name_wins() {
    let tree = dir(vec![("d/twin", file("one")), ("d/twin", file("two"))]);
    let mut vfs = VirtualFS::new();
    let mut log = Vec::new();
    assert_eq!(vfs.map_path("d", &tree, &mut log), Ok(()));
    assert_eq!(
        log,
        vec![told_dir("/d"), told_file("/d/twin", "one"), told_file("/d/twin", "two")]
    );
    assert_eq!(vfs.read_file("/d/twin"), Some("two".as_bytes()));
    assert_eq!(vfs.len(), 2);
}

#[test]
fn wide_and_deep_tree_is_counted_whole() {
    let mut level = Vec::new();
    for i in 0..20 {
        let mut inner = Vec::new();
        for j in 0..10 {
            inner.push(HostEntry {
                path: format!("big/d{}/f{}", i, j),
                node: HostNode::File(vec![i as u8, j as u8]),
            });
        }
        level.push(HostEntry { path: format!("big/d{}", i), node: HostNode::Dir(inner) });
    }
    let tree = HostNode::Dir(level);
    let mut vfs = VirtualFS::new();
    let mut log = Vec::new();
    assert_eq!(vfs.map_path("big", &tree, &mut log), Ok(()));
    assert_eq!(log.len(), 1 + 20 + 200);
    assert_eq!(vfs.len(), 221);
    assert_eq!(log[0].path, "/big");
    for i in 0..20 {
        assert_eq!(log[1 + i].path, format!("/big/d{}", i));
        assert_eq!(log[1 + i].node, FSNode::Dir);
    }
    for i in 0..20 {
        for j in 0..10 {
            let event = &log[21 + i * 10 + j];
            assert_eq!(event.path, format!("/big/d{}/f{}", i, j));
            assert_eq!(event.node, FSNode::File(vec![i as u8, j as u8]));
        }
    }
    let expected: &[u8] = &[7, 3];
    assert_eq!(vfs.read_file("/big/d7/f3"), Some(expected));
}
