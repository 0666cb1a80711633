use sandbox_vfs::error::{HostError, RelativePathError};
use sandbox_vfs::node::{copy_bytes, FSNode};
use sandbox_vfs::order::{place_of, Place};
use sandbox_vfs::vfs::VirtualFS;

fn refused(detail: &str) -> HostError {
    HostError { code: Some(13), detail: detail.to_string() }
}

#[test]
fn new_filesystem_is_empty() {
    let vfs = VirtualFS::new();
    assert_eq!(vfs.len(), 0);
    assert!(vfs.paths().is_empty());
    assert_eq!(vfs.read_file("/"), None);
    assert_eq!(vfs.get("/anything"), None);
}

#[test]
fn default_filesystem_is_empty() {
    let vfs = VirtualFS::default();
    assert_eq!(vfs.len(), 0);
    assert!(vfs.paths().is_empty());
}

#[test]
fn mapped_file_reads_back_byte_for_byte() {
    let mut vfs = VirtualFS::new();
    let contents: Vec<u8> = vec![0, 255, 10, 13, 0, 104, 105];
    let node = vfs.map_file(Ok(contents.clone()), "/data.bin").unwrap();
    assert_eq!(node, &FSNode::File(contents.clone()));
    assert_eq!(vfs.read_file("/data.bin"), Some(contents.as_slice()));
    assert_eq!(vfs.len(), 1);
}

#[test]
fn mapped_empty_file_reads_back_empty() {
    let mut vfs = VirtualFS::new();
    vfs.map_file(Ok(Vec::new()), "/empty").unwrap();
    let nothing: &[u8] = &[];
    assert_eq!(vfs.read_file("/empty"), Some(nothing));
}

#[test]
fn mapped_directory_reads_as_absent() {
    let mut vfs = VirtualFS::new();
    let node = vfs.map_dir("/etc");
    assert_eq!(node, &FSNode::Dir);
    assert_eq!(vfs.read_file("/etc"), None);
    assert_eq!(vfs.get("/etc"), Some(&FSNode::Dir));
    assert_eq!(vfs.len(), 1);
}

#[test]
fn unmapped_path_reads_as_absent() {
    let mut vfs = VirtualFS::new();
    vfs.map_file(Ok(vec![1]), "/a").unwrap();
    assert_eq!(vfs.read_file("/b"), None);
    assert_eq!(vfs.read_file("/a/"), None);
    assert_eq!(vfs.read_file(""), None);
    assert_eq!(vfs.get("/b"), None);
}

#[test]
fn failed_read_stores_nothing() {
    let mut vfs = VirtualFS::new();
    vfs.map_dir("/keep");
    let result = vfs.map_file(Err(refused("permission denied")), "/secret");
    assert_eq!(result, Err(refused("permission denied")));
    assert_eq!(vfs.len(), 1);
    assert_eq!(vfs.get("/secret"), None);
    assert_eq!(vfs.paths(), vec!["/keep".to_string()]);
}

#[test]
fn failed_read_leaves_earlier_node_in_place() {
    let mut vfs = VirtualFS::new();
    vfs.map_file(Ok(vec![9, 9]), "/f").unwrap();
    assert!(vfs.map_file(Err(refused("gone")), "/f").is_err());
    let expected: &[u8] = &[9, 9];
    assert_eq!(vfs.read_file("/f"), Some(expected));
}

#[test]
fn file_mapped_twice_shows_the_second() {
    let mut vfs = VirtualFS::new();
    vfs.map_file(Ok(vec![1, 2, 3]), "/f").unwrap();
    vfs.map_file(Ok(vec![4]), "/f").unwrap();
    let expected: &[u8] = &[4];
    assert_eq!(vfs.read_file("/f"), Some(expected));
    assert_eq!(vfs.len(), 1);
}

#[test]
fn directory_mapped_twice_stays_one_entry() {
    let mut vfs = VirtualFS::new();
    vfs.map_dir("/d");
    vfs.map_dir("/d");
    assert_eq!(vfs.get("/d"), Some(&FSNode::Dir));
    assert_eq!(vfs.len(), 1);
}

#[test]
fn file_then_directory_shows_the_directory() {
    let mut vfs = VirtualFS::new();
    vfs.map_file(Ok(vec![1]), "/x").unwrap();
    vfs.map_dir("/x");
    assert_eq!(vfs.get("/x"), Some(&FSNode::Dir));
    assert_eq!(vfs.read_file("/x"), None);
    assert_eq!(vfs.len(), 1);
}

#[test]
fn directory_then_file_shows_the_file() {
    let mut vfs = VirtualFS::new();
    vfs.map_dir("/x");
    vfs.map_file(Ok(vec![7, 8]), "/x").unwrap();
    let expected: &[u8] = &[7, 8];
    assert_eq!(vfs.read_file("/x"), Some(expected));
    assert_eq!(vfs.len(), 1);
}

#[test]
fn remapping_leaves_other_paths_alone() {
    let mut vfs = VirtualFS::new();
    vfs.map_file(Ok(vec![1]), "/a").unwrap();
    vfs.map_file(Ok(vec![2]), "/b").unwrap();
    vfs.map_file(Ok(vec![3]), "/a").unwrap();
    let a: &[u8] = &[3];
    let b: &[u8] = &[2];
    assert_eq!(vfs.read_file("/a"), Some(a));
    assert_eq!(vfs.read_file("/b"), Some(b));
    assert_eq!(vfs.len(), 2);
}

#[test]
fn paths_come_out_in_byte_order() {
    let given = [
        "/b", "/a", "/a/b", "/A", "/a.txt", "/a/", "/", "", "/\u{e9}t\u{e9}", "/z", "/a\u{0}",
        "/ab", "/\u{10348}", "/\u{ffff}",
    ];
    let mut vfs = VirtualFS::new();
    for path in given.iter() {
        vfs.map_dir(path);
    }
    let mut expected: Vec<String> = given.iter().map(|p| p.to_string()).collect();
    expected.sort();
    assert_eq!(vfs.paths(), expected);
    assert_eq!(vfs.len(), given.len());
    for path in given.iter() {
        assert_eq!(vfs.get(path), Some(&FSNode::Dir));
    }
}

#[test]
fn many_paths_are_all_found_again() {
    let mut vfs = VirtualFS::new();
    for i in 0..200u32 {
        let n = (i * 37) % 200;
        vfs.map_file(Ok(vec![(n % 256) as u8, (n / 256) as u8]), &format!("/f{}", n)).unwrap();
    }
    assert_eq!(vfs.len(), 200);
    for n in 0..200u32 {
        let expected = vec![(n % 256) as u8, (n / 256) as u8];
        assert_eq!(vfs.read_file(&format!("/f{}", n)), Some(expected.as_slice()));
    }
    assert_eq!(vfs.read_file("/f200"), None);
    let listed = vfs.paths();
    let mut sorted = listed.clone();
    sorted.sort();
    assert_eq!(listed, sorted);
}

#[test]
fn place_of_orders_as_strings_do() {
    assert_eq!(place_of("a", "b"), Place::Before);
    assert_eq!(place_of("b", "a"), Place::After);
    assert_eq!(place_of("same", "same"), Place::Same);
    assert_eq!(place_of("", ""), Place::Same);
    assert_eq!(place_of("", "a"), Place::Before);
    assert_eq!(place_of("a", ""), Place::After);
    assert_eq!(place_of("a", "ab"), Place::Before);
    assert_eq!(place_of("ab", "a"), Place::After);
    assert_eq!(place_of("/a/b", "/a.b"), Place::After);
    assert_eq!(place_of("z", "\u{e9}"), Place::Before);
    assert_eq!(place_of("\u{ffff}", "\u{10348}"), Place::Before);
    let samples = ["", "/", "/a", "/A", "/a/b", "/a.b", "/ab", "\u{e9}", "z", "\u{10348}", "\u{ffff}"];
    for a in samples.iter() {
        for b in samples.iter() {
            let expected = if a < b {
                Place::Before
            } else if a == b {
                Place::Same
            } else {
                Place::After
            };
            assert_eq!(place_of(a, b), expected);
        }
    }
}

#[test]
fn node_gives_its_contents() {
    let file = FSNode::File(vec![1, 2, 3]);
    let expected: &[u8] = &[1, 2, 3];
    assert_eq!(file.contents(), Some(expected));
    assert!(!file.is_dir());
    assert_eq!(FSNode::Dir.contents(), None);
    assert!(FSNode::Dir.is_dir());
    assert_eq!(file.duplicate(), FSNode::File(vec![1, 2, 3]));
    assert_eq!(FSNode::Dir.duplicate(), FSNode::Dir);
}

#[test]
fn copy_bytes_copies_every_byte() {
    let bytes: Vec<u8> = (0..=255u8).collect();
    assert_eq!(copy_bytes(&bytes), bytes);
    assert_eq!(copy_bytes(&[]), Vec::<u8>::new());
}

#[test]
fn host_error_duplicate_is_equal() {
    let e = HostError { code: None, detail: "short read".to_string() };
    assert_eq!(e.duplicate(), e);
    assert_eq!(refused("x").duplicate(), HostError { code: Some(13), detail: "x".to_string() });
}

#[test]
fn relative_path_error_has_its_message() {
    assert_eq!(RelativePathError.message(), "couldn't extract relative path");
}
