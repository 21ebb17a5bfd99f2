use tile_workspace::capability::FilesystemCapability;
use tile_workspace::error::StoreError;
use tile_workspace::model::NodeKind;
use tile_workspace::path::PathKey;
use tile_workspace::stream::copy_bytes;
use tile_workspace::tree::{DirItem, DirectoryTree};

fn key(text: &str) -> PathKey {
    PathKey::parse(text).unwrap()
}

fn names(items: &[DirItem]) -> Vec<(String, NodeKind)> {
    items.iter().map(|i| (i.name.clone(), i.kind)).collect()
}

fn item(name: &str, kind: NodeKind) -> (String, NodeKind) {
    (String::from(name), kind)
}

#[test]
fn a_new_tree_holds_its_root_only() {
    let t = DirectoryTree::new();
    assert!(t.contains(&PathKey::root()));
    assert_eq!(t.stat(&PathKey::root()), Some(NodeKind::Directory));
    assert!(!t.contains(&key("a")));
    assert_eq!(t.enumerate(&PathKey::root()).unwrap(), vec![]);
}

#[test]
fn create_dir_all_makes_every_directory_on_the_way() {
    let mut t = DirectoryTree::new();
    assert_eq!(t.create_dir_all(&key("a/b/c")), Ok(()));
    for p in ["a", "a/b", "a/b/c"] {
        assert!(t.contains(&key(p)));
        assert_eq!(t.stat(&key(p)), Some(NodeKind::Directory));
        assert_eq!(t.file_size(&key(p)), Err(StoreError::NotAFile));
    }
    assert!(!t.contains(&key("a/b/c/d")));
    assert!(!t.contains(&key("b")));
    assert_eq!(names(&t.enumerate(&key("a")).unwrap()), vec![item("b", NodeKind::Directory)]);
    assert_eq!(t.enumerate(&key("a/b/c")).unwrap(), vec![]);
}

#[test]
fn create_dir_all_is_idempotent() {
    let mut t = DirectoryTree::new();
    t.create_dir_all(&key("a/b")).unwrap();
    t.write_file(&key("a/b/f"), vec![1, 2, 3]).unwrap();
    assert_eq!(t.create_dir_all(&key("a/b")), Ok(()));
    assert_eq!(t.create_dir_all(&key("a")), Ok(()));
    assert_eq!(t.create_dir_all(&PathKey::root()), Ok(()));
    assert_eq!(t.read_file(&key("a/b/f")), Ok(vec![1, 2, 3]));
    assert_eq!(names(&t.enumerate(&key("a")).unwrap()), vec![item("b", NodeKind::Directory)]);
}

#[test]
fn create_dir_all_collides_with_a_file_on_the_way() {
    let mut t = DirectoryTree::new();
    t.write_file(&key("a/f"), vec![9]).unwrap();
    assert_eq!(t.create_dir_all(&key("a/f/g/h")), Err(StoreError::PathCollision));
    assert_eq!(t.create_dir_all(&key("a/f")), Err(StoreError::PathCollision));
    assert!(!t.contains(&key("a/f/g")));
    assert_eq!(t.read_file(&key("a/f")), Ok(vec![9]));
    assert_eq!(names(&t.enumerate(&key("a")).unwrap()), vec![item("f", NodeKind::File)]);
}

#[test]
fn write_file_makes_the_parents_and_replaces_the_content() {
    let mut t = DirectoryTree::new();
    assert_eq!(t.write_file(&key("x/y/data.bin"), vec![1, 2, 3]), Ok(()));
    assert_eq!(t.stat(&key("x")), Some(NodeKind::Directory));
    assert_eq!(t.stat(&key("x/y")), Some(NodeKind::Directory));
    assert_eq!(t.stat(&key("x/y/data.bin")), Some(NodeKind::File));
    assert_eq!(t.file_size(&key("x/y/data.bin")), Ok(3));
    assert_eq!(t.write_file(&key("x/y/data.bin"), vec![7; 10]), Ok(()));
    assert_eq!(t.file_size(&key("x/y/data.bin")), Ok(10));
    assert_eq!(t.read_file(&key("x/y/data.bin")), Ok(vec![7; 10]));
    assert_eq!(t.write_file(&key("x/y/data.bin"), vec![]), Ok(()));
    assert_eq!(t.file_size(&key("x/y/data.bin")), Ok(0));
}

#[test]
fn write_file_collides_with_a_directory_and_with_a_file_on_the_way() {
    let mut t = DirectoryTree::new();
    t.create_dir_all(&key("d/e")).unwrap();
    t.write_file(&key("d/f"), vec![1]).unwrap();
    assert_eq!(t.write_file(&key("d/e"), vec![2]), Err(StoreError::PathCollision));
    assert_eq!(t.write_file(&key("d"), vec![2]), Err(StoreError::PathCollision));
    assert_eq!(t.write_file(&PathKey::root(), vec![2]), Err(StoreError::PathCollision));
    assert_eq!(t.write_file(&key("d/f/g"), vec![2]), Err(StoreError::PathCollision));
    assert_eq!(t.stat(&key("d/e")), Some(NodeKind::Directory));
    assert_eq!(t.read_file(&key("d/f")), Ok(vec![1]));
    assert!(!t.contains(&key("d/f/g")));
}

#[test]
fn create_file_keeps_the_content_that_is_there() {
    let mut t = DirectoryTree::new();
    assert_eq!(t.create_file(&key("a/new")), Ok(()));
    assert_eq!(t.file_size(&key("a/new")), Ok(0));
    t.write_file(&key("a/new"), vec![4, 5]).unwrap();
    assert_eq!(t.create_file(&key("a/new")), Ok(()));
    assert_eq!(t.read_file(&key("a/new")), Ok(vec![4, 5]));
    assert_eq!(t.create_file(&key("a")), Err(StoreError::PathCollision));
    assert_eq!(t.create_file(&key("a/new/below")), Err(StoreError::PathCollision));
    assert_eq!(t.create_file(&PathKey::root()), Err(StoreError::PathCollision));
}

#[test]
fn remove_file_leaves_the_parent() {
    let mut t = DirectoryTree::new();
    t.write_file(&key("a/f.txt"), vec![1]).unwrap();
    assert_eq!(t.remove_file(&key("a/f.txt")), Ok(()));
    assert!(!t.contains(&key("a/f.txt")));
    assert!(t.contains(&key("a")));
    assert_eq!(t.stat(&key("a")), Some(NodeKind::Directory));
    assert_eq!(t.enumerate(&key("a")).unwrap(), vec![]);
}

#[test]
fn remove_file_leaves_the_siblings() {
    let mut t = DirectoryTree::new();
    for name in ["a/1", "a/2", "a/3", "b"] {
        t.write_file(&key(name), name.as_bytes().to_vec()).unwrap();
    }
    assert_eq!(t.remove_file(&key("a/2")), Ok(()));
    assert_eq!(t.read_file(&key("a/1")), Ok(b"a/1".to_vec()));
    assert_eq!(t.read_file(&key("a/3")), Ok(b"a/3".to_vec()));
    assert_eq!(t.read_file(&key("b")), Ok(b"b".to_vec()));
    assert_eq!(t.read_file(&key("a/2")), Err(StoreError::NotFound));
}

#[test]
fn remove_file_refuses_directories_and_missing_files() {
    let mut t = DirectoryTree::new();
    t.create_dir_all(&key("a/b")).unwrap();
    t.write_file(&key("a/f"), vec![1]).unwrap();
    assert_eq!(t.remove_file(&key("a/b")), Err(StoreError::NotAFile));
    assert_eq!(t.remove_file(&key("a")), Err(StoreError::NotAFile));
    assert_eq!(t.remove_file(&PathKey::root()), Err(StoreError::NotAFile));
    assert_eq!(t.remove_file(&key("a/missing")), Err(StoreError::NotFound));
    assert_eq!(t.remove_file(&key("missing/f")), Err(StoreError::NotFound));
    assert_eq!(t.remove_file(&key("a/f/g")), Err(StoreError::NotADirectory));
    assert!(t.contains(&key("a/b")));
    assert!(t.contains(&key("a/f")));
    assert_eq!(t.remove_file(&key("a/f")), Ok(()));
    assert_eq!(t.remove_file(&key("a/f")), Err(StoreError::NotFound));
}

#[test]
fn reading_fails_by_what_the_address_holds() {
    let mut t = DirectoryTree::new();
    t.create_dir_all(&key("d")).unwrap();
    t.write_file(&key("d/f"), vec![1, 2]).unwrap();
    for (p, e) in [
        ("", StoreError::NotAFile),
        ("d", StoreError::NotAFile),
        ("x", StoreError::NotFound),
        ("d/x", StoreError::NotFound),
        ("x/y/z", StoreError::NotFound),
        ("d/f/x", StoreError::NotADirectory),
        ("d/f/x/y", StoreError::NotADirectory),
    ] {
        assert_eq!(t.file_size(&key(p)), Err(e), "{}", p);
        assert_eq!(t.read_file(&key(p)), Err(e), "{}", p);
        assert_eq!(t.open(&key(p)).err(), Some(e), "{}", p);
    }
    assert_eq!(t.file_size(&key("d/f")), Ok(2));
}

#[test]
fn enumerate_lists_in_the_order_of_names() {
    let mut t = DirectoryTree::new();
    for name in ["zeta", "alpha", "Beta", "mid", "alpha2", "é"] {
        t.write_file(&key("dir").join(name).unwrap(), vec![]).unwrap();
    }
    t.create_dir_all(&key("dir/gamma/deep")).unwrap();
    t.create_dir_all(&key("dir/a")).unwrap();
    let listed = names(&t.enumerate(&key("dir")).unwrap());
    assert_eq!(
        listed,
        vec![
            item("Beta", NodeKind::File),
            item("a", NodeKind::Directory),
            item("alpha", NodeKind::File),
            item("alpha2", NodeKind::File),
            item("gamma", NodeKind::Directory),
            item("mid", NodeKind::File),
            item("zeta", NodeKind::File),
            item("é", NodeKind::File),
        ]
    );
    let mut sorted = listed.clone();
    sorted.sort_by(|a, b| a.0.cmp(&b.0));
    assert_eq!(listed, sorted);
    assert_eq!(names(&t.enumerate(&PathKey::root()).unwrap()), vec![item("dir", NodeKind::Directory)]);
}

#[test]
fn every_listed_name_can_be_joined_to_the_directory() {
    let mut t = DirectoryTree::new();
    for name in ["dir/a.laz", "dir/...", "dir/.hidden", "dir/sub/deep", "dir/x y", "dir/é"] {
        t.write_file(&key(name), vec![1]).unwrap();
    }
    let dir = key("dir");
    let listed = t.enumerate(&dir).unwrap();
    assert_eq!(listed.len(), 6);
    for item in &listed {
        let child = dir.join(&item.name).unwrap();
        assert_eq!(t.stat(&child), Some(item.kind));
    }
}

#[test]
fn enumerate_fails_where_no_directory_is() {
    let mut t = DirectoryTree::new();
    t.write_file(&key("d/f"), vec![1]).unwrap();
    assert_eq!(t.enumerate(&key("x")).err(), Some(StoreError::NotFound));
    assert_eq!(t.enumerate(&key("d/x/y")).err(), Some(StoreError::NotFound));
    assert_eq!(t.enumerate(&key("d/f")).err(), Some(StoreError::NotADirectory));
    assert_eq!(t.enumerate(&key("d/f/g")).err(), Some(StoreError::NotADirectory));
}

#[test]
fn many_names_are_found_again() {
    let mut t = DirectoryTree::new();
    let count = 200u32;
    for i in 0..count {
        let k = (i * 37) % count;
        let p = key("bulk").join(&format!("n{:03}", k)).unwrap();
        t.write_file(&p, k.to_le_bytes().to_vec()).unwrap();
    }
    let listed = t.enumerate(&key("bulk")).unwrap();
    assert_eq!(listed.len(), count as usize);
    for (i, it) in listed.iter().enumerate() {
        assert_eq!(it.name, format!("n{:03}", i));
    }
    for i in 0..count {
        let p = key("bulk").join(&format!("n{:03}", i)).unwrap();
        assert_eq!(t.read_file(&p), Ok(i.to_le_bytes().to_vec()));
    }
    for i in (0..count).step_by(2) {
        let p = key("bulk").join(&format!("n{:03}", i)).unwrap();
        assert_eq!(t.remove_file(&p), Ok(()));
    }
    assert_eq!(t.enumerate(&key("bulk")).unwrap().len(), (count / 2) as usize);
    assert!(!t.contains(&key("bulk/n000")));
    assert!(t.contains(&key("bulk/n001")));
}

#[test]
fn a_stream_is_seen_only_when_it_is_committed() {
    let mut t = DirectoryTree::new();
    t.write_file(&key("a/f"), vec![1, 2, 3]).unwrap();
    let mut w = t.create(&key("a/f")).unwrap();
    assert_eq!(w.path(), &key("a/f"));
    w.write(&[9, 9]);
    w.write(&[]);
    w.write(&[8]);
    assert_eq!(w.len(), 3);
    assert_eq!(t.read_file(&key("a/f")), Ok(vec![1, 2, 3]));
    assert_eq!(t.commit(w), Ok(()));
    assert_eq!(t.read_file(&key("a/f")), Ok(vec![9, 9, 8]));
}

#[test]
fn create_reserves_an_empty_file() {
    let mut t = DirectoryTree::new();
    let w = t.create(&key("p/q/new")).unwrap();
    assert_eq!(t.stat(&key("p/q")), Some(NodeKind::Directory));
    assert_eq!(t.file_size(&key("p/q/new")), Ok(0));
    assert_eq!(t.commit(w), Ok(()));
    assert_eq!(t.file_size(&key("p/q/new")), Ok(0));
    assert_eq!(t.create(&key("p/q")).err(), Some(StoreError::PathCollision));
    assert_eq!(t.create(&key("p/q/new/x")).err(), Some(StoreError::PathCollision));
}

#[test]
fn commit_fails_where_the_target_became_a_directory() {
    let mut t = DirectoryTree::new();
    let mut w = t.create(&key("a/f")).unwrap();
    w.write(&[1]);
    t.remove_file(&key("a/f")).unwrap();
    t.create_dir_all(&key("a/f")).unwrap();
    assert_eq!(t.commit(w), Err(StoreError::PathCollision));
    assert_eq!(t.stat(&key("a/f")), Some(NodeKind::Directory));
}

#[test]
fn a_readable_stream_hands_out_the_content_in_order() {
    let mut t = DirectoryTree::new();
    t.write_file(&key("f"), vec![1, 2, 3, 4, 5]).unwrap();
    let mut r = t.open(&key("f")).unwrap();
    assert_eq!(r.len(), 5);
    assert_eq!(r.remaining(), 5);
    assert_eq!(r.read(2), vec![1, 2]);
    assert_eq!(r.remaining(), 3);
    assert_eq!(r.read(0), vec![]);
    t.write_file(&key("f"), vec![0]).unwrap();
    assert_eq!(r.read(2), vec![3, 4]);
    assert_eq!(r.read(2), vec![5]);
    assert_eq!(r.read(2), vec![]);
    assert_eq!(r.remaining(), 0);
    let mut again = t.open(&key("f")).unwrap();
    assert_eq!(again.read_to_end(), vec![0]);
    assert_eq!(again.read_to_end(), vec![]);
}

#[test]
fn read_to_end_gives_what_is_left() {
    let mut t = DirectoryTree::new();
    t.write_file(&key("f"), vec![1, 2, 3, 4, 5]).unwrap();
    let mut r = t.open(&key("f")).unwrap();
    assert_eq!(r.read(usize::MAX), vec![1, 2, 3, 4, 5]);
    let mut r = t.open(&key("f")).unwrap();
    r.read(1);
    assert_eq!(r.read_to_end(), vec![2, 3, 4, 5]);
}

#[test]
fn copy_bytes_copies() {
    assert_eq!(copy_bytes(&[]), Vec::<u8>::new());
    assert_eq!(copy_bytes(&[1, 2, 3]), vec![1, 2, 3]);
}

fn fill<F: FilesystemCapability>(fs: &mut F) -> Result<u64, StoreError> {
    fs.create_dir_all(&key("out/tiles"))?;
    let mut w = fs.create(&key("out/tiles/t.hmap"))?;
    w.write(b"abcdef");
    fs.commit(w)?;
    fs.file_size(&key("out/tiles/t.hmap"))
}

#[test]
fn an_owned_tree_is_a_backend() {
    let mut t = DirectoryTree::new();
    assert_eq!(fill(&mut t), Ok(6));
    assert!(FilesystemCapability::contains(&t, &key("out/tiles")));
    assert_eq!(FilesystemCapability::open(&t, &key("out/tiles/t.hmap")).unwrap().read_to_end(), b"abcdef");
    assert_eq!(FilesystemCapability::remove_file(&mut t, &key("out/tiles")), Err(StoreError::NotAFile));
    assert_eq!(FilesystemCapability::remove_file(&mut t, &key("out/tiles/t.hmap")), Ok(()));
    assert_eq!(FilesystemCapability::enumerate(&t, &key("out/tiles")).unwrap(), vec![]);
}
