use tile_workspace::error::{DiskFault, StoreError};
use tile_workspace::import::import_read;
use tile_workspace::memory::MemoryFilesystem;
use tile_workspace::model::NodeKind;
use tile_workspace::path::PathKey;
use tile_workspace::tree::DirectoryTree;

fn key(text: &str) -> PathKey {
    PathKey::parse(text).unwrap()
}

#[test]
fn bytes_that_were_read_become_the_content_of_the_target() {
    let mut t = DirectoryTree::new();
    assert_eq!(import_read(&mut t, &key("in/tile.laz"), Ok(vec![1, 2, 3])), Ok(()));
    assert_eq!(t.read_file(&key("in/tile.laz")), Ok(vec![1, 2, 3]));
    assert_eq!(import_read(&mut t, &key("in/tile.laz"), Ok(vec![4])), Ok(()));
    assert_eq!(t.read_file(&key("in/tile.laz")), Ok(vec![4]));
    assert_eq!(import_read(&mut t, &key("empty"), Ok(vec![])), Ok(()));
    assert_eq!(t.file_size(&key("empty")), Ok(0));
}

#[test]
fn a_failed_read_leaves_the_workspace_as_it_was() {
    let mut t = DirectoryTree::new();
    t.write_file(&key("in/tile.laz"), vec![1, 2, 3]).unwrap();
    for fault in [DiskFault::Missing, DiskFault::Denied, DiskFault::Other] {
        assert_eq!(
            import_read(&mut t, &key("in/tile.laz"), Err(fault)),
            Err(StoreError::ImportIoError(fault))
        );
        assert_eq!(
            import_read(&mut t, &key("in/other.laz"), Err(fault)),
            Err(StoreError::ImportIoError(fault))
        );
    }
    assert_eq!(t.read_file(&key("in/tile.laz")), Ok(vec![1, 2, 3]));
    assert!(!t.contains(&key("in/other.laz")));
    assert_eq!(t.enumerate(&key("in")).unwrap().len(), 1);
}

#[test]
fn an_import_onto_a_directory_collides() {
    let mut t = DirectoryTree::new();
    t.create_dir_all(&key("in/dir")).unwrap();
    t.write_file(&key("in/f"), vec![1]).unwrap();
    assert_eq!(import_read(&mut t, &key("in/dir"), Ok(vec![1])), Err(StoreError::PathCollision));
    assert_eq!(import_read(&mut t, &key("in/f/g"), Ok(vec![1])), Err(StoreError::PathCollision));
    assert_eq!(import_read(&mut t, &PathKey::root(), Ok(vec![1])), Err(StoreError::PathCollision));
    assert_eq!(t.stat(&key("in/dir")), Some(NodeKind::Directory));
    assert_eq!(t.read_file(&key("in/f")), Ok(vec![1]));
}

#[test]
fn an_import_into_a_shared_workspace_is_seen_by_its_clones() {
    let mut fs = MemoryFilesystem::new();
    let seen = fs.clone();
    assert_eq!(import_read(&mut fs, &key("dropped_file.laz"), Ok(vec![7; 100])), Ok(()));
    assert_eq!(seen.file_size(&key("dropped_file.laz")), Ok(100));
    assert_eq!(
        import_read(&mut fs, &key("dropped_file.laz"), Err(DiskFault::Denied)),
        Err(StoreError::ImportIoError(DiskFault::Denied))
    );
    assert_eq!(seen.file_size(&key("dropped_file.laz")), Ok(100));
}
