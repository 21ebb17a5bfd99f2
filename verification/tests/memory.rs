use tile_workspace::capability::FilesystemCapability;
use tile_workspace::codec::{decode, encode};
use tile_workspace::error::StoreError;
use tile_workspace::grid::Grid;
use tile_workspace::memory::MemoryFilesystem;
use tile_workspace::model::NodeKind;
use tile_workspace::path::PathKey;

fn key(text: &str) -> PathKey {
    PathKey::parse(text).unwrap()
}

fn put(fs: &MemoryFilesystem, path: &str, bytes: &[u8]) {
    let mut w = fs.create(&key(path)).unwrap();
    w.write(bytes);
    fs.commit(w).unwrap();
}

fn get(fs: &MemoryFilesystem, path: &str) -> Result<Vec<u8>, StoreError> {
    fs.open(&key(path)).map(|mut r| r.read_to_end())
}

#[test]
fn directories_exist_after_create_dir_all() {
    let fs = MemoryFilesystem::new();
    assert_eq!(fs.create_dir_all(&key("a/b/c")), Ok(()));
    assert!(fs.contains(&key("a")));
    assert!(fs.contains(&key("a/b")));
    assert!(fs.contains(&key("a/b/c")));
    for p in ["a", "a/b", "a/b/c"] {
        assert_eq!(fs.file_size(&key(p)), Err(StoreError::NotAFile));
        assert!(fs.enumerate(&key(p)).is_ok());
    }
    assert_eq!(fs.create_dir_all(&key("a/b/c")), Ok(()));
}

#[test]
fn the_parent_stays_when_a_file_is_removed() {
    let fs = MemoryFilesystem::new();
    let w = fs.create(&key("a/f.txt")).unwrap();
    fs.commit(w).unwrap();
    assert!(fs.contains(&key("a/f.txt")));
    assert_eq!(fs.remove_file(&key("a/f.txt")), Ok(()));
    assert!(!fs.contains(&key("a/f.txt")));
    assert!(fs.contains(&key("a")));
}

#[test]
fn remove_file_tells_directories_from_missing_files() {
    let fs = MemoryFilesystem::new();
    fs.create_dir_all(&key("new_directory/deep/subdir")).unwrap();
    assert_eq!(fs.remove_file(&key("new_directory/deep")), Err(StoreError::NotAFile));
    assert_eq!(fs.remove_file(&key("new_directory/nothing")), Err(StoreError::NotFound));
    assert_eq!(fs.remove_file(&PathKey::root()), Err(StoreError::NotAFile));
    assert!(fs.contains(&key("new_directory/deep/subdir")));
}

#[test]
fn clones_serve_the_same_tree() {
    let fs = MemoryFilesystem::new();
    let other = fs.clone();
    put(&other, "shared/f", b"hello");
    assert_eq!(get(&fs, "shared/f"), Ok(b"hello".to_vec()));
    fs.remove_file(&key("shared/f")).unwrap();
    assert!(!other.contains(&key("shared/f")));
    let unrelated = MemoryFilesystem::new();
    assert!(!unrelated.contains(&key("shared")));
}

#[test]
fn a_tree_outlives_the_handle_it_was_made_with() {
    let kept = {
        let fs = MemoryFilesystem::new();
        put(&fs, "f", b"x");
        fs.clone()
    };
    assert_eq!(get(&kept, "f"), Ok(b"x".to_vec()));
}

#[test]
fn written_bytes_show_up_at_commit() {
    let fs = MemoryFilesystem::new();
    put(&fs, "a/f", b"old");
    let mut w = fs.create(&key("a/f")).unwrap();
    w.write(b"new content");
    assert_eq!(get(&fs, "a/f"), Ok(b"old".to_vec()));
    assert_eq!(fs.file_size(&key("a/f")), Ok(3));
    fs.commit(w).unwrap();
    assert_eq!(get(&fs, "a/f"), Ok(b"new content".to_vec()));
    assert_eq!(fs.file_size(&key("a/f")), Ok(11));
}

#[test]
fn create_collides_with_directories() {
    let fs = MemoryFilesystem::new();
    fs.create_dir_all(&key("a/b")).unwrap();
    put(&fs, "a/f", b"1");
    assert_eq!(fs.create(&key("a/b")).err(), Some(StoreError::PathCollision));
    assert_eq!(fs.create(&key("a/f/g")).err(), Some(StoreError::PathCollision));
    assert_eq!(fs.create_dir_all(&key("a/f/g")), Err(StoreError::PathCollision));
    assert_eq!(fs.create(&PathKey::root()).err(), Some(StoreError::PathCollision));
}

#[test]
fn open_fails_where_no_file_is() {
    let fs = MemoryFilesystem::new();
    fs.create_dir_all(&key("d")).unwrap();
    put(&fs, "d/f", b"1");
    assert_eq!(fs.open(&key("d/x")).err(), Some(StoreError::NotFound));
    assert_eq!(fs.open(&key("d")).err(), Some(StoreError::NotAFile));
    assert_eq!(fs.open(&key("d/f/x")).err(), Some(StoreError::NotADirectory));
    assert_eq!(fs.file_size(&key("d/x")), Err(StoreError::NotFound));
}

#[test]
fn listings_are_sorted_by_name() {
    let fs = MemoryFilesystem::new();
    for name in ["c.laz", "a.png", "b.hmap"] {
        put(&fs, name, b"");
    }
    fs.create_dir_all(&key("temp")).unwrap();
    let listed: Vec<(String, NodeKind)> = fs
        .enumerate(&PathKey::root())
        .unwrap()
        .into_iter()
        .map(|i| (i.name, i.kind))
        .collect();
    assert_eq!(
        listed,
        vec![
            (String::from("a.png"), NodeKind::File),
            (String::from("b.hmap"), NodeKind::File),
            (String::from("c.laz"), NodeKind::File),
            (String::from("temp"), NodeKind::Directory),
        ]
    );
    for item in fs.enumerate(&PathKey::root()).unwrap() {
        assert!(fs.contains(&PathKey::root().join(&item.name).unwrap()));
    }
    assert_eq!(fs.enumerate(&key("a.png")).err(), Some(StoreError::NotADirectory));
    assert_eq!(fs.enumerate(&key("nothing")).err(), Some(StoreError::NotFound));
}

#[test]
fn a_grid_is_stored_and_read_back() {
    let fs = MemoryFilesystem::new();
    let cells: Vec<u64> = [0.5f64, 10.25, -3.0, 99.0, 1e300, -0.0].iter().map(|v| v.to_bits()).collect();
    let g = Grid::from_cells(3, 2, cells).unwrap();
    put(&fs, "out/height.hmap", &encode(&g));
    assert_eq!(fs.file_size(&key("out/height.hmap")), Ok(12 + 8 * 6));
    let back = decode(&get(&fs, "out/height.hmap").unwrap()).unwrap();
    assert_eq!(back, g);
}

fn touch<F: FilesystemCapability>(fs: &mut F, path: &str) -> Result<(), StoreError> {
    let w = fs.create(&key(path))?;
    fs.commit(w)
}

#[test]
fn a_shared_workspace_is_a_backend() {
    let mut fs = MemoryFilesystem::new();
    let seen = fs.clone();
    assert_eq!(touch(&mut fs, "a/b"), Ok(()));
    assert_eq!(touch(&mut fs, "a/b/c"), Err(StoreError::PathCollision));
    assert!(seen.contains(&key("a/b")));
    assert_eq!(FilesystemCapability::file_size(&seen, &key("a/b")), Ok(0));
}

fn content_of_round(round: usize) -> Vec<u8> {
    vec![(round % 251) as u8; round]
}

/// One writer rewrites "x" round by round in chunks while one reader opens
/// it and reads it in pieces; `schedule` says after how many steps of the
/// writer the reader takes its next step.
fn interleave(schedule: &[usize]) {
    let writer = MemoryFilesystem::new();
    let reader = writer.clone();
    put(&writer, "x", &content_of_round(1));
    let mut committed = 1usize;
    let mut round = 2usize;
    let mut pending = None;
    let mut chunks: Vec<Vec<u8>> = Vec::new();
    let mut open = None;
    let mut seen: Vec<u8> = Vec::new();
    let mut opened_at = 0usize;
    for steps in schedule.iter().cycle().take(400) {
        for _ in 0..*steps {
            match pending.take() {
                None => {
                    pending = Some(writer.create(&key("x")).unwrap());
                    chunks = content_of_round(round).chunks(3).map(|c| c.to_vec()).collect();
                    chunks.reverse();
                }
                Some(mut w) => match chunks.pop() {
                    Some(chunk) => {
                        w.write(&chunk);
                        pending = Some(w);
                    }
                    None => {
                        writer.commit(w).unwrap();
                        committed = round;
                        round += 1;
                    }
                },
            }
        }
        match open.take() {
            None => {
                open = Some(reader.open(&key("x")).unwrap());
                opened_at = committed;
                seen.clear();
            }
            Some(mut r) => {
                let piece = r.read(2);
                if piece.is_empty() {
                    assert_eq!(seen, content_of_round(opened_at));
                } else {
                    seen.extend_from_slice(&piece);
                    open = Some(r);
                }
            }
        }
    }
    assert!(committed > 1);
}

#[test]
fn a_reader_sees_whole_contents_only() {
    interleave(&[1]);
    interleave(&[0, 1]);
    interleave(&[2]);
    interleave(&[3, 0, 1]);
    interleave(&[5, 1, 0, 0, 2]);
    interleave(&[7]);
}

#[test]
fn two_writers_leave_one_whole_content() {
    let first = MemoryFilesystem::new();
    let second = first.clone();
    let mut a = first.create(&key("dir/x")).unwrap();
    let mut b = second.create(&key("dir/x")).unwrap();
    a.write(&[1; 10]);
    b.write(&[2; 20]);
    a.write(&[1; 10]);
    assert_eq!(get(&first, "dir/x"), Ok(vec![]));
    first.commit(a).unwrap();
    assert_eq!(get(&second, "dir/x"), Ok(vec![1; 20]));
    b.write(&[2; 5]);
    second.commit(b).unwrap();
    assert_eq!(get(&first, "dir/x"), Ok(vec![2; 25]));
}

fn wants_send_and_sync<T: Send + Sync + Clone>(_value: &T) {}

#[test]
fn a_handle_can_go_to_another_thread() {
    let fs = MemoryFilesystem::new();
    wants_send_and_sync(&fs);
}

#[test]
fn the_default_workspace_is_empty() {
    let fs = MemoryFilesystem::default();
    assert!(fs.contains(&PathKey::default()));
    assert_eq!(fs.enumerate(&PathKey::root()).unwrap(), vec![]);
}
