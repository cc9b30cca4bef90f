use memfs::fs::{FileType, Inode, MemFS, MemInode, Metadata};
use memfs::Error;

#[test]
fn new_file_is_empty_regular_file() {
    let f = MemInode::new_file();
    assert_eq!(f.file_type(), FileType::File);
    assert_eq!(f.len(), 0);
    assert_eq!(f.metadata(), Metadata { file_type: FileType::File, len: 0 });
}

#[test]
fn write_then_read_back() {
    let mut f = MemInode::new_file();
    assert_eq!(f.write_at(0, b"hello"), Ok(5));
    let mut buf = [0u8; 5];
    assert_eq!(f.read_at(0, &mut buf), Ok(5));
    assert_eq!(&buf, b"hello");
}

#[test]
fn write_past_end_fills_gap_with_zeros() {
    let mut f = MemInode::new_file();
    assert_eq!(f.write_at(3, b"xy"), Ok(2));
    assert_eq!(f.len(), 5);
    let mut buf = [9u8; 5];
    assert_eq!(f.read_at(0, &mut buf), Ok(5));
    assert_eq!(buf, [0, 0, 0, b'x', b'y']);
}

#[test]
fn overwrite_in_the_middle_keeps_the_rest() {
    let mut f = MemInode::new_file();
    f.write_at(0, b"abcdef").unwrap();
    assert_eq!(f.write_at(2, b"XY"), Ok(2));
    assert_eq!(f.len(), 6);
    let mut buf = [0u8; 6];
    f.read_at(0, &mut buf).unwrap();
    assert_eq!(&buf, b"abXYef");
}

#[test]
fn read_is_cut_at_end_of_file_and_leaves_rest_of_buffer() {
    let mut f = MemInode::new_file();
    f.write_at(0, b"abc").unwrap();
    let mut buf = [7u8; 5];
    assert_eq!(f.read_at(1, &mut buf), Ok(2));
    assert_eq!(buf, [b'b', b'c', 7, 7, 7]);
    assert_eq!(f.read_at(3, &mut buf), Ok(0));
    assert_eq!(f.read_at(100, &mut buf), Ok(0));
    assert_eq!(buf, [b'b', b'c', 7, 7, 7]);
}

#[test]
fn resize_cuts_and_extends_with_zeros() {
    let mut f = MemInode::new_file();
    f.write_at(0, b"abcdef").unwrap();
    assert_eq!(f.resize(2), Ok(()));
    assert_eq!(f.len(), 2);
    assert_eq!(f.resize(4), Ok(()));
    let mut buf = [9u8; 4];
    assert_eq!(f.read_at(0, &mut buf), Ok(4));
    assert_eq!(buf, [b'a', b'b', 0, 0]);
}

#[test]
fn file_refuses_directory_operations() {
    let mut f = MemInode::new_file();
    assert_eq!(f.find("x"), Err(Error::NotDir));
    assert_eq!(f.create("x", 1), Err(Error::NotDir));
    assert_eq!(f.unlink("x"), Err(Error::NotDir));
    assert_eq!(f.list(), Err(Error::NotDir));
}

#[test]
fn directory_refuses_byte_operations() {
    let mut d = MemInode::new_dir();
    let mut buf = [5u8; 2];
    assert_eq!(d.read_at(0, &mut buf), Err(Error::IsDir));
    assert_eq!(buf, [5, 5]);
    assert_eq!(d.write_at(0, b"x"), Err(Error::IsDir));
    assert_eq!(d.resize(3), Err(Error::IsDir));
    assert_eq!(d.len(), 0);
}

#[test]
fn directory_entries_are_listed_in_name_order() {
    let mut d = MemInode::new_dir();
    assert_eq!(d.create("pear", 1), Ok(1));
    assert_eq!(d.create("apple", 2), Ok(2));
    assert_eq!(d.create("Zebra", 3), Ok(3));
    assert_eq!(d.create("app", 4), Ok(4));
    assert_eq!(d.list().unwrap(), vec!["Zebra", "app", "apple", "pear"]);
    assert_eq!(d.len(), 4);
    assert_eq!(d.metadata(), Metadata { file_type: FileType::Dir, len: 4 });
}

#[test]
fn directory_create_find_unlink() {
    let mut d = MemInode::new_dir();
    assert_eq!(d.find("a"), Err(Error::NotFound));
    assert_eq!(d.create("a", 7), Ok(7));
    assert_eq!(d.find("a"), Ok(7));
    assert_eq!(d.create("a", 8), Err(Error::AlreadyExists));
    assert_eq!(d.find("a"), Ok(7));
    assert_eq!(d.unlink("a"), Ok(()));
    assert_eq!(d.find("a"), Err(Error::NotFound));
    assert_eq!(d.unlink("a"), Err(Error::NotFound));
    assert!(d.list().unwrap().is_empty());
}

#[test]
fn memfs_starts_with_root_directory() {
    let fs = MemFS::new();
    let root = fs.root_inode();
    assert_eq!(root, 0);
    assert_eq!(fs.file_type(root), FileType::Dir);
    assert_eq!(fs.metadata(root), Metadata { file_type: FileType::Dir, len: 0 });
    let fs2 = MemFS::default();
    assert_eq!(fs2.list(0), Ok(Vec::<String>::new()));
}

#[test]
fn memfs_create_allocates_new_inodes() {
    let mut fs = MemFS::new();
    let dir = fs.create(0, "d", FileType::Dir).unwrap();
    assert_eq!(dir, 1);
    let file = fs.create(dir, "f", FileType::File).unwrap();
    assert_eq!(file, 2);
    assert_eq!(fs.find(0, "d"), Ok(1));
    assert_eq!(fs.find(dir, "f"), Ok(2));
    assert_eq!(fs.create(dir, "f", FileType::Dir), Err(Error::AlreadyExists));
    assert_eq!(fs.create(file, "g", FileType::File), Err(Error::NotDir));
    assert_eq!(fs.write_at(file, 0, b"data"), Ok(4));
    assert_eq!(fs.len(file), 4);
    assert_eq!(fs.write_at(dir, 0, b"data"), Err(Error::IsDir));
    assert_eq!(fs.resize(file, 1), Ok(()));
    let mut buf = [0u8; 4];
    assert_eq!(fs.read_at(file, 0, &mut buf), Ok(1));
    assert_eq!(buf[0], b'd');
}

#[test]
fn memfs_unlinked_inode_keeps_its_contents() {
    let mut fs = MemFS::new();
    let file = fs.create(0, "f", FileType::File).unwrap();
    fs.write_at(file, 0, b"kept").unwrap();
    assert_eq!(fs.unlink(0, "f"), Ok(()));
    assert_eq!(fs.find(0, "f"), Err(Error::NotFound));
    let mut buf = [0u8; 4];
    assert_eq!(fs.read_at(file, 0, &mut buf), Ok(4));
    assert_eq!(&buf, b"kept");
}

#[test]
fn unlink_undoes_create_and_listing_comes_back() {
    let mut d = MemInode::new_dir();
    d.create("m", 1).unwrap();
    d.create("b", 2).unwrap();
    let before = d.list().unwrap();
    assert_eq!(d.create("k", 3), Ok(3));
    assert_eq!(d.list().unwrap(), vec!["b", "k", "m"]);
    assert_eq!(d.unlink("k"), Ok(()));
    assert_eq!(d.list().unwrap(), before);
    assert_eq!(d.find("k"), Err(Error::NotFound));
}

#[test]
fn inode_keeps_its_file_type_over_any_calls() {
    let mut f = MemInode::new_file();
    let mut d = MemInode::new_dir();
    for i in 0..3 {
        let _ = f.write_at(i, b"ab");
        let _ = f.resize(1);
        let _ = f.create("x", 1);
        let _ = f.unlink("x");
        let _ = d.write_at(i, b"ab");
        let _ = d.resize(5);
        let _ = d.create("x", 1);
        let _ = d.unlink("y");
    }
    assert_eq!(f.file_type(), FileType::File);
    assert_eq!(d.file_type(), FileType::Dir);
    assert_eq!(d.len(), 1);
}

#[test]
fn directory_size_follows_create_and_unlink() {
    let mut fs = MemFS::new();
    let root = fs.root_inode();
    assert_eq!(fs.len(root), 0);
    fs.create(root, "a", FileType::File).unwrap();
    assert_eq!(fs.len(root), 1);
    fs.create(root, "b", FileType::Dir).unwrap();
    assert_eq!(fs.len(root), 2);
    fs.unlink(root, "a").unwrap();
    assert_eq!(fs.len(root), 1);
}
