use memfs::fs::{FileType, Metadata, OpenFlags, OpenOptions};
use memfs::syscall::Kernel;
use memfs::Error;

fn read_all(kernel: &mut Kernel, fd: usize, n: usize) -> Vec<u8> {
    let mut buf = vec![0u8; n];
    let got = kernel.sys_read(fd, &mut buf).unwrap();
    buf.truncate(got);
    buf
}

#[test]
fn write_then_seek_back_then_read() {
    let mut k = Kernel::new();
    let fd = k.sys_open("/f", true, OpenOptions::read_write()).unwrap();
    k.sys_write(fd, b"xyz").unwrap();
    k.sys_write(fd, b"12").unwrap();
    k.sys_lseek(fd, 3).unwrap();
    assert_eq!(read_all(&mut k, fd, 10), b"12");
    k.sys_lseek(fd, 0).unwrap();
    assert_eq!(read_all(&mut k, fd, 10), b"xyz12");
}

#[test]
fn descriptors_are_smallest_free_numbers() {
    let mut k = Kernel::default();
    let a = k.sys_open("/a", true, OpenOptions::read_write()).unwrap();
    let b = k.sys_open("/b", true, OpenOptions::read_write()).unwrap();
    let c = k.sys_open("/c", true, OpenOptions::read_write()).unwrap();
    assert_eq!((a, b, c), (0, 1, 2));
    k.sys_close(b).unwrap();
    assert_eq!(k.sys_open("/a", false, OpenOptions::read_only()), Ok(1));
    assert_eq!(k.sys_open("/a", false, OpenOptions::read_only()), Ok(3));
}

#[test]
fn bad_descriptor_everywhere() {
    let mut k = Kernel::new();
    let mut buf = [0u8; 2];
    assert_eq!(k.sys_read(5, &mut buf), Err(Error::BadFd));
    assert_eq!(k.sys_write(5, b"x"), Err(Error::BadFd));
    assert_eq!(k.sys_close(5), Err(Error::BadFd));
    assert_eq!(k.sys_fstat(5), Err(Error::BadFd));
    assert_eq!(k.sys_ftruncate(5, 0), Err(Error::BadFd));
    assert_eq!(k.sys_lseek(5, 0), Err(Error::BadFd));
    let fd = k.sys_open("/f", true, OpenOptions::read_write()).unwrap();
    k.sys_close(fd).unwrap();
    assert_eq!(k.sys_close(fd), Err(Error::BadFd));
    assert_eq!(k.sys_read(fd, &mut buf), Err(Error::BadFd));
}

#[test]
fn access_is_checked() {
    let mut k = Kernel::new();
    let w = k.sys_open("/f", true, OpenOptions::write_only()).unwrap();
    let mut buf = [0u8; 2];
    assert_eq!(k.sys_read(w, &mut buf), Err(Error::Permission));
    assert_eq!(k.sys_write(w, b"ab"), Ok(2));
    let r = k.sys_open("/f", false, OpenOptions::read_only()).unwrap();
    assert_eq!(k.sys_write(r, b"zz"), Err(Error::Permission));
    assert_eq!(read_all(&mut k, r, 4), b"ab");
}

#[test]
fn open_without_create_reports_missing_file() {
    let mut k = Kernel::new();
    assert_eq!(k.sys_open("/missing", false, OpenOptions::read_only()), Err(Error::NotFound));
    assert_eq!(k.sys_open("/no/such/file", true, OpenOptions::read_write()), Err(Error::NotFound));
}

#[test]
fn dot_dot_is_refused() {
    let mut k = Kernel::new();
    k.sys_mkdir("/d").unwrap();
    assert_eq!(k.sys_open("/d/../x", true, OpenOptions::read_write()), Err(Error::Invalid));
    assert_eq!(k.sys_open("/..", true, OpenOptions::read_write()), Err(Error::Invalid));
    assert_eq!(k.sys_getdents("/d/.."), Err(Error::Invalid));
}

#[test]
fn opening_the_root_succeeds() {
    let mut k = Kernel::new();
    assert_eq!(k.sys_open_flags("/", OpenFlags::create()), Ok(0));
    let mut k2 = Kernel::new();
    assert_eq!(k2.sys_open("/missing/..", true, OpenOptions::read_write()), Err(Error::NotFound));
}

#[test]
fn walking_through_a_file_is_refused() {
    let mut k = Kernel::new();
    k.sys_open("/f", true, OpenOptions::read_write()).unwrap();
    assert_eq!(k.sys_open("/f/x", true, OpenOptions::read_write()), Err(Error::NotDir));
    assert_eq!(k.sys_mkdir("/f/x"), Err(Error::NotDir));
    assert_eq!(k.sys_getdents("/f"), Err(Error::NotDir));
    assert_eq!(k.sys_chdir("/f"), Err(Error::NotDir));
}

#[test]
fn mkdir_twice_reports_existing() {
    let mut k = Kernel::new();
    assert_eq!(k.sys_mkdir("/d"), Ok(()));
    assert_eq!(k.sys_mkdir("/d"), Err(Error::AlreadyExists));
    assert_eq!(k.sys_mkdir("/d/"), Err(Error::AlreadyExists));
    assert_eq!(k.sys_mkdir("/e/f"), Err(Error::NotFound));
}

#[test]
fn unlink_missing_reports_not_found() {
    let mut k = Kernel::new();
    assert_eq!(k.sys_unlink("/x"), Err(Error::NotFound));
}

#[test]
fn getdents_lists_in_name_order() {
    let mut k = Kernel::new();
    k.sys_mkdir("/d").unwrap();
    for name in ["/d/c", "/d/a", "/d/b"] {
        k.sys_open(name, true, OpenOptions::read_write()).unwrap();
    }
    k.sys_mkdir("/d/aa").unwrap();
    assert_eq!(k.sys_getdents("/d").unwrap(), vec!["a", "aa", "b", "c"]);
    assert_eq!(k.sys_getdents("/").unwrap(), vec!["d"]);
}

#[test]
fn mkdir_then_parent_lists_new_empty_directory() {
    let mut k = Kernel::new();
    k.sys_mkdir("/p").unwrap();
    k.sys_mkdir("/p/q").unwrap();
    assert_eq!(k.sys_getdents("/p").unwrap(), vec!["q"]);
    assert!(k.sys_getdents("/p/q").unwrap().is_empty());
}

#[test]
fn chdir_makes_relative_paths_work() {
    let mut k = Kernel::new();
    k.sys_mkdir("/home").unwrap();
    k.sys_chdir("/home").unwrap();
    let fd = k.sys_open("notes", true, OpenOptions::read_write()).unwrap();
    k.sys_write(fd, b"hi").unwrap();
    assert_eq!(k.sys_getdents("/home").unwrap(), vec!["notes"]);
    assert_eq!(k.sys_getdents(".").unwrap(), vec!["notes"]);
    k.sys_mkdir("sub").unwrap();
    k.sys_chdir("sub").unwrap();
    k.sys_open("deep", true, OpenOptions::read_write()).unwrap();
    assert_eq!(k.sys_getdents("/home/sub").unwrap(), vec!["deep"]);
    assert_eq!(k.sys_chdir("missing"), Err(Error::NotFound));
}

#[test]
fn append_writes_go_to_end() {
    let mut k = Kernel::new();
    let fd = k.sys_open("/log", true, OpenOptions::read_write()).unwrap();
    k.sys_write(fd, b"one").unwrap();
    let ap = k
        .sys_open_flags("/log", OpenFlags::wronly() | OpenFlags::append())
        .unwrap();
    k.sys_write(ap, b"two").unwrap();
    k.sys_lseek(fd, 0).unwrap();
    assert_eq!(read_all(&mut k, fd, 10), b"onetwo");
    assert_eq!(k.sys_fstat(fd).unwrap(), Metadata { file_type: FileType::File, len: 6 });
}

#[test]
fn unlinked_file_stays_usable_through_open_descriptor() {
    let mut k = Kernel::new();
    let fd = k.sys_open("/tmpfile", true, OpenOptions::read_write()).unwrap();
    k.sys_write(fd, b"abc").unwrap();
    k.sys_unlink("/tmpfile").unwrap();
    assert_eq!(k.sys_open("/tmpfile", false, OpenOptions::read_only()), Err(Error::NotFound));
    k.sys_lseek(fd, 0).unwrap();
    assert_eq!(read_all(&mut k, fd, 3), b"abc");
}

#[test]
fn reading_a_directory_descriptor_fails() {
    let mut k = Kernel::new();
    k.sys_mkdir("/d").unwrap();
    let fd = k.sys_open("/d", false, OpenOptions::read_write()).unwrap();
    let mut buf = [0u8; 1];
    assert_eq!(k.sys_read(fd, &mut buf), Err(Error::IsDir));
    assert_eq!(k.sys_write(fd, b"x"), Err(Error::IsDir));
    assert_eq!(k.sys_ftruncate(fd, 0), Err(Error::IsDir));
    assert_eq!(k.sys_fstat(fd).unwrap(), Metadata { file_type: FileType::Dir, len: 0 });
}

#[test]
fn truncating_open_of_directory_fails_but_keeps_descriptor() {
    let mut k = Kernel::new();
    k.sys_mkdir("/d").unwrap();
    assert_eq!(k.sys_open_flags("/d", OpenFlags::truncate()), Err(Error::IsDir));
    assert_eq!(k.sys_fstat(0).unwrap().file_type, FileType::Dir);
    assert_eq!(k.sys_open("/d", false, OpenOptions::read_only()), Ok(1));
}

#[test]
fn truncate_then_read_gives_prefix() {
    let mut k = Kernel::new();
    let fd = k.sys_open("/t", true, OpenOptions::read_write()).unwrap();
    k.sys_write(fd, b"0123456789").unwrap();
    k.sys_ftruncate(fd, 4).unwrap();
    assert_eq!(k.sys_fstat(fd).unwrap().len, 4);
    k.sys_lseek(fd, 0).unwrap();
    assert_eq!(read_all(&mut k, fd, 3), b"012");
    assert_eq!(read_all(&mut k, fd, 3), b"3");
    k.sys_ftruncate(fd, 6).unwrap();
    k.sys_lseek(fd, 0).unwrap();
    assert_eq!(read_all(&mut k, fd, 10), b"0123\0\0");
}

#[test]
fn write_after_seek_past_end_leaves_zero_gap() {
    let mut k = Kernel::new();
    let fd = k.sys_open("/g", true, OpenOptions::read_write()).unwrap();
    k.sys_lseek(fd, 2).unwrap();
    k.sys_write(fd, b"z").unwrap();
    k.sys_lseek(fd, 0).unwrap();
    assert_eq!(read_all(&mut k, fd, 10), b"\0\0z");
}

#[test]
fn second_handle_sees_writes_but_keeps_own_offset() {
    let mut k = Kernel::new();
    let a = k.sys_open("/s", true, OpenOptions::read_write()).unwrap();
    let b = k.sys_open("/s", false, OpenOptions::read_write()).unwrap();
    k.sys_write(a, b"hello").unwrap();
    assert_eq!(read_all(&mut k, b, 2), b"he");
    k.sys_write(a, b"!").unwrap();
    assert_eq!(read_all(&mut k, b, 10), b"llo!");
    assert_eq!(read_all(&mut k, a, 10), b"");
}

#[test]
fn open_flags_create_on_existing_file_keeps_contents() {
    let mut k = Kernel::new();
    let fd = k.sys_open_flags("/c", OpenFlags::create() | OpenFlags::rdwr()).unwrap();
    k.sys_write(fd, b"keep").unwrap();
    let fd2 = k.sys_open_flags("/c", OpenFlags::create()).unwrap();
    assert_eq!(k.sys_fstat(fd2).unwrap().len, 4);
    assert_eq!(read_all(&mut k, fd2, 10), b"keep");
}

#[test]
fn mkdir_then_path_names_empty_directory() {
    let mut k = Kernel::new();
    k.sys_mkdir("/x/").unwrap();
    let fd = k.sys_open("/x", false, OpenOptions::read_only()).unwrap();
    assert_eq!(k.sys_fstat(fd).unwrap(), Metadata { file_type: FileType::Dir, len: 0 });
    assert!(k.sys_getdents("/x").unwrap().is_empty());
}

#[test]
fn mkdir_and_unlink_refuse_names_no_lookup_reaches() {
    let mut k = Kernel::new();
    k.sys_mkdir("/a").unwrap();
    assert_eq!(k.sys_mkdir("/a/."), Err(Error::Invalid));
    assert_eq!(k.sys_mkdir("/a/.."), Err(Error::Invalid));
    assert_eq!(k.sys_mkdir("/"), Err(Error::Invalid));
    assert_eq!(k.sys_unlink("/a/."), Err(Error::Invalid));
    assert_eq!(k.sys_unlink("/a/.."), Err(Error::Invalid));
    assert_eq!(k.sys_unlink("/"), Err(Error::Invalid));
    assert_eq!(k.sys_getdents("/a").unwrap(), Vec::<String>::new());
    assert_eq!(k.sys_getdents("/").unwrap(), vec!["a"]);
}

#[test]
fn unlink_of_non_empty_directory_is_allowed() {
    let mut k = Kernel::new();
    k.sys_mkdir("/d").unwrap();
    k.sys_open("/d/f", true, OpenOptions::read_write()).unwrap();
    assert_eq!(k.sys_unlink("/d"), Ok(()));
    assert_eq!(k.sys_getdents("/d/"), Err(Error::NotFound));
    assert!(k.sys_getdents("/").unwrap().is_empty());
}

#[test]
fn chdir_to_dot_keeps_directory() {
    let mut k = Kernel::new();
    k.sys_mkdir("/w").unwrap();
    k.sys_chdir("/w").unwrap();
    k.sys_chdir(".").unwrap();
    k.sys_open("f", true, OpenOptions::read_write()).unwrap();
    assert_eq!(k.sys_getdents("/w").unwrap(), vec!["f"]);
}

#[test]
fn write_fits_checks_the_offset_against_the_length() {
    let mut k = Kernel::new();
    let fd = k.sys_open("/f", true, OpenOptions::read_write()).unwrap();
    assert!(k.write_fits(fd, 3));
    k.sys_lseek(fd, usize::MAX - 1).unwrap();
    assert!(k.write_fits(fd, 1));
    assert!(!k.write_fits(fd, 2));
    let ro = k.sys_open("/f", false, OpenOptions::read_only()).unwrap();
    k.sys_lseek(ro, usize::MAX).unwrap();
    assert!(k.write_fits(ro, 5));
    assert!(k.write_fits(42, usize::MAX));
}

#[test]
fn write_fits_of_appending_descriptor_uses_the_file_length() {
    let mut k = Kernel::new();
    let fd = k.sys_open("/f", true, OpenOptions::read_write()).unwrap();
    k.sys_write(fd, b"abcd").unwrap();
    let ap = k.sys_open_flags("/f", OpenFlags::wronly() | OpenFlags::append()).unwrap();
    assert!(k.write_fits(ap, usize::MAX - 4));
    assert!(!k.write_fits(ap, usize::MAX - 3));
}

#[test]
fn two_opens_of_one_path_give_distinct_descriptors_on_one_inode() {
    let mut k = Kernel::new();
    let fd1 = k.sys_open("/f", true, OpenOptions::read_write()).unwrap();
    let fd2 = k.sys_open("/f", false, OpenOptions::read_write()).unwrap();
    assert_ne!(fd1, fd2);
    k.sys_write(fd1, b"shared").unwrap();
    assert_eq!(read_all(&mut k, fd2, 16), b"shared");
    assert_eq!(k.sys_fstat(fd1), k.sys_fstat(fd2));
}

#[test]
fn two_opens_with_calls_between_share_the_inode() {
    let mut k = Kernel::new();
    let fd1 = k.sys_open("/f", true, OpenOptions::read_write()).unwrap();
    k.sys_mkdir("/d").unwrap();
    let other = k.sys_open("/d/g", true, OpenOptions::read_write()).unwrap();
    k.sys_write(other, b"zz").unwrap();
    k.sys_close(other).unwrap();
    let fd2 = k.sys_open("/f", false, OpenOptions::read_write()).unwrap();
    assert_ne!(fd1, fd2);
    k.sys_write(fd2, b"data").unwrap();
    assert_eq!(read_all(&mut k, fd1, 16), b"data");
    assert_eq!(k.sys_fstat(fd1), k.sys_fstat(fd2));
}
