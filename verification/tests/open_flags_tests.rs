use memfs::fs::{OpenFlags, OpenOptions};

fn opts(f: OpenFlags) -> (bool, bool, bool) {
    let o = OpenOptions::from_flags(f);
    (o.read, o.write, o.append)
}

#[test]
fn fixed_options() {
    let r = OpenOptions::read_only();
    assert!(r.read && !r.write && !r.append);
    let w = OpenOptions::write_only();
    assert!(!w.read && w.write && !w.append);
    let rw = OpenOptions::read_write();
    assert!(rw.read && rw.write && !rw.append);
}

#[test]
fn from_flags_default_is_read_only() {
    assert_eq!(opts(OpenFlags::empty()), (true, false, false));
    assert_eq!(opts(OpenFlags::create()), (true, false, false));
}

#[test]
fn from_flags_write_only() {
    assert_eq!(opts(OpenFlags::wronly()), (false, true, false));
}

#[test]
fn from_flags_read_write() {
    assert_eq!(opts(OpenFlags::rdwr()), (true, true, false));
    assert_eq!(opts(OpenFlags::rdwr() | OpenFlags::wronly()), (true, true, false));
}

#[test]
fn from_flags_append() {
    assert_eq!(opts(OpenFlags::wronly() | OpenFlags::append()), (false, true, true));
}

#[test]
fn every_flag_set_grants_some_access() {
    for bits in 0u32..2048 {
        let o = OpenOptions::from_flags(OpenFlags::from_bits_truncate(bits));
        assert!(o.read || o.write);
    }
}

#[test]
fn flag_bits_and_set_operations() {
    assert_eq!(OpenFlags::wronly().bits(), 1);
    assert_eq!(OpenFlags::rdwr().bits(), 2);
    assert_eq!(OpenFlags::create().bits(), 64);
    assert_eq!(OpenFlags::truncate().bits(), 512);
    assert_eq!(OpenFlags::append().bits(), 1024);
    let f = OpenFlags::create() | OpenFlags::rdwr();
    assert_eq!(f.bits(), 66);
    assert_eq!(f, OpenFlags::create().union(OpenFlags::rdwr()));
    assert!(f.contains(OpenFlags::create()));
    assert!(!f.contains(OpenFlags::truncate()));
    assert_eq!(OpenFlags::from_bits_truncate(0xffff_ffff).bits(), 1603);
}
