use sealed_fs::range::{append_bytes, bytes_equal, overwrite, window};
use sealed_fs::{FsError, HostFs};

#[test]
fn a_new_host_holds_nothing() {
    let host = HostFs::new();
    assert!(!host.contains("a"));
    assert!(!host.is_refused("a"));
    assert_eq!(host.open("a"), Err(FsError::NotFound));
    assert_eq!(host.read("a", 0, 10), Err(FsError::NotFound));
    assert_eq!(host.contents("a"), None);
}

#[test]
fn create_is_exclusive() {
    let mut host = HostFs::new();
    assert_eq!(host.create("a"), Ok(()));
    assert!(host.contains("a"));
    assert_eq!(host.open("a"), Ok(0));
    assert_eq!(host.create("a"), Err(FsError::AlreadyExists));
    assert_eq!(host.create("b"), Ok(()));
}

#[test]
fn refused_paths_are_denied() {
    let mut host = HostFs::new();
    host.install("/proc/100", vec![1, 2, 3]);
    host.refuse("/proc/100");
    assert!(host.is_refused("/proc/100"));
    assert!(!host.is_refused("/proc/101"));
    assert_eq!(host.create("/proc/100"), Err(FsError::PermissionDenied));
    assert_eq!(host.open("/proc/100"), Err(FsError::PermissionDenied));
    assert_eq!(host.remove("/proc/100"), Err(FsError::PermissionDenied));
    assert_eq!(host.contents("/proc/100"), Some(vec![1, 2, 3]));
    host.refuse("nothing_here");
    assert_eq!(host.create("nothing_here"), Err(FsError::PermissionDenied));
    assert_eq!(host.open("nothing_here"), Err(FsError::PermissionDenied));
}

#[test]
fn write_and_read_ranges() {
    let mut host = HostFs::new();
    assert_eq!(host.write("a", 0, b"x"), Err(FsError::NotFound));
    host.create("a").unwrap();
    assert_eq!(host.write("a", 0, b"hello"), Ok(()));
    assert_eq!(host.write("a", 3, b"LOWORLD"), Ok(()));
    assert_eq!(host.contents("a"), Some(b"helLOWORLD".to_vec()));
    assert_eq!(host.read("a", 2, 4), Ok(b"lLOW".to_vec()));
    assert_eq!(host.read("a", 8, 40), Ok(b"LD".to_vec()));
    assert_eq!(host.read("a", 10, 1), Ok(vec![]));
    assert_eq!(host.read("a", 99, usize::MAX), Ok(vec![]));
    assert_eq!(host.read("a", 1, usize::MAX), Ok(b"elLOWORLD".to_vec()));
    assert_eq!(host.open("a"), Ok(10));
}

#[test]
fn a_write_past_the_end_fills_the_gap_with_zeros() {
    let mut host = HostFs::new();
    host.create("a").unwrap();
    host.write("a", 0, b"ab").unwrap();
    host.write("a", 5, b"z").unwrap();
    assert_eq!(host.contents("a"), Some(vec![b'a', b'b', 0, 0, 0, b'z']));
}

#[test]
fn a_write_that_cannot_be_addressed_fails() {
    let mut host = HostFs::new();
    host.create("a").unwrap();
    assert_eq!(host.write("a", usize::MAX, b"ab"), Err(FsError::Io));
    assert_eq!(host.contents("a"), Some(vec![]));
}

#[test]
fn remove_deletes_only_the_named_file() {
    let mut host = HostFs::new();
    host.install("a", vec![1]);
    host.install("b", vec![2]);
    host.install("c", vec![3]);
    assert_eq!(host.remove("b"), Ok(()));
    assert_eq!(host.remove("b"), Err(FsError::NotFound));
    assert_eq!(host.contents("a"), Some(vec![1]));
    assert_eq!(host.contents("b"), None);
    assert_eq!(host.contents("c"), Some(vec![3]));
}

#[test]
fn install_replaces_what_was_there() {
    let mut host = HostFs::new();
    host.install("a", vec![1, 2]);
    host.install("a", vec![9]);
    assert_eq!(host.contents("a"), Some(vec![9]));
}

#[test]
fn byte_range_helpers() {
    let mut bytes = vec![1u8, 2];
    append_bytes(&mut bytes, &[3, 4]);
    assert_eq!(bytes, vec![1, 2, 3, 4]);
    assert_eq!(window(&bytes, 1, 2), vec![2, 3]);
    assert_eq!(window(&bytes, 3, 9), vec![4]);
    assert_eq!(window(&bytes, 7, 9), Vec::<u8>::new());
    overwrite(&mut bytes, 2, &[7, 8, 9]);
    assert_eq!(bytes, vec![1, 2, 7, 8, 9]);
    overwrite(&mut bytes, 7, &[5]);
    assert_eq!(bytes, vec![1, 2, 7, 8, 9, 0, 0, 5]);
    overwrite(&mut bytes, 0, &[]);
    assert_eq!(bytes, vec![1, 2, 7, 8, 9, 0, 0, 5]);
    assert!(bytes_equal(&[1, 2], &[1, 2]));
    assert!(!bytes_equal(&[1, 2], &[1, 3]));
    assert!(!bytes_equal(&[1, 2], &[1, 2, 3]));
    assert!(bytes_equal(&[], &[]));
}
