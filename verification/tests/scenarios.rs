use sealed_fs::{
    test_fs, test_fs_untrusted_fs_feature_enabled, test_sgxfs, test_sgxfs_integrity_only,
    FileSession, HostFs, IdentityContext, ProtectionMode,
};

fn linux_like_host() -> HostFs {
    let mut host = HostFs::new();
    host.refuse("/proc/100");
    host
}

#[test]
fn plain_exchange_passes_and_leaves_no_file() {
    let mut host = HostFs::new();
    host.install("other", vec![1, 2, 3]);
    assert!(test_fs(&mut host));
    assert!(!host.contains("foo.txt"));
    assert_eq!(host.contents("other"), Some(vec![1, 2, 3]));
    assert!(test_fs_untrusted_fs_feature_enabled(&mut host));
    assert!(!host.contains("foo.txt"));
}

#[test]
fn plain_exchange_fails_where_the_file_exists_or_is_refused() {
    let mut host = HostFs::new();
    host.install("foo.txt", vec![9]);
    assert!(!test_fs(&mut host));
    assert!(!test_fs_untrusted_fs_feature_enabled(&mut host));
    assert_eq!(host.contents("foo.txt"), Some(vec![9]));
    let mut locked = HostFs::new();
    locked.refuse("foo.txt");
    assert!(!test_fs(&mut locked));
    assert!(!locked.contains("foo.txt"));
}

#[test]
fn sealed_exchange_passes_on_a_host_that_refuses_proc() {
    let mut host = linux_like_host();
    let data = [3, 1, 4, 1, 5, 9, 2, 6, 5, 3, 5, 8, 9, 7, 9, 3];
    assert!(test_sgxfs(&mut host, IdentityContext::new([7u8; 32]), data, [1u8; 32]));
    assert!(!host.contains("sgx_file"));
    assert!(test_sgxfs(&mut host, IdentityContext::new([9u8; 32]), [0u8; 16], [0u8; 32]));
}

#[test]
fn sealed_exchange_fails_where_its_conditions_do_not_hold() {
    let identity = IdentityContext::new([7u8; 32]);
    let mut open_host = HostFs::new();
    assert!(!test_sgxfs(&mut open_host, identity, [0u8; 16], [1u8; 32]));

    let mut host = linux_like_host();
    assert!(!test_sgxfs(&mut host, IdentityContext::unavailable(), [0u8; 16], [1u8; 32]));

    let mut taken = linux_like_host();
    taken.install("sgx_file", vec![1]);
    assert!(!test_sgxfs(&mut taken, identity, [0u8; 16], [1u8; 32]));
    assert_eq!(taken.contents("sgx_file"), Some(vec![1]));

    let mut with_question = linux_like_host();
    let mut session = FileSession::new(identity);
    session.create(&mut with_question, "?", ProtectionMode::Full, [5u8; 32]).unwrap();
    session.close(&mut with_question);
    assert!(!test_sgxfs(&mut with_question, identity, [0u8; 16], [1u8; 32]));
}

#[test]
fn integrity_only_exchange_passes() {
    let mut host = HostFs::new();
    let makefile = b"all:\n\tcargo build --release\n\nclean:\n\tcargo clean\n".repeat(200);
    assert!(makefile.len() > 8192);
    assert!(test_sgxfs_integrity_only(
        &mut host,
        IdentityContext::new([7u8; 32]),
        &makefile,
        [1u8; 32]
    ));
    assert!(!host.contains("sgx_file_integrity_only.data"));
    assert!(test_sgxfs_integrity_only(&mut host, IdentityContext::new([7u8; 32]), b"", [1u8; 32]));
}

#[test]
fn integrity_only_exchange_fails_where_its_conditions_do_not_hold() {
    let mut host = HostFs::new();
    assert!(!test_sgxfs_integrity_only(&mut host, IdentityContext::unavailable(), b"x", [1u8; 32]));
    host.install("sgx_file_integrity_only.data", vec![1]);
    assert!(!test_sgxfs_integrity_only(
        &mut host,
        IdentityContext::new([7u8; 32]),
        b"x",
        [1u8; 32]
    ));
    let mut locked = HostFs::new();
    locked.refuse("sgx_file_integrity_only.data");
    assert!(!test_sgxfs_integrity_only(
        &mut locked,
        IdentityContext::new([7u8; 32]),
        b"x",
        [1u8; 32]
    ));
}
