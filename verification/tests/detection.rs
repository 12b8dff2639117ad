use sealed_fs::{FileSession, FsError, HostFs, IdentityContext, ProtectionMode, SessionState};

fn sealed_host(mode: ProtectionMode, content: &[u8]) -> HostFs {
    let mut host = HostFs::new();
    let mut session = FileSession::new(IdentityContext::new([7u8; 32]));
    session.create(&mut host, "f", mode, [1u8; 32]).unwrap();
    session.write(&host, 0, content).unwrap();
    session.close(&mut host);
    host
}

fn open_and_read(host: &HostFs, identity: IdentityContext, mode: ProtectionMode, n: usize) -> Result<
    Vec<u8>,
    FsError,
> {
    let mut session = FileSession::new(identity);
    session.open(host, "f", mode)?;
    session.read(host, 0, n)
}

fn every_flip_is_caught(mode: ProtectionMode, content: &[u8], step: usize) {
    let sound = sealed_host(mode, content);
    let image = sound.contents("f").unwrap();
    let identity = IdentityContext::new([7u8; 32]);
    assert_eq!(open_and_read(&sound, identity, mode, content.len()), Ok(content.to_vec()));
    let mut at = 0;
    while at < image.len() {
        for bit in [0x01u8, 0x80] {
            let mut changed = image.clone();
            changed[at] ^= bit;
            let mut host = HostFs::new();
            host.install("f", changed);
            assert_eq!(
                open_and_read(&host, identity, mode, content.len()),
                Err(FsError::IntegrityViolation),
                "byte {} of the image",
                at
            );
        }
        at += step;
    }
}

#[test]
fn every_flipped_byte_of_a_small_full_mode_file_is_caught() {
    every_flip_is_caught(ProtectionMode::Full, b"Hello, world!", 1);
}

#[test]
fn every_flipped_byte_of_a_small_integrity_only_file_is_caught() {
    every_flip_is_caught(ProtectionMode::IntegrityOnly, b"Hello, world!", 1);
}

#[test]
fn flipped_bytes_across_a_file_of_several_nodes_are_caught() {
    let content: Vec<u8> = (0..9_000).map(|i| (i % 253) as u8).collect();
    every_flip_is_caught(ProtectionMode::Full, &content, 397);
}

#[test]
fn every_flipped_byte_of_an_empty_file_is_caught_at_the_open() {
    let sound = sealed_host(ProtectionMode::Full, b"");
    let image = sound.contents("f").unwrap();
    assert_eq!(image.len(), 137);
    for at in 0..image.len() {
        let mut changed = image.clone();
        changed[at] ^= 0x04;
        let mut host = HostFs::new();
        host.install("f", changed);
        let mut session = FileSession::new(IdentityContext::new([7u8; 32]));
        assert_eq!(
            session.open(&host, "f", ProtectionMode::Full),
            Err(FsError::IntegrityViolation)
        );
        assert_eq!(session.state(), SessionState::Faulted(FsError::IntegrityViolation));
    }
}

#[test]
fn swapped_nodes_are_caught() {
    let content: Vec<u8> = (0..8_192).map(|i| (i / 4096) as u8).collect();
    let sound = sealed_host(ProtectionMode::IntegrityOnly, &content);
    let image = sound.contents("f").unwrap();
    let mut changed = image.clone();
    changed[137..137 + 4096].copy_from_slice(&image[137 + 4096..137 + 8192]);
    changed[137 + 4096..137 + 8192].copy_from_slice(&image[137..137 + 4096]);
    let table = 137 + 8192;
    changed[table..table + 32].copy_from_slice(&image[table + 32..table + 64]);
    changed[table + 32..table + 64].copy_from_slice(&image[table..table + 32]);
    let mut host = HostFs::new();
    host.install("f", changed);
    assert_eq!(
        open_and_read(&host, IdentityContext::new([7u8; 32]), ProtectionMode::IntegrityOnly, 8_192),
        Err(FsError::IntegrityViolation)
    );
}

#[test]
fn a_stale_node_is_caught() {
    let mut host = sealed_host(ProtectionMode::Full, &[1u8; 5_000]);
    let old = host.contents("f").unwrap();
    let identity = IdentityContext::new([7u8; 32]);
    let mut session = FileSession::new(identity);
    session.open(&host, "f", ProtectionMode::Full).unwrap();
    session.write(&host, 10, &[2u8; 10]).unwrap();
    session.close(&mut host);
    let mut replayed = host.contents("f").unwrap();
    assert_ne!(&replayed[137..137 + 4096], &old[137..137 + 4096]);
    replayed[137..137 + 4096].copy_from_slice(&old[137..137 + 4096]);
    host.install("f", replayed);
    assert_eq!(
        open_and_read(&host, identity, ProtectionMode::Full, 5_000),
        Err(FsError::IntegrityViolation)
    );
}

#[test]
fn a_file_of_one_identity_does_not_open_under_another() {
    for mode in [ProtectionMode::Full, ProtectionMode::IntegrityOnly] {
        let host = sealed_host(mode, b"Hello, world!");
        let mut stranger = FileSession::new(IdentityContext::new([8u8; 32]));
        assert_eq!(stranger.open(&host, "f", mode), Err(FsError::IntegrityViolation));
        assert_eq!(stranger.state(), SessionState::Faulted(FsError::IntegrityViolation));
        let mut nobody = FileSession::new(IdentityContext::unavailable());
        assert_eq!(nobody.open(&host, "f", mode), Err(FsError::KeyDerivationFailed));
        let mut owner = FileSession::new(IdentityContext::new([7u8; 32]));
        assert_eq!(owner.open(&host, "f", mode), Ok(()));
    }
}

#[test]
fn a_file_moved_to_another_path_still_opens() {
    let host = sealed_host(ProtectionMode::Full, b"Hello, world!");
    let mut moved = HostFs::new();
    moved.install("elsewhere", host.contents("f").unwrap());
    let mut session = FileSession::new(IdentityContext::new([7u8; 32]));
    assert_eq!(session.open(&moved, "elsewhere", ProtectionMode::Full), Ok(()));
    assert_eq!(session.read(&moved, 0, 13), Ok(b"Hello, world!".to_vec()));
}
