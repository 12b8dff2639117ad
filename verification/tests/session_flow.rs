use sealed_fs::{remove, FileSession, FsError, HostFs, IdentityContext, ProtectionMode, SessionState};
use sha2::Digest;

fn hex(text: &str) -> Vec<u8> {
    (0..text.len() / 2).map(|i| u8::from_str_radix(&text[2 * i..2 * i + 2], 16).unwrap()).collect()
}

fn pattern(n: usize) -> Vec<u8> {
    (0..n).map(|i| (i * 7 + i / 251) as u8).collect()
}

fn identity() -> IdentityContext {
    IdentityContext::new([7u8; 32])
}

fn sealed(host: &mut HostFs, path: &str, mode: ProtectionMode, content: &[u8]) {
    let mut session = FileSession::new(identity());
    assert_eq!(session.create(host, path, mode, [1u8; 32]), Ok(()));
    assert_eq!(session.write(host, 0, content), Ok(content.len()));
    session.close(host);
}

#[test]
fn full_mode_round_trip_over_several_nodes() {
    let mut host = HostFs::new();
    let data = pattern(10_000);
    let mut writer = FileSession::new(identity());
    assert_eq!(writer.state(), SessionState::Fresh);
    assert_eq!(writer.create(&mut host, "vault.bin", ProtectionMode::Full, [1u8; 32]), Ok(()));
    assert_eq!(writer.state(), SessionState::Open);
    assert_eq!(writer.write(&host, 0, &data), Ok(10_000));
    assert_eq!(writer.len(), 10_000);
    writer.close(&mut host);
    assert_eq!(writer.state(), SessionState::Closed);
    assert_eq!(writer.len(), 0);

    let mut reader = FileSession::new(identity());
    assert_eq!(reader.open(&host, "vault.bin", ProtectionMode::Full), Ok(()));
    assert_eq!(reader.len(), 10_000);
    assert_eq!(reader.read(&host, 0, 10_000), Ok(data.clone()));
    assert_eq!(reader.read(&host, 9_990, 100), Ok(data[9_990..].to_vec()));
    assert_eq!(reader.read(&host, 20_000, 5), Ok(Vec::new()));
    assert_eq!(reader.read(&host, 5, 0), Ok(Vec::new()));
    assert_eq!(reader.read(&host, 4_090, 12), Ok(data[4_090..4_102].to_vec()));
}

#[test]
fn round_trip_of_sixteen_bytes() {
    let mut host = HostFs::new();
    let data: [u8; 16] = [0xde, 0xad, 0xbe, 0xef, 1, 2, 3, 4, 5, 6, 7, 8, 9, 10, 11, 12];
    sealed(&mut host, "sgx_file", ProtectionMode::Full, &data);
    let mut reader = FileSession::new(identity());
    assert_eq!(reader.open(&host, "sgx_file", ProtectionMode::Full), Ok(()));
    assert_eq!(reader.read(&host, 0, 16), Ok(data.to_vec()));
}

#[test]
fn round_trip_of_exactly_one_node_and_of_one_byte_more() {
    for n in [4096usize, 4097, 8192, 1] {
        let mut host = HostFs::new();
        let data = pattern(n);
        sealed(&mut host, "f", ProtectionMode::Full, &data);
        let nodes = (n + 4095) / 4096;
        assert_eq!(host.contents("f").unwrap().len(), 137 + n + 32 * nodes);
        let mut reader = FileSession::new(identity());
        assert_eq!(reader.open(&host, "f", ProtectionMode::Full), Ok(()));
        assert_eq!(reader.read(&host, 0, n + 10), Ok(data));
    }
}

#[test]
fn sealed_image_in_full_mode_is_exact() {
    let mut host = HostFs::new();
    sealed(&mut host, "greeting", ProtectionMode::Full, b"Hello, world!");
    assert_eq!(
        host.contents("greeting").unwrap(),
        hex("00010101010101010101010101010101010101010101010101010101010101010126e1a1681083e6e1674f9917b18e8f60a16eb78ebea06589a84737756a1d44973a107e8fe102a838e86fc37beace6fe07be686b78490bcff3d4b1dce413e5c952feb520565fda283e8464e2448f55856ea7c29dd12c2f5bedf18cdd4e59e97e8e1b0de71510800af83f59003555f37579dd4db85dd122696d484f1c08f045c3c949d3b94ed069d105fbb4364b943dd03ccd74afe15")
    );
}

#[test]
fn sealed_image_in_integrity_only_mode_is_exact() {
    let mut host = HostFs::new();
    sealed(&mut host, "greeting", ProtectionMode::IntegrityOnly, b"Hello, world!");
    assert_eq!(
        host.contents("greeting").unwrap(),
        hex("0101010101010101010101010101010101010101010101010101010101010101010d000000000000003ea492206efebb9afe8e88704aa2c7c01856a6e9e327bbf23d0ec2297b035fd2e86fc37beace6fe07be686b78490bcff3d4b1dce413e5c952feb520565fda2831a85d9f314628fae0bc243f4805eebc2b094401515d15d5a345734d00762666748656c6c6f2c20776f726c6421122696d484f1c08f045c3c949d3b94ed069d105fbb4364b943dd03ccd74afe15")
    );
}

#[test]
fn sealed_image_of_an_empty_file_is_its_metadata_node() {
    let mut host = HostFs::new();
    let mut session = FileSession::new(identity());
    session.create(&mut host, "empty", ProtectionMode::IntegrityOnly, [1u8; 32]).unwrap();
    let expected = hex("01010101010101010101010101010101010101010101010101010101010101010100000000000000008c33503bf35098a540aee1b9f9ea91da99d32742e734c10d16d34491c8fe62ad18a3d7e57ed2964a8c3e61443ba66c3c3b2020e6eacc874d813c5ecc7584b3c37718419f92df7adf5fac74d4461ca67d648be60ddef7e6bddf5078853c6e4961");
    assert_eq!(host.contents("empty").unwrap(), expected);
    assert_eq!(
        session.get_authentication_tag().unwrap().to_vec(),
        hex("8c33503bf35098a540aee1b9f9ea91da99d32742e734c10d16d34491c8fe62ad")
    );
    session.close(&mut host);
    assert_eq!(host.contents("empty").unwrap(), expected);
    let mut reader = FileSession::new(identity());
    assert_eq!(reader.open(&host, "empty", ProtectionMode::IntegrityOnly), Ok(()));
    assert_eq!(reader.len(), 0);
    assert_eq!(reader.read(&host, 0, 100), Ok(Vec::new()));
}

#[test]
fn sealed_image_of_several_nodes_is_exact() {
    let mut host = HostFs::new();
    sealed(&mut host, "big", ProtectionMode::Full, &pattern(10_000));
    let image = host.contents("big").unwrap();
    assert_eq!(image.len(), 10_233);
    assert_eq!(
        sha2::Sha256::digest(&image).to_vec(),
        hex("784f2e57d7f64e5ae334aca61876ed431ae857904ac54312910f8f1ea5c2af29")
    );
    let mut other = HostFs::new();
    sealed(&mut other, "big", ProtectionMode::IntegrityOnly, &pattern(10_000));
    assert_eq!(
        sha2::Sha256::digest(&other.contents("big").unwrap()).to_vec(),
        hex("2b122bbd15609c9cbb96c9daea0af165847d17d3811c851a9150bcb032768412")
    );
}

#[test]
fn full_mode_hides_the_content_and_integrity_only_mode_shows_it() {
    let secret = b"the quick brown fox jumps over the lazy dog";
    let mut host = HostFs::new();
    sealed(&mut host, "hidden", ProtectionMode::Full, secret);
    sealed(&mut host, "shown", ProtectionMode::IntegrityOnly, secret);
    let hidden = host.contents("hidden").unwrap();
    let shown = host.contents("shown").unwrap();
    assert!(!hidden.windows(8).any(|w| w == &secret[..8]));
    assert_eq!(&shown[137..137 + secret.len()], &secret[..]);
}

#[test]
fn nothing_reaches_the_host_before_a_flush() {
    let mut host = HostFs::new();
    let mut session = FileSession::new(identity());
    session.create(&mut host, "f", ProtectionMode::Full, [1u8; 32]).unwrap();
    let created = host.contents("f").unwrap();
    assert_eq!(created.len(), 137);
    assert_eq!(session.write(&host, 0, b"abc"), Ok(3));
    assert_eq!(host.contents("f").unwrap(), created);
    assert_eq!(session.read(&host, 0, 10), Ok(b"abc".to_vec()));
    assert_eq!(session.flush(&mut host), Ok(()));
    assert_eq!(host.contents("f").unwrap().len(), 137 + 3 + 32);
    let flushed = host.contents("f").unwrap();
    assert_eq!(session.flush(&mut host), Ok(()));
    assert_eq!(host.contents("f").unwrap(), flushed);
    assert_eq!(session.state(), SessionState::Open);
}

#[test]
fn writes_at_offsets_and_past_the_end() {
    let mut host = HostFs::new();
    let mut session = FileSession::new(identity());
    session.create(&mut host, "f", ProtectionMode::Full, [1u8; 32]).unwrap();
    assert_eq!(session.write(&host, 0, b"hello world"), Ok(11));
    assert_eq!(session.write(&host, 6, b"WORLD!!"), Ok(7));
    assert_eq!(session.write(&host, 20, b"x"), Ok(1));
    assert_eq!(session.write(&host, 3, b""), Ok(0));
    assert_eq!(session.write(&host, 500, b""), Ok(0));
    assert_eq!(session.len(), 21);
    let mut expected = b"hello WORLD!!".to_vec();
    expected.extend_from_slice(&[0; 7]);
    expected.push(b'x');
    assert_eq!(session.read(&host, 0, 100), Ok(expected.clone()));
    session.close(&mut host);
    let mut reader = FileSession::new(identity());
    reader.open(&host, "f", ProtectionMode::Full).unwrap();
    assert_eq!(reader.read(&host, 0, 100), Ok(expected));
}

#[test]
fn a_reopened_file_is_changed_in_place_and_extended() {
    let mut host = HostFs::new();
    let mut data = pattern(9_000);
    sealed(&mut host, "f", ProtectionMode::Full, &data);
    let before = host.contents("f").unwrap();

    let mut session = FileSession::new(identity());
    session.open(&host, "f", ProtectionMode::Full).unwrap();
    assert_eq!(session.write(&host, 5_000, b"PATCH"), Ok(5));
    data[5_000..5_005].copy_from_slice(b"PATCH");
    assert_eq!(session.write(&host, 12_000, b"tail"), Ok(4));
    data.resize(12_000, 0);
    data.extend_from_slice(b"tail");
    assert_eq!(session.len(), 12_004);
    let plan = session.plan().unwrap();
    let offsets: Vec<usize> = plan.iter().map(|w| w.offset).collect();
    assert_eq!(offsets, vec![137 + 4096, 137 + 8192, 137 + 12_004, 0]);
    assert_eq!(plan[0].bytes.len(), 4096);
    assert_eq!(plan[1].bytes.len(), 12_004 - 8192);
    assert_eq!(plan[2].bytes.len(), 3 * 32);
    assert_eq!(plan[3].bytes.len(), 137);
    session.close(&mut host);

    let after = host.contents("f").unwrap();
    assert_eq!(after.len(), 137 + 12_004 + 96);
    assert_eq!(&after[137..137 + 4096], &before[137..137 + 4096]);
    assert_ne!(&after[137 + 4096..137 + 8192], &before[137 + 4096..137 + 8192]);

    let mut reader = FileSession::new(identity());
    reader.open(&host, "f", ProtectionMode::Full).unwrap();
    assert_eq!(reader.read(&host, 0, 20_000), Ok(data));
}

#[test]
fn the_plan_of_a_clean_file_is_empty() {
    let mut host = HostFs::new();
    sealed(&mut host, "f", ProtectionMode::Full, &pattern(5_000));
    let mut session = FileSession::new(identity());
    session.open(&host, "f", ProtectionMode::Full).unwrap();
    assert_eq!(session.read(&host, 0, 5_000), Ok(pattern(5_000)));
    assert!(session.plan().unwrap().is_empty());
    let before = host.contents("f").unwrap();
    assert_eq!(session.flush(&mut host), Ok(()));
    assert_eq!(host.contents("f").unwrap(), before);
}

#[test]
fn nodes_are_checked_only_when_touched() {
    let mut host = HostFs::new();
    let data = pattern(10_000);
    sealed(&mut host, "f", ProtectionMode::Full, &data);
    let mut image = host.contents("f").unwrap();
    image[137 + 9_000] ^= 1;
    host.install("f", image);

    let mut session = FileSession::new(identity());
    assert_eq!(session.open(&host, "f", ProtectionMode::Full), Ok(()));
    assert_eq!(session.read(&host, 0, 8_192), Ok(data[..8_192].to_vec()));
    assert_eq!(session.read(&host, 100, 50), Ok(data[100..150].to_vec()));
    assert_eq!(session.read(&host, 8_000, 1_000), Err(FsError::IntegrityViolation));
    assert_eq!(session.state(), SessionState::Faulted(FsError::IntegrityViolation));
}

#[test]
fn a_faulted_session_refuses_everything_but_close() {
    let mut host = HostFs::new();
    sealed(&mut host, "f", ProtectionMode::Full, b"content");
    let mut image = host.contents("f").unwrap();
    image[140] ^= 1;
    host.install("f", image.clone());

    let mut session = FileSession::new(identity());
    assert_eq!(session.open(&host, "f", ProtectionMode::Full), Ok(()));
    assert_eq!(session.read(&host, 0, 7), Err(FsError::IntegrityViolation));
    assert_eq!(session.state(), SessionState::Faulted(FsError::IntegrityViolation));
    assert_eq!(session.read(&host, 0, 1), Err(FsError::IntegrityViolation));
    assert_eq!(session.write(&host, 0, b"x"), Err(FsError::IntegrityViolation));
    assert_eq!(session.flush(&mut host), Err(FsError::IntegrityViolation));
    assert!(matches!(session.plan(), Err(FsError::IntegrityViolation)));
    assert_eq!(session.get_authentication_tag(), Err(FsError::IntegrityViolation));
    assert_eq!(session.open(&host, "f", ProtectionMode::Full), Err(FsError::PermissionDenied));
    assert_eq!(
        session.create(&mut host, "g", ProtectionMode::Full, [2u8; 32]),
        Err(FsError::PermissionDenied)
    );
    assert!(!host.contains("g"));
    session.close(&mut host);
    assert_eq!(session.state(), SessionState::Closed);
    assert_eq!(host.contents("f").unwrap(), image);
}

#[test]
fn a_write_that_touches_a_bad_node_fails_as_a_whole() {
    let mut host = HostFs::new();
    sealed(&mut host, "f", ProtectionMode::IntegrityOnly, &pattern(6_000));
    let mut image = host.contents("f").unwrap();
    image[137 + 5_000] ^= 0x10;
    host.install("f", image.clone());
    let mut session = FileSession::new(identity());
    session.open(&host, "f", ProtectionMode::IntegrityOnly).unwrap();
    assert_eq!(session.write(&host, 4_000, &[9u8; 200]), Err(FsError::IntegrityViolation));
    assert_eq!(session.state(), SessionState::Faulted(FsError::IntegrityViolation));
    session.close(&mut host);
    assert_eq!(host.contents("f").unwrap(), image);
}

#[test]
fn operations_need_an_open_file() {
    let mut host = HostFs::new();
    let mut session = FileSession::new(identity());
    assert_eq!(session.read(&host, 0, 1), Err(FsError::PermissionDenied));
    assert_eq!(session.write(&host, 0, b"x"), Err(FsError::PermissionDenied));
    assert_eq!(session.flush(&mut host), Err(FsError::PermissionDenied));
    assert_eq!(session.get_authentication_tag(), Err(FsError::PermissionDenied));
    assert!(matches!(session.plan(), Err(FsError::PermissionDenied)));
    session.close(&mut host);
    assert_eq!(session.state(), SessionState::Closed);
    assert_eq!(session.read(&host, 0, 1), Err(FsError::PermissionDenied));
    assert_eq!(
        session.create(&mut host, "f", ProtectionMode::Full, [1u8; 32]),
        Err(FsError::PermissionDenied)
    );
    assert_eq!(session.open(&host, "f", ProtectionMode::Full), Err(FsError::PermissionDenied));
    session.close(&mut host);
    assert_eq!(session.state(), SessionState::Closed);
}

#[test]
fn an_open_session_opens_nothing_else() {
    let mut host = HostFs::new();
    let mut session = FileSession::new(identity());
    session.create(&mut host, "f", ProtectionMode::Full, [1u8; 32]).unwrap();
    assert_eq!(
        session.create(&mut host, "g", ProtectionMode::Full, [1u8; 32]),
        Err(FsError::PermissionDenied)
    );
    assert_eq!(session.open(&host, "f", ProtectionMode::Full), Err(FsError::PermissionDenied));
    assert_eq!(session.state(), SessionState::Open);
    assert_eq!(session.write(&host, 0, b"still open"), Ok(10));
}

#[test]
fn create_fails_on_an_existing_or_refused_path() {
    let mut host = HostFs::new();
    host.install("taken", vec![1, 2, 3]);
    host.refuse("/proc/100");
    let mut session = FileSession::new(identity());
    assert_eq!(
        session.create(&mut host, "taken", ProtectionMode::Full, [1u8; 32]),
        Err(FsError::AlreadyExists)
    );
    assert_eq!(session.state(), SessionState::Fresh);
    assert_eq!(host.contents("taken"), Some(vec![1, 2, 3]));
    assert_eq!(
        session.create(&mut host, "/proc/100", ProtectionMode::Full, [1u8; 32]),
        Err(FsError::PermissionDenied)
    );
    assert_eq!(session.state(), SessionState::Fresh);
    assert!(!host.contains("/proc/100"));
    assert_eq!(session.create(&mut host, "free", ProtectionMode::Full, [1u8; 32]), Ok(()));
}

#[test]
fn open_fails_on_a_missing_or_refused_path() {
    let mut host = HostFs::new();
    host.refuse("locked");
    let mut session = FileSession::new(identity());
    assert_eq!(session.open(&host, "?", ProtectionMode::Full), Err(FsError::NotFound));
    assert_eq!(session.open(&host, "locked", ProtectionMode::Full), Err(FsError::PermissionDenied));
    assert_eq!(session.state(), SessionState::Fresh);
}

#[test]
fn rejected_paths_touch_neither_host_nor_session() {
    let mut host = HostFs::new();
    host.install("/", vec![1]);
    host.install(".", vec![2]);
    for path in ["/", ".", "..", "", "dir/", "a/..", "nul\0"] {
        let mut session = FileSession::new(IdentityContext::unavailable());
        assert_eq!(session.open(&host, path, ProtectionMode::Full), Err(FsError::InvalidPath));
        assert_eq!(
            session.create(&mut host, path, ProtectionMode::Full, [1u8; 32]),
            Err(FsError::InvalidPath)
        );
        assert_eq!(session.state(), SessionState::Fresh);
        assert_eq!(remove(&mut host, path), Err(FsError::InvalidPath));
    }
    assert_eq!(host.contents("/"), Some(vec![1]));
    assert_eq!(host.contents("."), Some(vec![2]));
    assert!(!host.contains(".."));
}

#[test]
fn without_a_secret_nothing_is_created_or_opened() {
    let mut host = HostFs::new();
    let mut session = FileSession::new(IdentityContext::unavailable());
    assert_eq!(
        session.create(&mut host, "f", ProtectionMode::Full, [1u8; 32]),
        Err(FsError::KeyDerivationFailed)
    );
    assert_eq!(session.state(), SessionState::Faulted(FsError::KeyDerivationFailed));
    assert!(!host.contains("f"));
    assert_eq!(session.read(&host, 0, 1), Err(FsError::KeyDerivationFailed));

    sealed(&mut host, "f", ProtectionMode::Full, b"content");
    let mut other = FileSession::new(IdentityContext::unavailable());
    assert_eq!(other.open(&host, "f", ProtectionMode::Full), Err(FsError::KeyDerivationFailed));
    assert_eq!(other.state(), SessionState::Faulted(FsError::KeyDerivationFailed));
}

#[test]
fn a_write_beyond_the_longest_content_fails_and_changes_nothing() {
    let mut host = HostFs::new();
    let mut session = FileSession::new(identity());
    session.create(&mut host, "f", ProtectionMode::Full, [1u8; 32]).unwrap();
    session.write(&host, 0, b"abc").unwrap();
    assert_eq!(session.write(&host, 0x4000_0000, b"x"), Err(FsError::Io));
    assert_eq!(session.write(&host, usize::MAX, b"xy"), Err(FsError::Io));
    assert_eq!(session.state(), SessionState::Open);
    assert_eq!(session.len(), 3);
    assert_eq!(session.read(&host, 0, 10), Ok(b"abc".to_vec()));
}

#[test]
fn flush_fails_where_the_host_lost_the_file() {
    let mut host = HostFs::new();
    let mut session = FileSession::new(identity());
    session.create(&mut host, "f", ProtectionMode::Full, [1u8; 32]).unwrap();
    session.write(&host, 0, b"abc").unwrap();
    host.remove("f").unwrap();
    assert_eq!(session.flush(&mut host), Err(FsError::Io));
    assert_eq!(session.state(), SessionState::Open);
    assert!(!host.contains("f"));
    session.close(&mut host);
    assert_eq!(session.state(), SessionState::Closed);
    assert!(!host.contains("f"));
}

#[test]
fn opening_in_the_other_mode_is_a_violation() {
    let mut host = HostFs::new();
    sealed(&mut host, "f", ProtectionMode::Full, b"content");
    let mut session = FileSession::new(identity());
    assert_eq!(
        session.open(&host, "f", ProtectionMode::IntegrityOnly),
        Err(FsError::IntegrityViolation)
    );
}

#[test]
fn a_truncated_file_is_a_violation() {
    let mut host = HostFs::new();
    sealed(&mut host, "f", ProtectionMode::Full, &pattern(5_000));
    let image = host.contents("f").unwrap();
    host.install("short", image[..100].to_vec());
    host.install("f", image[..image.len() - 1].to_vec());
    host.install("none", Vec::new());
    for path in ["short", "none"] {
        let mut session = FileSession::new(identity());
        assert_eq!(
            session.open(&host, path, ProtectionMode::Full),
            Err(FsError::IntegrityViolation)
        );
    }
    let mut session = FileSession::new(identity());
    assert_eq!(session.open(&host, "f", ProtectionMode::Full), Ok(()));
    assert_eq!(session.read(&host, 0, 1), Err(FsError::IntegrityViolation));
}

#[test]
fn removal_is_final() {
    let mut host = HostFs::new();
    assert_eq!(remove(&mut host, "f"), Err(FsError::NotFound));
    sealed(&mut host, "f", ProtectionMode::Full, b"content");
    assert_eq!(remove(&mut host, "f"), Ok(()));
    let mut session = FileSession::new(identity());
    assert_eq!(session.open(&host, "f", ProtectionMode::Full), Err(FsError::NotFound));
    assert_eq!(remove(&mut host, "f"), Err(FsError::NotFound));
    host.refuse("kept");
    assert_eq!(remove(&mut host, "kept"), Err(FsError::PermissionDenied));
}

#[test]
fn authentication_tag_is_live_and_survives_the_close() {
    let mut host = HostFs::new();
    let mut session = FileSession::new(identity());
    session.create(&mut host, "f", ProtectionMode::IntegrityOnly, [1u8; 32]).unwrap();
    let empty = session.get_authentication_tag().unwrap();
    session.write(&host, 0, b"Hello, world!").unwrap();
    let written = session.get_authentication_tag().unwrap();
    assert_ne!(empty, written);
    assert_eq!(
        written.to_vec(),
        hex("3ea492206efebb9afe8e88704aa2c7c01856a6e9e327bbf23d0ec2297b035fd2")
    );
    session.flush(&mut host).unwrap();
    assert_eq!(session.get_authentication_tag(), Ok(written));
    session.write(&host, 0, b"J").unwrap();
    let changed = session.get_authentication_tag().unwrap();
    assert_ne!(changed, written);
    session.write(&host, 0, b"H").unwrap();
    assert_eq!(session.get_authentication_tag(), Ok(written));
    session.close(&mut host);

    let mut reader = FileSession::new(identity());
    reader.open(&host, "f", ProtectionMode::IntegrityOnly).unwrap();
    assert_eq!(reader.get_authentication_tag(), Ok(written));
    assert_eq!(reader.read(&host, 0, 100), Ok(b"Hello, world!".to_vec()));
    assert_eq!(reader.get_authentication_tag(), Ok(written));
}

#[test]
fn equal_writes_to_two_files_give_equal_tags() {
    let mut host = HostFs::new();
    let mut other_host = HostFs::new();
    let mut a = FileSession::new(identity());
    let mut b = FileSession::new(identity());
    a.create(&mut host, "first", ProtectionMode::IntegrityOnly, [1u8; 32]).unwrap();
    b.create(&mut other_host, "second", ProtectionMode::IntegrityOnly, [1u8; 32]).unwrap();
    let data = pattern(9_000);
    for session in [&mut a, &mut b] {
        assert_eq!(session.write(&HostFs::new(), 0, &data), Ok(9_000));
        assert_eq!(session.write(&HostFs::new(), 4_000, b"patch"), Ok(5));
    }
    let tag = a.get_authentication_tag().unwrap();
    assert_eq!(b.get_authentication_tag(), Ok(tag));

    let mut c = FileSession::new(identity());
    c.create(&mut host, "third", ProtectionMode::IntegrityOnly, [2u8; 32]).unwrap();
    c.write(&host, 0, &data).unwrap();
    c.write(&host, 4_000, b"patch").unwrap();
    assert_ne!(c.get_authentication_tag(), Ok(tag));
}

#[test]
fn full_mode_gives_no_tag_away() {
    let mut host = HostFs::new();
    let mut session = FileSession::new(identity());
    session.create(&mut host, "f", ProtectionMode::Full, [1u8; 32]).unwrap();
    assert_eq!(session.get_authentication_tag(), Err(FsError::PermissionDenied));
    assert_eq!(session.state(), SessionState::Open);
}
