use sealed_fs::cache::NodeCache;
use sealed_fs::cipher::ProtectionMode;
use sealed_fs::tree::{encode_meta, table_tag_of};
use sealed_fs::{FsError, HostFs};

fn host_with_created(path: &str, mode: ProtectionMode, nonce: [u8; 32], root: [u8; 32]) -> HostFs {
    let mut host = HostFs::new();
    host.install(path, encode_meta(mode, &nonce, &root, 0, &table_tag_of(&root, &[])));
    host
}

#[test]
fn a_created_cache_is_empty_and_clean() {
    let cache = NodeCache::created(ProtectionMode::IntegrityOnly, [1u8; 32], [2u8; 32]);
    assert_eq!(cache.len(), 0);
    assert_eq!(cache.mode(), ProtectionMode::IntegrityOnly);
    assert!(cache.plan().is_empty());
    assert_eq!(cache.live_tag(), table_tag_of(&[2u8; 32], &[]));
}

#[test]
fn an_idle_cache_holds_nothing() {
    let cache = NodeCache::idle();
    assert_eq!(cache.len(), 0);
    assert_eq!(cache.mode(), ProtectionMode::Full);
    assert!(cache.plan().is_empty());
}

#[test]
fn cache_writes_then_flushes_children_before_parents() {
    let root = [2u8; 32];
    let mut host = host_with_created("f", ProtectionMode::Full, [1u8; 32], root);
    let mut cache = NodeCache::created(ProtectionMode::Full, [1u8; 32], root);
    let data: Vec<u8> = (0..9_000).map(|i| (i % 199) as u8).collect();
    assert_eq!(cache.write(&host, "f", 0, &data), Ok(()));
    assert_eq!(cache.len(), 9_000);
    let plan = cache.plan();
    let offsets: Vec<usize> = plan.iter().map(|w| w.offset).collect();
    assert_eq!(offsets, vec![137, 137 + 4096, 137 + 8192, 137 + 9_000, 0]);
    let sizes: Vec<usize> = plan.iter().map(|w| w.bytes.len()).collect();
    assert_eq!(sizes, vec![4096, 4096, 9_000 - 8192, 96, 137]);
    let tag = cache.live_tag();
    assert_eq!(cache.flush(&mut host, "f"), Ok(()));
    assert!(cache.plan().is_empty());
    assert_eq!(cache.live_tag(), tag);

    let image = host.contents("f").unwrap();
    let mut expected = Vec::new();
    for write in &plan {
        if expected.len() < write.offset + write.bytes.len() {
            expected.resize(write.offset + write.bytes.len(), 0);
        }
        expected[write.offset..write.offset + write.bytes.len()].copy_from_slice(&write.bytes);
    }
    assert_eq!(image, expected);

    let mut reader = NodeCache::opened(ProtectionMode::Full, [1u8; 32], root, 9_000, tag);
    assert_eq!(reader.read(&host, "f", 4_000, 200), Ok(data[4_000..4_200].to_vec()));
    assert_eq!(reader.load_nodes(&host, "f", 0, 3), Ok(()));
    assert_eq!(reader.read(&HostFs::new(), "f", 0, 9_000), Ok(data));
}

#[test]
fn cache_flush_needs_the_file_on_the_host() {
    let mut cache = NodeCache::created(ProtectionMode::Full, [1u8; 32], [2u8; 32]);
    let mut host = HostFs::new();
    assert_eq!(cache.write(&host, "f", 0, b"abc"), Ok(()));
    assert_eq!(cache.flush(&mut host, "f"), Err(FsError::Io));
    assert_eq!(cache.len(), 3);
    assert_eq!(cache.plan().len(), 3);
}

#[test]
fn a_cache_that_meets_a_bad_node_is_emptied() {
    let root = [2u8; 32];
    let mut host = host_with_created("f", ProtectionMode::Full, [1u8; 32], root);
    let mut cache = NodeCache::created(ProtectionMode::Full, [1u8; 32], root);
    cache.write(&host, "f", 0, &[7u8; 5_000]).unwrap();
    let tag = cache.live_tag();
    cache.flush(&mut host, "f").unwrap();

    let mut no_table = NodeCache::opened(ProtectionMode::Full, [1u8; 32], root, 5_000, [0u8; 32]);
    assert_eq!(no_table.load_table(&host, "f"), Err(FsError::IntegrityViolation));
    assert_eq!(no_table.len(), 0);

    let mut image = host.contents("f").unwrap();
    image[137 + 4_500] ^= 1;
    host.install("f", image);
    let mut reader = NodeCache::opened(ProtectionMode::Full, [1u8; 32], root, 5_000, tag);
    assert_eq!(reader.load_table(&host, "f"), Ok(()));
    assert_eq!(reader.load_node(&host, "f", 0), Ok(()));
    assert_eq!(reader.len(), 5_000);
    assert_eq!(reader.load_node(&host, "f", 1), Err(FsError::IntegrityViolation));
    assert_eq!(reader.len(), 0);
    assert_eq!(reader.mode(), ProtectionMode::Full);

    let mut writer = NodeCache::opened(ProtectionMode::Full, [1u8; 32], root, 5_000, tag);
    assert_eq!(writer.write(&host, "f", 4_090, &[1u8; 10]), Err(FsError::IntegrityViolation));
    assert_eq!(writer.len(), 0);
    let mut missing = NodeCache::opened(ProtectionMode::Full, [1u8; 32], root, 5_000, tag);
    assert_eq!(missing.read(&HostFs::new(), "f", 0, 1), Err(FsError::IntegrityViolation));
}

#[test]
fn a_cache_write_without_bytes_changes_nothing() {
    let mut cache = NodeCache::created(ProtectionMode::Full, [1u8; 32], [2u8; 32]);
    let host = HostFs::new();
    assert_eq!(cache.write(&host, "f", 0, b"abc"), Ok(()));
    let tag = cache.live_tag();
    assert_eq!(cache.write(&host, "f", 1, b""), Ok(()));
    assert_eq!(cache.write(&host, "f", 9_999, b""), Ok(()));
    assert_eq!(cache.write(&host, "f", usize::MAX, b""), Ok(()));
    assert_eq!(cache.len(), 3);
    assert_eq!(cache.live_tag(), tag);
    assert_eq!(cache.read(&host, "f", 0, 10), Ok(b"abc".to_vec()));
}
