//! Whole exchanges with the store, each run from start to end against a
//! host: a self-test that a caller can run on the host it was given.

use crate::cipher::ProtectionMode;
use crate::host::HostFs;
use crate::identity::IdentityContext;
use crate::honest::{law_round_trip, law_round_trip_once, lemma_written_once, written};
use crate::laws::law_path_rejection;
use crate::model::{SessionView, WriteView};
use crate::path::{has_unsafe_char, last_component_is, path_accepted};
use crate::range::{bytes_equal, spec_overwrite, spec_window};
use crate::session::{remove, FileSession};
use crate::tree::MAX_FILE_LEN;
use vstd::prelude::*;

verus! {

/// The names that the exchanges use, and what the path validator says of
/// each.
pub proof fn lemma_scenario_names()
    ensures
        path_accepted("sgx_file"@),
        path_accepted("sgx_file_integrity_only.data"@),
        path_accepted("foo.txt"@),
        path_accepted("?"@),
        path_accepted("/proc/100"@),
        !path_accepted("/"@),
        !path_accepted("."@),
        !path_accepted(".."@),
{
    reveal_strlit("sgx_file");
    reveal_strlit("sgx_file_integrity_only.data");
    reveal_strlit("foo.txt");
    reveal_strlit("?");
    reveal_strlit("/proc/100");
    reveal_strlit("/");
    reveal_strlit(".");
    reveal_strlit("..");
    assert("."@.subrange(0, 1) =~= seq!['.']);
    assert(".."@.subrange(0, 2) =~= seq!['.', '.']);
    assert("sgx_file"@.subrange(7, 8) =~= seq!['e']);
    assert("sgx_file"@.subrange(6, 8) =~= seq!['l', 'e']);
    assert("sgx_file_integrity_only.data"@.subrange(27, 28) =~= seq!['a']);
    assert("sgx_file_integrity_only.data"@.subrange(26, 28) =~= seq!['t', 'a']);
    assert("foo.txt"@.subrange(6, 7) =~= seq!['t']);
    assert("foo.txt"@.subrange(5, 7) =~= seq!['x', 't']);
    assert("?"@.subrange(0, 1) =~= seq!['?']);
    assert("?"@.subrange(0, 1)[0] == '?');
    assert(!last_component_is("?"@, seq!['.']));
    assert(!last_component_is("?"@, seq!['.', '.']));
    assert(!has_unsafe_char("?"@));
    assert("/proc/100"@.subrange(8, 9) =~= seq!['0']);
    assert("/proc/100"@.subrange(7, 9) =~= seq!['0', '0']);
}

/// Whether an attempt to open `path` in full mode under `identity` fails.
fn open_fails(host: &HostFs, identity: IdentityContext, path: &str) -> (failed: bool)
    requires
        host.wf(),
    ensures
        failed == SessionView::fresh(identity).open(
            host@,
            host.refuses(path@),
            path@,
            ProtectionMode::Full,
        ).1 is Err,
{
    let mut session = FileSession::new(identity);
    session.open(host, path, ProtectionMode::Full).is_err()
}

/// Whether an attempt to create `path` in full mode under `identity`
/// fails.
fn create_fails(host: &mut HostFs, identity: IdentityContext, path: &str, nonce: [u8; 32]) -> (failed:
    bool)
    requires
        old(host).wf(),
    ensures
        final(host).wf(),
        forall|p: Seq<char>| final(host).refuses(p) == old(host).refuses(p),
        failed == SessionView::fresh(identity).create(
            old(host)@,
            old(host).refuses(path@),
            path@,
            ProtectionMode::Full,
            nonce@,
        ).2 is Err,
        failed ==> final(host)@ == old(host)@,
{
    let mut session = FileSession::new(identity);
    let failed = session.create(host, path, ProtectionMode::Full, nonce).is_err();
    if !failed {
        session.close(host);
    }
    failed
}

/// The exchange with a sealed file in full mode: creates `sgx_file`,
/// writes `write_data`, closes, opens, reads, removes the file, and
/// compares what was read with what was written; then asks for the paths
/// `/`, `.`, `..` and `?` to be opened and for `/`, `/proc/100`, `.` and
/// `..` to be created, all of which must fail. `nonce` must be fresh and
/// random.
///
/// The exchange passes exactly on a host that lets `sgx_file` be created,
/// holds no file that opens under `?` and lets nothing be created under
/// `/proc/100`, with an identity that yields a secret. A host on which it
/// passes is left as it was.
pub fn test_sgxfs(
    host: &mut HostFs,
    identity: IdentityContext,
    write_data: [u8; 16],
    nonce: [u8; 32],
) -> (passed: bool)
    requires
        old(host).wf(),
    ensures
        final(host).wf(),
        passed ==> final(host)@ == old(host)@,
        passed == ({
            &&& identity.secret is Some
            &&& !old(host).refuses("sgx_file"@)
            &&& !old(host)@.contains_key("sgx_file"@)
            &&& SessionView::fresh(identity).open(
                old(host)@,
                old(host).refuses("?"@),
                "?"@,
                ProtectionMode::Full,
            ).1 is Err
            &&& (old(host).refuses("/proc/100"@) || old(host)@.contains_key("/proc/100"@))
        }),
{
    proof {
        lemma_scenario_names();
        law_round_trip_once(
            identity,
            old(host)@,
            "sgx_file"@,
            ProtectionMode::Full,
            nonce@,
            write_data@,
        );
        law_path_rejection(SessionView::fresh(identity), old(host)@, "/"@, nonce@);
        law_path_rejection(SessionView::fresh(identity), old(host)@, "."@, nonce@);
        law_path_rejection(SessionView::fresh(identity), old(host)@, ".."@, nonce@);
    }
    let mut writer = FileSession::new(identity);
    if writer.create(host, "sgx_file", ProtectionMode::Full, nonce).is_err() {
        return false;
    }
    let write_size = match writer.write(host, 0, write_data.as_slice()) {
        Ok(n) => n,
        Err(_) => {
            return false;
        },
    };
    writer.close(host);
    let mut reader = FileSession::new(identity);
    if reader.open(host, "sgx_file", ProtectionMode::Full).is_err() {
        return false;
    }
    let read_data = match reader.read(host, 0, 16) {
        Ok(bytes) => bytes,
        Err(_) => {
            return false;
        },
    };
    reader.close(host);
    if remove(host, "sgx_file").is_err() {
        return false;
    }
    assert(host@ =~= old(host)@);
    if !bytes_equal(write_data.as_slice(), read_data.as_slice()) || write_size != read_data.len() {
        return false;
    }
    if !open_fails(host, identity, "/") || !open_fails(host, identity, ".") || !open_fails(
        host,
        identity,
        "..",
    ) || !open_fails(host, identity, "?") {
        return false;
    }
    if !create_fails(host, identity, "/", nonce) {
        return false;
    }
    create_fails(host, identity, "/proc/100", nonce) && create_fails(host, identity, ".", nonce)
        && create_fails(host, identity, "..", nonce)
}

/// The exchange with a plain file, which the store does not protect:
/// creates `foo.txt` on the host, writes a greeting, reads it back,
/// compares, and removes the file.
///
/// The exchange passes exactly on a host that lets `foo.txt` be created,
/// and leaves every host as it was.
pub fn test_fs(host: &mut HostFs) -> (passed: bool)
    requires
        old(host).wf(),
    ensures
        final(host).wf(),
        final(host)@ == old(host)@,
        forall|p: Seq<char>| final(host).refuses(p) == old(host).refuses(p),
        passed == (!old(host).refuses("foo.txt"@) && !old(host)@.contains_key("foo.txt"@)),
{
    let greeting: &[u8] = "Hello, world!".as_bytes();
    let size: usize = greeting.len();
    if host.create("foo.txt").is_err() {
        return false;
    }
    if host.write("foo.txt", 0, greeting).is_err() {
        let _ = host.remove("foo.txt");
        assert(host@ =~= old(host)@);
        return false;
    }
    let length = match host.open("foo.txt") {
        Ok(n) => n,
        Err(_) => 0,
    };
    let same = match host.read("foo.txt", 0, length) {
        Ok(back) => length == size && bytes_equal(back.as_slice(), greeting),
        Err(_) => false,
    };
    let removed = host.remove("foo.txt").is_ok();
    assert(host@ =~= old(host)@);
    proof {
        let laid = spec_overwrite(Seq::<u8>::empty(), 0, greeting@);
        assert(laid =~= greeting@);
        assert(spec_window(laid, 0, laid.len() as int) =~= greeting@);
    }
    same && removed
}

/// The same exchange through the host's other file interface. The store
/// knows one host, so the two exchanges are one.
pub fn test_fs_untrusted_fs_feature_enabled(host: &mut HostFs) -> (passed: bool)
    requires
        old(host).wf(),
    ensures
        final(host).wf(),
        final(host)@ == old(host)@,
        forall|p: Seq<char>| final(host).refuses(p) == old(host).refuses(p),
        passed == (!old(host).refuses("foo.txt"@) && !old(host)@.contains_key("foo.txt"@)),
{
    test_fs(host)
}

/// The exchange with a sealed file in integrity-only mode: creates
/// `sgx_file_integrity_only.data`, writes `write_data`, takes the
/// authentication tag, closes, opens, reads, takes the tag again, and
/// compares both the content and the tags; then removes the file through
/// the host. `nonce` must be fresh and random.
///
/// The exchange passes exactly on a host that lets the file be created,
/// with an identity that yields a secret and with content that a file can
/// hold. A host on which it passes is left as it was.
pub fn test_sgxfs_integrity_only(
    host: &mut HostFs,
    identity: IdentityContext,
    write_data: &[u8],
    nonce: [u8; 32],
) -> (passed: bool)
    requires
        old(host).wf(),
    ensures
        final(host).wf(),
        passed ==> final(host)@ == old(host)@,
        passed == ({
            &&& identity.secret is Some
            &&& !old(host).refuses("sgx_file_integrity_only.data"@)
            &&& !old(host)@.contains_key("sgx_file_integrity_only.data"@)
            &&& write_data@.len() <= MAX_FILE_LEN
        }),
{
    let path = "sgx_file_integrity_only.data";
    proof {
        lemma_scenario_names();
    }
    let mut new_file = FileSession::new(identity);
    if new_file.create(host, path, ProtectionMode::IntegrityOnly, nonce).is_err() {
        return false;
    }
    let ghost created = host@;
    let ghost after_create = new_file@;
    let _ = new_file.write(host, 0, write_data);
    let ghost after_write = new_file@;
    let ghost writes = seq![WriteView { offset: 0, bytes: write_data@ }];
    let ghost content = written(Seq::<u8>::empty(), writes);
    proof {
        assert(writes.drop_last() =~= Seq::<WriteView>::empty());
        assert(after_create.write_all(created, writes.drop_last()) == after_create);
        assert(after_create.write_all(created, writes) == after_write);
        law_round_trip(identity, old(host)@, path@, ProtectionMode::IntegrityOnly, nonce@, writes);
        assert(written(Seq::<u8>::empty(), writes.drop_last()) == Seq::<u8>::empty());
        if write_data@.len() <= MAX_FILE_LEN {
            lemma_written_once(write_data@);
        }
    }
    let write_mac = match new_file.get_authentication_tag() {
        Ok(tag) => tag,
        Err(_) => {
            return false;
        },
    };
    let written_len = new_file.len();
    new_file.close(host);
    let mut open_file = FileSession::new(identity);
    if open_file.open(host, path, ProtectionMode::IntegrityOnly).is_err() {
        return false;
    }
    let read_data = match open_file.read(host, 0, written_len) {
        Ok(bytes) => bytes,
        Err(_) => {
            return false;
        },
    };
    let read_mac = match open_file.get_authentication_tag() {
        Ok(tag) => tag,
        Err(_) => {
            return false;
        },
    };
    open_file.close(host);
    proof {
        assert(read_data@ == content);
        if write_data@.len() > MAX_FILE_LEN {
            assert(content.len() == 0);
        }
    }
    let same_data = bytes_equal(write_data, read_data.as_slice());
    let same_mac = bytes_equal(write_mac.as_slice(), read_mac.as_slice());
    let removed = host.remove(path).is_ok();
    assert(removed ==> host@ =~= old(host)@);
    same_data && same_mac && removed
}

} // verus!
