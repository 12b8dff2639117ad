//! Laws of the store that hold on every host: what a sealed image holds
//! and where, how paths are turned away, what removal leaves, and the
//! order in which a flush hands its writes to the host.

use crate::cipher::{lemma_recover_protect, ProtectionMode};
use crate::error::FsError;
use crate::identity::IdentityContext;
use crate::model::{apply_writes, spec_remove_file, CacheView, SessionState, SessionView, WriteView};
use crate::path::path_accepted;
use crate::range::{spec_overwrite, spec_window};
use crate::tree::{
    lemma_decode_meta_node, lemma_node_bounds, meta_node, node_binding,
    node_count, node_key, node_len, node_plain, node_stored, node_tag, sealed_image, stored_data,
    table_tag, tag_table, MAX_FILE_LEN, META_LEN, NODE_SIZE,
};
use vstd::prelude::*;

verus! {

/// The writes of a plan that ends in `write`, carried out.
pub proof fn lemma_apply_push(image: Seq<u8>, plan: Seq<WriteView>, write: WriteView)
    ensures
        apply_writes(image, plan.push(write)) == spec_overwrite(
            apply_writes(image, plan),
            write.offset,
            write.bytes,
        ),
{
    assert(plan.push(write).drop_last() =~= plan);
}

/// The stored form of a content node is as long as the node.
pub proof fn lemma_node_stored_len(mode: ProtectionMode, root: Seq<u8>, content: Seq<u8>, i: int)
    requires
        0 <= i < node_count(content.len() as int),
    ensures
        node_stored(mode, root, content, i).len() == node_len(content.len() as int, i),
        node_tag(root, content, i).len() == 32,
{
    lemma_node_bounds(content.len() as int, i);
    lemma_recover_protect(mode, node_key(root, i), node_binding(i), node_plain(content, i));
}

/// The image holds the table of the file with the given content where a
/// reader looks for it.
pub open spec fn holds_table(image: Seq<u8>, root: Seq<u8>, content: Seq<u8>) -> bool {
    spec_window(image, META_LEN + content.len(), 32 * node_count(content.len() as int)) == tag_table(
        root,
        content,
    )
}

/// The image holds content node `i` of the file with the given content
/// where a reader looks for it.
pub open spec fn holds_node(
    image: Seq<u8>,
    mode: ProtectionMode,
    root: Seq<u8>,
    content: Seq<u8>,
    i: int,
) -> bool {
    spec_window(image, META_LEN + i * NODE_SIZE, node_len(content.len() as int, i)) == node_stored(
        mode,
        root,
        content,
        i,
    )
}

/// The sealed image of a file holds its table and each of its content
/// nodes where a reader looks for them, behind the metadata node.
pub proof fn lemma_sealed_image_holds(
    mode: ProtectionMode,
    nonce: Seq<u8>,
    root: Seq<u8>,
    content: Seq<u8>,
)
    requires
        nonce.len() == 32,
        content.len() <= MAX_FILE_LEN,
    ensures
        sealed_image(mode, nonce, root, content).len() == META_LEN + content.len() + 32
            * node_count(content.len() as int),
        spec_window(sealed_image(mode, nonce, root, content), 0, META_LEN as int) == meta_node(
            mode,
            nonce,
            root,
            content.len() as int,
            table_tag(root, tag_table(root, content)),
        ),
        holds_table(sealed_image(mode, nonce, root, content), root, content),
        forall|i: int|
            0 <= i < node_count(content.len() as int) ==> holds_node(
                sealed_image(mode, nonce, root, content),
                mode,
                root,
                content,
                i,
            ),
{
    let table = tag_table(root, content);
    let image = sealed_image(mode, nonce, root, content);
    let meta = meta_node(mode, nonce, root, content.len() as int, table_tag(root, table));
    lemma_decode_meta_node(mode, nonce, root, content.len() as int, table_tag(root, table));
    assert(spec_window(image, 0, META_LEN as int) =~= meta);
    assert(spec_window(image, META_LEN + content.len(), 32 * node_count(content.len() as int))
        =~= table);
    assert forall|i: int| 0 <= i < node_count(content.len() as int) implies holds_node(
        image,
        mode,
        root,
        content,
        i,
    ) by {
        lemma_node_bounds(content.len() as int, i);
        lemma_node_stored_len(mode, root, content, i);
        let found = spec_window(image, META_LEN + i * NODE_SIZE, node_len(content.len() as int, i));
        let stored = node_stored(mode, root, content, i);
        assert(found.len() == stored.len());
        assert forall|k: int| 0 <= k < found.len() implies found[k] == stored[k] by {
            let x = i * NODE_SIZE + k;
            assert(x / (NODE_SIZE as int) == i);
            assert(x % (NODE_SIZE as int) == k);
        }
        assert(found =~= stored);
    }
}

/// Where the work on the nodes from `from` to `to` is parted at `mid`, it
/// is the work up to `mid` and then the work from `mid` on.
pub proof fn lemma_with_nodes_split(cache: CacheView, image: Seq<u8>, from: int, mid: int, to: int)
    requires
        from <= mid <= to,
    ensures
        cache.with_nodes(image, from, to) == (match cache.with_nodes(image, from, mid) {
            Ok(part) => part.with_nodes(image, mid, to),
            Err(e) => Err(e),
        }),
    decreases mid - from,
{
    if from < mid {
        match cache.with_node(image, from) {
            Ok(next) => {
                lemma_with_nodes_split(next, image, from + 1, mid, to);
            },
            Err(e) => {},
        }
    }
}

/// The sealed image of a file without content is its metadata node.
pub proof fn lemma_sealed_image_empty(mode: ProtectionMode, nonce: Seq<u8>, root: Seq<u8>)
    ensures
        sealed_image(mode, nonce, root, Seq::<u8>::empty()) == meta_node(
            mode,
            nonce,
            root,
            0,
            table_tag(root, Seq::<u8>::empty()),
        ),
{
    let none = Seq::<u8>::empty();
    assert(tag_table(root, none) =~= none);
    assert(stored_data(mode, root, none) =~= none);
    assert(sealed_image(mode, nonce, root, none) =~= meta_node(
        mode,
        nonce,
        root,
        0,
        table_tag(root, none),
    ));
}

/// Path rejection. A path that the validator rejects is turned away by
/// `create` and by `open` with `InvalidPath`, before any key is derived
/// and with nothing read from or written to the host: the session and the
/// host's files are as before, whatever the host holds or refuses.
pub proof fn law_path_rejection(
    session: SessionView,
    host: Map<Seq<char>, Seq<u8>>,
    path: Seq<char>,
    nonce: Seq<u8>,
)
    requires
        session.state == SessionState::Fresh,
        !path_accepted(path),
    ensures
        forall|mode: ProtectionMode, refused: bool|
            #[trigger] session.create(host, refused, path, mode, nonce) == (
                session,
                host,
                Err::<(), FsError>(FsError::InvalidPath),
            ),
        forall|mode: ProtectionMode, refused: bool|
            #[trigger] session.open(host, refused, path, mode) == (
                session,
                Err::<(), FsError>(FsError::InvalidPath),
            ),
{
}

/// Paths that the host does not serve. A path that the validator accepts
/// and the host refuses is turned away by `create` and by `open` with
/// `PermissionDenied`, and a path under which the host holds no file by
/// `open` with `NotFound`; the session and the host's files are as before.
pub proof fn law_unserved_path(
    session: SessionView,
    host: Map<Seq<char>, Seq<u8>>,
    path: Seq<char>,
    mode: ProtectionMode,
    nonce: Seq<u8>,
)
    requires
        session.state == SessionState::Fresh,
        path_accepted(path),
    ensures
        session.create(host, true, path, mode, nonce) == (
            session,
            host,
            Err::<(), FsError>(FsError::PermissionDenied),
        ),
        session.open(host, true, path, mode) == (
            session,
            Err::<(), FsError>(FsError::PermissionDenied),
        ),
        !host.contains_key(path) ==> session.open(host, false, path, mode) == (
            session,
            Err::<(), FsError>(FsError::NotFound),
        ),
        host.contains_key(path) ==> session.create(host, false, path, mode, nonce) == (
            session,
            host,
            Err::<(), FsError>(FsError::AlreadyExists),
        ),
{
}

/// Removal. To remove a path under which the host holds no file fails
/// with `NotFound` and changes nothing. To remove a file succeeds, and
/// afterwards the file can neither be opened nor removed again: both fail
/// with `NotFound`.
pub proof fn law_removal(
    identity: IdentityContext,
    host: Map<Seq<char>, Seq<u8>>,
    path: Seq<char>,
    mode: ProtectionMode,
)
    requires
        path_accepted(path),
    ensures
        !host.contains_key(path) ==> spec_remove_file(host, false, path) == (
            host,
            Err::<(), FsError>(FsError::NotFound),
        ),
        host.contains_key(path) ==> ({
            let removed = spec_remove_file(host, false, path);
            &&& removed == (host.remove(path), Ok::<(), FsError>(()))
            &&& SessionView::fresh(identity).open(removed.0, false, path, mode) == (
                SessionView::fresh(identity),
                Err::<(), FsError>(FsError::NotFound),
            )
            &&& spec_remove_file(removed.0, false, path) == (
                removed.0,
                Err::<(), FsError>(FsError::NotFound),
            )
        }),
{
}

/// Flush order. Where anything is dirty, the last write of the plan is the
/// metadata node, the write before it is the table, and every write before
/// that is a content node; the content nodes come in the order of their
/// places in the file. So no parent reaches the host before its children.
pub proof fn law_flush_order(cache: CacheView)
    requires
        cache.wf(),
        cache.any_dirty(),
    ensures
        cache.plan().len() >= 3,
        cache.plan().last() == cache.meta_write(),
        cache.plan()[cache.plan().len() - 2] == cache.table_write(),
        forall|j: int|
            0 <= j < cache.plan().len() - 2 ==> META_LEN <= (#[trigger] cache.plan()[j]).offset
                < cache.table_write().offset,
        forall|j: int, k: int|
            0 <= j < k < cache.plan().len() - 2 ==> (#[trigger] cache.plan()[j]).offset < (
            #[trigger] cache.plan()[k]).offset,
{
    let nodes = cache.nodes();
    lemma_node_writes_order(cache, nodes);
    let k = choose|k: int| 0 <= k < cache.dirty.len() && #[trigger] cache.dirty[k];
    lemma_node_writes_some(cache, k, nodes);
    let writes = cache.node_writes(nodes);
    assert forall|j: int| 0 <= j < writes.len() implies (#[trigger] writes[j]).offset
        < cache.table_write().offset by {
        let i = (writes[j].offset - META_LEN) / (NODE_SIZE as int);
        lemma_node_bounds(cache.content.len() as int, i);
    }
}

/// The writes of the content nodes stand in the order of the nodes, each
/// at the place of its node.
proof fn lemma_node_writes_order(cache: CacheView, upto: int)
    requires
        0 <= upto <= cache.nodes(),
    ensures
        forall|j: int|
            0 <= j < cache.node_writes(upto).len() ==> {
                let offset = (#[trigger] cache.node_writes(upto)[j]).offset;
                &&& (offset - META_LEN) % (NODE_SIZE as int) == 0
                &&& 0 <= (offset - META_LEN) / (NODE_SIZE as int) < upto
            },
        forall|j: int, k: int|
            0 <= j < k < cache.node_writes(upto).len() ==> (#[trigger] cache.node_writes(
                upto,
            )[j]).offset < (#[trigger] cache.node_writes(upto)[k]).offset,
    decreases upto,
{
    if upto > 0 {
        lemma_node_writes_order(cache, upto - 1);
        let before = cache.node_writes(upto - 1);
        let writes = cache.node_writes(upto);
        let place = META_LEN + (upto - 1) * NODE_SIZE;
        assert((place - META_LEN) % (NODE_SIZE as int) == 0);
        assert((place - META_LEN) / (NODE_SIZE as int) == upto - 1);
        assert forall|j: int| 0 <= j < writes.len() implies {
            let offset = (#[trigger] writes[j]).offset;
            &&& (offset - META_LEN) % (NODE_SIZE as int) == 0
            &&& 0 <= (offset - META_LEN) / (NODE_SIZE as int) < upto
        } by {
            if j < before.len() {
                assert(writes[j] == before[j]);
            }
        }
        assert forall|j: int, k: int| 0 <= j < k < writes.len() implies (#[trigger] writes[j]).offset
            < (#[trigger] writes[k]).offset by {
            assert(writes[j] == before[j]);
            if k < before.len() {
                assert(writes[k] == before[k]);
            } else {
                let x = before[j].offset - META_LEN;
                assert(x % (NODE_SIZE as int) == 0);
                assert(x / (NODE_SIZE as int) < upto - 1);
            }
        }
    }
}

/// A dirty node has its write in the plan.
proof fn lemma_node_writes_some(cache: CacheView, i: int, upto: int)
    requires
        0 <= i < upto <= cache.nodes(),
        cache.dirty[i],
    ensures
        cache.node_writes(upto).len() >= 1,
    decreases upto,
{
    if i < upto - 1 {
        lemma_node_writes_some(cache, i, upto - 1);
    }
}

} // verus!
