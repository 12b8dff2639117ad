//! The store on an honest host. While the host holds the sealed image of a
//! file and leaves it alone, the session on that file behaves as a plain
//! array of bytes: reads give the content, writes change it, and a flush
//! leaves on the host the sealed image of the content as it then stands.

use crate::cipher::{lemma_recover_protect, ProtectionMode};
use crate::error::FsError;
use crate::identity::{spec_root_secret, IdentityContext};
use crate::sound::{lemma_flushed_wf, lemma_laid_wf, lemma_with_node_wf};
use crate::laws::{
    holds_node, holds_table, lemma_apply_push, lemma_node_stored_len, lemma_sealed_image_empty,
    lemma_sealed_image_holds,
};
use crate::model::{apply_writes, CacheView, SessionState, SessionView, WriteView};
use crate::path::path_accepted;
use crate::range::{spec_overwrite, spec_window};
use crate::tree::{
    lemma_decode_meta_node, lemma_node_bounds, lemma_node_of_byte, node_binding,
    node_count, node_key, node_len, node_plain, node_stored, node_tag, sealed_image, stored_data,
    table_tag, tag_table, MAX_FILE_LEN, META_LEN, NODE_SIZE,
};
use vstd::prelude::*;

verus! {

/// The cache is in step with a host that holds the sealed image of
/// `stored`, and the content of the file with all writes made so far is
/// `content`: what the cache has loaded is the content, what it has not
/// loaded is on the host, and what is not dirty is the same in both.
pub open spec fn in_step(cache: CacheView, stored: Seq<u8>, content: Seq<u8>) -> bool {
    &&& cache.wf()
    &&& cache.stored_length == stored.len()
    &&& cache.root_tag == table_tag(cache.root, tag_table(cache.root, stored))
    &&& cache.table is Some ==> cache.table->Some_0 == tag_table(cache.root, stored)
    &&& cache.content.len() == content.len()
    &&& forall|k: int|
        0 <= k < content.len() && cache.loaded[k / (NODE_SIZE as int)] ==> #[trigger] content[k]
            == cache.content[k]
    &&& forall|k: int|
        0 <= k < content.len() && !cache.dirty[k / (NODE_SIZE as int)] ==> k < stored.len()
            && #[trigger] content[k] == stored[k]
}

/// The session has a file open and is in step with the host, which holds
/// the sealed image of `stored` under the path of the session.
pub open spec fn session_in_step(
    session: SessionView,
    host: Map<Seq<char>, Seq<u8>>,
    stored: Seq<u8>,
    content: Seq<u8>,
) -> bool {
    &&& session.state == SessionState::Open
    &&& session.wf()
    &&& host.contains_key(session.path)
    &&& host[session.path] == sealed_image(
        session.cache.mode,
        session.cache.nonce,
        session.cache.root,
        stored,
    )
    &&& in_step(session.cache, stored, content)
}

/// Two states of a session on the same file: the identity, the path, the
/// mode, the nonce and the root secret are the same.
pub open spec fn same_file(a: SessionView, b: SessionView) -> bool {
    &&& a.identity == b.identity
    &&& a.path == b.path
    &&& a.cache.mode == b.cache.mode
    &&& a.cache.nonce == b.cache.nonce
    &&& a.cache.root == b.cache.root
}

/// The plain bytes of a node that is not dirty are those on the host, and
/// the plain bytes of a node that is loaded are those in the cache.
proof fn lemma_in_step_nodes(cache: CacheView, stored: Seq<u8>, content: Seq<u8>, i: int)
    requires
        in_step(cache, stored, content),
        0 <= i < cache.nodes(),
    ensures
        cache.loaded[i] ==> node_plain(cache.content, i) == node_plain(content, i),
        !cache.dirty[i] ==> {
            &&& i < node_count(stored.len() as int)
            &&& node_len(stored.len() as int, i) == node_len(content.len() as int, i)
            &&& node_plain(stored, i) == node_plain(content, i)
        },
{
    let size = content.len() as int;
    lemma_node_bounds(size, i);
    if cache.loaded[i] {
        assert forall|x: int| 0 <= x < node_len(size, i) implies node_plain(cache.content, i)[x]
            == node_plain(content, i)[x] by {
            let k = i * NODE_SIZE + x;
            assert(k / (NODE_SIZE as int) == i);
            assert(content[k] == cache.content[k]);
        }
        assert(node_plain(cache.content, i) =~= node_plain(content, i));
    }
    if !cache.dirty[i] {
        lemma_node_bounds(stored.len() as int, i);
        assert forall|x: int| 0 <= x < node_len(size, i) implies node_plain(stored, i)[x]
            == node_plain(content, i)[x] by {
            let k = i * NODE_SIZE + x;
            assert(k / (NODE_SIZE as int) == i);
            assert(content[k] == stored[k]);
        }
        assert(node_plain(stored, i) =~= node_plain(content, i));
    }
}

/// From an image that holds the table and content node `i` of what is
/// stored, the node is brought into the cache without fail, and the cache
/// stays in step.
pub proof fn lemma_load_in_step(
    cache: CacheView,
    image: Seq<u8>,
    stored: Seq<u8>,
    content: Seq<u8>,
    i: int,
)
    requires
        in_step(cache, stored, content),
        holds_table(image, cache.root, stored),
        i < node_count(stored.len() as int) ==> holds_node(image, cache.mode, cache.root, stored, i),
        0 <= i < cache.nodes(),
    ensures
        cache.with_node(image, i) is Ok,
        in_step(cache.with_node(image, i)->Ok_0, stored, content),
        cache.with_node(image, i)->Ok_0.loaded[i],
        cache.with_node(image, i)->Ok_0.dirty == cache.dirty,
        cache.with_node(image, i)->Ok_0.mode == cache.mode,
        cache.with_node(image, i)->Ok_0.nonce == cache.nonce,
        cache.with_node(image, i)->Ok_0.root == cache.root,
        forall|k: int|
            0 <= k < cache.nodes() && k != i ==> cache.with_node(image, i)->Ok_0.loaded[k]
                == cache.loaded[k],
{
    if !cache.loaded[i] {
        let size = content.len() as int;
        let table = tag_table(cache.root, stored);
        assert(!cache.dirty[i]);
        lemma_in_step_nodes(cache, stored, content, i);
        lemma_node_bounds(size, i);
        lemma_node_bounds(stored.len() as int, i);
        lemma_node_stored_len(cache.mode, cache.root, stored, i);
        lemma_recover_protect(
            cache.mode,
            node_key(cache.root, i),
            node_binding(i),
            node_plain(stored, i),
        );
        let with_table = cache.with_table(image)->Ok_0;
        assert(cache.with_table(image) is Ok);
        assert(with_table.table == Some(table));
        let tag = table.subrange(32 * i, 32 * i + 32);
        assert(tag =~= node_tag(cache.root, stored, i)) by {
            assert forall|k: int| 0 <= k < 32 implies tag[k] == node_tag(cache.root, stored, i)[k] by {
                assert((32 * i + k) / 32 == i);
                assert((32 * i + k) % 32 == k);
            }
        }
        let after = cache.with_node(image, i)->Ok_0;
        assert(cache.with_node(image, i) is Ok);
        assert(after.content == spec_overwrite(cache.content, i * NODE_SIZE, node_plain(stored, i)));
        assert(after.content.len() == size);
        assert forall|k: int|
            0 <= k < size && after.loaded[k / (NODE_SIZE as int)] implies #[trigger] content[k]
            == after.content[k] by {
            let n = k / (NODE_SIZE as int);
            if n == i {
                assert(content[k] == stored[k]);
                assert(node_plain(stored, i)[k - i * NODE_SIZE] == stored[k]);
            } else {
                assert(cache.loaded[n]);
                assert(content[k] == cache.content[k]);
            }
        }
        lemma_with_node_wf(cache, image, i);
    }
}

/// From an image that holds the table and the content nodes of a range
/// of what is stored, the nodes are brought into the cache without fail,
/// and the cache stays in step.
pub proof fn lemma_load_range_in_step(
    cache: CacheView,
    image: Seq<u8>,
    stored: Seq<u8>,
    content: Seq<u8>,
    from: int,
    to: int,
)
    requires
        in_step(cache, stored, content),
        holds_table(image, cache.root, stored),
        forall|k: int|
            from <= k < to && k < node_count(stored.len() as int) ==> holds_node(
                image,
                cache.mode,
                cache.root,
                stored,
                k,
            ),
        0 <= from,
        to <= cache.nodes(),
    ensures
        cache.with_nodes(image, from, to) is Ok,
        in_step(cache.with_nodes(image, from, to)->Ok_0, stored, content),
        cache.with_nodes(image, from, to)->Ok_0.dirty == cache.dirty,
        cache.with_nodes(image, from, to)->Ok_0.mode == cache.mode,
        cache.with_nodes(image, from, to)->Ok_0.nonce == cache.nonce,
        cache.with_nodes(image, from, to)->Ok_0.root == cache.root,
        forall|k: int| from <= k < to ==> cache.with_nodes(image, from, to)->Ok_0.loaded[k],
        forall|k: int|
            0 <= k < cache.nodes() && cache.loaded[k] ==> cache.with_nodes(
                image,
                from,
                to,
            )->Ok_0.loaded[k],
        forall|k: int|
            0 <= k < cache.nodes() && !(from <= k < to) ==> cache.with_nodes(
                image,
                from,
                to,
            )->Ok_0.loaded[k] == cache.loaded[k],
    decreases to - from,
{
    if from < to {
        lemma_load_in_step(cache, image, stored, content, from);
        let next = cache.with_node(image, from)->Ok_0;
        lemma_load_range_in_step(next, image, stored, content, from + 1, to);
    }
}

/// From an image that holds the table of what is stored, the table is
/// brought into the cache without fail, and the cache stays in step.
pub proof fn lemma_table_in_step(cache: CacheView, image: Seq<u8>, stored: Seq<u8>, content: Seq<u8>)
    requires
        in_step(cache, stored, content),
        holds_table(image, cache.root, stored),
    ensures
        cache.with_table(image) is Ok,
        cache.with_table(image)->Ok_0 == (CacheView {
            table: Some(tag_table(cache.root, stored)),
            ..cache
        }),
        in_step(cache.with_table(image)->Ok_0, stored, content),
{
}

/// Reading on an honest host. The read gives the bytes of the content in
/// the window asked for, and the cache stays in step.
pub proof fn law_read_in_step(
    session: SessionView,
    host: Map<Seq<char>, Seq<u8>>,
    stored: Seq<u8>,
    content: Seq<u8>,
    offset: int,
    length: int,
)
    requires
        session_in_step(session, host, stored, content),
        0 <= offset,
        0 <= length,
    ensures
        session.read(host, offset, length).1 == Ok::<Seq<u8>, FsError>(
            spec_window(content, offset, length),
        ),
        session_in_step(session.read(host, offset, length).0, host, stored, content),
        same_file(session.read(host, offset, length).0, session),
{
    let cache = session.cache;
    let image = session.image(host);
    let size = content.len() as int;
    let start = if offset < size { offset } else { size };
    let end = if offset + length < size { offset + length } else { size };
    if start < end {
        lemma_node_of_byte(size, end - 1);
        lemma_node_of_byte(size, start);
        let from = start / (NODE_SIZE as int);
        let to = (end - 1) / (NODE_SIZE as int) + 1;
        lemma_sealed_image_holds(cache.mode, cache.nonce, cache.root, stored);
        lemma_load_range_in_step(cache, image, stored, content, from, to);
        let after = cache.with_nodes(image, from, to)->Ok_0;
        assert forall|k: int| start <= k < end implies after.content[k] == content[k] by {
            lemma_node_of_byte(size, k);
            assert(from <= k / (NODE_SIZE as int) < to);
        }
        assert(after.content.subrange(start, end) =~= spec_window(content, offset, length));
    } else {
        assert(spec_window(content, offset, length) =~= Seq::<u8>::empty());
    }
}

/// Writing on an honest host. A write that holds bytes and ends within the
/// longest content succeeds, the content afterwards is the content before
/// with the bytes laid over it at the offset, and the cache stays in step
/// with the host, which has not changed.
pub proof fn law_write_in_step(
    session: SessionView,
    host: Map<Seq<char>, Seq<u8>>,
    stored: Seq<u8>,
    content: Seq<u8>,
    offset: int,
    bytes: Seq<u8>,
)
    requires
        session_in_step(session, host, stored, content),
        0 <= offset,
        0 < bytes.len(),
        offset + bytes.len() <= MAX_FILE_LEN,
    ensures
        session.write(host, offset, bytes).1 == Ok::<int, FsError>(bytes.len() as int),
        session_in_step(
            session.write(host, offset, bytes).0,
            host,
            stored,
            spec_overwrite(content, offset, bytes),
        ),
        same_file(session.write(host, offset, bytes).0, session),
{
    let cache = session.cache;
    let image = session.image(host);
    let size = content.len() as int;
    let end = offset + bytes.len();
    let first = cache.first_touched(offset);
    let last = CacheView::last_touched(end);
    let old_nodes = cache.nodes();
    let load_to = if last + 1 < old_nodes { last + 1 } else { old_nodes };
    lemma_sealed_image_holds(cache.mode, cache.nonce, cache.root, stored);
    lemma_load_range_in_step(cache, image, stored, content, first, load_to);
    let loaded = cache.with_nodes(image, first, load_to)->Ok_0;
    lemma_table_in_step(loaded, image, stored, content);
    let ready = loaded.with_table(image)->Ok_0;
    let after = cache.write(image, offset, bytes)->Ok_0;
    let target = spec_overwrite(content, offset, bytes);
    let nodes = node_count(target.len() as int);
    assert(after.content == spec_overwrite(ready.content, offset, bytes));
    assert(target.len() == after.content.len());
    assert(nodes == old_nodes || nodes == last + 1);
    assert(first <= old_nodes);
    assert(first * NODE_SIZE <= offset);
    assert(first * NODE_SIZE <= size);
    assert forall|k: int|
        0 <= k < target.len() && after.loaded[k / (NODE_SIZE as int)] implies #[trigger] target[k]
        == after.content[k] by {
        let n = k / (NODE_SIZE as int);
        if offset <= k < end {
        } else if k < size {
            assert(n < old_nodes);
            assert(ready.loaded[n]);
            assert(content[k] == ready.content[k]);
        } else {
        }
    }
    assert forall|k: int|
        0 <= k < target.len() && !after.dirty[k / (NODE_SIZE as int)] implies k < stored.len()
        && #[trigger] target[k] == stored[k] by {
        let n = k / (NODE_SIZE as int);
        assert(n < old_nodes);
        assert(!ready.dirty[n]);
        assert(!(first <= n <= last));
        lemma_node_bounds(size, n);
        lemma_node_bounds(stored.len() as int, n);
        assert(n < node_count(stored.len() as int));
        assert(node_len(size, n) == node_len(stored.len() as int, n));
        if n < first {
            assert(k < first * NODE_SIZE);
            assert(k < size);
            assert(content[k] == stored[k]);
        } else {
            assert(k >= (last + 1) * NODE_SIZE);
            assert(k >= end);
            assert(k < size);
            assert(content[k] == stored[k]);
        }
    }
    lemma_laid_wf(ready, offset, bytes);
}

/// The content of a file when it was flushed: where the first `upto`
/// content nodes have been written, the host holds the stored form of
/// the content up to there, and beyond it what it held before.
proof fn lemma_node_writes_in_step(
    cache: CacheView,
    image: Seq<u8>,
    stored: Seq<u8>,
    content: Seq<u8>,
    upto: int,
)
    requires
        in_step(cache, stored, content),
        image == sealed_image(cache.mode, cache.nonce, cache.root, stored),
        0 <= upto <= cache.nodes(),
    ensures
        ({
            let done = apply_writes(image, cache.node_writes(upto));
            let data = stored_data(cache.mode, cache.root, content);
            let reach = if upto * NODE_SIZE < content.len() {
                upto * NODE_SIZE
            } else {
                content.len() as int
            };
            &&& done.len() >= image.len()
            &&& done.len() >= META_LEN + reach
            &&& done.len() <= (if image.len() > META_LEN + reach {
                image.len() as int
            } else {
                META_LEN + reach
            })
            &&& forall|k: int| 0 <= k < META_LEN ==> done[k] == image[k]
            &&& forall|k: int| META_LEN <= k < META_LEN + reach ==> done[k] == data[k - META_LEN]
            &&& forall|k: int| META_LEN + reach <= k < image.len() ==> done[k] == image[k]
        }),
    decreases upto,
{
    let size = content.len() as int;
    let data = stored_data(cache.mode, cache.root, content);
    lemma_sealed_image_holds(cache.mode, cache.nonce, cache.root, stored);
    if upto > 0 {
        let i = upto - 1;
        lemma_node_writes_in_step(cache, image, stored, content, i);
        lemma_in_step_nodes(cache, stored, content, i);
        lemma_node_bounds(size, i);
        lemma_node_stored_len(cache.mode, cache.root, content, i);
        let before = apply_writes(image, cache.node_writes(i));
        let done = apply_writes(image, cache.node_writes(upto));
        let reach = if upto * NODE_SIZE < size { upto * NODE_SIZE } else { size };
        assert(reach == i * NODE_SIZE + node_len(size, i));
        if cache.dirty[i] {
            let write = WriteView {
                offset: META_LEN + i * NODE_SIZE,
                bytes: node_stored(cache.mode, cache.root, cache.content, i),
            };
            lemma_apply_push(image, cache.node_writes(i), write);
            assert(cache.loaded[i]);
            assert(node_stored(cache.mode, cache.root, cache.content, i) == node_stored(
                cache.mode,
                cache.root,
                content,
                i,
            ));
            assert forall|k: int| META_LEN <= k < META_LEN + reach implies done[k] == data[k
                - META_LEN] by {
                if k >= META_LEN + i * NODE_SIZE {
                    let x = k - META_LEN;
                    assert(x / (NODE_SIZE as int) == i);
                    assert(x % (NODE_SIZE as int) == x - i * NODE_SIZE);
                }
            }
        } else {
            assert(done == before);
            lemma_node_bounds(stored.len() as int, i);
            lemma_node_stored_len(cache.mode, cache.root, stored, i);
            assert(holds_node(image, cache.mode, cache.root, stored, i));
            assert(node_stored(cache.mode, cache.root, stored, i) == node_stored(
                cache.mode,
                cache.root,
                content,
                i,
            ));
            let found = spec_window(image, META_LEN + i * NODE_SIZE, node_len(stored.len() as int, i));
            assert forall|k: int| META_LEN <= k < META_LEN + reach implies done[k] == data[k
                - META_LEN] by {
                if k >= META_LEN + i * NODE_SIZE {
                    let x = k - META_LEN;
                    assert(x / (NODE_SIZE as int) == i);
                    assert(x % (NODE_SIZE as int) == x - i * NODE_SIZE);
                    assert(found[x - i * NODE_SIZE] == image[k]);
                }
            }
        }
    }
}

/// The table with the dirty nodes tagged anew is the table of the
/// content.
proof fn lemma_live_table_in_step(cache: CacheView, stored: Seq<u8>, content: Seq<u8>)
    requires
        in_step(cache, stored, content),
        cache.any_dirty(),
    ensures
        cache.live_table() == tag_table(cache.root, content),
{
    let live = cache.live_table();
    let table = tag_table(cache.root, content);
    let k0 = choose|k: int| 0 <= k < cache.dirty.len() && #[trigger] cache.dirty[k];
    assert(cache.loaded[k0]);
    assert(live.len() == table.len());
    assert forall|k: int| 0 <= k < live.len() implies live[k] == table[k] by {
        let i = k / 32;
        lemma_in_step_nodes(cache, stored, content, i);
        if !cache.dirty[i] {
            assert(tag_table(cache.root, stored)[k] == node_tag(cache.root, stored, i)[k % 32]);
        }
    }
    assert(live =~= table);
}

/// Without a dirty node the content is what the host holds.
proof fn lemma_clean_in_step(cache: CacheView, stored: Seq<u8>, content: Seq<u8>)
    requires
        in_step(cache, stored, content),
        !cache.any_dirty(),
    ensures
        content == stored,
{
    let size = content.len() as int;
    assert forall|i: int| 0 <= i < cache.nodes() implies !cache.dirty[i] by {}
    if size > 0 {
        lemma_node_of_byte(size, size - 1);
        let last = (size - 1) / (NODE_SIZE as int);
        assert(!cache.dirty[last]);
        lemma_node_bounds(size, last);
        lemma_node_bounds(stored.len() as int, last);
    }
    assert(content.len() == stored.len());
    assert forall|k: int| 0 <= k < size implies content[k] == stored[k] by {
        lemma_node_of_byte(size, k);
        assert(!cache.dirty[k / (NODE_SIZE as int)]);
    }
    assert(content =~= stored);
}

/// Flushing on an honest host. The flush succeeds and leaves on the host
/// the sealed image of the content with all writes made so far; the
/// session is in step with it, and nothing is dirty.
pub proof fn law_flush_in_step(
    session: SessionView,
    host: Map<Seq<char>, Seq<u8>>,
    stored: Seq<u8>,
    content: Seq<u8>,
)
    requires
        session_in_step(session, host, stored, content),
    ensures
        session.flush(host).2 is Ok,
        session.flush(host).1 == host.insert(
            session.path,
            sealed_image(session.cache.mode, session.cache.nonce, session.cache.root, content),
        ),
        session_in_step(session.flush(host).0, session.flush(host).1, content, content),
        same_file(session.flush(host).0, session),
        !session.flush(host).0.cache.any_dirty(),
{
    let cache = session.cache;
    let image = host[session.path];
    let size = content.len() as int;
    let nodes = node_count(size);
    if cache.any_dirty() {
        lemma_live_table_in_step(cache, stored, content);
        lemma_node_writes_in_step(cache, image, stored, content, nodes);
        lemma_sealed_image_holds(cache.mode, cache.nonce, cache.root, stored);
        lemma_sealed_image_holds(cache.mode, cache.nonce, cache.root, content);
        let table = tag_table(cache.root, content);
        let data = stored_data(cache.mode, cache.root, content);
        let writes = cache.node_writes(nodes);
        lemma_apply_push(image, writes, cache.table_write());
        lemma_apply_push(image, writes.push(cache.table_write()), cache.meta_write());
        lemma_decode_meta_node(cache.mode, cache.nonce, cache.root, size, table_tag(cache.root, table));
        let first = apply_writes(image, writes);
        let second = spec_overwrite(first, cache.table_write().offset, cache.table_write().bytes);
        let third = spec_overwrite(second, 0, cache.meta_write().bytes);
        let target = sealed_image(cache.mode, cache.nonce, cache.root, content);
        assert(node_count(stored.len() as int) <= nodes);
        assert(second.len() == META_LEN + size + 32 * nodes);
        assert(third.len() == target.len());
        assert forall|k: int| 0 <= k < third.len() implies third[k] == target[k] by {
            if k < META_LEN {
            } else if k < META_LEN + size {
                assert(third[k] == first[k]);
            } else {
            }
        }
        assert(third =~= target);
        let after = cache.flushed();
        lemma_flushed_wf(cache);
        assert(!after.any_dirty());
    } else {
        lemma_clean_in_step(cache, stored, content);
        assert(host.insert(session.path, image) =~= host);
    }
}

/// The cache of a file that was just opened is in step with the content
/// that its metadata node vouches for.
pub proof fn lemma_opened_in_step(
    mode: ProtectionMode,
    nonce: Seq<u8>,
    root: Seq<u8>,
    content: Seq<u8>,
)
    requires
        nonce.len() == 32,
        root.len() == 32,
        content.len() <= MAX_FILE_LEN,
    ensures
        in_step(
            CacheView::opened(
                mode,
                nonce,
                root,
                content.len() as int,
                table_tag(root, tag_table(root, content)),
            ),
            content,
            content,
        ),
{
    let cache = CacheView::opened(
        mode,
        nonce,
        root,
        content.len() as int,
        table_tag(root, tag_table(root, content)),
    );
    assert forall|k: int|
        0 <= k < content.len() && cache.loaded[k / (NODE_SIZE as int)] implies #[trigger] content[k]
        == cache.content[k] by {
        lemma_node_of_byte(content.len() as int, k);
    }
    assert forall|i: int| 0 <= i < cache.nodes() && !#[trigger] cache.dirty[i] implies {
        &&& i < node_count(cache.stored_length)
        &&& node_len(cache.content.len() as int, i) == node_len(cache.stored_length, i)
    } by {}
    assert(cache.wf());
}

/// Opening on an honest host. A sealed image opens under the identity
/// that sealed it, and the session is in step with the host from the
/// start.
pub proof fn law_open_in_step(
    identity: IdentityContext,
    host: Map<Seq<char>, Seq<u8>>,
    path: Seq<char>,
    mode: ProtectionMode,
    nonce: Seq<u8>,
    content: Seq<u8>,
)
    requires
        nonce.len() == 32,
        content.len() <= MAX_FILE_LEN,
        path_accepted(path),
        identity.secret is Some,
        host.contains_key(path),
        host[path] == sealed_image(
            mode,
            nonce,
            spec_root_secret(identity, nonce)->Ok_0@,
            content,
        ),
    ensures
        SessionView::fresh(identity).open(host, false, path, mode).1 is Ok,
        session_in_step(
            SessionView::fresh(identity).open(host, false, path, mode).0,
            host,
            content,
            content,
        ),
        SessionView::fresh(identity).open(host, false, path, mode).0.cache.mode == mode,
        SessionView::fresh(identity).open(host, false, path, mode).0.cache.nonce == nonce,
        SessionView::fresh(identity).open(host, false, path, mode).0.cache.root
            == spec_root_secret(identity, nonce)->Ok_0@,
        SessionView::fresh(identity).open(host, false, path, mode).0.path == path,
{
    let root = spec_root_secret(identity, nonce)->Ok_0@;
    let root_tag = table_tag(root, tag_table(root, content));
    lemma_sealed_image_holds(mode, nonce, root, content);
    lemma_decode_meta_node(mode, nonce, root, content.len() as int, root_tag);
    let opened = SessionView::fresh(identity).open(host, false, path, mode);
    assert(opened.1 is Ok);
    let cache = opened.0.cache;
    assert(cache == CacheView::opened(mode, nonce, root, content.len() as int, root_tag));
    lemma_opened_in_step(mode, nonce, root, content);
}

/// The tag on an honest host. The authentication tag of a file in
/// integrity-only mode is the tag of the table of its content, with all
/// writes made so far: it depends on the root secret and the content
/// alone.
pub proof fn law_tag_in_step(
    session: SessionView,
    host: Map<Seq<char>, Seq<u8>>,
    stored: Seq<u8>,
    content: Seq<u8>,
)
    requires
        session_in_step(session, host, stored, content),
        session.cache.mode == ProtectionMode::IntegrityOnly,
    ensures
        session.authentication_tag() == Ok::<Seq<u8>, FsError>(
            table_tag(session.cache.root, tag_table(session.cache.root, content)),
        ),
{
    if session.cache.any_dirty() {
        lemma_live_table_in_step(session.cache, stored, content);
    } else {
        lemma_clean_in_step(session.cache, stored, content);
    }
}

/// Creating on any host. Where `create` succeeds, the host holds the
/// sealed image of a file without content, and the session is in step
/// with it.
pub proof fn law_create_in_step(
    identity: IdentityContext,
    host: Map<Seq<char>, Seq<u8>>,
    path: Seq<char>,
    mode: ProtectionMode,
    nonce: Seq<u8>,
)
    requires
        nonce.len() == 32,
    ensures
        ({
            let created = SessionView::fresh(identity).create(host, false, path, mode, nonce);
            created.2 is Ok ==> {
                &&& created.2 is Ok <==> path_accepted(path) && !host.contains_key(path)
                    && identity.secret is Some
                &&& session_in_step(created.0, created.1, Seq::<u8>::empty(), Seq::<u8>::empty())
                &&& created.1 == host.insert(
                    path,
                    sealed_image(
                        mode,
                        nonce,
                        spec_root_secret(identity, nonce)->Ok_0@,
                        Seq::<u8>::empty(),
                    ),
                )
                &&& created.0.path == path
                &&& created.0.identity == identity
                &&& created.0.cache.mode == mode
                &&& created.0.cache.nonce == nonce
                &&& created.0.cache.root == spec_root_secret(identity, nonce)->Ok_0@
            }
        }),
{
    let created = SessionView::fresh(identity).create(host, false, path, mode, nonce);
    if created.2 is Ok {
        let root = spec_root_secret(identity, nonce)->Ok_0@;
        let none = Seq::<u8>::empty();
        lemma_sealed_image_empty(mode, nonce, root);
        assert(tag_table(root, none) =~= none);
        assert(created.0.cache.wf());
    }
}

/// The content of a file after the writes of `writes` were made one after
/// the other: a write without bytes, and one that would pass the longest
/// content, leave it as it is.
pub open spec fn written(content: Seq<u8>, writes: Seq<WriteView>) -> Seq<u8>
    decreases writes.len(),
{
    if writes.len() == 0 {
        content
    } else {
        let before = written(content, writes.drop_last());
        let last = writes.last();
        if last.bytes.len() == 0 || last.offset + last.bytes.len() > MAX_FILE_LEN {
            before
        } else {
            spec_overwrite(before, last.offset, last.bytes)
        }
    }
}

/// Writing on an honest host, any number of times. The session stays in
/// step, and the content is what the writes make of it.
pub proof fn law_write_all_in_step(
    session: SessionView,
    host: Map<Seq<char>, Seq<u8>>,
    stored: Seq<u8>,
    content: Seq<u8>,
    writes: Seq<WriteView>,
)
    requires
        session_in_step(session, host, stored, content),
        forall|i: int| 0 <= i < writes.len() ==> 0 <= (#[trigger] writes[i]).offset,
    ensures
        session_in_step(session.write_all(host, writes), host, stored, written(content, writes)),
        same_file(session.write_all(host, writes), session),
    decreases writes.len(),
{
    if writes.len() > 0 {
        assert forall|i: int| 0 <= i < writes.drop_last().len() implies 0 <= (
        #[trigger] writes.drop_last()[i]).offset by {
            assert(writes.drop_last()[i] == writes[i]);
        }
        law_write_all_in_step(session, host, stored, content, writes.drop_last());
        let before = session.write_all(host, writes.drop_last());
        let last = writes.last();
        if last.bytes.len() > 0 && last.offset + last.bytes.len() <= MAX_FILE_LEN {
            law_write_in_step(
                before,
                host,
                stored,
                written(content, writes.drop_last()),
                last.offset,
                last.bytes,
            );
        }
    }
}

/// Round trip. Create a file, write to it in any way, close it, open it
/// again under the same identity and read as many bytes as the content
/// has: the read gives exactly the content that the writes made. What the
/// host holds after the close is the sealed image of that content, and
/// the authentication tag of the reopened file is the one that the file
/// had before the close.
pub proof fn law_round_trip(
    identity: IdentityContext,
    host: Map<Seq<char>, Seq<u8>>,
    path: Seq<char>,
    mode: ProtectionMode,
    nonce: Seq<u8>,
    writes: Seq<WriteView>,
)
    requires
        nonce.len() == 32,
        forall|i: int| 0 <= i < writes.len() ==> 0 <= (#[trigger] writes[i]).offset,
    ensures
        ({
            let content = written(Seq::<u8>::empty(), writes);
            let created = SessionView::fresh(identity).create(host, false, path, mode, nonce);
            let after = created.0.write_all(created.1, writes);
            let closed = after.close(created.1);
            let opened = SessionView::fresh(identity).open(closed.1, false, path, mode);
            let read = opened.0.read(closed.1, 0, content.len() as int);
            created.2 is Ok ==> {
                &&& after.state == SessionState::Open
                &&& after.cache.content.len() == content.len()
                &&& closed.0.state == SessionState::Closed
                &&& closed.1 == host.insert(
                    path,
                    sealed_image(mode, nonce, spec_root_secret(identity, nonce)->Ok_0@, content),
                )
                &&& opened.1 is Ok
                &&& read.1 == Ok::<Seq<u8>, FsError>(content)
                &&& read.0.authentication_tag() == after.authentication_tag()
            }
        }),
{
    let none = Seq::<u8>::empty();
    let content = written(none, writes);
    let created = SessionView::fresh(identity).create(host, false, path, mode, nonce);
    if created.2 is Ok {
        let root = spec_root_secret(identity, nonce)->Ok_0@;
        law_create_in_step(identity, host, path, mode, nonce);
        law_write_all_in_step(created.0, created.1, none, none, writes);
        let after = created.0.write_all(created.1, writes);
        law_flush_in_step(after, created.1, none, content);
        let closed = after.close(created.1);
        assert(closed.1 =~= host.insert(path, sealed_image(mode, nonce, root, content)));
        law_open_in_step(identity, closed.1, path, mode, nonce, content);
        let opened = SessionView::fresh(identity).open(closed.1, false, path, mode);
        law_read_in_step(opened.0, closed.1, content, content, 0, content.len() as int);
        let read = opened.0.read(closed.1, 0, content.len() as int);
        assert(spec_window(content, 0, content.len() as int) =~= content);
        if mode == ProtectionMode::IntegrityOnly {
            law_tag_in_step(after, created.1, none, content);
            law_tag_in_step(read.0, closed.1, content, content);
        }
    }
}

/// Round trip of one write: for any byte sequence that a file can hold,
/// create, write it at the start, close, open and read give it back.
pub proof fn law_round_trip_once(
    identity: IdentityContext,
    host: Map<Seq<char>, Seq<u8>>,
    path: Seq<char>,
    mode: ProtectionMode,
    nonce: Seq<u8>,
    content: Seq<u8>,
)
    requires
        nonce.len() == 32,
        content.len() <= MAX_FILE_LEN,
    ensures
        ({
            let created = SessionView::fresh(identity).create(host, false, path, mode, nonce);
            let after = created.0.write(created.1, 0, content);
            let closed = after.0.close(created.1);
            let opened = SessionView::fresh(identity).open(closed.1, false, path, mode);
            let read = opened.0.read(closed.1, 0, content.len() as int);
            created.2 is Ok ==> {
                &&& after.1 == Ok::<int, FsError>(content.len() as int)
                &&& opened.1 is Ok
                &&& read.1 == Ok::<Seq<u8>, FsError>(content)
            }
        }),
{
    let created = SessionView::fresh(identity).create(host, false, path, mode, nonce);
    let writes = seq![WriteView { offset: 0, bytes: content }];
    if created.2 is Ok {
        lemma_written_once(content);
        assert(writes.drop_last() =~= Seq::<WriteView>::empty());
        assert(created.0.write_all(created.1, writes.drop_last()) == created.0);
        assert(created.0.write_all(created.1, writes) == created.0.write(created.1, 0, content).0);
        law_round_trip(identity, host, path, mode, nonce, writes);
        law_create_in_step(identity, host, path, mode, nonce);
        if content.len() > 0 {
            law_write_in_step(
                created.0,
                created.1,
                Seq::<u8>::empty(),
                Seq::<u8>::empty(),
                0,
                content,
            );
        }
    }
}

/// One write at the start of a file without content makes the bytes
/// written its content.
pub proof fn lemma_written_once(content: Seq<u8>)
    requires
        content.len() <= MAX_FILE_LEN,
    ensures
        written(Seq::<u8>::empty(), seq![WriteView { offset: 0, bytes: content }]) == content,
{
    let none = Seq::<u8>::empty();
    let writes = seq![WriteView { offset: 0, bytes: content }];
    assert(writes.drop_last() =~= Seq::<WriteView>::empty());
    assert(written(none, writes.drop_last()) == none);
    if content.len() > 0 {
        assert(spec_overwrite(none, 0, content) =~= content);
    } else {
        assert(content =~= none);
    }
}

/// Tag stability. Two files created in the same mode under the same
/// identity and with the same nonce, each after the same writes, have the
/// same authentication tag, whatever their paths and their hosts.
pub proof fn law_tag_stability(
    identity: IdentityContext,
    mode: ProtectionMode,
    nonce: Seq<u8>,
    host_a: Map<Seq<char>, Seq<u8>>,
    path_a: Seq<char>,
    host_b: Map<Seq<char>, Seq<u8>>,
    path_b: Seq<char>,
    writes: Seq<WriteView>,
)
    requires
        nonce.len() == 32,
        forall|i: int| 0 <= i < writes.len() ==> 0 <= (#[trigger] writes[i]).offset,
    ensures
        ({
            let a = SessionView::fresh(identity).create(host_a, false, path_a, mode, nonce);
            let b = SessionView::fresh(identity).create(host_b, false, path_b, mode, nonce);
            a.2 is Ok && b.2 is Ok ==> a.0.write_all(a.1, writes).authentication_tag()
                == b.0.write_all(b.1, writes).authentication_tag()
        }),
{
    let none = Seq::<u8>::empty();
    let a = SessionView::fresh(identity).create(host_a, false, path_a, mode, nonce);
    let b = SessionView::fresh(identity).create(host_b, false, path_b, mode, nonce);
    if a.2 is Ok && b.2 is Ok {
        law_create_in_step(identity, host_a, path_a, mode, nonce);
        law_create_in_step(identity, host_b, path_b, mode, nonce);
        law_write_all_in_step(a.0, a.1, none, none, writes);
        law_write_all_in_step(b.0, b.1, none, none, writes);
        if mode == ProtectionMode::IntegrityOnly {
            law_tag_in_step(a.0.write_all(a.1, writes), a.1, none, written(none, writes));
            law_tag_in_step(b.0.write_all(b.1, writes), b.1, none, written(none, writes));
        }
    }
}

} // verus!
