//! What the node cache holds of itself after each step: the steps of the
//! model take a sound cache to a sound cache, whatever the host holds.

use crate::cipher::{lemma_recover_len, lemma_recover_unprotect, spec_recover};
use crate::model::{entry, CacheView};
use crate::range::spec_window;
use crate::tree::{
    lemma_node_bounds, lemma_node_of_byte, node_binding, node_count, node_key, node_len,
    node_plain, node_tag, MAX_FILE_LEN, META_LEN, NODE_SIZE,
};
use vstd::prelude::*;

verus! {

/// Two contents that agree on the bytes of content node `i` give the node
/// the same plain bytes.
pub proof fn lemma_same_node(a: Seq<u8>, b: Seq<u8>, i: int)
    requires
        0 <= i < node_count(a.len() as int),
        node_len(a.len() as int, i) == node_len(b.len() as int, i),
        i * NODE_SIZE + node_len(a.len() as int, i) <= b.len(),
        forall|k: int|
            i * NODE_SIZE <= k < i * NODE_SIZE + node_len(a.len() as int, i) ==> a[k] == b[k],
    ensures
        node_plain(a, i) == node_plain(b, i),
{
    lemma_node_bounds(a.len() as int, i);
    assert(node_plain(a, i) =~= node_plain(b, i));
}

/// Bringing the table into a sound cache leaves a sound cache.
pub proof fn lemma_with_table_wf(cache: CacheView, image: Seq<u8>)
    requires
        cache.wf(),
    ensures
        cache.with_table(image) is Ok ==> cache.with_table(image)->Ok_0.wf(),
{
    if cache.table is None {
        assert forall|i: int| 0 <= i < cache.nodes() implies !#[trigger] cache.loaded[i] by {}
    }
}

/// Bringing a content node into a sound cache leaves a sound cache, which
/// holds the node and is otherwise as before.
pub proof fn lemma_with_node_wf(cache: CacheView, image: Seq<u8>, i: int)
    requires
        cache.wf(),
        0 <= i < cache.nodes(),
    ensures
        cache.with_node(image, i) is Ok ==> ({
            let after = cache.with_node(image, i)->Ok_0;
            &&& after.wf()
            &&& after.loaded[i]
            &&& after.content.len() == cache.content.len()
            &&& after.dirty == cache.dirty
            &&& after.loaded == cache.loaded.update(i, true)
        }),
{
    if cache.with_node(image, i) is Ok && !cache.loaded[i] {
        lemma_with_table_wf(cache, image);
        let ready = cache.with_table(image)->Ok_0;
        let size = cache.content.len() as int;
        assert(!cache.dirty[i]);
        lemma_node_bounds(size, i);
        lemma_node_bounds(cache.stored_length, i);
        let len = node_len(cache.stored_length, i);
        let stored = spec_window(image, META_LEN + i * NODE_SIZE, len);
        let tag = entry(ready.table->Some_0, i);
        let key = node_key(cache.root, i);
        lemma_recover_len(cache.mode, key, node_binding(i), stored, tag);
        lemma_recover_unprotect(cache.mode, key, node_binding(i), stored, tag);
        let plain = spec_recover(cache.mode, key, node_binding(i), stored, tag)->Ok_0;
        let after = cache.with_node(image, i)->Ok_0;
        assert(after.content.len() == size);
        assert(node_plain(after.content, i) =~= plain);
        assert forall|k: int|
            0 <= k < after.nodes() && #[trigger] after.loaded[k] && !after.dirty[k] implies entry(
            after.table->Some_0,
            k,
        ) == node_tag(after.root, after.content, k) by {
            if k != i {
                assert(cache.loaded[k]);
                lemma_node_bounds(size, k);
                lemma_same_node(cache.content, after.content, k);
            }
        }
    }
}

/// Bringing a range of content nodes into a sound cache leaves a sound
/// cache, which holds the nodes of the range; the content is as long as
/// before, and the root tag, the root secret and the marks of what is
/// dirty are the same.
pub proof fn lemma_with_nodes_wf(cache: CacheView, image: Seq<u8>, from: int, to: int)
    requires
        cache.wf(),
        0 <= from,
        to <= cache.nodes(),
    ensures
        cache.with_nodes(image, from, to) is Ok ==> ({
            let after = cache.with_nodes(image, from, to)->Ok_0;
            &&& after.wf()
            &&& forall|k: int| from <= k < to ==> after.loaded[k]
            &&& after.content.len() == cache.content.len()
            &&& after.dirty == cache.dirty
            &&& after.root_tag == cache.root_tag
            &&& after.root == cache.root
            &&& after.mode == cache.mode
        }),
    decreases to - from,
{
    if from < to && cache.with_nodes(image, from, to) is Ok {
        lemma_with_node_wf(cache, image, from);
        let next = cache.with_node(image, from)->Ok_0;
        lemma_with_nodes_wf(next, image, from + 1, to);
        let after = next.with_nodes(image, from + 1, to)->Ok_0;
        lemma_loaded_stays(next, image, from + 1, to, from);
    }
}

/// A node that the cache holds is still held after more nodes were
/// brought in.
pub proof fn lemma_loaded_stays(cache: CacheView, image: Seq<u8>, from: int, to: int, k: int)
    requires
        cache.wf(),
        0 <= from,
        to <= cache.nodes(),
        0 <= k < cache.nodes(),
        cache.loaded[k],
    ensures
        cache.with_nodes(image, from, to) is Ok ==> cache.with_nodes(image, from, to)->Ok_0.loaded[k],
    decreases to - from,
{
    if from < to && cache.with_nodes(image, from, to) is Ok {
        lemma_with_node_wf(cache, image, from);
        let next = cache.with_node(image, from)->Ok_0;
        lemma_loaded_stays(next, image, from + 1, to, k);
    }
}

/// Laying bytes over the content of a sound cache that holds the table
/// and every node that the write changes leaves a sound cache.
pub proof fn lemma_laid_wf(cache: CacheView, offset: int, bytes: Seq<u8>)
    requires
        cache.wf(),
        cache.table is Some,
        0 <= offset,
        0 < bytes.len(),
        offset + bytes.len() <= MAX_FILE_LEN,
        forall|i: int|
            cache.first_touched(offset) <= i < cache.load_to(offset + bytes.len())
                ==> cache.loaded[i],
    ensures
        cache.laid(offset, bytes).wf(),
{
    let after = cache.laid(offset, bytes);
    let size = cache.content.len() as int;
    let end = offset + bytes.len();
    let first = cache.first_touched(offset);
    let last = CacheView::last_touched(end);
    let old_nodes = cache.nodes();
    let nodes = after.nodes();
    lemma_node_of_byte(after.content.len() as int, end - 1);
    assert(nodes == old_nodes || nodes == last + 1);
    assert(first <= old_nodes);
    assert forall|k: int| 0 <= k < nodes && !#[trigger] after.dirty[k] implies {
        &&& k < node_count(after.stored_length)
        &&& node_len(after.content.len() as int, k) == node_len(after.stored_length, k)
    } by {
        assert(!cache.dirty[k]);
    }
    assert forall|k: int| 0 <= k < nodes && #[trigger] after.dirty[k] implies after.loaded[k] by {
        if k < old_nodes && cache.dirty[k] {
        }
    }
    assert forall|k: int|
        0 <= k < nodes && #[trigger] after.loaded[k] && !after.dirty[k] implies entry(
        after.table->Some_0,
        k,
    ) == node_tag(after.root, after.content, k) by {
        assert(k < old_nodes);
        assert(!cache.dirty[k]);
        assert(cache.loaded[k]);
        lemma_node_bounds(size, k);
        lemma_node_bounds(after.content.len() as int, k);
        lemma_same_node(cache.content, after.content, k);
    }
}

/// Taking a sound cache for clean, once its plan was carried out, leaves
/// a sound cache.
pub proof fn lemma_flushed_wf(cache: CacheView)
    requires
        cache.wf(),
    ensures
        cache.flushed().wf(),
{
    if cache.any_dirty() {
        let after = cache.flushed();
        let live = cache.live_table();
        assert forall|i: int|
            0 <= i < after.nodes() && #[trigger] after.loaded[i] && !after.dirty[i] implies entry(
            after.table->Some_0,
            i,
        ) == node_tag(after.root, after.content, i) by {
            let tag = node_tag(cache.root, cache.content, i);
            assert forall|k: int| 0 <= k < 32 implies entry(live, i)[k] == tag[k] by {
                assert((32 * i + k) / 32 == i);
                assert((32 * i + k) % 32 == k);
                if !cache.dirty[i] {
                    assert(entry(cache.table->Some_0, i)[k] == cache.table->Some_0[32 * i + k]);
                }
            }
            assert(entry(live, i) =~= tag);
        }
        assert forall|i: int| 0 <= i < after.nodes() && #[trigger] after.loaded[i] implies after.table is Some by {}
    }
}

} // verus!
