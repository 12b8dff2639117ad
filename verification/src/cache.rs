//! The node cache of an open file: the checked content nodes that the
//! handle owns, which of them are dirty, and the order in which a flush
//! hands them to the host.
//!
//! The cache keeps the plain content in one buffer as long as the file,
//! with a flag for each node that says whether its part of the buffer was
//! read and checked. A flush writes each dirty node over its old stored
//! form, in place: where a flush is cut short before the metadata node is
//! written, the host is left with new nodes under the old root tag, and
//! the next read of such a node reports the violation. The old content of
//! those nodes is not kept.

use crate::cipher::{
    authenticate, lemma_recover_len, lemma_recover_protect, protect, recover, ProtectionMode,
};
use crate::error::FsError;
use crate::host::HostFs;
use crate::mac::tags_equal;
use crate::sound::{lemma_flushed_wf, lemma_laid_wf, lemma_with_node_wf, lemma_with_table_wf};
use crate::model::{apply_writes, flags, host_image, zeros, CacheView, WriteView};
use crate::range::{append_bytes, overwrite, spec_window, window};
use crate::tree::{
    encode_meta, lemma_decode_meta_node, lemma_node_bounds, lemma_node_of_byte, node_binding,
    node_binding_of, node_count, node_count_of, node_key, node_key_of, node_len, node_len_of,
    node_plain, node_tag, table_tag_of, take32, MAX_FILE_LEN, META_LEN, NODE_SIZE,
};
use vstd::prelude::*;
use vstd::slice::slice_subrange;

verus! {

/// One write that a flush asks of the host.
#[derive(Debug)]
pub struct HostWrite {
    pub offset: usize,
    pub bytes: Vec<u8>,
}

impl View for HostWrite {
    type V = WriteView;

    open spec fn view(&self) -> WriteView {
        WriteView { offset: self.offset as int, bytes: self.bytes@ }
    }
}

/// The writes of a plan, each by its view.
pub open spec fn plan_view(plan: Seq<HostWrite>) -> Seq<WriteView> {
    Seq::new(plan.len(), |i: int| plan[i]@)
}

/// The node cache of one open file.
pub struct NodeCache {
    mode: ProtectionMode,
    nonce: [u8; 32],
    root: [u8; 32],
    stored_length: usize,
    root_tag: [u8; 32],
    table: Option<Vec<u8>>,
    content: Vec<u8>,
    loaded: Vec<bool>,
    dirty: Vec<bool>,
}

impl View for NodeCache {
    type V = CacheView;

    closed spec fn view(&self) -> CacheView {
        CacheView {
            mode: self.mode,
            nonce: self.nonce@,
            root: self.root@,
            stored_length: self.stored_length as int,
            root_tag: self.root_tag@,
            table: match self.table {
                Some(t) => Some(t@),
                None => None,
            },
            content: self.content@,
            loaded: self.loaded@,
            dirty: self.dirty@,
        }
    }
}

/// Reads a window of the file under `path`: nothing where the host holds no
/// such file.
fn image_window(host: &HostFs, path: &str, offset: usize, length: usize) -> (out: Vec<u8>)
    requires
        host.wf(),
    ensures
        out@ == spec_window(host_image(host@, path@), offset as int, length as int),
{
    match host.read(path, offset, length) {
        Ok(bytes) => bytes,
        Err(_) => {
            let none: Vec<u8> = Vec::new();
            assert(none@ =~= spec_window(Seq::<u8>::empty(), offset as int, length as int));
            none
        },
    }
}

/// `n` bytes of zero.
fn zero_bytes(n: usize) -> (out: Vec<u8>)
    ensures
        out@ == zeros(n as int),
{
    let out: Vec<u8> = vec![0u8; n];
    assert(out@ =~= zeros(n as int));
    out
}

/// `n` flags with the given value.
fn flag_vec(n: usize, value: bool) -> (out: Vec<bool>)
    ensures
        out@ == flags(n as int, value),
{
    let out: Vec<bool> = vec![value; n];
    assert(out@ =~= flags(n as int, value));
    out
}

impl NodeCache {
    /// What the cache must hold of itself at all times.
    pub open spec fn wf(&self) -> bool {
        self@.wf()
    }

    /// The cache of a session that has no file open.
    pub fn idle() -> (cache: NodeCache)
        ensures
            cache@ == CacheView::idle(),
    {
        let zero: [u8; 32] = [0u8; 32];
        assert(zero@ =~= zeros(32));
        NodeCache {
            mode: ProtectionMode::Full,
            nonce: zero,
            root: zero,
            stored_length: 0,
            root_tag: zero,
            table: None,
            content: Vec::new(),
            loaded: Vec::new(),
            dirty: Vec::new(),
        }
    }

    /// The cache of a file that was just created.
    pub fn created(mode: ProtectionMode, nonce: [u8; 32], root: [u8; 32]) -> (cache: NodeCache)
        ensures
            cache@ == CacheView::created(mode, nonce@, root@),
            cache.wf(),
    {
        let table: Vec<u8> = Vec::new();
        assert(table@ =~= Seq::<u8>::empty());
        let root_tag = table_tag_of(&root, table.as_slice());
        NodeCache {
            mode,
            nonce,
            root,
            stored_length: 0,
            root_tag,
            table: Some(table),
            content: Vec::new(),
            loaded: Vec::new(),
            dirty: Vec::new(),
        }
    }

    /// The cache of a file that was just opened: nothing is loaded yet.
    pub fn opened(
        mode: ProtectionMode,
        nonce: [u8; 32],
        root: [u8; 32],
        length: usize,
        root_tag: [u8; 32],
    ) -> (cache: NodeCache)
        requires
            length <= MAX_FILE_LEN,
        ensures
            cache@ == CacheView::opened(mode, nonce@, root@, length as int, root_tag@),
            cache.wf(),
    {
        let nodes = node_count_of(length);
        NodeCache {
            mode,
            nonce,
            root,
            stored_length: length,
            root_tag,
            table: None,
            content: zero_bytes(length),
            loaded: flag_vec(nodes, false),
            dirty: flag_vec(nodes, false),
        }
    }

    /// The protection mode of the file.
    pub fn mode(&self) -> (mode: ProtectionMode)
        ensures
            mode == self@.mode,
    {
        self.mode
    }

    /// The length of the content, with all writes made so far.
    pub fn len(&self) -> (n: usize)
        ensures
            n == self@.content.len(),
    {
        self.content.len()
    }

    /// Brings the table into the cache, where it is not there yet: reads
    /// it from the host and checks it against the root tag. A table that
    /// does not verify empties the cache.
    pub fn load_table(&mut self, host: &HostFs, path: &str) -> (res: Result<(), FsError>)
        requires
            old(self).wf(),
            host.wf(),
        ensures
            final(self).wf(),
            match old(self)@.with_table(host_image(host@, path@)) {
                Ok(cache) => res is Ok && final(self)@ == cache,
                Err(e) => res == Err::<(), FsError>(e) && final(self)@ == CacheView::idle(),
            },
    {
        if self.table.is_some() {
            return Ok(());
        }
        proof {
            lemma_with_table_wf(self@, host_image(host@, path@));
        }
        let nodes = node_count_of(self.stored_length);
        let size: usize = 32 * nodes;
        let table = image_window(host, path, META_LEN + self.stored_length, size);
        if table.len() != size {
            *self = NodeCache::idle();
            return Err(FsError::IntegrityViolation);
        }
        let tag = table_tag_of(&self.root, table.as_slice());
        let same = tags_equal(&self.root_tag, &tag);
        proof {
            if self.root_tag@ == tag@ {
                assert(self.root_tag =~= tag);
            }
        }
        if !same {
            *self = NodeCache::idle();
            return Err(FsError::IntegrityViolation);
        }
        self.table = Some(table);
        Ok(())
    }

    /// Brings content node `i` into the cache, where it is not there yet:
    /// reads it from the host and checks it against its tag in the table.
    /// A node that does not verify empties the cache.
    pub fn load_node(&mut self, host: &HostFs, path: &str, i: usize) -> (res: Result<(), FsError>)
        requires
            old(self).wf(),
            host.wf(),
            i < old(self)@.nodes(),
        ensures
            final(self).wf(),
            match old(self)@.with_node(host_image(host@, path@), i as int) {
                Ok(cache) => res is Ok && final(self)@ == cache,
                Err(e) => res == Err::<(), FsError>(e) && final(self)@ == CacheView::idle(),
            },
            res is Ok ==> {
                &&& final(self)@.loaded[i as int]
                &&& final(self)@.content.len() == old(self)@.content.len()
                &&& final(self)@.dirty == old(self)@.dirty
                &&& forall|k: int|
                    0 <= k < old(self)@.nodes() && old(self)@.loaded[k] ==> final(self)@.loaded[k]
            },
    {
        if self.loaded[i] {
            return Ok(());
        }
        proof {
            lemma_with_node_wf(self@, host_image(host@, path@), i as int);
        }
        match self.load_table(host, path) {
            Err(e) => {
                return Err(e);
            },
            Ok(()) => {},
        }
        proof {
            assert(!self@.loaded[i as int]);
            assert(!self@.dirty[i as int]);
            lemma_node_bounds(self.stored_length as int, i as int);
            lemma_node_bounds(self.content@.len() as int, i as int);
        }
        let len = node_len_of(self.stored_length, i);
        let stored = image_window(host, path, META_LEN + i * NODE_SIZE, len);
        if stored.len() != len {
            *self = NodeCache::idle();
            return Err(FsError::IntegrityViolation);
        }
        let tag = match &self.table {
            Some(table) => take32(table.as_slice(), 32 * i),
            None => [0u8; 32],
        };
        let key = node_key_of(&self.root, i);
        let binding = node_binding_of(i);
        match recover(self.mode, stored.as_slice(), &tag, &key, &binding) {
            Ok(plain) => {
                proof {
                    lemma_recover_len(self.mode, key@, binding, stored@, tag@);
                }
                overwrite(&mut self.content, i * NODE_SIZE, plain.as_slice());
                self.loaded.set(i, true);
                Ok(())
            },
            Err(_) => {
                *self = NodeCache::idle();
                Err(FsError::IntegrityViolation)
            },
        }
    }

    /// Brings the content nodes from `from` up to, not including, `to`
    /// into the cache. The first node that does not verify ends the work
    /// and empties the cache.
    pub fn load_nodes(&mut self, host: &HostFs, path: &str, from: usize, to: usize) -> (res: Result<
        (),
        FsError,
    >)
        requires
            old(self).wf(),
            host.wf(),
            to <= old(self)@.nodes(),
        ensures
            final(self).wf(),
            match old(self)@.with_nodes(host_image(host@, path@), from as int, to as int) {
                Ok(cache) => res is Ok && final(self)@ == cache,
                Err(e) => res == Err::<(), FsError>(e) && final(self)@ == CacheView::idle(),
            },
            res is Ok ==> {
                &&& forall|k: int| from <= k < to ==> final(self)@.loaded[k]
                &&& final(self)@.content.len() == old(self)@.content.len()
                &&& final(self)@.dirty == old(self)@.dirty
                &&& forall|k: int|
                    0 <= k < old(self)@.nodes() && old(self)@.loaded[k] ==> final(self)@.loaded[k]
            },
    {
        let ghost image = host_image(host@, path@);
        let mut i: usize = from;
        while i < to
            invariant
                from <= i,
                to <= old(self)@.nodes(),
                self.wf(),
                host.wf(),
                image == host_image(host@, path@),
                self@.content.len() == old(self)@.content.len(),
                self@.dirty == old(self)@.dirty,
                old(self)@.with_nodes(image, from as int, to as int) == self@.with_nodes(
                    image,
                    i as int,
                    to as int,
                ),
                forall|k: int| from <= k < i ==> self@.loaded[k],
                forall|k: int|
                    0 <= k < old(self)@.nodes() && old(self)@.loaded[k] ==> self@.loaded[k],
            decreases to - i,
        {
            match self.load_node(host, path, i) {
                Ok(()) => {},
                Err(e) => {
                    return Err(e);
                },
            }
            i = i + 1;
        }
        Ok(())
    }

    /// Reads at most `length` bytes of the content from `offset` on, fewer
    /// only where the content ends, after bringing the nodes that hold
    /// them into the cache. Where one of them does not verify, nothing is
    /// handed out and the cache is emptied.
    pub fn read(&mut self, host: &HostFs, path: &str, offset: usize, length: usize) -> (res: Result<
        Vec<u8>,
        FsError,
    >)
        requires
            old(self).wf(),
            host.wf(),
        ensures
            final(self).wf(),
            match old(self)@.read(host_image(host@, path@), offset as int, length as int) {
                Ok(found) => res is Ok && final(self)@ == found.0 && res->Ok_0@ == found.1,
                Err(e) => res is Err && res->Err_0 == e && final(self)@ == CacheView::idle(),
            },
    {
        let size: usize = self.content.len();
        let start: usize = if offset < size { offset } else { size };
        let end: usize = if length < size - start { start + length } else { size };
        if start >= end {
            let none: Vec<u8> = Vec::new();
            assert(none@ =~= Seq::<u8>::empty());
            return Ok(none);
        }
        proof {
            lemma_node_of_byte(size as int, end - 1);
        }
        let first: usize = start / NODE_SIZE;
        let to: usize = (end - 1) / NODE_SIZE + 1;
        match self.load_nodes(host, path, first, to) {
            Err(e) => Err(e),
            Ok(()) => {
                let out = window(self.content.as_slice(), start, end - start);
                assert(out@ =~= self.content@.subrange(start as int, end as int));
                Ok(out)
            },
        }
    }

    /// Lays `bytes` over the content at `offset` and marks the nodes that
    /// this changes or adds, in a cache that holds the table and every
    /// node that the write changes.
    fn lay(&mut self, offset: usize, bytes: &[u8])
        requires
            old(self).wf(),
            old(self)@.table is Some,
            0 < bytes@.len(),
            offset + bytes@.len() <= MAX_FILE_LEN,
            forall|i: int|
                old(self)@.first_touched(offset as int) <= i < old(self)@.load_to(
                    offset + bytes@.len(),
                ) ==> old(self)@.loaded[i],
        ensures
            final(self).wf(),
            final(self)@ == old(self)@.laid(offset as int, bytes@),
    {
        let ghost before = self@;
        let size: usize = self.content.len();
        let start: usize = if offset < size { offset } else { size };
        let end: usize = offset + bytes.len();
        let first: usize = start / NODE_SIZE;
        let last: usize = (end - 1) / NODE_SIZE;
        let old_nodes: usize = self.loaded.len();
        overwrite(&mut self.content, offset, bytes);
        let nodes: usize = node_count_of(self.content.len());
        let ghost mid = self@;
        while self.loaded.len() < nodes
            invariant
                self@ == (CacheView { loaded: self@.loaded, dirty: self@.dirty, ..mid }),
                before.loaded.len() == old_nodes,
                before.dirty.len() == old_nodes,
                old_nodes <= self.loaded@.len() <= nodes,
                self.loaded@.len() == self.dirty@.len(),
                forall|i: int| 0 <= i < old_nodes ==> self.loaded@[i] == before.loaded[i],
                forall|i: int| 0 <= i < old_nodes ==> self.dirty@[i] == before.dirty[i],
                forall|i: int| old_nodes <= i < self.loaded@.len() ==> self.loaded@[i],
                forall|i: int| old_nodes <= i < self.loaded@.len() ==> self.dirty@[i],
            decreases nodes - self.loaded@.len(),
        {
            self.loaded.push(true);
            self.dirty.push(true);
        }
        proof {
            lemma_node_of_byte(self.content@.len() as int, end - 1);
        }
        let mut i: usize = first;
        while i <= last
            invariant
                self@ == (CacheView { loaded: self@.loaded, dirty: self@.dirty, ..mid }),
                before.loaded.len() == old_nodes,
                before.dirty.len() == old_nodes,
                old_nodes <= nodes,
                first <= i <= last + 1,
                last < nodes,
                nodes == self.loaded@.len(),
                nodes == self.dirty@.len(),
                forall|k: int| 0 <= k < old_nodes ==> self.loaded@[k] == before.loaded[k],
                forall|k: int| old_nodes <= k < nodes ==> self.loaded@[k],
                forall|k: int|
                    0 <= k < nodes ==> #[trigger] self.dirty@[k] == ((first <= k < i) || (k
                        < old_nodes && before.dirty[k]) || k >= old_nodes),
            decreases last + 1 - i,
        {
            self.dirty.set(i, true);
            i = i + 1;
        }
        proof {
            let target = before.laid(offset as int, bytes@);
            assert(old_nodes == node_count(size as int));
            assert(self.content@.len() == (if end > size { end } else { size }));
            assert(nodes == old_nodes || nodes == last + 1);
            assert(first <= old_nodes);
            assert(self@.loaded =~= target.loaded);
            assert(self@.dirty =~= target.dirty);
            assert(self@ == target);
            lemma_laid_wf(before, offset as int, bytes@);
        }
    }

    /// Writes `bytes` into the content at `offset`, after bringing the
    /// nodes that the write changes into the cache. A gap between the old
    /// end of the content and `offset` reads as zeros afterwards, and a
    /// write without bytes changes nothing. Where a node does not verify,
    /// nothing is written and the cache is emptied. The write must end
    /// within the longest content that a file can hold.
    pub fn write(&mut self, host: &HostFs, path: &str, offset: usize, bytes: &[u8]) -> (res: Result<
        (),
        FsError,
    >)
        requires
            old(self).wf(),
            host.wf(),
            bytes@.len() > 0 ==> offset + bytes@.len() <= MAX_FILE_LEN,
        ensures
            final(self).wf(),
            match old(self)@.write(host_image(host@, path@), offset as int, bytes@) {
                Ok(cache) => res is Ok && final(self)@ == cache,
                Err(e) => res == Err::<(), FsError>(e) && final(self)@ == CacheView::idle(),
            },
    {
        if bytes.len() == 0 {
            return Ok(());
        }
        let size: usize = self.content.len();
        let start: usize = if offset < size { offset } else { size };
        let last: usize = (offset + bytes.len() - 1) / NODE_SIZE;
        let old_nodes: usize = self.loaded.len();
        let first: usize = start / NODE_SIZE;
        let load_to: usize = if last + 1 < old_nodes { last + 1 } else { old_nodes };
        match self.load_nodes(host, path, first, load_to) {
            Err(e) => {
                return Err(e);
            },
            Ok(()) => {},
        }
        match self.load_table(host, path) {
            Err(e) => {
                return Err(e);
            },
            Ok(()) => {},
        }
        self.lay(offset, bytes);
        Ok(())
    }

    /// The plain bytes of content node `i`, as the cache holds them.
    fn node_bytes(&self, i: usize) -> (plain: &[u8])
        requires
            self.wf(),
            i < self@.nodes(),
        ensures
            plain@ == node_plain(self@.content, i as int),
    {
        proof {
            lemma_node_bounds(self.content@.len() as int, i as int);
        }
        let len = node_len_of(self.content.len(), i);
        slice_subrange(self.content.as_slice(), i * NODE_SIZE, i * NODE_SIZE + len)
    }

    /// The table as it stands with the dirty nodes tagged anew, and
    /// whether any node is dirty at all.
    fn live_table(&self) -> (out: (Vec<u8>, bool))
        requires
            self.wf(),
        ensures
            out.1 == self@.any_dirty(),
            out.1 ==> out.0@ == self@.live_table(),
    {
        let mut table: Vec<u8> = Vec::new();
        let mut any: bool = false;
        if self.table.is_none() {
            proof {
                if self@.any_dirty() {
                    let k = choose|k: int| 0 <= k < self@.dirty.len() && #[trigger] self@.dirty[k];
                    assert(self@.loaded[k]);
                }
            }
            return (table, any);
        }
        let nodes: usize = self.dirty.len();
        let mut i: usize = 0;
        while i < nodes
            invariant
                self.wf(),
                self@.table is Some,
                nodes == self@.nodes(),
                i <= nodes,
                table@.len() == 32 * i,
                any == (exists|k: int| 0 <= k < i && #[trigger] self@.dirty[k]),
                forall|k: int|
                    0 <= k < 32 * i ==> #[trigger] table@[k] == self@.live_table()[k],
            decreases nodes - i,
        {
            let ghost before = table@;
            let ghost live = self@.live_table();
            proof {
                lemma_node_bounds(self.content@.len() as int, i as int);
            }
            if self.dirty[i] {
                any = true;
                let key = node_key_of(&self.root, i);
                let binding = node_binding_of(i);
                let tag = authenticate(self.node_bytes(i), &key, &binding);
                append_bytes(&mut table, tag.as_slice());
                assert(tag@ == node_tag(self@.root, self@.content, i as int));
                assert forall|k: int| 32 * i <= k < 32 * (i + 1) implies #[trigger] table@[k]
                    == live[k] by {
                    assert(k / 32 == i as int);
                    assert(k % 32 == k - 32 * i);
                    assert(table@[k] == tag@[k - 32 * i]);
                }
            } else {
                assert(!self@.dirty[i as int]);
                let entry = match &self.table {
                    Some(stored) => take32(stored.as_slice(), 32 * i),
                    None => [0u8; 32],
                };
                append_bytes(&mut table, entry.as_slice());
                assert forall|k: int| 32 * i <= k < 32 * (i + 1) implies #[trigger] table@[k]
                    == live[k] by {
                    assert(k / 32 == i as int);
                    assert(table@[k] == entry@[k - 32 * i]);
                }
            }
            proof {
                assert forall|k: int| 0 <= k < 32 * (i + 1) implies #[trigger] table@[k]
                    == live[k] by {
                    if k < 32 * i {
                        assert(table@[k] == before[k]);
                    }
                }
            }
            i = i + 1;
        }
        proof {
            if any {
                assert(table@ =~= self@.live_table());
            }
        }
        (table, any)
    }

    /// The root tag as it stands with all writes made so far, flushed or
    /// not.
    pub fn live_tag(&self) -> (tag: [u8; 32])
        requires
            self.wf(),
        ensures
            tag@ == self@.live_tag(),
    {
        let (table, any) = self.live_table();
        if any {
            table_tag_of(&self.root, table.as_slice())
        } else {
            self.root_tag
        }
    }

    /// The writes of the dirty content nodes, in the order of the nodes.
    fn node_writes(&self) -> (writes: Vec<HostWrite>)
        requires
            self.wf(),
        ensures
            plan_view(writes@) == self@.node_writes(self@.nodes()),
            forall|j: int|
                0 <= j < writes@.len() ==> (#[trigger] writes@[j]).offset + writes@[j].bytes@.len()
                    <= META_LEN + MAX_FILE_LEN,
    {
        let mut writes: Vec<HostWrite> = Vec::new();
        let nodes: usize = self.dirty.len();
        let mut i: usize = 0;
        assert(plan_view(writes@) =~= self@.node_writes(0));
        while i < nodes
            invariant
                self.wf(),
                nodes == self@.nodes(),
                i <= nodes,
                plan_view(writes@) == self@.node_writes(i as int),
                forall|j: int|
                    0 <= j < writes@.len() ==> (#[trigger] writes@[j]).offset
                        + writes@[j].bytes@.len() <= META_LEN + MAX_FILE_LEN,
            decreases nodes - i,
        {
            if self.dirty[i] {
                proof {
                    lemma_node_bounds(self.content@.len() as int, i as int);
                    lemma_recover_protect(
                        self.mode,
                        node_key(self.root@, i as int),
                        node_binding(i as int),
                        node_plain(self.content@, i as int),
                    );
                }
                let key = node_key_of(&self.root, i);
                let binding = node_binding_of(i);
                let (stored, _tag) = protect(self.mode, self.node_bytes(i), &key, &binding);
                let ghost before = writes@;
                writes.push(HostWrite { offset: META_LEN + i * NODE_SIZE, bytes: stored });
                assert(plan_view(writes@) =~= plan_view(before).push(writes@[before.len() as int]@));
            }
            i = i + 1;
        }
        writes
    }

    /// The writes that a flush asks of the host, in their order: the dirty
    /// content nodes, then the table above them, and the metadata node
    /// last.
    pub fn plan(&self) -> (plan: Vec<HostWrite>)
        requires
            self.wf(),
        ensures
            plan_view(plan@) == self@.plan(),
            forall|j: int|
                0 <= j < plan@.len() ==> (#[trigger] plan@[j]).offset + plan@[j].bytes@.len() <= 2
                    * MAX_FILE_LEN,
    {
        let (table, any) = self.live_table();
        if !any {
            let none: Vec<HostWrite> = Vec::new();
            assert(plan_view(none@) =~= Seq::<WriteView>::empty());
            return none;
        }
        let mut plan = self.node_writes();
        let root_tag = table_tag_of(&self.root, table.as_slice());
        let meta = encode_meta(self.mode, &self.nonce, &self.root, self.content.len(), &root_tag);
        proof {
            lemma_decode_meta_node(
                self.mode,
                self.nonce@,
                self.root@,
                self.content@.len() as int,
                root_tag@,
            );
        }
        let ghost nodes_only = plan@;
        plan.push(HostWrite { offset: META_LEN + self.content.len(), bytes: table });
        let ghost with_table = plan@;
        plan.push(HostWrite { offset: 0, bytes: meta });
        proof {
            assert(plan_view(with_table) =~= plan_view(nodes_only).push(self@.table_write()));
            assert(plan_view(plan@) =~= plan_view(with_table).push(self@.meta_write()));
        }
        plan
    }

    /// Hands the writes of the plan to the host in their order and, once
    /// the metadata node is written, takes the cache for clean. Where the
    /// host no longer holds the file nothing is written and nothing
    /// changes.
    pub fn flush(&mut self, host: &mut HostFs, path: &str) -> (res: Result<(), FsError>)
        requires
            old(self).wf(),
            old(host).wf(),
        ensures
            final(self).wf(),
            final(host).wf(),
            forall|p: Seq<char>| final(host).refuses(p) == old(host).refuses(p),
            res == (if old(host)@.contains_key(path@) {
                Ok::<(), FsError>(())
            } else {
                Err::<(), FsError>(FsError::Io)
            }),
            res is Ok ==> final(self)@ == old(self)@.flushed() && final(host)@ == old(host)@.insert(
                path@,
                apply_writes(old(host)@[path@], old(self)@.plan()),
            ),
            res is Err ==> final(self)@ == old(self)@ && final(host)@ == old(host)@,
    {
        if !host.contains(path) {
            return Err(FsError::Io);
        }
        proof {
            lemma_flushed_wf(self@);
        }
        let plan = self.plan();
        let ghost image = host@[path@];
        let ghost writes = plan_view(plan@);
        let mut j: usize = 0;
        assert(writes.subrange(0, 0) =~= Seq::<WriteView>::empty());
        assert(host@ =~= old(host)@.insert(path@, image));
        while j < plan.len()
            invariant
                j <= plan@.len(),
                host.wf(),
                writes == plan_view(plan@),
                forall|p: Seq<char>| host.refuses(p) == old(host).refuses(p),
                forall|k: int|
                    0 <= k < plan@.len() ==> (#[trigger] plan@[k]).offset + plan@[k].bytes@.len()
                        <= 2 * MAX_FILE_LEN,
                host@ == old(host)@.insert(
                    path@,
                    apply_writes(image, writes.subrange(0, j as int)),
                ),
            decreases plan@.len() - j,
        {
            let ghost before = host@;
            match host.write(path, plan[j].offset, plan[j].bytes.as_slice()) {
                Ok(()) => {},
                Err(_) => {
                    assert(false);
                    return Err(FsError::Io);
                },
            }
            proof {
                let upto = writes.subrange(0, j as int + 1);
                assert(upto.drop_last() =~= writes.subrange(0, j as int));
                assert(upto.last() == plan@[j as int]@);
                assert(host@ =~= old(host)@.insert(
                    path@,
                    apply_writes(image, upto),
                ));
            }
            j = j + 1;
        }
        assert(writes.subrange(0, plan@.len() as int) =~= writes);
        if plan.len() > 0 {
            let (table, _any) = self.live_table();
            let root_tag = table_tag_of(&self.root, table.as_slice());
            self.stored_length = self.content.len();
            self.root_tag = root_tag;
            self.table = Some(table);
            self.dirty = flag_vec(self.loaded.len(), false);
        }
        Ok(())
    }
}

} // verus!
