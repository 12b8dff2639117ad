//! The mathematical model of an open file: what the node cache holds, and
//! what each operation makes of it and of the image that the host holds.
//! The executable cache and session are proved to follow this model step by
//! step, and the laws of the store are theorems about it.

use crate::cipher::{spec_recover, ProtectionMode};
use crate::error::FsError;
use crate::host::spec_remove;
use crate::identity::{spec_root_secret, IdentityContext};
use crate::path::path_accepted;
use crate::range::{spec_overwrite, spec_window};
use crate::tree::{
    meta_node, node_binding, node_count, node_key, node_len, node_stored, node_tag,
    spec_decode_meta, table_tag, MAX_FILE_LEN, META_LEN, NODE_SIZE,
};
use vstd::prelude::*;

verus! {

/// One write that a flush asks of the host: `bytes`, to be laid over the
/// file from `offset` on.
pub struct WriteView {
    pub offset: int,
    pub bytes: Seq<u8>,
}

/// What the node cache of an open file holds.
pub struct CacheView {
    /// The protection mode of the file.
    pub mode: ProtectionMode,
    /// The nonce in the file's metadata node.
    pub nonce: Seq<u8>,
    /// The root secret of the file.
    pub root: Seq<u8>,
    /// The length of the content as the metadata node on the host gives it.
    pub stored_length: int,
    /// The root tag as the metadata node on the host gives it.
    pub root_tag: Seq<u8>,
    /// The table of the stored nodes' tags, once it was read and checked.
    pub table: Option<Seq<u8>>,
    /// The plain content. The bytes of a node that is not loaded are zero.
    pub content: Seq<u8>,
    /// For each content node, whether the cache holds its checked bytes.
    pub loaded: Seq<bool>,
    /// For each content node, whether its bytes differ from the host's.
    pub dirty: Seq<bool>,
}

/// `n` bytes of zero.
pub open spec fn zeros(n: int) -> Seq<u8> {
    Seq::new(n as nat, |k: int| 0u8)
}

/// `n` flags with the given value.
pub open spec fn flags(n: int, value: bool) -> Seq<bool> {
    Seq::new(n as nat, |k: int| value)
}

/// The tag of content node `i` in a table.
pub open spec fn entry(table: Seq<u8>, i: int) -> Seq<u8> {
    table.subrange(32 * i, 32 * i + 32)
}

/// The file under `path` as the host holds it: nothing where it holds none.
pub open spec fn host_image(host: Map<Seq<char>, Seq<u8>>, path: Seq<char>) -> Seq<u8> {
    if host.contains_key(path) {
        host[path]
    } else {
        Seq::<u8>::empty()
    }
}

/// The image after the writes of a plan were made in their order.
pub open spec fn apply_writes(image: Seq<u8>, plan: Seq<WriteView>) -> Seq<u8>
    decreases plan.len(),
{
    if plan.len() == 0 {
        image
    } else {
        let before = apply_writes(image, plan.drop_last());
        spec_overwrite(before, plan.last().offset, plan.last().bytes)
    }
}

impl CacheView {
    /// The cache of a session that has no file open.
    pub open spec fn idle() -> CacheView {
        CacheView {
            mode: ProtectionMode::Full,
            nonce: zeros(32),
            root: zeros(32),
            stored_length: 0,
            root_tag: zeros(32),
            table: None,
            content: Seq::<u8>::empty(),
            loaded: Seq::<bool>::empty(),
            dirty: Seq::<bool>::empty(),
        }
    }

    /// The cache of a file that was just created.
    pub open spec fn created(mode: ProtectionMode, nonce: Seq<u8>, root: Seq<u8>) -> CacheView {
        CacheView {
            mode,
            nonce,
            root,
            stored_length: 0,
            root_tag: table_tag(root, Seq::<u8>::empty()),
            table: Some(Seq::<u8>::empty()),
            content: Seq::<u8>::empty(),
            loaded: Seq::<bool>::empty(),
            dirty: Seq::<bool>::empty(),
        }
    }

    /// The cache of a file that was just opened: nothing is loaded yet.
    pub open spec fn opened(
        mode: ProtectionMode,
        nonce: Seq<u8>,
        root: Seq<u8>,
        length: int,
        root_tag: Seq<u8>,
    ) -> CacheView {
        CacheView {
            mode,
            nonce,
            root,
            stored_length: length,
            root_tag,
            table: None,
            content: zeros(length),
            loaded: flags(node_count(length), false),
            dirty: flags(node_count(length), false),
        }
    }

    /// The number of content nodes of the file as the cache has it.
    pub open spec fn nodes(self) -> int {
        node_count(self.content.len() as int)
    }

    /// What the cache must hold of itself at all times.
    pub open spec fn wf(self) -> bool {
        &&& self.nonce.len() == 32
        &&& self.root.len() == 32
        &&& self.root_tag.len() == 32
        &&& 0 <= self.stored_length <= self.content.len() <= MAX_FILE_LEN
        &&& self.loaded.len() == self.nodes()
        &&& self.dirty.len() == self.nodes()
        &&& forall|i: int| 0 <= i < self.nodes() && #[trigger] self.dirty[i] ==> self.loaded[i]
        &&& forall|i: int|
            0 <= i < self.nodes() && !#[trigger] self.dirty[i] ==> {
                &&& i < node_count(self.stored_length)
                &&& node_len(self.content.len() as int, i) == node_len(self.stored_length, i)
            }
        &&& forall|i: int| 0 <= i < self.nodes() && #[trigger] self.loaded[i] ==> self.table is Some
        &&& self.table is Some ==> {
            &&& self.table->Some_0.len() == 32 * node_count(self.stored_length)
            &&& self.root_tag == table_tag(self.root, self.table->Some_0)
        }
        &&& self.authentic()
    }

    /// Every node that the cache holds as the host has it carries the tag
    /// that the table gives for it: what is loaded and not dirty was
    /// checked against the table, and the table against the root tag.
    pub open spec fn authentic(self) -> bool {
        forall|i: int|
            0 <= i < self.nodes() && #[trigger] self.loaded[i] && !self.dirty[i] ==> entry(
                self.table->Some_0,
                i,
            ) == node_tag(self.root, self.content, i)
    }

    /// The cache with the table in it: read from the image and checked
    /// against the root tag, where the cache did not hold it yet.
    pub open spec fn with_table(self, image: Seq<u8>) -> Result<CacheView, FsError> {
        if self.table is Some {
            Ok(self)
        } else {
            let size = 32 * node_count(self.stored_length);
            let table = spec_window(image, META_LEN + self.stored_length, size);
            if table.len() == size && self.root_tag == table_tag(self.root, table) {
                Ok(CacheView { table: Some(table), ..self })
            } else {
                Err(FsError::IntegrityViolation)
            }
        }
    }

    /// The cache with content node `i` in it: read from the image and
    /// checked against its tag in the table, where the cache did not hold
    /// it yet.
    pub open spec fn with_node(self, image: Seq<u8>, i: int) -> Result<CacheView, FsError> {
        if self.loaded[i] {
            Ok(self)
        } else {
            match self.with_table(image) {
                Err(e) => Err(e),
                Ok(cache) => {
                    let len = node_len(self.stored_length, i);
                    let stored = spec_window(image, META_LEN + i * NODE_SIZE, len);
                    let tag = entry(cache.table->Some_0, i);
                    if stored.len() != len {
                        Err(FsError::IntegrityViolation)
                    } else {
                        match spec_recover(self.mode, node_key(self.root, i), node_binding(i), stored, tag) {
                            Ok(plain) => Ok(
                                CacheView {
                                    content: spec_overwrite(cache.content, i * NODE_SIZE, plain),
                                    loaded: cache.loaded.update(i, true),
                                    ..cache
                                },
                            ),
                            Err(_) => Err(FsError::IntegrityViolation),
                        }
                    }
                },
            }
        }
    }

    /// The cache with the content nodes from `from` up to, not including,
    /// `to` in it. The first node that does not verify ends the work.
    pub open spec fn with_nodes(self, image: Seq<u8>, from: int, to: int) -> Result<
        CacheView,
        FsError,
    >
        decreases to - from,
    {
        if from >= to {
            Ok(self)
        } else {
            match self.with_node(image, from) {
                Ok(cache) => cache.with_nodes(image, from + 1, to),
                Err(e) => Err(e),
            }
        }
    }

    /// What a read of `length` bytes at `offset` finds: the cache with the
    /// nodes that the read touches in it, and the bytes, fewer than asked
    /// for only where the content ends.
    pub open spec fn read(self, image: Seq<u8>, offset: int, length: int) -> Result<
        (CacheView, Seq<u8>),
        FsError,
    > {
        let size = self.content.len() as int;
        let start = if offset < size { offset } else { size };
        let end = if offset + length < size { offset + length } else { size };
        if start >= end {
            Ok((self, Seq::<u8>::empty()))
        } else {
            match self.with_nodes(image, start / (NODE_SIZE as int), (end - 1) / (NODE_SIZE as int) + 1) {
                Ok(cache) => Ok((cache, cache.content.subrange(start, end))),
                Err(e) => Err(e),
            }
        }
    }

    /// The first content node that a write at `offset` changes.
    pub open spec fn first_touched(self, offset: int) -> int {
        let size = self.content.len() as int;
        (if offset < size { offset } else { size }) / (NODE_SIZE as int)
    }

    /// The last content node that a write ending before `end` changes.
    pub open spec fn last_touched(end: int) -> int {
        (end - 1) / (NODE_SIZE as int)
    }

    /// The cache after `bytes` were laid over the content at `offset`: the
    /// nodes that the write changes are dirty, and those that it adds are
    /// loaded and dirty.
    pub open spec fn laid(self, offset: int, bytes: Seq<u8>) -> CacheView {
        let first = self.first_touched(offset);
        let last = Self::last_touched(offset + bytes.len());
        let old_nodes = self.nodes();
        let content = spec_overwrite(self.content, offset, bytes);
        let nodes = node_count(content.len() as int);
        CacheView {
            content,
            loaded: Seq::new(nodes as nat, |i: int| i >= old_nodes || self.loaded[i]),
            dirty: Seq::new(
                nodes as nat,
                |i: int| first <= i <= last || (i < old_nodes && self.dirty[i]),
            ),
            ..self
        }
    }

    /// How far the nodes must be loaded before a write at `offset` that
    /// ends before `end`: up to the last node that the write changes, as
    /// far as the file has it.
    pub open spec fn load_to(self, end: int) -> int {
        let last = Self::last_touched(end);
        if last + 1 < self.nodes() {
            last + 1
        } else {
            self.nodes()
        }
    }

    /// The cache after `bytes` were written at `offset`, for a write that
    /// ends within the longest content: the nodes that the write changes
    /// are loaded first, then changed and marked dirty. A write without
    /// bytes changes nothing, wherever it is made.
    pub open spec fn write(self, image: Seq<u8>, offset: int, bytes: Seq<u8>) -> Result<
        CacheView,
        FsError,
    > {
        if bytes.len() == 0 {
            Ok(self)
        } else {
            let first = self.first_touched(offset);
            match self.with_nodes(image, first, self.load_to(offset + bytes.len())) {
                Err(e) => Err(e),
                Ok(loaded) => match loaded.with_table(image) {
                    Err(e) => Err(e),
                    Ok(cache) => Ok(cache.laid(offset, bytes)),
                },
            }
        }
    }

    /// Some content node is dirty.
    pub open spec fn any_dirty(self) -> bool {
        exists|i: int| 0 <= i < self.dirty.len() && #[trigger] self.dirty[i]
    }

    /// The table as it stands with the dirty nodes tagged anew.
    pub open spec fn live_table(self) -> Seq<u8> {
        Seq::new(
            (32 * self.nodes()) as nat,
            |k: int|
                if self.dirty[k / 32] {
                    node_tag(self.root, self.content, k / 32)[k % 32]
                } else {
                    self.table->Some_0[k]
                },
        )
    }

    /// The root tag as it stands with all writes made so far.
    pub open spec fn live_tag(self) -> Seq<u8> {
        if self.any_dirty() {
            table_tag(self.root, self.live_table())
        } else {
            self.root_tag
        }
    }

    /// The writes of the dirty nodes among the first `upto`, in the order
    /// of the nodes.
    pub open spec fn node_writes(self, upto: int) -> Seq<WriteView>
        decreases upto,
    {
        if upto <= 0 {
            Seq::<WriteView>::empty()
        } else if self.dirty[upto - 1] {
            self.node_writes(upto - 1).push(
                WriteView {
                    offset: META_LEN + (upto - 1) * NODE_SIZE,
                    bytes: node_stored(self.mode, self.root, self.content, upto - 1),
                },
            )
        } else {
            self.node_writes(upto - 1)
        }
    }

    /// The write of the table, which follows the content nodes.
    pub open spec fn table_write(self) -> WriteView {
        WriteView { offset: META_LEN + self.content.len(), bytes: self.live_table() }
    }

    /// The write of the metadata node, at the head of the file.
    pub open spec fn meta_write(self) -> WriteView {
        WriteView {
            offset: 0,
            bytes: meta_node(
                self.mode,
                self.nonce,
                self.root,
                self.content.len() as int,
                table_tag(self.root, self.live_table()),
            ),
        }
    }

    /// The writes that a flush asks of the host, in their order: the dirty
    /// content nodes, then the table above them, and the metadata node
    /// last. Where nothing is dirty there is nothing to write.
    pub open spec fn plan(self) -> Seq<WriteView> {
        if self.any_dirty() {
            self.node_writes(self.nodes()).push(self.table_write()).push(self.meta_write())
        } else {
            Seq::<WriteView>::empty()
        }
    }

    /// The cache after its plan was carried out: nothing is dirty, and the
    /// stored length, the table and the root tag are those of the content.
    pub open spec fn flushed(self) -> CacheView {
        if self.any_dirty() {
            CacheView {
                stored_length: self.content.len() as int,
                root_tag: table_tag(self.root, self.live_table()),
                table: Some(self.live_table()),
                dirty: flags(self.nodes(), false),
                ..self
            }
        } else {
            self
        }
    }
}

/// Where a session stands.
#[derive(Clone, Copy, Debug, PartialEq, Eq, Structural)]
pub enum SessionState {
    /// No file was opened or created yet.
    Fresh,
    /// A file is open.
    Open,
    /// A tag did not verify or no secret could be derived: only `close` is
    /// left, and every other operation fails with the error kept here.
    Faulted(FsError),
    /// The session has ended.
    Closed,
}

/// What a session holds: its state, the identity it was made with, and,
/// while a file is open, the path and the node cache of that file.
pub struct SessionView {
    pub state: SessionState,
    pub identity: IdentityContext,
    pub path: Seq<char>,
    pub cache: CacheView,
}

impl SessionView {
    /// A session that has not opened anything yet.
    pub open spec fn fresh(identity: IdentityContext) -> SessionView {
        SessionView {
            state: SessionState::Fresh,
            identity,
            path: Seq::<char>::empty(),
            cache: CacheView::idle(),
        }
    }

    /// The session without its file, in the given state: the cache is
    /// released and with it all that was not flushed.
    pub open spec fn ended(self, state: SessionState) -> SessionView {
        SessionView {
            state,
            identity: self.identity,
            path: Seq::<char>::empty(),
            cache: CacheView::idle(),
        }
    }

    /// What a session must hold of itself at all times.
    pub open spec fn wf(self) -> bool {
        if self.state == SessionState::Open {
            self.cache.wf() && path_accepted(self.path)
        } else {
            self == self.ended(self.state)
        }
    }

    /// Whether the session lets an operation on its file through, and the
    /// error with which it turns it away.
    pub open spec fn gate(self) -> Result<(), FsError> {
        match self.state {
            SessionState::Open => Ok(()),
            SessionState::Faulted(e) => Err(e),
            _ => Err(FsError::PermissionDenied),
        }
    }

    /// The file of the session as the host holds it.
    pub open spec fn image(self, host: Map<Seq<char>, Seq<u8>>) -> Seq<u8> {
        host_image(host, self.path)
    }

    /// `create`: the session, the host's files and the result afterwards.
    /// `refused` says whether the host refuses the path.
    pub open spec fn create(
        self,
        host: Map<Seq<char>, Seq<u8>>,
        refused: bool,
        path: Seq<char>,
        mode: ProtectionMode,
        nonce: Seq<u8>,
    ) -> (SessionView, Map<Seq<char>, Seq<u8>>, Result<(), FsError>) {
        if self.state != SessionState::Fresh {
            (self, host, Err(FsError::PermissionDenied))
        } else if !path_accepted(path) {
            (self, host, Err(FsError::InvalidPath))
        } else if refused {
            (self, host, Err(FsError::PermissionDenied))
        } else if host.contains_key(path) {
            (self, host, Err(FsError::AlreadyExists))
        } else {
            match spec_root_secret(self.identity, nonce) {
                Err(e) => (self.ended(SessionState::Faulted(e)), host, Err(e)),
                Ok(root) => {
                    let cache = CacheView::created(mode, nonce, root@);
                    (
                        SessionView { state: SessionState::Open, identity: self.identity, path, cache },
                        host.insert(path, meta_node(mode, nonce, root@, 0, cache.root_tag)),
                        Ok(()),
                    )
                },
            }
        }
    }

    /// `open`: the session and the result afterwards. `refused` says
    /// whether the host refuses the path.
    pub open spec fn open(
        self,
        host: Map<Seq<char>, Seq<u8>>,
        refused: bool,
        path: Seq<char>,
        mode: ProtectionMode,
    ) -> (SessionView, Result<(), FsError>) {
        if self.state != SessionState::Fresh {
            (self, Err(FsError::PermissionDenied))
        } else if !path_accepted(path) {
            (self, Err(FsError::InvalidPath))
        } else if refused {
            (self, Err(FsError::PermissionDenied))
        } else if !host.contains_key(path) {
            (self, Err(FsError::NotFound))
        } else {
            let meta = spec_window(host[path], 0, META_LEN as int);
            if meta.len() < META_LEN {
                (
                    self.ended(SessionState::Faulted(FsError::IntegrityViolation)),
                    Err(FsError::IntegrityViolation),
                )
            } else {
                let nonce = meta.subrange(1, 33);
                match spec_root_secret(self.identity, nonce) {
                    Err(e) => (self.ended(SessionState::Faulted(e)), Err(e)),
                    Ok(root) => match spec_decode_meta(mode, root@, meta) {
                        Err(_) => (
                            self.ended(SessionState::Faulted(FsError::IntegrityViolation)),
                            Err(FsError::IntegrityViolation),
                        ),
                        Ok(found) => (
                            SessionView {
                                state: SessionState::Open,
                                identity: self.identity,
                                path,
                                cache: CacheView::opened(mode, nonce, root@, found.0, found.1),
                            },
                            Ok(()),
                        ),
                    },
                }
            }
        }
    }

    /// `read`: the session and the result afterwards.
    pub open spec fn read(self, host: Map<Seq<char>, Seq<u8>>, offset: int, length: int) -> (
        SessionView,
        Result<Seq<u8>, FsError>,
    ) {
        match self.gate() {
            Err(e) => (self, Err(e)),
            Ok(()) => match self.cache.read(self.image(host), offset, length) {
                Ok(found) => (SessionView { cache: found.0, ..self }, Ok(found.1)),
                Err(e) => (self.ended(SessionState::Faulted(e)), Err(e)),
            },
        }
    }

    /// `write`: the session and the result afterwards, the number of bytes
    /// written. A write that would pass the longest content fails as a
    /// whole and changes nothing.
    pub open spec fn write(self, host: Map<Seq<char>, Seq<u8>>, offset: int, bytes: Seq<u8>) -> (
        SessionView,
        Result<int, FsError>,
    ) {
        match self.gate() {
            Err(e) => (self, Err(e)),
            Ok(()) => if bytes.len() > 0 && offset + bytes.len() > MAX_FILE_LEN {
                (self, Err(FsError::Io))
            } else {
                match self.cache.write(self.image(host), offset, bytes) {
                    Ok(cache) => (SessionView { cache, ..self }, Ok(bytes.len() as int)),
                    Err(e) => (self.ended(SessionState::Faulted(e)), Err(e)),
                }
            },
        }
    }

    /// The session after the writes of `writes` were made one after the
    /// other, whatever each of them returned.
    pub open spec fn write_all(self, host: Map<Seq<char>, Seq<u8>>, writes: Seq<WriteView>) -> SessionView
        decreases writes.len(),
    {
        if writes.len() == 0 {
            self
        } else {
            self.write_all(host, writes.drop_last()).write(
                host,
                writes.last().offset,
                writes.last().bytes,
            ).0
        }
    }

    /// `flush`: the session, the host's files and the result afterwards.
    pub open spec fn flush(self, host: Map<Seq<char>, Seq<u8>>) -> (
        SessionView,
        Map<Seq<char>, Seq<u8>>,
        Result<(), FsError>,
    ) {
        match self.gate() {
            Err(e) => (self, host, Err(e)),
            Ok(()) => if host.contains_key(self.path) {
                (
                    SessionView { cache: self.cache.flushed(), ..self },
                    host.insert(self.path, apply_writes(host[self.path], self.cache.plan())),
                    Ok(()),
                )
            } else {
                (self, host, Err(FsError::Io))
            },
        }
    }

    /// `close`: the session and the host's files afterwards. An open file
    /// is flushed as far as the host allows; whatever the state was, the
    /// session has ended.
    pub open spec fn close(self, host: Map<Seq<char>, Seq<u8>>) -> (
        SessionView,
        Map<Seq<char>, Seq<u8>>,
    ) {
        (self.ended(SessionState::Closed), self.flush(host).1)
    }

    /// `get_authentication_tag`: the root tag with all writes made so far,
    /// for an open file in integrity-only mode.
    pub open spec fn authentication_tag(self) -> Result<Seq<u8>, FsError> {
        match self.gate() {
            Err(e) => Err(e),
            Ok(()) => if self.cache.mode == ProtectionMode::IntegrityOnly {
                Ok(self.cache.live_tag())
            } else {
                Err(FsError::PermissionDenied)
            },
        }
    }
}

/// `remove`: the host's files and the result afterwards. `refused` says
/// whether the host refuses the path.
pub open spec fn spec_remove_file(host: Map<Seq<char>, Seq<u8>>, refused: bool, path: Seq<char>) -> (
    Map<Seq<char>, Seq<u8>>,
    Result<(), FsError>,
) {
    if !path_accepted(path) {
        (host, Err(FsError::InvalidPath))
    } else {
        match spec_remove(refused, host.contains_key(path)) {
            Ok(()) => (host.remove(path), Ok(())),
            Err(e) => (host, Err(e)),
        }
    }
}

} // verus!
