//! The file session: the state machine behind one handle. It lets no
//! operation through in a state that does not allow it, routes reads and
//! writes through the node cache, and commits the root tag on close.

use crate::cache::{plan_view, HostWrite, NodeCache};
use crate::cipher::ProtectionMode;
use crate::error::FsError;
use crate::host::HostFs;
use crate::identity::IdentityContext;
use crate::model::{spec_remove_file, SessionState, SessionView};
use crate::path::{validate_path, PathVerdict};
use crate::tree::{decode_meta, encode_meta, table_tag_of, take32, MAX_FILE_LEN, META_LEN};
use vstd::prelude::*;

verus! {

/// One handle on a sealed file.
pub struct FileSession {
    state: SessionState,
    identity: IdentityContext,
    path: String,
    cache: NodeCache,
}

impl View for FileSession {
    type V = SessionView;

    closed spec fn view(&self) -> SessionView {
        SessionView {
            state: self.state,
            identity: self.identity,
            path: self.path@,
            cache: self.cache@,
        }
    }
}

impl FileSession {
    /// What a session must hold of itself at all times.
    pub open spec fn wf(&self) -> bool {
        self@.wf()
    }

    /// A session for the given identity, with no file yet.
    pub fn new(identity: IdentityContext) -> (session: FileSession)
        ensures
            session@ == SessionView::fresh(identity),
            session.wf(),
    {
        FileSession {
            state: SessionState::Fresh,
            identity,
            path: String::new(),
            cache: NodeCache::idle(),
        }
    }

    /// Where the session stands.
    pub fn state(&self) -> (state: SessionState)
        ensures
            state == self@.state,
    {
        self.state
    }

    /// The length of the content of the open file, with all writes made so
    /// far; zero where no file is open.
    pub fn len(&self) -> (n: usize)
        ensures
            n == self@.cache.content.len(),
    {
        self.cache.len()
    }

    /// Ends the work on the file: the cache is released, and with it all
    /// that was not flushed, and the session takes the given state.
    fn end(&mut self, state: SessionState)
        ensures
            final(self)@ == old(self)@.ended(state),
    {
        self.state = state;
        self.path = String::new();
        self.cache = NodeCache::idle();
    }

    /// Creates the file under `path` in the given mode and opens it with
    /// no content. `nonce` must be fresh and random: the root secret of
    /// the file is derived from it.
    pub fn create(
        &mut self,
        host: &mut HostFs,
        path: &str,
        mode: ProtectionMode,
        nonce: [u8; 32],
    ) -> (res: Result<(), FsError>)
        requires
            old(self).wf(),
            old(host).wf(),
        ensures
            final(self).wf(),
            final(host).wf(),
            forall|p: Seq<char>| final(host).refuses(p) == old(host).refuses(p),
            (final(self)@, final(host)@, res) == old(self)@.create(
                old(host)@,
                old(host).refuses(path@),
                path@,
                mode,
                nonce@,
            ),
    {
        match self.state {
            SessionState::Fresh => {},
            _ => {
                return Err(FsError::PermissionDenied);
            },
        }
        match validate_path(path) {
            PathVerdict::Accepted => {},
            PathVerdict::Rejected(_) => {
                return Err(FsError::InvalidPath);
            },
        }
        if host.is_refused(path) {
            return Err(FsError::PermissionDenied);
        }
        if host.contains(path) {
            return Err(FsError::AlreadyExists);
        }
        match self.identity.derive(&nonce) {
            Err(e) => {
                self.end(SessionState::Faulted(e));
                Err(e)
            },
            Ok(root) => {
                let none: Vec<u8> = Vec::new();
                assert(none@ =~= Seq::<u8>::empty());
                let root_tag = table_tag_of(&root, none.as_slice());
                let meta = encode_meta(mode, &nonce, &root, 0, &root_tag);
                host.install(path, meta);
                self.path = path.to_owned();
                self.cache = NodeCache::created(mode, nonce, root);
                self.state = SessionState::Open;
                Ok(())
            },
        }
    }

    /// Opens the file under `path`, which must have been created in the
    /// given mode under the identity of this session. Only the metadata
    /// node is read and checked.
    pub fn open(&mut self, host: &HostFs, path: &str, mode: ProtectionMode) -> (res: Result<
        (),
        FsError,
    >)
        requires
            old(self).wf(),
            host.wf(),
        ensures
            final(self).wf(),
            (final(self)@, res) == old(self)@.open(host@, host.refuses(path@), path@, mode),
    {
        match self.state {
            SessionState::Fresh => {},
            _ => {
                return Err(FsError::PermissionDenied);
            },
        }
        match validate_path(path) {
            PathVerdict::Accepted => {},
            PathVerdict::Rejected(_) => {
                return Err(FsError::InvalidPath);
            },
        }
        match host.open(path) {
            Ok(_) => {},
            Err(e) => {
                return Err(e);
            },
        }
        let meta = match host.read(path, 0, META_LEN) {
            Ok(bytes) => bytes,
            Err(e) => {
                return Err(e);
            },
        };
        if meta.len() < META_LEN {
            self.end(SessionState::Faulted(FsError::IntegrityViolation));
            return Err(FsError::IntegrityViolation);
        }
        let nonce = take32(meta.as_slice(), 1);
        match self.identity.derive(&nonce) {
            Err(e) => {
                self.end(SessionState::Faulted(e));
                Err(e)
            },
            Ok(root) => match decode_meta(mode, &root, meta.as_slice()) {
                Err(_) => {
                    self.end(SessionState::Faulted(FsError::IntegrityViolation));
                    Err(FsError::IntegrityViolation)
                },
                Ok((length, root_tag)) => {
                    self.path = path.to_owned();
                    self.cache = NodeCache::opened(mode, nonce, root, length, root_tag);
                    self.state = SessionState::Open;
                    Ok(())
                },
            },
        }
    }

    /// Reads at most `length` bytes of the content from `offset` on:
    /// fewer only where the content ends. Either every byte handed out was
    /// checked against the root tag, or none is handed out and the session
    /// is faulted.
    pub fn read(&mut self, host: &HostFs, offset: usize, length: usize) -> (res: Result<
        Vec<u8>,
        FsError,
    >)
        requires
            old(self).wf(),
            host.wf(),
        ensures
            final(self).wf(),
            match old(self)@.read(host@, offset as int, length as int).1 {
                Ok(bytes) => res is Ok && res->Ok_0@ == bytes,
                Err(e) => res is Err && res->Err_0 == e,
            },
            final(self)@ == old(self)@.read(host@, offset as int, length as int).0,
    {
        match self.state {
            SessionState::Open => {},
            SessionState::Faulted(e) => {
                return Err(e);
            },
            _ => {
                return Err(FsError::PermissionDenied);
            },
        }
        match self.cache.read(host, self.path.as_str(), offset, length) {
            Ok(bytes) => Ok(bytes),
            Err(e) => {
                self.end(SessionState::Faulted(e));
                Err(e)
            },
        }
    }

    /// Writes `bytes` into the content at `offset` and reports how many
    /// bytes were written: all of them, or the call fails as a whole.
    /// Nothing reaches the host before a flush.
    pub fn write(&mut self, host: &HostFs, offset: usize, bytes: &[u8]) -> (res: Result<
        usize,
        FsError,
    >)
        requires
            old(self).wf(),
            host.wf(),
        ensures
            final(self).wf(),
            match old(self)@.write(host@, offset as int, bytes@).1 {
                Ok(n) => res is Ok && res->Ok_0 == n,
                Err(e) => res is Err && res->Err_0 == e,
            },
            final(self)@ == old(self)@.write(host@, offset as int, bytes@).0,
    {
        match self.state {
            SessionState::Open => {},
            SessionState::Faulted(e) => {
                return Err(e);
            },
            _ => {
                return Err(FsError::PermissionDenied);
            },
        }
        if bytes.len() > 0 && (offset > MAX_FILE_LEN || bytes.len() > MAX_FILE_LEN - offset) {
            return Err(FsError::Io);
        }
        match self.cache.write(host, self.path.as_str(), offset, bytes) {
            Ok(()) => Ok(bytes.len()),
            Err(e) => {
                self.end(SessionState::Faulted(e));
                Err(e)
            },
        }
    }

    /// Hands what is dirty to the host: the content nodes first, the table
    /// above them next, the metadata node last.
    pub fn flush(&mut self, host: &mut HostFs) -> (res: Result<(), FsError>)
        requires
            old(self).wf(),
            old(host).wf(),
        ensures
            final(self).wf(),
            final(host).wf(),
            forall|p: Seq<char>| final(host).refuses(p) == old(host).refuses(p),
            (final(self)@, final(host)@, res) == old(self)@.flush(old(host)@),
    {
        match self.state {
            SessionState::Open => {},
            SessionState::Faulted(e) => {
                return Err(e);
            },
            _ => {
                return Err(FsError::PermissionDenied);
            },
        }
        self.cache.flush(host, self.path.as_str())
    }

    /// The writes that a flush would ask of the host now, in their order.
    pub fn plan(&self) -> (res: Result<Vec<HostWrite>, FsError>)
        requires
            self.wf(),
        ensures
            match self@.gate() {
                Ok(()) => res is Ok && plan_view(res->Ok_0@) == self@.cache.plan(),
                Err(e) => res is Err && res->Err_0 == e,
            },
    {
        match self.state {
            SessionState::Open => {},
            SessionState::Faulted(e) => {
                return Err(e);
            },
            _ => {
                return Err(FsError::PermissionDenied);
            },
        }
        Ok(self.cache.plan())
    }

    /// Flushes an open file as far as the host allows and ends the
    /// session. It never fails.
    pub fn close(&mut self, host: &mut HostFs)
        requires
            old(self).wf(),
            old(host).wf(),
        ensures
            final(self).wf(),
            final(host).wf(),
            forall|p: Seq<char>| final(host).refuses(p) == old(host).refuses(p),
            (final(self)@, final(host)@) == old(self)@.close(old(host)@),
    {
        match self.state {
            SessionState::Open => {
                let _ = self.cache.flush(host, self.path.as_str());
            },
            _ => {},
        }
        self.end(SessionState::Closed);
    }

    /// The root tag of the open file with all writes made so far, flushed
    /// or not. Only a file in integrity-only mode gives its tag away.
    pub fn get_authentication_tag(&self) -> (res: Result<[u8; 32], FsError>)
        requires
            self.wf(),
        ensures
            match self@.authentication_tag() {
                Ok(tag) => res is Ok && res->Ok_0@ == tag,
                Err(e) => res is Err && res->Err_0 == e,
            },
    {
        match self.state {
            SessionState::Open => {},
            SessionState::Faulted(e) => {
                return Err(e);
            },
            _ => {
                return Err(FsError::PermissionDenied);
            },
        }
        match self.cache.mode() {
            ProtectionMode::IntegrityOnly => Ok(self.cache.live_tag()),
            ProtectionMode::Full => Err(FsError::PermissionDenied),
        }
    }
}

/// Deletes the file under `path` from the host, with all its nodes.
pub fn remove(host: &mut HostFs, path: &str) -> (res: Result<(), FsError>)
    requires
        old(host).wf(),
    ensures
        final(host).wf(),
        forall|p: Seq<char>| final(host).refuses(p) == old(host).refuses(p),
        (final(host)@, res) == spec_remove_file(old(host)@, old(host).refuses(path@), path@),
{
    match validate_path(path) {
        PathVerdict::Accepted => {},
        PathVerdict::Rejected(_) => {
            return Err(FsError::InvalidPath);
        },
    }
    host.remove(path)
}

} // verus!
