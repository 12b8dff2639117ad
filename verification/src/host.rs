//! The untrusted host's file store, as the sealed store sees it: raw files
//! under path names, which anyone outside may read or change, and paths
//! that the host refuses to serve.

use crate::error::FsError;
use crate::range::{overwrite, spec_overwrite, spec_window, window};
use vstd::prelude::*;

verus! {

/// The host's files. The view maps each path that holds a file to the bytes
/// of that file.
pub struct HostFs {
    paths: Vec<String>,
    data: Vec<Vec<u8>>,
    refused: Vec<String>,
}

impl View for HostFs {
    type V = Map<Seq<char>, Seq<u8>>;

    closed spec fn view(&self) -> Map<Seq<char>, Seq<u8>> {
        Map::new(
            |p: Seq<char>| exists|i: int| self.holds_at(i, p),
            |p: Seq<char>| self.data@[choose|i: int| self.holds_at(i, p)]@,
        )
    }
}

impl HostFs {
    /// Entry `i` is the file under the path `p`.
    pub closed spec fn holds_at(&self, i: int, p: Seq<char>) -> bool {
        0 <= i < self.paths@.len() && self.paths@[i]@ == p
    }

    /// No path holds two files.
    pub closed spec fn wf(&self) -> bool {
        &&& self.paths@.len() == self.data@.len()
        &&& forall|i: int, j: int|
            0 <= i < j < self.paths@.len() ==> self.paths@[i]@ != self.paths@[j]@
    }

    /// The host refuses to create, open or remove a file under `p`.
    pub closed spec fn refuses(&self, p: Seq<char>) -> bool {
        exists|i: int| 0 <= i < self.refused@.len() && #[trigger] self.refused@[i]@ == p
    }

    proof fn lemma_entry(&self, i: int)
        requires
            self.wf(),
            0 <= i < self.paths@.len(),
        ensures
            self@.contains_key(self.paths@[i]@),
            self@[self.paths@[i]@] == self.data@[i]@,
    {
        let p = self.paths@[i]@;
        assert(self.holds_at(i, p));
        let c = choose|c: int| self.holds_at(c, p);
        assert(c == i);
    }

    /// A host that holds no file and refuses no path.
    pub fn new() -> (host: HostFs)
        ensures
            host.wf(),
            host@ == Map::<Seq<char>, Seq<u8>>::empty(),
            forall|p: Seq<char>| !host.refuses(p),
    {
        let host = HostFs { paths: Vec::new(), data: Vec::new(), refused: Vec::new() };
        assert(host@ =~= Map::<Seq<char>, Seq<u8>>::empty());
        host
    }

    /// The place of the file under `path`, if the host holds one.
    fn find(&self, path: &str) -> (found: Option<usize>)
        requires
            self.wf(),
        ensures
            match found {
                Some(i) => self.holds_at(i as int, path@),
                None => !self@.contains_key(path@),
            },
            found is Some <==> self@.contains_key(path@),
    {
        let key: String = path.to_owned();
        let mut i: usize = 0;
        while i < self.paths.len()
            invariant
                i <= self.paths@.len(),
                key@ == path@,
                forall|k: int| 0 <= k < i ==> self.paths@[k]@ != path@,
            decreases self.paths@.len() - i,
        {
            if self.paths[i] == key {
                assert(self.holds_at(i as int, path@));
                return Some(i);
            }
            i = i + 1;
        }
        None
    }

    /// Whether the host refuses `path`.
    pub fn is_refused(&self, path: &str) -> (refused: bool)
        ensures
            refused == self.refuses(path@),
    {
        let key: String = path.to_owned();
        let mut i: usize = 0;
        while i < self.refused.len()
            invariant
                i <= self.refused@.len(),
                key@ == path@,
                forall|k: int| 0 <= k < i ==> self.refused@[k]@ != path@,
            decreases self.refused@.len() - i,
        {
            if self.refused[i] == key {
                return true;
            }
            i = i + 1;
        }
        false
    }

    /// Whether the host holds a file under `path`.
    pub fn contains(&self, path: &str) -> (found: bool)
        requires
            self.wf(),
        ensures
            found == self@.contains_key(path@),
    {
        self.find(path).is_some()
    }

    /// Makes the host refuse `path` from now on. The files stay as they are.
    pub fn refuse(&mut self, path: &str)
        requires
            old(self).wf(),
        ensures
            final(self).wf(),
            final(self)@ == old(self)@,
            forall|p: Seq<char>| final(self).refuses(p) <==> (old(self).refuses(p) || p == path@),
    {
        let key: String = path.to_owned();
        let ghost before = self.refused@;
        self.refused.push(key);
        proof {
            assert(self@ =~= old(self)@) by {
                assert forall|i: int, p: Seq<char>| self.holds_at(i, p) == old(self).holds_at(
                    i,
                    p,
                ) by {}
            }
            assert forall|p: Seq<char>| final(self).refuses(p) <==> (old(self).refuses(p) || p
                == path@) by {
                if old(self).refuses(p) {
                    let i = choose|i: int| 0 <= i < before.len() && #[trigger] before[i]@ == p;
                    assert(self.refused@[i]@ == p);
                }
                if p == path@ {
                    assert(self.refused@[before.len() as int]@ == p);
                }
            }
        }
    }

    /// Creates an empty file under `path`, which must be new to the host.
    pub fn create(&mut self, path: &str) -> (res: Result<(), FsError>)
        requires
            old(self).wf(),
        ensures
            final(self).wf(),
            forall|p: Seq<char>| final(self).refuses(p) == old(self).refuses(p),
            res == spec_create(old(self).refuses(path@), old(self)@.contains_key(path@)),
            res is Ok ==> final(self)@ == old(self)@.insert(path@, Seq::<u8>::empty()),
            res is Err ==> final(self)@ == old(self)@,
    {
        if self.is_refused(path) {
            return Err(FsError::PermissionDenied);
        }
        if self.find(path).is_some() {
            return Err(FsError::AlreadyExists);
        }
        self.create_entry(path, Vec::new());
        Ok(())
    }

    /// Looks for the file under `path` and reports its length.
    pub fn open(&self, path: &str) -> (res: Result<usize, FsError>)
        requires
            self.wf(),
        ensures
            res is Ok <==> !self.refuses(path@) && self@.contains_key(path@),
            res is Ok ==> res->Ok_0 == self@[path@].len(),
            res is Err ==> res->Err_0 == (if self.refuses(path@) {
                FsError::PermissionDenied
            } else {
                FsError::NotFound
            }),
    {
        if self.is_refused(path) {
            return Err(FsError::PermissionDenied);
        }
        match self.find(path) {
            Some(i) => {
                proof {
                    self.lemma_entry(i as int);
                }
                Ok(self.data[i].len())
            },
            None => Err(FsError::NotFound),
        }
    }

    /// Reads at most `length` bytes of the file under `path`, from `offset`
    /// on: fewer only where the file ends.
    pub fn read(&self, path: &str, offset: usize, length: usize) -> (res: Result<Vec<u8>, FsError>)
        requires
            self.wf(),
        ensures
            res is Ok <==> self@.contains_key(path@),
            res is Ok ==> res->Ok_0@ == spec_window(self@[path@], offset as int, length as int),
            res is Err ==> res->Err_0 == FsError::NotFound,
    {
        match self.find(path) {
            Some(i) => {
                proof {
                    self.lemma_entry(i as int);
                }
                Ok(window(self.data[i].as_slice(), offset, length))
            },
            None => Err(FsError::NotFound),
        }
    }

    /// Writes `bytes` into the file under `path` at `offset`.
    pub fn write(&mut self, path: &str, offset: usize, bytes: &[u8]) -> (res: Result<(), FsError>)
        requires
            old(self).wf(),
        ensures
            final(self).wf(),
            forall|p: Seq<char>| final(self).refuses(p) == old(self).refuses(p),
            res == spec_write(old(self)@.contains_key(path@), offset as int, bytes@.len() as int),
            res is Ok ==> final(self)@ == old(self)@.insert(
                path@,
                spec_overwrite(old(self)@[path@], offset as int, bytes@),
            ),
            res is Err ==> final(self)@ == old(self)@,
    {
        match self.find(path) {
            Some(i) => {
                if bytes.len() > usize::MAX - offset {
                    return Err(FsError::Io);
                }
                proof {
                    self.lemma_entry(i as int);
                }
                overwrite(&mut self.data[i], offset, bytes);
                proof {
                    self.lemma_replaced(*old(self), i as int);
                }
                Ok(())
            },
            None => Err(FsError::NotFound),
        }
    }

    proof fn lemma_replaced(&self, before: HostFs, i: int)
        requires
            before.wf(),
            0 <= i < before.paths@.len(),
            self.paths == before.paths,
            self.refused == before.refused,
            self.data@ == before.data@.update(i, self.data@[i]),
        ensures
            self.wf(),
            self@ == before@.insert(before.paths@[i]@, self.data@[i]@),
    {
        let path = before.paths@[i]@;
        assert forall|p: Seq<char>| #[trigger] self@.contains_key(p) <==> (before@.contains_key(p)
            || p == path) by {
            if before@.contains_key(p) {
                let k = choose|k: int| before.holds_at(k, p);
                assert(self.holds_at(k, p));
            }
            if p == path {
                assert(self.holds_at(i, p));
            }
            if self@.contains_key(p) {
                let k = choose|k: int| self.holds_at(k, p);
                assert(before.holds_at(k, p));
            }
        }
        assert forall|p: Seq<char>| self@.contains_key(p) implies #[trigger] self@[p] == (if p
            == path {
            self.data@[i]@
        } else {
            before@[p]
        }) by {
            let k = choose|k: int| self.holds_at(k, p);
            self.lemma_entry(k);
            before.lemma_entry(k);
        }
        assert(self@ =~= before@.insert(path, self.data@[i]@));
    }

    /// Deletes the file under `path`.
    pub fn remove(&mut self, path: &str) -> (res: Result<(), FsError>)
        requires
            old(self).wf(),
        ensures
            final(self).wf(),
            forall|p: Seq<char>| final(self).refuses(p) == old(self).refuses(p),
            res == spec_remove(old(self).refuses(path@), old(self)@.contains_key(path@)),
            res is Ok ==> final(self)@ == old(self)@.remove(path@),
            res is Err ==> final(self)@ == old(self)@,
    {
        if self.is_refused(path) {
            return Err(FsError::PermissionDenied);
        }
        match self.find(path) {
            Some(i) => {
                let _ = self.paths.remove(i);
                let _ = self.data.remove(i);
                proof {
                    let before = *old(self);
                    let n = before.paths@.len() as int;
                    assert(self.refused@ == before.refused@);
                    assert(self.paths@ == before.paths@.remove(i as int));
                    assert(self.data@ == before.data@.remove(i as int));
                    assert(self.wf());
                    assert forall|p: Seq<char>| #[trigger] self@.contains_key(p) <==> (
                    before@.contains_key(p) && p != path@) by {
                        if before@.contains_key(p) && p != path@ {
                            let k = choose|k: int| before.holds_at(k, p);
                            if k < i {
                                assert(self.holds_at(k, p));
                            } else {
                                assert(self.holds_at(k - 1, p));
                            }
                        }
                        if self@.contains_key(p) {
                            let k = choose|k: int| self.holds_at(k, p);
                            if k < i {
                                assert(before.holds_at(k, p));
                            } else {
                                assert(before.holds_at(k + 1, p));
                            }
                        }
                    }
                    assert forall|p: Seq<char>| self@.contains_key(p) implies #[trigger] self@[p]
                        == before@[p] by {
                        let k = choose|k: int| self.holds_at(k, p);
                        self.lemma_entry(k);
                        if k < i {
                            before.lemma_entry(k);
                        } else {
                            before.lemma_entry(k + 1);
                        }
                    }
                    assert(self@ =~= before@.remove(path@));
                }
                Ok(())
            },
            None => Err(FsError::NotFound),
        }
    }

    /// The whole file under `path`, as the host holds it.
    pub fn contents(&self, path: &str) -> (found: Option<Vec<u8>>)
        requires
            self.wf(),
        ensures
            found is Some <==> self@.contains_key(path@),
            found is Some ==> found->Some_0@ == self@[path@],
    {
        match self.find(path) {
            Some(i) => {
                proof {
                    self.lemma_entry(i as int);
                }
                let copy = window(self.data[i].as_slice(), 0, self.data[i].len());
                assert(copy@ =~= self@[path@]);
                Some(copy)
            },
            None => None,
        }
    }

    /// Puts `content` under `path`, in place of what the host held there:
    /// what the host, or anyone with access to it, can do at any time.
    pub fn install(&mut self, path: &str, content: Vec<u8>)
        requires
            old(self).wf(),
        ensures
            final(self).wf(),
            forall|p: Seq<char>| final(self).refuses(p) == old(self).refuses(p),
            final(self)@ == old(self)@.insert(path@, content@),
    {
        match self.find(path) {
            Some(i) => {
                self.data.set(i, content);
                proof {
                    self.lemma_replaced(*old(self), i as int);
                }
            },
            None => {
                self.create_entry(path, content);
            },
        }
    }

    fn create_entry(&mut self, path: &str, content: Vec<u8>)
        requires
            old(self).wf(),
            !old(self)@.contains_key(path@),
        ensures
            final(self).wf(),
            forall|p: Seq<char>| final(self).refuses(p) == old(self).refuses(p),
            final(self)@ == old(self)@.insert(path@, content@),
    {
        self.paths.push(path.to_owned());
        self.data.push(content);
        proof {
            let n = old(self).paths@.len() as int;
            assert(self.refused@ == old(self).refused@);
            assert forall|i: int| 0 <= i < n implies old(self).paths@[i]@ != path@ by {
                if old(self).paths@[i]@ == path@ {
                    assert(old(self).holds_at(i, path@));
                }
            }
            assert(self.wf());
            assert forall|p: Seq<char>| #[trigger] self@.contains_key(p) <==> (old(
                self,
            )@.contains_key(p) || p == path@) by {
                if old(self)@.contains_key(p) {
                    let i = choose|i: int| old(self).holds_at(i, p);
                    assert(self.holds_at(i, p));
                }
                if p == path@ {
                    assert(self.holds_at(n, p));
                }
                if self@.contains_key(p) {
                    let i = choose|i: int| self.holds_at(i, p);
                    if i < n {
                        assert(old(self).holds_at(i, p));
                    }
                }
            }
            assert forall|p: Seq<char>| self@.contains_key(p) implies #[trigger] self@[p] == (if p
                == path@ {
                content@
            } else {
                old(self)@[p]
            }) by {
                let i = choose|i: int| self.holds_at(i, p);
                self.lemma_entry(i);
                if i < n {
                    old(self).lemma_entry(i);
                }
            }
            assert(self@ =~= old(self)@.insert(path@, content@));
        }
    }
}

/// What the host answers to a request to create a file.
pub open spec fn spec_create(refused: bool, present: bool) -> Result<(), FsError> {
    if refused {
        Err(FsError::PermissionDenied)
    } else if present {
        Err(FsError::AlreadyExists)
    } else {
        Ok(())
    }
}

/// What the host answers to a request to remove a file.
pub open spec fn spec_remove(refused: bool, present: bool) -> Result<(), FsError> {
    if refused {
        Err(FsError::PermissionDenied)
    } else if present {
        Ok(())
    } else {
        Err(FsError::NotFound)
    }
}

/// What the host answers to a write of `length` bytes at `offset`.
pub open spec fn spec_write(present: bool, offset: int, length: int) -> Result<(), FsError> {
    if !present {
        Err(FsError::NotFound)
    } else if offset + length > usize::MAX {
        Err(FsError::Io)
    } else {
        Ok(())
    }
}

} // verus!
