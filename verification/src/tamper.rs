//! The laws of detection: what the store does with a file that was changed
//! behind its back, or that belongs to another identity.
//!
//! A tag of fixed length cannot tell apart two inputs of the primitive
//! that share one code. Each law therefore names the pair of inputs that
//! must not collide, and holds on every input but those.

use crate::cipher::{
    derive_message, lemma_recover_protect, lemma_recover_unprotect, lemma_unprotect_injective,
    spec_derive, spec_tag, spec_unprotect, tag_message, Binding, ProtectionMode,
};
use crate::error::FsError;
use crate::identity::{IdentityContext, LABEL_ROOT};
use crate::honest::{lemma_load_range_in_step, lemma_opened_in_step, lemma_table_in_step};
use crate::laws::{
    holds_node, holds_table, lemma_node_stored_len, lemma_sealed_image_holds,
    lemma_with_nodes_split,
};
use crate::mac::collides;
use crate::model::{CacheView, SessionState, SessionView};
use crate::path::path_accepted;
use crate::range::spec_window;
use crate::sound::lemma_with_nodes_wf;
use crate::tree::{
    lemma_decode_meta_node, lemma_node_bounds, lemma_node_of_byte, meta_binding, meta_head,
    meta_key, meta_node, node_binding, node_count, node_key, node_len, node_plain, node_stored,
    node_tag, sealed_image, table_binding, table_key, table_tag, tag_table, HEAD_LEN, LABEL_META,
    MAX_FILE_LEN, META_LEN, NODE_SIZE,
};
use vstd::prelude::*;

verus! {

/// Two codes with the same bytes are the same code.
proof fn lemma_same_code(a: [u8; 32], b: [u8; 32])
    requires
        a@ == b@,
    ensures
        a == b,
{
    assert(a =~= b);
}

/// The root secret of the file with the given nonce under the identity
/// that holds `secret`.
pub open spec fn root_of(secret: Seq<u8>, nonce: Seq<u8>) -> Seq<u8> {
    spec_derive(secret, LABEL_ROOT, nonce)@
}

/// What could let a file of one identity pass for a file of another: the
/// two secrets give the same root secret, or the two root secrets the same
/// key of the metadata node, or the two keys the same tag of its head.
pub open spec fn identity_collision(
    owner: Seq<u8>,
    other: Seq<u8>,
    mode: ProtectionMode,
    nonce: Seq<u8>,
    content: Seq<u8>,
) -> bool {
    let root = root_of(owner, nonce);
    let other_root = root_of(other, nonce);
    let head = meta_head(
        mode,
        nonce,
        root,
        content.len() as int,
        table_tag(root, tag_table(root, content)),
    );
    ||| collides(other, derive_message(LABEL_ROOT, nonce), owner, derive_message(LABEL_ROOT, nonce))
    ||| collides(
        other_root,
        derive_message(LABEL_META, Seq::<u8>::empty()),
        root,
        derive_message(LABEL_META, Seq::<u8>::empty()),
    )
    ||| collides(
        meta_key(other_root),
        tag_message(meta_binding(), head),
        meta_key(root),
        tag_message(meta_binding(), head),
    )
}

/// Identity binding. A file that was sealed under one identity does not
/// open under another: the attempt fails with `KeyDerivationFailed` where
/// the other identity yields no secret and with `IntegrityViolation`
/// where it does, and faults the session.
pub proof fn law_identity_binding(
    owner: [u8; 32],
    other: IdentityContext,
    host: Map<Seq<char>, Seq<u8>>,
    path: Seq<char>,
    mode: ProtectionMode,
    nonce: Seq<u8>,
    content: Seq<u8>,
)
    requires
        nonce.len() == 32,
        content.len() <= MAX_FILE_LEN,
        path_accepted(path),
        host.contains_key(path),
        host[path] == sealed_image(mode, nonce, root_of(owner@, nonce), content),
        other.secret != Some(owner),
        other.secret is Some ==> !identity_collision(
            owner@,
            other.secret->Some_0@,
            mode,
            nonce,
            content,
        ),
    ensures
        ({
            let opened = SessionView::fresh(other).open(host, false, path, mode);
            &&& opened.1 == (if other.secret is Some {
                Err::<(), FsError>(FsError::IntegrityViolation)
            } else {
                Err::<(), FsError>(FsError::KeyDerivationFailed)
            })
            &&& opened.0.state == SessionState::Faulted(opened.1->Err_0)
        }),
{
    let root = root_of(owner@, nonce);
    let root_tag = table_tag(root, tag_table(root, content));
    let image = sealed_image(mode, nonce, root, content);
    let head = meta_head(mode, nonce, root, content.len() as int, root_tag);
    lemma_sealed_image_holds(mode, nonce, root, content);
    lemma_decode_meta_node(mode, nonce, root, content.len() as int, root_tag);
    let meta = spec_window(image, 0, META_LEN as int);
    assert(meta.subrange(105, 137) =~= spec_tag(meta_key(root), meta_binding(), head)@);
    if other.secret is Some {
        let secret = other.secret->Some_0;
        let other_root = root_of(secret@, nonce);
        if secret@ == owner@ {
            lemma_same_code(secret, owner);
        }
        let opened = SessionView::fresh(other).open(host, false, path, mode);
        if opened.1 is Ok {
            lemma_same_code(
                spec_tag(meta_key(other_root), meta_binding(), head),
                spec_tag(meta_key(root), meta_binding(), head),
            );
            if meta_key(other_root) == meta_key(root) {
                lemma_same_code(
                    spec_derive(other_root, LABEL_META, Seq::<u8>::empty()),
                    spec_derive(root, LABEL_META, Seq::<u8>::empty()),
                );
                if other_root == root {
                    lemma_same_code(
                        spec_derive(secret@, LABEL_ROOT, nonce),
                        spec_derive(owner@, LABEL_ROOT, nonce),
                    );
                }
            }
            assert(false);
        }
    }
}

/// A window of an image in which one byte was replaced.
proof fn lemma_window_update(image: Seq<u8>, at: int, value: u8, offset: int, length: int)
    requires
        0 <= at < image.len(),
        0 <= offset,
        0 <= length,
        offset + length <= image.len(),
    ensures
        spec_window(image.update(at, value), offset, length) == (if offset <= at < offset + length {
            spec_window(image, offset, length).update(at - offset, value)
        } else {
            spec_window(image, offset, length)
        }),
{
    let changed = spec_window(image.update(at, value), offset, length);
    if offset <= at < offset + length {
        assert(changed =~= spec_window(image, offset, length).update(at - offset, value));
    } else {
        assert(changed =~= spec_window(image, offset, length));
    }
}

/// Two tagged messages of different blocks are different messages.
proof fn lemma_tag_message_differs(binding: Binding, a: Seq<u8>, b: Seq<u8>)
    requires
        a != b,
    ensures
        tag_message(binding, a) != tag_message(binding, b),
{
    let ma = tag_message(binding, a);
    let mb = tag_message(binding, b);
    if ma == mb {
        let prefix = ma.len() - a.len();
        assert(a.len() == b.len());
        assert forall|k: int| 0 <= k < a.len() implies a[k] == b[k] by {
            assert(ma[prefix + k] == a[k]);
            assert(mb[prefix + k] == b[k]);
        }
        assert(a =~= b);
    }
}

/// What could let a sealed image in which the byte at `at` was replaced by
/// `value` pass for a sound one: the changed part of the file has, under
/// the key of its node, the tag of the sound part. Replacing a byte of the
/// mode or of the metadata node's own tag is caught without fail.
pub open spec fn tamper_collision(
    secret: Seq<u8>,
    mode: ProtectionMode,
    nonce: Seq<u8>,
    content: Seq<u8>,
    at: int,
    value: u8,
) -> bool {
    let root = root_of(secret, nonce);
    let size = content.len() as int;
    let table = tag_table(root, content);
    let image = sealed_image(mode, nonce, root, content);
    let changed = image.update(at, value);
    if 1 <= at < HEAD_LEN {
        let other_root = root_of(secret, changed.subrange(1, 33));
        collides(
            meta_key(other_root),
            tag_message(meta_binding(), changed.subrange(0, HEAD_LEN as int)),
            meta_key(root),
            tag_message(meta_binding(), image.subrange(0, HEAD_LEN as int)),
        )
    } else if META_LEN <= at < META_LEN + size {
        let i = (at - META_LEN) / (NODE_SIZE as int);
        let stored = spec_window(changed, META_LEN + i * NODE_SIZE, node_len(size, i));
        collides(
            node_key(root, i),
            tag_message(
                node_binding(i),
                spec_unprotect(mode, node_key(root, i), stored, node_tag(root, content, i)),
            ),
            node_key(root, i),
            tag_message(node_binding(i), node_plain(content, i)),
        )
    } else if META_LEN + size <= at {
        collides(
            table_key(root),
            tag_message(table_binding(), spec_window(changed, META_LEN + size, 32 * node_count(size))),
            table_key(root),
            tag_message(table_binding(), table),
        )
    } else {
        false
    }
}

/// Tamper detection. Replace any one byte of a sealed file on the host by
/// another: to open the file and read its content then fails with
/// `IntegrityViolation`, at the open or at the read, and hands out no
/// content.
pub proof fn law_tamper_detection(
    identity: IdentityContext,
    host: Map<Seq<char>, Seq<u8>>,
    path: Seq<char>,
    mode: ProtectionMode,
    nonce: Seq<u8>,
    content: Seq<u8>,
    at: int,
    value: u8,
)
    requires
        nonce.len() == 32,
        content.len() <= MAX_FILE_LEN,
        path_accepted(path),
        identity.secret is Some,
        0 <= at < sealed_image(
            mode,
            nonce,
            root_of(identity.secret->Some_0@, nonce),
            content,
        ).len(),
        value != sealed_image(mode, nonce, root_of(identity.secret->Some_0@, nonce), content)[at],
        host.contains_key(path),
        host[path] == sealed_image(
            mode,
            nonce,
            root_of(identity.secret->Some_0@, nonce),
            content,
        ).update(at, value),
        !tamper_collision(identity.secret->Some_0@, mode, nonce, content, at, value),
    ensures
        ({
            let opened = SessionView::fresh(identity).open(host, false, path, mode);
            let read = opened.0.read(host, 0, content.len() as int);
            &&& opened.1 is Err ==> opened.1 == Err::<(), FsError>(FsError::IntegrityViolation)
            &&& read.1 == Err::<Seq<u8>, FsError>(FsError::IntegrityViolation)
            &&& read.0.state == SessionState::Faulted(FsError::IntegrityViolation)
        }),
{
    let secret = identity.secret->Some_0@;
    let root = root_of(secret, nonce);
    let size = content.len() as int;
    let nodes = node_count(size);
    let table = tag_table(root, content);
    let root_tag = table_tag(root, table);
    let image = sealed_image(mode, nonce, root, content);
    let changed = image.update(at, value);
    let head = meta_head(mode, nonce, root, size, root_tag);
    let sound_meta = meta_node(mode, nonce, root, size, root_tag);
    lemma_sealed_image_holds(mode, nonce, root, content);
    lemma_decode_meta_node(mode, nonce, root, size, root_tag);
    lemma_window_update(image, at, value, 0, META_LEN as int);
    let meta = spec_window(changed, 0, META_LEN as int);
    let opened = SessionView::fresh(identity).open(host, false, path, mode);
    assert(sound_meta.subrange(105, 137) =~= spec_tag(meta_key(root), meta_binding(), head)@);
    if at < META_LEN {
        assert(meta == sound_meta.update(at, value));
        if at == 0 {
            assert(opened.1 is Err);
        } else if at < HEAD_LEN {
            let other_root = root_of(secret, meta.subrange(1, 33));
            assert(meta.subrange(105, 137) =~= sound_meta.subrange(105, 137));
            assert(meta.subrange(0, 105) =~= changed.subrange(0, HEAD_LEN as int));
            assert(meta.subrange(1, 33) =~= changed.subrange(1, 33));
            assert(head =~= image.subrange(0, HEAD_LEN as int));
            assert(meta.subrange(0, 105)[at] != head[at]);
            lemma_tag_message_differs(meta_binding(), meta.subrange(0, 105), head);
            if opened.1 is Ok {
                lemma_same_code(
                    spec_tag(meta_key(other_root), meta_binding(), meta.subrange(0, 105)),
                    spec_tag(meta_key(root), meta_binding(), head),
                );
                assert(false);
            }
        } else {
            assert(meta.subrange(1, 33) =~= nonce);
            assert(meta.subrange(0, 105) =~= head);
            assert(meta.subrange(105, 137)[at - 105] != sound_meta.subrange(105, 137)[at - 105]);
            assert(opened.1 is Err);
        }
    } else {
        assert(meta == sound_meta);
        assert(opened.1 is Ok);
        let cache = CacheView::opened(mode, nonce, root, size, root_tag);
        assert(opened.0.cache == cache);
        lemma_opened_in_step(mode, nonce, root, content);
        assert(size > 0);
        lemma_node_of_byte(size, size - 1);
        assert((size - 1) / (NODE_SIZE as int) + 1 == nodes);
        lemma_window_update(image, at, value, META_LEN + size, 32 * nodes);
        if at < META_LEN + size {
            let i = (at - META_LEN) / (NODE_SIZE as int);
            lemma_node_of_byte(size, at - META_LEN);
            assert(holds_table(changed, root, content));
            assert forall|k: int| 0 <= k < i implies holds_node(changed, mode, root, content, k) by {
                assert(holds_node(image, mode, root, content, k));
                assert(at - META_LEN >= i * NODE_SIZE);
                lemma_node_bounds(size, k);
                lemma_window_update(image, at, value, META_LEN + k * NODE_SIZE, node_len(size, k));
            }
            lemma_load_range_in_step(cache, changed, content, content, 0, i);
            lemma_with_nodes_split(cache, changed, 0, i, nodes);
            let before = cache.with_nodes(changed, 0, i)->Ok_0;
            assert(!before.loaded[i]);
            lemma_table_in_step(before, changed, content, content);
            lemma_node_bounds(size, i);
            lemma_node_stored_len(mode, root, content, i);
            lemma_window_update(image, at, value, META_LEN + i * NODE_SIZE, node_len(size, i));
            let stored = spec_window(changed, META_LEN + i * NODE_SIZE, node_len(size, i));
            let sound = node_stored(mode, root, content, i);
            assert(stored[at - META_LEN - i * NODE_SIZE] != sound[at - META_LEN - i * NODE_SIZE]);
            let key = node_key(root, i);
            let tag = node_tag(root, content, i);
            let with_table = before.with_table(changed)->Ok_0;
            assert(before.with_table(changed) is Ok);
            assert(with_table.table == Some(table));
            assert(table.subrange(32 * i, 32 * i + 32) =~= tag) by {
                assert forall|k: int| 0 <= k < 32 implies table.subrange(32 * i, 32 * i + 32)[k]
                    == tag[k] by {
                    assert((32 * i + k) / 32 == i);
                    assert((32 * i + k) % 32 == k);
                }
            }
            lemma_recover_unprotect(mode, key, node_binding(i), stored, tag);
            lemma_recover_unprotect(mode, key, node_binding(i), sound, tag);
            lemma_recover_protect(mode, key, node_binding(i), node_plain(content, i));
            let plain = spec_unprotect(mode, key, stored, tag);
            if plain == node_plain(content, i) {
                lemma_unprotect_injective(mode, key, tag, stored, sound);
            }
            lemma_tag_message_differs(node_binding(i), plain, node_plain(content, i));
            if before.with_node(changed, i) is Ok {
                lemma_same_code(
                    spec_tag(key, node_binding(i), plain),
                    spec_tag(key, node_binding(i), node_plain(content, i)),
                );
                assert(false);
            }
            assert(before.with_node(changed, i) == Err::<CacheView, FsError>(
                FsError::IntegrityViolation,
            ));
        } else {
            let found = spec_window(changed, META_LEN + size, 32 * nodes);
            assert(found[at - META_LEN - size] != table[at - META_LEN - size]);
            lemma_tag_message_differs(table_binding(), found, table);
            if cache.with_table(changed) is Ok {
                lemma_same_code(
                    spec_tag(table_key(root), table_binding(), found),
                    spec_tag(table_key(root), table_binding(), table),
                );
                assert(false);
            }
            assert(cache.with_node(changed, 0) == Err::<CacheView, FsError>(
                FsError::IntegrityViolation,
            ));
        }
    }
}

/// Truncation. Cut a sealed file on the host short at any place: to open
/// the file and read its content then fails with `IntegrityViolation`, at
/// the open or at the read, and hands out no content.
pub proof fn law_truncation_detection(
    identity: IdentityContext,
    host: Map<Seq<char>, Seq<u8>>,
    path: Seq<char>,
    mode: ProtectionMode,
    nonce: Seq<u8>,
    content: Seq<u8>,
    kept: int,
)
    requires
        nonce.len() == 32,
        content.len() <= MAX_FILE_LEN,
        path_accepted(path),
        identity.secret is Some,
        0 <= kept < sealed_image(
            mode,
            nonce,
            root_of(identity.secret->Some_0@, nonce),
            content,
        ).len(),
        host.contains_key(path),
        host[path] == sealed_image(
            mode,
            nonce,
            root_of(identity.secret->Some_0@, nonce),
            content,
        ).subrange(0, kept),
    ensures
        ({
            let opened = SessionView::fresh(identity).open(host, false, path, mode);
            let read = opened.0.read(host, 0, content.len() as int);
            &&& opened.1 is Err ==> opened.1 == Err::<(), FsError>(FsError::IntegrityViolation)
            &&& read.1 == Err::<Seq<u8>, FsError>(FsError::IntegrityViolation)
            &&& read.0.state == SessionState::Faulted(FsError::IntegrityViolation)
        }),
{
    let root = root_of(identity.secret->Some_0@, nonce);
    let size = content.len() as int;
    let nodes = node_count(size);
    let root_tag = table_tag(root, tag_table(root, content));
    let image = sealed_image(mode, nonce, root, content);
    let cut = image.subrange(0, kept);
    lemma_sealed_image_holds(mode, nonce, root, content);
    lemma_decode_meta_node(mode, nonce, root, size, root_tag);
    let opened = SessionView::fresh(identity).open(host, false, path, mode);
    if kept >= META_LEN {
        assert(spec_window(cut, 0, META_LEN as int) =~= spec_window(image, 0, META_LEN as int));
        assert(opened.1 is Ok);
        let cache = CacheView::opened(mode, nonce, root, size, root_tag);
        assert(opened.0.cache == cache);
        assert(size > 0);
        lemma_node_of_byte(size, size - 1);
        assert(!cache.loaded[0]);
        assert(cache.with_table(cut) is Err);
        assert(cache.with_node(cut, 0) == Err::<CacheView, FsError>(FsError::IntegrityViolation));
    }
}

/// Authenticity of what is read. Whatever the host holds and whatever was
/// done to it: where a read succeeds, every node that the read touches is
/// in the cache and the session is sound, so that each such node that is
/// not dirty carries the tag that the table gives for it and the table
/// carries the root tag; and the root tag is the one that the session had
/// before, from the metadata node that it checked.
pub proof fn law_read_authentic(
    session: SessionView,
    host: Map<Seq<char>, Seq<u8>>,
    offset: int,
    length: int,
)
    requires
        session.wf(),
        0 <= offset,
        0 <= length,
    ensures
        ({
            let read = session.read(host, offset, length);
            let size = session.cache.content.len() as int;
            let start = if offset < size { offset } else { size };
            let end = if offset + length < size { offset + length } else { size };
            read.1 is Ok ==> {
                &&& read.0.wf()
                &&& read.0.cache.authentic()
                &&& read.0.cache.root_tag == session.cache.root_tag
                &&& read.0.cache.dirty == session.cache.dirty
                &&& read.0.cache.content.len() == size
                &&& read.1->Ok_0 == read.0.cache.content.subrange(start, end)
                &&& forall|i: int|
                    start < end && start / (NODE_SIZE as int) <= i <= (end - 1) / (
                    NODE_SIZE as int) ==> read.0.cache.loaded[i]
            }
        }),
{
    let read = session.read(host, offset, length);
    let size = session.cache.content.len() as int;
    let start = if offset < size { offset } else { size };
    let end = if offset + length < size { offset + length } else { size };
    if read.1 is Ok && start < end {
        lemma_node_of_byte(size, end - 1);
        let from = start / (NODE_SIZE as int);
        let to = (end - 1) / (NODE_SIZE as int) + 1;
        lemma_with_nodes_wf(session.cache, session.image(host), from, to);
    }
}

} // verus!
