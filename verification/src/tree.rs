//! The node tree of a sealed file and its layout on the host.
//!
//! A file is one metadata node, the content nodes that hold its bytes, and
//! above them the root of the content tree: the table of the content nodes'
//! tags. The tag of the table stands in the metadata node, so the
//! metadata node's own tag vouches for every node beneath it.
//!
//! The tree is flat: the table is its only inner node. One tag, that of
//! the metadata node, still vouches for every byte, and a node is checked
//! only when it is first touched; the price is that the first touch reads
//! the whole table, which grows with the file.
//!
//! On the host the metadata node comes first, then the content nodes in
//! their stored form, then the table.

use crate::cipher::{
    authenticate, derive_key, lemma_recover_len, lemma_recover_protect, protect, recover,
    spec_derive, spec_protect, spec_recover, spec_tag, spec_verify, verify, Binding,
    ProtectionMode,
};
use crate::error::AuthFailure;
use crate::range::append_bytes;
use vstd::bytes::{
    lemma_auto_spec_u64_to_from_le_bytes, spec_u64_from_le_bytes, spec_u64_to_le_bytes,
    u64_from_le_bytes, u64_to_le_bytes,
};
use vstd::prelude::*;
use vstd::slice::slice_subrange;

verus! {

/// Bytes of content in a content node; the last node of a file may hold
/// fewer.
pub const NODE_SIZE: usize = 4096;

/// Bytes of the metadata node: its head, and the node's own tag.
pub const META_LEN: usize = 137;

/// Bytes of the head of the metadata node: the mode, the nonce, and the
/// length and the root tag in their stored form with the tag that
/// protects them.
pub const HEAD_LEN: usize = 105;

/// The longest content that a sealed file can hold.
pub const MAX_FILE_LEN: usize = 0x4000_0000;

/// Number of the metadata node.
pub const META_NODE: u64 = 0;

/// Number of the root of the content tree, the table of tags.
pub const ROOT_NODE: u64 = 1;

/// What stands for the parent of the metadata node, which has none.
pub const NO_NODE: u64 = 0xffff_ffff_ffff_ffff;

/// Purpose label of the metadata node's key.
pub const LABEL_META: u8 = 1;

/// Purpose label of the table's key.
pub const LABEL_TABLE: u8 = 2;

/// Purpose label of a content node's key.
pub const LABEL_NODE: u8 = 3;

/// The byte that stands for a protection mode in the metadata node.
pub open spec fn mode_byte(mode: ProtectionMode) -> u8 {
    match mode {
        ProtectionMode::Full => 0u8,
        ProtectionMode::IntegrityOnly => 1u8,
    }
}

/// How many content nodes a file of the given length has.
pub open spec fn node_count(length: int) -> int {
    (length + NODE_SIZE - 1) / (NODE_SIZE as int)
}

/// How many bytes content node `i` of a file of the given length holds.
pub open spec fn node_len(length: int, i: int) -> int {
    if (i + 1) * NODE_SIZE <= length {
        NODE_SIZE as int
    } else {
        length - i * NODE_SIZE
    }
}

/// The plain bytes of content node `i`.
pub open spec fn node_plain(content: Seq<u8>, i: int) -> Seq<u8> {
    content.subrange(i * NODE_SIZE, i * NODE_SIZE + node_len(content.len() as int, i))
}

/// The place of the metadata node, which has no parent.
pub open spec fn meta_binding() -> Binding {
    Binding { position: META_NODE, parent: NO_NODE }
}

/// The place of the protected fields, inside the metadata node.
pub open spec fn fields_binding() -> Binding {
    Binding { position: META_NODE, parent: META_NODE }
}

/// The place of the table, beneath the metadata node.
pub open spec fn table_binding() -> Binding {
    Binding { position: ROOT_NODE, parent: META_NODE }
}

/// The place of content node `i`, beneath the table.
pub open spec fn node_binding(i: int) -> Binding {
    Binding { position: (i + 2) as u64, parent: ROOT_NODE }
}

/// The key of the metadata node of a file with the given root secret.
pub open spec fn meta_key(root: Seq<u8>) -> Seq<u8> {
    spec_derive(root, LABEL_META, Seq::<u8>::empty())@
}

/// The key of the table.
pub open spec fn table_key(root: Seq<u8>) -> Seq<u8> {
    spec_derive(root, LABEL_TABLE, Seq::<u8>::empty())@
}

/// The key of content node `i`.
pub open spec fn node_key(root: Seq<u8>, i: int) -> Seq<u8> {
    spec_derive(root, LABEL_NODE, spec_u64_to_le_bytes(i as u64))@
}

/// The tag of content node `i` of a file with the given content.
pub open spec fn node_tag(root: Seq<u8>, content: Seq<u8>, i: int) -> Seq<u8> {
    spec_tag(node_key(root, i), node_binding(i), node_plain(content, i))@
}

/// The stored form of content node `i`.
pub open spec fn node_stored(mode: ProtectionMode, root: Seq<u8>, content: Seq<u8>, i: int) -> Seq<
    u8,
> {
    spec_protect(mode, node_key(root, i), node_binding(i), node_plain(content, i)).0
}

/// The stored forms of all content nodes, one after the other.
pub open spec fn stored_data(mode: ProtectionMode, root: Seq<u8>, content: Seq<u8>) -> Seq<u8> {
    Seq::new(
        content.len(),
        |k: int| node_stored(mode, root, content, k / (NODE_SIZE as int))[k % (NODE_SIZE as int)],
    )
}

/// The table: the tags of all content nodes, one after the other.
pub open spec fn tag_table(root: Seq<u8>, content: Seq<u8>) -> Seq<u8> {
    Seq::new(
        (32 * node_count(content.len() as int)) as nat,
        |k: int| node_tag(root, content, k / 32)[k % 32],
    )
}

/// The tag of a table: the root tag of the file.
pub open spec fn table_tag(root: Seq<u8>, table: Seq<u8>) -> Seq<u8> {
    spec_tag(table_key(root), table_binding(), table)@
}

/// The fields that the metadata node protects: the length of the content
/// and the root tag.
pub open spec fn meta_fields(length: int, root_tag: Seq<u8>) -> Seq<u8> {
    spec_u64_to_le_bytes(length as u64) + root_tag
}

/// The head of the metadata node of a file: the mode and the nonce in the
/// clear, then the fields in their stored form and the tag that protects
/// them.
pub open spec fn meta_head(
    mode: ProtectionMode,
    nonce: Seq<u8>,
    root: Seq<u8>,
    length: int,
    root_tag: Seq<u8>,
) -> Seq<u8> {
    let sealed = spec_protect(mode, meta_key(root), fields_binding(), meta_fields(length, root_tag));
    seq![mode_byte(mode)] + nonce + sealed.0 + sealed.1
}

/// The metadata node of a file: its head, and the tag of the head, which
/// vouches for the whole file.
pub open spec fn meta_node(
    mode: ProtectionMode,
    nonce: Seq<u8>,
    root: Seq<u8>,
    length: int,
    root_tag: Seq<u8>,
) -> Seq<u8> {
    let head = meta_head(mode, nonce, root, length, root_tag);
    head + spec_tag(meta_key(root), meta_binding(), head)@
}

/// The whole file as the host holds it after a flush.
pub open spec fn sealed_image(mode: ProtectionMode, nonce: Seq<u8>, root: Seq<u8>, content: Seq<u8>) -> Seq<
    u8,
> {
    let table = tag_table(root, content);
    meta_node(mode, nonce, root, content.len() as int, table_tag(root, table)) + stored_data(
        mode,
        root,
        content,
    ) + table
}

/// What a metadata node says once its tag is checked under the file's root
/// secret: the length of the content and the root tag.
pub open spec fn spec_decode_meta(mode: ProtectionMode, root: Seq<u8>, meta: Seq<u8>) -> Result<
    (int, Seq<u8>),
    AuthFailure,
> {
    if meta.len() != META_LEN || meta[0] != mode_byte(mode) {
        Err(AuthFailure)
    } else if spec_verify(meta_key(root), meta_binding(), meta.subrange(0, 105), meta.subrange(105, 137))
        is Err {
        Err(AuthFailure)
    } else {
        match spec_recover(
            mode,
            meta_key(root),
            fields_binding(),
            meta.subrange(33, 73),
            meta.subrange(73, 105),
        ) {
            Ok(fields) => {
                let length = spec_u64_from_le_bytes(fields.subrange(0, 8));
                if length > MAX_FILE_LEN {
                    Err(AuthFailure)
                } else {
                    Ok((length as int, fields.subrange(8, 40)))
                }
            },
            Err(e) => Err(e),
        }
    }
}

/// A metadata node decodes to the length and the root tag it was made of.
pub proof fn lemma_decode_meta_node(
    mode: ProtectionMode,
    nonce: Seq<u8>,
    root: Seq<u8>,
    length: int,
    root_tag: Seq<u8>,
)
    requires
        nonce.len() == 32,
        root_tag.len() == 32,
        0 <= length <= MAX_FILE_LEN,
    ensures
        meta_head(mode, nonce, root, length, root_tag).len() == HEAD_LEN,
        meta_node(mode, nonce, root, length, root_tag).len() == META_LEN,
        meta_node(mode, nonce, root, length, root_tag).subrange(1, 33) == nonce,
        meta_node(mode, nonce, root, length, root_tag).subrange(0, 105) == meta_head(
            mode,
            nonce,
            root,
            length,
            root_tag,
        ),
        spec_decode_meta(mode, root, meta_node(mode, nonce, root, length, root_tag)) == Ok::<
            (int, Seq<u8>),
            AuthFailure,
        >((length, root_tag)),
{
    let fields = meta_fields(length, root_tag);
    let key = meta_key(root);
    let sealed = spec_protect(mode, key, fields_binding(), fields);
    let head = meta_head(mode, nonce, root, length, root_tag);
    let node = meta_node(mode, nonce, root, length, root_tag);
    lemma_auto_spec_u64_to_from_le_bytes();
    lemma_recover_protect(mode, key, fields_binding(), fields);
    assert(fields.len() == 40);
    assert(node.subrange(0, 105) =~= head);
    assert(node.subrange(105, 137) =~= spec_tag(key, meta_binding(), head)@);
    assert(node.subrange(33, 73) =~= sealed.0);
    assert(node.subrange(73, 105) =~= sealed.1);
    assert(node.subrange(1, 33) =~= nonce);
    assert(fields.subrange(0, 8) =~= spec_u64_to_le_bytes(length as u64));
    assert(fields.subrange(8, 40) =~= root_tag);
}

/// Every content node of a file holds at least one byte, at most a full
/// node, and lies within the content.
pub proof fn lemma_node_bounds(length: int, i: int)
    requires
        0 <= length,
        0 <= i < node_count(length),
    ensures
        0 < node_len(length, i) <= NODE_SIZE,
        i * NODE_SIZE + node_len(length, i) <= length,
        i + 1 < node_count(length) ==> node_len(length, i) == NODE_SIZE,
        i + 1 == node_count(length) ==> i * NODE_SIZE + node_len(length, i) == length,
{
}

/// The node that holds byte `k` of a file.
pub proof fn lemma_node_of_byte(length: int, k: int)
    requires
        0 <= k < length,
    ensures
        0 <= k / (NODE_SIZE as int) < node_count(length),
        0 <= k % (NODE_SIZE as int) < node_len(length, k / (NODE_SIZE as int)),
        k == (k / (NODE_SIZE as int)) * NODE_SIZE + k % (NODE_SIZE as int),
{
}

/// How many content nodes a file of the given length has.
pub fn node_count_of(length: usize) -> (n: usize)
    requires
        length <= MAX_FILE_LEN,
    ensures
        n == node_count(length as int),
        n <= MAX_FILE_LEN / NODE_SIZE,
{
    (length + (NODE_SIZE - 1)) / NODE_SIZE
}

/// How many bytes content node `i` of a file of the given length holds.
pub fn node_len_of(length: usize, i: usize) -> (n: usize)
    requires
        length <= MAX_FILE_LEN,
        i < node_count(length as int),
    ensures
        n == node_len(length as int, i as int),
{
    if (i + 1) * NODE_SIZE <= length {
        NODE_SIZE
    } else {
        length - i * NODE_SIZE
    }
}

/// Copies the 32 bytes of `bytes` that start at `at`.
pub fn take32(bytes: &[u8], at: usize) -> (out: [u8; 32])
    requires
        at + 32 <= bytes.len(),
    ensures
        out@ == bytes@.subrange(at as int, at + 32),
{
    let mut out: [u8; 32] = [0u8; 32];
    let mut i: usize = 0;
    while i < 32
        invariant
            i <= 32,
            at + 32 <= bytes.len(),
            forall|k: int| 0 <= k < i ==> out@[k] == bytes@[at + k],
        decreases 32 - i,
    {
        out[i] = bytes[at + i];
        i = i + 1;
    }
    assert(out@ =~= bytes@.subrange(at as int, at + 32));
    out
}

/// The byte that stands for `mode` in the metadata node.
pub fn mode_to_byte(mode: ProtectionMode) -> (b: u8)
    ensures
        b == mode_byte(mode),
{
    match mode {
        ProtectionMode::Full => 0u8,
        ProtectionMode::IntegrityOnly => 1u8,
    }
}

/// Derives the key of the metadata node.
pub fn meta_key_of(root: &[u8; 32]) -> (key: [u8; 32])
    ensures
        key@ == meta_key(root@),
{
    let context: Vec<u8> = Vec::new();
    assert(context@ =~= Seq::<u8>::empty());
    derive_key(root, LABEL_META, context.as_slice())
}

/// Derives the key of the table.
pub fn table_key_of(root: &[u8; 32]) -> (key: [u8; 32])
    ensures
        key@ == table_key(root@),
{
    let context: Vec<u8> = Vec::new();
    assert(context@ =~= Seq::<u8>::empty());
    derive_key(root, LABEL_TABLE, context.as_slice())
}

/// Derives the key of content node `index`.
pub fn node_key_of(root: &[u8; 32], index: usize) -> (key: [u8; 32])
    ensures
        key@ == node_key(root@, index as int),
{
    let context = u64_to_le_bytes(index as u64);
    derive_key(root, LABEL_NODE, context.as_slice())
}

/// The place of content node `index`.
pub fn node_binding_of(index: usize) -> (binding: Binding)
    requires
        index <= MAX_FILE_LEN,
    ensures
        binding == node_binding(index as int),
{
    Binding { position: (index + 2) as u64, parent: ROOT_NODE }
}

/// Computes the root tag: the tag of the table.
pub fn table_tag_of(root: &[u8; 32], table: &[u8]) -> (tag: [u8; 32])
    ensures
        tag@ == table_tag(root@, table@),
{
    let key = table_key_of(root);
    let binding = Binding { position: ROOT_NODE, parent: META_NODE };
    authenticate(table, &key, &binding)
}

/// Builds the metadata node of a file.
pub fn encode_meta(
    mode: ProtectionMode,
    nonce: &[u8; 32],
    root: &[u8; 32],
    length: usize,
    root_tag: &[u8; 32],
) -> (node: Vec<u8>)
    requires
        length <= MAX_FILE_LEN,
    ensures
        node@ == meta_node(mode, nonce@, root@, length as int, root_tag@),
{
    let key = meta_key_of(root);
    let inner = Binding { position: META_NODE, parent: META_NODE };
    let outer = Binding { position: META_NODE, parent: NO_NODE };
    let mut fields = u64_to_le_bytes(length as u64);
    append_bytes(&mut fields, root_tag.as_slice());
    let (stored, fields_tag) = protect(mode, fields.as_slice(), &key, &inner);
    let mut node: Vec<u8> = Vec::new();
    node.push(mode_to_byte(mode));
    append_bytes(&mut node, nonce.as_slice());
    append_bytes(&mut node, stored.as_slice());
    append_bytes(&mut node, fields_tag.as_slice());
    assert(node@ =~= meta_head(mode, nonce@, root@, length as int, root_tag@));
    let tag = authenticate(node.as_slice(), &key, &outer);
    append_bytes(&mut node, tag.as_slice());
    node
}

/// Checks a metadata node under the file's root secret and reads the
/// length of the content and the root tag out of it.
pub fn decode_meta(mode: ProtectionMode, root: &[u8; 32], meta: &[u8]) -> (res: Result<
    (usize, [u8; 32]),
    AuthFailure,
>)
    ensures
        res is Ok <==> spec_decode_meta(mode, root@, meta@) is Ok,
        res is Ok ==> (res->Ok_0.0 as int, res->Ok_0.1@) == spec_decode_meta(
            mode,
            root@,
            meta@,
        )->Ok_0,
{
    if meta.len() != META_LEN || meta[0] != mode_to_byte(mode) {
        return Err(AuthFailure);
    }
    let key = meta_key_of(root);
    let inner = Binding { position: META_NODE, parent: META_NODE };
    let outer = Binding { position: META_NODE, parent: NO_NODE };
    let tag = take32(meta, 105);
    match verify(slice_subrange(meta, 0, 105), &tag, &key, &outer) {
        Ok(()) => {},
        Err(e) => {
            return Err(e);
        },
    }
    let fields_tag = take32(meta, 73);
    let stored = slice_subrange(meta, 33, 73);
    match recover(mode, stored, &fields_tag, &key, &inner) {
        Ok(fields) => {
            proof {
                lemma_recover_len(mode, key@, inner, stored@, fields_tag@);
            }
            let length: u64 = u64_from_le_bytes(slice_subrange(fields.as_slice(), 0, 8));
            if length > MAX_FILE_LEN as u64 {
                Err(AuthFailure)
            } else {
                let root_tag = take32(fields.as_slice(), 8);
                Ok((length as usize, root_tag))
            }
        },
        Err(e) => Err(e),
    }
}

} // verus!
