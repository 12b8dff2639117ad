//! The cipher and tag engine: derived keys, tags that bind a block to its
//! place in the tree, and a keystream for the blocks that are stored
//! encrypted.

use crate::error::AuthFailure;
use crate::mac::{hmac_sha256, hmac_tag, tags_equal};
use crate::range::{append_bytes, window};
use vstd::bytes::{spec_u64_to_le_bytes, u64_to_le_bytes};
use vstd::prelude::*;

verus! {

/// First byte of every message that produces a keystream block.
pub const DOMAIN_STREAM: u8 = 1;

/// First byte of every message that produces a tag.
pub const DOMAIN_TAG: u8 = 2;

/// First byte of every message that produces a derived key.
pub const DOMAIN_KEY: u8 = 3;

/// How a file is protected. The mode is chosen when the file is created and
/// holds for its whole life.
#[derive(Clone, Copy, Debug, PartialEq, Eq, Structural)]
pub enum ProtectionMode {
    /// The content is encrypted and authenticated.
    Full,
    /// The content is authenticated and stored in the clear.
    IntegrityOnly,
}

/// Where a block sits in the tree: its index among the children of its
/// parent, and the number of that parent.
#[derive(Clone, Copy, Debug, PartialEq, Eq, Structural)]
pub struct Binding {
    pub position: u64,
    pub parent: u64,
}

/// The sixteen bytes that stand for a binding in a tagged message.
pub open spec fn spec_binding_bytes(binding: Binding) -> Seq<u8> {
    spec_u64_to_le_bytes(binding.position) + spec_u64_to_le_bytes(binding.parent)
}

/// The message whose code is the key derived for the purpose `label` and
/// the given context.
pub open spec fn derive_message(label: u8, context: Seq<u8>) -> Seq<u8> {
    seq![DOMAIN_KEY, label] + context
}

/// The key derived from `key` for the purpose `label` and the given context.
pub open spec fn spec_derive(key: Seq<u8>, label: u8, context: Seq<u8>) -> [u8; 32] {
    hmac_sha256(key, derive_message(label, context))
}

/// Keystream block number `counter` under `key`, for the block whose tag is
/// `iv`.
pub open spec fn spec_stream_block(key: Seq<u8>, iv: Seq<u8>, counter: u64) -> [u8; 32] {
    hmac_sha256(key, seq![DOMAIN_STREAM] + iv + spec_u64_to_le_bytes(counter))
}

/// Keystream byte number `j` under `key`, for the block whose tag is `iv`.
pub open spec fn spec_stream_byte(key: Seq<u8>, iv: Seq<u8>, j: int) -> u8 {
    spec_stream_block(key, iv, (j / 32) as u64)@[j % 32]
}

/// `data` with the keystream of `key` and `iv` laid over it. The same
/// function encrypts and decrypts.
pub open spec fn spec_xor_stream(key: Seq<u8>, iv: Seq<u8>, data: Seq<u8>) -> Seq<u8> {
    Seq::new(data.len(), |j: int| data[j] ^ spec_stream_byte(key, iv, j))
}

/// The message whose code is the tag of the plain bytes of a block at the
/// place `binding`.
pub open spec fn tag_message(binding: Binding, plain: Seq<u8>) -> Seq<u8> {
    seq![DOMAIN_TAG] + spec_binding_bytes(binding) + plain
}

/// The tag of the plain bytes of a block at the place `binding`.
pub open spec fn spec_tag(key: Seq<u8>, binding: Binding, plain: Seq<u8>) -> [u8; 32] {
    hmac_sha256(key, tag_message(binding, plain))
}

/// The bytes that `recover` reads out of a stored block before it checks
/// them against the tag.
pub open spec fn spec_unprotect(mode: ProtectionMode, key: Seq<u8>, stored: Seq<u8>, tag: Seq<u8>) -> Seq<
    u8,
> {
    match mode {
        ProtectionMode::Full => spec_xor_stream(key, tag, stored),
        ProtectionMode::IntegrityOnly => stored,
    }
}

/// What `seal` makes of a block: the ciphertext and the tag. The tag is
/// taken of the plain bytes and then selects the keystream, so two different
/// blocks under one key never meet the same keystream unless their tags
/// collide.
pub open spec fn spec_seal(key: Seq<u8>, binding: Binding, plain: Seq<u8>) -> (Seq<u8>, Seq<u8>) {
    let tag = spec_tag(key, binding, plain)@;
    (spec_xor_stream(key, tag, plain), tag)
}

/// What `unseal` makes of a ciphertext and a tag: the plain bytes, where the
/// tag belongs to them.
pub open spec fn spec_unseal(key: Seq<u8>, binding: Binding, cipher: Seq<u8>, tag: Seq<u8>) -> Result<
    Seq<u8>,
    AuthFailure,
> {
    let plain = spec_xor_stream(key, tag, cipher);
    if tag == spec_tag(key, binding, plain)@ {
        Ok(plain)
    } else {
        Err(AuthFailure)
    }
}

/// What `verify` says of a block and a tag.
pub open spec fn spec_verify(key: Seq<u8>, binding: Binding, plain: Seq<u8>, tag: Seq<u8>) -> Result<
    (),
    AuthFailure,
> {
    if tag == spec_tag(key, binding, plain)@ {
        Ok(())
    } else {
        Err(AuthFailure)
    }
}

/// The stored form of a block and its tag, as the protection mode asks:
/// sealed, or left in the clear and tagged.
pub open spec fn spec_protect(mode: ProtectionMode, key: Seq<u8>, binding: Binding, plain: Seq<u8>) -> (
    Seq<u8>,
    Seq<u8>,
) {
    match mode {
        ProtectionMode::Full => spec_seal(key, binding, plain),
        ProtectionMode::IntegrityOnly => (plain, spec_tag(key, binding, plain)@),
    }
}

/// The plain bytes of a stored block, where its tag belongs to it.
pub open spec fn spec_recover(
    mode: ProtectionMode,
    key: Seq<u8>,
    binding: Binding,
    stored: Seq<u8>,
    tag: Seq<u8>,
) -> Result<Seq<u8>, AuthFailure> {
    match mode {
        ProtectionMode::Full => spec_unseal(key, binding, stored, tag),
        ProtectionMode::IntegrityOnly => match spec_verify(key, binding, stored, tag) {
            Ok(()) => Ok(stored),
            Err(e) => Err(e),
        },
    }
}

/// Laying the keystream over a block twice gives the block back.
pub proof fn lemma_xor_stream_involution(key: Seq<u8>, iv: Seq<u8>, data: Seq<u8>)
    ensures
        spec_xor_stream(key, iv, spec_xor_stream(key, iv, data)) == data,
        spec_xor_stream(key, iv, data).len() == data.len(),
{
    let once = spec_xor_stream(key, iv, data);
    let twice = spec_xor_stream(key, iv, once);
    assert forall|j: int| 0 <= j < data.len() implies twice[j] == data[j] by {
        let d: u8 = data[j];
        let s: u8 = spec_stream_byte(key, iv, j);
        assert((d ^ s) ^ s == d) by (bit_vector);
    }
    assert(twice =~= data);
}

/// What was protected is recovered unchanged, in either mode, and the stored
/// form is as long as the block.
pub proof fn lemma_recover_protect(mode: ProtectionMode, key: Seq<u8>, binding: Binding, plain: Seq<u8>)
    ensures
        spec_recover(
            mode,
            key,
            binding,
            spec_protect(mode, key, binding, plain).0,
            spec_protect(mode, key, binding, plain).1,
        ) == Ok::<Seq<u8>, AuthFailure>(plain),
        spec_protect(mode, key, binding, plain).0.len() == plain.len(),
        spec_protect(mode, key, binding, plain).1.len() == 32,
{
    lemma_xor_stream_involution(key, spec_tag(key, binding, plain)@, plain);
}

/// A stored block is recovered exactly where its tag is the tag of the
/// bytes read out of it, and those bytes are then what is recovered.
pub proof fn lemma_recover_unprotect(
    mode: ProtectionMode,
    key: Seq<u8>,
    binding: Binding,
    stored: Seq<u8>,
    tag: Seq<u8>,
)
    ensures
        spec_recover(mode, key, binding, stored, tag) is Ok <==> tag == spec_tag(
            key,
            binding,
            spec_unprotect(mode, key, stored, tag),
        )@,
        spec_recover(mode, key, binding, stored, tag) is Ok ==> spec_recover(
            mode,
            key,
            binding,
            stored,
            tag,
        )->Ok_0 == spec_unprotect(mode, key, stored, tag),
{
}

/// Two stored blocks from which the same bytes are read out under one key
/// and one tag are the same block.
pub proof fn lemma_unprotect_injective(
    mode: ProtectionMode,
    key: Seq<u8>,
    tag: Seq<u8>,
    a: Seq<u8>,
    b: Seq<u8>,
)
    requires
        spec_unprotect(mode, key, a, tag) == spec_unprotect(mode, key, b, tag),
    ensures
        a == b,
{
    lemma_xor_stream_involution(key, tag, a);
    lemma_xor_stream_involution(key, tag, b);
}

/// What is recovered is as long as what was stored.
pub proof fn lemma_recover_len(
    mode: ProtectionMode,
    key: Seq<u8>,
    binding: Binding,
    stored: Seq<u8>,
    tag: Seq<u8>,
)
    ensures
        spec_recover(mode, key, binding, stored, tag) is Ok ==> spec_recover(
            mode,
            key,
            binding,
            stored,
            tag,
        )->Ok_0.len() == stored.len(),
{
}

/// Derives the key for the purpose `label` and the given context.
pub fn derive_key(key: &[u8; 32], label: u8, context: &[u8]) -> (derived: [u8; 32])
    ensures
        derived == spec_derive(key@, label, context@),
{
    let mut message: Vec<u8> = Vec::new();
    message.push(DOMAIN_KEY);
    message.push(label);
    append_bytes(&mut message, context);
    assert(message@ =~= seq![DOMAIN_KEY, label] + context@);
    hmac_tag(key, message.as_slice())
}

/// Keystream block number `counter` under `key`, for the block whose tag is
/// `iv`.
fn stream_block(key: &[u8; 32], iv: &[u8; 32], counter: u64) -> (block: [u8; 32])
    ensures
        block == spec_stream_block(key@, iv@, counter),
{
    let mut message: Vec<u8> = Vec::new();
    message.push(DOMAIN_STREAM);
    append_bytes(&mut message, iv.as_slice());
    let le = u64_to_le_bytes(counter);
    append_bytes(&mut message, le.as_slice());
    assert(message@ =~= seq![DOMAIN_STREAM] + iv@ + spec_u64_to_le_bytes(counter));
    hmac_tag(key, message.as_slice())
}

/// Lays the keystream of `key` and `iv` over `data`.
pub fn xor_stream(key: &[u8; 32], iv: &[u8; 32], data: &[u8]) -> (out: Vec<u8>)
    ensures
        out@ == spec_xor_stream(key@, iv@, data@),
{
    let mut out: Vec<u8> = Vec::new();
    let mut block: [u8; 32] = [0u8; 32];
    let mut j: usize = 0;
    while j < data.len()
        invariant
            j <= data.len(),
            out@.len() == j,
            j % 32 != 0 ==> block == spec_stream_block(key@, iv@, (j / 32) as u64),
            forall|k: int| 0 <= k < j ==> out@[k] == data@[k] ^ spec_stream_byte(key@, iv@, k),
        decreases data.len() - j,
    {
        if j % 32 == 0 {
            block = stream_block(key, iv, (j / 32) as u64);
        }
        let s: u8 = block[j % 32];
        out.push(data[j] ^ s);
        assert((j + 1) % 32 != 0 ==> (j + 1) / 32 == j / 32);
        j = j + 1;
    }
    assert(out@ =~= spec_xor_stream(key@, iv@, data@));
    out
}

/// The message whose code is the tag of `stored` at `binding`.
fn tagged_message(binding: &Binding, stored: &[u8]) -> (message: Vec<u8>)
    ensures
        message@ == seq![DOMAIN_TAG] + spec_binding_bytes(*binding) + stored@,
{
    let mut message: Vec<u8> = Vec::new();
    message.push(DOMAIN_TAG);
    let position = u64_to_le_bytes(binding.position);
    let parent = u64_to_le_bytes(binding.parent);
    append_bytes(&mut message, position.as_slice());
    append_bytes(&mut message, parent.as_slice());
    append_bytes(&mut message, stored);
    assert(message@ =~= seq![DOMAIN_TAG] + spec_binding_bytes(*binding) + stored@);
    message
}

/// Tags a block.
pub fn authenticate(plain: &[u8], key: &[u8; 32], binding: &Binding) -> (tag: [u8; 32])
    ensures
        tag == spec_tag(key@, *binding, plain@),
{
    let message = tagged_message(binding, plain);
    hmac_tag(key, message.as_slice())
}

/// Checks the tag of a block against its plain bytes.
pub fn verify(plain: &[u8], tag: &[u8; 32], key: &[u8; 32], binding: &Binding) -> (res: Result<
    (),
    AuthFailure,
>)
    ensures
        res == spec_verify(key@, *binding, plain@, tag@),
{
    let expected = authenticate(plain, key, binding);
    let same = tags_equal(tag, &expected);
    proof {
        if tag@ == expected@ {
            assert(*tag =~= expected);
        }
    }
    if same {
        Ok(())
    } else {
        Err(AuthFailure)
    }
}

/// Tags a block and encrypts it under the keystream that the tag selects.
pub fn seal(plain: &[u8], key: &[u8; 32], binding: &Binding) -> (sealed: (Vec<u8>, [u8; 32]))
    ensures
        (sealed.0@, sealed.1@) == spec_seal(key@, *binding, plain@),
{
    let tag = authenticate(plain, key, binding);
    let cipher = xor_stream(key, &tag, plain);
    (cipher, tag)
}

/// Decrypts a ciphertext under the keystream that the tag selects and hands
/// the plain bytes out where the tag belongs to them.
pub fn unseal(cipher: &[u8], tag: &[u8; 32], key: &[u8; 32], binding: &Binding) -> (res: Result<
    Vec<u8>,
    AuthFailure,
>)
    ensures
        res is Ok <==> spec_unseal(key@, *binding, cipher@, tag@) is Ok,
        res is Ok ==> res->Ok_0@ == spec_unseal(key@, *binding, cipher@, tag@)->Ok_0,
{
    let plain = xor_stream(key, tag, cipher);
    match verify(plain.as_slice(), tag, key, binding) {
        Ok(()) => Ok(plain),
        Err(e) => Err(e),
    }
}

/// Brings a block into its stored form and tags it, as the mode asks.
pub fn protect(mode: ProtectionMode, plain: &[u8], key: &[u8; 32], binding: &Binding) -> (out: (
    Vec<u8>,
    [u8; 32],
))
    ensures
        (out.0@, out.1@) == spec_protect(mode, key@, *binding, plain@),
{
    match mode {
        ProtectionMode::Full => seal(plain, key, binding),
        ProtectionMode::IntegrityOnly => {
            let tag = authenticate(plain, key, binding);
            let copy = window(plain, 0, plain.len());
            assert(copy@ =~= plain@);
            (copy, tag)
        },
    }
}

/// Checks a stored block against its tag and hands its plain bytes out, as
/// the mode asks.
pub fn recover(
    mode: ProtectionMode,
    stored: &[u8],
    tag: &[u8; 32],
    key: &[u8; 32],
    binding: &Binding,
) -> (res: Result<Vec<u8>, AuthFailure>)
    ensures
        res is Ok <==> spec_recover(mode, key@, *binding, stored@, tag@) is Ok,
        res is Ok ==> res->Ok_0@ == spec_recover(mode, key@, *binding, stored@, tag@)->Ok_0,
{
    match mode {
        ProtectionMode::Full => unseal(stored, tag, key, binding),
        ProtectionMode::IntegrityOnly => match verify(stored, tag, key, binding) {
            Ok(()) => {
                let copy = window(stored, 0, stored.len());
                assert(copy@ =~= stored@);
                Ok(copy)
            },
            Err(e) => Err(e),
        },
    }
}

} // verus!
