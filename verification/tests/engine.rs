use sealed_fs::cipher::{
    authenticate, derive_key, protect, recover, seal, unseal, verify, xor_stream, Binding,
    ProtectionMode,
};
use sealed_fs::error::AuthFailure;
use sealed_fs::identity::IdentityContext;
use sealed_fs::mac::tags_equal;
use sealed_fs::FsError;

fn hex(text: &str) -> Vec<u8> {
    (0..text.len() / 2).map(|i| u8::from_str_radix(&text[2 * i..2 * i + 2], 16).unwrap()).collect()
}

fn counting_key() -> [u8; 32] {
    let mut key = [0u8; 32];
    for (i, b) in key.iter_mut().enumerate() {
        *b = i as u8;
    }
    key
}

#[test]
fn derived_key_is_the_code_of_label_and_context() {
    let derived = derive_key(&counting_key(), 9, b"context");
    assert_eq!(
        derived.to_vec(),
        hex("6f8a5445ddc1d5e44ba5ac0baa56a1172e5bc151398379a1aacb99462f0c227b")
    );
    assert_ne!(derived, counting_key());
}

#[test]
fn derived_keys_differ_by_label_and_by_context() {
    let key = counting_key();
    assert_ne!(derive_key(&key, 1, b"x"), derive_key(&key, 2, b"x"));
    assert_ne!(derive_key(&key, 1, b"x"), derive_key(&key, 1, b"y"));
    assert_eq!(derive_key(&key, 1, b"x"), derive_key(&key, 1, b"x"));
}

#[test]
fn root_secret_of_an_identity() {
    let identity = IdentityContext::new([7u8; 32]);
    assert_eq!(
        identity.derive(&[1u8; 32]).unwrap().to_vec(),
        hex("9488a215d155558b85161942cb2b936e54d6f8e5e6d010286995330517f37877")
    );
    assert_eq!(identity.derive(&[1u8; 32]), identity.derive(&[1u8; 32]));
    assert_ne!(identity.derive(&[1u8; 32]), identity.derive(&[2u8; 32]));
    assert_ne!(
        identity.derive(&[1u8; 32]),
        IdentityContext::new([8u8; 32]).derive(&[1u8; 32])
    );
}

#[test]
fn unavailable_identity_derives_nothing() {
    assert_eq!(
        IdentityContext::unavailable().derive(&[1u8; 32]),
        Err(FsError::KeyDerivationFailed)
    );
}

#[test]
fn tag_of_a_block_at_a_place() {
    let binding = Binding { position: 5, parent: 1 };
    let tag = authenticate(b"block", &counting_key(), &binding);
    assert_eq!(
        tag.to_vec(),
        hex("ab725e12dd191e8e73c816d7702a999c39256d513af532466c851e155f75dfea")
    );
}

#[test]
fn tag_depends_on_the_place() {
    let key = counting_key();
    let here = authenticate(b"block", &key, &Binding { position: 5, parent: 1 });
    let there = authenticate(b"block", &key, &Binding { position: 6, parent: 1 });
    let elsewhere = authenticate(b"block", &key, &Binding { position: 5, parent: 2 });
    assert_ne!(here, there);
    assert_ne!(here, elsewhere);
}

#[test]
fn verify_accepts_the_tag_and_nothing_else() {
    let key = counting_key();
    let binding = Binding { position: 5, parent: 1 };
    let tag = authenticate(b"block", &key, &binding);
    assert_eq!(verify(b"block", &tag, &key, &binding), Ok(()));
    assert_eq!(verify(b"blocl", &tag, &key, &binding), Err(AuthFailure));
    assert_eq!(
        verify(b"block", &tag, &key, &Binding { position: 4, parent: 1 }),
        Err(AuthFailure)
    );
    let mut other = tag;
    other[31] ^= 1;
    assert_eq!(verify(b"block", &other, &key, &binding), Err(AuthFailure));
}

#[test]
fn keystream_over_forty_bytes() {
    let data: Vec<u8> = (0..40u8).collect();
    let out = xor_stream(&counting_key(), &[0xaa; 32], &data);
    assert_eq!(
        out,
        hex("a2dcd765c7650c86c01d725d6b46c112cec3c9cdf13532d559e06b6d5e7c29729777138a62c345df")
    );
    assert_eq!(xor_stream(&counting_key(), &[0xaa; 32], &out), data);
}

#[test]
fn keystream_of_nothing_is_nothing() {
    assert_eq!(xor_stream(&counting_key(), &[0xaa; 32], &[]), Vec::<u8>::new());
}

#[test]
fn seal_gives_ciphertext_and_tag() {
    let binding = Binding { position: 5, parent: 1 };
    let (cipher, tag) = seal(b"block of plain bytes", &counting_key(), &binding);
    assert_eq!(cipher, hex("461c1f938b66987c0e8311411657d2653e50d8d4"));
    assert_eq!(
        tag.to_vec(),
        hex("ce991a48bdd3b75ae19c6cfcd0ea8e6fc84fa77aee0ee3ad5d38a7cb7b99a909")
    );
}

#[test]
fn unseal_gives_the_block_back() {
    let key = counting_key();
    let binding = Binding { position: 5, parent: 1 };
    let (cipher, tag) = seal(b"block of plain bytes", &key, &binding);
    assert_eq!(unseal(&cipher, &tag, &key, &binding), Ok(b"block of plain bytes".to_vec()));
}

#[test]
fn unseal_rejects_a_changed_ciphertext_tag_key_or_place() {
    let key = counting_key();
    let binding = Binding { position: 5, parent: 1 };
    let (cipher, tag) = seal(b"block of plain bytes", &key, &binding);
    let mut changed = cipher.clone();
    changed[3] ^= 0x80;
    assert_eq!(unseal(&changed, &tag, &key, &binding), Err(AuthFailure));
    let mut other_tag = tag;
    other_tag[0] ^= 1;
    assert_eq!(unseal(&cipher, &other_tag, &key, &binding), Err(AuthFailure));
    assert_eq!(unseal(&cipher, &tag, &[9u8; 32], &binding), Err(AuthFailure));
    assert_eq!(
        unseal(&cipher, &tag, &key, &Binding { position: 6, parent: 1 }),
        Err(AuthFailure)
    );
    assert_eq!(unseal(&cipher[..19], &tag, &key, &binding), Err(AuthFailure));
}

#[test]
fn protect_in_integrity_only_mode_leaves_the_block_in_the_clear() {
    let key = counting_key();
    let binding = Binding { position: 5, parent: 1 };
    let (stored, tag) = protect(ProtectionMode::IntegrityOnly, b"block", &key, &binding);
    assert_eq!(stored, b"block".to_vec());
    assert_eq!(tag, authenticate(b"block", &key, &binding));
    assert_eq!(
        recover(ProtectionMode::IntegrityOnly, &stored, &tag, &key, &binding),
        Ok(b"block".to_vec())
    );
    assert_eq!(
        recover(ProtectionMode::IntegrityOnly, b"blick", &tag, &key, &binding),
        Err(AuthFailure)
    );
}

#[test]
fn protect_in_full_mode_seals() {
    let key = counting_key();
    let binding = Binding { position: 5, parent: 1 };
    let (stored, tag) = protect(ProtectionMode::Full, b"block of plain bytes", &key, &binding);
    assert_eq!((stored.clone(), tag), seal(b"block of plain bytes", &key, &binding));
    assert_ne!(stored, b"block of plain bytes".to_vec());
    assert_eq!(
        recover(ProtectionMode::Full, &stored, &tag, &key, &binding),
        Ok(b"block of plain bytes".to_vec())
    );
    assert_eq!(
        recover(ProtectionMode::IntegrityOnly, &stored, &tag, &key, &binding),
        Err(AuthFailure)
    );
}

#[test]
fn tags_equal_compares_every_byte() {
    let a = [3u8; 32];
    let mut b = a;
    assert!(tags_equal(&a, &b));
    b[31] = 4;
    assert!(!tags_equal(&a, &b));
    b = a;
    b[0] = 2;
    assert!(!tags_equal(&a, &b));
}
