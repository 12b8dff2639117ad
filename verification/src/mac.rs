//! The keyed authentication primitive that every tag, every derived key and
//! every keystream block of the store is made of.

use hmac::Hmac;
use hmac::Mac;
use sha2::Sha256;
use vstd::prelude::*;

verus! {

/// Length in bytes of a key.
pub const KEY_LEN: usize = 32;

/// Length in bytes of a tag.
pub const TAG_LEN: usize = 32;

/// The HMAC-SHA-256 code of `message` under `key`.
pub uninterp spec fn hmac_sha256(key: Seq<u8>, message: Seq<u8>) -> [u8; 32];

/// Two different inputs of the primitive that share one code. No tag can
/// tell such inputs apart, so every statement about detection in this crate
/// names the pairs that it needs to be free of this.
pub open spec fn collides(k1: Seq<u8>, m1: Seq<u8>, k2: Seq<u8>, m2: Seq<u8>) -> bool {
    (k1 != k2 || m1 != m2) && hmac_sha256(k1, m1) == hmac_sha256(k2, m2)
}

/// Computes HMAC-SHA-256 with `Hmac::<Sha256>`: `new_from_slice`, one
/// `update` with the whole message, then `finalize().into_bytes()`.
///
/// Trusted: the code depends on the key and the message alone, and is the
/// value that the contracts of this crate call `hmac_sha256`. The
/// constructor accepts a key of any length, so the call cannot fail.
#[verifier::external_body]
pub(crate) fn hmac_tag(key: &[u8; 32], message: &[u8]) -> (tag: [u8; 32])
    ensures
        tag == hmac_sha256(key@, message@),
{
    let mut mac = <Hmac<Sha256> as Mac>::new_from_slice(key).expect("any key length is accepted");
    mac.update(message);
    mac.finalize().into_bytes().into()
}

/// Compares two tags without stopping at the first difference.
pub fn tags_equal(a: &[u8; 32], b: &[u8; 32]) -> (same: bool)
    ensures
        same == (*a == *b),
{
    let mut diff: u8 = 0;
    let mut i: usize = 0;
    while i < 32
        invariant
            i <= 32,
            diff == 0 <==> a@.subrange(0, i as int) =~= b@.subrange(0, i as int),
        decreases 32 - i,
    {
        let x: u8 = a[i];
        let y: u8 = b[i];
        proof {
            assert(((diff | (x ^ y)) == 0) <==> (diff == 0 && x == y)) by (bit_vector);
            let pa = a@.subrange(0, i as int);
            let pb = b@.subrange(0, i as int);
            let qa = a@.subrange(0, i as int + 1);
            let qb = b@.subrange(0, i as int + 1);
            assert(qa == pa.push(x));
            assert(qb == pb.push(y));
            if qa == qb {
                assert(qa.drop_last() == pa);
                assert(qb.drop_last() == pb);
                assert(qa.last() == x);
            }
        }
        diff = diff | (x ^ y);
        i = i + 1;
    }
    proof {
        assert(a@.subrange(0, 32) == a@);
        assert(b@.subrange(0, 32) == b@);
        if a@ == b@ {
            assert(*a =~= *b);
        }
    }
    diff == 0
}

} // verus!
