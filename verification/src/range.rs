//! Byte ranges: what a read of a window returns and what a write at an
//! offset leaves behind, for the host's files and for logical content alike.

use vstd::prelude::*;

verus! {

/// The bytes of `data` from `offset` on, at most `length` of them: fewer
/// only where `data` ends.
pub open spec fn spec_window(data: Seq<u8>, offset: int, length: int) -> Seq<u8> {
    let start = if offset < data.len() { offset } else { data.len() as int };
    let end = if offset + length < data.len() { offset + length } else { data.len() as int };
    data.subrange(start, end)
}

/// `data` after `bytes` were written at `offset`: a gap between the old end
/// and `offset` reads as zeros.
pub open spec fn spec_overwrite(data: Seq<u8>, offset: int, bytes: Seq<u8>) -> Seq<u8> {
    let end = offset + bytes.len();
    let len = if end > data.len() { end } else { data.len() as int };
    Seq::new(
        len as nat,
        |k: int|
            if offset <= k < end {
                bytes[k - offset]
            } else if k < data.len() {
                data[k]
            } else {
                0u8
            },
    )
}

/// Appends `more` to `bytes`.
pub fn append_bytes(bytes: &mut Vec<u8>, more: &[u8])
    ensures
        final(bytes)@ == old(bytes)@ + more@,
{
    let mut i: usize = 0;
    while i < more.len()
        invariant
            i <= more.len(),
            bytes@ == old(bytes)@ + more@.subrange(0, i as int),
        decreases more.len() - i,
    {
        bytes.push(more[i]);
        i = i + 1;
        assert(bytes@ =~= old(bytes)@ + more@.subrange(0, i as int));
    }
    assert(more@.subrange(0, more.len() as int) == more@);
}

/// Copies the window of `data` that starts at `offset` and holds at most
/// `length` bytes.
pub fn window(data: &[u8], offset: usize, length: usize) -> (out: Vec<u8>)
    ensures
        out@ == spec_window(data@, offset as int, length as int),
{
    let start: usize = if offset < data.len() { offset } else { data.len() };
    let end: usize = if length < data.len() - start { start + length } else { data.len() };
    let mut out: Vec<u8> = Vec::new();
    let mut k: usize = start;
    while k < end
        invariant
            start <= k <= end <= data.len(),
            out@ == data@.subrange(start as int, k as int),
        decreases end - k,
    {
        out.push(data[k]);
        k = k + 1;
        assert(out@ =~= data@.subrange(start as int, k as int));
    }
    assert(out@ =~= spec_window(data@, offset as int, length as int));
    out
}

/// Writes `bytes` into `data` at `offset`, growing `data` where the write
/// passes its end.
pub fn overwrite(data: &mut Vec<u8>, offset: usize, bytes: &[u8])
    requires
        offset + bytes.len() <= usize::MAX,
    ensures
        final(data)@ == spec_overwrite(old(data)@, offset as int, bytes@),
{
    while data.len() < offset
        invariant
            data@.len() <= offset || data@ == old(data)@,
            data@.len() >= old(data)@.len(),
            data@.subrange(0, old(data)@.len() as int) == old(data)@,
            forall|k: int| old(data)@.len() <= k < data@.len() ==> data@[k] == 0u8,
        decreases offset - data.len(),
    {
        data.push(0u8);
        assert(data@.subrange(0, old(data)@.len() as int) =~= old(data)@);
    }
    let ghost filled = data@;
    let mut k: usize = 0;
    while k < bytes.len()
        invariant
            k <= bytes.len(),
            offset + bytes.len() <= usize::MAX,
            filled.len() >= offset,
            data@.len() == (if offset + k > filled.len() { (offset + k) as nat } else { filled.len() }),
            forall|j: int|
                0 <= j < data@.len() ==> data@[j] == (if offset <= j < offset + k {
                    bytes@[j - offset]
                } else {
                    filled[j]
                }),
        decreases bytes.len() - k,
    {
        if offset + k < data.len() {
            data.set(offset + k, bytes[k]);
        } else {
            data.push(bytes[k]);
        }
        k = k + 1;
    }
    assert(data@ =~= spec_overwrite(old(data)@, offset as int, bytes@)) by {
        assert forall|j: int| 0 <= j < filled.len() implies filled[j] == (if j < old(data)@.len() {
            old(data)@[j]
        } else {
            0u8
        }) by {
            if j < old(data)@.len() {
                assert(filled.subrange(0, old(data)@.len() as int)[j] == filled[j]);
            }
        }
    }
}

/// Whether two byte strings are the same.
pub fn bytes_equal(a: &[u8], b: &[u8]) -> (same: bool)
    ensures
        same == (a@ == b@),
{
    if a.len() != b.len() {
        return false;
    }
    let mut i: usize = 0;
    while i < a.len()
        invariant
            i <= a.len(),
            a.len() == b.len(),
            forall|k: int| 0 <= k < i ==> a@[k] == b@[k],
        decreases a.len() - i,
    {
        if a[i] != b[i] {
            return false;
        }
        i = i + 1;
    }
    assert(a@ =~= b@);
    true
}

} // verus!
