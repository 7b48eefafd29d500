//! The framed payload: a 4-byte big-endian length followed by the payload.

use vstd::prelude::*;

verus! {

/// Bytes taken by the length prefix.
pub const LENGTH_PREFIX_BYTES: u64 = 4;

/// The four bytes that announce a payload of `len` bytes, most significant
/// byte first.
pub open spec fn length_prefix(len: nat) -> Seq<u8> {
    seq![
        ((len / 0x100_0000) % 0x100) as u8,
        ((len / 0x1_0000) % 0x100) as u8,
        ((len / 0x100) % 0x100) as u8,
        (len % 0x100) as u8,
    ]
}

/// The length that the first four bytes of `header` announce.
pub open spec fn declared_length(header: Seq<u8>) -> nat {
    (header[0] * 0x100_0000 + header[1] * 0x1_0000 + header[2] * 0x100 + header[3]) as nat
}

/// The wire form of `payload`: its length prefix, then its bytes.
pub open spec fn framed(payload: Seq<u8>) -> Seq<u8> {
    length_prefix(payload.len()) + payload
}

/// A length prefix announces the length it was made from.
pub proof fn lemma_declared_length_of_prefix(len: nat)
    requires
        len <= u32::MAX,
    ensures
        declared_length(length_prefix(len)) == len,
        length_prefix(len).len() == 4,
{
}

/// A framed payload is four bytes longer than the payload, begins with the
/// length prefix and goes on with the payload.
pub proof fn lemma_framed_parts(payload: Seq<u8>)
    requires
        payload.len() <= u32::MAX,
    ensures
        framed(payload).len() == payload.len() + 4,
        framed(payload).subrange(0, 4) == length_prefix(payload.len()),
        declared_length(framed(payload).subrange(0, 4)) == payload.len(),
        framed(payload).subrange(0, framed(payload).len() as int).subrange(4, 4 + payload.len() as int)
            == payload,
{
    let wire = framed(payload);
    assert(wire.subrange(0, 4) =~= length_prefix(payload.len()));
    assert(wire.subrange(0, wire.len() as int).subrange(4, 4 + payload.len() as int) =~= payload);
}

/// The length that the header bytes `b0`, `b1`, `b2`, `b3` announce.
pub fn read_length(b0: u8, b1: u8, b2: u8, b3: u8) -> (len: u32)
    ensures
        len == declared_length(seq![b0, b1, b2, b3]),
{
    (b0 as u32) * 0x100_0000 + (b1 as u32) * 0x1_0000 + (b2 as u32) * 0x100 + (b3 as u32)
}

/// Frames `payload` for embedding.
pub fn frame_payload(payload: &[u8]) -> (f: Vec<u8>)
    requires
        payload@.len() <= u32::MAX,
    ensures
        f@ == framed(payload@),
{
    let len: usize = payload.len();
    let mut f: Vec<u8> = Vec::new();
    f.push(((len / 0x100_0000) % 0x100) as u8);
    f.push(((len / 0x1_0000) % 0x100) as u8);
    f.push(((len / 0x100) % 0x100) as u8);
    f.push((len % 0x100) as u8);
    assert(f@ =~= length_prefix(len as nat));
    let mut i: usize = 0;
    while i < len
        invariant
            len == payload@.len(),
            i <= len,
            f@ == length_prefix(len as nat) + payload@.subrange(0, i as int),
        decreases len - i,
    {
        f.push(payload[i]);
        i += 1;
        assert(f@ =~= length_prefix(len as nat) + payload@.subrange(0, i as int));
    }
    assert(payload@.subrange(0, len as int) =~= payload@);
    f
}

} // verus!
